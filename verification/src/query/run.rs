//! Running a query over what the store gave: the live rows of the scope's
//! unit, whether each passed the store's bond checks (`has`, `some`), and
//! the ties pulled for each link. The answer keeps the rows that pass every
//! predicate, counts them or orders and pages them, and bags them with the
//! links' live ties, ordered by key.
use vstd::prelude::*;
use crate::error::{Error, adapt};
use crate::life::{Row, Tie};
use crate::query::{Bag, CAP, Pack, Tree, preds_view};
use crate::query::check::Scope;
use crate::query::sift::{order, page, pass, row_hits, rows_after, sorted_stably, sort_opt};
use crate::text::{own, push_str};

verus! {

/// Row `row` passes every predicate of `ps` that the row itself decides.
pub open spec fn passes(row: Row, ps: Seq<crate::query::PredV>) -> bool {
    forall|i: int| 0 <= i < ps.len() ==> row_hits(row, #[trigger] ps[i])
}

/// The rows kept: those that pass the predicates and the store's bond
/// checks (`kept`), in order.
pub open spec fn sifted(rows: Seq<Row>, kept: Seq<bool>, ps: Seq<crate::query::PredV>) -> Seq<Row>
    decreases rows.len(),
{
    if rows.len() == 0 {
        Seq::empty()
    } else {
        let head = sifted(rows.drop_last(), kept.drop_last(), ps);
        if passes(rows.last(), ps) && kept.last() {
            head.push(rows.last())
        } else {
            head
        }
    }
}

/// The rows of a query: those that pass the predicates and, where `kept`
/// says so, the store's bond checks, in the order scanned.
pub fn sift(tree: &Tree, rows: Vec<Row>, kept: &[bool]) -> (r: Vec<Row>)
    requires
        kept@.len() == rows@.len(),
        forall|i: int| 0 <= i < rows@.len() ==> #[trigger] rows@[i].wf(),
    ensures
        r@ == sifted(rows@, kept@, tree@.preds),
        forall|i: int| 0 <= i < r@.len() ==> #[trigger] r@[i].wf(),
{
    let preds = tree.preds();
    let ghost ps = tree@.preds;
    let ghost rv = rows@;
    let mut out: Vec<Row> = Vec::new();
    let mut i: usize = 0;
    let n = rows.len();
    let mut src = rows;
    assert(rv.take(0) =~= Seq::<Row>::empty());
    assert(src@ =~= rv.skip(0));
    while i < n
        invariant
            0 <= i <= n,
            n == rv.len(),
            kept@.len() == rv.len(),
            src@ == rv.skip(i as int),
            preds_view(preds@) == ps,
            forall|j: int| 0 <= j < rv.len() ==> #[trigger] rv[j].wf(),
            out@ == sifted(rv.take(i as int), kept@.take(i as int), ps),
            forall|j: int| 0 <= j < out@.len() ==> #[trigger] out@[j].wf(),
        decreases n - i,
    {
        let row = src.remove(0);
        assert(row == rv[i as int]);
        assert(rv.skip(i + 1) =~= src@);
        proof {
            assert(rv.take(i + 1).drop_last() =~= rv.take(i as int));
            assert(kept@.take(i + 1).drop_last() =~= kept@.take(i as int));
            assert(rv.take(i + 1).last() == rv[i as int]);
        }
        if pass(&row, preds) && kept[i] {
            out.push(row);
        }
        i = i + 1;
    }
    assert(rv.take(n as int) =~= rv);
    assert(kept@.take(n as int) =~= kept@);
    out
}

/// A query's first ordering key, if any.
pub open spec fn first_sort(t: crate::query::TreeV) -> Option<crate::query::SortV> {
    if t.sorts.len() > 0 {
        Some(t.sorts[0])
    } else {
        None
    }
}

/// The rows of a query, ordered by its first sort and paged by its start
/// and limit.
pub fn settle(tree: &Tree, rows: Vec<Row>) -> (r: Vec<Row>)
    requires
        forall|i: int| 0 <= i < rows@.len() ==> #[trigger] rows@[i].wf(),
    ensures
        exists|o: Seq<Row>| {
            &&& sorted_stably(o, rows@, first_sort(tree@))
            &&& r@ == ({
                let a = match tree@.after {
                    Some(id) => rows_after(o, id),
                    None => o,
                };
                match tree@.limit {
                    Some(n) => if n < a.len() { a.take(n as int) } else { a },
                    None => a,
                }
            })
        },
{
    let mut rows = rows;
    let sort = tree.sort();
    assert(sort_opt(sort) == first_sort(tree@));
    order(&mut rows, sort);
    page(&mut rows, tree.after(), tree.limit());
    rows
}

/// Tie keys are in ascending order.
pub open spec fn keys_ascend(t: Seq<Tie>) -> bool {
    forall|i: int, j: int| 0 <= i < j < t.len() ==> #[trigger] t[i].key_of() <= #[trigger] t[j].key_of()
}

/// The ties kept: those whose target row is live.
pub open spec fn live_ties(t: Seq<Tie>, alive: Seq<bool>) -> Seq<Tie>
    decreases t.len(),
{
    if t.len() == 0 {
        Seq::empty()
    } else if alive.last() {
        live_ties(t.drop_last(), alive.drop_last()).push(t.last())
    } else {
        live_ties(t.drop_last(), alive.drop_last())
    }
}

/// Inserts `x` into ascending `v` after every tie of no larger key.
fn place(v: &mut Vec<Tie>, x: Tie)
    requires
        keys_ascend(old(v)@),
    ensures
        keys_ascend(final(v)@),
        final(v)@.to_multiset() == old(v)@.to_multiset().insert(x),
{
    let k = x.key();
    let mut i: usize = v.len();
    while i > 0 && v[i - 1].key() > k
        invariant
            i <= v@.len(),
            v@ == old(v)@,
            keys_ascend(v@),
            forall|j: int| i <= j < v@.len() ==> #[trigger] v@[j].key_of() > k,
        decreases i,
    {
        i = i - 1;
    }
    proof {
        broadcast use vstd::seq_lib::to_multiset_insert;
    }
    let ghost before = v@;
    v.insert(i, x);
    proof {
        assert(v@ == before.insert(i as int, x));
        assert forall|a: int, b: int| 0 <= a < b < v@.len() implies #[trigger] v@[a].key_of()
            <= #[trigger] v@[b].key_of() by {
            if b < i {
            } else if a < i && b == i {
                if i > 0 {
                    assert(before[i - 1].key_of() <= k);
                    assert(before[a].key_of() <= before[i - 1].key_of());
                }
            } else if a < i && b > i {
                assert(v@[b] == before[b - 1]);
            } else if a == i {
                assert(v@[b] == before[b - 1]);
            } else {
                assert(v@[a] == before[a - 1]);
                assert(v@[b] == before[b - 1]);
            }
        }
    }
}

/// The ties pulled for one link: those whose target is live (`alive`), in
/// ascending key order; more than `CAP` of them is refused.
pub fn gather(ties: Vec<Tie>, alive: &[bool]) -> (r: Result<Vec<Tie>, Error>)
    requires
        alive@.len() == ties@.len(),
    ensures
        live_ties(ties@, alive@).len() > CAP <==> r is Err,
        r matches Err(e) ==> (e matches Error::Adapt(m) && m@ == "tie cap exceeded"@),
        r matches Ok(v) ==> keys_ascend(v@) && v@.to_multiset() == live_ties(ties@, alive@).to_multiset(),
{
    let ghost tv = ties@;
    let n = ties.len();
    let mut src = ties;
    assert(src@ =~= tv.skip(0));
    let mut out: Vec<Tie> = Vec::new();
    let mut count: usize = 0;
    let mut i: usize = 0;
    proof {
        broadcast use vstd::seq_lib::to_multiset_build;
    }
    assert(tv.take(0) =~= Seq::<Tie>::empty());
    while i < n
        invariant
            0 <= i <= n,
            n == tv.len(),
            alive@.len() == tv.len(),
            src@ == tv.skip(i as int),
            tv == ties@,
            count == live_ties(tv.take(i as int), alive@.take(i as int)).len(),
            count <= CAP,
            keys_ascend(out@),
            out@.to_multiset() == live_ties(tv.take(i as int), alive@.take(i as int)).to_multiset(),
        decreases n - i,
    {
        let t = src.remove(0);
        assert(t == tv[i as int]);
        assert(tv.skip(i + 1) =~= src@);
        proof {
            assert(tv.take(i + 1).drop_last() =~= tv.take(i as int));
            assert(alive@.take(i + 1).drop_last() =~= alive@.take(i as int));
            assert(tv.take(i + 1).last() == tv[i as int]);
        }
        if alive[i] {
            let ghost was = live_ties(tv.take(i as int), alive@.take(i as int));
            place(&mut out, t);
            proof {
                broadcast use vstd::seq_lib::to_multiset_build;
                assert(was.push(tv[i as int]).to_multiset() == was.to_multiset().insert(tv[i as int]));
            }
            count = count + 1;
            if count > CAP {
                proof {
                    assert(alive@.take(i + 1).last() == alive@[i as int]);
                    assert(live_ties(tv.take(i + 1), alive@.take(i + 1)).len() == count);
                    lemma_live_grows(tv, alive@, i + 1);
                }
                return Err(adapt("tie cap exceeded"));
            }
        }
        i = i + 1;
    }
    assert(tv.take(n as int) =~= tv);
    assert(alive@.take(n as int) =~= alive@);
    Ok(out)
}

proof fn lemma_live_grows(t: Seq<Tie>, alive: Seq<bool>, n: int)
    requires
        0 <= n <= t.len(),
        alive.len() == t.len(),
    ensures
        live_ties(t.take(n), alive.take(n)).len() <= live_ties(t, alive).len(),
    decreases t.len() - n,
{
    if n < t.len() {
        lemma_live_grows(t, alive, n + 1);
        assert(t.take(n + 1).drop_last() =~= t.take(n));
        assert(alive.take(n + 1).drop_last() =~= alive.take(n));
    } else {
        assert(t.take(n) =~= t);
        assert(alive.take(n) =~= alive);
    }
}

/// The name of the bag of link `l` under root `root`.
pub open spec fn link_bag(root: Seq<char>, l: Seq<char>) -> Seq<char> {
    root + "."@ + l
}

/// The answer of a query over the rows kept: a count for a counting query;
/// otherwise the rows (ordered and paged by the caller through `settle`)
/// under the scope's name, then the ties of each link under
/// `name.link`, in the order of the links.
pub fn assemble(scope: &Scope, tree: &Tree, rows: Vec<Row>, links: Vec<Vec<Tie>>) -> (p: Pack)
    requires
        links@.len() == tree@.links.len(),
    ensures
        p.root_name() == scope@.name,
        tree@.tally ==> p.tally_of() == Some(rows@.len() as usize) && p.bag_list().len() == 0,
        !tree@.tally ==> {
            &&& p.tally_of() is None
            &&& p.bag_list().len() == 1 + links@.len()
            &&& p.bag_list()[0].0@ == scope@.name && p.bag_list()[0].1 == Bag::Unit(rows)
            &&& forall|i: int| 0 <= i < links@.len() ==> #[trigger] p.bag_list()[i + 1].0@ == link_bag(
                scope@.name,
                tree@.links[i],
            ) && p.bag_list()[i + 1].1 == Bag::Bond(links@[i])
        },
{
    let root = own(scope.name());
    if tree.tally() {
        return Pack::tallied(root, rows.len());
    }
    let names = tree.links();
    let mut bags: Vec<(String, Bag)> = Vec::new();
    bags.push((own(scope.name()), Bag::Unit(rows)));
    let n = links.len();
    let mut src = links;
    let ghost lv = src@;
    assert(src@ =~= lv.skip(0));
    let mut i: usize = 0;
    while i < n
        invariant
            0 <= i <= n,
            n == lv.len(),
            n == names@.len(),
            crate::query::texts(names@) == tree@.links,
            src@ == lv.skip(i as int),
            bags@.len() == 1 + i,
            bags@[0].0@ == scope@.name && bags@[0].1 == Bag::Unit(rows),
            forall|j: int| 0 <= j < i ==> #[trigger] bags@[j + 1].0@ == link_bag(scope@.name, tree@.links[j])
                && bags@[j + 1].1 == Bag::Bond(lv[j]),
        decreases n - i,
    {
        let ts = src.remove(0);
        assert(ts == lv[i as int]);
        assert(lv.skip(i + 1) =~= src@);
        let mut name = own(scope.name());
        push_str(&mut name, ".");
        push_str(&mut name, names[i].as_str());
        assert(crate::query::texts(names@)[i as int] == names@[i as int]@);
        bags.push((name, Bag::Bond(ts)));
        i = i + 1;
    }
    Pack::make(root, bags, None)
}

/// Whether some tie among `ties` points at `right`: what a `has`
/// predicate keeps a row by, over the row's ties.
pub open spec fn has_right(ties: Seq<Tie>, right: i64) -> bool {
    exists|i: int| 0 <= i < ties.len() && #[trigger] ties[i].right_of() == right
}

/// Whether some tie of a row points at `right`.
pub fn holds_right(ties: &[Tie], right: i64) -> (r: bool)
    ensures
        r == has_right(ties@, right),
{
    let mut i: usize = 0;
    while i < ties.len()
        invariant
            0 <= i <= ties@.len(),
            forall|j: int| 0 <= j < i ==> #[trigger] ties@[j].right_of() != right,
        decreases ties@.len() - i,
    {
        if ties[i].right() == right {
            return true;
        }
        i = i + 1;
    }
    false
}

/// The field `name` is one of the slots `ss`.
pub open spec fn owns(ss: Seq<crate::plan::SlotV>, name: Seq<char>) -> bool {
    exists|i: int| 0 <= i < ss.len() && #[trigger] ss[i].name == name
}

/// What a `some` predicate's inner predicate `nest` decides from one tie
/// of bond `e`: on the key field, whether the tie's target key meets it;
/// on a field of the bond, whether the tie's cells meet it; otherwise
/// nothing, and the target row must be read.
pub open spec fn tie_verdict(e: crate::plan::EdgeV, tie: Tie, nest: crate::query::PredV) -> Option<bool> {
    if nest.field == crate::ddl::KEY@ {
        Some(crate::query::sift::key_hits(tie.right_of(), nest))
    } else if owns(e.fields, nest.field) {
        Some(crate::query::sift::cells_hit(tie.cells_of(), nest))
    } else {
        None
    }
}

/// What the inner predicate of a `some` decides from one tie.
pub fn verdict(edge: &crate::plan::Edge, tie: &Tie, nest: &crate::query::Pred) -> (r: Option<bool>)
    requires
        crate::life::distinct(tie.cells_of()),
    ensures
        r == tie_verdict(edge@, *tie, nest@),
{
    if crate::text::same(nest.field(), crate::ddl::KEY) {
        return Some(crate::query::sift::hit_key(tie.right(), nest));
    }
    let fields = edge.fields();
    let ghost fv = crate::plan::slots_view(fields@);
    let mut i: usize = 0;
    let mut owned = false;
    while i < fields.len()
        invariant
            0 <= i <= fields@.len(),
            fv == crate::plan::slots_view(fields@),
            fv == edge@.fields,
            owned == exists|j: int| 0 <= j < i && #[trigger] fv[j].name == nest@.field,
        decreases fields@.len() - i,
    {
        assert(fv[i as int] == fields@[i as int]@);
        if crate::text::same(fields[i].name(), nest.field()) {
            owned = true;
        }
        i = i + 1;
    }
    if owned {
        Some(crate::query::sift::hit_map(tie.cells(), nest))
    } else {
        None
    }
}

/// A query keeps exactly the rows that pass every predicate and the
/// store's bond checks, in the order scanned: each kept row is a scanned
/// one that passes, and a scanned row that passes and holds is kept.
pub proof fn lemma_sifted(rows: Seq<Row>, kept: Seq<bool>, ps: Seq<crate::query::PredV>)
    requires
        kept.len() == rows.len(),
    ensures
        forall|i: int| 0 <= i < sifted(rows, kept, ps).len() ==> passes(#[trigger] sifted(rows, kept, ps)[i], ps)
            && rows.contains(sifted(rows, kept, ps)[i]),
        forall|j: int| 0 <= j < rows.len() && passes(rows[j], ps) && #[trigger] kept[j] ==> sifted(rows, kept, ps).contains(rows[j]),
    decreases rows.len(),
{
    if rows.len() > 0 {
        let t = rows.drop_last();
        let k = kept.drop_last();
        lemma_sifted(t, k, ps);
        let h = sifted(t, k, ps);
        let out = sifted(rows, kept, ps);
        assert forall|i: int| 0 <= i < out.len() implies passes(#[trigger] out[i], ps) && rows.contains(out[i]) by {
            if i < h.len() {
                assert(out[i] == h[i]);
                let q = choose|q: int| 0 <= q < t.len() && t[q] == h[i];
                assert(rows[q] == t[q]);
            } else {
                assert(rows[rows.len() - 1] == rows.last());
            }
        }
        assert forall|j: int| 0 <= j < rows.len() && passes(rows[j], ps) && #[trigger] kept[j] implies out.contains(rows[j]) by {
            if j < t.len() {
                assert(t[j] == rows[j]);
                assert(k[j] == kept[j]);
                let q = choose|q: int| 0 <= q < h.len() && h[q] == t[j];
                assert(out[q] == h[q]);
            } else {
                assert(out[out.len() - 1] == rows.last());
            }
        }
    }
}

} // verus!
