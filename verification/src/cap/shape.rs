//! Shaping raw field text into cells, as a grant or a request sees them.
use vstd::prelude::*;
use crate::atom::Kind;
use crate::bond::pointed;
use crate::life::{Cell, CellV, Cells, Row, cells_view, distinct, lookup, placed, dropped, text_of, put_cell, drop_cell};
use crate::plan::{Plan, SlotV, EdgeV, UnitV, first_where, lemma_first_at, lemma_first_none, lemma_first_some, slot_named, slots_view, edges_view, unit_of};
use crate::life::{lemma_placed, lemma_dropped_lookup};
use crate::text::{int_in, int_of, own, same};
use crate::life::util::{seek, sought};

verus! {

/// The contents of raw `(name, text)` pairs.
pub open spec fn pairs_view(f: Seq<(&str, &str)>) -> Seq<(Seq<char>, Seq<char>)> {
    f.map_values(|p: (&str, &str)| (p.0@, p.1@))
}

/// The pair is named `name`.
pub open spec fn pair_named(name: Seq<char>) -> spec_fn((Seq<char>, Seq<char>)) -> bool {
    |p: (Seq<char>, Seq<char>)| p.0 == name
}

/// The text given for `name`: the first pair so named, or empty text.
pub open spec fn got(f: Seq<(Seq<char>, Seq<char>)>, name: Seq<char>) -> Seq<char> {
    match first_where(f, pair_named(name)) {
        Some(i) => f[i].1,
        None => Seq::empty(),
    }
}

/// The text given for `name` among raw pairs, or empty text.
pub fn get<'a>(fields: &[(&'a str, &'a str)], name: &str) -> (r: &'a str)
    ensures
        r@ == got(pairs_view(fields@), name@),
{
    let ghost pv = pairs_view(fields@);
    let mut i: usize = 0;
    while i < fields.len()
        invariant
            i <= fields@.len(),
            pv == pairs_view(fields@),
            forall|j: int| 0 <= j < i ==> !pair_named(name@)(#[trigger] pv[j]),
        decreases fields@.len() - i,
    {
        assert(pv[i as int] == (fields@[i as int].0@, fields@[i as int].1@));
        if same(fields[i].0, name) {
            proof {
                lemma_first_at(pv, pair_named(name@), i as int);
            }
            return fields[i].1;
        }
        i = i + 1;
    }
    proof {
        reveal_strlit("");
        if first_where(pv, pair_named(name@)) is Some {
            let c = first_where(pv, pair_named(name@))->0;
            assert(pair_named(name@)(pv[c]));
        }
    }
    ""
}

/// The text given for `name` among raw pairs, or empty text.
pub fn field<'a>(fields: &[(&'a str, &'a str)], name: &str) -> (r: &'a str)
    ensures
        r@ == got(pairs_view(fields@), name@),
{
    get(fields, name)
}

/// The cell raw text `raw` makes for a field of kind `k`: an integer (zero
/// when the text is not one), a flag (set only by `true`), or the text.
pub open spec fn shaped(k: Kind, raw: Seq<char>) -> CellV {
    match k {
        Kind::Int => match int_of(raw) {
            Some(v) => CellV::Int(v as i64),
            None => CellV::Int(0),
        },
        Kind::Bool => CellV::Bool(raw == "true"@),
        _ => CellV::Text(raw),
    }
}

/// The cell raw text makes for a field of kind `kind`.
pub fn shape(kind: Kind, raw: &str) -> (r: Cell)
    ensures
        r@ == shaped(kind, raw@),
{
    match kind {
        Kind::Int => match int_in(raw) {
            Some(v) => Cell::Int(v),
            None => Cell::Int(0),
        },
        Kind::Bool => Cell::Bool(same(raw, "true")),
        _ => Cell::Text(own(raw)),
    }
}

/// The text of a row's text cell `name`, or empty text.
pub fn cell<'a>(row: &'a Row, name: &str) -> (r: &'a str)
    requires
        row.wf(),
    ensures
        r@ == (match lookup(row.cells_of(), name@) {
            Some(c) => text_of(c),
            None => Seq::empty(),
        }),
{
    match row.cell(name) {
        Some(c) => c.text(),
        None => {
            proof {
                reveal_strlit("");
            }
            ""
        },
    }
}

/// A text or link field: its value is text, and empty text is a value.
pub open spec fn textual(k: Kind) -> bool {
    k == Kind::Text || k == Kind::Link
}

/// The cells a unit's fields take from raw pairs: each field given text,
/// shaped by its kind; empty text is stored for a text or link field and
/// gives nothing for another kind.
pub open spec fn mold_slots(slots: Seq<SlotV>, f: Seq<(Seq<char>, Seq<char>)>) -> Seq<(Seq<char>, CellV)>
    decreases slots.len(),
{
    if slots.len() == 0 {
        Seq::empty()
    } else {
        let r = mold_slots(slots.drop_last(), f);
        let s = slots.last();
        match sought(f, s.name) {
            None => r,
            Some(raw) => if raw.len() == 0 && !textual(s.kind) {
                r
            } else {
                placed(r, s.name, shaped(s.kind, raw))
            },
        }
    }
}

/// The cells a unit's key-column bonds take from raw pairs: each given an
/// integer.
pub open spec fn mold_edges(
    base: Seq<(Seq<char>, CellV)>,
    edges: Seq<EdgeV>,
    f: Seq<(Seq<char>, Seq<char>)>,
) -> Seq<(Seq<char>, CellV)>
    decreases edges.len(),
{
    if edges.len() == 0 {
        base
    } else {
        let r = mold_edges(base, edges.drop_last(), f);
        let e = edges.last();
        match int_of(got(f, e.name)) {
            Some(v) => if pointed(e.kind) {
                placed(r, e.name, CellV::Int(v as i64))
            } else {
                r
            },
            None => r,
        }
    }
}

/// The cells raw pairs make for unit `unit`: none when the unit is not in
/// the plan.
pub open spec fn molded(p: Seq<UnitV>, unit: Seq<char>, f: Seq<(Seq<char>, Seq<char>)>) -> Seq<(Seq<char>, CellV)> {
    match unit_of(p, unit) {
        None => Seq::empty(),
        Some(u) => mold_edges(mold_slots(u.fields, f), u.bonds, f),
    }
}

/// The cells raw pairs make for unit `unit`.
pub fn mold(plan: &Plan, unit: &str, fields: &[(&str, &str)]) -> (r: Cells)
    ensures
        cells_view(r@) == molded(plan@, unit@, pairs_view(fields@)),
        distinct(cells_view(r@)),
{
    let mut out: Cells = Vec::new();
    assert(cells_view(out@) =~= Seq::<(Seq<char>, CellV)>::empty());
    let node = match plan.find(unit) {
        Ok(n) => n,
        Err(_) => return out,
    };
    let ghost f = pairs_view(fields@);
    let slots = node.fields();
    let ghost sv = slots_view(slots@);
    let mut i: usize = 0;
    assert(sv.take(0) =~= Seq::<SlotV>::empty());
    while i < slots.len()
        invariant
            i <= slots@.len(),
            sv == slots_view(slots@),
            f == pairs_view(fields@),
            cells_view(out@) == mold_slots(sv.take(i as int), f),
            distinct(cells_view(out@)),
        decreases slots@.len() - i,
    {
        proof {
            assert(sv.take(i + 1).drop_last() =~= sv.take(i as int));
            assert(sv.take(i + 1).last() == slots@[i as int]@);
        }
        match seek(fields, slots[i].name()) {
            Some(raw) => {
                let k = slots[i].kind();
                let text = match k {
                    Kind::Text | Kind::Link => true,
                    _ => false,
                };
                if !raw.is_empty() || text {
                    put_cell(&mut out, own(slots[i].name()), shape(k, raw));
                }
            },
            None => {},
        }
        i = i + 1;
    }
    assert(sv.take(slots@.len() as int) =~= node@.fields);
    let bonds = node.bonds();
    let ghost ev = edges_view(bonds@);
    let ghost base = cells_view(out@);
    let mut j: usize = 0;
    assert(ev.take(0) =~= Seq::<EdgeV>::empty());
    while j < bonds.len()
        invariant
            j <= bonds@.len(),
            ev == edges_view(bonds@),
            f == pairs_view(fields@),
            cells_view(out@) == mold_edges(base, ev.take(j as int), f),
            distinct(cells_view(out@)),
        decreases bonds@.len() - j,
    {
        proof {
            assert(ev.take(j + 1).drop_last() =~= ev.take(j as int));
            assert(ev.take(j + 1).last() == bonds@[j as int]@);
        }
        let e = &bonds[j];
        match int_in(get(fields, e.name())) {
            Some(id) => {
                if e.kind().point() {
                    put_cell(&mut out, own(e.name()), Cell::Int(id));
                }
            },
            None => {},
        }
        j = j + 1;
    }
    assert(ev.take(bonds@.len() as int) =~= node@.bonds);
    out
}

/// Some key-column bond of `u` is named `k`.
pub open spec fn points_named(u: UnitV, k: Seq<char>) -> bool {
    exists|j: int| 0 <= j < u.bonds.len() && pointed(u.bonds[j].kind) && u.bonds[j].name == k
}

/// One raw pair applied to cells: a field takes its shaped value (a text or
/// link field takes empty text too, as data); otherwise empty text clears
/// the cell, and a key-column bond takes an integer; anything else is left
/// alone.
pub open spec fn blend_one(u: UnitV, cs: Seq<(Seq<char>, CellV)>, k: Seq<char>, v: Seq<char>) -> Seq<(Seq<char>, CellV)> {
    match first_where(u.fields, slot_named(k)) {
        Some(i) => if v.len() == 0 && !textual(u.fields[i].kind) {
            dropped(cs, k)
        } else {
            placed(cs, k, shaped(u.fields[i].kind, v))
        },
        None => if v.len() == 0 {
            dropped(cs, k)
        } else {
            match int_of(v) {
                Some(id) => if points_named(u, k) {
                    placed(cs, k, CellV::Int(id as i64))
                } else {
                    cs
                },
                None => cs,
            }
        },
    }
}

/// Raw pairs applied to cells in order.
pub open spec fn blend_all(u: UnitV, cs: Seq<(Seq<char>, CellV)>, f: Seq<(Seq<char>, Seq<char>)>) -> Seq<(Seq<char>, CellV)>
    decreases f.len(),
{
    if f.len() == 0 {
        cs
    } else {
        blend_one(u, blend_all(u, cs, f.drop_last()), f.last().0, f.last().1)
    }
}

/// Raw pairs applied to the cells of unit `unit`: nothing changes when the
/// unit is not in the plan.
pub open spec fn blended(p: Seq<UnitV>, unit: Seq<char>, cs: Seq<(Seq<char>, CellV)>, f: Seq<(Seq<char>, Seq<char>)>) -> Seq<(Seq<char>, CellV)> {
    match unit_of(p, unit) {
        None => cs,
        Some(u) => blend_all(u, cs, f),
    }
}

/// Whether some key-column bond in `bonds` is named `k`.
fn points_at(bonds: &[crate::plan::Edge], k: &str) -> (r: bool)
    ensures
        r == exists|j: int| 0 <= j < bonds@.len() && pointed(bonds@[j]@.kind) && bonds@[j]@.name == k@,
{
    let mut j: usize = 0;
    while j < bonds.len()
        invariant
            j <= bonds@.len(),
            forall|q: int| 0 <= q < j ==> !(pointed(bonds@[q]@.kind) && bonds@[q]@.name == k@),
        decreases bonds@.len() - j,
    {
        if bonds[j].kind().point() && same(bonds[j].name(), k) {
            return true;
        }
        j = j + 1;
    }
    false
}

/// Applies raw pairs to the cells of a row of `unit`.
pub fn blend(plan: &Plan, unit: &str, base: &mut Cells, fields: &[(&str, &str)])
    requires
        distinct(cells_view(old(base)@)),
    ensures
        cells_view(final(base)@) == blended(plan@, unit@, cells_view(old(base)@), pairs_view(fields@)),
        distinct(cells_view(final(base)@)),
{
    let node = match plan.find(unit) {
        Ok(n) => n,
        Err(_) => return,
    };
    let ghost start = cells_view(base@);
    let ghost f = pairs_view(fields@);
    let ghost u = node@;
    let mut i: usize = 0;
    assert(f.take(0) =~= Seq::<(Seq<char>, Seq<char>)>::empty());
    while i < fields.len()
        invariant
            i <= fields@.len(),
            f == pairs_view(fields@),
            u == node@,
            cells_view(base@) == blend_all(u, start, f.take(i as int)),
            distinct(cells_view(base@)),
        decreases fields@.len() - i,
    {
        proof {
            assert(f.take(i + 1).drop_last() =~= f.take(i as int));
            assert(f.take(i + 1).last() == (fields@[i as int].0@, fields@[i as int].1@));
        }
        let (k, v) = fields[i];
        let slots = node.fields();
        match crate::plan::slot_in(slots, k) {
            Some(slot) => {
                proof {
                    let q = first_where(slots_view(slots@), slot_named(k@))->0;
                    assert(slots_view(slots@)[q] == slots@[q]@);
                }
                let kind = slot.kind();
                let text = match kind {
                    Kind::Text | Kind::Link => true,
                    _ => false,
                };
                if v.is_empty() && !text {
                    drop_cell(base, k);
                } else {
                    put_cell(base, own(k), shape(kind, v));
                }
            },
            None => {
                if v.is_empty() {
                    drop_cell(base, k);
                } else {
                    let bonds = node.bonds();
                    let refd = points_at(bonds, k);
                    proof {
                        assert(refd == points_named(u, k@)) by {
                            if refd {
                                let j = choose|j: int| 0 <= j < bonds@.len() && pointed(bonds@[j]@.kind) && bonds@[j]@.name == k@;
                                assert(u.bonds[j] == bonds@[j]@);
                            }
                            if points_named(u, k@) {
                                let j = choose|j: int| 0 <= j < u.bonds.len() && pointed(u.bonds[j].kind) && u.bonds[j].name == k@;
                                assert(u.bonds[j] == bonds@[j]@);
                            }
                        }
                    }
                    match int_in(v) {
                        Some(id) => {
                            if refd {
                                put_cell(base, own(k), Cell::Int(id));
                            }
                        },
                        None => {},
                    }
                }
            },
        }
        i = i + 1;
    }
    assert(f.take(fields@.len() as int) =~= f);
}

/// The first place meeting `p` in `s` followed by `x`: the first in `s`,
/// else `x`'s place when it meets `p`.
proof fn lemma_first_extend<A>(s: Seq<A>, p: spec_fn(A) -> bool, x: A)
    ensures
        first_where(s.push(x), p) == match first_where(s, p) {
            Some(i) => Some(i),
            None => if p(x) {
                Some(s.len() as int)
            } else {
                None
            },
        },
{
    let t = s.push(x);
    match first_where(s, p) {
        Some(i) => {
            assert(p(s[i]) && forall|j: int| 0 <= j < i ==> !p(s[j]));
            assert(t[i] == s[i]);
            assert forall|j: int| 0 <= j < i implies !p(t[j]) by {
                assert(t[j] == s[j]);
            }
            lemma_first_at(t, p, i);
        },
        None => {
            assert forall|j: int| 0 <= j < s.len() implies !p(#[trigger] s[j]) by {
                if p(s[j]) {
                    lemma_first_some(s, p, j);
                }
            }
            assert forall|j: int| 0 <= j < s.len() implies !p(#[trigger] t[j]) by {
                assert(t[j] == s[j]);
            }
            if p(x) {
                lemma_first_at(t, p, s.len() as int);
            } else {
                assert forall|j: int| 0 <= j < t.len() implies !p(#[trigger] t[j]) by {
                    if j < s.len() {
                        assert(t[j] == s[j]);
                    }
                }
                lemma_first_none(t, p);
            }
        },
    }
}

/// No two raw pairs share a name.
pub open spec fn keys_apart(f: Seq<(Seq<char>, Seq<char>)>) -> bool {
    forall|i: int, j: int| 0 <= i < j < f.len() ==> f[i].0 != f[j].0
}

/// A unit's names are apart: its fields' names distinct, its bonds' names
/// distinct, and no name both a field and a bond.
pub open spec fn names_apart(u: UnitV) -> bool {
    &&& forall|i: int, j: int| 0 <= i < j < u.fields.len() ==> u.fields[i].name != u.fields[j].name
    &&& forall|i: int, j: int| 0 <= i < j < u.bonds.len() ==> u.bonds[i].name != u.bonds[j].name
    &&& forall|i: int, j: int|
        0 <= i < u.fields.len() && 0 <= j < u.bonds.len() ==> u.fields[i].name != u.bonds[j].name
}

/// The cell field `s` takes from raw pairs, if any.
pub open spec fn slot_cell(s: SlotV, f: Seq<(Seq<char>, Seq<char>)>) -> Option<CellV> {
    match sought(f, s.name) {
        None => None,
        Some(raw) => if raw.len() == 0 && !textual(s.kind) {
            None
        } else {
            Some(shaped(s.kind, raw))
        },
    }
}

/// The cell raw pairs give name `k` of unit `u` when molded.
pub open spec fn mold_cell(u: UnitV, f: Seq<(Seq<char>, Seq<char>)>, k: Seq<char>) -> Option<CellV> {
    match first_where(u.fields, slot_named(k)) {
        Some(i) => slot_cell(u.fields[i], f),
        None => if points_named(u, k) {
            match int_of(got(f, k)) {
                Some(v) => Some(CellV::Int(v as i64)),
                None => None,
            }
        } else {
            None
        },
    }
}

/// The cell one raw pair `(k, v)` gives name `k` of a row that lacks it.
pub open spec fn one_cell(u: UnitV, k: Seq<char>, v: Seq<char>) -> Option<CellV> {
    match first_where(u.fields, slot_named(k)) {
        Some(i) => if v.len() == 0 && !textual(u.fields[i].kind) {
            None
        } else {
            Some(shaped(u.fields[i].kind, v))
        },
        None => if v.len() == 0 {
            None
        } else {
            match int_of(v) {
                Some(id) => if points_named(u, k) {
                    Some(CellV::Int(id as i64))
                } else {
                    None
                },
                None => None,
            }
        },
    }
}

proof fn lemma_mold_slots(slots: Seq<SlotV>, f: Seq<(Seq<char>, Seq<char>)>, k: Seq<char>)
    requires
        forall|i: int, j: int| 0 <= i < j < slots.len() ==> slots[i].name != slots[j].name,
    ensures
        distinct(mold_slots(slots, f)),
        lookup(mold_slots(slots, f), k) == match first_where(slots, slot_named(k)) {
            Some(i) => slot_cell(slots[i], f),
            None => None,
        },
    decreases slots.len(),
{
    if slots.len() == 0 {
        lemma_first_none(slots, slot_named(k));
    } else {
        let pre = slots.drop_last();
        let s = slots.last();
        lemma_mold_slots(pre, f, k);
        lemma_first_extend(pre, slot_named(k), s);
        assert(pre.push(s) =~= slots);
        let r = mold_slots(pre, f);
        if s.name == k {
            assert forall|j: int| 0 <= j < pre.len() implies !slot_named(k)(#[trigger] pre[j]) by {
                assert(pre[j] == slots[j]);
            }
            lemma_first_none(pre, slot_named(k));
        }
        match slot_cell(s, f) {
            Some(c) => {
                lemma_placed(r, s.name, c);
            },
            None => {},
        }
    }
}

proof fn lemma_mold_edges(
    base: Seq<(Seq<char>, CellV)>,
    edges: Seq<EdgeV>,
    f: Seq<(Seq<char>, Seq<char>)>,
    k: Seq<char>,
)
    requires
        distinct(base),
        forall|i: int, j: int| 0 <= i < j < edges.len() ==> edges[i].name != edges[j].name,
    ensures
        distinct(mold_edges(base, edges, f)),
        lookup(mold_edges(base, edges, f), k) == if (exists|j: int|
            0 <= j < edges.len() && pointed(edges[j].kind) && edges[j].name == k) && int_of(
            got(f, k),
        ) is Some {
            Some(CellV::Int(int_of(got(f, k))->0 as i64))
        } else {
            lookup(base, k)
        },
    decreases edges.len(),
{
    if edges.len() > 0 {
        let pre = edges.drop_last();
        let e = edges.last();
        lemma_mold_edges(base, pre, f, k);
        let r = mold_edges(base, pre, f);
        if int_of(got(f, e.name)) is Some && pointed(e.kind) {
            lemma_placed(r, e.name, CellV::Int(int_of(got(f, e.name))->0 as i64));
        }
        if e.name == k {
            assert(!exists|j: int| 0 <= j < pre.len() && pointed(pre[j].kind) && pre[j].name == k) by {
                if exists|j: int| 0 <= j < pre.len() && pointed(pre[j].kind) && pre[j].name == k {
                    let j = choose|j: int| 0 <= j < pre.len() && pointed(pre[j].kind) && pre[j].name == k;
                    assert(edges[j].name != edges[edges.len() - 1].name);
                }
            }
            if pointed(e.kind) {
                assert(pointed(edges[edges.len() - 1].kind) && edges[edges.len() - 1].name == k);
            } else {
                assert(!exists|j: int| 0 <= j < edges.len() && pointed(edges[j].kind) && edges[j].name == k) by {
                    if exists|j: int| 0 <= j < edges.len() && pointed(edges[j].kind) && edges[j].name == k {
                        let j = choose|j: int| 0 <= j < edges.len() && pointed(edges[j].kind) && edges[j].name == k;
                        if j < pre.len() {
                            assert(pre[j] == edges[j]);
                        }
                    }
                }
            }
        } else {
            assert((exists|j: int| 0 <= j < edges.len() && pointed(edges[j].kind) && edges[j].name == k)
                == (exists|j: int| 0 <= j < pre.len() && pointed(pre[j].kind) && pre[j].name == k)) by {
                if exists|j: int| 0 <= j < edges.len() && pointed(edges[j].kind) && edges[j].name == k {
                    let j = choose|j: int| 0 <= j < edges.len() && pointed(edges[j].kind) && edges[j].name == k;
                    assert(j < pre.len());
                    assert(pre[j] == edges[j]);
                }
                if exists|j: int| 0 <= j < pre.len() && pointed(pre[j].kind) && pre[j].name == k {
                    let j = choose|j: int| 0 <= j < pre.len() && pointed(pre[j].kind) && pre[j].name == k;
                    assert(pre[j] == edges[j]);
                }
            }
        }
    }
}

proof fn lemma_blend_prefix(u: UnitV, f: Seq<(Seq<char>, Seq<char>)>, n: int, k: Seq<char>)
    requires
        keys_apart(f),
        0 <= n <= f.len(),
    ensures
        distinct(blend_all(u, Seq::empty(), f.take(n))),
        lookup(blend_all(u, Seq::empty(), f.take(n)), k) == match first_where(
            f.take(n),
            pair_named(k),
        ) {
            Some(j) => one_cell(u, k, f[j].1),
            None => None,
        },
    decreases n,
{
    let t = f.take(n);
    if n == 0 {
        assert(t =~= Seq::<(Seq<char>, Seq<char>)>::empty());
        lemma_first_none(t, pair_named(k));
        let e = Seq::<(Seq<char>, CellV)>::empty();
        assert(!exists|i: int| 0 <= i < e.len() && e[i].0 == k);
    } else {
        lemma_blend_prefix(u, f, n - 1, k);
        lemma_blend_prefix(u, f, n - 1, f[n - 1].0);
        let pre = f.take(n - 1);
        assert(t.drop_last() =~= pre);
        assert(t.last() == f[n - 1]);
        assert(pre.push(f[n - 1]) =~= t);
        lemma_first_extend(pre, pair_named(k), f[n - 1]);
        let kk = f[n - 1].0;
        let v = f[n - 1].1;
        let b = blend_all(u, Seq::empty(), pre);
        assert forall|j: int| 0 <= j < pre.len() implies !pair_named(kk)(#[trigger] pre[j]) by {
            assert(pre[j] == f[j]);
        }
        lemma_first_none(pre, pair_named(kk));
        assert(lookup(b, kk) is None);
        lemma_dropped_lookup(b, kk);
        match first_where(u.fields, slot_named(kk)) {
            Some(i) => {
                lemma_placed(b, kk, shaped(u.fields[i].kind, v));
            },
            None => {
                match int_of(v) {
                    Some(id) => {
                        lemma_placed(b, kk, CellV::Int(id as i64));
                    },
                    None => {},
                }
            },
        }
    }
}

/// Molding raw pairs is blending them into a row with no cells: when no two
/// pairs share a name, and the unit's field and bond names are apart, both
/// give every name the same cell (the orders of the cells may differ).
pub proof fn lemma_mold_is_blend(p: Seq<UnitV>, unit: Seq<char>, f: Seq<(Seq<char>, Seq<char>)>)
    requires
        keys_apart(f),
        unit_of(p, unit) matches Some(u) ==> names_apart(u),
    ensures
        forall|k: Seq<char>| #[trigger] lookup(molded(p, unit, f), k) == lookup(
            blended(p, unit, Seq::empty(), f),
            k,
        ),
{
    match unit_of(p, unit) {
        None => {},
        Some(u) => {
            assert forall|k: Seq<char>| #[trigger] lookup(molded(p, unit, f), k) == lookup(
                blended(p, unit, Seq::empty(), f),
                k,
            ) by {
                lemma_mold_slots(u.fields, f, k);
                lemma_mold_edges(mold_slots(u.fields, f), u.bonds, f, k);
                lemma_blend_prefix(u, f, f.len() as int, k);
                assert(f.take(f.len() as int) =~= f);
                assert(int_of(Seq::<char>::empty()) is None);
                match first_where(u.fields, slot_named(k)) {
                    Some(i) => {
                        assert(u.fields[i].name == k);
                        assert(!exists|j: int|
                            0 <= j < u.bonds.len() && pointed(u.bonds[j].kind) && u.bonds[j].name
                                == k);
                    },
                    None => {},
                }
            }
        },
    }
}

} // verus!
