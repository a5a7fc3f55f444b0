//! Gathering schema rows back into named cells: a row's cells drawn out
//! as text, and whether a row points into a kept set.
use vstd::prelude::*;
use crate::life::{Row, lookup, shown};
use crate::text::{decimal, same, show_int};
use crate::text::{int_in, int_of, own};

verus! {

/// Cell `head` of row `r`, written as text, when the row has it.
pub open spec fn drawn(r: Row, head: Seq<char>) -> Option<(Seq<char>, Seq<char>)> {
    match lookup(r.cells_of(), head) {
        Some(c) => Some((head, shown(c))),
        None => None,
    }
}

/// Cell `head` of a row, written as text, when the row has it.
pub fn cell(row: &Row, head: &str) -> (r: Option<(String, String)>)
    requires
        row.wf(),
    ensures
        match drawn(*row, head@) {
            Some((h, t)) => r matches Some((a, b)) && a@ == h && b@ == t,
            None => r is None,
        },
{
    match row.cell(head) {
        Some(c) => Some((own(head), c.show())),
        None => None,
    }
}

/// The cells `heads` of row `r` has, in the order of `heads`, as text.
pub open spec fn draws(r: Row, heads: Seq<Seq<char>>) -> Seq<(Seq<char>, Seq<char>)>
    decreases heads.len(),
{
    if heads.len() == 0 {
        Seq::empty()
    } else {
        let rest = draws(r, heads.drop_last());
        match drawn(r, heads.last()) {
            Some(p) => rest.push(p),
            None => rest,
        }
    }
}

/// The cells named by `heads` that a row has, in order, as text.
pub fn draw(row: &Row, heads: &[&str]) -> (r: Vec<(String, String)>)
    requires
        row.wf(),
    ensures
        r@.map_values(|p: (String, String)| (p.0@, p.1@)) == draws(*row, heads@.map_values(|h: &str| h@)),
{
    let ghost hv = heads@.map_values(|h: &str| h@);
    let mut out: Vec<(String, String)> = Vec::new();
    let mut i: usize = 0;
    assert(hv.take(0) =~= Seq::<Seq<char>>::empty());
    assert(out@.map_values(|p: (String, String)| (p.0@, p.1@)) =~= Seq::<(Seq<char>, Seq<char>)>::empty());
    while i < heads.len()
        invariant
            i <= heads@.len(),
            row.wf(),
            hv == heads@.map_values(|h: &str| h@),
            out@.map_values(|p: (String, String)| (p.0@, p.1@)) == draws(*row, hv.take(i as int)),
        decreases heads@.len() - i,
    {
        proof {
            assert(hv.take(i + 1).drop_last() =~= hv.take(i as int));
            assert(hv.take(i + 1).last() == heads@[i as int]@);
        }
        let ghost before = out@;
        match cell(row, heads[i]) {
            Some(p) => {
                out.push(p);
                assert(out@.map_values(|p: (String, String)| (p.0@, p.1@)) =~= before.map_values(
                    |p: (String, String)| (p.0@, p.1@),
                ).push((out@.last().0@, out@.last().1@)));
            },
            None => {},
        }
        i = i + 1;
    }
    assert(hv.take(heads@.len() as int) =~= hv);
    out
}

/// Cell `head` of row `r` names a key among `held`: written as text it
/// reads as an integer that `held` contains.
pub open spec fn kept_spec(held: Seq<i64>, r: Row, head: Seq<char>) -> bool {
    let at = match lookup(r.cells_of(), head) {
        Some(c) => shown(c),
        None => Seq::empty(),
    };
    match int_of(at) {
        Some(v) => held.contains(v as i64),
        None => false,
    }
}

/// Whether cell `head` of a row names a key among `held`.
pub fn kept(held: &[i64], row: &Row, head: &str) -> (r: bool)
    requires
        row.wf(),
    ensures
        r == kept_spec(held@, *row, head@),
{
    let at = match row.cell(head) {
        Some(c) => c.show(),
        None => String::new(),
    };
    let v = match int_in(at.as_str()) {
        Some(v) => v,
        None => return false,
    };
    assert(kept_spec(held@, *row, head@) == held@.contains(v));
    let mut i: usize = 0;
    while i < held.len()
        invariant
            i <= held@.len(),
            kept_spec(held@, *row, head@) == held@.contains(v),
            forall|j: int| 0 <= j < i ==> held@[j] != v,
        decreases held@.len() - i,
    {
        if held[i] == v {
            assert(held@[i as int] == v);
            return true;
        }
        i = i + 1;
    }
    assert(!held@.contains(v)) by {
        if held@.contains(v) {
            let j = choose|j: int| 0 <= j < held@.len() && held@[j] == v;
            assert(held@[j] != v);
        }
    }
    false
}

/// The row belongs to generation `at`: its `generation` cell reads `at`.
pub open spec fn of_generation(r: Row, at: i64) -> bool {
    lookup(r.cells_of(), "generation"@) matches Some(c) && shown(c) == decimal(at as int)
}

/// The keys of the rows that meet `p`, in order.
pub open spec fn keys_where(rows: Seq<Row>, p: spec_fn(Row) -> bool) -> Seq<i64> {
    rows.filter(p).map_values(|r: Row| r.key_of())
}

/// Every row has each name once.
pub open spec fn all_wf(rows: Seq<Row>) -> bool {
    forall|i: int| 0 <= i < rows.len() ==> #[trigger] rows[i].wf()
}

proof fn lemma_keys_step(rows: Seq<Row>, p: spec_fn(Row) -> bool, i: int)
    requires
        0 <= i < rows.len(),
    ensures
        keys_where(rows.take(i + 1), p) == if p(rows[i]) {
            keys_where(rows.take(i), p).push(rows[i].key_of())
        } else {
            keys_where(rows.take(i), p)
        },
{
    let t = rows.take(i + 1);
    assert(t.drop_last() =~= rows.take(i));
    assert(t.last() == rows[i]);
    reveal(Seq::filter);
    if p(rows[i]) {
        assert(t.filter(p) == rows.take(i).filter(p).push(rows[i]));
        assert(keys_where(t, p) =~= keys_where(rows.take(i), p).push(rows[i].key_of()));
    } else {
        assert(t.filter(p) == rows.take(i).filter(p));
    }
}

/// The keys of the rows of generation `at`.
pub fn born_in(rows: &[Row], at: i64) -> (r: Vec<i64>)
    requires
        all_wf(rows@),
    ensures
        r@ == keys_where(rows@, |x: Row| of_generation(x, at)),
{
    let ghost p = |x: Row| of_generation(x, at);
    let held = show_int(at);
    let mut out: Vec<i64> = Vec::new();
    let mut i: usize = 0;
    while i < rows.len()
        invariant
            0 <= i <= rows@.len(),
            all_wf(rows@),
            held@ == decimal(at as int),
            p == (|x: Row| of_generation(x, at)),
            out@ == keys_where(rows@.take(i as int), p),
        decreases rows@.len() - i,
    {
        let row = &rows[i];
        assert(rows@[i as int].wf());
        proof {
            lemma_keys_step(rows@, p, i as int);
        }
        let hit = match row.cell("generation") {
            Some(c) => same(c.show().as_str(), held.as_str()),
            None => false,
        };
        if hit {
            out.push(row.key());
        }
        i = i + 1;
    }
    assert(rows@.take(rows@.len() as int) =~= rows@);
    out
}

/// The keys of the rows whose cell `head` names a key among `held`.
pub fn picked(rows: &[Row], held: &[i64], head: &str) -> (r: Vec<i64>)
    requires
        all_wf(rows@),
    ensures
        r@ == keys_where(rows@, |x: Row| kept_spec(held@, x, head@)),
{
    let ghost p = |x: Row| kept_spec(held@, x, head@);
    let mut out: Vec<i64> = Vec::new();
    let mut i: usize = 0;
    while i < rows.len()
        invariant
            0 <= i <= rows@.len(),
            all_wf(rows@),
            p == (|x: Row| kept_spec(held@, x, head@)),
            out@ == keys_where(rows@.take(i as int), p),
        decreases rows@.len() - i,
    {
        let row = &rows[i];
        assert(rows@[i as int].wf());
        proof {
            lemma_keys_step(rows@, p, i as int);
        }
        if kept(held, row, head) {
            out.push(row.key());
        }
        i = i + 1;
    }
    assert(rows@.take(rows@.len() as int) =~= rows@);
    out
}

/// The schema rows a purge of one generation removes, by key.
pub struct Doomed {
    pub units: Vec<i64>,
    pub bonds: Vec<i64>,
    pub fields: Vec<i64>,
    pub scopes: Vec<i64>,
    pub values: Vec<i64>,
}

/// The schema rows purging generation `at` removes: its unit rows; the bond
/// and field rows of those units; the scope and value rows of those fields.
pub fn purge(at: i64, units: &[Row], bonds: &[Row], fields: &[Row], scopes: &[Row], values: &[Row]) -> (r:
    Doomed)
    requires
        all_wf(units@),
        all_wf(bonds@),
        all_wf(fields@),
        all_wf(scopes@),
        all_wf(values@),
    ensures
        r.units@ == keys_where(units@, |x: Row| of_generation(x, at)),
        r.fields@ == keys_where(fields@, |x: Row| kept_spec(r.units@, x, "unit"@)),
        r.bonds@ == keys_where(bonds@, |x: Row| kept_spec(r.units@, x, "unit"@)),
        r.scopes@ == keys_where(scopes@, |x: Row| kept_spec(r.fields@, x, "field"@)),
        r.values@ == keys_where(values@, |x: Row| kept_spec(r.fields@, x, "field"@)),
{
    let u = born_in(units, at);
    let f = picked(fields, u.as_slice(), "unit");
    let b = picked(bonds, u.as_slice(), "unit");
    let s = picked(scopes, f.as_slice(), "field");
    let v = picked(values, f.as_slice(), "field");
    Doomed { units: u, bonds: b, fields: f, scopes: s, values: v }
}

} // verus!
