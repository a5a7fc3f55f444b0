//! Reading rows and ties back from stored values, and looking up raw
//! field text.
use vstd::prelude::*;
use crate::atom::Kind;

use crate::cap::shape::{get, got, pairs_view, pair_named};
use crate::error::{Error, Why, told};
use crate::life::{Cell, CellV, Cells, Row, Tie, cells_view, distinct, placed, put_cell};
use crate::plan::{Edge, EdgeV, Slot, SlotV, Unit, UnitV, edge_refs_view, first_where, lemma_first_at, refs_of, slots_view};
use crate::text::{own, push_str};
use crate::wire::{Val, ValV, val_text};

verus! {

/// The text given for `name`, if any pair is so named.
pub open spec fn sought(f: Seq<(Seq<char>, Seq<char>)>, name: Seq<char>) -> Option<Seq<char>> {
    match first_where(f, pair_named(name)) {
        Some(i) => Some(f[i].1),
        None => None,
    }
}

/// The text given for `name`, if any pair is so named.
pub fn seek<'a>(fields: &[(&'a str, &'a str)], name: &str) -> (r: Option<&'a str>)
    ensures
        match sought(pairs_view(fields@), name@) {
            Some(v) => r matches Some(x) && x@ == v,
            None => r is None,
        },
{
    let ghost pv = pairs_view(fields@);
    let mut i: usize = 0;
    while i < fields.len()
        invariant
            i <= fields@.len(),
            pv == pairs_view(fields@),
            forall|j: int| 0 <= j < i ==> !pair_named(name@)(#[trigger] pv[j]),
        decreases fields@.len() - i,
    {
        assert(pv[i as int] == (fields@[i as int].0@, fields@[i as int].1@));
        if crate::text::same(fields[i].0, name) {
            proof {
                lemma_first_at(pv, pair_named(name@), i as int);
            }
            return Some(fields[i].1);
        }
        i = i + 1;
    }
    proof {
        if first_where(pv, pair_named(name@)) is Some {
            let c = first_where(pv, pair_named(name@))->0;
            assert(pair_named(name@)(pv[c]));
        }
    }
    None
}

/// The text given for `name`, or empty text.
pub fn pluck<'a>(fields: &[(&'a str, &'a str)], name: &str) -> (r: &'a str)
    ensures
        r@ == got(pairs_view(fields@), name@),
{
    get(fields, name)
}

/// The stored value of a cell: text as text, integers as integers, flags
/// as one or zero.
pub open spec fn val_of_cell(c: CellV) -> ValV {
    match c {
        CellV::Text(s) => ValV::Text(s),
        CellV::Int(n) => ValV::Int(n),
        CellV::Bool(b) => ValV::Int(if b { 1 } else { 0 }),
    }
}

/// The stored value of a cell.
pub fn val_of(cell: &Cell) -> (r: Val)
    ensures
        r@ == val_of_cell(cell@),
{
    match cell {
        Cell::Text(value) => Val::Text(value.clone()),
        Cell::Int(value) => Val::Int(*value),
        Cell::Bool(value) => Val::Int(if *value { 1 } else { 0 }),
    }
}

/// What a null in a needed field is refused with.
pub open spec fn null_field(name: Seq<char>) -> Why {
    Why::Refused("required field "@ + name + " is null"@)
}

/// The cell a stored value makes for field `s`: none for a null in a field
/// that may be null, a refusal for a null in a needed one.
pub open spec fn picked(s: SlotV, v: ValV) -> Result<Option<CellV>, Why> {
    match v {
        ValV::Null => if s.need {
            Err(null_field(s.name))
        } else {
            Ok(None)
        },
        _ => Ok(Some(match s.kind {
            Kind::Text | Kind::Link => CellV::Text(val_text(v)),
            Kind::Int => CellV::Int(match v {
                ValV::Int(i) => i,
                _ => 0,
            }),
            Kind::Bool => CellV::Bool(match v {
                ValV::Int(i) => i != 0,
                _ => false,
            }),
        })),
    }
}

fn null_note(name: &str) -> (e: Error)
    ensures
        told(e, null_field(name@)),
{
    let mut s = own("required field ");
    push_str(&mut s, name);
    push_str(&mut s, " is null");
    Error::Adapt(s)
}

/// The cell a stored value makes for field `slot`.
pub fn pick(slot: &Slot, cell: &Val) -> (r: Result<Option<Cell>, Error>)
    ensures
        match picked(slot@, cell@) {
            Ok(None) => r matches Ok(None),
            Ok(Some(c)) => r matches Ok(Some(x)) && x@ == c,
            Err(w) => r matches Err(e) && told(e, w),
        },
{
    match cell {
        Val::Null => {
            if slot.need() {
                Err(null_note(slot.name()))
            } else {
                Ok(None)
            }
        },
        _ => Ok(Some(match slot.kind() {
            Kind::Text | Kind::Link => Cell::Text(cell.text()),
            Kind::Int => Cell::Int(cell.integer()),
            Kind::Bool => Cell::Bool(cell.integer() != 0),
        })),
    }
}

/// The contents of a list of stored values.
pub open spec fn vals_view(v: Seq<Val>) -> Seq<ValV> {
    v.map_values(|x: Val| x@)
}

/// The integer a stored value reads as (zero unless an integer).
pub open spec fn int_val(v: ValV) -> i64 {
    match v {
        ValV::Int(i) => i,
        _ => 0,
    }
}

/// The integer a stored value holds, if any.
pub open spec fn opt_val(v: ValV) -> Option<i64> {
    match v {
        ValV::Int(i) => Some(i),
        _ => None,
    }
}

/// The cells fields `slots` take from stored values, the first at `base`:
/// fields read as null are left out, a null in a needed field fails.
pub open spec fn read_slots(slots: Seq<SlotV>, line: Seq<ValV>, base: int) -> Result<Seq<(Seq<char>, CellV)>, Why>
    decreases slots.len(),
{
    if slots.len() == 0 {
        Ok(Seq::empty())
    } else {
        match read_slots(slots.drop_last(), line, base) {
            Err(w) => Err(w),
            Ok(cs) => match picked(slots.last(), line[base + slots.len() - 1]) {
                Err(w) => Err(w),
                Ok(None) => Ok(cs),
                Ok(Some(c)) => Ok(placed(cs, slots.last().name, c)),
            },
        }
    }
}

/// The cells key-column bonds `refs` add from stored values, the first at
/// `base`: each that holds an integer.
pub open spec fn read_refs(cs: Seq<(Seq<char>, CellV)>, refs: Seq<EdgeV>, line: Seq<ValV>, base: int) -> Seq<(Seq<char>, CellV)>
    decreases refs.len(),
{
    if refs.len() == 0 {
        cs
    } else {
        let r = read_refs(cs, refs.drop_last(), line, base);
        match opt_val(line[base + refs.len() - 1]) {
            Some(k) => placed(r, refs.last().name, CellV::Int(k)),
            None => r,
        }
    }
}

/// Fails on the first prefix of the fields stay.
proof fn lemma_read_fails(slots: Seq<SlotV>, line: Seq<ValV>, base: int, n: int)
    requires
        0 <= n <= slots.len(),
        read_slots(slots.take(n), line, base) is Err,
    ensures
        read_slots(slots, line, base) == read_slots(slots.take(n), line, base),
    decreases slots.len() - n,
{
    if n < slots.len() {
        assert(slots.take(n + 1).drop_last() =~= slots.take(n));
        lemma_read_fails(slots, line, base, n + 1);
    } else {
        assert(slots.take(n) =~= slots);
    }
}

/// Reads the cells of `slots` from `line`, the first at `base`.
fn read_cells(slots: &[Slot], line: &[Val], base: usize) -> (r: Result<Cells, Error>)
    requires
        base + slots@.len() <= line@.len(),
    ensures
        match read_slots(slots_view(slots@), vals_view(line@), base as int) {
            Ok(cs) => r matches Ok(x) && cells_view(x@) == cs && distinct(cs),
            Err(w) => r matches Err(e) && told(e, w),
        },
{
    let ghost sv = slots_view(slots@);
    let ghost lv = vals_view(line@);
    let mut cells: Cells = Vec::new();
    let mut i: usize = 0;
    let width = line.len();
    assert(sv.take(0) =~= Seq::<SlotV>::empty());
    assert(cells_view(cells@) =~= Seq::<(Seq<char>, CellV)>::empty());
    while i < slots.len()
        invariant
            i <= slots@.len(),
            width == line@.len(),
            base + slots@.len() <= line@.len(),
            sv == slots_view(slots@),
            lv == vals_view(line@),
            read_slots(sv.take(i as int), lv, base as int) == Ok::<Seq<(Seq<char>, CellV)>, Why>(cells_view(cells@)),
            distinct(cells_view(cells@)),
        decreases slots@.len() - i,
    {
        proof {
            assert(sv.take(i + 1).drop_last() =~= sv.take(i as int));
            assert(sv.take(i + 1).last() == slots@[i as int]@);
            assert(lv[base + i] == line@[base + i]@);
        }
        match pick(&slots[i], &line[base + i]) {
            Err(e) => {
                proof {
                    lemma_read_fails(sv, lv, base as int, i + 1);
                }
                return Err(e);
            },
            Ok(None) => {},
            Ok(Some(c)) => {
                put_cell(&mut cells, own(slots[i].name()), c);
            },
        }
        i = i + 1;
    }
    assert(sv.take(slots@.len() as int) =~= sv);
    Ok(cells)
}

/// Adds the cells of key-column bonds `refs` from `line`, the first at
/// `base`.
fn read_ref_cells(cells: &mut Cells, refs: &Vec<&Edge>, line: &[Val], base: usize)
    requires
        base + refs@.len() <= line@.len(),
        distinct(cells_view(old(cells)@)),
    ensures
        cells_view(final(cells)@) == read_refs(cells_view(old(cells)@), edge_refs_view(refs@), vals_view(line@), base as int),
        distinct(cells_view(final(cells)@)),
{
    let ghost start = cells_view(cells@);
    let ghost rv = edge_refs_view(refs@);
    let ghost lv = vals_view(line@);
    let mut j: usize = 0;
    let width = line.len();
    assert(rv.take(0) =~= Seq::<EdgeV>::empty());
    while j < refs.len()
        invariant
            j <= refs@.len(),
            width == line@.len(),
            base + refs@.len() <= line@.len(),
            rv == edge_refs_view(refs@),
            lv == vals_view(line@),
            cells_view(cells@) == read_refs(start, rv.take(j as int), lv, base as int),
            distinct(cells_view(cells@)),
        decreases refs@.len() - j,
    {
        proof {
            assert(rv.take(j + 1).drop_last() =~= rv.take(j as int));
            assert(rv.take(j + 1).last() == refs@[j as int]@);
            assert(lv[base + j] == line@[base + j]@);
        }
        match line[base + j].opt() {
            Some(k) => {
                put_cell(cells, own(refs[j].name()), Cell::Int(k));
            },
            None => {},
        }
        j = j + 1;
    }
    assert(rv.take(refs@.len() as int) =~= rv);
}

/// How many stored values a row of `u` takes: the key, each field, each
/// key-column bond, and three stamps.
pub open spec fn row_width(u: UnitV) -> int {
    1 + u.fields.len() as int + refs_of(u.bonds).len() as int + 3
}

/// Row `r` is what reading `line` as a row of `u` gives, its cells being
/// those of the fields, `cs`.
pub open spec fn row_read(r: Row, u: UnitV, line: Seq<ValV>, cs: Seq<(Seq<char>, CellV)>) -> bool {
    let nf = u.fields.len() as int;
    let nr = refs_of(u.bonds).len() as int;
    &&& r.key_of() == int_val(line[0])
    &&& r.cells_of() == read_refs(cs, refs_of(u.bonds), line, 1 + nf)
    &&& r.expiry() == opt_val(line[1 + nf + nr])
    &&& r.born() == int_val(line[2 + nf + nr])
    &&& r.touched() == int_val(line[3 + nf + nr])
}

impl Row {
    /// Reads a row of `unit` from its stored values: the key, the fields in
    /// order, the key-column bonds in order, then expiry, creation and
    /// update stamps.
    pub fn read(unit: &Unit, line: &[Val]) -> (r: Result<Row, Error>)
        requires
            row_width(unit@) <= line@.len(),
        ensures
            match read_slots(unit@.fields, vals_view(line@), 1) {
                Ok(cs) => r matches Ok(row) && row.wf() && row_read(row, unit@, vals_view(line@), cs),
                Err(w) => r matches Err(e) && told(e, w),
            },
    {
        let ghost lv = vals_view(line@);
        let key = line[0].integer();
        let slots = unit.fields();
        let mut cells = read_cells(slots, line, 1)?;
        let refs = unit.refs();
        let at = 1 + slots.len();
        read_ref_cells(&mut cells, &refs, line, at);
        let n = at + refs.len();
        proof {
            assert(lv[0] == line@[0]@);
            assert(lv[n as int] == line@[n as int]@);
            assert(lv[n + 1] == line@[n + 1]@);
            assert(lv[n + 2] == line@[n + 2]@);
        }
        let expires = line[n].opt();
        let created = line[n + 1].integer();
        let updated = line[n + 2].integer();
        Ok(Row::make(key, cells, expires, created, updated))
    }
}

/// What reading a tie's field values gives: every field must hold a value.
pub open spec fn tie_slots(slots: Seq<SlotV>, line: Seq<ValV>) -> Result<Seq<(Seq<char>, CellV)>, Why>
    decreases slots.len(),
{
    if slots.len() == 0 {
        Ok(Seq::empty())
    } else {
        match tie_slots(slots.drop_last(), line) {
            Err(w) => Err(w),
            Ok(cs) => match picked(slots.last(), line[6 + slots.len() - 1]) {
                Err(w) => Err(w),
                Ok(None) => Err(null_field(slots.last().name)),
                Ok(Some(c)) => Ok(placed(cs, slots.last().name, c)),
            },
        }
    }
}

/// Fails on the first prefix of the fields stay.
proof fn lemma_tie_fails(slots: Seq<SlotV>, line: Seq<ValV>, n: int)
    requires
        0 <= n <= slots.len(),
        tie_slots(slots.take(n), line) is Err,
    ensures
        tie_slots(slots, line) == tie_slots(slots.take(n), line),
    decreases slots.len() - n,
{
    if n < slots.len() {
        assert(slots.take(n + 1).drop_last() =~= slots.take(n));
        lemma_tie_fails(slots, line, n + 1);
    } else {
        assert(slots.take(n) =~= slots);
    }
}

impl Tie {
    /// Reads a tie of bond `edge` from its stored values: key, left,
    /// right, expiry, creation and update stamps, then the tie's fields.
    pub fn read(edge: &Edge, line: &[Val]) -> (r: Result<Tie, Error>)
        requires
            6 + edge@.fields.len() <= line@.len(),
        ensures
            match tie_slots(edge@.fields, vals_view(line@)) {
                Ok(cs) => r matches Ok(t) && distinct(t.cells_of())
                    && t.key_of() == int_val(vals_view(line@)[0])
                    && t.left_of() == int_val(vals_view(line@)[1])
                    && t.right_of() == int_val(vals_view(line@)[2])
                    && t.expiry() == opt_val(vals_view(line@)[3])
                    && t.born() == int_val(vals_view(line@)[4])
                    && t.touched() == int_val(vals_view(line@)[5])
                    && t.cells_of() == cs,
                Err(w) => r matches Err(e) && told(e, w),
            },
    {
        let ghost lv = vals_view(line@);
        proof {
            assert(lv[0] == line@[0]@);
            assert(lv[1] == line@[1]@);
            assert(lv[2] == line@[2]@);
            assert(lv[3] == line@[3]@);
            assert(lv[4] == line@[4]@);
            assert(lv[5] == line@[5]@);
        }
        let key = line[0].integer();
        let left = line[1].integer();
        let right = line[2].integer();
        let expires = line[3].opt();
        let created = line[4].integer();
        let updated = line[5].integer();
        let slots = edge.fields();
        let ghost sv = slots_view(slots@);
        let mut cells: Cells = Vec::new();
        let mut i: usize = 0;
        let width = line.len();
        assert(sv.take(0) =~= Seq::<SlotV>::empty());
        assert(cells_view(cells@) =~= Seq::<(Seq<char>, CellV)>::empty());
        while i < slots.len()
            invariant
                i <= slots@.len(),
                width == line@.len(),
                6 + slots@.len() <= line@.len(),
                sv == slots_view(slots@),
                sv == edge@.fields,
                lv == vals_view(line@),
                tie_slots(sv.take(i as int), lv) == Ok::<Seq<(Seq<char>, CellV)>, Why>(cells_view(cells@)),
                distinct(cells_view(cells@)),
            decreases slots@.len() - i,
        {
            proof {
                assert(sv.take(i + 1).drop_last() =~= sv.take(i as int));
                assert(sv.take(i + 1).last() == slots@[i as int]@);
                assert(lv[6 + i] == line@[6 + i]@);
            }
            match pick(&slots[i], &line[6 + i]) {
                Err(e) => {
                    proof {
                        lemma_tie_fails(sv, lv, i + 1);
                    }
                    return Err(e);
                },
                Ok(None) => {
                    proof {
                        lemma_tie_fails(sv, lv, i + 1);
                    }
                    return Err(null_note(slots[i].name()));
                },
                Ok(Some(c)) => {
                    put_cell(&mut cells, own(slots[i].name()), c);
                },
            }
            i = i + 1;
        }
        assert(sv.take(slots@.len() as int) =~= sv);
        Ok(Tie::make(key, left, right, cells, expires, created, updated))
    }
}

} // verus!
