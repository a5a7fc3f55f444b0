//! Weaving stored schema rows back into manifest lines: each bond, field,
//! scope and value row is tied to the unit (and bond, and field) it belongs
//! to, by the keys those rows were stored under.
use vstd::prelude::*;
use crate::error::{Error, adapt2, refused};
use crate::life::glean::{cell, draw, draws, drawn};
use crate::life::{Row, lookup, shown};
use crate::text::{int_in, int_of, own};

verus! {

/// The map a list of keyed entries builds when each is inserted in turn:
/// a later entry for a key replaces an earlier one.
pub open spec fn book<K, A>(s: Seq<(K, A)>) -> Map<K, A>
    decreases s.len(),
{
    if s.len() == 0 {
        Map::empty()
    } else {
        book(s.drop_last()).insert(s.last().0, s.last().1)
    }
}

pub(crate) proof fn lemma_book_at<K, A>(s: Seq<(K, A)>, i: int)
    requires
        0 <= i < s.len(),
        forall|j: int| i < j < s.len() ==> s[j].0 != s[i].0,
    ensures
        book(s).dom().contains(s[i].0),
        book(s)[s[i].0] == s[i].1,
    decreases s.len(),
{
    if i < s.len() - 1 {
        let t = s.drop_last();
        assert(t[i] == s[i]);
        assert forall|j: int| i < j < t.len() implies t[j].0 != t[i].0 by {
            assert(t[j] == s[j]);
        }
        lemma_book_at(t, i);
    }
}

pub(crate) proof fn lemma_book_absent<K, A>(s: Seq<(K, A)>, k: K)
    requires
        forall|j: int| 0 <= j < s.len() ==> s[j].0 != k,
    ensures
        !book(s).dom().contains(k),
    decreases s.len(),
{
    if s.len() > 0 {
        let t = s.drop_last();
        assert forall|j: int| 0 <= j < t.len() implies t[j].0 != k by {
            assert(t[j] == s[j]);
        }
        lemma_book_absent(t, k);
    }
}

/// Where the last entry for `k` stands, if there is one.
fn last_at<T>(s: &[(i64, T)], k: i64) -> (r: Option<usize>)
    ensures
        match r {
            Some(i) => i < s@.len() && s@[i as int].0 == k && forall|j: int|
                i < j < s@.len() ==> #[trigger] s@[j].0 != k,
            None => forall|j: int| 0 <= j < s@.len() ==> #[trigger] s@[j].0 != k,
        },
{
    let mut i: usize = s.len();
    while i > 0
        invariant
            i <= s@.len(),
            forall|j: int| i <= j < s@.len() ==> #[trigger] s@[j].0 != k,
        decreases i,
    {
        if s[i - 1].0 == k {
            return Some(i - 1);
        }
        i = i - 1;
    }
    None
}

/// The content of a list of named texts.
pub open spec fn names_view(s: Seq<(i64, String)>) -> Seq<(i64, Seq<char>)> {
    s.map_values(|e: (i64, String)| (e.0, e.1@))
}

/// The sheet a manifest line belongs to.
#[derive(Clone, Copy, Debug, PartialEq, Eq, Structural)]
pub enum Sheet {
    Unit,
    Bond,
    Field,
    Scope,
    Value,
}

/// One manifest line: its sheet and its named cells, as text.
#[derive(Debug)]
pub struct Line {
    pub unit: Sheet,
    pub cells: Vec<(String, String)>,
}

/// The content of a manifest line.
pub struct LineV {
    pub unit: Sheet,
    pub cells: Seq<(Seq<char>, Seq<char>)>,
}

/// The content of named text cells.
pub open spec fn pairs_view(v: Seq<(String, String)>) -> Seq<(Seq<char>, Seq<char>)> {
    v.map_values(|p: (String, String)| (p.0@, p.1@))
}

/// The contents of manifest lines.
pub open spec fn lines_view(v: Seq<Line>) -> Seq<LineV> {
    v.map_values(|l: Line| LineV { unit: l.unit, cells: pairs_view(l.cells@) })
}

/// Cell `head` of row `r` as text, empty when the row lacks it.
pub open spec fn held_text(r: Row, head: Seq<char>) -> Seq<char> {
    match lookup(r.cells_of(), head) {
        Some(c) => shown(c),
        None => Seq::empty(),
    }
}

/// The key cell `head` of row `r` names, when its text reads as one.
pub open spec fn at_key(r: Row, head: Seq<char>) -> Option<i64> {
    match int_of(held_text(r, head)) {
        Some(v) => Some(v as i64),
        None => None,
    }
}

/// Every row has each name once.
pub open spec fn rows_wf(rows: Seq<Row>) -> bool {
    forall|i: int| 0 <= i < rows.len() ==> #[trigger] rows[i].wf()
}

/// The units by key: each root row's key, to its `key` cell.
pub open spec fn units_of(roots: Seq<Row>) -> Map<i64, Seq<char>>
    decreases roots.len(),
{
    if roots.len() == 0 {
        Map::empty()
    } else {
        units_of(roots.drop_last()).insert(roots.last().key_of(), held_text(roots.last(), "key"@))
    }
}

/// The heads a unit line carries.
pub open spec fn unit_heads() -> Seq<Seq<char>> {
    seq!["key"@, "name"@, "veil"@, "frozen"@]
}

/// The line of a unit row.
pub open spec fn unit_line(r: Row) -> LineV {
    LineV { unit: Sheet::Unit, cells: draws(r, unit_heads()) }
}

/// Cell `head` of a row as text, empty when the row lacks it.
fn held(row: &Row, head: &str) -> (r: String)
    requires
        row.wf(),
    ensures
        r@ == held_text(*row, head@),
{
    match row.cell(head) {
        Some(c) => c.show(),
        None => String::new(),
    }
}

/// The unit lines of the root rows, and the units by key.
fn unit_lines(roots: &[Row]) -> (r: (Vec<(i64, String)>, Vec<Line>))
    requires
        rows_wf(roots@),
    ensures
        book(names_view(r.0@)) == units_of(roots@),
        lines_view(r.1@) == roots@.map_values(|x: Row| unit_line(x)),
{
    let mut names: Vec<(i64, String)> = Vec::new();
    let mut out: Vec<Line> = Vec::new();
    let mut i: usize = 0;
    while i < roots.len()
        invariant
            0 <= i <= roots@.len(),
            rows_wf(roots@),
            book(names_view(names@)) == units_of(roots@.take(i as int)),
            lines_view(out@) == roots@.take(i as int).map_values(|x: Row| unit_line(x)),
        decreases roots@.len() - i,
    {
        let row = &roots[i];
        assert(roots@[i as int].wf());
        let ghost nv = names_view(names@);
        let ghost lv = lines_view(out@);
        names.push((row.key(), held(row, "key")));
        let heads = ["key", "name", "veil", "frozen"];
        let cells = draw(row, &heads);
        proof {
            assert(heads@.map_values(|h: &str| h@) =~= unit_heads());
        }
        out.push(Line { unit: Sheet::Unit, cells });
        proof {
            let t = roots@.take(i + 1);
            assert(t.drop_last() =~= roots@.take(i as int));
            assert(t.last() == *row);
            assert(names_view(names@) =~= nv.push((row.key_of(), held_text(*row, "key"@))));
            assert(names_view(names@).drop_last() =~= nv);
            assert(lines_view(out@) =~= lv.push(unit_line(*row)));
            assert(lines_view(out@) =~= t.map_values(|x: Row| unit_line(x)));
        }
        i = i + 1;
    }
    assert(roots@.take(roots@.len() as int) =~= roots@);
    (names, out)
}

/// The row names a known unit by its `unit` cell.
pub open spec fn owns(units: Map<i64, Seq<char>>, r: Row) -> bool {
    at_key(r, "unit"@) matches Some(k) && units.dom().contains(k)
}

/// Where a bond or field row is moored: the name of its unit and, when the
/// row names a bond, of that bond; or the note naming the key that is not
/// known.
pub open spec fn moor_spec(
    units: Map<i64, Seq<char>>,
    bonds: Map<i64, Seq<char>>,
    r: Row,
) -> Result<(Seq<char>, Option<Seq<char>>), Seq<char>> {
    match at_key(r, "unit"@) {
        Some(k) => if units.dom().contains(k) {
            match lookup(r.cells_of(), "bond"@) {
                None => Ok((units[k], None)),
                Some(c) => match int_of(shown(c)) {
                    Some(v) => if bonds.dom().contains(v as i64) {
                        Ok((units[k], Some(bonds[v as i64])))
                    } else {
                        Err("schema bond "@ + shown(c))
                    },
                    None => Err("schema bond "@ + shown(c)),
                },
            }
        } else {
            Err("schema unit "@ + held_text(r, "unit"@))
        },
        None => Err("schema unit "@ + held_text(r, "unit"@)),
    }
}

/// The cells a mooring gives a line.
pub open spec fn moor_cells(m: (Seq<char>, Option<Seq<char>>)) -> Seq<(Seq<char>, Seq<char>)> {
    seq![("unit"@, m.0)] + match m.1 {
        Some(b) => seq![("bond"@, b)],
        None => Seq::empty(),
    }
}

/// The heads a bond line carries after its mooring.
pub open spec fn bond_heads() -> Seq<Seq<char>> {
    seq!["name"@, "kind"@, "target"@, "need"@, "root"@, "crew"@]
}

/// The bond rows in turn: each row of a known unit gives a line and is
/// known as a bond by its `name` cell from then on.
pub open spec fn bond_pass(units: Map<i64, Seq<char>>, rows: Seq<Row>) -> Result<
    (Map<i64, Seq<char>>, Seq<LineV>),
    Seq<char>,
>
    decreases rows.len(),
{
    if rows.len() == 0 {
        Ok((Map::empty(), Seq::empty()))
    } else {
        match bond_pass(units, rows.drop_last()) {
            Err(e) => Err(e),
            Ok((b, ls)) => {
                let r = rows.last();
                if !owns(units, r) {
                    Ok((b, ls))
                } else {
                    match moor_spec(units, b, r) {
                        Err(e) => Err(e),
                        Ok(m) => Ok(
                            (
                                b.insert(r.key_of(), held_text(r, "name"@)),
                                ls.push(
                                    LineV {
                                        unit: Sheet::Bond,
                                        cells: moor_cells(m) + draws(r, bond_heads()),
                                    },
                                ),
                            ),
                        ),
                    }
                }
            },
        }
    }
}

proof fn lemma_bond_err(units: Map<i64, Seq<char>>, rows: Seq<Row>, n: int)
    requires
        0 <= n <= rows.len(),
        bond_pass(units, rows.take(n)) is Err,
    ensures
        bond_pass(units, rows) == bond_pass(units, rows.take(n)),
    decreases rows.len() - n,
{
    if n == rows.len() {
        assert(rows.take(n) =~= rows);
    } else {
        assert(rows.take(n + 1).drop_last() =~= rows.take(n));
        lemma_bond_err(units, rows, n + 1);
    }
}

/// The name a key stands for, when `text` reads as a known key.
fn named(names: &Vec<(i64, String)>, text: &str) -> (r: Option<String>)
    ensures
        match int_of(text@) {
            Some(v) => if book(names_view(names@)).dom().contains(v as i64) {
                r matches Some(n) && n@ == book(names_view(names@))[v as i64]
            } else {
                r is None
            },
            None => r is None,
        },
{
    let ghost nv = names_view(names@);
    match int_in(text) {
        Some(v) => match last_at(names.as_slice(), v) {
            Some(i) => {
                proof {
                    assert(nv[i as int].0 == v);
                    assert forall|j: int| i < j < nv.len() implies nv[j].0 != nv[i as int].0 by {
                        assert(nv[j].0 == names@[j].0);
                    }
                    lemma_book_at(nv, i as int);
                }
                Some(names[i].1.clone())
            },
            None => {
                proof {
                    assert forall|j: int| 0 <= j < nv.len() implies nv[j].0 != v by {
                        assert(nv[j].0 == names@[j].0);
                    }
                    lemma_book_absent(nv, v);
                }
                None
            },
        },
        None => None,
    }
}

/// Moors a bond or field row.
fn moor(units: &Vec<(i64, String)>, bonds: &Vec<(i64, String)>, row: &Row) -> (r: Result<
    (String, Option<String>),
    Error,
>)
    requires
        row.wf(),
    ensures
        match moor_spec(book(names_view(units@)), book(names_view(bonds@)), *row) {
            Ok(m) => r matches Ok((u, b)) && u@ == m.0 && match m.1 {
                Some(x) => b matches Some(y) && y@ == x,
                None => b is None,
            },
            Err(n) => r matches Err(e) && refused(e, n),
        },
{
    let held_unit = held(row, "unit");
    let unit = match named(units, held_unit.as_str()) {
        Some(u) => u,
        None => {
            return Err(adapt2("schema unit ", held_unit.as_str()));
        },
    };
    match row.cell("bond") {
        None => Ok((unit, None)),
        Some(c) => {
            let text = c.show();
            match named(bonds, text.as_str()) {
                Some(b) => Ok((unit, Some(b))),
                None => Err(adapt2("schema bond ", text.as_str())),
            }
        },
    }
}

/// The text an optional string holds.
pub open spec fn opt_view(o: Option<String>) -> Option<Seq<char>> {
    match o {
        Some(s) => Some(s@),
        None => None,
    }
}

/// The cells of a mooring.
fn moored(m: (String, Option<String>)) -> (r: Vec<(String, String)>)
    ensures
        pairs_view(r@) == moor_cells((m.0@, opt_view(m.1))),
{
    let (unit, bond) = m;
    let mut out: Vec<(String, String)> = Vec::new();
    out.push((own("unit"), unit));
    match bond {
        Some(b) => out.push((own("bond"), b)),
        None => {},
    }
    assert(pairs_view(out@) =~= moor_cells((m.0@, opt_view(m.1))));
    out
}

/// Appends `tail` to `head`.
fn join(head: &mut Vec<(String, String)>, tail: Vec<(String, String)>)
    ensures
        pairs_view(final(head)@) == pairs_view(old(head)@) + pairs_view(tail@),
{
    let mut tail = tail;
    let ghost t = pairs_view(tail@);
    let ghost h = pairs_view(head@);
    head.append(&mut tail);
    assert(pairs_view(head@) =~= h + t);
}

/// The bond lines, after `out`; gives the bonds by key.
fn bond_lines(units: &Vec<(i64, String)>, rows: &[Row], out: &mut Vec<Line>) -> (r: Result<
    Vec<(i64, String)>,
    Error,
>)
    requires
        rows_wf(rows@),
    ensures
        match bond_pass(book(names_view(units@)), rows@) {
            Ok((b, ls)) => r matches Ok(v) && book(names_view(v@)) == b && lines_view(final(out)@)
                == lines_view(old(out)@) + ls,
            Err(n) => r matches Err(e) && refused(e, n),
        },
{
    let ghost u = book(names_view(units@));
    let ghost start = lines_view(out@);
    let mut bonds: Vec<(i64, String)> = Vec::new();
    let mut i: usize = 0;
    while i < rows.len()
        invariant
            0 <= i <= rows@.len(),
            rows_wf(rows@),
            u == book(names_view(units@)),
            bond_pass(u, rows@.take(i as int)) matches Ok((b, ls)) && b == book(
                names_view(bonds@),
            ) && lines_view(out@) == start + ls,
        decreases rows@.len() - i,
    {
        let row = &rows[i];
        assert(rows@[i as int].wf());
        let ghost t = rows@.take(i + 1);
        proof {
            assert(t.drop_last() =~= rows@.take(i as int));
            assert(t.last() == *row);
        }
        let ghost was = lines_view(out@);
        let at = held(row, "unit");
        let owned = match int_in(at.as_str()) {
            Some(v) => match named(units, at.as_str()) {
                Some(_) => true,
                None => false,
            },
            None => false,
        };
        if owned {
            let m = match moor(units, &bonds, row) {
                Ok(m) => m,
                Err(e) => {
                    proof {
                        assert(owns(u, *row));
                        assert(bond_pass(u, t) is Err);
                        lemma_bond_err(u, rows@, i + 1);
                    }
                    return Err(e);
                },
            };
            let ghost mv = (m.0@, opt_view(m.1));
            let mut cells = moored(m);
            let heads = ["name", "kind", "target", "need", "root", "crew"];
            let rest = draw(row, &heads);
            proof {
                assert(heads@.map_values(|h: &str| h@) =~= bond_heads());
            }
            join(&mut cells, rest);
            let ghost bv = names_view(bonds@);
            bonds.push((row.key(), held(row, "name")));
            out.push(Line { unit: Sheet::Bond, cells });
            proof {
                assert(names_view(bonds@) =~= bv.push((row.key_of(), held_text(*row, "name"@))));
                assert(names_view(bonds@).drop_last() =~= bv);
                assert(lines_view(out@) =~= was.push(
                    LineV { unit: Sheet::Bond, cells: moor_cells(mv) + draws(*row, bond_heads()) },
                ));
            }
        }
        i = i + 1;
    }
    assert(rows@.take(rows@.len() as int) =~= rows@);
    Ok(bonds)
}

/// Where a field stands: its unit, its bond (empty for a unit field) and its
/// name.
#[derive(Debug)]
pub struct Spot {
    pub unit: String,
    pub bond: String,
    pub name: String,
}

/// The content of a field's place.
pub struct SpotV {
    pub unit: Seq<char>,
    pub bond: Seq<char>,
    pub name: Seq<char>,
}

impl View for Spot {
    type V = SpotV;

    open spec fn view(&self) -> SpotV {
        SpotV { unit: self.unit@, bond: self.bond@, name: self.name@ }
    }
}

/// The content of a list of keyed places.
pub open spec fn spots_view(s: Seq<(i64, Spot)>) -> Seq<(i64, SpotV)> {
    s.map_values(|e: (i64, Spot)| (e.0, e.1@))
}

/// The heads a field line carries after its mooring.
pub open spec fn field_heads() -> Seq<Seq<char>> {
    seq!["name"@, "kind"@, "only"@, "need"@, "serial"@, "fallback"@, "min"@, "max"@]
}

/// The place a moored field row gives.
pub open spec fn spot_of(m: (Seq<char>, Option<Seq<char>>), r: Row) -> SpotV {
    SpotV {
        unit: m.0,
        bond: match m.1 {
            Some(b) => b,
            None => Seq::empty(),
        },
        name: held_text(r, "name"@),
    }
}

/// The field rows in turn: each row of a known unit gives a line and is
/// known as a field, by its place, from then on.
pub open spec fn field_pass(
    units: Map<i64, Seq<char>>,
    bonds: Map<i64, Seq<char>>,
    rows: Seq<Row>,
) -> Result<(Map<i64, SpotV>, Seq<LineV>), Seq<char>>
    decreases rows.len(),
{
    if rows.len() == 0 {
        Ok((Map::empty(), Seq::empty()))
    } else {
        match field_pass(units, bonds, rows.drop_last()) {
            Err(e) => Err(e),
            Ok((f, ls)) => {
                let r = rows.last();
                if !owns(units, r) {
                    Ok((f, ls))
                } else {
                    match moor_spec(units, bonds, r) {
                        Err(e) => Err(e),
                        Ok(m) => Ok(
                            (
                                f.insert(r.key_of(), spot_of(m, r)),
                                ls.push(
                                    LineV {
                                        unit: Sheet::Field,
                                        cells: moor_cells(m) + draws(r, field_heads()),
                                    },
                                ),
                            ),
                        ),
                    }
                }
            },
        }
    }
}

proof fn lemma_field_err(
    units: Map<i64, Seq<char>>,
    bonds: Map<i64, Seq<char>>,
    rows: Seq<Row>,
    n: int,
)
    requires
        0 <= n <= rows.len(),
        field_pass(units, bonds, rows.take(n)) is Err,
    ensures
        field_pass(units, bonds, rows) == field_pass(units, bonds, rows.take(n)),
    decreases rows.len() - n,
{
    if n == rows.len() {
        assert(rows.take(n) =~= rows);
    } else {
        assert(rows.take(n + 1).drop_last() =~= rows.take(n));
        lemma_field_err(units, bonds, rows, n + 1);
    }
}

/// Whether a row names a known unit by its `unit` cell.
fn owned(units: &Vec<(i64, String)>, row: &Row) -> (r: bool)
    requires
        row.wf(),
    ensures
        r == owns(book(names_view(units@)), *row),
{
    let at = held(row, "unit");
    match named(units, at.as_str()) {
        Some(_) => true,
        None => false,
    }
}

/// The field lines, after `out`; gives the fields' places by key.
fn field_lines(
    units: &Vec<(i64, String)>,
    bonds: &Vec<(i64, String)>,
    rows: &[Row],
    out: &mut Vec<Line>,
) -> (r: Result<Vec<(i64, Spot)>, Error>)
    requires
        rows_wf(rows@),
    ensures
        match field_pass(book(names_view(units@)), book(names_view(bonds@)), rows@) {
            Ok((f, ls)) => r matches Ok(v) && book(spots_view(v@)) == f && lines_view(final(out)@)
                == lines_view(old(out)@) + ls,
            Err(n) => r matches Err(e) && refused(e, n),
        },
{
    let ghost u = book(names_view(units@));
    let ghost b = book(names_view(bonds@));
    let ghost start = lines_view(out@);
    let mut spots: Vec<(i64, Spot)> = Vec::new();
    let mut i: usize = 0;
    while i < rows.len()
        invariant
            0 <= i <= rows@.len(),
            rows_wf(rows@),
            u == book(names_view(units@)),
            b == book(names_view(bonds@)),
            field_pass(u, b, rows@.take(i as int)) matches Ok((f, ls)) && f == book(
                spots_view(spots@),
            ) && lines_view(out@) == start + ls,
        decreases rows@.len() - i,
    {
        let row = &rows[i];
        assert(rows@[i as int].wf());
        let ghost t = rows@.take(i + 1);
        proof {
            assert(t.drop_last() =~= rows@.take(i as int));
            assert(t.last() == *row);
        }
        let ghost was = lines_view(out@);
        if owned(units, row) {
            let m = match moor(units, bonds, row) {
                Ok(m) => m,
                Err(e) => {
                    proof {
                        assert(field_pass(u, b, t) is Err);
                        lemma_field_err(u, b, rows@, i + 1);
                    }
                    return Err(e);
                },
            };
            let ghost mv = (m.0@, opt_view(m.1));
            let spot = Spot {
                unit: m.0.clone(),
                bond: match &m.1 {
                    Some(x) => x.clone(),
                    None => String::new(),
                },
                name: held(row, "name"),
            };
            assert(spot@ == spot_of(mv, *row));
            let mut cells = moored(m);
            let heads = ["name", "kind", "only", "need", "serial", "fallback", "min", "max"];
            let rest = draw(row, &heads);
            proof {
                assert(heads@.map_values(|h: &str| h@) =~= field_heads());
            }
            join(&mut cells, rest);
            let ghost sv = spots_view(spots@);
            spots.push((row.key(), spot));
            out.push(Line { unit: Sheet::Field, cells });
            proof {
                assert(spots_view(spots@) =~= sv.push((row.key_of(), spot_of(mv, *row))));
                assert(spots_view(spots@).drop_last() =~= sv);
                assert(lines_view(out@) =~= was.push(
                    LineV { unit: Sheet::Field, cells: moor_cells(mv) + draws(*row, field_heads()) },
                ));
            }
        }
        i = i + 1;
    }
    assert(rows@.take(rows@.len() as int) =~= rows@);
    Ok(spots)
}

/// The row names a known field by its `field` cell.
pub open spec fn tied(fields: Map<i64, SpotV>, r: Row) -> bool {
    at_key(r, "field"@) matches Some(k) && fields.dom().contains(k)
}

/// The head a scope or value line carries its own cell under.
pub open spec fn leaf_head(sheet: Sheet) -> Seq<char> {
    if sheet == Sheet::Scope {
        "scope"@
    } else {
        "value"@
    }
}

/// The cells of a scope or value row: its field's place, then its own cell.
pub open spec fn leaf_spec(fields: Map<i64, SpotV>, r: Row, sheet: Sheet) -> Result<
    Seq<(Seq<char>, Seq<char>)>,
    Seq<char>,
> {
    match at_key(r, "field"@) {
        Some(k) => if fields.dom().contains(k) {
            let sp = fields[k];
            Ok(
                seq![("unit"@, sp.unit), ("name"@, sp.name)] + (if sp.bond.len() > 0 {
                    seq![("bond"@, sp.bond)]
                } else {
                    Seq::empty()
                }) + match drawn(r, leaf_head(sheet)) {
                    Some(p) => seq![p],
                    None => Seq::empty(),
                },
            )
        } else {
            Err("schema field "@ + held_text(r, "field"@))
        },
        None => Err("schema field "@ + held_text(r, "field"@)),
    }
}

/// The scope or value rows in turn: each row of a known field gives a line.
pub open spec fn leaf_pass(fields: Map<i64, SpotV>, rows: Seq<Row>, sheet: Sheet) -> Result<
    Seq<LineV>,
    Seq<char>,
>
    decreases rows.len(),
{
    if rows.len() == 0 {
        Ok(Seq::empty())
    } else {
        match leaf_pass(fields, rows.drop_last(), sheet) {
            Err(e) => Err(e),
            Ok(ls) => {
                let r = rows.last();
                if !tied(fields, r) {
                    Ok(ls)
                } else {
                    match leaf_spec(fields, r, sheet) {
                        Err(e) => Err(e),
                        Ok(cs) => Ok(ls.push(LineV { unit: sheet, cells: cs })),
                    }
                }
            },
        }
    }
}

proof fn lemma_leaf_err(fields: Map<i64, SpotV>, rows: Seq<Row>, sheet: Sheet, n: int)
    requires
        0 <= n <= rows.len(),
        leaf_pass(fields, rows.take(n), sheet) is Err,
    ensures
        leaf_pass(fields, rows, sheet) == leaf_pass(fields, rows.take(n), sheet),
    decreases rows.len() - n,
{
    if n == rows.len() {
        assert(rows.take(n) =~= rows);
    } else {
        assert(rows.take(n + 1).drop_last() =~= rows.take(n));
        lemma_leaf_err(fields, rows, sheet, n + 1);
    }
}

/// The place a key stands for, when `text` reads as a known key.
fn placed<'a>(spots: &'a Vec<(i64, Spot)>, text: &str) -> (r: Option<&'a Spot>)
    ensures
        match int_of(text@) {
            Some(v) => if book(spots_view(spots@)).dom().contains(v as i64) {
                r matches Some(sp) && sp@ == book(spots_view(spots@))[v as i64]
            } else {
                r is None
            },
            None => r is None,
        },
{
    let ghost sv = spots_view(spots@);
    match int_in(text) {
        Some(v) => match last_at(spots.as_slice(), v) {
            Some(i) => {
                proof {
                    assert(sv[i as int].0 == v);
                    assert forall|j: int| i < j < sv.len() implies sv[j].0 != sv[i as int].0 by {
                        assert(sv[j].0 == spots@[j].0);
                    }
                    lemma_book_at(sv, i as int);
                }
                Some(&spots[i].1)
            },
            None => {
                proof {
                    assert forall|j: int| 0 <= j < sv.len() implies sv[j].0 != v by {
                        assert(sv[j].0 == spots@[j].0);
                    }
                    lemma_book_absent(sv, v);
                }
                None
            },
        },
        None => None,
    }
}

/// The cells of a scope or value row.
fn leaf(spots: &Vec<(i64, Spot)>, row: &Row, sheet: Sheet) -> (r: Result<Vec<(String, String)>, Error>)
    requires
        row.wf(),
    ensures
        match leaf_spec(book(spots_view(spots@)), *row, sheet) {
            Ok(cs) => r matches Ok(v) && pairs_view(v@) == cs,
            Err(n) => r matches Err(e) && refused(e, n),
        },
{
    let at = held(row, "field");
    let sp = match placed(spots, at.as_str()) {
        Some(sp) => sp,
        None => {
            return Err(adapt2("schema field ", at.as_str()));
        },
    };
    let mut cells: Vec<(String, String)> = Vec::new();
    cells.push((own("unit"), sp.unit.clone()));
    cells.push((own("name"), sp.name.clone()));
    if !sp.bond.as_str().is_empty() {
        cells.push((own("bond"), sp.bond.clone()));
    }
    let head = match sheet {
        Sheet::Scope => "scope",
        _ => "value",
    };
    assert(head@ == leaf_head(sheet));
    let ghost before = pairs_view(cells@);
    match cell(row, head) {
        Some(p) => {
            cells.push(p);
        },
        None => {},
    }
    assert(pairs_view(cells@) =~= leaf_spec(book(spots_view(spots@)), *row, sheet)->Ok_0);
    Ok(cells)
}

/// The scope or value lines, after `out`.
fn leaf_lines(spots: &Vec<(i64, Spot)>, rows: &[Row], sheet: Sheet, out: &mut Vec<Line>) -> (r:
    Result<(), Error>)
    requires
        rows_wf(rows@),
    ensures
        match leaf_pass(book(spots_view(spots@)), rows@, sheet) {
            Ok(ls) => r is Ok && lines_view(final(out)@) == lines_view(old(out)@) + ls,
            Err(n) => r matches Err(e) && refused(e, n),
        },
{
    let ghost f = book(spots_view(spots@));
    let ghost start = lines_view(out@);
    let mut i: usize = 0;
    while i < rows.len()
        invariant
            0 <= i <= rows@.len(),
            rows_wf(rows@),
            f == book(spots_view(spots@)),
            leaf_pass(f, rows@.take(i as int), sheet) matches Ok(ls) && lines_view(out@) == start
                + ls,
        decreases rows@.len() - i,
    {
        let row = &rows[i];
        assert(rows@[i as int].wf());
        let ghost t = rows@.take(i + 1);
        proof {
            assert(t.drop_last() =~= rows@.take(i as int));
            assert(t.last() == *row);
        }
        let ghost was = lines_view(out@);
        let at = held(row, "field");
        let is_tied = match placed(spots, at.as_str()) {
            Some(_) => true,
            None => false,
        };
        if is_tied {
            let cells = match leaf(spots, row, sheet) {
                Ok(c) => c,
                Err(e) => {
                    proof {
                        assert(leaf_pass(f, t, sheet) is Err);
                        lemma_leaf_err(f, rows@, sheet, i + 1);
                    }
                    return Err(e);
                },
            };
            let ghost cv = pairs_view(cells@);
            out.push(Line { unit: sheet, cells });
            assert(lines_view(out@) =~= was.push(LineV { unit: sheet, cells: cv }));
        }
        i = i + 1;
    }
    assert(rows@.take(rows@.len() as int) =~= rows@);
    Ok(())
}

/// The manifest lines the stored schema rows weave into: the unit lines of
/// `roots`, then the lines of the bond, field, scope and value rows that
/// belong to them, in that order; or the note of the first row that names
/// a key not known.
pub open spec fn weave_spec(
    roots: Seq<Row>,
    bonds: Seq<Row>,
    fields: Seq<Row>,
    scopes: Seq<Row>,
    values: Seq<Row>,
) -> Result<Seq<LineV>, Seq<char>> {
    let u = units_of(roots);
    let l0 = roots.map_values(|x: Row| unit_line(x));
    match bond_pass(u, bonds) {
        Err(e) => Err(e),
        Ok((b, l1)) => match field_pass(u, b, fields) {
            Err(e) => Err(e),
            Ok((f, l2)) => match leaf_pass(f, scopes, Sheet::Scope) {
                Err(e) => Err(e),
                Ok(l3) => match leaf_pass(f, values, Sheet::Value) {
                    Err(e) => Err(e),
                    Ok(l4) => Ok(l0 + l1 + l2 + l3 + l4),
                },
            },
        },
    }
}

/// Weaves stored schema rows into manifest lines: `roots` are the unit rows
/// of the generation wanted, the others every stored bond, field, scope and
/// value row.
pub fn weave(roots: &[Row], bonds: &[Row], fields: &[Row], scopes: &[Row], values: &[Row]) -> (r:
    Result<Vec<Line>, Error>)
    requires
        rows_wf(roots@),
        rows_wf(bonds@),
        rows_wf(fields@),
        rows_wf(scopes@),
        rows_wf(values@),
    ensures
        match weave_spec(roots@, bonds@, fields@, scopes@, values@) {
            Ok(ls) => r matches Ok(v) && lines_view(v@) == ls,
            Err(n) => r matches Err(e) && refused(e, n),
        },
{
    let (units, mut out) = unit_lines(roots);
    let known = bond_lines(&units, bonds, &mut out)?;
    let spots = field_lines(&units, &known, fields, &mut out)?;
    leaf_lines(&spots, scopes, Sheet::Scope, &mut out)?;
    leaf_lines(&spots, values, Sheet::Value, &mut out)?;
    Ok(out)
}

} // verus!
