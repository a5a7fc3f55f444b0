//! Etching manifest lines back into schema rows: each line keeps its cells,
//! with the names of the unit, bond and field it belongs to replaced by the
//! keys their own rows were stored under.
use vstd::prelude::*;
use crate::error::{Error, adapt2, refused};
use crate::life::weave::{Line, LineV, Sheet, book, lemma_book_absent, lemma_book_at, pairs_view};
use crate::plan::{first_where, lemma_first_at, lemma_first_none};
use crate::text::{decimal, own, push_char, push_str, same, show_int};

verus! {

/// The pair is named `head`.
pub open spec fn named_head(head: Seq<char>) -> spec_fn((Seq<char>, Seq<char>)) -> bool {
    |p: (Seq<char>, Seq<char>)| p.0 == head
}

/// The text of the first cell named `head`, empty when there is none.
pub open spec fn look_spec(cells: Seq<(Seq<char>, Seq<char>)>, head: Seq<char>) -> Seq<char> {
    match first_where(cells, named_head(head)) {
        Some(i) => cells[i].1,
        None => Seq::empty(),
    }
}

impl Line {
    /// The text of the line's first cell named `head`, empty when it has none.
    pub fn look(&self, head: &str) -> (r: String)
        ensures
            r@ == look_spec(pairs_view(self.cells@), head@),
    {
        let ghost cv = pairs_view(self.cells@);
        let mut i: usize = 0;
        while i < self.cells.len()
            invariant
                0 <= i <= self.cells@.len(),
                cv == pairs_view(self.cells@),
                forall|j: int| 0 <= j < i ==> !named_head(head@)(#[trigger] cv[j]),
            decreases self.cells@.len() - i,
        {
            if same(self.cells[i].0.as_str(), head) {
                proof {
                    lemma_first_at(cv, named_head(head@), i as int);
                }
                return self.cells[i].1.clone();
            }
            i = i + 1;
        }
        proof {
            lemma_first_none(cv, named_head(head@));
        }
        String::new()
    }
}

/// The place key of a line's member `head`: its unit, bond and `head` cells,
/// joined by U+0001.
pub open spec fn under_spec(cells: Seq<(Seq<char>, Seq<char>)>, head: Seq<char>) -> Seq<char> {
    look_spec(cells, "unit"@) + seq!['\u{1}'] + look_spec(cells, "bond"@) + seq!['\u{1}']
        + look_spec(cells, head)
}

/// The place key of the bond a line belongs to.
pub open spec fn owner_spec(cells: Seq<(Seq<char>, Seq<char>)>) -> Seq<char> {
    look_spec(cells, "unit"@) + seq!['\u{1}', '\u{1}'] + look_spec(cells, "bond"@)
}

fn under(line: &Line, head: &str) -> (r: String)
    ensures
        r@ == under_spec(pairs_view(line.cells@), head@),
{
    let mut out = line.look("unit");
    push_char(&mut out, '\u{1}');
    push_str(&mut out, line.look("bond").as_str());
    push_char(&mut out, '\u{1}');
    push_str(&mut out, line.look(head).as_str());
    assert(out@ =~= under_spec(pairs_view(line.cells@), head@));
    out
}

fn owner(line: &Line) -> (r: String)
    ensures
        r@ == owner_spec(pairs_view(line.cells@)),
{
    let mut out = line.look("unit");
    push_char(&mut out, '\u{1}');
    push_char(&mut out, '\u{1}');
    push_str(&mut out, line.look("bond").as_str());
    assert(out@ =~= owner_spec(pairs_view(line.cells@)));
    out
}

/// The keys rows were stored under, by place key.
pub struct Seen {
    units: Vec<(String, i64)>,
    bonds: Vec<(String, i64)>,
    fields: Vec<(String, i64)>,
}

/// The content of the keys seen so far.
pub struct SeenV {
    pub units: Map<Seq<char>, i64>,
    pub bonds: Map<Seq<char>, i64>,
    pub fields: Map<Seq<char>, i64>,
}

/// The content of a list of keyed names.
pub open spec fn keys_view(s: Seq<(String, i64)>) -> Seq<(Seq<char>, i64)> {
    s.map_values(|e: (String, i64)| (e.0@, e.1))
}

impl View for Seen {
    type V = SeenV;

    closed spec fn view(&self) -> SeenV {
        SeenV {
            units: book(keys_view(self.units@)),
            bonds: book(keys_view(self.bonds@)),
            fields: book(keys_view(self.fields@)),
        }
    }
}

/// What keeping the key a line's row was stored under records.
pub open spec fn keep_spec(s: SeenV, l: LineV, key: i64) -> SeenV {
    match l.unit {
        Sheet::Unit => SeenV { units: s.units.insert(look_spec(l.cells, "key"@), key), ..s },
        Sheet::Bond => SeenV { bonds: s.bonds.insert(under_spec(l.cells, "name"@), key), ..s },
        Sheet::Field => SeenV { fields: s.fields.insert(under_spec(l.cells, "name"@), key), ..s },
        _ => s,
    }
}

/// The content of a line.
pub open spec fn line_view(l: Line) -> LineV {
    LineV { unit: l.unit, cells: pairs_view(l.cells@) }
}

/// Where the last entry for `k` stands, if there is one.
fn last_named(s: &Vec<(String, i64)>, k: &str) -> (r: Option<usize>)
    ensures
        match r {
            Some(i) => i < s@.len() && s@[i as int].0@ == k@ && forall|j: int|
                i < j < s@.len() ==> #[trigger] s@[j].0@ != k@,
            None => forall|j: int| 0 <= j < s@.len() ==> #[trigger] s@[j].0@ != k@,
        },
{
    let mut i: usize = s.len();
    while i > 0
        invariant
            i <= s@.len(),
            forall|j: int| i <= j < s@.len() ==> #[trigger] s@[j].0@ != k@,
        decreases i,
    {
        if same(s[i - 1].0.as_str(), k) {
            return Some(i - 1);
        }
        i = i - 1;
    }
    None
}

impl Seen {
    /// Nothing seen yet.
    pub fn new() -> (r: Seen)
        ensures
            r@.units == Map::<Seq<char>, i64>::empty(),
            r@.bonds == Map::<Seq<char>, i64>::empty(),
            r@.fields == Map::<Seq<char>, i64>::empty(),
    {
        let r = Seen { units: Vec::new(), bonds: Vec::new(), fields: Vec::new() };
        assert(keys_view(r.units@) =~= Seq::<(Seq<char>, i64)>::empty());
        assert(keys_view(r.bonds@) =~= Seq::<(Seq<char>, i64)>::empty());
        assert(keys_view(r.fields@) =~= Seq::<(Seq<char>, i64)>::empty());
        r
    }

    /// Records the key the row of `line` was stored under.
    pub fn keep(&mut self, line: &Line, key: i64)
        ensures
            final(self)@ == keep_spec(old(self)@, line_view(*line), key),
    {
        match line.unit {
            Sheet::Unit => {
                let ghost v = keys_view(self.units@);
                self.units.push((line.look("key"), key));
                assert(keys_view(self.units@).drop_last() =~= v);
            },
            Sheet::Bond => {
                let ghost v = keys_view(self.bonds@);
                self.bonds.push((under(line, "name"), key));
                assert(keys_view(self.bonds@).drop_last() =~= v);
            },
            Sheet::Field => {
                let ghost v = keys_view(self.fields@);
                self.fields.push((under(line, "name"), key));
                assert(keys_view(self.fields@).drop_last() =~= v);
            },
            _ => {},
        }
    }
}

/// The key a place key stands for, as text; refused when it is not known.
fn find(hold: &Vec<(String, i64)>, at: &str) -> (r: Result<String, Error>)
    ensures
        if book(keys_view(hold@)).dom().contains(at@) {
            r matches Ok(t) && t@ == decimal(book(keys_view(hold@))[at@] as int)
        } else {
            r matches Err(e) && refused(e, "schema row "@ + at@)
        },
{
    let ghost kv = keys_view(hold@);
    match last_named(hold, at) {
        Some(i) => {
            proof {
                assert(kv[i as int].0 == at@);
                assert forall|j: int| i < j < kv.len() implies kv[j].0 != kv[i as int].0 by {
                    assert(kv[j].0 == hold@[j].0@);
                }
                lemma_book_at(kv, i as int);
            }
            Ok(show_int(hold[i].1))
        },
        None => {
            proof {
                assert forall|j: int| 0 <= j < kv.len() implies kv[j].0 != at@ by {
                    assert(kv[j].0 == hold@[j].0@);
                }
                lemma_book_absent(kv, at@);
            }
            Err(adapt2("schema row ", at))
        },
    }
}

/// The cells without those named in `drop`.
pub open spec fn scrubbed(cells: Seq<(Seq<char>, Seq<char>)>, drop: Seq<Seq<char>>) -> Seq<
    (Seq<char>, Seq<char>),
> {
    cells.filter(|p: (Seq<char>, Seq<char>)| !drop.contains(p.0))
}

/// Whether `list` holds `head`.
fn listed(list: &[&str], head: &str) -> (r: bool)
    ensures
        r == list@.map_values(|h: &str| h@).contains(head@),
{
    let ghost lv = list@.map_values(|h: &str| h@);
    let mut i: usize = 0;
    while i < list.len()
        invariant
            0 <= i <= list@.len(),
            lv == list@.map_values(|h: &str| h@),
            forall|j: int| 0 <= j < i ==> #[trigger] lv[j] != head@,
        decreases list@.len() - i,
    {
        if same(list[i], head) {
            assert(lv[i as int] == head@);
            return true;
        }
        i = i + 1;
    }
    false
}

/// The cells of `line` without those named in `drop`.
fn scrub(line: &Line, drop: &[&str]) -> (r: Vec<(String, String)>)
    ensures
        pairs_view(r@) == scrubbed(pairs_view(line.cells@), drop@.map_values(|h: &str| h@)),
{
    let ghost dv = drop@.map_values(|h: &str| h@);
    let ghost keep = |p: (Seq<char>, Seq<char>)| !dv.contains(p.0);
    let ghost cv = pairs_view(line.cells@);
    let mut out: Vec<(String, String)> = Vec::new();
    let mut i: usize = 0;
    while i < line.cells.len()
        invariant
            0 <= i <= line.cells@.len(),
            cv == pairs_view(line.cells@),
            dv == drop@.map_values(|h: &str| h@),
            keep == (|p: (Seq<char>, Seq<char>)| !dv.contains(p.0)),
            pairs_view(out@) == cv.take(i as int).filter(keep),
        decreases line.cells@.len() - i,
    {
        let ghost t = cv.take(i + 1);
        assert(t.drop_last() =~= cv.take(i as int));
        assert(t.last() == cv[i as int]);
        assert(t.len() == i + 1);
        proof {
            reveal(Seq::filter);
        }
        let ghost was = pairs_view(out@);
        let (head, text) = (&line.cells[i].0, &line.cells[i].1);
        if !listed(drop, head.as_str()) {
            out.push((head.clone(), text.clone()));
            assert(pairs_view(out@) =~= was.push(cv[i as int]));
        }
        i = i + 1;
    }
    assert(cv.take(line.cells@.len() as int) =~= cv);
    out
}

/// The cells a line is stored with, its owners named by key; or the place
/// key that nothing was stored under yet.
pub open spec fn tag_spec(l: LineV, s: SeenV) -> Result<Seq<(Seq<char>, Seq<char>)>, Seq<char>> {
    if l.unit == Sheet::Unit {
        Ok(l.cells)
    } else if l.unit == Sheet::Scope || l.unit == Sheet::Value {
        let k = under_spec(l.cells, "name"@);
        if s.fields.dom().contains(k) {
            Ok(
                scrubbed(l.cells, seq!["unit"@, "bond"@, "name"@]).push(
                    ("field"@, decimal(s.fields[k] as int)),
                ),
            )
        } else {
            Err("schema row "@ + k)
        }
    } else {
        let uk = look_spec(l.cells, "unit"@);
        let base = scrubbed(l.cells, seq!["unit"@, "bond"@]);
        if !s.units.dom().contains(uk) {
            Err("schema row "@ + uk)
        } else if look_spec(l.cells, "bond"@).len() == 0 {
            Ok(base.push(("unit"@, decimal(s.units[uk] as int))))
        } else {
            let ok = owner_spec(l.cells);
            if !s.bonds.dom().contains(ok) {
                Err("schema row "@ + ok)
            } else {
                Ok(
                    base.push(("unit"@, decimal(s.units[uk] as int))).push(
                        ("bond"@, decimal(s.bonds[ok] as int)),
                    ),
                )
            }
        }
    }
}

/// The cells `line` is stored with: a unit line as it stands; a scope or
/// value line with its field named by key; a bond or field line with its
/// unit, and bond where it has one, named by key.
pub fn tag(line: &Line, seen: &Seen) -> (r: Result<Vec<(String, String)>, Error>)
    ensures
        match tag_spec(line_view(*line), seen@) {
            Ok(cs) => r matches Ok(v) && pairs_view(v@) == cs,
            Err(n) => r matches Err(e) && refused(e, n),
        },
{
    match line.unit {
        Sheet::Unit => {
            let mut out: Vec<(String, String)> = Vec::new();
            let mut i: usize = 0;
            while i < line.cells.len()
                invariant
                    0 <= i <= line.cells@.len(),
                    pairs_view(out@) == pairs_view(line.cells@).take(i as int),
                decreases line.cells@.len() - i,
            {
                let ghost was = pairs_view(out@);
                let a = line.cells[i].0.clone();
                let b = line.cells[i].1.clone();
                out.push((a, b));
                assert(pairs_view(out@) =~= was.push(pairs_view(line.cells@)[i as int]));
                assert(pairs_view(out@) =~= pairs_view(line.cells@).take(i + 1));
                i = i + 1;
            }
            assert(pairs_view(line.cells@).take(line.cells@.len() as int) =~= pairs_view(
                line.cells@,
            ));
            Ok(out)
        },
        Sheet::Scope | Sheet::Value => {
            let at = under(line, "name");
            let held = find(&seen.fields, at.as_str())?;
            let drop = ["unit", "bond", "name"];
            let mut cells = scrub(line, &drop);
            assert(drop@.map_values(|h: &str| h@) =~= seq!["unit"@, "bond"@, "name"@]);
            let ghost was = pairs_view(cells@);
            cells.push((own("field"), held));
            assert(pairs_view(cells@) =~= was.push(("field"@, pairs_view(cells@).last().1)));
            Ok(cells)
        },
        _ => {
            let unit = line.look("unit");
            let owns = find(&seen.units, unit.as_str())?;
            let bond = line.look("bond");
            let tied = if bond.as_str().is_empty() {
                None
            } else {
                let at = owner(line);
                Some(find(&seen.bonds, at.as_str())?)
            };
            let drop = ["unit", "bond"];
            let mut cells = scrub(line, &drop);
            assert(drop@.map_values(|h: &str| h@) =~= seq!["unit"@, "bond"@]);
            let ghost was = pairs_view(cells@);
            let ghost ov = owns@;
            cells.push((own("unit"), owns));
            assert(pairs_view(cells@) =~= was.push(("unit"@, ov)));
            match tied {
                Some(t) => {
                    let ghost w2 = pairs_view(cells@);
                    let ghost tv = t@;
                    cells.push((own("bond"), t));
                    assert(pairs_view(cells@) =~= w2.push(("bond"@, tv)));
                },
                None => {},
            }
            Ok(cells)
        },
    }
}

} // verus!
