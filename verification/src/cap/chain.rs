//! Anchors: the rows a request's row hangs from, and whether a grant's
//! predicate holds of the row or of one of them.
use vstd::prelude::*;
use vstd::utf8::encode_utf8;
use crate::cap::Mark;
use crate::cap::grant::scope_query;
use crate::error::{Error, Why, told};
use crate::face::Who;
use crate::life::{Cell, CellV, Row, cells_view, distinct, lookup, get_cell};
use crate::plan::{Plan, UnitV, edge_where, rooted, unit_of};

use crate::query::parse::{parse, parsed};
use crate::query::sift::{cover, hits_at};
use crate::text::{chars_of, contains, decimal, holds_text, own, push_char, push_str, same, show_int};

verus! {

/// The placeholder a grant predicate writes for the caller.
pub open spec fn me() -> Seq<char> {
    "\"@me\""@
}

/// `s` with every occurrence of `pat` replaced by `rep`, left to right
/// (`str::replace`).
pub open spec fn replaced(s: Seq<char>, pat: Seq<char>, rep: Seq<char>) -> Seq<char>
    decreases s.len(),
{
    if pat.len() == 0 || s.len() < pat.len() {
        s
    } else if s.take(pat.len() as int) == pat {
        rep + replaced(s.skip(pat.len() as int), pat, rep)
    } else {
        seq![s[0]] + replaced(s.skip(1), pat, rep)
    }
}

/// Replaces every occurrence of a non-empty `pat` in `s` by `rep`.
pub fn replace(s: &str, pat: &str, rep: &str) -> (r: String)
    requires
        pat@.len() > 0,
    ensures
        r@ == replaced(s@, pat@, rep@),
{
    let x = chars_of(s);
    let p = chars_of(pat);
    let n = x.len();
    let m = p.len();
    let mut out = String::new();
    let mut i: usize = 0;
    assert(x@.skip(0) =~= x@);
    while i < n
        invariant
            n == x@.len(),
            m == p@.len(),
            m > 0,
            x@ == s@,
            p@ == pat@,
            i <= n,
            replaced(s@, pat@, rep@) == out@ + replaced(x@.skip(i as int), pat@, rep@),
        decreases n - i,
    {
        let ghost rest = x@.skip(i as int);
        let mut hit = m <= n - i;
        let mut k: usize = 0;
        while hit && k < m
            invariant
                n == x@.len(),
                m == p@.len(),
                i <= n,
                k <= m,
                hit ==> i + m <= n,
                hit ==> forall|q: int| 0 <= q < k ==> x@[i + q] == p@[q],
                !hit ==> !(i + m <= n && x@.subrange(i as int, i + m) == p@),
            decreases m - k + (if hit { 1int } else { 0int }),
        {
            if x[i + k] != p[k] {
                hit = false;
                assert(x@.subrange(i as int, i + m)[k as int] != p@[k as int]);
            } else {
                k = k + 1;
            }
        }
        if hit {
            assert(x@.subrange(i as int, i + m) =~= p@);
            assert(rest.take(m as int) =~= p@);
            assert(rest.skip(m as int) =~= x@.skip(i + m));
            push_str(&mut out, rep);
            i = i + m;
        } else {
            proof {
                if rest.len() >= m {
                    assert(rest.take(m as int) =~= x@.subrange(i as int, i + m));
                }
            }
            assert(rest.skip(1) =~= x@.skip(i + 1));
            assert(rest[0] == x@[i as int]);
            push_char(&mut out, x[i]);
            i = i + 1;
        }
    }
    out
}

/// The predicate text a grant's `pred` holds for caller `who`: the
/// caller's id in place of the placeholder, or nothing when an anonymous
/// caller meets the placeholder.
pub open spec fn pred_for(pred: Seq<char>, who: Who) -> Option<Seq<char>> {
    match who {
        Who::Op(id) => Some(replaced(pred, me(), "\""@ + decimal(id as int) + "\""@)),
        _ => if holds_text(pred, me()) {
            None
        } else {
            Some(pred)
        },
    }
}

/// Whether a row with `key` and `cells` of `unit` meets grant predicate
/// `pred` for caller `who`.
pub open spec fn suits_spec(key: Option<i64>, cells: Seq<(Seq<char>, CellV)>, unit: Seq<char>, pred: Seq<char>, who: Who) -> bool {
    match pred_for(pred, who) {
        None => false,
        Some(text) => match parsed(encode_utf8(scope_query(unit, text))) {
            Err(_) => false,
            Ok(t) => forall|i: int| 0 <= i < t.preds.len() ==> hits_at(key, cells, #[trigger] t.preds[i]),
        },
    }
}

impl<'a> Mark<'a> {
    /// Whether the marked row, as a row of `unit`, meets grant predicate
    /// `pred` for caller `who`.
    pub fn suits(&self, unit: &str, pred: &str, who: Who) -> (r: bool)
        requires
            distinct(cells_view(self.cells@)),
        ensures
            r == suits_spec(self.key, cells_view(self.cells@), unit@, pred@, who),
    {
        let text = match who {
            Who::Op(id) => {
                let mut rep = own("\"");
                let n = show_int(id);
                push_str(&mut rep, n.as_str());
                push_str(&mut rep, "\"");
                proof {
                    reveal_strlit("\"@me\"");
                }
                replace(pred, "\"@me\"", rep.as_str())
            },
            _ => {
                let p = chars_of(pred);
                let m = chars_of("\"@me\"");
                if contains(p.as_slice(), m.as_slice()) {
                    return false;
                }
                own(pred)
            },
        };
        let mut q = own("from ");
        push_str(&mut q, unit);
        push_str(&mut q, " where ");
        push_str(&mut q, text.as_str());
        match parse(q.as_str()) {
            Ok(tree) => cover(self.key, self.cells, tree.preds()),
            Err(_) => false,
        }
    }
}

/// One row a request's row hangs from: its unit, key, and the row itself
/// when it was read.
#[derive(Debug)]
pub struct Hop {
    pub unit: String,
    pub key: i64,
    pub row: Option<Row>,
}

/// Hop `h` was read, is of `anchor`, and meets grant predicate `pred`
/// for `who`.
pub open spec fn hop_suits(h: Hop, anchor: Seq<char>, pred: Seq<char>, who: Who) -> bool {
    h.row matches Some(row) && h.unit@ == anchor && suits_spec(Some(h.key), row.cells_of(), anchor, pred, who)
}

/// Some read hop of `unit` meets grant predicate `pred` for `who`.
pub open spec fn descends(anchor: Seq<char>, pred: Seq<char>, who: Who, chain: Seq<Hop>) -> bool {
    exists|i: int| 0 <= i < chain.len() && hop_suits(#[trigger] chain[i], anchor, pred, who)
}

/// Whether some read hop of `anchor` meets grant predicate `pred` for `who`.
pub fn descend(anchor: &str, pred: &str, who: Who, chain: &[Hop]) -> (r: bool)
    requires
        forall|i: int| 0 <= i < chain@.len() ==> (#[trigger] chain@[i].row matches Some(row) ==> row.wf()),
    ensures
        r == descends(anchor@, pred@, who, chain@),
{
    let mut i: usize = 0;
    while i < chain.len()
        invariant
            i <= chain@.len(),
            forall|j: int| 0 <= j < chain@.len() ==> (#[trigger] chain@[j].row matches Some(row) ==> row.wf()),
            forall|j: int| 0 <= j < i ==> !hop_suits(#[trigger] chain@[j], anchor@, pred@, who),
        decreases chain@.len() - i,
    {
        let hop = &chain[i];
        match &hop.row {
            Some(row) => {
                if same(hop.unit.as_str(), anchor) {
                    let mark = Mark { key: Some(hop.key), cells: row.cells() };
                    if mark.suits(anchor, pred, who) {
                        return true;
                    }
                }
            },
            None => {},
        }
        i = i + 1;
    }
    false
}

/// The next anchor up from a row of unit `name` with `cells`: the target
/// unit's name and key through the unit's anchoring bond, when the unit is
/// known, has one, and the row holds an integer there.
pub open spec fn rise_spec(p: Seq<UnitV>, name: Seq<char>, cells: Seq<(Seq<char>, CellV)>) -> Result<Option<(Seq<char>, i64)>, Why> {
    match unit_of(p, name) {
        None => Ok(None),
        Some(u) => match edge_where(u, rooted()) {
            None => Ok(None),
            Some(e) => match lookup(cells, e.name) {
                Some(CellV::Int(up)) => match unit_of(p, e.target) {
                    None => Err(Why::Lacks(e.target)),
                    Some(t) => Ok(Some((t.name, up))),
                },
                _ => Ok(None),
            },
        },
    }
}

/// One step of the climb from a row to its anchors.
pub fn rise(plan: &Plan, name: &str, cells: &[(String, Cell)]) -> (r: Result<Option<(String, i64)>, Error>)
    requires
        distinct(cells_view(cells@)),
    ensures
        match rise_spec(plan@, name@, cells_view(cells@)) {
            Ok(None) => r matches Ok(None),
            Ok(Some((n, k))) => r matches Ok(Some((m, j))) && m@ == n && j == k,
            Err(w) => r matches Err(e) && told(e, w),
        },
{
    let node = match plan.find(name) {
        Ok(n) => n,
        Err(_) => return Ok(None),
    };
    let edge = match node.root() {
        Some(e) => e,
        None => return Ok(None),
    };
    let up = match get_cell(cells, edge.name()) {
        Some(Cell::Int(up)) => *up,
        _ => return Ok(None),
    };
    let mate = plan.find(edge.target())?;
    Ok(Some((mate.key(), up)))
}

} // verus!
