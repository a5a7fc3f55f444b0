//! Vetting a grant before it is stored: its verb, who it is for, its unit
//! and its scope.
use vstd::prelude::*;
use vstd::utf8::encode_utf8;
use crate::cap::shape::{get, got, pairs_view};
use crate::cap::verbs;
use crate::error::{Error, Why, adapt, adapt2, told};
use crate::plan::{Plan, UnitV, crewed, edge_where, unit_of};
use crate::query::{Op, PredV, preds_view};
use crate::query::check::resolve;
use crate::query::parse::{parse, parsed};
use crate::text::{chars_of, int_from, int_in, int_of, own, push_str, same, split_at_first, split_once, strip, strip_lead, string_of};

verus! {

/// Whether `who` names a grantee: `anon`, `all`, an operator id, or a
/// unit that names members followed by a row id (`team 7`).
pub open spec fn whole_spec(p: Seq<UnitV>, who: Seq<char>) -> bool {
    ||| who == "anon"@
    ||| who == "all"@
    ||| int_of(who) is Some
    ||| match split_at_first(who, ' ') {
        Some((place, id)) => int_of(id) is Some && match unit_of(p, place) {
            Some(u) => edge_where(u, crewed()) is Some,
            None => false,
        },
        None => false,
    }
}

/// Whether `who` names a grantee.
pub fn whole(plan: &Plan, who: &str) -> (r: bool)
    ensures
        r == whole_spec(plan@, who@),
{
    if same(who, "anon") || same(who, "all") || int_in(who).is_some() {
        return true;
    }
    let cs = chars_of(who);
    let (place, id) = match split_once(cs.as_slice(), ' ') {
        Some(parts) => parts,
        None => return false,
    };
    if int_from(id.as_slice()).is_none() {
        return false;
    }
    let name = string_of(place.as_slice());
    match plan.find(name.as_str()) {
        Ok(node) => node.crew().is_some(),
        Err(_) => false,
    }
}

/// The predicates hold only of cells: none crosses a bond.
pub open spec fn cells_only(ps: Seq<PredV>) -> bool {
    forall|i: int| 0 <= i < ps.len() ==> #[trigger] ps[i].op != Op::Has && ps[i].op != Op::Exists
}

/// The query text a `pred` scope on `unit` stands for.
pub open spec fn scope_query(unit: Seq<char>, pred: Seq<char>) -> Seq<char> {
    "from "@ + unit + " where "@ + pred
}

/// What is wrong with a grant's scope `value` on `unit` (`None` for any
/// unit), if anything: `all`, `row <id>` on a unit, or `pred <where>` on a
/// unit with cell predicates only.
pub open spec fn scope_fault(unit: Option<Seq<char>>, value: Seq<char>) -> Option<Why> {
    if value == "all"@ {
        None
    } else {
        match strip(value, "row "@) {
            Some(id) => if unit is None {
                Some(Why::Refused("row scope needs a unit"@))
            } else if int_of(id) is None {
                Some(Why::Refused("row scope needs id"@))
            } else {
                None
            },
            None => match strip(value, "pred "@) {
                Some(pred) => match unit {
                    None => Some(Why::Refused("pred scope needs a unit"@)),
                    Some(u) => match parsed(encode_utf8(scope_query(u, pred))) {
                        Err(m) => Some(Why::Refused(m)),
                        Ok(t) => if cells_only(t.preds) {
                            None
                        } else {
                            Some(Why::Refused("scope pred is cells only"@))
                        },
                    },
                },
                None => Some(Why::Refused("scope is all | row <id> | pred <where>"@)),
            },
        }
    }
}

/// Whether no predicate crosses a bond.
fn plain(preds: &[crate::query::Pred]) -> (r: bool)
    ensures
        r == cells_only(preds_view(preds@)),
{
    let ghost pv = preds_view(preds@);
    let mut i: usize = 0;
    while i < preds.len()
        invariant
            i <= preds@.len(),
            pv == preds_view(preds@),
            forall|j: int| 0 <= j < i ==> #[trigger] pv[j].op != Op::Has && pv[j].op != Op::Exists,
        decreases preds@.len() - i,
    {
        assert(pv[i as int] == preds@[i as int]@);
        if preds[i].op() == Op::Has || preds[i].op() == Op::Exists {
            return false;
        }
        i = i + 1;
    }
    true
}

/// Checks a grant's scope.
pub fn scope(unit: Option<&str>, value: &str) -> (r: Result<(), Error>)
    ensures
        match scope_fault(
            match unit {
                Some(u) => Some(u@),
                None => None,
            },
            value@,
        ) {
            None => r is Ok,
            Some(w) => r matches Err(e) && told(e, w),
        },
{
    if same(value, "all") {
        return Ok(());
    }
    match strip_lead(value, "row ") {
        Some(id) => {
            if unit.is_none() {
                return Err(adapt("row scope needs a unit"));
            }
            if int_in(id.as_str()).is_none() {
                return Err(adapt("row scope needs id"));
            }
            return Ok(());
        },
        None => {},
    }
    match strip_lead(value, "pred ") {
        Some(pred) => {
            let u = match unit {
                Some(u) => u,
                None => return Err(adapt("pred scope needs a unit")),
            };
            let mut text = own("from ");
            push_str(&mut text, u);
            push_str(&mut text, " where ");
            push_str(&mut text, pred.as_str());
            let tree = parse(text.as_str())?;
            if plain(tree.preds()) {
                Ok(())
            } else {
                Err(adapt("scope pred is cells only"))
            }
        },
        None => Err(adapt("scope is all | row <id> | pred <where>")),
    }
}

/// What is wrong with a grant given as raw pairs, if anything: its verb,
/// then who it is for, then its unit, then its scope.
pub open spec fn vet_fault(p: Seq<UnitV>, f: Seq<(Seq<char>, Seq<char>)>) -> Option<Why> {
    let verb = got(f, "verb"@);
    let who = got(f, "who"@);
    let unit = got(f, "unit"@);
    if verb != "*"@ && !verbs().contains(verb) {
        Some(Why::Refused("unknown verb "@ + verb))
    } else if !whole_spec(p, who) {
        Some(Why::Refused("who is an id, group, anon, or all"@))
    } else if unit == "*"@ {
        scope_fault(None, got(f, "scope"@))
    } else {
        match unit_of(p, unit) {
            None => Some(Why::Lacks(unit)),
            Some(u) => scope_fault(Some(u.name), got(f, "scope"@)),
        }
    }
}

/// Whether `verb` is one of the grant verbs.
fn is_verb(verb: &str) -> (r: bool)
    ensures
        r == verbs().contains(verb@),
{
    let list = crate::cap::verb_list();
    let mut i: usize = 0;
    while i < list.len()
        invariant
            i <= list@.len(),
            list@.map_values(|v: &str| v@) == verbs(),
            forall|j: int| 0 <= j < i ==> verbs()[j] != verb@,
        decreases list@.len() - i,
    {
        assert(verbs()[i as int] == list@[i as int]@);
        if same(list[i], verb) {
            assert(verbs()[i as int] == verb@);
            return true;
        }
        i = i + 1;
    }
    assert(!verbs().contains(verb@)) by {
        if verbs().contains(verb@) {
            let j = choose|j: int| 0 <= j < verbs().len() && verbs()[j] == verb@;
            assert(verbs()[j] != verb@);
        }
    }
    false
}

/// Checks a grant given as raw pairs.
pub fn vet(plan: &Plan, fields: &[(&str, &str)]) -> (r: Result<(), Error>)
    ensures
        match vet_fault(plan@, pairs_view(fields@)) {
            None => r is Ok,
            Some(w) => r matches Err(e) && told(e, w),
        },
{
    let verb = get(fields, "verb");
    if !same(verb, "*") && !is_verb(verb) {
        return Err(adapt2("unknown verb ", verb));
    }
    let who = get(fields, "who");
    if !whole(plan, who) {
        return Err(adapt("who is an id, group, anon, or all"));
    }
    let unit = get(fields, "unit");
    if same(unit, "*") {
        return scope(None, get(fields, "scope"));
    }
    let place = resolve(plan, unit)?;
    scope(Some(place.as_str()), get(fields, "scope"))
}

} // verus!
