//! The field law, and whether a stored value survives a change of kind when
//! a schema generation evolves.
use vstd::prelude::*;
use crate::atom::Kind;
use crate::error::Error;
use crate::estate::{Change, Fault, StepV};
use crate::plan::{first_where, lemma_first_at, lemma_first_none};
use crate::text::{decimal, flag_text, int_in, int_of, own, same, show_int};
use crate::wire::{Val, ValV, val_text};

verus! {

/// The law of a scalar field: a default for an omitted required value, a
/// finite admitted set (empty: any), and inclusive integer bounds.
#[derive(Debug)]
pub struct Rule {
    pub default: Option<String>,
    pub values: Vec<String>,
    pub min: Option<i64>,
    pub max: Option<i64>,
}

/// The content of a field law.
pub struct RuleV {
    pub default: Option<Seq<char>>,
    pub values: Seq<Seq<char>>,
    pub min: Option<i64>,
    pub max: Option<i64>,
}

impl View for Rule {
    type V = RuleV;

    open spec fn view(&self) -> RuleV {
        RuleV {
            default: match self.default {
                Some(d) => Some(d@),
                None => None,
            },
            values: self.values@.map_values(|v: String| v@),
            min: self.min,
            max: self.max,
        }
    }
}

/// The law that binds nothing: no default, any value, no bounds.
pub open spec fn open_rule() -> RuleV {
    RuleV { default: None, values: Seq::empty(), min: None, max: None }
}

impl Rule {
    /// The law that binds nothing.
    pub fn open() -> (r: Rule)
        ensures
            r@ == open_rule(),
    {
        let r = Rule { default: None, values: Vec::new(), min: None, max: None };
        assert(r@.values =~= Seq::<Seq<char>>::empty());
        r
    }

    /// A copy of the law.
    pub fn dup(&self) -> (r: Rule)
        ensures
            r@ == self@,
    {
        let default = match &self.default {
            Some(d) => Some(d.clone()),
            None => None,
        };
        let mut values: Vec<String> = Vec::new();
        let mut i: usize = 0;
        while i < self.values.len()
            invariant
                0 <= i <= self.values@.len(),
                values@.map_values(|v: String| v@) == self.values@.take(i as int).map_values(
                    |v: String| v@,
                ),
            decreases self.values@.len() - i,
        {
            let ghost was = values@.map_values(|v: String| v@);
            let c = self.values[i].clone();
            assert(c@ == self.values@[i as int]@);
            values.push(c);
            assert(values@.map_values(|v: String| v@) =~= was.push(self.values@[i as int]@));
            assert(self.values@.take(i + 1) =~= self.values@.take(i as int).push(self.values@[i as int]));
            assert(values@.map_values(|v: String| v@) =~= self.values@.take(i + 1).map_values(
                |v: String| v@,
            ));
            i = i + 1;
        }
        assert(self.values@.take(self.values@.len() as int) =~= self.values@);
        let r = Rule { default, values, min: self.min, max: self.max };
        assert(r@.values =~= self@.values);
        r
    }
}

/// Whether the law admits the text `v` for a field of kind `kind`: `v` is in
/// the admitted set when there is one, and an integer field holds a decimal
/// `i64` within the bounds.
pub open spec fn admits(kind: Kind, rule: RuleV, v: Seq<char>) -> bool {
    &&& (rule.values.len() == 0 || rule.values.contains(v))
    &&& (kind == Kind::Int ==> match int_of(v) {
        Some(n) => (rule.min matches Some(lo) ==> lo <= n) && (rule.max matches Some(hi) ==> n
            <= hi),
        None => false,
    })
}

/// The integer a stored value reads as: itself, or zero.
pub open spec fn int_val(v: ValV) -> int {
    match v {
        ValV::Int(i) => i as int,
        _ => 0,
    }
}

/// The text a stored non-null value of kind `active` becomes under kind
/// `requested`, or `None` when it has no such form: text becomes an integer
/// only when it is one in canonical decimal, and a flag only when it reads
/// `true` or `false`; an integer becomes a flag only from 0 or 1.
pub open spec fn carried(value: ValV, active: Kind, requested: Kind) -> Option<Seq<char>> {
    let t = val_text(value);
    let n = int_val(value);
    match (active, requested) {
        (Kind::Text, Kind::Int) => match int_of(t) {
            Some(m) => if decimal(m) == t { Some(t) } else { None },
            None => None,
        },
        (Kind::Text, Kind::Bool) => if t == flag_text(true) || t == flag_text(false) {
            Some(t)
        } else {
            None
        },
        (Kind::Int, Kind::Bool) => if n == 0 {
            Some(flag_text(false))
        } else if n == 1 {
            Some(flag_text(true))
        } else {
            None
        },
        (Kind::Bool, Kind::Bool) | (Kind::Bool, Kind::Text) => Some(flag_text(n != 0)),
        (Kind::Bool, Kind::Int) | (Kind::Int, Kind::Text) => Some(decimal(n)),
        _ => Some(t),
    }
}

/// Whether a stored value may stay when its field moves from kind `active`
/// to kind `requested` under `rule`: null always stays; any other value must
/// have a form under the new kind, and the law must admit that form.
pub open spec fn survives(value: ValV, active: Kind, requested: Kind, rule: RuleV) -> bool {
    value is Null || match carried(value, active, requested) {
        Some(t) => admits(requested, rule, t),
        None => false,
    }
}

/// Whether the law admits `value` for a field of kind `kind`.
pub fn accepts(kind: Kind, rule: &Rule, value: &str) -> (r: bool)
    ensures
        r == admits(kind, rule@, value@),
{
    let ghost vals = rule@.values;
    if rule.values.len() > 0 {
        let mut found = false;
        let mut i: usize = 0;
        while i < rule.values.len()
            invariant
                0 <= i <= rule.values@.len(),
                vals == rule.values@.map_values(|v: String| v@),
                found == (exists|j: int| 0 <= j < i && vals[j] == value@),
            decreases rule.values@.len() - i,
        {
            assert(vals[i as int] == rule.values@[i as int]@);
            if same(rule.values[i].as_str(), value) {
                found = true;
            }
            i = i + 1;
        }
        if !found {
            assert forall|j: int| 0 <= j < vals.len() implies vals[j] != value@ by {}
            return false;
        }
        assert(vals.contains(value@));
    }
    if let Kind::Int = kind {
        match int_in(value) {
            Some(n) => {
                if let Some(lo) = rule.min {
                    if n < lo {
                        return false;
                    }
                }
                if let Some(hi) = rule.max {
                    if n > hi {
                        return false;
                    }
                }
            },
            None => {
                return false;
            },
        }
    }
    true
}

/// Whether `value`, stored under kind `active`, may stay when the field moves
/// to kind `requested` under `rule`.
pub fn valid(value: &Val, active: Kind, requested: Kind, rule: &Rule) -> (r: bool)
    ensures
        r == survives(value@, active, requested, rule@),
{
    if let Val::Null = value {
        return true;
    }
    proof {
        reveal_strlit("true");
        reveal_strlit("false");
        assert(flag_text(true) =~= "true"@);
        assert(flag_text(false) =~= "false"@);
    }
    let form: String = match (active, requested) {
        (Kind::Text, Kind::Int) => {
            let text = value.text();
            match int_in(text.as_str()) {
                Some(number) => {
                    let back = show_int(number);
                    if !same(back.as_str(), text.as_str()) {
                        return false;
                    }
                    back
                },
                None => {
                    return false;
                },
            }
        },
        (Kind::Text, Kind::Bool) => {
            let text = value.text();
            if same(text.as_str(), "true") || same(text.as_str(), "false") {
                text
            } else {
                return false;
            }
        },
        (Kind::Int, Kind::Bool) => {
            let n = value.integer();
            if n == 0 {
                flag(false)
            } else if n == 1 {
                flag(true)
            } else {
                return false;
            }
        },
        (Kind::Bool, Kind::Bool) | (Kind::Bool, Kind::Text) => flag(value.integer() != 0),
        (Kind::Bool, Kind::Int) | (Kind::Int, Kind::Text) => show_int(value.integer()),
        _ => value.text(),
    };
    accepts(requested, rule, form.as_str())
}

/// Whether every stored value of a field, each the first cell of a row of
/// `rows`, may stay when the field moves from kind `active` to kind
/// `requested` under `rule`.
pub fn values(rows: &[Vec<Val>], active: Kind, requested: Kind, rule: &Rule) -> (r: bool)
    requires
        forall|i: int| 0 <= i < rows@.len() ==> #[trigger] rows@[i]@.len() > 0,
    ensures
        r == (forall|i: int|
            0 <= i < rows@.len() ==> survives(#[trigger] rows@[i]@[0]@, active, requested, rule@)),
{
    let mut i: usize = 0;
    while i < rows.len()
        invariant
            0 <= i <= rows@.len(),
            forall|j: int| 0 <= j < rows@.len() ==> #[trigger] rows@[j]@.len() > 0,
            forall|j: int|
                0 <= j < i ==> survives(#[trigger] rows@[j]@[0]@, active, requested, rule@),
        decreases rows@.len() - i,
    {
        assert(rows@[i as int]@.len() > 0);
        if !valid(&rows[i][0], active, requested, rule) {
            return false;
        }
        i = i + 1;
    }
    true
}

/// The step is blocked: it has a check, and the check failed.
pub open spec fn blocks(p: (StepV, bool)) -> bool {
    p.0.check is Some && !p.1
}

/// The first step of a move whose check failed, given whether each step's
/// check held.
pub open spec fn first_blocked(steps: Seq<StepV>, held: Seq<bool>) -> Option<int> {
    first_where(Seq::new(steps.len(), |i: int| (steps[i], held[i])), |p: (StepV, bool)| blocks(p))
}

/// Settles a move's checks: `held[i]` tells whether the check of step `i`
/// held on the stored data (steps without a check pass). The first step
/// whose check failed blocks the move.
pub fn settle(change: &Change, held: &[bool]) -> (r: Result<(), Error>)
    requires
        held@.len() == change@.len(),
    ensures
        match first_blocked(change@, held@) {
            Some(i) => r matches Err(Error::Estate(Fault::Blocked { path, check })) && path@
                == change@[i].path && change@[i].check == Some(check),
            None => r is Ok,
        },
{
    let steps = change.steps();
    let ghost z = Seq::new(change@.len(), |i: int| (change@[i], held@[i]));
    let ghost p = |q: (StepV, bool)| blocks(q);
    let mut i: usize = 0;
    while i < steps.len()
        invariant
            0 <= i <= steps@.len(),
            crate::estate::steps_view(steps@) == change@,
            held@.len() == change@.len(),
            z == Seq::new(change@.len(), |i: int| (change@[i], held@[i])),
            p == (|q: (StepV, bool)| blocks(q)),
            forall|j: int| 0 <= j < i ==> !p(#[trigger] z[j]),
        decreases steps@.len() - i,
    {
        assert(change@[i as int] == steps@[i as int]@);
        match steps[i].check() {
            Some(check) => {
                if !held[i] {
                    proof {
                        assert(p(z[i as int]));
                        lemma_first_at(z, p, i as int);
                    }
                    return Err(Error::Estate(Fault::Blocked { path: own(steps[i].path()), check }));
                }
            },
            None => {},
        }
        assert(!p(z[i as int]));
        i = i + 1;
    }
    proof {
        lemma_first_none(z, p);
    }
    Ok(())
}

/// The text of a flag.
fn flag(b: bool) -> (out: String)
    ensures
        out@ == flag_text(b),
{
    crate::text::show_flag(b)
}

} // verus!
