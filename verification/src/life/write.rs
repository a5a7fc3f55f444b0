//! The decisions of the write path: binding raw text to a field under its
//! law, the values a new row is inserted with, what a partial update sets,
//! the checks a new tie must clear, and what a tie's retune sets.
use vstd::prelude::*;
use crate::atom::{Kind, fits_kind};
use crate::cap::shape::pairs_view;
use crate::cap::{GRANT, PULSE};
use crate::error::{Error, adapt, adapt2, refused};
use crate::estate::guard::{accepts, admits};
use crate::life::Ends;
use crate::life::util::{seek, sought};
use crate::plan::{
    Edge, EdgeV, Slot, SlotV, Unit, UnitV, edge_refs_view, first_where, lemma_first_at,
    lemma_first_none, refs_of, slot_in, slot_named, slots_view,
};
use crate::estate::clock::serial_clock;
use crate::text::{decimal, int_in, int_of, own, push_str, same, show_int};
use crate::spec::{Only, OnlyV};
use crate::wire::{Val, ValV};

verus! {

/// What refusing a value that does not fit kind `k` says.
pub open spec fn misfit_note(k: Kind, v: Seq<char>) -> Seq<char> {
    match k {
        Kind::Int => "not an int: "@ + v,
        _ => "not a bool: "@ + v,
    }
}

/// The stored value raw text `raw` binds to for field `s`: it must be a
/// value of the field's kind and one the field's law admits; an integer is
/// stored as itself, a flag as 1 or 0, text as text (empty text included).
pub open spec fn bound(s: SlotV, raw: Seq<char>) -> Result<ValV, Seq<char>> {
    if !fits_kind(s.kind, raw) {
        Err(misfit_note(s.kind, raw))
    } else if !admits(s.kind, s.rule, raw) {
        Err("field "@ + s.name + " refuses "@ + raw)
    } else {
        Ok(
            match s.kind {
                Kind::Int => ValV::Int(int_of(raw)->0 as i64),
                Kind::Bool => ValV::Int(if raw == "true"@ { 1 } else { 0 }),
                _ => ValV::Text(raw),
            },
        )
    }
}

/// A refusal saying `a`, `b`, `c` and `d` in a row.
fn adapt4(a: &str, b: &str, c: &str, d: &str) -> (e: Error)
    ensures
        refused(e, a@ + b@ + c@ + d@),
{
    let mut s = own(a);
    push_str(&mut s, b);
    push_str(&mut s, c);
    push_str(&mut s, d);
    Error::Adapt(s)
}

/// A refusal saying `a`, `b` and `c` in a row.
pub(crate) fn adapt3(a: &str, b: &str, c: &str) -> (e: Error)
    ensures
        refused(e, a@ + b@ + c@),
{
    let mut s = own(a);
    push_str(&mut s, b);
    push_str(&mut s, c);
    Error::Adapt(s)
}

/// Binds raw text to field `slot` under its law.
pub fn bind(slot: &Slot, raw: &str) -> (r: Result<Val, Error>)
    ensures
        match bound(slot@, raw@) {
            Ok(v) => r matches Ok(x) && x@ == v,
            Err(n) => r matches Err(e) && refused(e, n),
        },
{
    let kind = slot.kind();
    match kind.fit(raw) {
        Ok(()) => {},
        Err(e) => {
            return Err(e);
        },
    }
    if !accepts(kind, slot.rule(), raw) {
        return Err(adapt4("field ", slot.name(), " refuses ", raw));
    }
    proof {
        reveal_strlit("true");
    }
    match kind {
        Kind::Int => match int_in(raw) {
            Some(n) => Ok(Val::Int(n)),
            None => {
                assert(false);
                Err(adapt("not an int"))
            },
        },
        Kind::Bool => {
            if same(raw, "true") {
                Ok(Val::Int(1))
            } else {
                Ok(Val::Int(0))
            }
        },
        _ => Ok(Val::Text(own(raw))),
    }
}

/// The value a new row takes for field `s` from raw pairs `f`: the text
/// given, bound under the law; when none is given, null for a field that
/// is not needed, else the law's default, bound; else the field is missing.
pub open spec fn slot_value(s: SlotV, f: Seq<(Seq<char>, Seq<char>)>) -> Result<ValV, Seq<char>> {
    match sought(f, s.name) {
        Some(raw) => bound(s, raw),
        None => if !s.need {
            Ok(ValV::Null)
        } else {
            match s.rule.default {
                Some(d) => bound(s, d),
                None => Err("missing field "@ + s.name),
            }
        },
    }
}

/// The number of serial fields among `slots`.
pub open spec fn serial_count(slots: Seq<SlotV>) -> nat
    decreases slots.len(),
{
    if slots.len() == 0 {
        0
    } else {
        serial_count(slots.drop_last()) + if slots.last().serial is Some {
            1nat
        } else {
            0nat
        }
    }
}

/// The values of the fields `slots`, in order, where the serial fields
/// take the numbers `drawn` in turn; the first other field that fails
/// fails them all.
pub open spec fn values_of(slots: Seq<SlotV>, f: Seq<(Seq<char>, Seq<char>)>, drawn: Seq<i64>) -> Result<
    Seq<ValV>,
    Seq<char>,
>
    decreases slots.len(),
{
    if slots.len() == 0 {
        Ok(Seq::empty())
    } else {
        match values_of(slots.drop_last(), f, drawn) {
            Err(e) => Err(e),
            Ok(vs) => if slots.last().serial is Some {
                Ok(vs.push(ValV::Int(drawn[serial_count(slots.drop_last()) as int])))
            } else {
                match slot_value(slots.last(), f) {
                    Err(e) => Err(e),
                    Ok(v) => Ok(vs.push(v)),
                }
            },
        }
    }
}

/// The field values a new row of unit `u` is inserted with, its serial
/// fields numbered `drawn` in field order.
pub open spec fn craft_spec(u: UnitV, f: Seq<(Seq<char>, Seq<char>)>, drawn: Seq<i64>) -> Result<
    Seq<ValV>,
    Seq<char>,
> {
    values_of(u.fields, f, drawn)
}

/// The cell named `name` among the stored cells `h` of a row, if any.
pub open spec fn held_at(h: Seq<(Seq<char>, ValV)>, name: Seq<char>) -> Option<ValV> {
    match first_where(h, |p: (Seq<char>, ValV)| p.0 == name) {
        Some(i) => Some(h[i].1),
        None => None,
    }
}

/// The value named `name` that scopes a row's serial numbering or its
/// uniqueness, given raw pairs `f` and the stored cells `h` of the row
/// (none for a new row): for a field, the text given, bound; else the
/// stored cell; else its default, bound; else null. For a bond, the text
/// given must read as a key (empty text is null); else the stored cell;
/// else null.
pub open spec fn anchor_spec(
    u: UnitV,
    f: Seq<(Seq<char>, Seq<char>)>,
    h: Seq<(Seq<char>, ValV)>,
    name: Seq<char>,
) -> Result<ValV, Seq<char>> {
    match first_where(u.fields, slot_named(name)) {
        Some(i) => match sought(f, name) {
            Some(raw) => bound(u.fields[i], raw),
            None => match held_at(h, name) {
                Some(v) => Ok(v),
                None => match u.fields[i].rule.default {
                    Some(d) => bound(u.fields[i], d),
                    None => Ok(ValV::Null),
                },
            },
        },
        None => match sought(f, name) {
            Some(raw) => if raw.len() == 0 {
                Ok(ValV::Null)
            } else {
                match int_of(raw) {
                    Some(k) => Ok(ValV::Int(k as i64)),
                    None => Err("ref "@ + name + " needs id"@),
                }
            },
            None => match held_at(h, name) {
                Some(v) => Ok(v),
                None => Ok(ValV::Null),
            },
        },
    }
}

/// For field `s` of a new row of `u`: the counter a serial field draws
/// from, nothing for another field that binds, or why it refuses.
pub open spec fn clock_for(u: UnitV, f: Seq<(Seq<char>, Seq<char>)>, s: SlotV) -> Result<
    Option<Seq<char>>,
    Seq<char>,
> {
    match s.serial {
        Some(scope) => match anchor_spec(u, f, Seq::empty(), scope) {
            Ok(v) => Ok(Some(serial_clock(u.name, s.name, v))),
            Err(e) => Err(e),
        },
        None => match slot_value(s, f) {
            Ok(_) => Ok(None),
            Err(e) => Err(e),
        },
    }
}

/// The counters a new row of `u` draws its serial numbers from, one per
/// serial field among `slots` in order; the first field that refuses,
/// serial or not, fails them all.
pub open spec fn clocks_of(u: UnitV, slots: Seq<SlotV>, f: Seq<(Seq<char>, Seq<char>)>) -> Result<
    Seq<Seq<char>>,
    Seq<char>,
>
    decreases slots.len(),
{
    if slots.len() == 0 {
        Ok(Seq::empty())
    } else {
        match clocks_of(u, slots.drop_last(), f) {
            Err(e) => Err(e),
            Ok(cs) => match clock_for(u, f, slots.last()) {
                Err(e) => Err(e),
                Ok(None) => Ok(cs),
                Ok(Some(c)) => Ok(cs.push(c)),
            },
        }
    }
}

proof fn lemma_clocks_fail(u: UnitV, slots: Seq<SlotV>, f: Seq<(Seq<char>, Seq<char>)>, n: int)
    requires
        0 <= n <= slots.len(),
        clocks_of(u, slots.take(n), f) is Err,
    ensures
        clocks_of(u, slots, f) == clocks_of(u, slots.take(n), f),
    decreases slots.len() - n,
{
    if n < slots.len() {
        assert(slots.take(n + 1).drop_last() =~= slots.take(n));
        lemma_clocks_fail(u, slots, f, n + 1);
    } else {
        assert(slots.take(n) =~= slots);
    }
}

proof fn lemma_clocks_count(u: UnitV, slots: Seq<SlotV>, f: Seq<(Seq<char>, Seq<char>)>)
    ensures
        clocks_of(u, slots, f) matches Ok(cs) ==> cs.len() == serial_count(slots),
    decreases slots.len(),
{
    if slots.len() > 0 {
        lemma_clocks_count(u, slots.drop_last(), f);
    }
}

/// Where there are counters, the values bind: when the counters of a new
/// row are found, its values are found too, for any numbers drawn.
pub proof fn lemma_clocks_then_values(u: UnitV, slots: Seq<SlotV>, f: Seq<(Seq<char>, Seq<char>)>, drawn: Seq<i64>)
    requires
        clocks_of(u, slots, f) is Ok,
    ensures
        values_of(slots, f, drawn) is Ok,
    decreases slots.len(),
{
    if slots.len() > 0 {
        lemma_clocks_then_values(u, slots.drop_last(), f, drawn);
    }
}

proof fn lemma_values_fail(slots: Seq<SlotV>, f: Seq<(Seq<char>, Seq<char>)>, drawn: Seq<i64>, n: int)
    requires
        0 <= n <= slots.len(),
        values_of(slots.take(n), f, drawn) is Err,
    ensures
        values_of(slots, f, drawn) == values_of(slots.take(n), f, drawn),
    decreases slots.len() - n,
{
    if n < slots.len() {
        assert(slots.take(n + 1).drop_last() =~= slots.take(n));
        lemma_values_fail(slots, f, drawn, n + 1);
    } else {
        assert(slots.take(n) =~= slots);
    }
}

/// The contents of stored values.
pub open spec fn vals_of(v: Seq<Val>) -> Seq<ValV> {
    v.map_values(|x: Val| x@)
}

/// The value a new row takes for field `slot`.
pub(crate) fn value_for(slot: &Slot, fields: &[(&str, &str)]) -> (r: Result<Val, Error>)
    ensures
        match slot_value(slot@, pairs_view(fields@)) {
            Ok(v) => r matches Ok(x) && x@ == v,
            Err(n) => r matches Err(e) && refused(e, n),
        },
{
    match seek(fields, slot.name()) {
        Some(raw) => bind(slot, raw),
        None => {
            if !slot.need() {
                Ok(Val::Null)
            } else {
                match &slot.rule().default {
                    Some(d) => bind(slot, d.as_str()),
                    None => Err(adapt2("missing field ", slot.name())),
                }
            }
        },
    }
}

/// The contents of stored cells.
pub open spec fn cells_view(h: Seq<(String, Val)>) -> Seq<(Seq<char>, ValV)> {
    h.map_values(|p: (String, Val)| (p.0@, p.1@))
}

/// A copy of a stored value.
pub(crate) fn copy_val(v: &Val) -> (r: Val)
    ensures
        r@ == v@,
{
    match v {
        Val::Null => Val::Null,
        Val::Int(i) => Val::Int(*i),
        Val::Text(t) => Val::Text(t.clone()),
    }
}

/// The stored cell named `name`, if any.
fn held(h: &[(String, Val)], name: &str) -> (r: Option<Val>)
    ensures
        match held_at(cells_view(h@), name@) {
            Some(v) => r matches Some(x) && x@ == v,
            None => r is None,
        },
{
    let ghost hv = cells_view(h@);
    let ghost p = |q: (Seq<char>, ValV)| q.0 == name@;
    let mut i: usize = 0;
    while i < h.len()
        invariant
            0 <= i <= h@.len(),
            hv == cells_view(h@),
            p == (|q: (Seq<char>, ValV)| q.0 == name@),
            forall|j: int| 0 <= j < i ==> !p(#[trigger] hv[j]),
        decreases h@.len() - i,
    {
        assert(hv[i as int] == (h@[i as int].0@, h@[i as int].1@));
        if same(h[i].0.as_str(), name) {
            proof {
                lemma_first_at(hv, p, i as int);
            }
            return Some(copy_val(&h[i].1));
        }
        i = i + 1;
    }
    proof {
        lemma_first_none(hv, p);
    }
    None
}

/// The value named `name` that scopes a row's serial numbering or its
/// uniqueness, given the row's stored cells `h` (empty for a new row).
pub fn anchor(unit: &Unit, fields: &[(&str, &str)], h: &[(String, Val)], name: &str) -> (r: Result<Val, Error>)
    ensures
        match anchor_spec(unit@, pairs_view(fields@), cells_view(h@), name@) {
            Ok(v) => r matches Ok(x) && x@ == v,
            Err(n) => r matches Err(e) && refused(e, n),
        },
{
    let slots = unit.fields();
    let ghost sv = slots_view(slots@);
    let ghost p = slot_named(name@);
    let mut i: usize = 0;
    while i < slots.len()
        invariant
            0 <= i <= slots@.len(),
            sv == slots_view(slots@),
            sv == unit@.fields,
            p == slot_named(name@),
            forall|j: int| 0 <= j < i ==> !p(#[trigger] sv[j]),
        decreases slots@.len() - i,
    {
        assert(sv[i as int] == slots@[i as int]@);
        if same(slots[i].name(), name) {
            proof {
                lemma_first_at(sv, p, i as int);
            }
            let slot = &slots[i];
            return match seek(fields, name) {
                Some(raw) => bind(slot, raw),
                None => match held(h, name) {
                    Some(v) => Ok(v),
                    None => match &slot.rule().default {
                        Some(d) => bind(slot, d.as_str()),
                        None => Ok(Val::Null),
                    },
                },
            };
        }
        i = i + 1;
    }
    proof {
        lemma_first_none(sv, p);
    }
    match seek(fields, name) {
        Some(raw) => {
            if raw.is_empty() {
                Ok(Val::Null)
            } else {
                match int_in(raw) {
                    Some(k) => Ok(Val::Int(k)),
                    None => Err(adapt3("ref ", name, " needs id")),
                }
            }
        },
        None => match held(h, name) {
            Some(v) => Ok(v),
            None => Ok(Val::Null),
        },
    }
}

/// The counters a new row of `unit` draws its serial numbers from, one
/// per serial field in field order; fails as the first refusing field does.
pub fn serial_clocks(unit: &Unit, fields: &[(&str, &str)]) -> (r: Result<Vec<String>, Error>)
    ensures
        match clocks_of(unit@, unit@.fields, pairs_view(fields@)) {
            Ok(cs) => r matches Ok(v) && v@.map_values(|x: String| x@) == cs,
            Err(n) => r matches Err(e) && refused(e, n),
        },
        r matches Ok(v) ==> v@.len() == serial_count(unit@.fields),
{
    proof {
        lemma_clocks_count(unit@, unit@.fields, pairs_view(fields@));
    }
    let slots = unit.fields();
    let key = unit.key();
    let ghost sv = slots_view(slots@);
    let ghost f = pairs_view(fields@);
    let mut out: Vec<String> = Vec::new();
    let mut i: usize = 0;
    assert(sv.take(0) =~= Seq::<SlotV>::empty());
    assert(out@.map_values(|x: String| x@) =~= Seq::<Seq<char>>::empty());
    while i < slots.len()
        invariant
            0 <= i <= slots@.len(),
            sv == slots_view(slots@),
            sv == unit@.fields,
            f == pairs_view(fields@),
            key@ == unit@.name,
            clocks_of(unit@, sv.take(i as int), f) == Ok::<Seq<Seq<char>>, Seq<char>>(
                out@.map_values(|x: String| x@),
            ),
        decreases slots@.len() - i,
    {
        proof {
            assert(sv.take(i + 1).drop_last() =~= sv.take(i as int));
            assert(sv.take(i + 1).last() == slots@[i as int]@);
        }
        let slot = &slots[i];
        match slot.serial() {
            Some(scope) => match anchor(unit, fields, &[], scope) {
                Ok(v) => {
                    let ghost was = out@.map_values(|x: String| x@);
                    let c = crate::estate::clock::serial(key.as_str(), slot.name(), &v);
                    let c = match c {
                        Ok(c) => c,
                        Err(e) => {
                            assert(false);
                            return Err(e);
                        },
                    };
                    let ghost cv = c@;
                    out.push(c);
                    assert(out@.map_values(|x: String| x@) =~= was.push(cv));
                },
                Err(e) => {
                    proof {
                        lemma_clocks_fail(unit@, sv, f, i + 1);
                    }
                    return Err(e);
                },
            },
            None => match value_for(slot, fields) {
                Ok(_) => {},
                Err(e) => {
                    proof {
                        lemma_clocks_fail(unit@, sv, f, i + 1);
                    }
                    return Err(e);
                },
            },
        }
        i = i + 1;
    }
    assert(sv.take(slots@.len() as int) =~= sv);
    Ok(out)
}

/// The field values, in field order, a new row of `unit` is inserted with
/// from raw pairs `fields`, its serial fields numbered `drawn` in field
/// order (the numbers drawn from the counters `serial_clocks` names).
pub fn row_values(unit: &Unit, fields: &[(&str, &str)], drawn: &[i64]) -> (r: Result<Vec<Val>, Error>)
    requires
        drawn@.len() == serial_count(unit@.fields),
    ensures
        match craft_spec(unit@, pairs_view(fields@), drawn@) {
            Ok(vs) => r matches Ok(v) && vals_of(v@) == vs,
            Err(n) => r matches Err(e) && refused(e, n),
        },
{
    let slots = unit.fields();
    let ghost sv = slots_view(slots@);
    let ghost f = pairs_view(fields@);
    let mut out: Vec<Val> = Vec::new();
    let mut i: usize = 0;
    let mut k: usize = 0;
    assert(sv.take(0) =~= Seq::<SlotV>::empty());
    assert(vals_of(out@) =~= Seq::<ValV>::empty());
    while i < slots.len()
        invariant
            0 <= i <= slots@.len(),
            sv == slots_view(slots@),
            sv == unit@.fields,
            f == pairs_view(fields@),
            k == serial_count(sv.take(i as int)),
            drawn@.len() == serial_count(sv),
            values_of(sv.take(i as int), f, drawn@) == Ok::<Seq<ValV>, Seq<char>>(vals_of(out@)),
        decreases slots@.len() - i,
    {
        proof {
            assert(sv.take(i + 1).drop_last() =~= sv.take(i as int));
            assert(sv.take(i + 1).last() == slots@[i as int]@);
            lemma_count_grows(sv, i + 1);
        }
        if slots[i].serial().is_some() {
            let ghost was = vals_of(out@);
            let v = Val::Int(drawn[k]);
            let ghost vv = v@;
            out.push(v);
            assert(vals_of(out@) =~= was.push(vv));
            k = k + 1;
        } else {
            match value_for(&slots[i], fields) {
                Ok(v) => {
                    let ghost was = vals_of(out@);
                    let ghost vv = v@;
                    out.push(v);
                    assert(vals_of(out@) =~= was.push(vv));
                },
                Err(e) => {
                    proof {
                        lemma_values_fail(sv, f, drawn@, i + 1);
                    }
                    return Err(e);
                },
            }
        }
        i = i + 1;
    }
    assert(sv.take(slots@.len() as int) =~= sv);
    Ok(out)
}

proof fn lemma_count_grows(slots: Seq<SlotV>, n: int)
    requires
        0 <= n <= slots.len(),
    ensures
        serial_count(slots.take(n)) <= serial_count(slots),
    decreases slots.len() - n,
{
    if n < slots.len() {
        lemma_count_grows(slots, n + 1);
        assert(slots.take(n + 1).drop_last() =~= slots.take(n));
    } else {
        assert(slots.take(n) =~= slots);
    }
}

/// A uniqueness claim a written row makes: the field, the value it
/// takes, and, for a field unique within a scope, the scoping name and its
/// value. The caller's store refuses the write when another live row of
/// the unit holds the same claim.
#[derive(Debug)]
pub struct Claim {
    pub field: String,
    pub value: Val,
    pub scope: Option<(String, Val)>,
}

/// The content of a claim.
pub struct ClaimV {
    pub field: Seq<char>,
    pub value: ValV,
    pub scope: Option<(Seq<char>, ValV)>,
}

impl View for Claim {
    type V = ClaimV;

    open spec fn view(&self) -> ClaimV {
        ClaimV {
            field: self.field@,
            value: self.value@,
            scope: match self.scope {
                Some(p) => Some((p.0@, p.1@)),
                None => None,
            },
        }
    }
}

/// The contents of a list of claims.
pub open spec fn claims_view(v: Seq<Claim>) -> Seq<ClaimV> {
    v.map_values(|c: Claim| c@)
}

/// The value a row's field `s` is held unique with: the text given, bound;
/// else the stored cell; nothing when neither is there.
pub open spec fn worth_spec(s: SlotV, f: Seq<(Seq<char>, Seq<char>)>, h: Seq<(Seq<char>, ValV)>) -> Result<
    Option<ValV>,
    Seq<char>,
> {
    match sought(f, s.name) {
        Some(raw) => match bound(s, raw) {
            Ok(v) => Ok(Some(v)),
            Err(e) => Err(e),
        },
        None => Ok(held_at(h, s.name)),
    }
}

/// The claim field `s` of a row of `u` makes, if it is unique and has a
/// value; or why it refuses.
pub open spec fn claim_for(
    u: UnitV,
    f: Seq<(Seq<char>, Seq<char>)>,
    h: Seq<(Seq<char>, ValV)>,
    s: SlotV,
) -> Result<Option<ClaimV>, Seq<char>> {
    match s.only {
        OnlyV::Free => Ok(None),
        OnlyV::All => match worth_spec(s, f, h) {
            Err(e) => Err(e),
            Ok(None) => Ok(None),
            Ok(Some(v)) => Ok(Some(ClaimV { field: s.name, value: v, scope: None })),
        },
        OnlyV::Per(rel) => match worth_spec(s, f, h) {
            Err(e) => Err(e),
            Ok(None) => Ok(None),
            Ok(Some(v)) => match anchor_spec(u, f, h, rel) {
                Err(e) => Err(e),
                Ok(a) => Ok(Some(ClaimV { field: s.name, value: v, scope: Some((rel, a)) })),
            },
        },
    }
}

/// The claims the fields `slots` of a row of `u` make, in field order;
/// the first field that refuses fails them all.
pub open spec fn claims_of(
    u: UnitV,
    slots: Seq<SlotV>,
    f: Seq<(Seq<char>, Seq<char>)>,
    h: Seq<(Seq<char>, ValV)>,
) -> Result<Seq<ClaimV>, Seq<char>>
    decreases slots.len(),
{
    if slots.len() == 0 {
        Ok(Seq::empty())
    } else {
        match claims_of(u, slots.drop_last(), f, h) {
            Err(e) => Err(e),
            Ok(cs) => match claim_for(u, f, h, slots.last()) {
                Err(e) => Err(e),
                Ok(None) => Ok(cs),
                Ok(Some(c)) => Ok(cs.push(c)),
            },
        }
    }
}

proof fn lemma_claims_fail(
    u: UnitV,
    slots: Seq<SlotV>,
    f: Seq<(Seq<char>, Seq<char>)>,
    h: Seq<(Seq<char>, ValV)>,
    n: int,
)
    requires
        0 <= n <= slots.len(),
        claims_of(u, slots.take(n), f, h) is Err,
    ensures
        claims_of(u, slots, f, h) == claims_of(u, slots.take(n), f, h),
    decreases slots.len() - n,
{
    if n < slots.len() {
        assert(slots.take(n + 1).drop_last() =~= slots.take(n));
        lemma_claims_fail(u, slots, f, h, n + 1);
    } else {
        assert(slots.take(n) =~= slots);
    }
}

/// The value field `slot` is held unique with.
fn worth(slot: &Slot, fields: &[(&str, &str)], h: &[(String, Val)]) -> (r: Result<Option<Val>, Error>)
    ensures
        match worth_spec(slot@, pairs_view(fields@), cells_view(h@)) {
            Ok(o) => r matches Ok(x) && match o {
                Some(v) => x matches Some(y) && y@ == v,
                None => x is None,
            },
            Err(n) => r matches Err(e) && refused(e, n),
        },
{
    match seek(fields, slot.name()) {
        Some(raw) => match bind(slot, raw) {
            Ok(v) => Ok(Some(v)),
            Err(e) => Err(e),
        },
        None => Ok(held(h, slot.name())),
    }
}

/// The uniqueness claims a row of `unit` makes when written with raw pairs
/// `fields` over its stored cells `h` (none for a new row), in field order.
pub fn claims(unit: &Unit, fields: &[(&str, &str)], h: &[(String, Val)]) -> (r: Result<Vec<Claim>, Error>)
    ensures
        match claims_of(unit@, unit@.fields, pairs_view(fields@), cells_view(h@)) {
            Ok(cs) => r matches Ok(v) && claims_view(v@) == cs,
            Err(n) => r matches Err(e) && refused(e, n),
        },
{
    let slots = unit.fields();
    let ghost sv = slots_view(slots@);
    let ghost f = pairs_view(fields@);
    let ghost hv = cells_view(h@);
    let mut out: Vec<Claim> = Vec::new();
    let mut i: usize = 0;
    assert(sv.take(0) =~= Seq::<SlotV>::empty());
    assert(claims_view(out@) =~= Seq::<ClaimV>::empty());
    while i < slots.len()
        invariant
            0 <= i <= slots@.len(),
            sv == slots_view(slots@),
            sv == unit@.fields,
            f == pairs_view(fields@),
            hv == cells_view(h@),
            claims_of(unit@, sv.take(i as int), f, hv) == Ok::<Seq<ClaimV>, Seq<char>>(
                claims_view(out@),
            ),
        decreases slots@.len() - i,
    {
        proof {
            assert(sv.take(i + 1).drop_last() =~= sv.take(i as int));
            assert(sv.take(i + 1).last() == slots@[i as int]@);
        }
        let slot = &slots[i];
        let scope: Option<&str> = match slot.only() {
            Only::Free => {
                i = i + 1;
                continue;
            },
            Only::All => None,
            Only::Per(rel) => Some(rel.as_str()),
        };
        let value = match worth(slot, fields, h) {
            Ok(Some(v)) => v,
            Ok(None) => {
                i = i + 1;
                continue;
            },
            Err(e) => {
                proof {
                    lemma_claims_fail(unit@, sv, f, hv, i + 1);
                }
                return Err(e);
            },
        };
        let scope = match scope {
            None => None,
            Some(rel) => match anchor(unit, fields, h, rel) {
                Ok(a) => Some((own(rel), a)),
                Err(e) => {
                    proof {
                        lemma_claims_fail(unit@, sv, f, hv, i + 1);
                    }
                    return Err(e);
                },
            },
        };
        let ghost was = claims_view(out@);
        let c = Claim { field: own(slot.name()), value, scope };
        let ghost cv = c@;
        out.push(c);
        assert(claims_view(out@) =~= was.push(cv));
        i = i + 1;
    }
    assert(sv.take(slots@.len() as int) =~= sv);
    Ok(out)
}

/// The refusal of a claim another live row of the unit already holds.
pub fn taken(field: &str) -> (e: Error)
    ensures
        refused(e, "field "@ + field@ + " taken"@),
{
    adapt3("field ", field, " taken")
}

/// Why a unit refuses a partial update, if it does: a frozen unit, the
/// pulse log and the grant table are never updated.
pub open spec fn set_refusal(u: UnitV) -> Option<Seq<char>> {
    if u.frozen {
        Some("frozen unit "@ + u.name)
    } else if u.name == PULSE@ {
        Some("pulse is engine owned"@)
    } else if u.name == GRANT@ {
        Some("grant rows are put or end"@)
    } else {
        None
    }
}

/// The refusal of a partial update the unit itself makes, if any.
pub fn set_check(unit: &Unit) -> (r: Option<Error>)
    ensures
        match set_refusal(unit@) {
            Some(n) => r matches Some(e) && refused(e, n),
            None => r is None,
        },
{
    if unit.frozen() {
        return Some(adapt2("frozen unit ", unit.name()));
    }
    if same(unit.name(), PULSE) {
        return Some(adapt("pulse is engine owned"));
    }
    if same(unit.name(), GRANT) {
        return Some(adapt("grant rows are put or end"));
    }
    None
}

/// The value a key-column bond takes from raw text: empty text is null
/// unless the bond is needed; otherwise the text must read as a key.
pub open spec fn point_spec(e: EdgeV, raw: Seq<char>) -> Result<ValV, Seq<char>> {
    if raw.len() == 0 {
        if e.need {
            Err("missing ref "@ + e.name)
        } else {
            Ok(ValV::Null)
        }
    } else {
        match int_of(raw) {
            Some(k) => Ok(ValV::Int(k as i64)),
            None => Err("ref "@ + e.name + " needs id"@),
        }
    }
}

/// The bond is named `name`.
pub open spec fn edge_named(name: Seq<char>) -> spec_fn(EdgeV) -> bool {
    |e: EdgeV| e.name == name
}

/// What one raw pair of a partial update sets: a key-column bond sets its
/// key, a field its bound value; another name is unknown.
pub open spec fn entry_spec(u: UnitV, col: Seq<char>, raw: Seq<char>) -> Result<
    (Seq<char>, ValV),
    Seq<char>,
> {
    let refs = refs_of(u.bonds);
    match first_where(refs, edge_named(col)) {
        Some(i) => match point_spec(refs[i], raw) {
            Ok(v) => Ok((col, v)),
            Err(e) => Err(e),
        },
        None => match first_where(u.fields, slot_named(col)) {
            Some(i) => match bound(u.fields[i], raw) {
                Ok(v) => Ok((col, v)),
                Err(e) => Err(e),
            },
            None => Err("unknown field "@ + col),
        },
    }
}

/// The names and values the raw pairs set, in order.
pub open spec fn entries(u: UnitV, f: Seq<(Seq<char>, Seq<char>)>) -> Result<
    (Seq<Seq<char>>, Seq<ValV>),
    Seq<char>,
>
    decreases f.len(),
{
    if f.len() == 0 {
        Ok((Seq::empty(), Seq::empty()))
    } else {
        match entries(u, f.drop_last()) {
            Err(e) => Err(e),
            Ok((ns, vs)) => match entry_spec(u, f.last().0, f.last().1) {
                Err(e) => Err(e),
                Ok((n, v)) => Ok((ns.push(n), vs.push(v))),
            },
        }
    }
}

/// A partial update of row `key` of unit `u` at time `tick`: the names it
/// sets (each field or key-column bond, in the order given) and the values
/// bound to the statement (those of the names, then the update time, the
/// key and the time again); or why it is refused.
pub open spec fn update_spec(
    u: UnitV,
    key: i64,
    f: Seq<(Seq<char>, Seq<char>)>,
    tick: i64,
) -> Result<(Seq<Seq<char>>, Seq<ValV>), Seq<char>> {
    match set_refusal(u) {
        Some(n) => Err(n),
        None => match entries(u, f) {
            Err(e) => Err(e),
            Ok((ns, vs)) => Ok((ns, vs + seq![ValV::Int(tick), ValV::Int(key), ValV::Int(tick)])),
        },
    }
}

proof fn lemma_entries_fail(u: UnitV, f: Seq<(Seq<char>, Seq<char>)>, n: int)
    requires
        0 <= n <= f.len(),
        entries(u, f.take(n)) is Err,
    ensures
        entries(u, f) == entries(u, f.take(n)),
    decreases f.len() - n,
{
    if n < f.len() {
        assert(f.take(n + 1).drop_last() =~= f.take(n));
        lemma_entries_fail(u, f, n + 1);
    } else {
        assert(f.take(n) =~= f);
    }
}

/// The texts of a list of strings.
pub open spec fn names_of(v: Seq<String>) -> Seq<Seq<char>> {
    v.map_values(|s: String| s@)
}

/// The key-column bond among `refs` named `name`, if any.
pub(crate) fn ref_named<'a>(refs: &Vec<&'a Edge>, name: &str) -> (r: Option<&'a Edge>)
    ensures
        match first_where(edge_refs_view(refs@), edge_named(name@)) {
            Some(i) => r matches Some(e) && e@ == edge_refs_view(refs@)[i],
            None => r is None,
        },
{
    let ghost rv = edge_refs_view(refs@);
    let mut i: usize = 0;
    while i < refs.len()
        invariant
            0 <= i <= refs@.len(),
            rv == edge_refs_view(refs@),
            forall|j: int| 0 <= j < i ==> !edge_named(name@)(#[trigger] rv[j]),
        decreases refs@.len() - i,
    {
        assert(rv[i as int] == refs@[i as int]@);
        if same(refs[i].name(), name) {
            proof {
                lemma_first_at(rv, edge_named(name@), i as int);
            }
            return Some(refs[i]);
        }
        i = i + 1;
    }
    proof {
        lemma_first_none(rv, edge_named(name@));
    }
    None
}

/// The value a key-column bond takes from raw text.
pub(crate) fn point(edge: &Edge, raw: &str) -> (r: Result<Val, Error>)
    ensures
        match point_spec(edge@, raw@) {
            Ok(v) => r matches Ok(x) && x@ == v,
            Err(n) => r matches Err(e) && refused(e, n),
        },
{
    if raw.is_empty() {
        if edge.need() {
            return Err(adapt2("missing ref ", edge.name()));
        }
        return Ok(Val::Null);
    }
    match int_in(raw) {
        Some(k) => Ok(Val::Int(k)),
        None => Err(adapt3("ref ", edge.name(), " needs id")),
    }
}

/// What one raw pair of a partial update sets.
pub(crate) fn entry(unit: &Unit, refs: &Vec<&Edge>, col: &str, raw: &str) -> (r: Result<(String, Val), Error>)
    requires
        edge_refs_view(refs@) == refs_of(unit@.bonds),
    ensures
        match entry_spec(unit@, col@, raw@) {
            Ok((n, v)) => r matches Ok((a, b)) && a@ == n && b@ == v,
            Err(n) => r matches Err(e) && refused(e, n),
        },
{
    match ref_named(refs, col) {
        Some(edge) => match point(edge, raw) {
            Ok(v) => Ok((own(col), v)),
            Err(e) => Err(e),
        },
        None => {
            let slots = unit.fields();
            match slot_in(slots, col) {
                Some(slot) => {
                    proof {
                        let q = first_where(slots_view(slots@), slot_named(col@))->0;
                        assert(slots_view(slots@)[q] == slots@[q]@);
                    }
                    match bind(slot, raw) {
                        Ok(v) => Ok((own(col), v)),
                        Err(e) => Err(e),
                    }
                },
                None => Err(adapt2("unknown field ", col)),
            }
        },
    }
}

/// A partial update of row `key` of `unit` from raw pairs `fields` at time
/// `tick`: the names set and the values bound, or why it is refused.
pub fn update_of(unit: &Unit, key: i64, fields: &[(&str, &str)], tick: i64) -> (r: Result<
    (Vec<String>, Vec<Val>),
    Error,
>)
    ensures
        match update_spec(unit@, key, pairs_view(fields@), tick) {
            Ok((ns, vs)) => r matches Ok((a, b)) && names_of(a@) == ns && vals_of(b@) == vs,
            Err(n) => r matches Err(e) && refused(e, n),
        },
{
    if unit.frozen() {
        return Err(adapt2("frozen unit ", unit.name()));
    }
    if same(unit.name(), PULSE) {
        return Err(adapt("pulse is engine owned"));
    }
    if same(unit.name(), GRANT) {
        return Err(adapt("grant rows are put or end"));
    }
    let refs = unit.refs();
    let ghost f = pairs_view(fields@);
    let mut names: Vec<String> = Vec::new();
    let mut vals: Vec<Val> = Vec::new();
    let mut i: usize = 0;
    assert(f.take(0) =~= Seq::<(Seq<char>, Seq<char>)>::empty());
    assert(names_of(names@) =~= Seq::<Seq<char>>::empty());
    assert(vals_of(vals@) =~= Seq::<ValV>::empty());
    while i < fields.len()
        invariant
            0 <= i <= fields@.len(),
            f == pairs_view(fields@),
            edge_refs_view(refs@) == refs_of(unit@.bonds),
            set_refusal(unit@) is None,
            entries(unit@, f.take(i as int)) == Ok::<(Seq<Seq<char>>, Seq<ValV>), Seq<char>>(
                (names_of(names@), vals_of(vals@)),
            ),
        decreases fields@.len() - i,
    {
        proof {
            assert(f.take(i + 1).drop_last() =~= f.take(i as int));
            assert(f.take(i + 1).last() == (fields@[i as int].0@, fields@[i as int].1@));
        }
        let (col, raw) = fields[i];
        match entry(unit, &refs, col, raw) {
            Ok((n, v)) => {
                let ghost wn = names_of(names@);
                let ghost wv = vals_of(vals@);
                let ghost (nn, vv) = (n@, v@);
                names.push(n);
                vals.push(v);
                assert(names_of(names@) =~= wn.push(nn));
                assert(vals_of(vals@) =~= wv.push(vv));
            },
            Err(e) => {
                proof {
                    assert(entry_spec(unit@, f.take(i + 1).last().0, f.take(i + 1).last().1) is Err);
                    assert(entries(unit@, f.take(i + 1)) is Err);
                    lemma_entries_fail(unit@, f, i + 1);
                    assert(set_refusal(unit@) is None);
                }
                return Err(e);
            },
        }
        i = i + 1;
    }
    assert(f.take(fields@.len() as int) =~= f);
    let ghost wv = vals_of(vals@);
    vals.push(Val::Int(tick));
    vals.push(Val::Int(key));
    vals.push(Val::Int(tick));
    assert(vals_of(vals@) =~= wv + seq![ValV::Int(tick), ValV::Int(key), ValV::Int(tick)]);
    Ok((names, vals))
}

/// Whether a statement that changed `changed` rows found row `key`.
pub fn landed(changed: u64, key: i64) -> (r: Result<(), Error>)
    ensures
        r is Err <==> changed == 0,
        r matches Err(e) ==> refused(e, "missing row "@ + decimal(key as int)),
{
    if changed == 0 {
        let k = show_int(key);
        return Err(adapt2("missing row ", k.as_str()));
    }
    Ok(())
}

/// Why a new tie is refused, from what the store said of its ends: each
/// end must be live and not leased, and no live tie may pair them already;
/// the first check that fails, in that order, gives the refusal.
pub open spec fn tie_refusal(
    left_live: bool,
    right_live: bool,
    left_fresh: bool,
    right_fresh: bool,
    paired: bool,
) -> Option<Seq<char>> {
    if !left_live {
        Some("left not live"@)
    } else if !right_live {
        Some("right not live"@)
    } else if !left_fresh {
        Some("left leased"@)
    } else if !right_fresh {
        Some("right leased"@)
    } else if paired {
        Some("live pair exists"@)
    } else {
        None
    }
}

/// The checks a new tie must clear.
pub fn tie_gate(left_live: bool, right_live: bool, left_fresh: bool, right_fresh: bool, paired: bool) -> (r:
    Result<(), Error>)
    ensures
        match tie_refusal(left_live, right_live, left_fresh, right_fresh, paired) {
            Some(n) => r matches Err(e) && refused(e, n),
            None => r is Ok,
        },
{
    if !left_live {
        return Err(adapt("left not live"));
    }
    if !right_live {
        return Err(adapt("right not live"));
    }
    if !left_fresh {
        return Err(adapt("left leased"));
    }
    if !right_fresh {
        return Err(adapt("right leased"));
    }
    if paired {
        return Err(adapt("live pair exists"));
    }
    Ok(())
}

/// The values a new tie of bond `e` is inserted with: its two ends, each of
/// the bond's fields bound from the text given (empty text when none is),
/// then no expiry and the time twice.
pub open spec fn tie_spec(e: EdgeV, ends: Ends, f: Seq<(Seq<char>, Seq<char>)>, tick: i64) -> Result<
    Seq<ValV>,
    Seq<char>,
> {
    match tie_fields(e.fields, f) {
        Err(n) => Err(n),
        Ok(vs) => Ok(
            seq![ValV::Int(ends.left), ValV::Int(ends.right)] + vs + seq![
                ValV::Null,
                ValV::Int(tick),
                ValV::Int(tick),
            ],
        ),
    }
}

/// The bond's fields bound from the text given, in order.
pub open spec fn tie_fields(slots: Seq<SlotV>, f: Seq<(Seq<char>, Seq<char>)>) -> Result<
    Seq<ValV>,
    Seq<char>,
>
    decreases slots.len(),
{
    if slots.len() == 0 {
        Ok(Seq::empty())
    } else {
        match tie_fields(slots.drop_last(), f) {
            Err(n) => Err(n),
            Ok(vs) => match bound(slots.last(), crate::cap::shape::got(f, slots.last().name)) {
                Err(n) => Err(n),
                Ok(v) => Ok(vs.push(v)),
            },
        }
    }
}

proof fn lemma_tie_fail(slots: Seq<SlotV>, f: Seq<(Seq<char>, Seq<char>)>, n: int)
    requires
        0 <= n <= slots.len(),
        tie_fields(slots.take(n), f) is Err,
    ensures
        tie_fields(slots, f) == tie_fields(slots.take(n), f),
    decreases slots.len() - n,
{
    if n < slots.len() {
        assert(slots.take(n + 1).drop_last() =~= slots.take(n));
        lemma_tie_fail(slots, f, n + 1);
    } else {
        assert(slots.take(n) =~= slots);
    }
}

/// The values a new tie of `edge` between `ends` is inserted with at time
/// `tick`.
pub fn tie_values(edge: &Edge, ends: Ends, fields: &[(&str, &str)], tick: i64) -> (r: Result<
    Vec<Val>,
    Error,
>)
    ensures
        match tie_spec(edge@, ends, pairs_view(fields@), tick) {
            Ok(vs) => r matches Ok(v) && vals_of(v@) == vs,
            Err(n) => r matches Err(e) && refused(e, n),
        },
{
    let slots = edge.fields();
    let ghost sv = slots_view(slots@);
    let ghost f = pairs_view(fields@);
    let mut out: Vec<Val> = Vec::new();
    out.push(Val::Int(ends.left));
    out.push(Val::Int(ends.right));
    let ghost head = vals_of(out@);
    assert(head =~= seq![ValV::Int(ends.left), ValV::Int(ends.right)]);
    let mut i: usize = 0;
    assert(sv.take(0) =~= Seq::<SlotV>::empty());
    while i < slots.len()
        invariant
            0 <= i <= slots@.len(),
            sv == slots_view(slots@),
            sv == edge@.fields,
            f == pairs_view(fields@),
            head == seq![ValV::Int(ends.left), ValV::Int(ends.right)],
            tie_fields(sv.take(i as int), f) matches Ok(vs) && vals_of(out@) == head + vs,
        decreases slots@.len() - i,
    {
        proof {
            assert(sv.take(i + 1).drop_last() =~= sv.take(i as int));
            assert(sv.take(i + 1).last() == slots@[i as int]@);
        }
        let hit = crate::cap::shape::get(fields, slots[i].name());
        match bind(&slots[i], hit) {
            Ok(v) => {
                let ghost was = vals_of(out@);
                let ghost vv = v@;
                out.push(v);
                assert(vals_of(out@) =~= was.push(vv));
                assert(vals_of(out@) =~= head + tie_fields(sv.take(i + 1), f)->Ok_0);
            },
            Err(e) => {
                proof {
                    lemma_tie_fail(sv, f, i + 1);
                }
                return Err(e);
            },
        }
        i = i + 1;
    }
    assert(sv.take(slots@.len() as int) =~= sv);
    let ghost was = vals_of(out@);
    out.push(Val::Null);
    out.push(Val::Int(tick));
    out.push(Val::Int(tick));
    assert(vals_of(out@) =~= was + seq![ValV::Null, ValV::Int(tick), ValV::Int(tick)]);
    Ok(out)
}

/// What one raw pair of a tie's retune sets: a field of the bond, bound;
/// another name is unknown.
pub open spec fn fit_spec(slots: Seq<SlotV>, col: Seq<char>, raw: Seq<char>) -> Result<
    (Seq<char>, ValV),
    Seq<char>,
> {
    match first_where(slots, slot_named(col)) {
        Some(i) => match bound(slots[i], raw) {
            Ok(v) => Ok((col, v)),
            Err(e) => Err(e),
        },
        None => Err("unknown field "@ + col),
    }
}

/// The names and values a retune's raw pairs set, in order.
pub open spec fn fits(slots: Seq<SlotV>, f: Seq<(Seq<char>, Seq<char>)>) -> Result<
    (Seq<Seq<char>>, Seq<ValV>),
    Seq<char>,
>
    decreases f.len(),
{
    if f.len() == 0 {
        Ok((Seq::empty(), Seq::empty()))
    } else {
        match fits(slots, f.drop_last()) {
            Err(e) => Err(e),
            Ok((ns, vs)) => match fit_spec(slots, f.last().0, f.last().1) {
                Err(e) => Err(e),
                Ok((n, v)) => Ok((ns.push(n), vs.push(v))),
            },
        }
    }
}

/// A retune of tie `key` of bond `e` at time `tick`: nothing to set is
/// refused; otherwise the bond's fields named, in the order given, with
/// their bound values, then the time, the key and the time again.
pub open spec fn tune_spec(e: EdgeV, key: i64, f: Seq<(Seq<char>, Seq<char>)>, tick: i64) -> Result<
    (Seq<Seq<char>>, Seq<ValV>),
    Seq<char>,
> {
    if f.len() == 0 {
        Err("empty set"@)
    } else {
        match fits(e.fields, f) {
            Err(n) => Err(n),
            Ok((ns, vs)) => Ok((ns, vs + seq![ValV::Int(tick), ValV::Int(key), ValV::Int(tick)])),
        }
    }
}

proof fn lemma_fits_fail(slots: Seq<SlotV>, f: Seq<(Seq<char>, Seq<char>)>, n: int)
    requires
        0 <= n <= f.len(),
        fits(slots, f.take(n)) is Err,
    ensures
        fits(slots, f) == fits(slots, f.take(n)),
    decreases f.len() - n,
{
    if n < f.len() {
        assert(f.take(n + 1).drop_last() =~= f.take(n));
        lemma_fits_fail(slots, f, n + 1);
    } else {
        assert(f.take(n) =~= f);
    }
}

/// A retune of tie `key` of `edge` from raw pairs `fields` at time `tick`.
pub fn tune_of(edge: &Edge, key: i64, fields: &[(&str, &str)], tick: i64) -> (r: Result<
    (Vec<String>, Vec<Val>),
    Error,
>)
    ensures
        match tune_spec(edge@, key, pairs_view(fields@), tick) {
            Ok((ns, vs)) => r matches Ok((a, b)) && names_of(a@) == ns && vals_of(b@) == vs,
            Err(n) => r matches Err(e) && refused(e, n),
        },
{
    if fields.len() == 0 {
        return Err(adapt("empty set"));
    }
    let slots = edge.fields();
    let ghost sv = slots_view(slots@);
    let ghost f = pairs_view(fields@);
    let mut names: Vec<String> = Vec::new();
    let mut vals: Vec<Val> = Vec::new();
    let mut i: usize = 0;
    assert(f.take(0) =~= Seq::<(Seq<char>, Seq<char>)>::empty());
    assert(names_of(names@) =~= Seq::<Seq<char>>::empty());
    assert(vals_of(vals@) =~= Seq::<ValV>::empty());
    while i < fields.len()
        invariant
            0 <= i <= fields@.len(),
            f == pairs_view(fields@),
            sv == slots_view(slots@),
            sv == edge@.fields,
            fits(sv, f.take(i as int)) == Ok::<(Seq<Seq<char>>, Seq<ValV>), Seq<char>>(
                (names_of(names@), vals_of(vals@)),
            ),
        decreases fields@.len() - i,
    {
        proof {
            assert(f.take(i + 1).drop_last() =~= f.take(i as int));
            assert(f.take(i + 1).last() == (fields@[i as int].0@, fields@[i as int].1@));
        }
        let (col, raw) = fields[i];
        let slot = match slot_in(slots, col) {
            Some(s) => s,
            None => {
                proof {
                    lemma_fits_fail(sv, f, i + 1);
                }
                return Err(adapt2("unknown field ", col));
            },
        };
        proof {
            let q = first_where(sv, slot_named(col@))->0;
            assert(sv[q] == slots@[q]@);
        }
        match bind(slot, raw) {
            Ok(v) => {
                let ghost wn = names_of(names@);
                let ghost wv = vals_of(vals@);
                let ghost vv = v@;
                names.push(own(col));
                vals.push(v);
                assert(names_of(names@) =~= wn.push(col@));
                assert(vals_of(vals@) =~= wv.push(vv));
            },
            Err(e) => {
                proof {
                    lemma_fits_fail(sv, f, i + 1);
                }
                return Err(e);
            },
        }
        i = i + 1;
    }
    assert(f.take(fields@.len() as int) =~= f);
    let ghost wv = vals_of(vals@);
    vals.push(Val::Int(tick));
    vals.push(Val::Int(key));
    vals.push(Val::Int(tick));
    assert(vals_of(vals@) =~= wv + seq![ValV::Int(tick), ValV::Int(key), ValV::Int(tick)]);
    Ok((names, vals))
}

/// Clearing fields `names` of row `key` of unit `u` at time `tick`: a
/// frozen unit refuses; otherwise each name is set to null and the values
/// bound are the time and the key.
pub open spec fn unset_spec(u: UnitV, key: i64, names: Seq<Seq<char>>, tick: i64) -> Result<
    (Seq<Seq<char>>, Seq<ValV>),
    Seq<char>,
> {
    if u.frozen {
        Err("frozen unit "@ + u.name)
    } else {
        Ok((names, seq![ValV::Int(tick), ValV::Int(key)]))
    }
}

/// Clearing fields `names` of row `key` of `unit` at time `tick`.
pub fn unset_of(unit: &Unit, key: i64, names: &[&str], tick: i64) -> (r: Result<
    (Vec<String>, Vec<Val>),
    Error,
>)
    ensures
        match unset_spec(unit@, key, names@.map_values(|n: &str| n@), tick) {
            Ok((ns, vs)) => r matches Ok((a, b)) && names_of(a@) == ns && vals_of(b@) == vs,
            Err(n) => r matches Err(e) && refused(e, n),
        },
{
    if unit.frozen() {
        return Err(adapt2("frozen unit ", unit.name()));
    }
    let mut out: Vec<String> = Vec::new();
    let mut i: usize = 0;
    while i < names.len()
        invariant
            0 <= i <= names@.len(),
            names_of(out@) == names@.take(i as int).map_values(|n: &str| n@),
        decreases names@.len() - i,
    {
        let ghost was = names_of(out@);
        out.push(own(names[i]));
        assert(names_of(out@) =~= was.push(names@[i as int]@));
        assert(names@.take(i + 1).map_values(|n: &str| n@) =~= names@.take(i as int).map_values(
            |n: &str| n@,
        ).push(names@[i as int]@));
        i = i + 1;
    }
    assert(names@.take(names@.len() as int) =~= names@);
    let vals = vec![Val::Int(tick), Val::Int(key)];
    assert(vals_of(vals@) =~= seq![ValV::Int(tick), ValV::Int(key)]);
    Ok((out, vals))
}

} // verus!
