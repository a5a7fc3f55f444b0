//! Ending rows: which units hang from a unit, so that ending a row ends
//! the rows anchored to it first.
use vstd::prelude::*;
use crate::error::{Error, Why, told};
use crate::plan::{Plan, Unit, UnitV, edge_where, rooted, unit_of};
use crate::text::{own, same};

verus! {

/// The units of `units` anchored to unit `held`, each with its anchoring
/// bond, in plan order.
pub open spec fn heirs_of(p: Seq<UnitV>, units: Seq<UnitV>, held: Seq<char>) -> Seq<(Seq<char>, Seq<char>)>
    decreases units.len(),
{
    if units.len() == 0 {
        Seq::empty()
    } else {
        let rest = heirs_of(p, units.drop_last(), held);
        let u = units.last();
        match edge_where(u, rooted()) {
            Some(e) => match unit_of(p, e.target) {
                Some(m) => if m.name == held {
                    rest.push((u.name, e.name))
                } else {
                    rest
                },
                None => rest,
            },
            None => rest,
        }
    }
}

/// Unit `u` hangs from unit `held` of plan `p`: its anchoring (root)
/// bond targets a unit of the plan named `held`.
pub open spec fn anchored(p: Seq<UnitV>, u: UnitV, held: Seq<char>) -> bool {
    &&& edge_where(u, rooted()) is Some
    &&& unit_of(p, edge_where(u, rooted())->0.target) matches Some(m) && m.name == held
}

/// The entry a unit hanging from another makes: its name and its
/// anchoring bond's name.
pub open spec fn heir_entry(u: UnitV) -> (Seq<char>, Seq<char>) {
    (u.name, edge_where(u, rooted())->0.name)
}

/// The heirs are exactly the entries of the units of `units` that hang
/// from `held`, in plan order.
pub proof fn lemma_heirs_exact(p: Seq<UnitV>, units: Seq<UnitV>, held: Seq<char>)
    ensures
        heirs_of(p, units, held) == units.filter(|u: UnitV| anchored(p, u, held)).map_values(
            |u: UnitV| heir_entry(u),
        ),
    decreases units.len(),
{
    reveal(Seq::filter);
    let f = |u: UnitV| anchored(p, u, held);
    if units.len() == 0 {
        assert(units.filter(f) =~= Seq::<UnitV>::empty());
        assert(units.filter(f).map_values(|u: UnitV| heir_entry(u)) =~= Seq::<(Seq<char>, Seq<char>)>::empty());
    } else {
        lemma_heirs_exact(p, units.drop_last(), held);
        let a = units.drop_last().filter(f);
        if anchored(p, units.last(), held) {
            assert(units.filter(f) == a.push(units.last()));
            assert(a.push(units.last()).map_values(|u: UnitV| heir_entry(u)) =~= a.map_values(
                |u: UnitV| heir_entry(u),
            ).push(heir_entry(units.last())));
        } else {
            assert(units.filter(f) == a);
        }
    }
}

/// Entry `e` is that of a unit of `units` hanging from `held`.
pub open spec fn hangs_in(p: Seq<UnitV>, units: Seq<UnitV>, held: Seq<char>, e: (Seq<char>, Seq<char>)) -> bool {
    exists|i: int| 0 <= i < units.len() && anchored(p, #[trigger] units[i], held) && heir_entry(units[i]) == e
}

/// Ending a row ends every row anchored to it: every unit of `units` that
/// hangs from `held` is among its heirs, with its anchoring bond, and every
/// heir is such a unit.
pub proof fn lemma_heirs_complete(p: Seq<UnitV>, units: Seq<UnitV>, held: Seq<char>)
    ensures
        forall|i: int| 0 <= i < units.len() && anchored(p, #[trigger] units[i], held) ==> heirs_of(
            p,
            units,
            held,
        ).contains(heir_entry(units[i])),
        forall|k: int| 0 <= k < heirs_of(p, units, held).len() ==> hangs_in(
            p,
            units,
            held,
            #[trigger] heirs_of(p, units, held)[k],
        ),
    decreases units.len(),
{
    if units.len() > 0 {
        let t = units.drop_last();
        lemma_heirs_complete(p, t, held);
        let rest = heirs_of(p, t, held);
        let out = heirs_of(p, units, held);
        let u = units.last();
        assert forall|i: int| 0 <= i < units.len() && anchored(p, #[trigger] units[i], held) implies out.contains(
            heir_entry(units[i]),
        ) by {
            if i < t.len() {
                assert(t[i] == units[i]);
                let q = choose|q: int| 0 <= q < rest.len() && rest[q] == heir_entry(t[i]);
                assert(out[q] == rest[q]);
            } else {
                assert(units[i] == u);
                assert(out[out.len() - 1] == heir_entry(u));
            }
        }
        assert forall|k: int| 0 <= k < out.len() implies hangs_in(p, units, held, #[trigger] out[k]) by {
            if k < rest.len() {
                assert(out[k] == rest[k]);
                assert(hangs_in(p, t, held, rest[k]));
                let i = choose|i: int| 0 <= i < t.len() && anchored(p, #[trigger] t[i], held) && heir_entry(t[i]) == rest[k];
                assert(units[i] == t[i]);
                assert(anchored(p, units[i], held) && heir_entry(units[i]) == out[k]);
            } else {
                let i = units.len() - 1;
                assert(units[i] == u);
                if !anchored(p, u, held) {
                    assert(out == rest);
                }
                assert(anchored(p, u, held));
                assert(out == rest.push(heir_entry(u)));
                assert(anchored(p, units[i], held) && heir_entry(units[i]) == out[k]);
            }
        }
    }
}

/// The units anchored to unit `name`, each with its anchoring bond; an
/// unknown unit is missing.
pub fn heirs(plan: &Plan, name: &str) -> (r: Result<Vec<(String, String)>, Error>)
    ensures
        match unit_of(plan@, name@) {
            None => r matches Err(e) && told(e, Why::Lacks(name@)),
            Some(h) => r matches Ok(v) && v@.map_values(|x: (String, String)| (x.0@, x.1@)) == heirs_of(plan@, plan@, h.name),
        },
{
    let held = plan.find(name)?.key();
    let units = plan.units();
    let ghost uv = plan@;
    let mut out: Vec<(String, String)> = Vec::new();
    let mut i: usize = 0;
    assert(uv.take(0) =~= Seq::<UnitV>::empty());
    assert(out@.map_values(|x: (String, String)| (x.0@, x.1@)) =~= Seq::<(Seq<char>, Seq<char>)>::empty());
    while i < units.len()
        invariant
            i <= units@.len(),
            uv == plan@,
            units@.map_values(|u: Unit| u@) == uv,
            out@.map_values(|x: (String, String)| (x.0@, x.1@)) == heirs_of(uv, uv.take(i as int), held@),
        decreases units@.len() - i,
    {
        let u = &units[i];
        proof {
            assert(uv.take(i + 1).drop_last() =~= uv.take(i as int));
            assert(uv.take(i + 1).last() == u@);
        }
        let ghost before = out@;
        match u.root() {
            Some(e) => match plan.find(e.target()) {
                Ok(m) => {
                    if same(m.name(), held.as_str()) {
                        out.push((u.key(), own(e.name())));
                        assert(out@.map_values(|x: (String, String)| (x.0@, x.1@)) =~= before.map_values(
                            |x: (String, String)| (x.0@, x.1@),
                        ).push((u@.name, e@.name)));
                    }
                },
                Err(_) => {},
            },
            None => {},
        }
        i = i + 1;
    }
    assert(uv.take(units@.len() as int) =~= uv);
    Ok(out)
}

} // verus!
