//! What a schema move retires besides tables: the pulse records of units and
//! bonds the requested model no longer has.
use vstd::prelude::*;
use crate::estate::derivative::{path_of, sub_path};
use crate::plan::{EdgeV, Plan, UnitV, edges_view};
use crate::text::{own, same};

verus! {

/// The paths of a unit: its own name, then `unit.bond` for each bond.
pub open spec fn unit_paths(u: UnitV) -> Seq<Seq<char>> {
    seq![u.name] + u.bonds.map_values(|e: EdgeV| sub_path(u.name, e.name))
}

/// The paths of a model, unit after unit.
pub open spec fn paths_of(units: Seq<UnitV>) -> Seq<Seq<char>>
    decreases units.len(),
{
    if units.len() == 0 {
        Seq::empty()
    } else {
        paths_of(units.drop_last()) + unit_paths(units.last())
    }
}

/// The paths of the active model that the requested model lacks, in order.
pub open spec fn contract_of(active: Seq<UnitV>, requested: Seq<UnitV>) -> Seq<Seq<char>> {
    paths_of(active).filter(|p: Seq<char>| !paths_of(requested).contains(p))
}

/// The texts of a list of strings.
pub open spec fn texts(v: Seq<String>) -> Seq<Seq<char>> {
    v.map_values(|s: String| s@)
}

/// The paths of the model `plan`.
pub fn paths(plan: &Plan) -> (out: Vec<String>)
    ensures
        texts(out@) == paths_of(plan@),
{
    let units = plan.units();
    let ghost uv = plan@;
    let mut out: Vec<String> = Vec::new();
    let mut i: usize = 0;
    while i < units.len()
        invariant
            0 <= i <= units@.len(),
            uv == plan@,
            units@.map_values(|u: crate::plan::Unit| u@) == uv,
            texts(out@) == paths_of(uv.take(i as int)),
        decreases units@.len() - i,
    {
        let unit = &units[i];
        assert(uv[i as int] == unit@);
        let ghost before = texts(out@);
        out.push(own(unit.name()));
        let ghost base = before;
        assert(texts(out@) =~= base + seq![unit@.name] + unit@.bonds.take(0).map_values(
            |e: EdgeV| sub_path(unit@.name, e.name),
        ));
        let bonds = unit.bonds();
        let mut j: usize = 0;
        while j < bonds.len()
            invariant
                0 <= j <= bonds@.len(),
                edges_view(bonds@) == unit@.bonds,
                texts(out@) == base + seq![unit@.name] + unit@.bonds.take(j as int).map_values(
                    |e: EdgeV| sub_path(unit@.name, e.name),
                ),
            decreases bonds@.len() - j,
        {
            assert(unit@.bonds[j as int] == bonds@[j as int]@);
            let ghost was = texts(out@);
            let path = path_of(unit.name(), bonds[j].name());
            let ghost pv = path@;
            out.push(path);
            assert(texts(out@) =~= was.push(pv));
            assert(unit@.bonds.take(j + 1).map_values(|e: EdgeV| sub_path(unit@.name, e.name))
                =~= unit@.bonds.take(j as int).map_values(
                |e: EdgeV| sub_path(unit@.name, e.name),
            ).push(pv));
            assert(texts(out@) =~= base + seq![unit@.name] + unit@.bonds.take(j + 1).map_values(
                |e: EdgeV| sub_path(unit@.name, e.name),
            ));
            j = j + 1;
        }
        proof {
            assert(unit@.bonds.take(bonds@.len() as int) =~= unit@.bonds);
            assert(uv.take(i + 1).drop_last() =~= uv.take(i as int));
            assert(uv.take(i + 1).last() == unit@);
            assert(texts(out@) =~= paths_of(uv.take(i + 1)));
        }
        i = i + 1;
    }
    assert(uv.take(units@.len() as int) =~= uv);
    out
}

/// Whether `list` holds the text `p`.
fn holds(list: &Vec<String>, p: &str) -> (r: bool)
    ensures
        r == texts(list@).contains(p@),
{
    let mut i: usize = 0;
    while i < list.len()
        invariant
            0 <= i <= list@.len(),
            forall|j: int| 0 <= j < i ==> #[trigger] texts(list@)[j] != p@,
        decreases list@.len() - i,
    {
        if same(list[i].as_str(), p) {
            assert(texts(list@)[i as int] == p@);
            return true;
        }
        i = i + 1;
    }
    false
}

/// The paths whose pulse records a move from `active` to `requested` drops:
/// those of the active model that the requested model lacks.
pub fn contract(active: &Plan, requested: &Plan) -> (out: Vec<String>)
    ensures
        texts(out@) == contract_of(active@, requested@),
{
    let old = paths(active);
    let new = paths(requested);
    let ghost keep = |p: Seq<char>| !paths_of(requested@).contains(p);
    let mut out: Vec<String> = Vec::new();
    let mut i: usize = 0;
    while i < old.len()
        invariant
            0 <= i <= old@.len(),
            texts(old@) == paths_of(active@),
            texts(new@) == paths_of(requested@),
            keep == (|p: Seq<char>| !paths_of(requested@).contains(p)),
            texts(out@) == texts(old@).take(i as int).filter(keep),
        decreases old@.len() - i,
    {
        let ghost t = texts(old@).take(i + 1);
        assert(t.drop_last() =~= texts(old@).take(i as int));
        assert(t.last() == old@[i as int]@);
        assert(t.len() == i + 1);
        proof {
            reveal(Seq::filter);
        }
        assert(t.filter(keep) == (if keep(t.last()) {
            t.drop_last().filter(keep).push(t.last())
        } else {
            t.drop_last().filter(keep)
        }));
        let ghost was = texts(out@);
        if !holds(&new, old[i].as_str()) {
            out.push(own(old[i].as_str()));
            assert(texts(out@) =~= was.push(t.last()));
            assert(texts(out@) =~= t.filter(keep));
        } else {
            assert(texts(out@) =~= t.filter(keep));
        }
        i = i + 1;
    }
    assert(texts(old@).take(old@.len() as int) =~= texts(old@));
    out
}

} // verus!
