//! Checking a query tree against the plan: every field, bond and value it
//! names must exist and fit.
use vstd::prelude::*;
use crate::atom::{Kind, fits_kind};
use crate::bond;
use crate::error::{Error, Why, adapt, adapt2, told};
use crate::plan::{Edge, EdgeV, Plan, Unit, UnitV, first_where, kind_of, lemma_first_at, slot_in, slot_named, slots_view, edges_view, unit_of};
use crate::query::{Op, Pred, PredV, Tree, TreeV, SortV, texts, first_value, preds_view, sorts_view};
use crate::query::parse::{same_ci, same_ci_text};
use crate::query::sift::key_text;
use crate::text::{before, chars_of, int_of, lemma_text_lt_total, lemma_text_lt_transitive, own, same, text_lt};

verus! {

/// The bond is the many-to-many bond named `b`, ignoring ASCII case.
pub open spec fn link_named(b: Seq<char>) -> spec_fn(EdgeV) -> bool {
    |e: EdgeV| same_ci(e.name, b) && e.kind == bond::Kind::Many2many
}

/// The many-to-many bond of `u` named `b`.
pub open spec fn link_edge(u: UnitV, b: Seq<char>) -> Option<EdgeV> {
    match first_where(u.bonds, link_named(b)) {
        Some(i) => Some(u.bonds[i]),
        None => None,
    }
}

/// What an unknown bond is refused with.
pub open spec fn no_bond(b: Seq<char>) -> Why {
    Why::Refused("unknown bond "@ + b)
}

/// What an unknown field is refused with.
pub open spec fn no_field(f: Seq<char>) -> Why {
    Why::Refused("unknown field "@ + f)
}

/// The many-to-many bond of `unit` named `bond`; an unknown bond is refused.
pub fn edge<'a>(unit: &'a Unit, bond: &str) -> (r: Result<&'a Edge, Error>)
    ensures
        match link_edge(unit@, bond@) {
            Some(e) => r matches Ok(x) && x@ == e,
            None => r matches Err(x) && told(x, no_bond(bond@)),
        },
{
    let bonds = unit.bonds();
    let ghost ev = unit@.bonds;
    let mut i: usize = 0;
    while i < bonds.len()
        invariant
            i <= bonds@.len(),
            ev == edges_view(bonds@),
            ev == unit@.bonds,
            forall|j: int| 0 <= j < i ==> !link_named(bond@)(#[trigger] ev[j]),
        decreases bonds@.len() - i,
    {
        if same_ci_text(bonds[i].name(), bond) && bonds[i].kind() == bond::Kind::Many2many {
            proof {
                lemma_first_at(ev, link_named(bond@), i as int);
                assert(ev[i as int] == bonds@[i as int]@);
            }
            return Ok(&bonds[i]);
        }
        assert(ev[i as int] == bonds@[i as int]@);
        i = i + 1;
    }
    proof {
        if first_where(ev, link_named(bond@)) is Some {
            let c = first_where(ev, link_named(bond@))->0;
            assert(link_named(bond@)(ev[c]));
        }
    }
    Err(adapt2("unknown bond ", bond))
}

/// The units a query reaches, by target name, in the order first reached.
pub open spec fn range_at(range: Seq<(Seq<char>, UnitV)>, name: Seq<char>) -> Option<UnitV> {
    match first_where(range, |x: (Seq<char>, UnitV)| x.0 == name) {
        Some(i) => Some(range[i].1),
        None => None,
    }
}

/// The kind of field `f` seen across bond `e`: the key, a field of the
/// tie, or a field of the target unit.
pub open spec fn bond_kind(range: Seq<(Seq<char>, UnitV)>, e: EdgeV, f: Seq<char>) -> Result<Kind, Why> {
    if f == crate::ddl::KEY@ {
        Ok(Kind::Int)
    } else {
        match first_where(e.fields, slot_named(f)) {
            Some(i) => Ok(e.fields[i].kind),
            None => match range_at(range, e.target) {
                None => Err(Why::Lacks(e.target)),
                Some(t) => match kind_of(t, f) {
                    Some(k) => Ok(k),
                    None => Err(no_field(f)),
                },
            },
        }
    }
}

/// The inner predicate of a `some` may not itself cross a bond.
pub open spec fn nest_fault(range: Seq<(Seq<char>, UnitV)>, e: EdgeV, n: PredV) -> Option<Why> {
    if n.op == Op::Has || n.op == Op::Exists {
        Some(Why::Refused("nested bond pred denied"@))
    } else {
        match bond_kind(range, e, n.field) {
            Ok(_) => None,
            Err(w) => Some(w),
        }
    }
}

/// What is wrong with predicate `p` on unit `u`, if anything.
pub open spec fn pred_fault(u: UnitV, range: Seq<(Seq<char>, UnitV)>, p: PredV) -> Option<Why> {
    if p.op == Op::Has {
        match link_edge(u, p.field) {
            Some(_) => None,
            None => Some(no_bond(p.field)),
        }
    } else if p.op == Op::Exists {
        match link_edge(u, p.field) {
            None => Some(no_bond(p.field)),
            Some(e) => match p.nest {
                None => Some(Why::Refused("some needs inner"@)),
                Some(n) => nest_fault(range, e, *n),
            },
        }
    } else {
        match kind_of(u, p.field) {
            None => Some(no_field(p.field)),
            Some(k) => if p.op == Op::Like && !(k == Kind::Text || k == Kind::Link) {
                Some(Why::Refused("like wants a text field"@))
            } else {
                None
            },
        }
    }
}

/// The first fault among predicates, in order.
pub open spec fn preds_fault(u: UnitV, range: Seq<(Seq<char>, UnitV)>, ps: Seq<PredV>) -> Option<Why>
    decreases ps.len(),
{
    if ps.len() == 0 {
        None
    } else {
        match preds_fault(u, range, ps.drop_last()) {
            Some(w) => Some(w),
            None => pred_fault(u, range, ps.last()),
        }
    }
}

/// The first ordering key naming an unknown field.
pub open spec fn sorts_fault(u: UnitV, ss: Seq<SortV>) -> Option<Why>
    decreases ss.len(),
{
    if ss.len() == 0 {
        None
    } else {
        match sorts_fault(u, ss.drop_last()) {
            Some(w) => Some(w),
            None => if kind_of(u, ss.last().field) is None {
                Some(no_field(ss.last().field))
            } else {
                None
            },
        }
    }
}

/// The first link naming an unknown bond.
pub open spec fn links_fault(u: UnitV, ls: Seq<Seq<char>>) -> Option<Why>
    decreases ls.len(),
{
    if ls.len() == 0 {
        None
    } else {
        match links_fault(u, ls.drop_last()) {
            Some(w) => Some(w),
            None => if link_edge(u, ls.last()) is None {
                Some(no_bond(ls.last()))
            } else {
                None
            },
        }
    }
}

/// What is wrong with tree `t` read from unit `u`: predicates first, then
/// ordering keys, then links.
pub open spec fn tree_fault(u: UnitV, range: Seq<(Seq<char>, UnitV)>, t: TreeV) -> Option<Why> {
    match preds_fault(u, range, t.preds) {
        Some(w) => Some(w),
        None => match sorts_fault(u, t.sorts) {
            Some(w) => Some(w),
            None => links_fault(u, t.links),
        },
    }
}

/// The bonds reached by `has` and `some` predicates that name a known bond.
pub open spec fn pred_reach(u: UnitV, ps: Seq<PredV>) -> Seq<EdgeV>
    decreases ps.len(),
{
    if ps.len() == 0 {
        Seq::empty()
    } else {
        let rest = pred_reach(u, ps.drop_last());
        let p = ps.last();
        if (p.op == Op::Has || p.op == Op::Exists) && link_edge(u, p.field) is Some {
            rest.push(link_edge(u, p.field)->0)
        } else {
            rest
        }
    }
}

/// The bonds reached by links that name a known bond.
pub open spec fn link_reach(u: UnitV, ls: Seq<Seq<char>>) -> Seq<EdgeV>
    decreases ls.len(),
{
    if ls.len() == 0 {
        Seq::empty()
    } else {
        let rest = link_reach(u, ls.drop_last());
        if link_edge(u, ls.last()) is Some {
            rest.push(link_edge(u, ls.last())->0)
        } else {
            rest
        }
    }
}

/// Every bond tree `t` reaches from unit `u`: through predicates, then
/// through links.
pub open spec fn reached_view(u: UnitV, t: TreeV) -> Seq<EdgeV> {
    pred_reach(u, t.preds) + link_reach(u, t.links)
}

/// The contents of a list of borrowed bonds.
pub open spec fn refs_view(s: Seq<&Edge>) -> Seq<EdgeV> {
    s.map_values(|e: &Edge| e@)
}

/// The bonds `tree` reaches from `unit`.
pub fn reached<'a>(unit: &'a Unit, tree: &Tree) -> (out: Vec<&'a Edge>)
    ensures
        refs_view(out@) == reached_view(unit@, tree@),
{
    let mut out: Vec<&'a Edge> = Vec::new();
    let preds = tree.preds();
    let mut i: usize = 0;
    while i < preds.len()
        invariant
            i <= preds@.len(),
            refs_view(out@) == pred_reach(unit@, preds_view(preds@).take(i as int)),
        decreases preds@.len() - i,
    {
        let p = &preds[i];
        let ghost before = out@;
        if p.op() == Op::Has || p.op() == Op::Exists {
            match edge(unit, p.field()) {
                Ok(b) => {
                    out.push(b);
                },
                Err(_) => {},
            }
        }
        proof {
            let ps = preds_view(preds@).take(i + 1);
            assert(ps.drop_last() =~= preds_view(preds@).take(i as int));
            assert(ps.last() == p@);
            assert(refs_view(out@) =~= pred_reach(unit@, ps));
        }
        i = i + 1;
    }
    assert(preds_view(preds@).take(preds@.len() as int) =~= tree@.preds);
    let links = tree.links();
    let ghost head = refs_view(out@);
    let mut k: usize = 0;
    while k < links.len()
        invariant
            k <= links@.len(),
            head == pred_reach(unit@, tree@.preds),
            refs_view(out@) == head + link_reach(unit@, texts(links@).take(k as int)),
        decreases links@.len() - k,
    {
        let ghost before = out@;
        proof {
            let ls = texts(links@).take(k + 1);
            assert(ls.drop_last() =~= texts(links@).take(k as int));
            assert(ls.last() == links@[k as int]@);
        }
        match edge(unit, links[k].as_str()) {
            Ok(b) => {
                out.push(b);
                proof {
                    let l = link_reach(unit@, texts(links@).take(k as int));
                    assert(refs_view(out@) =~= refs_view(before).push(b@));
                    assert((head + l).push(b@) =~= head + l.push(b@));
                }
            },
            Err(_) => {
                assert(refs_view(out@) =~= refs_view(before));
            },
        }
        k = k + 1;
    }
    assert(texts(links@).take(links@.len() as int) =~= tree@.links);
    out
}

/// The pair is keyed by `name`.
pub open spec fn keyed(name: Seq<char>) -> spec_fn((Seq<char>, UnitV)) -> bool {
    |x: (Seq<char>, UnitV)| x.0 == name
}

/// The contents of a list of named units.
pub open spec fn range_view(s: Seq<(String, Unit)>) -> Seq<(Seq<char>, UnitV)> {
    s.map_values(|x: (String, Unit)| (x.0@, x.1@))
}

/// The units reached through bonds `es`, each target once, in the order
/// first reached; a target missing from the plan fails.
pub open spec fn range_from(p: Seq<UnitV>, es: Seq<EdgeV>) -> Result<Seq<(Seq<char>, UnitV)>, Why>
    decreases es.len(),
{
    if es.len() == 0 {
        Ok(Seq::empty())
    } else {
        match range_from(p, es.drop_last()) {
            Err(w) => Err(w),
            Ok(r) => {
                let e = es.last();
                match unit_of(p, e.target) {
                    None => Err(Why::Lacks(e.target)),
                    Some(t) => if first_where(r, keyed(e.target)) is Some {
                        Ok(r)
                    } else {
                        Ok(r.push((e.target, t)))
                    },
                }
            },
        }
    }
}

/// The unit kept under `name` in a list of named units.
pub fn range_get<'a>(range: &'a [(String, Unit)], name: &str) -> (r: Option<&'a Unit>)
    ensures
        match first_where(range_view(range@), keyed(name@)) {
            Some(i) => r matches Some(u) && u@ == range_view(range@)[i].1,
            None => r is None,
        },
{
    let ghost rv = range_view(range@);
    let mut i: usize = 0;
    while i < range.len()
        invariant
            i <= range@.len(),
            rv == range_view(range@),
            forall|j: int| 0 <= j < i ==> !keyed(name@)(#[trigger] rv[j]),
        decreases range@.len() - i,
    {
        assert(rv[i as int] == (range@[i as int].0@, range@[i as int].1@));
        if crate::text::same(range[i].0.as_str(), name) {
            proof {
                lemma_first_at(rv, keyed(name@), i as int);
            }
            return Some(&range[i].1);
        }
        i = i + 1;
    }
    proof {
        if first_where(rv, keyed(name@)) is Some {
            let c = first_where(rv, keyed(name@))->0;
            assert(keyed(name@)(rv[c]));
        }
    }
    None
}

/// The units `tree` reaches from `unit`, looked up in `plan`.
pub fn range(plan: &Plan, unit: &Unit, tree: &Tree) -> (r: Result<Vec<(String, Unit)>, Error>)
    ensures
        match range_from(plan@, reached_view(unit@, tree@)) {
            Ok(v) => r matches Ok(x) && range_view(x@) == v,
            Err(w) => r matches Err(e) && told(e, w),
        },
{
    let bonds = reached(unit, tree);
    let ghost es = refs_view(bonds@);
    let mut out: Vec<(String, Unit)> = Vec::new();
    assert(es.take(0) =~= Seq::<EdgeV>::empty());
    assert(range_view(out@) =~= Seq::<(Seq<char>, UnitV)>::empty());
    let mut i: usize = 0;
    while i < bonds.len()
        invariant
            i <= bonds@.len(),
            es == refs_view(bonds@),
            es == reached_view(unit@, tree@),
            range_from(plan@, es.take(i as int)) == Ok::<Seq<(Seq<char>, UnitV)>, Why>(range_view(out@)),
        decreases bonds@.len() - i,
    {
        let b = bonds[i];
        proof {
            lemma_range_step(plan@, es, i as int);
        }
        let target = match plan.find(b.target()) {
            Ok(t) => t,
            Err(e) => {
                proof {
                    lemma_range_fails(plan@, es, i + 1);
                }
                return Err(e);
            },
        };
        if range_get(out.as_slice(), b.target()).is_none() {
            let ghost before = out@;
            out.push((crate::text::own(b.target()), target.dup()));
            assert(range_view(out@) =~= range_view(before).push((b@.target, target@)));
        }
        i = i + 1;
    }
    assert(es.take(bonds@.len() as int) =~= es);
    Ok(out)
}

/// One more bond extends the range as `range_from` says.
proof fn lemma_range_step(p: Seq<UnitV>, es: Seq<EdgeV>, i: int)
    requires
        0 <= i < es.len(),
    ensures
        range_from(p, es.take(i + 1)) == (match range_from(p, es.take(i)) {
            Err(w) => Err(w),
            Ok(r) => match unit_of(p, es[i].target) {
                None => Err(Why::Lacks(es[i].target)),
                Some(t) => if first_where(r, keyed(es[i].target)) is Some {
                    Ok(r)
                } else {
                    Ok(r.push((es[i].target, t)))
                },
            },
        }),
{
    assert(es.take(i + 1).drop_last() =~= es.take(i));
    assert(es.take(i + 1).last() == es[i]);
}

/// Once the range fails on a prefix of the bonds, it fails on all of them
/// with the same fault.
proof fn lemma_range_fails(p: Seq<UnitV>, es: Seq<EdgeV>, n: int)
    requires
        0 <= n <= es.len(),
        range_from(p, es.take(n)) is Err,
    ensures
        range_from(p, es) == range_from(p, es.take(n)),
    decreases es.len() - n,
{
    if n < es.len() {
        assert(es.take(n + 1).drop_last() =~= es.take(n));
        lemma_range_fails(p, es, n + 1);
    } else {
        assert(es.take(n) =~= es);
    }
}

/// A checked query's reach: the unit it reads, under its name, and the
/// units its bonds lead to.
pub struct Scope {
    unit: Unit,
    name: String,
    range: Vec<(String, Unit)>,
}

/// The content of a scope.
pub struct ScopeV {
    pub unit: UnitV,
    pub name: Seq<char>,
    pub range: Seq<(Seq<char>, UnitV)>,
}

impl View for Scope {
    type V = ScopeV;

    closed spec fn view(&self) -> ScopeV {
        ScopeV { unit: self.unit@, name: self.name@, range: range_view(self.range@) }
    }
}

/// The unit kept under `name` in a range.
pub open spec fn range_unit(range: Seq<(Seq<char>, UnitV)>, name: Seq<char>) -> Option<UnitV> {
    match first_where(range, keyed(name)) {
        Some(i) => Some(range[i].1),
        None => None,
    }
}

impl Scope {
    /// The unit read.
    pub fn unit(&self) -> (r: &Unit)
        ensures
            r@ == self@.unit,
    {
        &self.unit
    }

    /// The name of the unit read.
    pub fn name(&self) -> (r: &str)
        ensures
            r@ == self@.name,
    {
        self.name.as_str()
    }

    /// The reached unit named `name`; a unit out of reach is missing.
    pub fn at(&self, name: &str) -> (r: Result<&Unit, Error>)
        ensures
            match range_unit(self@.range, name@) {
                Some(u) => r matches Ok(x) && x@ == u,
                None => r matches Err(e) && told(e, Why::Lacks(name@)),
            },
    {
        match range_get(self.range.as_slice(), name) {
            Some(u) => Ok(u),
            None => Err(Error::Missing(own(name))),
        }
    }

    /// The kind of field `field` seen across `bond`.
    pub fn kind(&self, bond: &Edge, field: &str) -> (r: Result<Kind, Error>)
        ensures
            match bond_kind(self@.range, bond@, field@) {
                Ok(k) => r == Ok::<Kind, Error>(k),
                Err(w) => r matches Err(e) && told(e, w),
            },
    {
        if crate::text::same(field, crate::ddl::KEY) {
            return Ok(Kind::Int);
        }
        let fs = bond.fields();
        match slot_in(fs, field) {
            Some(s) => {
                proof {
                    let i = first_where(slots_view(fs@), slot_named(field@))->0;
                    assert(slots_view(fs@)[i] == fs@[i]@);
                }
                return Ok(s.kind());
            },
            None => {},
        }
        let t = self.at(bond.target())?;
        t.kind(field)
    }

    fn nest(&self, bond: &Edge, nest: &Pred) -> (r: Result<(), Error>)
        ensures
            match nest_fault(self@.range, bond@, nest@) {
                None => r is Ok,
                Some(w) => r matches Err(e) && told(e, w),
            },
    {
        if nest.op() == Op::Has || nest.op() == Op::Exists {
            return Err(adapt("nested bond pred denied"));
        }
        match self.kind(bond, nest.field()) {
            Ok(_) => Ok(()),
            Err(e) => Err(e),
        }
    }

    fn cell(&self, pred: &Pred) -> (r: Result<(), Error>)
        requires
            pred@.op != Op::Has,
            pred@.op != Op::Exists,
        ensures
            match pred_fault(self@.unit, self@.range, pred@) {
                None => r is Ok,
                Some(w) => r matches Err(e) && told(e, w),
            },
    {
        let kind = match self.unit.kind(pred.field()) {
            Ok(k) => k,
            Err(e) => return Err(e),
        };
        if pred.op() == Op::Like && !(kind == Kind::Text || kind == Kind::Link) {
            return Err(adapt("like wants a text field"));
        }
        Ok(())
    }

    fn pred(&self, pred: &Pred) -> (r: Result<(), Error>)
        ensures
            match pred_fault(self@.unit, self@.range, pred@) {
                None => r is Ok,
                Some(w) => r matches Err(e) && told(e, w),
            },
    {
        if pred.op() == Op::Has {
            match edge(&self.unit, pred.field()) {
                Ok(_) => Ok(()),
                Err(e) => Err(e),
            }
        } else if pred.op() == Op::Exists {
            let bond = match edge(&self.unit, pred.field()) {
                Ok(b) => b,
                Err(e) => return Err(e),
            };
            match pred.nest() {
                None => Err(adapt("some needs inner")),
                Some(n) => self.nest(bond, n),
            }
        } else {
            self.cell(pred)
        }
    }

    /// Checks every field and bond `tree` names: predicates first, then
    /// ordering keys, then links.
    pub fn check(&self, tree: &Tree) -> (r: Result<(), Error>)
        ensures
            match tree_fault(self@.unit, self@.range, tree@) {
                None => r is Ok,
                Some(w) => r matches Err(e) && told(e, w),
            },
    {
        let preds = tree.preds();
        let ghost pv = preds_view(preds@);
        let mut i: usize = 0;
        assert(pv.take(0) =~= Seq::<PredV>::empty());
        while i < preds.len()
            invariant
                i <= preds@.len(),
                pv == preds_view(preds@),
                pv == tree@.preds,
                preds_fault(self@.unit, self@.range, pv.take(i as int)) is None,
            decreases preds@.len() - i,
        {
            proof {
                assert(pv.take(i + 1).drop_last() =~= pv.take(i as int));
                assert(pv.take(i + 1).last() == preds@[i as int]@);
            }
            match self.pred(&preds[i]) {
                Ok(()) => {},
                Err(e) => {
                    proof {
                        lemma_preds_fault_stays(self@.unit, self@.range, pv, i + 1);
                    }
                    return Err(e);
                },
            }
            i = i + 1;
        }
        assert(pv.take(preds@.len() as int) =~= tree@.preds);
        let sorts = tree.sorts();
        let ghost sv = sorts_view(sorts@);
        let mut j: usize = 0;
        assert(sv.take(0) =~= Seq::<SortV>::empty());
        while j < sorts.len()
            invariant
                j <= sorts@.len(),
                sv == sorts_view(sorts@),
                sv == tree@.sorts,
                preds_fault(self@.unit, self@.range, tree@.preds) is None,
                sorts_fault(self@.unit, sv.take(j as int)) is None,
            decreases sorts@.len() - j,
        {
            proof {
                assert(sv.take(j + 1).drop_last() =~= sv.take(j as int));
                assert(sv.take(j + 1).last() == sorts@[j as int]@);
            }
            match self.unit.kind(sorts[j].field()) {
                Ok(_) => {},
                Err(e) => {
                    proof {
                        lemma_sorts_fault_stays(self@.unit, sv, j + 1);
                    }
                    return Err(e);
                },
            }
            j = j + 1;
        }
        assert(sv.take(sorts@.len() as int) =~= tree@.sorts);
        let links = tree.links();
        let ghost lv = texts(links@);
        let mut k: usize = 0;
        assert(lv.take(0) =~= Seq::<Seq<char>>::empty());
        while k < links.len()
            invariant
                k <= links@.len(),
                lv == texts(links@),
                lv == tree@.links,
                preds_fault(self@.unit, self@.range, tree@.preds) is None,
                sorts_fault(self@.unit, tree@.sorts) is None,
                links_fault(self@.unit, lv.take(k as int)) is None,
            decreases links@.len() - k,
        {
            proof {
                assert(lv.take(k + 1).drop_last() =~= lv.take(k as int));
                assert(lv.take(k + 1).last() == links@[k as int]@);
            }
            match edge(&self.unit, links[k].as_str()) {
                Ok(_) => {},
                Err(e) => {
                    proof {
                        lemma_links_fault_stays(self@.unit, lv, k + 1);
                    }
                    return Err(e);
                },
            }
            k = k + 1;
        }
        assert(lv.take(links@.len() as int) =~= tree@.links);
        Ok(())
    }
}

/// A fault among the first predicates is the fault of them all.
proof fn lemma_preds_fault_stays(u: UnitV, range: Seq<(Seq<char>, UnitV)>, ps: Seq<PredV>, n: int)
    requires
        0 <= n <= ps.len(),
        preds_fault(u, range, ps.take(n)) is Some,
    ensures
        preds_fault(u, range, ps) == preds_fault(u, range, ps.take(n)),
    decreases ps.len() - n,
{
    if n < ps.len() {
        assert(ps.take(n + 1).drop_last() =~= ps.take(n));
        lemma_preds_fault_stays(u, range, ps, n + 1);
    } else {
        assert(ps.take(n) =~= ps);
    }
}

/// A fault among the first ordering keys is the fault of them all.
proof fn lemma_sorts_fault_stays(u: UnitV, ss: Seq<SortV>, n: int)
    requires
        0 <= n <= ss.len(),
        sorts_fault(u, ss.take(n)) is Some,
    ensures
        sorts_fault(u, ss) == sorts_fault(u, ss.take(n)),
    decreases ss.len() - n,
{
    if n < ss.len() {
        assert(ss.take(n + 1).drop_last() =~= ss.take(n));
        lemma_sorts_fault_stays(u, ss, n + 1);
    } else {
        assert(ss.take(n) =~= ss);
    }
}

/// A fault among the first links is the fault of them all.
proof fn lemma_links_fault_stays(u: UnitV, ls: Seq<Seq<char>>, n: int)
    requires
        0 <= n <= ls.len(),
        links_fault(u, ls.take(n)) is Some,
    ensures
        links_fault(u, ls) == links_fault(u, ls.take(n)),
    decreases ls.len() - n,
{
    if n < ls.len() {
        assert(ls.take(n + 1).drop_last() =~= ls.take(n));
        lemma_links_fault_stays(u, ls, n + 1);
    } else {
        assert(ls.take(n) =~= ls);
    }
}

/// What checking tree `t` against the plan gives: its scope, or the first
/// fault.
pub open spec fn analyzed(p: Seq<UnitV>, t: TreeV) -> Result<ScopeV, Why> {
    match unit_of(p, t.from) {
        None => Err(Why::Lacks(t.from)),
        Some(u) => match range_from(p, reached_view(u, t)) {
            Err(w) => Err(w),
            Ok(r) => match tree_fault(u, r, t) {
                Some(w) => Err(w),
                None => Ok(ScopeV { unit: u, name: u.name, range: r }),
            },
        },
    }
}

proof fn lemma_sorts_known(u: UnitV, ss: Seq<SortV>)
    ensures
        sorts_fault(u, ss) is None <==> forall|i: int| 0 <= i < ss.len() ==> kind_of(u, #[trigger] ss[i].field) is Some,
    decreases ss.len(),
{
    if ss.len() > 0 {
        lemma_sorts_known(u, ss.drop_last());
        if sorts_fault(u, ss) is None {
            assert forall|i: int| 0 <= i < ss.len() implies kind_of(u, #[trigger] ss[i].field) is Some by {
                if i < ss.len() - 1 {
                    assert(ss.drop_last()[i] == ss[i]);
                }
            }
        } else {
            if sorts_fault(u, ss.drop_last()) is Some {
                let i = choose|i: int| 0 <= i < ss.drop_last().len() && !(kind_of(u, #[trigger] ss.drop_last()[i].field) is Some);
                assert(ss[i] == ss.drop_last()[i]);
            } else {
                assert(!(kind_of(u, ss[ss.len() - 1].field) is Some));
            }
        }
    }
}

proof fn lemma_links_known(u: UnitV, ls: Seq<Seq<char>>)
    requires
        links_fault(u, ls) is None,
    ensures
        forall|i: int| 0 <= i < ls.len() ==> link_edge(u, #[trigger] ls[i]) is Some,
    decreases ls.len(),
{
    if ls.len() > 0 {
        lemma_links_known(u, ls.drop_last());
        assert forall|i: int| 0 <= i < ls.len() implies link_edge(u, #[trigger] ls[i]) is Some by {
            if i < ls.len() - 1 {
                assert(ls.drop_last()[i] == ls[i]);
            }
        }
    }
}

/// A query is accepted only when every ordering key names a field of its
/// unit (or the key) and every link names a bond of it; a query with an
/// ordering key, at any place, that names no field is refused.
pub proof fn lemma_analyzed_names_known(p: Seq<UnitV>, t: TreeV)
    ensures
        analyzed(p, t) is Ok ==> unit_of(p, t.from) is Some && (forall|i: int|
            0 <= i < t.sorts.len() ==> kind_of(unit_of(p, t.from)->0, #[trigger] t.sorts[i].field) is Some)
            && (forall|i: int| 0 <= i < t.links.len() ==> link_edge(unit_of(p, t.from)->0, #[trigger] t.links[i]) is Some),
        forall|i: int| unit_of(p, t.from) is Some && 0 <= i < t.sorts.len() && kind_of(
            unit_of(p, t.from)->0,
            #[trigger] t.sorts[i].field,
        ) is None ==> analyzed(p, t) is Err,
{
    if let Some(u) = unit_of(p, t.from) {
        lemma_sorts_known(u, t.sorts);
        if analyzed(p, t) is Ok {
            lemma_links_known(u, t.links);
        }
    }
}

/// The name unit `unit` is kept under; an unknown unit is missing.
pub fn resolve(plan: &Plan, unit: &str) -> (r: Result<String, Error>)
    ensures
        match unit_of(plan@, unit@) {
            Some(u) => r matches Ok(n) && n@ == u.name,
            None => r matches Err(e) && told(e, Why::Lacks(unit@)),
        },
{
    match plan.find(unit) {
        Ok(u) => Ok(u.key()),
        Err(e) => Err(e),
    }
}

/// Checks `tree` against `plan` and gives the scope it reads.
pub fn analyze(plan: &Plan, tree: &Tree) -> (r: Result<Scope, Error>)
    ensures
        match analyzed(plan@, tree@) {
            Ok(v) => r matches Ok(s) && s@ == v,
            Err(w) => r matches Err(e) && told(e, w),
        },
{
    let name = resolve(plan, tree.from())?;
    let unit = match plan.find(tree.from()) {
        Ok(u) => u.dup(),
        Err(e) => return Err(e),
    };
    let range = range(plan, &unit, tree)?;
    let scope = Scope { unit, name, range };
    match scope.check(tree) {
        Ok(()) => Ok(scope),
        Err(e) => Err(e),
    }
}

/// The inner predicate of a `some`.
pub fn inner(pred: &Pred) -> (r: Result<&Pred, Error>)
    ensures
        match pred@.nest {
            Some(n) => r matches Ok(x) && x@ == *n,
            None => r matches Err(e) && told(e, Why::Refused("some needs inner"@)),
        },
{
    match pred.nest() {
        Some(n) => Ok(n),
        None => Err(adapt("some needs inner")),
    }
}

/// The first value that does not fit kind `k`, as its refusal.
pub open spec fn values_fault(k: Kind, vs: Seq<Seq<char>>) -> Option<Why>
    decreases vs.len(),
{
    if vs.len() == 0 {
        None
    } else {
        match values_fault(k, vs.drop_last()) {
            Some(w) => Some(w),
            None => if fits_kind(k, vs.last()) {
                None
            } else {
                Some(crate::atom::misfit(k, vs.last()))
            },
        }
    }
}

/// A fault among the first values is the fault of them all.
proof fn lemma_values_fault_stays(k: Kind, vs: Seq<Seq<char>>, n: int)
    requires
        0 <= n <= vs.len(),
        values_fault(k, vs.take(n)) is Some,
    ensures
        values_fault(k, vs) == values_fault(k, vs.take(n)),
    decreases vs.len() - n,
{
    if n < vs.len() {
        assert(vs.take(n + 1).drop_last() =~= vs.take(n));
        lemma_values_fault_stays(k, vs, n + 1);
    } else {
        assert(vs.take(n) =~= vs);
    }
}

/// Checks that every value fits `kind`.
pub fn fits(kind: Kind, values: &[String]) -> (r: Result<(), Error>)
    ensures
        match values_fault(kind, texts(values@)) {
            None => r is Ok,
            Some(w) => r matches Err(e) && told(e, w),
        },
{
    let ghost tv = texts(values@);
    let mut i: usize = 0;
    assert(tv.take(0) =~= Seq::<Seq<char>>::empty());
    while i < values.len()
        invariant
            i <= values@.len(),
            tv == texts(values@),
            values_fault(kind, tv.take(i as int)) is None,
        decreases values@.len() - i,
    {
        proof {
            assert(tv.take(i + 1).drop_last() =~= tv.take(i as int));
            assert(tv.take(i + 1).last() == values@[i as int]@);
        }
        match kind.fit(values[i].as_str()) {
            Ok(()) => {},
            Err(e) => {
                proof {
                    lemma_values_fault_stays(kind, tv, i + 1);
                }
                return Err(e);
            },
        }
        i = i + 1;
    }
    assert(tv.take(values@.len() as int) =~= tv);
    Ok(())
}

/// What is wrong with the values predicate `p` compares with, if anything.
pub open spec fn weigh_fault(u: UnitV, range: Seq<(Seq<char>, UnitV)>, p: PredV) -> Option<Why> {
    if p.op == Op::Has {
        if int_of(first_value(p)) is None {
            Some(Why::Refused("id needs integer"@))
        } else {
            None
        }
    } else if p.op == Op::Exists {
        match link_edge(u, p.field) {
            None => Some(no_bond(p.field)),
            Some(e) => match p.nest {
                None => Some(Why::Refused("some needs inner"@)),
                Some(n) => match bond_kind(range, e, n.field) {
                    Err(w) => Some(w),
                    Ok(k) => values_fault(k, n.values),
                },
            },
        }
    } else if p.op == Op::Null {
        None
    } else {
        match kind_of(u, p.field) {
            None => Some(no_field(p.field)),
            Some(k) => values_fault(k, p.values),
        }
    }
}

/// The first predicate whose values do not fit, as its fault.
pub open spec fn weighs_fault(u: UnitV, range: Seq<(Seq<char>, UnitV)>, ps: Seq<PredV>) -> Option<Why>
    decreases ps.len(),
{
    if ps.len() == 0 {
        None
    } else {
        match weighs_fault(u, range, ps.drop_last()) {
            Some(w) => Some(w),
            None => weigh_fault(u, range, ps.last()),
        }
    }
}

/// A fault among the first predicates is the fault of them all.
proof fn lemma_weighs_fault_stays(u: UnitV, range: Seq<(Seq<char>, UnitV)>, ps: Seq<PredV>, n: int)
    requires
        0 <= n <= ps.len(),
        weighs_fault(u, range, ps.take(n)) is Some,
    ensures
        weighs_fault(u, range, ps) == weighs_fault(u, range, ps.take(n)),
    decreases ps.len() - n,
{
    if n < ps.len() {
        assert(ps.take(n + 1).drop_last() =~= ps.take(n));
        lemma_weighs_fault_stays(u, range, ps, n + 1);
    } else {
        assert(ps.take(n) =~= ps);
    }
}

impl Scope {
    fn weigh(&self, pred: &Pred) -> (r: Result<(), Error>)
        ensures
            match weigh_fault(self@.unit, self@.range, pred@) {
                None => r is Ok,
                Some(w) => r matches Err(e) && told(e, w),
            },
    {
        if pred.op() == Op::Has {
            match key_text(pred.value()) {
                Ok(_) => Ok(()),
                Err(e) => Err(e),
            }
        } else if pred.op() == Op::Exists {
            let bond = edge(&self.unit, pred.field())?;
            let nest = inner(pred)?;
            let kind = self.kind(bond, nest.field())?;
            fits(kind, nest.values())
        } else if pred.op() == Op::Null {
            Ok(())
        } else {
            let kind = self.unit.kind(pred.field())?;
            fits(kind, pred.values())
        }
    }

    /// Checks that every value `tree` compares with fits its field.
    pub fn verify(&self, tree: &Tree) -> (r: Result<(), Error>)
        ensures
            match weighs_fault(self@.unit, self@.range, tree@.preds) {
                None => r is Ok,
                Some(w) => r matches Err(e) && told(e, w),
            },
    {
        let preds = tree.preds();
        let ghost pv = preds_view(preds@);
        let mut i: usize = 0;
        assert(pv.take(0) =~= Seq::<PredV>::empty());
        while i < preds.len()
            invariant
                i <= preds@.len(),
                pv == preds_view(preds@),
                pv == tree@.preds,
                weighs_fault(self@.unit, self@.range, pv.take(i as int)) is None,
            decreases preds@.len() - i,
        {
            proof {
                assert(pv.take(i + 1).drop_last() =~= pv.take(i as int));
                assert(pv.take(i + 1).last() == preds@[i as int]@);
            }
            match self.weigh(&preds[i]) {
                Ok(()) => {},
                Err(e) => {
                    proof {
                        lemma_weighs_fault_stays(self@.unit, self@.range, pv, i + 1);
                    }
                    return Err(e);
                },
            }
            i = i + 1;
        }
        assert(pv.take(preds@.len() as int) =~= tree@.preds);
        Ok(())
    }
}

/// Each text sorts strictly before the next.
pub open spec fn ascending(s: Seq<Seq<char>>) -> bool {
    forall|i: int, j: int| 0 <= i < j < s.len() ==> text_lt(#[trigger] s[i], #[trigger] s[j])
}

/// Adds `s` to a strictly sorted list of names, keeping it strictly sorted.
fn enlist(v: &mut Vec<String>, s: String)
    requires
        ascending(texts(old(v)@)),
    ensures
        ascending(texts(final(v)@)),
        texts(final(v)@).to_set() == texts(old(v)@).to_set().insert(s@),
{
    let sc = chars_of(s.as_str());
    let ghost o = texts(v@);
    let mut j: usize = 0;
    let mut go = true;
    while go && j < v.len()
        invariant
            j <= v@.len(),
            o == texts(v@),
            sc@ == s@,
            forall|q: int| 0 <= q < j ==> text_lt(#[trigger] o[q], s@),
            !go ==> j < o.len() && !text_lt(o[j as int], s@),
        decreases v@.len() - j + (if go { 1int } else { 0int }),
    {
        let vc = chars_of(v[j].as_str());
        if before(vc.as_slice(), sc.as_slice()) {
            j = j + 1;
        } else {
            go = false;
        }
    }
    if j < v.len() && same(v[j].as_str(), s.as_str()) {
        proof {
            assert(o[j as int] == s@);
            assert(o.to_set().insert(s@) =~= o.to_set());
        }
        return;
    }
    proof {
        if j < o.len() {
            assert(!text_lt(o[j as int], s@));
            assert(o[j as int] != s@);
            lemma_text_lt_total(o[j as int], s@);
        }
    }
    v.insert(j, s);
    proof {
        let n = texts(v@);
        assert(n =~= o.insert(j as int, s@));
        assert forall|a: int, b: int| 0 <= a < b < n.len() implies text_lt(#[trigger] n[a], #[trigger] n[b]) by {
            if a < j && b == j {
            } else if a < j && b > j {
                assert(n[b] == o[b - 1]);
                if b - 1 > j {
                    assert(text_lt(o[j as int], o[b - 1]));
                    lemma_text_lt_transitive(s@, o[j as int], o[b - 1]);
                }
                lemma_text_lt_transitive(o[a], s@, o[b - 1]);
            } else if a == j {
                assert(n[b] == o[b - 1]);
                if b - 1 > j {
                    assert(text_lt(o[j as int], o[b - 1]));
                    lemma_text_lt_transitive(s@, o[j as int], o[b - 1]);
                }
            } else if a > j {
                assert(n[a] == o[a - 1] && n[b] == o[b - 1]);
            } else {
                assert(n[a] == o[a] && n[b] == o[b]);
            }
        }
        assert forall|x: Seq<char>| n.to_set().contains(x) <==> o.to_set().insert(s@).contains(x) by {
            if n.contains(x) {
                let i = choose|i: int| 0 <= i < n.len() && n[i] == x;
                if i < j {
                    assert(o[i] == x);
                } else if i > j {
                    assert(o[i - 1] == x);
                }
            }
            if o.contains(x) {
                let i = choose|i: int| 0 <= i < o.len() && o[i] == x;
                if i < j {
                    assert(n[i] == x);
                } else {
                    assert(n[i + 1] == x);
                }
            }
            if x == s@ {
                assert(n[j as int] == x);
            }
        }
        assert(n.to_set() =~= o.to_set().insert(s@));
    }
}

/// Pushing onto a sequence adds to its set.
proof fn lemma_push_set(s: Seq<Seq<char>>, x: Seq<char>)
    ensures
        s.push(x).to_set() == s.to_set().insert(x),
{
    let n = s.push(x);
    assert forall|y: Seq<char>| n.to_set().contains(y) <==> s.to_set().insert(x).contains(y) by {
        if n.contains(y) {
            let i = choose|i: int| 0 <= i < n.len() && n[i] == y;
            if i < s.len() {
                assert(s[i] == y);
            }
        }
        if s.contains(y) {
            let i = choose|i: int| 0 <= i < s.len() && s[i] == y;
            assert(n[i] == y);
        }
        if y == x {
            assert(n[s.len() as int] == y);
        }
    }
    assert(n.to_set() =~= s.to_set().insert(x));
}

/// The names of the targets of bonds `es`, in order; a target missing from
/// the plan fails.
pub open spec fn targets_of(p: Seq<UnitV>, es: Seq<EdgeV>) -> Result<Seq<Seq<char>>, Why>
    decreases es.len(),
{
    if es.len() == 0 {
        Ok(Seq::empty())
    } else {
        match targets_of(p, es.drop_last()) {
            Err(w) => Err(w),
            Ok(r) => match unit_of(p, es.last().target) {
                None => Err(Why::Lacks(es.last().target)),
                Some(t) => Ok(r.push(t.name)),
            },
        }
    }
}

/// A failure on the first bonds is the failure on them all.
proof fn lemma_targets_fail(p: Seq<UnitV>, es: Seq<EdgeV>, n: int)
    requires
        0 <= n <= es.len(),
        targets_of(p, es.take(n)) is Err,
    ensures
        targets_of(p, es) == targets_of(p, es.take(n)),
    decreases es.len() - n,
{
    if n < es.len() {
        assert(es.take(n + 1).drop_last() =~= es.take(n));
        lemma_targets_fail(p, es, n + 1);
    } else {
        assert(es.take(n) =~= es);
    }
}

/// The names of the units tree `t` touches: the unit it reads and every
/// unit its bonds reach.
pub open spec fn involved_names(p: Seq<UnitV>, t: TreeV) -> Result<Set<Seq<char>>, Why> {
    match unit_of(p, t.from) {
        None => Err(Why::Lacks(t.from)),
        Some(u) => match targets_of(p, reached_view(u, t)) {
            Err(w) => Err(w),
            Ok(ns) => Ok(ns.to_set().insert(u.name)),
        },
    }
}

impl Tree {
    /// The names of the units the query touches, sorted, each once.
    pub fn involved(&self, plan: &Plan) -> (r: Result<Vec<String>, Error>)
        ensures
            match involved_names(plan@, self@) {
                Ok(names) => r matches Ok(v) && ascending(texts(v@)) && texts(v@).to_set() == names,
                Err(w) => r matches Err(e) && told(e, w),
            },
    {
        let unit = plan.find(self.from())?;
        let mut out: Vec<String> = Vec::new();
        proof {
            assert(texts(out@) =~= Seq::<Seq<char>>::empty());
            assert(texts(out@).to_set() =~= Set::<Seq<char>>::empty());
        }
        enlist(&mut out, unit.key());
        let bonds = reached(unit, self);
        let ghost es = refs_view(bonds@);
        let mut i: usize = 0;
        assert(es.take(0) =~= Seq::<EdgeV>::empty());
        while i < bonds.len()
            invariant
                i <= bonds@.len(),
                es == refs_view(bonds@),
                es == reached_view(unit@, self@),
                unit_of(plan@, self@.from) == Some(unit@),
                ascending(texts(out@)),
                targets_of(plan@, es.take(i as int)) matches Ok(ns)
                    && texts(out@).to_set() == ns.to_set().insert(unit@.name),
            decreases bonds@.len() - i,
        {
            let b = bonds[i];
            proof {
                assert(es.take(i + 1).drop_last() =~= es.take(i as int));
                assert(es.take(i + 1).last() == b@);
            }
            let t = match plan.find(b.target()) {
                Ok(t) => t,
                Err(e) => {
                    proof {
                        lemma_targets_fail(plan@, es, i + 1);
                    }
                    return Err(e);
                },
            };
            let ghost ns = match targets_of(plan@, es.take(i as int)) {
                Ok(x) => x,
                Err(_) => Seq::empty(),
            };
            enlist(&mut out, t.key());
            proof {
                lemma_push_set(ns, t@.name);
                assert(ns.to_set().insert(unit@.name).insert(t@.name)
                    =~= ns.push(t@.name).to_set().insert(unit@.name));
            }
            i = i + 1;
        }
        assert(es.take(bonds@.len() as int) =~= es);
        Ok(out)
    }
}

} // verus!
