//! The plan: the units a model declares, with their fields and bonds, as
//! the engine reads them.
use vstd::prelude::*;
use crate::atom::Kind;
use crate::bond;
use crate::error::{Error, adapt2, missing, refused};
use crate::text::{own, same};
use crate::estate::guard::{Rule, RuleV, open_rule};
use crate::spec::{Only, OnlyV};

verus! {

/// The first place in `s` whose item meets `p`.
pub open spec fn first_where<A>(s: Seq<A>, p: spec_fn(A) -> bool) -> Option<int> {
    if exists|i: int| 0 <= i < s.len() && p(s[i]) && forall|j: int| 0 <= j < i ==> !p(s[j]) {
        Some(choose|i: int| 0 <= i < s.len() && p(s[i]) && forall|j: int| 0 <= j < i ==> !p(s[j]))
    } else {
        None
    }
}

/// A place that meets `p` with none before it is the first such place.
pub proof fn lemma_first_at<A>(s: Seq<A>, p: spec_fn(A) -> bool, i: int)
    requires
        0 <= i < s.len(),
        p(s[i]),
        forall|j: int| 0 <= j < i ==> !p(s[j]),
    ensures
        first_where(s, p) == Some(i),
{
    let c = choose|c: int| 0 <= c < s.len() && p(s[c]) && forall|j: int| 0 <= j < c ==> !p(s[j]);
    assert(0 <= c < s.len() && p(s[c]) && forall|j: int| 0 <= j < c ==> !p(s[j]));
    if c < i {
        assert(!p(s[c]));
    } else if c > i {
        assert(!p(s[i]));
    }
}

/// When some place meets `p`, there is a first one, no later than it.
pub proof fn lemma_first_some<A>(s: Seq<A>, p: spec_fn(A) -> bool, i: int)
    requires
        0 <= i < s.len(),
        p(s[i]),
    ensures
        first_where(s, p) matches Some(c) && c <= i,
    decreases i,
{
    if exists|j: int| 0 <= j < i && p(s[j]) {
        let j = choose|j: int| 0 <= j < i && p(s[j]);
        lemma_first_some(s, p, j);
    } else {
        lemma_first_at(s, p, i);
    }
}

/// With no place meeting `p` there is no first one.
pub proof fn lemma_first_none<A>(s: Seq<A>, p: spec_fn(A) -> bool)
    requires
        forall|j: int| 0 <= j < s.len() ==> !p(s[j]),
    ensures
        first_where(s, p) is None,
{
}

/// A scalar field of a unit or of a bond; a needed field may not be null.
#[derive(Debug)]
pub struct Slot {
    name: String,
    kind: Kind,
    need: bool,
    rule: Rule,
    serial: Option<String>,
    only: Only,
}

/// The content of a field.
pub struct SlotV {
    pub name: Seq<char>,
    pub kind: Kind,
    pub need: bool,
    pub rule: RuleV,
    /// For a serial field, the name of the field or bond that scopes its
    /// numbering.
    pub serial: Option<Seq<char>>,
    /// Which rows the field's value must be unique among.
    pub only: OnlyV,
}

/// The text of an optional string.
pub open spec fn opt_text(o: Option<String>) -> Option<Seq<char>> {
    match o {
        Some(s) => Some(s@),
        None => None,
    }
}

impl View for Slot {
    type V = SlotV;

    closed spec fn view(&self) -> SlotV {
        SlotV {
            name: self.name@,
            kind: self.kind,
            need: self.need,
            rule: self.rule@,
            serial: opt_text(self.serial),
            only: self.only@,
        }
    }
}

/// The contents of a list of fields.
pub open spec fn slots_view(s: Seq<Slot>) -> Seq<SlotV> {
    s.map_values(|x: Slot| x@)
}

/// The field is named `name`.
pub open spec fn slot_named(name: Seq<char>) -> spec_fn(SlotV) -> bool {
    |s: SlotV| s.name == name
}

impl Slot {
    /// A field under no law.
    pub fn make(name: String, kind: Kind, need: bool) -> (r: Slot)
        ensures
            r@ == (SlotV { name: name@, kind, need, rule: open_rule(), serial: None, only: OnlyV::Free }),
    {
        Slot { name, kind, need, rule: Rule::open(), serial: None, only: Only::Free }
    }

    /// A serial integer field, numbered within each value of the field or
    /// bond `scope`.
    pub fn numbered(name: String, need: bool, scope: String) -> (r: Slot)
        ensures
            r@ == (SlotV { name: name@, kind: Kind::Int, need, rule: open_rule(), serial: Some(scope@), only: OnlyV::Free }),
    {
        Slot { name, kind: Kind::Int, need, rule: Rule::open(), serial: Some(scope), only: Only::Free }
    }

    /// The field, unique among the rows `only` names.
    pub fn sole(self, only: Only) -> (r: Slot)
        ensures
            r@ == (SlotV { only: only@, ..self@ }),
    {
        Slot { only, ..self }
    }

    /// Which rows the field's value must be unique among.
    pub fn only(&self) -> (r: &Only)
        ensures
            r@ == self@.only,
    {
        &self.only
    }

    /// For a serial field, the name of the field or bond that scopes it.
    pub fn serial(&self) -> (r: Option<&str>)
        ensures
            match r {
                Some(t) => self@.serial == Some(t@),
                None => self@.serial is None,
            },
    {
        match &self.serial {
            Some(t) => Some(t.as_str()),
            None => None,
        }
    }

    /// A field under the law `rule`.
    pub fn ruled(name: String, kind: Kind, need: bool, rule: Rule) -> (r: Slot)
        ensures
            r@ == (SlotV { name: name@, kind, need, rule: rule@, serial: None, only: OnlyV::Free }),
    {
        Slot { name, kind, need, rule, serial: None, only: Only::Free }
    }

    /// The field's law.
    pub fn rule(&self) -> (r: &Rule)
        ensures
            r@ == self@.rule,
    {
        &self.rule
    }

    pub fn name(&self) -> (r: &str)
        ensures
            r@ == self@.name,
    {
        self.name.as_str()
    }

    pub fn kind(&self) -> (r: Kind)
        ensures
            r == self@.kind,
    {
        self.kind
    }

    /// Whether the field may not be null.
    pub fn need(&self) -> (r: bool)
        ensures
            r == self@.need,
    {
        self.need
    }

    pub fn dup(&self) -> (r: Slot)
        ensures
            r@ == self@,
    {
        let serial = match &self.serial {
            Some(t) => Some(t.clone()),
            None => None,
        };
        let only = match &self.only {
            Only::Free => Only::Free,
            Only::All => Only::All,
            Only::Per(t) => Only::Per(t.clone()),
        };
        Slot { name: self.name.clone(), kind: self.kind, need: self.need, rule: self.rule.dup(), serial, only }
    }
}

/// Copies a list of fields.
pub fn dup_slots(v: &[Slot]) -> (out: Vec<Slot>)
    ensures
        slots_view(out@) == slots_view(v@),
{
    let mut out: Vec<Slot> = Vec::new();
    let mut i: usize = 0;
    while i < v.len()
        invariant
            i <= v@.len(),
            slots_view(out@) =~= slots_view(v@.take(i as int)),
        decreases v@.len() - i,
    {
        out.push(v[i].dup());
        i = i + 1;
        assert(slots_view(v@.take(i as int)) =~= slots_view(v@.take(i - 1)).push(v@[i - 1]@));
    }
    assert(v@.take(v@.len() as int) =~= v@);
    out
}

/// Finds the field named `name` in a list of fields.
pub fn slot_in<'a>(v: &'a [Slot], name: &str) -> (r: Option<&'a Slot>)
    ensures
        match first_where(slots_view(v@), slot_named(name@)) {
            Some(i) => r matches Some(s) && s@ == v@[i]@,
            None => r is None,
        },
{
    let ghost sv = slots_view(v@);
    let mut i: usize = 0;
    while i < v.len()
        invariant
            i <= v@.len(),
            sv == slots_view(v@),
            forall|j: int| 0 <= j < i ==> !slot_named(name@)(#[trigger] sv[j]),
        decreases v@.len() - i,
    {
        if same(v[i].name(), name) {
            proof {
                lemma_first_at(sv, slot_named(name@), i as int);
            }
            return Some(&v[i]);
        }
        i = i + 1;
    }
    proof {
        lemma_first_none(sv, slot_named(name@));
    }
    None
}

/// A bond of a unit: a relation to the target unit, with fields of its own
/// on each tie, and whether it anchors the row (`root`) or names its
/// members (`crew`).
#[derive(Debug)]
pub struct Edge {
    name: String,
    kind: bond::Kind,
    target: String,
    fields: Vec<Slot>,
    root: bool,
    crew: bool,
    need: bool,
}

/// The content of a bond.
pub struct EdgeV {
    pub name: Seq<char>,
    pub kind: bond::Kind,
    pub target: Seq<char>,
    pub fields: Seq<SlotV>,
    pub root: bool,
    pub crew: bool,
    pub need: bool,
}

impl View for Edge {
    type V = EdgeV;

    closed spec fn view(&self) -> EdgeV {
        EdgeV {
            name: self.name@,
            kind: self.kind,
            target: self.target@,
            fields: slots_view(self.fields@),
            root: self.root,
            crew: self.crew,
            need: self.need,
        }
    }
}

/// The contents of a list of bonds.
pub open spec fn edges_view(s: Seq<Edge>) -> Seq<EdgeV> {
    s.map_values(|x: Edge| x@)
}

impl Edge {
    pub fn make(
        name: String,
        kind: bond::Kind,
        target: String,
        fields: Vec<Slot>,
        root: bool,
        crew: bool,
    ) -> (r: Edge)
        ensures
            r@ == (EdgeV {
                name: name@,
                kind,
                target: target@,
                fields: slots_view(fields@),
                root,
                crew,
                need: false,
            }),
    {
        Edge { name, kind, target, fields, root, crew, need: false }
    }

    /// The same bond, needed: a row must name its other end.
    pub fn needed(self) -> (r: Edge)
        ensures
            r@ == (EdgeV { need: true, ..self@ }),
    {
        let mut e = self;
        e.need = true;
        e
    }

    /// Whether a row must name the bond's other end.
    pub fn need(&self) -> (r: bool)
        ensures
            r == self@.need,
    {
        self.need
    }

    pub fn name(&self) -> (r: &str)
        ensures
            r@ == self@.name,
    {
        self.name.as_str()
    }

    pub fn kind(&self) -> (r: bond::Kind)
        ensures
            r == self@.kind,
    {
        self.kind
    }

    pub fn target(&self) -> (r: &str)
        ensures
            r@ == self@.target,
    {
        self.target.as_str()
    }

    pub fn fields(&self) -> (r: &[Slot])
        ensures
            slots_view(r@) == self@.fields,
    {
        self.fields.as_slice()
    }

    /// Whether the bond anchors its row to the target.
    pub fn root(&self) -> (r: bool)
        ensures
            r == self@.root,
    {
        self.root
    }

    /// Whether the bond names the members of its target.
    pub fn crew(&self) -> (r: bool)
        ensures
            r == self@.crew,
    {
        self.crew
    }

    pub fn dup(&self) -> (r: Edge)
        ensures
            r@ == self@,
    {
        Edge {
            name: self.name.clone(),
            kind: self.kind,
            target: self.target.clone(),
            fields: dup_slots(self.fields.as_slice()),
            root: self.root,
            crew: self.crew,
            need: self.need,
        }
    }
}

/// Copies a list of bonds.
pub fn dup_edges(v: &[Edge]) -> (out: Vec<Edge>)
    ensures
        edges_view(out@) == edges_view(v@),
{
    let mut out: Vec<Edge> = Vec::new();
    let mut i: usize = 0;
    while i < v.len()
        invariant
            i <= v@.len(),
            edges_view(out@) =~= edges_view(v@.take(i as int)),
        decreases v@.len() - i,
    {
        out.push(v[i].dup());
        i = i + 1;
        assert(edges_view(v@.take(i as int)) =~= edges_view(v@.take(i - 1)).push(v@[i - 1]@));
    }
    assert(v@.take(v@.len() as int) =~= v@);
    out
}

/// A unit of the model: a resource with its fields and bonds.
#[derive(Debug)]
pub struct Unit {
    name: String,
    fields: Vec<Slot>,
    bonds: Vec<Edge>,
    frozen: bool,
}

/// The content of a unit.
pub struct UnitV {
    pub name: Seq<char>,
    pub fields: Seq<SlotV>,
    pub bonds: Seq<EdgeV>,
    pub frozen: bool,
}

impl View for Unit {
    type V = UnitV;

    closed spec fn view(&self) -> UnitV {
        UnitV {
            name: self.name@,
            fields: slots_view(self.fields@),
            bonds: edges_view(self.bonds@),
            frozen: self.frozen,
        }
    }
}

/// The bond anchors its row.
pub open spec fn rooted() -> spec_fn(EdgeV) -> bool {
    |e: EdgeV| e.root
}

/// The bond names members.
pub open spec fn crewed() -> spec_fn(EdgeV) -> bool {
    |e: EdgeV| e.crew
}

/// The kind of field `f` of unit `u`: the key is an integer, and any other
/// field is looked up by name.
pub open spec fn kind_of(u: UnitV, f: Seq<char>) -> Option<Kind> {
    if f == crate::ddl::KEY@ {
        Some(Kind::Int)
    } else {
        match first_where(u.fields, slot_named(f)) {
            Some(i) => Some(u.fields[i].kind),
            None => None,
        }
    }
}

/// The first bond of `u` that meets `p`.
pub open spec fn edge_where(u: UnitV, p: spec_fn(EdgeV) -> bool) -> Option<EdgeV> {
    match first_where(u.bonds, p) {
        Some(i) => Some(u.bonds[i]),
        None => None,
    }
}

/// Finds the first bond meeting `p` in a list of bonds.
fn edge_by<'a>(v: &'a [Edge], want_root: bool) -> (r: Option<&'a Edge>)
    ensures
        match first_where(edges_view(v@), if want_root { rooted() } else { crewed() }) {
            Some(i) => r matches Some(e) && e@ == v@[i]@,
            None => r is None,
        },
{
    let ghost p = if want_root { rooted() } else { crewed() };
    let ghost ev = edges_view(v@);
    let mut i: usize = 0;
    while i < v.len()
        invariant
            i <= v@.len(),
            ev == edges_view(v@),
            p == (if want_root { rooted() } else { crewed() }),
            forall|j: int| 0 <= j < i ==> !p(#[trigger] ev[j]),
        decreases v@.len() - i,
    {
        let hit = if want_root { v[i].root() } else { v[i].crew() };
        if hit {
            proof {
                lemma_first_at(ev, p, i as int);
            }
            return Some(&v[i]);
        }
        i = i + 1;
    }
    proof {
        lemma_first_none(ev, p);
    }
    None
}

/// The bonds held as key columns on the unit, in order.
pub open spec fn refs_of(b: Seq<EdgeV>) -> Seq<EdgeV>
    decreases b.len(),
{
    if b.len() == 0 {
        Seq::empty()
    } else {
        let r = refs_of(b.drop_last());
        if bond::pointed(b.last().kind) {
            r.push(b.last())
        } else {
            r
        }
    }
}

/// The contents of a list of borrowed bonds.
pub open spec fn edge_refs_view(s: Seq<&Edge>) -> Seq<EdgeV> {
    s.map_values(|e: &Edge| e@)
}

impl Unit {
    /// The bonds held as key columns on the unit, in order.
    pub fn refs(&self) -> (r: Vec<&Edge>)
        ensures
            edge_refs_view(r@) == refs_of(self@.bonds),
    {
        let mut out: Vec<&Edge> = Vec::new();
        let ghost ev = self@.bonds;
        let mut i: usize = 0;
        assert(ev.take(0) =~= Seq::<EdgeV>::empty());
        while i < self.bonds.len()
            invariant
                i <= self.bonds@.len(),
                ev == edges_view(self.bonds@),
                edge_refs_view(out@) == refs_of(ev.take(i as int)),
            decreases self.bonds@.len() - i,
        {
            let e = &self.bonds[i];
            let ghost before = out@;
            proof {
                assert(ev.take(i + 1).drop_last() =~= ev.take(i as int));
                assert(ev.take(i + 1).last() == e@);
            }
            if e.kind().point() {
                out.push(e);
                assert(edge_refs_view(out@) =~= edge_refs_view(before).push(e@));
            }
            i = i + 1;
        }
        assert(ev.take(self.bonds@.len() as int) =~= ev);
        out
    }

    pub fn make(name: String, fields: Vec<Slot>, bonds: Vec<Edge>) -> (r: Unit)
        ensures
            r@ == (UnitV {
                name: name@,
                fields: slots_view(fields@),
                bonds: edges_view(bonds@),
                frozen: false,
            }),
    {
        Unit { name, fields, bonds, frozen: false }
    }

    /// The same unit, immutable from birth: it may be put and ended, never
    /// set.
    pub fn freeze(self) -> (r: Unit)
        ensures
            r@ == (UnitV { frozen: true, ..self@ }),
    {
        let mut u = self;
        u.frozen = true;
        u
    }

    /// Whether the unit is immutable from birth.
    pub fn frozen(&self) -> (r: bool)
        ensures
            r == self@.frozen,
    {
        self.frozen
    }

    pub fn name(&self) -> (r: &str)
        ensures
            r@ == self@.name,
    {
        self.name.as_str()
    }

    /// The name the unit is kept under.
    pub fn key(&self) -> (r: String)
        ensures
            r@ == self@.name,
    {
        self.name.clone()
    }

    pub fn fields(&self) -> (r: &[Slot])
        ensures
            slots_view(r@) == self@.fields,
    {
        self.fields.as_slice()
    }

    pub fn bonds(&self) -> (r: &[Edge])
        ensures
            edges_view(r@) == self@.bonds,
    {
        self.bonds.as_slice()
    }

    /// The kind of field `field`; an unknown field is refused.
    pub fn kind(&self, field: &str) -> (r: Result<Kind, Error>)
        ensures
            match kind_of(self@, field@) {
                Some(k) => r == Ok::<Kind, Error>(k),
                None => r matches Err(e) && refused(e, "unknown field "@ + field@),
            },
    {
        if same(field, crate::ddl::KEY) {
            return Ok(Kind::Int);
        }
        let fs = self.fields.as_slice();
        assert(slots_view(fs@) == self@.fields);
        match slot_in(fs, field) {
            Some(s) => {
                proof {
                    let i = first_where(slots_view(fs@), slot_named(field@))->0;
                    assert(slots_view(fs@)[i] == fs@[i]@);
                }
                Ok(s.kind())
            },
            None => Err(adapt2("unknown field ", field)),
        }
    }

    /// The bond that anchors the unit's rows, if any.
    pub fn root(&self) -> (r: Option<&Edge>)
        ensures
            match edge_where(self@, rooted()) {
                Some(e) => r matches Some(x) && x@ == e,
                None => r is None,
            },
    {
        let r = edge_by(self.bonds.as_slice(), true);
        proof {
            if let Some(i) = first_where(edges_view(self.bonds@), rooted()) {
                assert(edges_view(self.bonds@)[i] == self.bonds@[i]@);
            }
        }
        r
    }

    /// The bond that names the unit's members, if any.
    pub fn crew(&self) -> (r: Option<&Edge>)
        ensures
            match edge_where(self@, crewed()) {
                Some(e) => r matches Some(x) && x@ == e,
                None => r is None,
            },
    {
        let r = edge_by(self.bonds.as_slice(), false);
        proof {
            if let Some(i) = first_where(edges_view(self.bonds@), crewed()) {
                assert(edges_view(self.bonds@)[i] == self.bonds@[i]@);
            }
        }
        r
    }

    pub fn dup(&self) -> (r: Unit)
        ensures
            r@ == self@,
    {
        Unit {
            name: self.name.clone(),
            fields: dup_slots(self.fields.as_slice()),
            bonds: dup_edges(self.bonds.as_slice()),
            frozen: self.frozen,
        }
    }
}

/// The unit is named `name`.
pub open spec fn unit_named(name: Seq<char>) -> spec_fn(UnitV) -> bool {
    |u: UnitV| u.name == name
}

/// The units of a model.
#[derive(Debug)]
pub struct Plan {
    units: Vec<Unit>,
}

impl View for Plan {
    type V = Seq<UnitV>;

    closed spec fn view(&self) -> Seq<UnitV> {
        self.units@.map_values(|u: Unit| u@)
    }
}

/// The unit of `p` named `name`.
pub open spec fn unit_of(p: Seq<UnitV>, name: Seq<char>) -> Option<UnitV> {
    match first_where(p, unit_named(name)) {
        Some(i) => Some(p[i]),
        None => None,
    }
}

impl Plan {
    pub fn make(units: Vec<Unit>) -> (r: Plan)
        ensures
            r@ == units@.map_values(|u: Unit| u@),
    {
        Plan { units }
    }

    pub fn units(&self) -> (r: &[Unit])
        ensures
            r@.map_values(|u: Unit| u@) == self@,
    {
        self.units.as_slice()
    }

    /// The unit named `name`; an unknown name is missing.
    pub fn find(&self, name: &str) -> (r: Result<&Unit, Error>)
        ensures
            match unit_of(self@, name@) {
                Some(u) => r matches Ok(x) && x@ == u,
                None => r matches Err(e) && missing(e, name@),
            },
    {
        let ghost uv = self@;
        let mut i: usize = 0;
        while i < self.units.len()
            invariant
                i <= self.units@.len(),
                uv == self.units@.map_values(|u: Unit| u@),
                forall|j: int| 0 <= j < i ==> !unit_named(name@)(#[trigger] uv[j]),
            decreases self.units@.len() - i,
        {
            if same(self.units[i].name(), name) {
                proof {
                    lemma_first_at(uv, unit_named(name@), i as int);
                }
                return Ok(&self.units[i]);
            }
            i = i + 1;
        }
        proof {
            lemma_first_none(uv, unit_named(name@));
        }
        Err(Error::Missing(own(name)))
    }
}

} // verus!
