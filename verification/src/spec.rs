//! Resource specs: what business code declares of a resource, its fields
//! and its bonds, built one call at a time.
use vstd::prelude::*;
use crate::atom;
use crate::bond;
use crate::text::own;

verus! {

/// A resource declared by business code.
pub trait Resource {
    /// The resource's name.
    fn name() -> &'static str;

    /// The resource's declaration.
    fn spec() -> Spec;
}

/// A declared resource: its name, fields and bonds, in the order declared.
#[derive(Debug)]
pub struct Spec {
    name: String,
    fields: Vec<Field>,
    bonds: Vec<Bond>,
}

/// How a bond was declared.
#[derive(Clone, Copy, Debug, PartialEq, Eq, Structural)]
enum Cast {
    Bond,
    Free,
    Root,
    Crew,
}

/// Which rows a field's value must be unique among.
#[derive(Debug)]
pub enum Only {
    /// No uniqueness.
    Free,
    /// Unique among all rows.
    All,
    /// Unique among the rows sharing the named field.
    Per(String),
}

/// The content of a uniqueness rule.
pub enum OnlyV {
    Free,
    All,
    Per(Seq<char>),
}

impl View for Only {
    type V = OnlyV;

    open spec fn view(&self) -> OnlyV {
        match self {
            Only::Free => OnlyV::Free,
            Only::All => OnlyV::All,
            Only::Per(s) => OnlyV::Per(s@),
        }
    }
}

/// A declared field.
#[derive(Debug)]
pub struct Field {
    name: String,
    kind: atom::Kind,
    only: Only,
    serial: Option<String>,
}

/// The content of a declared field.
pub struct FieldV {
    pub name: Seq<char>,
    pub kind: atom::Kind,
    pub only: OnlyV,
    pub serial: Option<Seq<char>>,
}

impl View for Field {
    type V = FieldV;

    closed spec fn view(&self) -> FieldV {
        FieldV {
            name: self.name@,
            kind: self.kind,
            only: self.only@,
            serial: match self.serial {
                Some(s) => Some(s@),
                None => None,
            },
        }
    }
}

/// The contents of a list of fields.
pub open spec fn fields_view(s: Seq<Field>) -> Seq<FieldV> {
    s.map_values(|f: Field| f@)
}

/// A declared bond.
#[derive(Debug)]
pub struct Bond {
    name: String,
    kind: bond::Kind,
    target: String,
    fields: Vec<Field>,
    need: bool,
    root: bool,
    crew: bool,
}

/// The content of a declared bond.
pub struct BondV {
    pub name: Seq<char>,
    pub kind: bond::Kind,
    pub target: Seq<char>,
    pub fields: Seq<FieldV>,
    pub need: bool,
    pub root: bool,
    pub crew: bool,
}

impl View for Bond {
    type V = BondV;

    closed spec fn view(&self) -> BondV {
        BondV {
            name: self.name@,
            kind: self.kind,
            target: self.target@,
            fields: fields_view(self.fields@),
            need: self.need,
            root: self.root,
            crew: self.crew,
        }
    }
}

/// The contents of a list of bonds.
pub open spec fn bonds_view(s: Seq<Bond>) -> Seq<BondV> {
    s.map_values(|b: Bond| b@)
}

/// The content of a declaration, sealed or being built.
pub struct SpecV {
    pub name: Seq<char>,
    pub fields: Seq<FieldV>,
    pub bonds: Seq<BondV>,
}

impl View for Spec {
    type V = SpecV;

    closed spec fn view(&self) -> SpecV {
        SpecV { name: self.name@, fields: fields_view(self.fields@), bonds: bonds_view(self.bonds@) }
    }
}

/// A declaration being built.
pub struct Builder {
    name: String,
    fields: Vec<Field>,
    bonds: Vec<Bond>,
}

impl View for Builder {
    type V = SpecV;

    closed spec fn view(&self) -> SpecV {
        SpecV { name: self.name@, fields: fields_view(self.fields@), bonds: bonds_view(self.bonds@) }
    }
}

/// A plain field: no uniqueness, no serial.
pub open spec fn plain_field(name: Seq<char>, kind: atom::Kind, only: OnlyV) -> FieldV {
    FieldV { name, kind, only, serial: None }
}

/// One call of the builder, as data.
pub enum Call {
    Field { name: Seq<char>, kind: atom::Kind },
    Sole { name: Seq<char>, kind: atom::Kind },
    Per { name: Seq<char>, kind: atom::Kind, scope: Seq<char> },
    Serial { name: Seq<char>, scope: Seq<char> },
    Bond { name: Seq<char>, kind: bond::Kind, target: Seq<char>, fields: Seq<FieldV> },
    Free { name: Seq<char>, kind: bond::Kind, target: Seq<char> },
    Root { name: Seq<char>, kind: bond::Kind, target: Seq<char> },
    Crew { name: Seq<char>, kind: bond::Kind, target: Seq<char> },
}

/// The field a call declares, if it declares one.
pub open spec fn field_of(c: Call) -> Option<FieldV> {
    match c {
        Call::Field { name, kind } => Some(plain_field(name, kind, OnlyV::Free)),
        Call::Sole { name, kind } => Some(plain_field(name, kind, OnlyV::All)),
        Call::Per { name, kind, scope } => Some(plain_field(name, kind, OnlyV::Per(scope))),
        Call::Serial { name, scope } => Some(
            FieldV { name, kind: atom::Kind::Int, only: OnlyV::Free, serial: Some(scope) },
        ),
        _ => None,
    }
}

/// The bond a call declares, if it declares one.
pub open spec fn bond_call(c: Call) -> Option<BondV> {
    match c {
        Call::Bond { name, kind, target, fields } => Some(
            bond_of(name, kind, target, fields, true, false, false),
        ),
        Call::Free { name, kind, target } => Some(
            bond_of(name, kind, target, Seq::empty(), false, false, false),
        ),
        Call::Root { name, kind, target } => Some(
            bond_of(name, kind, target, Seq::empty(), true, true, false),
        ),
        Call::Crew { name, kind, target } => Some(
            bond_of(name, kind, target, Seq::empty(), true, false, true),
        ),
        _ => None,
    }
}

/// A declaration after one more builder call.
pub open spec fn step(s: SpecV, c: Call) -> SpecV {
    match field_of(c) {
        Some(f) => SpecV { fields: s.fields.push(f), ..s },
        None => match bond_call(c) {
            Some(b) => SpecV { bonds: s.bonds.push(b), ..s },
            None => s,
        },
    }
}

/// The declaration of `name` after the builder calls `calls`, in order.
pub open spec fn built(name: Seq<char>, calls: Seq<Call>) -> SpecV
    decreases calls.len(),
{
    if calls.len() == 0 {
        SpecV { name, fields: Seq::empty(), bonds: Seq::empty() }
    } else {
        step(built(name, calls.drop_last()), calls.last())
    }
}

/// The fields the calls declare, one per field call, in call order.
pub open spec fn field_list(calls: Seq<Call>) -> Seq<FieldV>
    decreases calls.len(),
{
    if calls.len() == 0 {
        Seq::empty()
    } else {
        match field_of(calls.last()) {
            Some(f) => field_list(calls.drop_last()).push(f),
            None => field_list(calls.drop_last()),
        }
    }
}

/// The bonds the calls declare, one per bond call, in call order.
pub open spec fn bond_list(calls: Seq<Call>) -> Seq<BondV>
    decreases calls.len(),
{
    if calls.len() == 0 {
        Seq::empty()
    } else {
        match bond_call(calls.last()) {
            Some(b) => bond_list(calls.drop_last()).push(b),
            None => bond_list(calls.drop_last()),
        }
    }
}

/// Sealing keeps every builder call: the declaration of `name` built by
/// `calls` has that name, one field per field call and one bond per bond
/// call, each in call order, nothing merged, dropped or reordered.
pub proof fn lemma_seal_keeps_calls(name: Seq<char>, calls: Seq<Call>)
    ensures
        built(name, calls).name == name,
        built(name, calls).fields == field_list(calls),
        built(name, calls).bonds == bond_list(calls),
    decreases calls.len(),
{
    if calls.len() > 0 {
        lemma_seal_keeps_calls(name, calls.drop_last());
        let c = calls.last();
        if field_of(c) is Some {
            assert(bond_call(c) is None);
        }
    }
}

/// A bond's flags agree: it is not both root and crew, a root or crew bond
/// is needed, and a bond whose ties carry fields is needed and neither root
/// nor crew.
pub open spec fn flags_agree(b: BondV) -> bool {
    &&& !(b.root && b.crew)
    &&& (b.root || b.crew) ==> b.need
    &&& b.fields.len() > 0 ==> (b.need && !b.root && !b.crew)
}

/// Every bond a builder declares has flags that agree, whatever the calls.
pub proof fn lemma_bond_flags(name: Seq<char>, calls: Seq<Call>)
    ensures
        forall|i: int| 0 <= i < built(name, calls).bonds.len() ==> flags_agree(
            #[trigger] built(name, calls).bonds[i],
        ),
    decreases calls.len(),
{
    if calls.len() > 0 {
        lemma_bond_flags(name, calls.drop_last());
        let p = built(name, calls.drop_last());
        let c = calls.last();
        assert forall|i: int| 0 <= i < built(name, calls).bonds.len() implies flags_agree(
            #[trigger] built(name, calls).bonds[i],
        ) by {
            if i < p.bonds.len() {
                assert(built(name, calls).bonds[i] == p.bonds[i]);
            }
        }
    }
}

impl Spec {
    /// Starts a declaration of the resource `name`, with no fields or bonds.
    pub fn build(name: &str) -> (r: Builder)
        ensures
            r@ == (SpecV { name: name@, fields: Seq::empty(), bonds: Seq::empty() }),
            r@ == built(name@, Seq::empty()),
    {
        let b = Builder { name: own(name), fields: Vec::new(), bonds: Vec::new() };
        assert(fields_view(b.fields@) =~= Seq::empty());
        assert(bonds_view(b.bonds@) =~= Seq::empty());
        b
    }

    pub fn name(&self) -> (r: &str)
        ensures
            r@ == self@.name,
    {
        self.name.as_str()
    }

    pub fn fields(&self) -> (r: &[Field])
        ensures
            fields_view(r@) == self@.fields,
    {
        self.fields.as_slice()
    }

    pub fn bonds(&self) -> (r: &[Bond])
        ensures
            bonds_view(r@) == self@.bonds,
    {
        self.bonds.as_slice()
    }
}

impl Field {
    pub fn name(&self) -> (r: &str)
        ensures
            r@ == self@.name,
    {
        self.name.as_str()
    }

    pub fn kind(&self) -> (r: atom::Kind)
        ensures
            r == self@.kind,
    {
        self.kind
    }

    pub fn only(&self) -> (r: &Only)
        ensures
            r@ == self@.only,
    {
        &self.only
    }

    /// The field that scopes this serial number, for a serial field.
    pub fn serial(&self) -> (r: Option<&str>)
        ensures
            match self@.serial {
                Some(s) => r matches Some(x) && x@ == s,
                None => r is None,
            },
    {
        match &self.serial {
            Some(s) => Some(s.as_str()),
            None => None,
        }
    }
}

impl Bond {
    pub fn name(&self) -> (r: &str)
        ensures
            r@ == self@.name,
    {
        self.name.as_str()
    }

    pub fn kind(&self) -> (r: bond::Kind)
        ensures
            r == self@.kind,
    {
        self.kind
    }

    pub fn target(&self) -> (r: &str)
        ensures
            r@ == self@.target,
    {
        self.target.as_str()
    }

    pub fn fields(&self) -> (r: &[Field])
        ensures
            fields_view(r@) == self@.fields,
    {
        self.fields.as_slice()
    }

    /// Whether every row must carry this bond.
    pub fn need(&self) -> (r: bool)
        ensures
            r == self@.need,
    {
        self.need
    }

    /// Whether the bond anchors its row to the target.
    pub fn root(&self) -> (r: bool)
        ensures
            r == self@.root,
    {
        self.root
    }

    /// Whether the bond names the members of the target.
    pub fn crew(&self) -> (r: bool)
        ensures
            r == self@.crew,
    {
        self.crew
    }
}

/// The bond a builder call declares: `need` unless declared free, `root`
/// and `crew` as declared.
pub open spec fn bond_of(
    name: Seq<char>,
    kind: bond::Kind,
    target: Seq<char>,
    fields: Seq<FieldV>,
    need: bool,
    root: bool,
    crew: bool,
) -> BondV {
    BondV { name, kind, target, fields, need, root, crew }
}

/// The plain fields named and typed by `pairs`.
pub open spec fn pair_fields(pairs: Seq<(&str, atom::Kind)>) -> Seq<FieldV> {
    pairs.map_values(|p: (&str, atom::Kind)| plain_field(p.0@, p.1, OnlyV::Free))
}

impl Builder {
    fn add(self, f: Field) -> (r: Builder)
        ensures
            r@ == (SpecV { fields: self@.fields.push(f@), ..self@ }),
    {
        let mut b = self;
        let ghost before = b.fields@;
        b.fields.push(f);
        assert(fields_view(b.fields@) =~= fields_view(before).push(f@));
        b
    }

    /// Adds a field with no uniqueness.
    pub fn field(self, name: &str, kind: atom::Kind) -> (r: Builder)
        ensures
            r@ == (SpecV { fields: self@.fields.push(plain_field(name@, kind, OnlyV::Free)), ..self@ }),
            r@ == step(self@, Call::Field { name: name@, kind }),
    {
        self.add(Field { name: own(name), kind, only: Only::Free, serial: None })
    }

    /// Adds a field unique among all rows.
    pub fn sole(self, name: &str, kind: atom::Kind) -> (r: Builder)
        ensures
            r@ == (SpecV { fields: self@.fields.push(plain_field(name@, kind, OnlyV::All)), ..self@ }),
            r@ == step(self@, Call::Sole { name: name@, kind }),
    {
        self.add(Field { name: own(name), kind, only: Only::All, serial: None })
    }

    /// Adds a field unique among the rows that share `scope`.
    pub fn per(self, name: &str, kind: atom::Kind, scope: &str) -> (r: Builder)
        ensures
            r@ == (SpecV {
                fields: self@.fields.push(plain_field(name@, kind, OnlyV::Per(scope@))),
                ..self@
            }),
            r@ == step(self@, Call::Per { name: name@, kind, scope: scope@ }),
    {
        self.add(Field { name: own(name), kind, only: Only::Per(own(scope)), serial: None })
    }

    /// Adds an integer field numbered in order within `scope`.
    pub fn serial(self, name: &str, scope: &str) -> (r: Builder)
        ensures
            r@ == (SpecV {
                fields: self@.fields.push(
                    FieldV { name: name@, kind: atom::Kind::Int, only: OnlyV::Free, serial: Some(scope@) },
                ),
                ..self@
            }),
            r@ == step(self@, Call::Serial { name: name@, scope: scope@ }),
    {
        self.add(Field { name: own(name), kind: atom::Kind::Int, only: Only::Free, serial: Some(own(scope)) })
    }

    /// Adds a needed bond whose ties carry the given fields.
    pub fn bond(self, name: &str, kind: bond::Kind, target: &str, fields: &[(&str, atom::Kind)]) -> (r: Builder)
        ensures
            r@ == (SpecV {
                bonds: self@.bonds.push(bond_of(name@, kind, target@, pair_fields(fields@), true, false, false)),
                ..self@
            }),
            r@ == step(
                self@,
                Call::Bond { name: name@, kind, target: target@, fields: pair_fields(fields@) },
            ),
    {
        self.join(name, kind, target, fields, Cast::Bond)
    }

    /// Adds a bond a row may go without.
    pub fn free(self, name: &str, kind: bond::Kind, target: &str) -> (r: Builder)
        ensures
            r@ == (SpecV {
                bonds: self@.bonds.push(bond_of(name@, kind, target@, Seq::empty(), false, false, false)),
                ..self@
            }),
            r@ == step(self@, Call::Free { name: name@, kind, target: target@ }),
    {
        let none: [(&str, atom::Kind); 0] = [];
        let r = self.join(name, kind, target, &none, Cast::Free);
        assert(pair_fields(none@) =~= Seq::empty());
        r
    }

    /// Adds a needed bond that anchors each row to its target.
    pub fn root(self, name: &str, kind: bond::Kind, target: &str) -> (r: Builder)
        ensures
            r@ == (SpecV {
                bonds: self@.bonds.push(bond_of(name@, kind, target@, Seq::empty(), true, true, false)),
                ..self@
            }),
            r@ == step(self@, Call::Root { name: name@, kind, target: target@ }),
    {
        let none: [(&str, atom::Kind); 0] = [];
        let r = self.join(name, kind, target, &none, Cast::Root);
        assert(pair_fields(none@) =~= Seq::empty());
        r
    }

    /// Adds a needed bond that names the members of its target.
    pub fn crew(self, name: &str, kind: bond::Kind, target: &str) -> (r: Builder)
        ensures
            r@ == (SpecV {
                bonds: self@.bonds.push(bond_of(name@, kind, target@, Seq::empty(), true, false, true)),
                ..self@
            }),
            r@ == step(self@, Call::Crew { name: name@, kind, target: target@ }),
    {
        let none: [(&str, atom::Kind); 0] = [];
        let r = self.join(name, kind, target, &none, Cast::Crew);
        assert(pair_fields(none@) =~= Seq::empty());
        r
    }

    fn join(self, name: &str, kind: bond::Kind, target: &str, fields: &[(&str, atom::Kind)], cast: Cast) -> (r: Builder)
        ensures
            r@ == (SpecV {
                bonds: self@.bonds.push(
                    bond_of(
                        name@,
                        kind,
                        target@,
                        pair_fields(fields@),
                        cast != Cast::Free,
                        cast == Cast::Root,
                        cast == Cast::Crew,
                    ),
                ),
                ..self@
            }),
    {
        let mut made: Vec<Field> = Vec::new();
        let mut i: usize = 0;
        while i < fields.len()
            invariant
                i <= fields@.len(),
                fields_view(made@) =~= pair_fields(fields@.take(i as int)),
            decreases fields@.len() - i,
        {
            let (n, k) = fields[i];
            made.push(Field { name: own(n), kind: k, only: Only::Free, serial: None });
            i = i + 1;
            assert(pair_fields(fields@.take(i as int)) =~= pair_fields(fields@.take(i - 1)).push(
                plain_field(fields@[i - 1].0@, fields@[i - 1].1, OnlyV::Free),
            ));
        }
        assert(fields@.take(fields@.len() as int) =~= fields@);
        let b = Bond {
            name: own(name),
            kind,
            target: own(target),
            fields: made,
            need: cast != Cast::Free,
            root: cast == Cast::Root,
            crew: cast == Cast::Crew,
        };
        let mut out = self;
        let ghost before = out.bonds@;
        out.bonds.push(b);
        assert(bonds_view(out.bonds@) =~= bonds_view(before).push(b@));
        out
    }

    /// Finishes the declaration, as built.
    pub fn seal(self) -> (r: Spec)
        ensures
            r@ == self@,
    {
        Spec { name: self.name, fields: self.fields, bonds: self.bonds }
    }
}

} // verus!
