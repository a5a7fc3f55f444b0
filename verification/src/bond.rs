//! The kinds of relation between units.
use vstd::prelude::*;

verus! {

/// How many rows stand on each side of a relation.
#[derive(Clone, Copy, Debug, PartialEq, Eq, Hash, Structural)]
pub enum Kind {
    One2one,
    Many2one,
    One2many,
    Many2many,
}

/// The relation is held as a key column on the owning unit.
pub open spec fn pointed(k: Kind) -> bool {
    k == Kind::One2one || k == Kind::Many2one
}

impl Kind {
    /// Whether the relation is held as a key column on the owning unit.
    pub fn point(&self) -> (r: bool)
        ensures
            r == pointed(*self),
    {
        match self {
            Kind::One2one | Kind::Many2one => true,
            _ => false,
        }
    }
}

} // verus!
