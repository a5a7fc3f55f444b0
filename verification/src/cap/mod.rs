//! Capabilities: grants of verbs on units to callers, the seal that guards
//! the estate, and the checks a request passes.
use vstd::prelude::*;
use crate::face::Who;
use crate::life::Cell;

pub mod shape;
pub mod seal;
pub mod grant;
pub mod chain;
pub mod deed;

verus! {

/// The unit that holds grants.
pub const GRANT: &'static str = "@grant";

/// The unit that holds the seal.
pub const SEAL: &'static str = "@seal";

/// The unit that holds the heartbeat.
pub const PULSE: &'static str = "@pulse";

/// How many rows a request may look back over.
pub const WINDOW: usize = 4096;

/// How many anchors a request may climb.
pub const DEPTH: usize = 16;

/// The verbs a grant may name.
pub open spec fn verbs() -> Seq<Seq<char>> {
    seq!["see"@, "put"@, "set"@, "end"@, "tie"@, "cut"@]
}

/// The verbs a grant may name, in order.
pub fn verb_list() -> (r: Vec<&'static str>)
    ensures
        r@.map_values(|v: &str| v@) == verbs(),
{
    let r = vec!["see", "put", "set", "end", "tie", "cut"];
    assert(r@.map_values(|v: &str| v@) =~= verbs());
    r
}

/// What a request is held against: the row's key, if it has one, and its
/// cells.
pub struct Mark<'a> {
    pub key: Option<i64>,
    pub cells: &'a [(String, Cell)],
}

/// A request: who asks, with which verb, on which unit, about which row.
pub struct Plea<'a> {
    pub who: Who,
    pub verb: &'a str,
    pub unit: &'a str,
    pub mark: &'a Mark<'a>,
}

} // verus!
