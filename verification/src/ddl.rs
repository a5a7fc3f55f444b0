//! Names the physical projection uses.
use vstd::prelude::*;

verus! {

/// The key column of every unit.
pub const KEY: &'static str = "id";

/// The expiry column.
pub const EXPIRES: &'static str = "expires_at";

/// The creation column.
pub const CREATED: &'static str = "created_at";

/// The last-update column.
pub const UPDATED: &'static str = "updated_at";

/// The SQL dialect of a store.
#[derive(Clone, Copy, Debug, PartialEq, Eq, Structural)]
pub enum Grain {
    Lite,
    Pg,
}

} // verus!
