//! What a cleanup reports to the caller's hook: the rows it purged.
use vstd::prelude::*;

verus! {

/// One purged row: the unit path and the row's key.
#[derive(Debug)]
pub struct Gone {
    path: String,
    key: i64,
}

/// The content of a purged row.
pub struct GoneV {
    pub path: Seq<char>,
    pub key: i64,
}

impl View for Gone {
    type V = GoneV;

    closed spec fn view(&self) -> GoneV {
        GoneV { path: self.path@, key: self.key }
    }
}

impl Gone {
    pub fn new(path: String, key: i64) -> (r: Gone)
        ensures
            r@ == (GoneV { path: path@, key }),
    {
        Gone { path, key }
    }

    pub fn path(&self) -> (r: &str)
        ensures
            r@ == self@.path,
    {
        self.path.as_str()
    }

    pub fn key(&self) -> (r: i64)
        ensures
            r == self@.key,
    {
        self.key
    }
}

/// The contents of a list of purged rows.
pub open spec fn gones_view(s: Seq<Gone>) -> Seq<GoneV> {
    s.map_values(|g: Gone| g@)
}

/// A purge event: the generation cleaned and the rows it took.
#[derive(Debug)]
pub struct Purge {
    generation: i64,
    gone: Vec<Gone>,
}

impl Purge {
    /// The generation cleaned, as a spec value.
    pub closed spec fn era(&self) -> i64 {
        self.generation
    }

    /// The rows taken, as a spec value.
    pub closed spec fn taken(&self) -> Seq<GoneV> {
        gones_view(self.gone@)
    }

    pub fn new(generation: i64, gone: Vec<Gone>) -> (r: Purge)
        ensures
            r.era() == generation,
            r.taken() == gones_view(gone@),
    {
        Purge { generation, gone }
    }

    pub fn generation(&self) -> (r: i64)
        ensures
            r == self.era(),
    {
        self.generation
    }

    pub fn gone(&self) -> (r: &[Gone])
        ensures
            gones_view(r@) == self.taken(),
    {
        self.gone.as_slice()
    }
}

} // verus!
