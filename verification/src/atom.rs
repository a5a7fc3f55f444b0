//! The kinds of value a field holds.
use vstd::prelude::*;
use crate::error::{Error, adapt2};
use crate::text::{int_in, int_of, same};

verus! {

/// The kind of a scalar field.
#[derive(Clone, Copy, Debug, PartialEq, Eq, Hash, Structural)]
pub enum Kind {
    Text,
    Link,
    Int,
    Bool,
}

/// Whether the text `v` is a value of kind `k`: an integer field takes a
/// decimal `i64`, a flag takes `true` or `false`, text takes anything.
pub open spec fn fits_kind(k: Kind, v: Seq<char>) -> bool {
    match k {
        Kind::Int => int_of(v) is Some,
        Kind::Bool => v == "true"@ || v == "false"@,
        _ => true,
    }
}

/// What a value that does not fit kind `k` is refused with.
pub open spec fn misfit(k: Kind, v: Seq<char>) -> crate::error::Why {
    match k {
        Kind::Int => crate::error::Why::Refused("not an int: "@ + v),
        _ => crate::error::Why::Refused("not a bool: "@ + v),
    }
}

impl Kind {
    /// Checks that `value` is a value of this kind.
    pub fn fit(&self, value: &str) -> (r: Result<(), Error>)
        ensures
            r is Ok <==> fits_kind(*self, value@),
            r matches Err(e) ==> crate::error::told(e, misfit(*self, value@)),
    {
        match self {
            Kind::Int => match int_in(value) {
                Some(_) => Ok(()),
                None => Err(adapt2("not an int: ", value)),
            },
            Kind::Bool => {
                if same(value, "true") || same(value, "false") {
                    Ok(())
                } else {
                    Err(adapt2("not a bool: ", value))
                }
            },
            _ => Ok(()),
        }
    }
}

} // verus!
