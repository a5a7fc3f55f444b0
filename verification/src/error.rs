//! The engine's error: a refused request, a missing name, or an estate fault.
use vstd::prelude::*;
use crate::estate::Fault;

verus! {

/// What went wrong.
#[derive(Debug)]
pub enum Error {
    /// A request the engine refuses, with its reason.
    Adapt(String),
    /// A unit or resource that is not in the plan.
    Missing(String),
    /// The stored estate disagrees with what the engine expects.
    Estate(Fault),
}

/// `e` is a refusal whose reason reads `note`.
pub open spec fn refused(e: Error, note: Seq<char>) -> bool {
    e matches Error::Adapt(m) && m@ == note
}

/// `e` names a missing unit `name`.
pub open spec fn missing(e: Error, name: Seq<char>) -> bool {
    e matches Error::Missing(m) && m@ == name
}

/// What an error says, as plain text.
pub enum Why {
    /// A refusal, with its reason.
    Refused(Seq<char>),
    /// A missing name.
    Lacks(Seq<char>),
}

/// `e` says what `w` says.
pub open spec fn told(e: Error, w: Why) -> bool {
    match w {
        Why::Refused(m) => refused(e, m),
        Why::Lacks(n) => missing(e, n),
    }
}

/// A refusal carrying `note`.
pub fn adapt(note: &str) -> (e: Error)
    ensures
        refused(e, note@),
{
    Error::Adapt(crate::text::own(note))
}

/// A refusal whose reason is `head` followed by `tail`.
pub fn adapt2(head: &str, tail: &str) -> (e: Error)
    ensures
        refused(e, head@ + tail@),
{
    let mut s = crate::text::own(head);
    crate::text::push_str(&mut s, tail);
    Error::Adapt(s)
}

} // verus!
