//! Values handed to and read back from a store.
use vstd::prelude::*;
use crate::text::{decimal, show_int};

verus! {

/// A stored value.
#[derive(Debug)]
pub enum Val {
    Null,
    Int(i64),
    Text(String),
}

/// The content of a stored value.
pub enum ValV {
    Null,
    Int(i64),
    Text(Seq<char>),
}

impl View for Val {
    type V = ValV;

    open spec fn view(&self) -> ValV {
        match self {
            Val::Null => ValV::Null,
            Val::Int(v) => ValV::Int(*v),
            Val::Text(s) => ValV::Text(s@),
        }
    }
}

/// The text a value reads as: text itself, an integer in decimal, null as
/// empty text.
pub open spec fn val_text(v: ValV) -> Seq<char> {
    match v {
        ValV::Null => Seq::empty(),
        ValV::Int(i) => decimal(i as int),
        ValV::Text(s) => s,
    }
}

impl Val {
    /// The integer held, or zero.
    pub fn integer(&self) -> (r: i64)
        ensures
            r == (match self@ {
                ValV::Int(i) => i,
                _ => 0,
            }),
    {
        match self {
            Val::Int(value) => *value,
            _ => 0,
        }
    }

    /// The integer held, if any.
    pub fn opt(&self) -> (r: Option<i64>)
        ensures
            r == (match self@ {
                ValV::Int(i) => Some(i),
                _ => None,
            }),
    {
        match self {
            Val::Int(value) => Some(*value),
            _ => None,
        }
    }

    /// The value as text.
    pub fn text(&self) -> (r: String)
        ensures
            r@ == val_text(self@),
    {
        match self {
            Val::Text(value) => value.clone(),
            Val::Int(value) => show_int(*value),
            Val::Null => String::new(),
        }
    }

    /// A copy of the value.
    pub fn dup(&self) -> (r: Val)
        ensures
            r@ == self@,
    {
        match self {
            Val::Null => Val::Null,
            Val::Int(v) => Val::Int(*v),
            Val::Text(s) => Val::Text(s.clone()),
        }
    }
}

} // verus!
