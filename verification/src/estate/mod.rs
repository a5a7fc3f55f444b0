//! The estate: the stored schema generations, and the checks a schema move
//! must pass.
use vstd::prelude::*;
use crate::text::{decimal, own, push_str, show_int};

pub mod clock;
pub mod hook;
pub mod catalog;
pub mod cleanup;
pub mod guard;
pub mod derivative;
pub mod frame;
pub mod copy;
pub mod evolve;
pub mod step;
pub mod adopt;
pub mod verify;

verus! {

/// Why the stored estate cannot be used as asked.
#[derive(Debug)]
pub enum Fault {
    Vacant,
    Token,
    Occupied,
    Unsealed,
    Unknown(String),
    Format { found: i64, expected: i64 },
    Drift { expected: String, found: String },
    Denied { path: String, note: String },
    Blocked { path: String, check: Check },
}

/// What a schema step does.
#[derive(Clone, Copy, Debug, PartialEq, Eq, Structural)]
pub enum Act {
    Add,
    Drop,
    Cast,
    Alter,
}

/// What stored data a schema step needs to hold first.
#[derive(Clone, Copy, Debug, PartialEq, Eq, Structural)]
pub enum Check {
    Empty,
    Clear,
    Unique,
    Presence,
    Values,
    Authority,
}

/// The name of a check, as written in a fault.
pub open spec fn check_name(c: Check) -> Seq<char> {
    match c {
        Check::Empty => "Empty"@,
        Check::Clear => "Clear"@,
        Check::Unique => "Unique"@,
        Check::Presence => "Presence"@,
        Check::Values => "Values"@,
        Check::Authority => "Authority"@,
    }
}

impl Check {
    /// The check's name.
    pub fn name(&self) -> (r: &'static str)
        ensures
            r@ == check_name(*self),
    {
        match self {
            Check::Empty => "Empty",
            Check::Clear => "Clear",
            Check::Unique => "Unique",
            Check::Presence => "Presence",
            Check::Values => "Values",
            Check::Authority => "Authority",
        }
    }
}

/// What a fault says.
pub open spec fn fault_note(f: Fault) -> Seq<char> {
    match f {
        Fault::Vacant => "vacant estate needs bootstrap"@,
        Fault::Token => "invalid sudo token"@,
        Fault::Occupied => "occupied estate refuses bootstrap"@,
        Fault::Unsealed => "unsealed estate"@,
        Fault::Unknown(note) => "unknown estate: "@ + note@,
        Fault::Format { found, expected } =>
            "estate format "@ + decimal(found as int) + " needs "@ + decimal(expected as int),
        Fault::Drift { expected, found } => "estate drift "@ + expected@ + " != "@ + found@,
        Fault::Denied { path, note } => "estate delta denied at "@ + path@ + ": "@ + note@,
        Fault::Blocked { path, check } => "estate delta blocked at "@ + path@ + ": "@ + check_name(check),
    }
}

impl Fault {
    /// What the fault says, for a reader.
    pub fn note(&self) -> (r: String)
        ensures
            r@ == fault_note(*self),
    {
        match self {
            Fault::Vacant => own("vacant estate needs bootstrap"),
            Fault::Token => own("invalid sudo token"),
            Fault::Occupied => own("occupied estate refuses bootstrap"),
            Fault::Unsealed => own("unsealed estate"),
            Fault::Unknown(note) => {
                let mut s = own("unknown estate: ");
                push_str(&mut s, note.as_str());
                s
            },
            Fault::Format { found, expected } => {
                let mut s = own("estate format ");
                let a = show_int(*found);
                push_str(&mut s, a.as_str());
                push_str(&mut s, " needs ");
                let b = show_int(*expected);
                push_str(&mut s, b.as_str());
                s
            },
            Fault::Drift { expected, found } => {
                let mut s = own("estate drift ");
                push_str(&mut s, expected.as_str());
                push_str(&mut s, " != ");
                push_str(&mut s, found.as_str());
                s
            },
            Fault::Denied { path, note } => {
                let mut s = own("estate delta denied at ");
                push_str(&mut s, path.as_str());
                push_str(&mut s, ": ");
                push_str(&mut s, note.as_str());
                s
            },
            Fault::Blocked { path, check } => {
                let mut s = own("estate delta blocked at ");
                push_str(&mut s, path.as_str());
                push_str(&mut s, ": ");
                push_str(&mut s, check.name());
                s
            },
        }
    }
}

/// One step of a schema move: the path it touches, what it does, and the
/// check the stored data must pass first.
#[derive(Debug)]
pub struct Step {
    path: String,
    act: Act,
    check: Option<Check>,
}

/// The content of a step.
pub struct StepV {
    pub path: Seq<char>,
    pub act: Act,
    pub check: Option<Check>,
}

impl View for Step {
    type V = StepV;

    closed spec fn view(&self) -> StepV {
        StepV { path: self.path@, act: self.act, check: self.check }
    }
}

/// The contents of a list of steps.
pub open spec fn steps_view(s: Seq<Step>) -> Seq<StepV> {
    s.map_values(|x: Step| x@)
}

impl Step {
    pub fn new(path: String, act: Act, check: Option<Check>) -> (r: Step)
        ensures
            r@ == (StepV { path: path@, act, check }),
    {
        Step { path, act, check }
    }

    pub fn path(&self) -> (r: &str)
        ensures
            r@ == self@.path,
    {
        self.path.as_str()
    }

    pub fn act(&self) -> (r: Act)
        ensures
            r == self@.act,
    {
        self.act
    }

    pub fn check(&self) -> (r: Option<Check>)
        ensures
            r == self@.check,
    {
        self.check
    }
}

/// A schema move: its steps in order.
#[derive(Debug)]
pub struct Change {
    steps: Vec<Step>,
}

impl View for Change {
    type V = Seq<StepV>;

    closed spec fn view(&self) -> Seq<StepV> {
        steps_view(self.steps@)
    }
}

impl Change {
    pub fn new(steps: Vec<Step>) -> (r: Change)
        ensures
            r@ == steps_view(steps@),
    {
        Change { steps }
    }

    pub fn steps(&self) -> (r: &[Step])
        ensures
            steps_view(r@) == self@,
    {
        self.steps.as_slice()
    }
}

} // verus!
