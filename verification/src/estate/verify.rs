//! Verifying a stored estate as a step machine: its root record, its
//! generation records, then its physical shape against the shape recorded.
use vstd::prelude::*;
use crate::error::Error;
use crate::estate::Fault;
use crate::estate::catalog::{FORMAT, actives, catalog_root, current_of, is_active, lines_view, records_fault};
use crate::estate::step::{Reply, ReplyV};
use crate::life::util::int_val;
use crate::text::same;
use crate::wire::{Val, ValV, val_text};

verus! {

/// How verifying ended: bound to the active generation, whose record is
/// at the given place; refused for the engine's format; refused with a
/// note; drifted (the recorded shape differs from the store's); or failed
/// at the store.
#[derive(Clone, Copy, Debug)]
pub enum VerifyEnd {
    Bound(usize),
    Format(i64),
    Unknown,
    Drifted,
    Failed,
}

/// Where verifying stands: `Checking(i)` waits on what the caller found of
/// the manifest of generation record `i`.
#[derive(Clone, Copy, Debug)]
pub enum VerifyPhase {
    Start,
    Rooting,
    Listing,
    Checking(usize),
    Gleaning(usize),
    Shaping(usize),
    Over(VerifyEnd),
}

/// What the caller does next to verify: read the root records; read the
/// generation records; check the manifest of record `i` (reply done, or
/// the text of what is wrong); read the schema rows back; reply with the
/// store's physical shape; or report the end.
#[derive(Clone, Copy, Debug)]
pub enum VerifyAction {
    Roots,
    Generations,
    Check(usize),
    Glean,
    Shape,
    Finish(VerifyEnd),
}

/// Verifying's state.
#[derive(Debug)]
pub struct VerifyState {
    phase: VerifyPhase,
    active: i64,
    held: String,
    rows: Vec<Vec<Val>>,
    checks: Vec<Option<String>>,
    note: String,
}

/// The content of verifying's state.
pub struct VerifyV {
    pub phase: VerifyPhase,
    pub active: i64,
    pub held: Seq<char>,
    pub rows: Seq<Seq<ValV>>,
    pub checks: Seq<Option<Seq<char>>>,
    pub note: Seq<char>,
}

/// The texts of optional notes.
pub open spec fn notes_view(c: Seq<Option<String>>) -> Seq<Option<Seq<char>>> {
    c.map_values(|x: Option<String>| match x {
        Some(s) => Some(s@),
        None => None,
    })
}

impl View for VerifyState {
    type V = VerifyV;

    closed spec fn view(&self) -> VerifyV {
        VerifyV {
            phase: self.phase,
            active: self.active,
            held: self.held@,
            rows: lines_view(self.rows@),
            checks: notes_view(self.checks@),
            note: self.note@,
        }
    }
}

/// A verifying state with a new phase and note.
pub open spec fn verify_at(s: VerifyV, phase: VerifyPhase, note: Seq<char>) -> VerifyV {
    VerifyV { phase, note, ..s }
}

/// What the generation records `rs`, with the manifest findings `cs`,
/// give for active generation `active`: the place of its record, or the
/// note of the first fault (see `current_of`).
pub open spec fn current_is(rs: Seq<Seq<ValV>>, cs: Seq<Option<Seq<char>>>, active: i64, out: Result<usize, Seq<char>>) -> bool {
    match records_fault(rs, cs) {
        Some(m) => out == Err::<usize, Seq<char>>(m),
        None => if actives(rs) != 1 {
            out == Err::<usize, Seq<char>>("catalog needs one active generation"@)
        } else {
            match out {
                Ok(i) => i < rs.len() && is_active(rs[i as int]) && int_val(rs[i as int][0]) == active,
                Err(m) => m == "catalog active generation mismatch"@ && forall|i: int|
                    0 <= i < rs.len() && is_active(#[trigger] rs[i]) ==> int_val(rs[i][0]) != active,
            }
        },
    }
}

/// One step of verifying: the root must be one record of three values in
/// this engine's format; then every generation record must keep its
/// lifecycle and have a sound manifest, with exactly one active, the one
/// the root names; then the schema rows are read back; then the store's
/// physical shape must be the shape the root recorded, else drift.
pub open spec fn verify_moves(s: VerifyV, r: ReplyV, t: VerifyV, a: VerifyAction) -> bool {
    match s.phase {
        VerifyPhase::Start => (t, a) == (verify_at(s, VerifyPhase::Rooting, s.note), VerifyAction::Roots),
        VerifyPhase::Rooting => match r {
            ReplyV::Rows(rs) => if rs.len() != 1 || rs[0].len() != 3 {
                (t, a) == (
                    verify_at(s, VerifyPhase::Over(VerifyEnd::Unknown), "catalog needs one record"@),
                    VerifyAction::Finish(VerifyEnd::Unknown),
                )
            } else if int_val(rs[0][0]) != FORMAT {
                (t, a) == (
                    verify_at(s, VerifyPhase::Over(VerifyEnd::Format(int_val(rs[0][0]))), s.note),
                    VerifyAction::Finish(VerifyEnd::Format(int_val(rs[0][0]))),
                )
            } else {
                (t, a) == (
                    VerifyV {
                        phase: VerifyPhase::Listing,
                        active: int_val(rs[0][1]),
                        held: val_text(rs[0][2]),
                        ..s
                    },
                    VerifyAction::Generations,
                )
            },
            _ => (t, a) == (verify_at(s, VerifyPhase::Over(VerifyEnd::Failed), s.note), VerifyAction::Finish(VerifyEnd::Failed)),
        },
        VerifyPhase::Listing => match r {
            ReplyV::Rows(rows) => settled(VerifyV { rows, checks: Seq::empty(), ..s }, t, a),
            _ => (t, a) == (verify_at(s, VerifyPhase::Over(VerifyEnd::Failed), s.note), VerifyAction::Finish(VerifyEnd::Failed)),
        },
        VerifyPhase::Checking(i) => match r {
            ReplyV::Done => settled(VerifyV { checks: s.checks.push(None), ..s }, t, a),
            ReplyV::Text(n) => settled(VerifyV { checks: s.checks.push(Some(n)), ..s }, t, a),
            _ => (t, a) == (verify_at(s, VerifyPhase::Over(VerifyEnd::Failed), s.note), VerifyAction::Finish(VerifyEnd::Failed)),
        },
        VerifyPhase::Gleaning(k) => if r is Done {
            (t, a) == (verify_at(s, VerifyPhase::Shaping(k), s.note), VerifyAction::Shape)
        } else {
            (t, a) == (verify_at(s, VerifyPhase::Over(VerifyEnd::Failed), s.note), VerifyAction::Finish(VerifyEnd::Failed))
        },
        VerifyPhase::Shaping(k) => match r {
            ReplyV::Text(found) => if found == s.held {
                (t, a) == (verify_at(s, VerifyPhase::Over(VerifyEnd::Bound(k)), s.note), VerifyAction::Finish(VerifyEnd::Bound(k)))
            } else {
                (t, a) == (verify_at(s, VerifyPhase::Over(VerifyEnd::Drifted), found), VerifyAction::Finish(VerifyEnd::Drifted))
            },
            _ => (t, a) == (verify_at(s, VerifyPhase::Over(VerifyEnd::Failed), s.note), VerifyAction::Finish(VerifyEnd::Failed)),
        },
        VerifyPhase::Over(e) => (t, a) == (s, VerifyAction::Finish(e)),
    }
}

/// With the records read and `s.checks` found for the first of them:
/// check the next record's manifest; with all checked, settle the active
/// generation, and on success read the schema rows back.
pub open spec fn settled(s: VerifyV, t: VerifyV, a: VerifyAction) -> bool {
    if s.checks.len() < s.rows.len() {
        (t, a) == (verify_at(s, VerifyPhase::Checking(s.checks.len() as usize), s.note), VerifyAction::Check(s.checks.len() as usize))
    } else {
        exists|out: Result<usize, Seq<char>>| current_is(s.rows, s.checks, s.active, out) && match out {
            Ok(k) => (t, a) == (verify_at(s, VerifyPhase::Gleaning(k), s.note), VerifyAction::Glean),
            Err(m) => (t, a) == (verify_at(s, VerifyPhase::Over(VerifyEnd::Unknown), m), VerifyAction::Finish(VerifyEnd::Unknown)),
        }
    }
}

fn copy_rows(v: &Vec<Vec<Val>>) -> (r: Vec<Vec<Val>>)
    ensures
        lines_view(r@) == lines_view(v@),
{
    let mut out: Vec<Vec<Val>> = Vec::new();
    let mut i: usize = 0;
    while i < v.len()
        invariant
            0 <= i <= v@.len(),
            lines_view(out@) == lines_view(v@).take(i as int),
        decreases v@.len() - i,
    {
        let mut row: Vec<Val> = Vec::new();
        let mut j: usize = 0;
        while j < v[i].len()
            invariant
                0 <= j <= v@[i as int]@.len(),
                i < v@.len(),
                crate::life::util::vals_view(row@) == crate::life::util::vals_view(v@[i as int]@).take(j as int),
            decreases v@[i as int]@.len() - j,
        {
            let x = crate::life::write::copy_val(&v[i][j]);
            let ghost was = crate::life::util::vals_view(row@);
            row.push(x);
            assert(crate::life::util::vals_view(row@) =~= was.push(v@[i as int]@[j as int]@));
            assert(crate::life::util::vals_view(v@[i as int]@).take(j + 1) =~= crate::life::util::vals_view(
                v@[i as int]@,
            ).take(j as int).push(v@[i as int]@[j as int]@));
            j = j + 1;
        }
        assert(crate::life::util::vals_view(v@[i as int]@).take(v@[i as int]@.len() as int) =~= crate::life::util::vals_view(
            v@[i as int]@,
        ));
        let ghost was = lines_view(out@);
        out.push(row);
        assert(lines_view(out@) =~= was.push(lines_view(v@)[i as int]));
        assert(lines_view(v@).take(i + 1) =~= lines_view(v@).take(i as int).push(lines_view(v@)[i as int]));
        i = i + 1;
    }
    assert(lines_view(v@).take(v@.len() as int) =~= lines_view(v@));
    out
}

fn copy_notes(v: &Vec<Option<String>>) -> (r: Vec<Option<String>>)
    ensures
        notes_view(r@) == notes_view(v@),
{
    let mut out: Vec<Option<String>> = Vec::new();
    let mut i: usize = 0;
    while i < v.len()
        invariant
            0 <= i <= v@.len(),
            notes_view(out@) == notes_view(v@).take(i as int),
        decreases v@.len() - i,
    {
        let x = match &v[i] {
            Some(s) => Some(s.clone()),
            None => None,
        };
        let ghost was = notes_view(out@);
        out.push(x);
        assert(notes_view(out@) =~= was.push(notes_view(v@)[i as int]));
        assert(notes_view(v@).take(i + 1) =~= notes_view(v@).take(i as int).push(notes_view(v@)[i as int]));
        i = i + 1;
    }
    assert(notes_view(v@).take(v@.len() as int) =~= notes_view(v@));
    out
}

impl VerifyState {
    /// Verifying before its first step.
    pub fn start() -> (r: VerifyState)
        ensures
            r@.phase == VerifyPhase::Start,
            verify_wf(r@),
    {
        let r = VerifyState { phase: VerifyPhase::Start, active: 0, held: String::new(), rows: Vec::new(), checks: Vec::new(), note: String::new() };
        assert(notes_view(r.checks@) =~= Seq::<Option<Seq<char>>>::empty());
        r
    }

    /// Where verifying stands.
    pub fn phase(&self) -> (r: VerifyPhase)
        ensures
            r == self@.phase,
    {
        self.phase
    }

    /// The generation records read.
    pub fn rows(&self) -> (r: &[Vec<Val>])
        ensures
            lines_view(r@) == self@.rows,
    {
        self.rows.as_slice()
    }

    /// The active generation the root names.
    pub fn active(&self) -> (r: i64)
        ensures
            r == self@.active,
    {
        self.active
    }

    /// The shape the root recorded.
    pub fn held(&self) -> (r: &str)
        ensures
            r@ == self@.held,
    {
        self.held.as_str()
    }

    /// The note of a refusal, or the shape found on drift.
    pub fn note(&self) -> (r: &str)
        ensures
            r@ == self@.note,
    {
        self.note.as_str()
    }

    fn moved(&self, phase: VerifyPhase, note: String) -> (r: VerifyState)
        ensures
            r@ == verify_at(self@, phase, note@),
    {
        VerifyState {
            phase,
            active: self.active,
            held: self.held.clone(),
            rows: copy_rows(&self.rows),
            checks: copy_notes(&self.checks),
            note,
        }
    }
}

fn unknown_text(e: &Error) -> (s: String)
    ensures
        e matches Error::Estate(Fault::Unknown(m)) ==> s@ == m@,
{
    match e {
        Error::Estate(Fault::Unknown(m)) => m.clone(),
        _ => String::new(),
    }
}

fn settle_now(s: VerifyState) -> (r: (VerifyState, VerifyAction))
    requires
        s@.checks.len() <= s@.rows.len(),
    ensures
        settled(s@, r.0@, r.1),
        verify_wf(r.0@),
{
    if s.checks.len() < s.rows.len() {
        let i = s.checks.len();
        (VerifyState { phase: VerifyPhase::Checking(i), ..s }, VerifyAction::Check(i))
    } else {
        let out = current_of(s.rows.as_slice(), s.checks.as_slice(), s.active);
        match out {
            Ok(k) => {
                proof {
                    assert(current_is(s@.rows, s@.checks, s@.active, Ok::<usize, Seq<char>>(k)));
                }
                (VerifyState { phase: VerifyPhase::Gleaning(k), ..s }, VerifyAction::Glean)
            },
            Err(e) => {
                let n = unknown_text(&e);
                proof {
                    assert(current_is(s@.rows, s@.checks, s@.active, Err::<usize, Seq<char>>(n@)));
                }
                (VerifyState { phase: VerifyPhase::Over(VerifyEnd::Unknown), note: n, ..s }, VerifyAction::Finish(VerifyEnd::Unknown))
            },
        }
    }
}

/// What a verifying state keeps: no more manifest findings than records,
/// and fewer while a record's manifest is being checked.
pub open spec fn verify_wf(s: VerifyV) -> bool {
    &&& s.checks.len() <= s.rows.len()
    &&& s.phase is Checking ==> s.checks.len() < s.rows.len()
}

/// One step of verifying, as `verify_moves` states it.
pub fn verify_step(at: &VerifyState, reply: &Reply) -> (r: (VerifyState, VerifyAction))
    requires
        verify_wf(at@),
    ensures
        verify_moves(at@, reply@, r.0@, r.1),
        verify_wf(r.0@),
{
    let failed = VerifyEnd::Failed;
    match at.phase {
        VerifyPhase::Start => (at.moved(VerifyPhase::Rooting, at.note.clone()), VerifyAction::Roots),
        VerifyPhase::Rooting => match reply {
            Reply::Rows(rs) => match catalog_root(rs.as_slice()) {
                Ok((active, held)) => {
                    (
                        VerifyState {
                            phase: VerifyPhase::Listing,
                            active,
                            held,
                            rows: copy_rows(&at.rows),
                            checks: copy_notes(&at.checks),
                            note: at.note.clone(),
                        },
                        VerifyAction::Generations,
                    )
                },
                Err(Error::Estate(Fault::Format { found, .. })) => (
                    at.moved(VerifyPhase::Over(VerifyEnd::Format(found)), at.note.clone()),
                    VerifyAction::Finish(VerifyEnd::Format(found)),
                ),
                Err(e) => {
                    let n = unknown_text(&e);
                    proof {
                        reveal_strlit("catalog needs one record");
                    }
                    (at.moved(VerifyPhase::Over(VerifyEnd::Unknown), n), VerifyAction::Finish(VerifyEnd::Unknown))
                },
            },
            _ => (at.moved(VerifyPhase::Over(failed), at.note.clone()), VerifyAction::Finish(failed)),
        },
        VerifyPhase::Listing => match reply {
            Reply::Rows(rows) => {
                let s = VerifyState {
                    phase: at.phase,
                    active: at.active,
                    held: at.held.clone(),
                    rows: copy_rows(rows),
                    checks: Vec::new(),
                    note: at.note.clone(),
                };
                assert(notes_view(s.checks@) =~= Seq::<Option<Seq<char>>>::empty());
                settle_now(s)
            },
            _ => (at.moved(VerifyPhase::Over(failed), at.note.clone()), VerifyAction::Finish(failed)),
        },
        VerifyPhase::Checking(i) => {
            let found: Option<String> = match reply {
                Reply::Done => None,
                Reply::Text(n) => Some(n.clone()),
                _ => {
                    return (at.moved(VerifyPhase::Over(failed), at.note.clone()), VerifyAction::Finish(failed));
                },
            };
            let mut checks = copy_notes(&at.checks);
            let ghost was = notes_view(checks@);
            let ghost fv = match &found {
                Some(s) => Some(s@),
                None => None::<Seq<char>>,
            };
            checks.push(found);
            assert(notes_view(checks@) =~= was.push(fv));
            let s = VerifyState {
                phase: at.phase,
                active: at.active,
                held: at.held.clone(),
                rows: copy_rows(&at.rows),
                checks,
                note: at.note.clone(),
            };
            settle_now(s)
        },
        VerifyPhase::Gleaning(k) => match reply {
            Reply::Done => (at.moved(VerifyPhase::Shaping(k), at.note.clone()), VerifyAction::Shape),
            _ => (at.moved(VerifyPhase::Over(failed), at.note.clone()), VerifyAction::Finish(failed)),
        },
        VerifyPhase::Shaping(k) => match reply {
            Reply::Text(found) => if same(found.as_str(), at.held.as_str()) {
                (at.moved(VerifyPhase::Over(VerifyEnd::Bound(k)), at.note.clone()), VerifyAction::Finish(VerifyEnd::Bound(k)))
            } else {
                (at.moved(VerifyPhase::Over(VerifyEnd::Drifted), found.clone()), VerifyAction::Finish(VerifyEnd::Drifted))
            },
            _ => (at.moved(VerifyPhase::Over(failed), at.note.clone()), VerifyAction::Finish(failed)),
        },
        VerifyPhase::Over(e) => (at.moved(VerifyPhase::Over(e), at.note.clone()), VerifyAction::Finish(e)),
    }
}

/// Verifying binds the estate only when the store's shape is the shape
/// recorded: a differing shape ends it as drifted.
pub proof fn lemma_verify_drift(s: VerifyV, found: Seq<char>, t: VerifyV, a: VerifyAction, k: usize)
    requires
        s.phase == VerifyPhase::Shaping(k),
        verify_moves(s, ReplyV::Text(found), t, a),
    ensures
        found != s.held ==> a == VerifyAction::Finish(VerifyEnd::Drifted),
        found == s.held ==> a == VerifyAction::Finish(VerifyEnd::Bound(k)),
{
}

} // verus!
