//! The estate's transactional sequences as step machines. Each step takes
//! the state reached and the store's reply to the last action, and gives
//! the next state and the next action for the caller to perform on its
//! store. A schema move and a cleanup each run inside one transaction: a
//! store fault or a refusal rolls it back.
use vstd::prelude::*;
use crate::error::Error;
use crate::estate::{Change, Fault, StepV};
use crate::estate::catalog::{lines_view, unknown_is};
use crate::estate::cleanup::{Refusal, due_list, due_spec};
use crate::estate::evolve::{contract, contract_of, texts};
use crate::config::Retain;
use crate::life::util::{int_val, vals_view};
use crate::life::write::cells_view;
use crate::plan::Plan;
use crate::text::{own, same};
use crate::wire::{Val, ValV};

verus! {

/// The store's answer to the last action: it was done; a check held or
/// not; a count of changed records; the key of a new record; a text;
/// records read; the named cells of the one row read; or the store failed
/// (the caller keeps that error).
#[derive(Debug)]
pub enum Reply {
    Done,
    Holds(bool),
    Count(u64),
    Key(i64),
    Text(String),
    Rows(Vec<Vec<Val>>),
    Cells(Vec<(String, Val)>),
    Fault,
}

/// The content of a reply.
pub enum ReplyV {
    Done,
    Holds(bool),
    Count(u64),
    Key(i64),
    Text(Seq<char>),
    Rows(Seq<Seq<ValV>>),
    Cells(Seq<(Seq<char>, ValV)>),
    Fault,
}

impl View for Reply {
    type V = ReplyV;

    open spec fn view(&self) -> ReplyV {
        match self {
            Reply::Done => ReplyV::Done,
            Reply::Holds(b) => ReplyV::Holds(*b),
            Reply::Count(n) => ReplyV::Count(*n),
            Reply::Key(k) => ReplyV::Key(*k),
            Reply::Cells(h) => ReplyV::Cells(cells_view(h@)),
            Reply::Text(s) => ReplyV::Text(s@),
            Reply::Rows(rows) => ReplyV::Rows(lines_view(rows@)),
            Reply::Fault => ReplyV::Fault,
        }
    }
}

// ---------------------------------------------------------------------
// Schema move
// ---------------------------------------------------------------------

/// What a schema move works from: whether each step of the change has a
/// check, the pulse paths the move drops, the active generation, and the
/// time the move is stamped with.
#[derive(Debug)]
pub struct Move {
    checks: Vec<bool>,
    gone: Vec<String>,
    old: i64,
    now: i64,
}

/// The content of a move.
pub struct MoveV {
    pub checks: Seq<bool>,
    pub gone: Seq<Seq<char>>,
    pub old: i64,
    pub now: i64,
}

impl View for Move {
    type V = MoveV;

    closed spec fn view(&self) -> MoveV {
        MoveV { checks: self.checks@, gone: texts(self.gone@), old: self.old, now: self.now }
    }
}

/// How a schema move ended: moved to the new generation, blocked by the
/// check of a step, refused for want of a generation number, or failed at
/// the store.
#[derive(Clone, Copy, Debug)]
pub enum MoveEnd {
    Moved(i64),
    Blocked(usize),
    Unclocked,
    Failed,
}

/// Where a schema move stands: each state waits for the reply to the
/// action that led to it; the generation being built rides along.
#[derive(Clone, Copy, Debug)]
pub enum MoveState {
    Start,
    Begun,
    Holding(usize),
    Granting,
    Drawing,
    Inserting(i64),
    Building(i64),
    Copying(i64),
    Renaming(i64),
    Forgetting(i64, usize),
    Retiring(i64),
    Activating(i64),
    Resealing(i64),
    Rewriting(i64),
    Committing(i64),
    Undoing(MoveEnd),
    Over(MoveEnd),
}

/// What the caller does next for a schema move.
#[derive(Clone, Copy, Debug)]
pub enum MoveAction {
    /// Open the transaction.
    Begin,
    /// Run the check of step `j` of the change on the stored data.
    Hold(usize),
    /// Check the grants the new model asks for.
    Grants,
    /// Draw the next generation number from the clock.
    Draw,
    /// Insert generation `id` as a candidate, created at `at`.
    Candidate { id: i64, at: i64 },
    /// Create the candidate tables of generation `n`.
    Tables(i64),
    /// Copy the active data into the tables of generation `n`.
    Copy(i64),
    /// Stage the active tables as generation `old`, and give the tables of
    /// generation `new` their names.
    Rename { old: i64, new: i64 },
    /// Delete the pulse records of dropped path `k`.
    Forget(usize),
    /// Mark generation `id` for cleanup, retired at `at`.
    Retire { id: i64, at: i64 },
    /// Mark generation `n` active.
    Activate(i64),
    /// Record generation `n` and the physical shape in the estate root.
    Reseal(i64),
    /// Rewrite the stored schema rows for the requested model.
    Rewrite(i64),
    /// Commit the transaction.
    Commit,
    /// Roll the transaction back.
    Rollback,
    /// Report the end.
    Finish(MoveEnd),
}

/// The first step at or after `from` that has a check.
pub open spec fn next_check(c: Seq<bool>, from: nat) -> Option<nat>
    decreases c.len() - from,
{
    if from >= c.len() {
        None
    } else if c[from as int] {
        Some(from)
    } else {
        next_check(c, from + 1)
    }
}

/// Run the next check at or after `from`, or, when none is left, the grants.
pub open spec fn hold_from(w: MoveV, from: nat) -> (MoveState, MoveAction) {
    match next_check(w.checks, from) {
        Some(j) => (MoveState::Holding(j as usize), MoveAction::Hold(j as usize)),
        None => (MoveState::Granting, MoveAction::Grants),
    }
}

/// Drop the pulse records of path `from` of generation `n`'s move, or,
/// when none is left, retire the old generation.
pub open spec fn forget_from(w: MoveV, n: i64, from: nat) -> (MoveState, MoveAction) {
    if from < w.gone.len() {
        (MoveState::Forgetting(n, from as usize), MoveAction::Forget(from as usize))
    } else {
        (MoveState::Retiring(n), MoveAction::Retire { id: w.old, at: w.now })
    }
}

/// A store fault inside the transaction: roll back, then report failure.
pub open spec fn move_fails() -> (MoveState, MoveAction) {
    (MoveState::Undoing(MoveEnd::Failed), MoveAction::Rollback)
}

/// One step of a schema move: open the transaction; run each step's check
/// in order, stopping at the first that fails; check grants; draw the new
/// generation number; insert it as a candidate; build and fill its tables;
/// swap the table names; drop the pulse records of dropped paths; retire
/// the old generation and activate the new one; reseal the estate root;
/// rewrite the schema rows; commit. Anything but the expected reply inside
/// the transaction rolls it back; a failed `BEGIN` or `COMMIT` ends the
/// move without one.
pub open spec fn migrate_next(w: MoveV, s: MoveState, r: ReplyV) -> (MoveState, MoveAction) {
    match s {
        MoveState::Start => (MoveState::Begun, MoveAction::Begin),
        MoveState::Begun => if r is Done {
            hold_from(w, 0)
        } else {
            (MoveState::Over(MoveEnd::Failed), MoveAction::Finish(MoveEnd::Failed))
        },
        MoveState::Holding(j) => match r {
            ReplyV::Holds(b) => if b {
                hold_from(w, (j + 1) as nat)
            } else {
                (MoveState::Undoing(MoveEnd::Blocked(j)), MoveAction::Rollback)
            },
            _ => move_fails(),
        },
        MoveState::Granting => if r is Done {
            (MoveState::Drawing, MoveAction::Draw)
        } else {
            move_fails()
        },
        MoveState::Drawing => match r {
            ReplyV::Rows(rows) => if rows.len() > 0 && rows[0].len() > 0 {
                (
                    MoveState::Inserting(int_val(rows[0][0])),
                    MoveAction::Candidate { id: int_val(rows[0][0]), at: w.now },
                )
            } else {
                (MoveState::Undoing(MoveEnd::Unclocked), MoveAction::Rollback)
            },
            _ => move_fails(),
        },
        MoveState::Inserting(n) => if r is Done {
            (MoveState::Building(n), MoveAction::Tables(n))
        } else {
            move_fails()
        },
        MoveState::Building(n) => if r is Done {
            (MoveState::Copying(n), MoveAction::Copy(n))
        } else {
            move_fails()
        },
        MoveState::Copying(n) => if r is Done {
            (MoveState::Renaming(n), MoveAction::Rename { old: w.old, new: n })
        } else {
            move_fails()
        },
        MoveState::Renaming(n) => if r is Done {
            forget_from(w, n, 0)
        } else {
            move_fails()
        },
        MoveState::Forgetting(n, k) => if r is Done {
            forget_from(w, n, (k + 1) as nat)
        } else {
            move_fails()
        },
        MoveState::Retiring(n) => if r is Done {
            (MoveState::Activating(n), MoveAction::Activate(n))
        } else {
            move_fails()
        },
        MoveState::Activating(n) => if r is Done {
            (MoveState::Resealing(n), MoveAction::Reseal(n))
        } else {
            move_fails()
        },
        MoveState::Resealing(n) => if r is Done {
            (MoveState::Rewriting(n), MoveAction::Rewrite(n))
        } else {
            move_fails()
        },
        MoveState::Rewriting(n) => if r is Done {
            (MoveState::Committing(n), MoveAction::Commit)
        } else {
            move_fails()
        },
        MoveState::Committing(n) => if r is Done {
            (MoveState::Over(MoveEnd::Moved(n)), MoveAction::Finish(MoveEnd::Moved(n)))
        } else {
            (MoveState::Over(MoveEnd::Failed), MoveAction::Finish(MoveEnd::Failed))
        },
        MoveState::Undoing(o) => (MoveState::Over(o), MoveAction::Finish(o)),
        MoveState::Over(o) => (MoveState::Over(o), MoveAction::Finish(o)),
    }
}

/// Whether each step of a change has a check.
pub open spec fn checked(steps: Seq<StepV>) -> Seq<bool> {
    steps.map_values(|s: StepV| s.check is Some)
}

impl Move {
    /// The move of `change` from model `active`, held as generation
    /// `generation`, to model `requested`, stamped at `now`.
    pub fn new(change: &Change, active: &Plan, requested: &Plan, generation: i64, now: i64) -> (r: Move)
        ensures
            r@ == (MoveV {
                checks: checked(change@),
                gone: contract_of(active@, requested@),
                old: generation,
                now,
            }),
    {
        let steps = change.steps();
        let mut checks: Vec<bool> = Vec::new();
        let mut i: usize = 0;
        while i < steps.len()
            invariant
                0 <= i <= steps@.len(),
                crate::estate::steps_view(steps@) == change@,
                checks@.len() == i,
                forall|k: int| 0 <= k < i ==> checks@[k] == (change@[k].check is Some),
            decreases steps@.len() - i,
        {
            assert(change@[i as int] == steps@[i as int]@);
            checks.push(steps[i].check().is_some());
            i = i + 1;
        }
        assert(checks@ =~= checked(change@));
        Move { checks, gone: contract(active, requested), old: generation, now }
    }

    /// Dropped path `k`, whose pulse records `Forget(k)` deletes.
    pub fn forgotten(&self, k: usize) -> (r: &str)
        requires
            k < self@.gone.len(),
        ensures
            r@ == self@.gone[k as int],
    {
        self.gone[k].as_str()
    }

    fn hold_from(&self, from: usize) -> (r: (MoveState, MoveAction))
        ensures
            r == hold_from(self@, from as nat),
    {
        let ghost c = self.checks@;
        let mut k: usize = from;
        while k < self.checks.len()
            invariant
                c == self.checks@,
                from <= k,
                next_check(c, from as nat) == next_check(c, k as nat),
            decreases self.checks@.len() - k,
        {
            if self.checks[k] {
                return (MoveState::Holding(k), MoveAction::Hold(k));
            }
            k = k + 1;
        }
        (MoveState::Granting, MoveAction::Grants)
    }

    fn forget_from(&self, n: i64, from: usize) -> (r: (MoveState, MoveAction))
        ensures
            r == forget_from(self@, n, from as nat),
    {
        if from < self.gone.len() {
            (MoveState::Forgetting(n, from), MoveAction::Forget(from))
        } else {
            (MoveState::Retiring(n), MoveAction::Retire { id: self.old, at: self.now })
        }
    }
}

/// The refusal of a move blocked at step `j` of `change`.
pub fn blocked_at(change: &Change, j: usize) -> (e: Error)
    requires
        j < change@.len(),
        change@[j as int].check is Some,
    ensures
        e matches Error::Estate(Fault::Blocked { path, check }) && path@ == change@[j as int].path
            && change@[j as int].check == Some(check),
{
    let steps = change.steps();
    assert(change@[j as int] == steps@[j as int]@);
    let check = steps[j].check().unwrap();
    Error::Estate(Fault::Blocked { path: own(steps[j].path()), check })
}

/// The refusal of a move whose generation clock gave no number.
pub fn unclocked() -> (e: Error)
    ensures
        unknown_is(e, "clock generation"@),
{
    Error::Estate(Fault::Unknown(own("clock generation")))
}

/// One step of a schema move, as `migrate_next` states it.
pub fn migrate_step(work: &Move, at: &MoveState, reply: &Reply) -> (r: (MoveState, MoveAction))
    ensures
        r == migrate_next(work@, *at, reply@),
{
    let fails = (MoveState::Undoing(MoveEnd::Failed), MoveAction::Rollback);
    let done = match reply {
        Reply::Done => true,
        _ => false,
    };
    match *at {
        MoveState::Start => (MoveState::Begun, MoveAction::Begin),
        MoveState::Begun => if done {
            work.hold_from(0)
        } else {
            (MoveState::Over(MoveEnd::Failed), MoveAction::Finish(MoveEnd::Failed))
        },
        MoveState::Holding(j) => match reply {
            Reply::Holds(b) => if *b {
                if j < work.checks.len() {
                    work.hold_from(j + 1)
                } else {
                    (MoveState::Granting, MoveAction::Grants)
                }
            } else {
                (MoveState::Undoing(MoveEnd::Blocked(j)), MoveAction::Rollback)
            },
            _ => fails,
        },
        MoveState::Granting => if done {
            (MoveState::Drawing, MoveAction::Draw)
        } else {
            fails
        },
        MoveState::Drawing => match reply {
            Reply::Rows(rows) => {
                proof {
                    if rows@.len() > 0 {
                        assert(lines_view(rows@)[0] == vals_view(rows@[0]@));
                    }
                }
                if rows.len() > 0 && rows[0].len() > 0 {
                    assert(vals_view(rows@[0]@)[0] == rows@[0]@[0]@);
                    let n = rows[0][0].integer();
                    (MoveState::Inserting(n), MoveAction::Candidate { id: n, at: work.now })
                } else {
                    (MoveState::Undoing(MoveEnd::Unclocked), MoveAction::Rollback)
                }
            },
            _ => fails,
        },
        MoveState::Inserting(n) => if done {
            (MoveState::Building(n), MoveAction::Tables(n))
        } else {
            fails
        },
        MoveState::Building(n) => if done {
            (MoveState::Copying(n), MoveAction::Copy(n))
        } else {
            fails
        },
        MoveState::Copying(n) => if done {
            (MoveState::Renaming(n), MoveAction::Rename { old: work.old, new: n })
        } else {
            fails
        },
        MoveState::Renaming(n) => if done {
            work.forget_from(n, 0)
        } else {
            fails
        },
        MoveState::Forgetting(n, k) => if done {
            if k < work.gone.len() {
                work.forget_from(n, k + 1)
            } else {
                (MoveState::Retiring(n), MoveAction::Retire { id: work.old, at: work.now })
            }
        } else {
            fails
        },
        MoveState::Retiring(n) => if done {
            (MoveState::Activating(n), MoveAction::Activate(n))
        } else {
            fails
        },
        MoveState::Activating(n) => if done {
            (MoveState::Resealing(n), MoveAction::Reseal(n))
        } else {
            fails
        },
        MoveState::Resealing(n) => if done {
            (MoveState::Rewriting(n), MoveAction::Rewrite(n))
        } else {
            fails
        },
        MoveState::Rewriting(n) => if done {
            (MoveState::Committing(n), MoveAction::Commit)
        } else {
            fails
        },
        MoveState::Committing(n) => if done {
            (MoveState::Over(MoveEnd::Moved(n)), MoveAction::Finish(MoveEnd::Moved(n)))
        } else {
            (MoveState::Over(MoveEnd::Failed), MoveAction::Finish(MoveEnd::Failed))
        },
        MoveState::Undoing(o) => (MoveState::Over(o), MoveAction::Finish(o)),
        MoveState::Over(o) => (MoveState::Over(o), MoveAction::Finish(o)),
    }
}

// ---------------------------------------------------------------------
// Cleanup
// ---------------------------------------------------------------------

/// How a cleanup ended: collected what was due, refused, or failed at the
/// store.
#[derive(Clone, Copy, Debug)]
pub enum SweepEnd {
    Swept,
    Refused(Refusal),
    Failed,
}

/// Where a cleanup stands; the index names a generation of the due list.
#[derive(Clone, Copy, Debug)]
pub enum SweepPhase {
    Start,
    Begun,
    Reading,
    Recalling(usize),
    Saving(usize),
    Dropping(usize),
    Deleting(usize),
    Purging(usize),
    Resealing,
    Committing,
    Undoing(SweepEnd),
    Over(SweepEnd),
}

/// A cleanup's state: where it stands, and the generations found due.
#[derive(Debug)]
pub struct SweepState {
    phase: SweepPhase,
    due: Vec<i64>,
}

/// The content of a cleanup's state.
pub struct SweepV {
    pub phase: SweepPhase,
    pub due: Seq<i64>,
}

impl View for SweepState {
    type V = SweepV;

    closed spec fn view(&self) -> SweepV {
        SweepV { phase: self.phase, due: self.due@ }
    }
}

/// What the caller does next for a cleanup.
#[derive(Clone, Copy, Debug)]
pub enum SweepAction {
    /// Open the transaction.
    Begin,
    /// Read the id and retirement time of each generation marked for
    /// cleanup, in ascending id order.
    Records,
    /// Read back the schema rows of generation `g`.
    Recall(i64),
    /// Save the events of the records generation `g` loses, created at `at`.
    Save { generation: i64, at: i64 },
    /// Drop the staged tables of generation `g`.
    Drop(i64),
    /// Delete the record of generation `g`, if still marked for cleanup,
    /// and reply with the number of records deleted.
    Delete(i64),
    /// Delete the schema rows of generation `g`.
    Purge(i64),
    /// Record the physical shape in the estate root, and reply with the
    /// number of records changed.
    Reseal,
    /// Commit the transaction.
    Commit,
    /// Roll the transaction back.
    Rollback,
    /// Report the end.
    Finish(SweepEnd),
}

/// A cleanup state.
pub open spec fn sweep_at(phase: SweepPhase, due: Seq<i64>) -> SweepV {
    SweepV { phase, due }
}

/// A store fault inside the transaction: roll back, then report failure.
pub open spec fn sweep_fails(due: Seq<i64>) -> (SweepV, SweepAction) {
    (sweep_at(SweepPhase::Undoing(SweepEnd::Failed), due), SweepAction::Rollback)
}

/// One step of a cleanup at time `now` under retention `retain`: open the
/// transaction; read the cleanup records and settle which generations are
/// due (a malformed record refuses); with none due, commit; otherwise read
/// back each due generation's schema rows, then, generation by generation
/// in the order read, save its events, drop its tables, delete exactly its
/// record (another count refuses) and purge its schema rows; then reseal
/// the estate root, which must change exactly one record; commit. Anything
/// but the expected reply inside the transaction rolls it back.
pub open spec fn sweep_next(retain: Retain, now: i64, s: SweepV, r: ReplyV) -> (SweepV, SweepAction) {
    let d = s.due;
    match s.phase {
        SweepPhase::Start => (sweep_at(SweepPhase::Begun, d), SweepAction::Begin),
        SweepPhase::Begun => if r is Done {
            (sweep_at(SweepPhase::Reading, d), SweepAction::Records)
        } else {
            (sweep_at(SweepPhase::Over(SweepEnd::Failed), d), SweepAction::Finish(SweepEnd::Failed))
        },
        SweepPhase::Reading => match r {
            ReplyV::Rows(rows) => match due_spec(rows, retain, now) {
                Err(m) => (
                    sweep_at(SweepPhase::Undoing(SweepEnd::Refused(m)), d),
                    SweepAction::Rollback,
                ),
                Ok(ids) => if ids.len() == 0 {
                    (sweep_at(SweepPhase::Committing, ids), SweepAction::Commit)
                } else {
                    (sweep_at(SweepPhase::Recalling(0), ids), SweepAction::Recall(ids[0]))
                },
            },
            _ => sweep_fails(d),
        },
        SweepPhase::Recalling(i) => if r is Done && i < d.len() {
            if i + 1 < d.len() {
                (sweep_at(SweepPhase::Recalling((i + 1) as usize), d), SweepAction::Recall(d[i + 1]))
            } else {
                (sweep_at(SweepPhase::Saving(0), d), SweepAction::Save { generation: d[0], at: now })
            }
        } else {
            sweep_fails(d)
        },
        SweepPhase::Saving(i) => if r is Done && i < d.len() {
            (sweep_at(SweepPhase::Dropping(i), d), SweepAction::Drop(d[i as int]))
        } else {
            sweep_fails(d)
        },
        SweepPhase::Dropping(i) => if r is Done && i < d.len() {
            (sweep_at(SweepPhase::Deleting(i), d), SweepAction::Delete(d[i as int]))
        } else {
            sweep_fails(d)
        },
        SweepPhase::Deleting(i) => match r {
            ReplyV::Count(n) => if i >= d.len() {
                sweep_fails(d)
            } else if n == 1 {
                (sweep_at(SweepPhase::Purging(i), d), SweepAction::Purge(d[i as int]))
            } else {
                (
                    sweep_at(SweepPhase::Undoing(SweepEnd::Refused(Refusal::Changed)), d),
                    SweepAction::Rollback,
                )
            },
            _ => sweep_fails(d),
        },
        SweepPhase::Purging(i) => if r is Done && i < d.len() {
            if i + 1 < d.len() {
                (
                    sweep_at(SweepPhase::Saving((i + 1) as usize), d),
                    SweepAction::Save { generation: d[i + 1], at: now },
                )
            } else {
                (sweep_at(SweepPhase::Resealing, d), SweepAction::Reseal)
            }
        } else {
            sweep_fails(d)
        },
        SweepPhase::Resealing => match r {
            ReplyV::Count(n) => if n == 1 {
                (sweep_at(SweepPhase::Committing, d), SweepAction::Commit)
            } else {
                (
                    sweep_at(SweepPhase::Undoing(SweepEnd::Refused(Refusal::Root)), d),
                    SweepAction::Rollback,
                )
            },
            _ => sweep_fails(d),
        },
        SweepPhase::Committing => if r is Done {
            (sweep_at(SweepPhase::Over(SweepEnd::Swept), d), SweepAction::Finish(SweepEnd::Swept))
        } else {
            (sweep_at(SweepPhase::Over(SweepEnd::Failed), d), SweepAction::Finish(SweepEnd::Failed))
        },
        SweepPhase::Undoing(o) => (sweep_at(SweepPhase::Over(o), d), SweepAction::Finish(o)),
        SweepPhase::Over(o) => (sweep_at(SweepPhase::Over(o), d), SweepAction::Finish(o)),
    }
}

/// A copy of a list of generation ids.
fn copy_ids(v: &Vec<i64>) -> (r: Vec<i64>)
    ensures
        r@ == v@,
{
    let mut out: Vec<i64> = Vec::new();
    let mut i: usize = 0;
    while i < v.len()
        invariant
            0 <= i <= v@.len(),
            out@ == v@.take(i as int),
        decreases v@.len() - i,
    {
        assert(v@.take(i + 1) =~= v@.take(i as int).push(v@[i as int]));
        out.push(v[i]);
        i = i + 1;
    }
    assert(v@.take(v@.len() as int) =~= v@);
    out
}

impl SweepState {
    /// A cleanup before its first step.
    pub fn start() -> (r: SweepState)
        ensures
            r@ == sweep_at(SweepPhase::Start, Seq::empty()),
    {
        SweepState { phase: SweepPhase::Start, due: Vec::new() }
    }

    /// Where the cleanup stands.
    pub fn phase(&self) -> (r: SweepPhase)
        ensures
            r == self@.phase,
    {
        self.phase
    }

    fn moved(&self, phase: SweepPhase) -> (r: SweepState)
        ensures
            r@ == sweep_at(phase, self@.due),
    {
        SweepState { phase, due: copy_ids(&self.due) }
    }
}

/// One step of a cleanup, as `sweep_next` states it.
pub fn sweep_step(policy: &Retain, now: i64, at: &SweepState, reply: &Reply) -> (r: (SweepState, SweepAction))
    ensures
        (r.0@, r.1) == sweep_next(*policy, now, at@, reply@),
{
    let done = match reply {
        Reply::Done => true,
        _ => false,
    };
    let n = at.due.len();
    match at.phase {
        SweepPhase::Start => (at.moved(SweepPhase::Begun), SweepAction::Begin),
        SweepPhase::Begun => if done {
            (at.moved(SweepPhase::Reading), SweepAction::Records)
        } else {
            (at.moved(SweepPhase::Over(SweepEnd::Failed)), SweepAction::Finish(SweepEnd::Failed))
        },
        SweepPhase::Reading => match reply {
            Reply::Rows(rows) => match due_list(rows.as_slice(), policy, now) {
                Err(m) => (at.moved(SweepPhase::Undoing(SweepEnd::Refused(m))), SweepAction::Rollback),
                Ok(ids) => if ids.len() == 0 {
                    (SweepState { phase: SweepPhase::Committing, due: ids }, SweepAction::Commit)
                } else {
                    let first = ids[0];
                    (SweepState { phase: SweepPhase::Recalling(0), due: ids }, SweepAction::Recall(first))
                },
            },
            _ => (at.moved(SweepPhase::Undoing(SweepEnd::Failed)), SweepAction::Rollback),
        },
        SweepPhase::Recalling(i) => if done && i < n {
            if i + 1 < n {
                (at.moved(SweepPhase::Recalling(i + 1)), SweepAction::Recall(at.due[i + 1]))
            } else {
                (at.moved(SweepPhase::Saving(0)), SweepAction::Save { generation: at.due[0], at: now })
            }
        } else {
            (at.moved(SweepPhase::Undoing(SweepEnd::Failed)), SweepAction::Rollback)
        },
        SweepPhase::Saving(i) => if done && i < n {
            (at.moved(SweepPhase::Dropping(i)), SweepAction::Drop(at.due[i]))
        } else {
            (at.moved(SweepPhase::Undoing(SweepEnd::Failed)), SweepAction::Rollback)
        },
        SweepPhase::Dropping(i) => if done && i < n {
            (at.moved(SweepPhase::Deleting(i)), SweepAction::Delete(at.due[i]))
        } else {
            (at.moved(SweepPhase::Undoing(SweepEnd::Failed)), SweepAction::Rollback)
        },
        SweepPhase::Deleting(i) => match reply {
            Reply::Count(c) => if i >= n {
                (at.moved(SweepPhase::Undoing(SweepEnd::Failed)), SweepAction::Rollback)
            } else if *c == 1 {
                (at.moved(SweepPhase::Purging(i)), SweepAction::Purge(at.due[i]))
            } else {
                (at.moved(SweepPhase::Undoing(SweepEnd::Refused(Refusal::Changed))), SweepAction::Rollback)
            },
            _ => (at.moved(SweepPhase::Undoing(SweepEnd::Failed)), SweepAction::Rollback),
        },
        SweepPhase::Purging(i) => if done && i < n {
            if i + 1 < n {
                (at.moved(SweepPhase::Saving(i + 1)), SweepAction::Save { generation: at.due[i + 1], at: now })
            } else {
                (at.moved(SweepPhase::Resealing), SweepAction::Reseal)
            }
        } else {
            (at.moved(SweepPhase::Undoing(SweepEnd::Failed)), SweepAction::Rollback)
        },
        SweepPhase::Resealing => match reply {
            Reply::Count(c) => if *c == 1 {
                (at.moved(SweepPhase::Committing), SweepAction::Commit)
            } else {
                (at.moved(SweepPhase::Undoing(SweepEnd::Refused(Refusal::Root))), SweepAction::Rollback)
            },
            _ => (at.moved(SweepPhase::Undoing(SweepEnd::Failed)), SweepAction::Rollback),
        },
        SweepPhase::Committing => if done {
            (at.moved(SweepPhase::Over(SweepEnd::Swept)), SweepAction::Finish(SweepEnd::Swept))
        } else {
            (at.moved(SweepPhase::Over(SweepEnd::Failed)), SweepAction::Finish(SweepEnd::Failed))
        },
        SweepPhase::Undoing(o) => (at.moved(SweepPhase::Over(o)), SweepAction::Finish(o)),
        SweepPhase::Over(o) => (at.moved(SweepPhase::Over(o)), SweepAction::Finish(o)),
    }
}

// ---------------------------------------------------------------------
// Attach
// ---------------------------------------------------------------------

/// What attaching to an estate works from: whether an unsealed namespace
/// may be adopted, and the digest of the requested model.
#[derive(Debug)]
pub struct Attach {
    adopt: bool,
    digest: String,
}

/// The content of an attach.
pub struct AttachV {
    pub adopt: bool,
    pub digest: Seq<char>,
}

impl View for Attach {
    type V = AttachV;

    closed spec fn view(&self) -> AttachV {
        AttachV { adopt: self.adopt, digest: self.digest@ }
    }
}

impl Attach {
    pub fn new(adopt: bool, digest: String) -> (r: Attach)
        ensures
            r@ == (AttachV { adopt, digest: digest@ }),
    {
        Attach { adopt, digest }
    }
}

/// How attaching ended: the estate is ready; it is vacant and needs a
/// bootstrap; it is an unsealed namespace that may not be adopted; or a
/// store call or a nested sequence failed.
#[derive(Clone, Copy, Debug)]
pub enum AttachEnd {
    Ready,
    Vacant,
    Unsealed,
    Failed,
}

/// Where attaching stands.
#[derive(Clone, Copy, Debug)]
pub enum AttachState {
    Start,
    Probing,
    Sizing,
    Adopting,
    Verifying,
    Evolving,
    Cleaning,
    Over(AttachEnd),
}

/// What the caller does next to attach.
#[derive(Clone, Copy, Debug)]
pub enum AttachAction {
    /// Ask whether the estate catalog is present.
    Present,
    /// Ask whether the namespace is empty.
    Empty,
    /// Adopt the unsealed namespace.
    Adopt,
    /// Verify the estate, and reply with the digest of its active model.
    Verify,
    /// Run the schema move to the requested model.
    Evolve,
    /// Run the cleanup.
    Cleanup,
    /// Report the end.
    Finish(AttachEnd),
}

/// Attaching failed: report it.
pub open spec fn attach_fails() -> (AttachState, AttachAction) {
    (AttachState::Over(AttachEnd::Failed), AttachAction::Finish(AttachEnd::Failed))
}

/// One step of attaching: with a catalog present, verify it and move to
/// the requested model when the digests differ; without one, refuse an
/// empty namespace as vacant, and adopt a non-empty one only where
/// adoption is allowed, else refuse it as unsealed; then run the cleanup.
pub open spec fn attach_next(w: AttachV, s: AttachState, r: ReplyV) -> (AttachState, AttachAction) {
    match s {
        AttachState::Start => (AttachState::Probing, AttachAction::Present),
        AttachState::Probing => match r {
            ReplyV::Holds(b) => if b {
                (AttachState::Verifying, AttachAction::Verify)
            } else {
                (AttachState::Sizing, AttachAction::Empty)
            },
            _ => attach_fails(),
        },
        AttachState::Sizing => match r {
            ReplyV::Holds(b) => if b {
                (AttachState::Over(AttachEnd::Vacant), AttachAction::Finish(AttachEnd::Vacant))
            } else if w.adopt {
                (AttachState::Adopting, AttachAction::Adopt)
            } else {
                (AttachState::Over(AttachEnd::Unsealed), AttachAction::Finish(AttachEnd::Unsealed))
            },
            _ => attach_fails(),
        },
        AttachState::Adopting => if r is Done {
            (AttachState::Cleaning, AttachAction::Cleanup)
        } else {
            attach_fails()
        },
        AttachState::Verifying => match r {
            ReplyV::Text(d) => if d == w.digest {
                (AttachState::Cleaning, AttachAction::Cleanup)
            } else {
                (AttachState::Evolving, AttachAction::Evolve)
            },
            _ => attach_fails(),
        },
        AttachState::Evolving => if r is Done {
            (AttachState::Cleaning, AttachAction::Cleanup)
        } else {
            attach_fails()
        },
        AttachState::Cleaning => if r is Done {
            (AttachState::Over(AttachEnd::Ready), AttachAction::Finish(AttachEnd::Ready))
        } else {
            attach_fails()
        },
        AttachState::Over(o) => (AttachState::Over(o), AttachAction::Finish(o)),
    }
}

/// One step of attaching, as `attach_next` states it.
pub fn attach_step(work: &Attach, at: &AttachState, reply: &Reply) -> (r: (AttachState, AttachAction))
    ensures
        r == attach_next(work@, *at, reply@),
{
    let fails = (AttachState::Over(AttachEnd::Failed), AttachAction::Finish(AttachEnd::Failed));
    let done = match reply {
        Reply::Done => true,
        _ => false,
    };
    match *at {
        AttachState::Start => (AttachState::Probing, AttachAction::Present),
        AttachState::Probing => match reply {
            Reply::Holds(b) => if *b {
                (AttachState::Verifying, AttachAction::Verify)
            } else {
                (AttachState::Sizing, AttachAction::Empty)
            },
            _ => fails,
        },
        AttachState::Sizing => match reply {
            Reply::Holds(b) => if *b {
                (AttachState::Over(AttachEnd::Vacant), AttachAction::Finish(AttachEnd::Vacant))
            } else if work.adopt {
                (AttachState::Adopting, AttachAction::Adopt)
            } else {
                (AttachState::Over(AttachEnd::Unsealed), AttachAction::Finish(AttachEnd::Unsealed))
            },
            _ => fails,
        },
        AttachState::Adopting => if done {
            (AttachState::Cleaning, AttachAction::Cleanup)
        } else {
            fails
        },
        AttachState::Verifying => match reply {
            Reply::Text(d) => if same(d.as_str(), work.digest.as_str()) {
                (AttachState::Cleaning, AttachAction::Cleanup)
            } else {
                (AttachState::Evolving, AttachAction::Evolve)
            },
            _ => fails,
        },
        AttachState::Evolving => if done {
            (AttachState::Cleaning, AttachAction::Cleanup)
        } else {
            fails
        },
        AttachState::Cleaning => if done {
            (AttachState::Over(AttachEnd::Ready), AttachAction::Finish(AttachEnd::Ready))
        } else {
            fails
        },
        AttachState::Over(o) => (AttachState::Over(o), AttachAction::Finish(o)),
    }
}

/// The fault an attach that ended `Vacant` or `Unsealed` reports.
pub fn attach_fault(end: AttachEnd) -> (r: Option<Fault>)
    ensures
        r matches Some(f) ==> (end is Vacant && f is Vacant) || (end is Unsealed && f is Unsealed),
        r is Some <==> (end is Vacant || end is Unsealed),
{
    match end {
        AttachEnd::Vacant => Some(Fault::Vacant),
        AttachEnd::Unsealed => Some(Fault::Unsealed),
        _ => None,
    }
}

// ---------------------------------------------------------------------
// Laws
// ---------------------------------------------------------------------

/// The states of a schema move that wait inside its open transaction.
pub open spec fn inside_move(s: MoveState) -> bool {
    match s {
        MoveState::Holding(_) | MoveState::Granting | MoveState::Drawing | MoveState::Inserting(_)
        | MoveState::Building(_) | MoveState::Copying(_) | MoveState::Renaming(_)
        | MoveState::Forgetting(_, _) | MoveState::Retiring(_) | MoveState::Activating(_)
        | MoveState::Resealing(_) | MoveState::Rewriting(_) => true,
        _ => false,
    }
}

/// A schema move is all or nothing: a store fault anywhere inside its
/// transaction rolls the transaction back and ends the move as failed.
pub proof fn lemma_move_rolls_back(w: MoveV, s: MoveState)
    requires
        inside_move(s),
    ensures
        migrate_next(w, s, ReplyV::Fault) == (
            MoveState::Undoing(MoveEnd::Failed),
            MoveAction::Rollback,
        ),
        migrate_next(w, MoveState::Undoing(MoveEnd::Failed), ReplyV::Fault) == (
            MoveState::Over(MoveEnd::Failed),
            MoveAction::Finish(MoveEnd::Failed),
        ),
{
}

/// A schema move commits only once the schema rows are rewritten, the
/// last of its writes, and reports success only when that commit is done
/// (or repeats an end already reached).
pub proof fn lemma_move_commits_last(w: MoveV, s: MoveState, r: ReplyV)
    ensures
        migrate_next(w, s, r).1 is Commit ==> s is Rewriting && r is Done,
        migrate_next(w, s, r).1 matches MoveAction::Finish(MoveEnd::Moved(n)) ==> (
        s matches MoveState::Committing(m) && m == n && r is Done) || s == MoveState::Over(
            MoveEnd::Moved(n),
        ) || s == MoveState::Undoing(MoveEnd::Moved(n)),
{
}

/// A failed check blocks the move at its step: the transaction is rolled
/// back and the move reports that step, before any generation is drawn.
pub proof fn lemma_move_blocked(w: MoveV, j: usize)
    ensures
        migrate_next(w, MoveState::Holding(j), ReplyV::Holds(false)) == (
            MoveState::Undoing(MoveEnd::Blocked(j)),
            MoveAction::Rollback,
        ),
        migrate_next(w, MoveState::Undoing(MoveEnd::Blocked(j)), ReplyV::Done) == (
            MoveState::Over(MoveEnd::Blocked(j)),
            MoveAction::Finish(MoveEnd::Blocked(j)),
        ),
{
}

/// Cleanup saves a generation's events before it drops the generation's
/// tables: a drop follows only the saving of that same generation.
pub proof fn lemma_sweep_saves_first(retain: Retain, now: i64, s: SweepV, r: ReplyV)
    ensures
        sweep_next(retain, now, s, r).1 matches SweepAction::Drop(g) ==> (s.phase matches SweepPhase::Saving(
            i,
        ) && i < s.due.len() && s.due[i as int] == g && r is Done),
{
}

/// With nothing due, cleanup commits at once, touching nothing; with
/// retention `forever`, nothing is ever due.
pub proof fn lemma_sweep_nothing_due(retain: Retain, now: i64, s: SweepV, rows: Seq<Seq<ValV>>)
    requires
        s.phase is Reading,
        due_spec(rows, retain, now) matches Ok(ids) && ids.len() == 0
            || retain == Retain::Forever && due_spec(rows, retain, now) is Ok,
    ensures
        sweep_next(retain, now, s, ReplyV::Rows(rows)) == (
            sweep_at(SweepPhase::Committing, Seq::empty()),
            SweepAction::Commit,
        ),
{
    if retain == Retain::Forever {
        crate::estate::cleanup::lemma_forever_keeps_all(rows, now);
    }
    if let Ok(ids) = due_spec(rows, retain, now) {
        assert(ids =~= Seq::<i64>::empty());
    }
}

/// The reply reads cleanup records of which none is due.
pub open spec fn nothing_due(retain: Retain, now: i64, r: ReplyV) -> bool {
    match r {
        ReplyV::Rows(rows) => due_spec(rows, retain, now) matches Ok(ids) && ids.len() == 0,
        _ => false,
    }
}

/// Cleanup commits only after resealing changed exactly the estate root,
/// or when nothing was due.
pub proof fn lemma_sweep_commits(retain: Retain, now: i64, s: SweepV, r: ReplyV)
    ensures
        sweep_next(retain, now, s, r).1 is Commit ==> (s.phase is Resealing && r == ReplyV::Count(1))
            || (s.phase is Reading && nothing_due(retain, now, r)),
{
}

/// Attaching adopts an unsealed namespace only when adoption is allowed,
/// refuses it as unsealed otherwise, and refuses an empty namespace as
/// vacant.
pub proof fn lemma_attach_unsealed(w: AttachV, s: AttachState, r: ReplyV)
    ensures
        attach_next(w, s, r).1 is Adopt ==> w.adopt && s is Sizing && r == ReplyV::Holds(false),
        !w.adopt ==> attach_next(w, AttachState::Sizing, ReplyV::Holds(false)) == (
            AttachState::Over(AttachEnd::Unsealed),
            AttachAction::Finish(AttachEnd::Unsealed),
        ),
        attach_next(w, AttachState::Sizing, ReplyV::Holds(true)) == (
            AttachState::Over(AttachEnd::Vacant),
            AttachAction::Finish(AttachEnd::Vacant),
        ),
{
}

/// Attaching moves the estate to the requested model exactly when the
/// verified active digest differs from the requested one.
pub proof fn lemma_attach_evolves_on_change(w: AttachV, d: Seq<char>)
    ensures
        attach_next(w, AttachState::Verifying, ReplyV::Text(d)).1 is Evolve <==> d != w.digest,
        attach_next(w, AttachState::Verifying, ReplyV::Text(d)).1 is Cleanup <==> d == w.digest,
{
}

// ---------------------------------------------------------------------
// Delivery of retained events
// ---------------------------------------------------------------------

/// How a delivery ended: every event handed over (those the hook refused
/// stay for a later delivery); the deletion after event `i` did not remove
/// one record per row it named; or the store failed.
#[derive(Clone, Copy, Debug)]
pub enum DeliverEnd {
    Delivered,
    Unacknowledged(usize),
    Failed,
}

/// Where a delivery stands: waiting on the hook with event `i`, or on the
/// deletion of event `i`'s records.
#[derive(Clone, Copy, Debug)]
pub enum DeliverState {
    Start,
    Handing(usize),
    Deleting(usize),
    Over(DeliverEnd),
}

/// What the caller does next to deliver: hand event `i` to the hook;
/// delete the retained records of event `i`'s generation and reply with
/// the count; or report the end.
#[derive(Clone, Copy, Debug)]
pub enum DeliverAction {
    Hand(usize),
    Delete(usize),
    Finish(DeliverEnd),
}

/// Hand event `i`, or, past the last, end.
pub open spec fn hand_from(n: nat, i: nat) -> (DeliverState, DeliverAction) {
    if i < n {
        (DeliverState::Handing(i as usize), DeliverAction::Hand(i as usize))
    } else {
        (DeliverState::Over(DeliverEnd::Delivered), DeliverAction::Finish(DeliverEnd::Delivered))
    }
}

/// One step of delivering the pending events `ev`, in order: the hook
/// takes an event (done) or refuses it (anything else), in which case the
/// delivery moves on and the event's records stay; a taken event's records
/// are deleted, and the count must be the number of rows it named.
pub open spec fn deliver_next(ev: Seq<crate::estate::hook::Purge>, s: DeliverState, r: ReplyV) -> (
    DeliverState,
    DeliverAction,
) {
    match s {
        DeliverState::Start => hand_from(ev.len(), 0),
        DeliverState::Handing(i) => if r is Done {
            (DeliverState::Deleting(i), DeliverAction::Delete(i))
        } else {
            hand_from(ev.len(), (i + 1) as nat)
        },
        DeliverState::Deleting(i) => match r {
            ReplyV::Count(n) => if i < ev.len() && n == ev[i as int].taken().len() {
                hand_from(ev.len(), (i + 1) as nat)
            } else {
                (DeliverState::Over(DeliverEnd::Unacknowledged(i)), DeliverAction::Finish(DeliverEnd::Unacknowledged(i)))
            },
            _ => (DeliverState::Over(DeliverEnd::Failed), DeliverAction::Finish(DeliverEnd::Failed)),
        },
        DeliverState::Over(e) => (DeliverState::Over(e), DeliverAction::Finish(e)),
    }
}

fn hand(n: usize, i: usize) -> (r: (DeliverState, DeliverAction))
    ensures
        r == hand_from(n as nat, i as nat),
{
    if i < n {
        (DeliverState::Handing(i), DeliverAction::Hand(i))
    } else {
        (DeliverState::Over(DeliverEnd::Delivered), DeliverAction::Finish(DeliverEnd::Delivered))
    }
}

/// One step of a delivery, as `deliver_next` states it.
pub fn deliver_step(events: &[crate::estate::hook::Purge], at: &DeliverState, reply: &Reply) -> (r: (
    DeliverState,
    DeliverAction,
))
    ensures
        r == deliver_next(events@, *at, reply@),
{
    let done = match reply {
        Reply::Done => true,
        _ => false,
    };
    match *at {
        DeliverState::Start => hand(events.len(), 0),
        DeliverState::Handing(i) => if done {
            (DeliverState::Deleting(i), DeliverAction::Delete(i))
        } else if i < events.len() {
            hand(events.len(), i + 1)
        } else {
            (DeliverState::Over(DeliverEnd::Delivered), DeliverAction::Finish(DeliverEnd::Delivered))
        },
        DeliverState::Deleting(i) => match reply {
            Reply::Count(n) => {
                let ok = if i < events.len() {
                    crate::estate::cleanup::acknowledged(*n, &events[i]).is_ok()
                } else {
                    false
                };
                if ok {
                    hand(events.len(), i + 1)
                } else {
                    (DeliverState::Over(DeliverEnd::Unacknowledged(i)), DeliverAction::Finish(DeliverEnd::Unacknowledged(i)))
                }
            },
            _ => (DeliverState::Over(DeliverEnd::Failed), DeliverAction::Finish(DeliverEnd::Failed)),
        },
        DeliverState::Over(e) => (DeliverState::Over(e), DeliverAction::Finish(e)),
    }
}

/// Delivery retries what the hook refused: an event the hook does not take
/// is not deleted, and delivery goes on with the next; an event's records
/// are deleted only right after the hook took it.
pub proof fn lemma_deliver_keeps_refused(ev: Seq<crate::estate::hook::Purge>, i: usize, r: ReplyV)
    ensures
        !(r is Done) ==> deliver_next(ev, DeliverState::Handing(i), r) == hand_from(ev.len(), (i + 1) as nat),
        forall|s: DeliverState, q: ReplyV| #[trigger] deliver_next(ev, s, q).1 matches DeliverAction::Delete(j)
            ==> s == DeliverState::Handing(j) && q is Done,
{
}

// ---------------------------------------------------------------------
// Drift
// ---------------------------------------------------------------------

/// The drift of a store's physical shape `found` from the shape `expected`
/// of it, if they differ.
pub fn drift(expected: &str, found: &str) -> (r: Option<Fault>)
    ensures
        r is Some <==> expected@ != found@,
        r matches Some(f) ==> (f matches Fault::Drift { expected: a, found: b } && a@ == expected@ && b@
            == found@),
{
    if same(expected, found) {
        None
    } else {
        Some(Fault::Drift { expected: own(expected), found: own(found) })
    }
}

} // verus!
