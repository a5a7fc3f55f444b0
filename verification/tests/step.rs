use keel::bond::Kind as Bond;
use keel::config::Retain;
use keel::error::Error;
use keel::estate::cleanup::Refusal;
use keel::estate::step::{
    attach_fault, attach_step, blocked_at, migrate_step, sweep_step, unclocked, Attach, AttachEnd, AttachState, Move, MoveAction, MoveEnd, MoveState, Reply, SweepAction, SweepEnd,
    SweepPhase, SweepState,
};
use keel::estate::{Act, Change, Check, Fault, Step};
use keel::plan::{Edge, Plan, Unit};
use keel::wire::Val;

fn change() -> Change {
    Change::new(vec![
        Step::new("Task.title".into(), Act::Add, None),
        Step::new("Task.state".into(), Act::Cast, Some(Check::Values)),
        Step::new("Tag".into(), Act::Drop, Some(Check::Empty)),
    ])
}

fn plans() -> (Plan, Plan) {
    let edge = Edge::make("tags".into(), Bond::Many2many, "Tag".into(), vec![], false, false);
    let task = Unit::make("Task".into(), vec![], vec![edge]);
    let tag = Unit::make("Tag".into(), vec![], vec![]);
    let lone = Unit::make("Task".into(), vec![], vec![]);
    (Plan::make(vec![task, tag]), Plan::make(vec![lone]))
}

fn work() -> Move {
    let (active, requested) = plans();
    Move::new(&change(), &active, &requested, 4, 1700)
}

fn clock(n: i64) -> Reply {
    Reply::Rows(vec![vec![Val::Int(n)]])
}

#[test]
fn move_runs_every_write_in_order() {
    let w = work();
    let mut at = MoveState::Start;
    let mut seen = Vec::new();
    for _ in 0..30 {
        let reply = match at {
            MoveState::Holding(_) => Reply::Holds(true),
            MoveState::Drawing => clock(5),
            _ => Reply::Done,
        };
        let (next, act) = migrate_step(&w, &at, &reply);
        seen.push(format!("{:?}", act));
        at = next;
        if matches!(act, MoveAction::Finish(_)) {
            break;
        }
    }
    assert_eq!(
        seen,
        vec![
            "Begin",
            "Hold(1)",
            "Hold(2)",
            "Grants",
            "Draw",
            "Candidate { id: 5, at: 1700 }",
            "Tables(5)",
            "Copy(5)",
            "Rename { old: 4, new: 5 }",
            "Forget(0)",
            "Forget(1)",
            "Retire { id: 4, at: 1700 }",
            "Activate(5)",
            "Reseal(5)",
            "Rewrite(5)",
            "Commit",
            "Finish(Moved(5))",
        ]
    );
    assert_eq!(w.forgotten(0), "Task.tags");
    assert_eq!(w.forgotten(1), "Tag");
}

#[test]
fn move_blocked_by_first_failing_check() {
    let w = work();
    let (at, act) = migrate_step(&w, &MoveState::Holding(1), &Reply::Holds(false));
    assert!(matches!(act, MoveAction::Rollback));
    assert!(matches!(at, MoveState::Undoing(MoveEnd::Blocked(1))));
    let (_, act) = migrate_step(&w, &at, &Reply::Done);
    assert!(matches!(act, MoveAction::Finish(MoveEnd::Blocked(1))));
    match blocked_at(&change(), 1) {
        Error::Estate(Fault::Blocked { path, check }) => {
            assert_eq!(path, "Task.state");
            assert_eq!(check, Check::Values);
        }
        other => panic!("expected a blocked move, got {:?}", other),
    }
}

#[test]
fn move_fault_rolls_back() {
    let w = work();
    for at in [MoveState::Granting, MoveState::Copying(5), MoveState::Forgetting(5, 1), MoveState::Rewriting(5)] {
        let (next, act) = migrate_step(&w, &at, &Reply::Fault);
        assert!(matches!(act, MoveAction::Rollback));
        assert!(matches!(next, MoveState::Undoing(MoveEnd::Failed)));
    }
    let (_, act) = migrate_step(&w, &MoveState::Begun, &Reply::Fault);
    assert!(matches!(act, MoveAction::Finish(MoveEnd::Failed)));
    let (_, act) = migrate_step(&w, &MoveState::Committing(5), &Reply::Fault);
    assert!(matches!(act, MoveAction::Finish(MoveEnd::Failed)));
}

#[test]
fn move_without_clock_is_refused() {
    let w = work();
    let (at, act) = migrate_step(&w, &MoveState::Drawing, &Reply::Rows(vec![]));
    assert!(matches!(act, MoveAction::Rollback));
    assert!(matches!(at, MoveState::Undoing(MoveEnd::Unclocked)));
    match unclocked() {
        Error::Estate(Fault::Unknown(m)) => assert_eq!(m, "clock generation"),
        other => panic!("unexpected {:?}", other),
    }
}

#[test]
fn move_without_checks_goes_to_grants() {
    let (active, requested) = plans();
    let plain = Change::new(vec![Step::new("Task.title".into(), Act::Add, None)]);
    let w = Move::new(&plain, &active, &requested, 1, 10);
    let (at, act) = migrate_step(&w, &MoveState::Begun, &Reply::Done);
    assert!(matches!(act, MoveAction::Grants));
    assert!(matches!(at, MoveState::Granting));
}

fn cleanup(id: i64, retired: Option<i64>) -> Vec<Val> {
    vec![Val::Int(id), retired.map(Val::Int).unwrap_or(Val::Null)]
}

fn sweep(retain: Retain, records: Vec<Vec<Val>>, deleted: u64, resealed: u64) -> Vec<String> {
    let mut at = SweepState::start();
    let mut seen = Vec::new();
    let mut records = Some(records);
    for _ in 0..40 {
        let reply = match at.phase() {
            SweepPhase::Reading => Reply::Rows(records.take().unwrap()),
            SweepPhase::Deleting(_) => Reply::Count(deleted),
            SweepPhase::Resealing => Reply::Count(resealed),
            _ => Reply::Done,
        };
        let (next, act) = sweep_step(&retain, 1000, &at, &reply);
        seen.push(format!("{:?}", act));
        at = next;
        if matches!(act, SweepAction::Finish(_)) {
            break;
        }
    }
    seen
}

#[test]
fn sweep_saves_then_drops_each_due_generation() {
    let seen = sweep(
        Retain::After(100),
        vec![cleanup(2, Some(500)), cleanup(3, Some(950)), cleanup(4, Some(900))],
        1,
        1,
    );
    assert_eq!(
        seen,
        vec![
            "Begin",
            "Records",
            "Recall(2)",
            "Recall(4)",
            "Save { generation: 2, at: 1000 }",
            "Drop(2)",
            "Delete(2)",
            "Purge(2)",
            "Save { generation: 4, at: 1000 }",
            "Drop(4)",
            "Delete(4)",
            "Purge(4)",
            "Reseal",
            "Commit",
            "Finish(Swept)",
        ]
    );
}

#[test]
fn sweep_with_nothing_due_commits_at_once() {
    let seen = sweep(Retain::Forever, vec![cleanup(2, Some(0))], 1, 1);
    assert_eq!(seen, vec!["Begin", "Records", "Commit", "Finish(Swept)"]);
    let seen = sweep(Retain::After(100), vec![], 1, 1);
    assert_eq!(seen, vec!["Begin", "Records", "Commit", "Finish(Swept)"]);
}

#[test]
fn sweep_refusals_roll_back() {
    let seen = sweep(Retain::After(0), vec![vec![Val::Int(2)]], 1, 1);
    assert_eq!(seen, vec!["Begin", "Records", "Rollback", "Finish(Refused(Shape))"]);
    let seen = sweep(Retain::After(0), vec![cleanup(2, None)], 1, 1);
    assert_eq!(seen, vec!["Begin", "Records", "Rollback", "Finish(Refused(Retirement))"]);
    let seen = sweep(Retain::After(0), vec![cleanup(2, Some(1))], 0, 1);
    assert_eq!(
        seen,
        vec![
            "Begin",
            "Records",
            "Recall(2)",
            "Save { generation: 2, at: 1000 }",
            "Drop(2)",
            "Delete(2)",
            "Rollback",
            "Finish(Refused(Changed))",
        ]
    );
    let seen = sweep(Retain::After(0), vec![cleanup(2, Some(1))], 1, 2);
    assert_eq!(seen[seen.len() - 3..], ["Reseal", "Rollback", "Finish(Refused(Root))"]);
    match Refusal::Changed.error() {
        Error::Estate(Fault::Unknown(m)) => assert_eq!(m, "cleanup generation changed"),
        other => panic!("unexpected {:?}", other),
    }
}

#[test]
fn sweep_fault_rolls_back() {
    let at = SweepState::start();
    let (at, _) = sweep_step(&Retain::After(0), 5, &at, &Reply::Done);
    let (at, act) = sweep_step(&Retain::After(0), 5, &at, &Reply::Done);
    assert!(matches!(act, SweepAction::Records));
    let (at, act) = sweep_step(&Retain::After(0), 5, &at, &Reply::Fault);
    assert!(matches!(act, SweepAction::Rollback));
    let (_, act) = sweep_step(&Retain::After(0), 5, &at, &Reply::Done);
    assert!(matches!(act, SweepAction::Finish(SweepEnd::Failed)));
}

fn attach(adopt: bool, replies: Vec<Reply>) -> Vec<String> {
    let w = Attach::new(adopt, "d1".into());
    let mut at = AttachState::Start;
    let mut seen = Vec::new();
    let (next, act) = attach_step(&w, &at, &Reply::Done);
    seen.push(format!("{:?}", act));
    at = next;
    for reply in replies {
        let (next, act) = attach_step(&w, &at, &reply);
        seen.push(format!("{:?}", act));
        at = next;
    }
    seen
}

#[test]
fn attach_refuses_unsealed_unless_adopting() {
    let seen = attach(false, vec![Reply::Holds(false), Reply::Holds(false)]);
    assert_eq!(seen, vec!["Present", "Empty", "Finish(Unsealed)"]);
    let seen = attach(true, vec![Reply::Holds(false), Reply::Holds(false), Reply::Done, Reply::Done]);
    assert_eq!(seen, vec!["Present", "Empty", "Adopt", "Cleanup", "Finish(Ready)"]);
    assert!(matches!(attach_fault(AttachEnd::Unsealed), Some(Fault::Unsealed)));
}

#[test]
fn attach_refuses_vacant() {
    let seen = attach(true, vec![Reply::Holds(false), Reply::Holds(true)]);
    assert_eq!(seen, vec!["Present", "Empty", "Finish(Vacant)"]);
    assert!(matches!(attach_fault(AttachEnd::Vacant), Some(Fault::Vacant)));
    assert!(attach_fault(AttachEnd::Ready).is_none());
}

#[test]
fn attach_evolves_only_on_a_new_digest() {
    let seen = attach(false, vec![Reply::Holds(true), Reply::Text("d1".into()), Reply::Done]);
    assert_eq!(seen, vec!["Present", "Verify", "Cleanup", "Finish(Ready)"]);
    let seen = attach(false, vec![Reply::Holds(true), Reply::Text("d0".into()), Reply::Done, Reply::Done]);
    assert_eq!(seen, vec!["Present", "Verify", "Evolve", "Cleanup", "Finish(Ready)"]);
    let seen = attach(false, vec![Reply::Fault]);
    assert_eq!(seen, vec!["Present", "Finish(Failed)"]);
}

use keel::estate::hook::{Gone, Purge};
use keel::estate::step::{deliver_step, drift, DeliverAction, DeliverEnd, DeliverState};

fn purge(g: i64, n: usize) -> Purge {
    Purge::new(g, (0..n).map(|k| Gone::new("Task".into(), k as i64)).collect())
}

#[test]
fn delivery_skips_refused_events_and_checks_counts() {
    let events = vec![purge(2, 2), purge(3, 1), purge(4, 1)];
    let mut at = DeliverState::Start;
    let mut reply = Reply::Done;
    let mut seen = Vec::new();
    for _ in 0..20 {
        let (next, act) = deliver_step(&events, &at, &reply);
        at = next;
        seen.push(format!("{:?}", act));
        reply = match act {
            DeliverAction::Hand(1) => Reply::Fault,
            DeliverAction::Hand(_) => Reply::Done,
            DeliverAction::Delete(i) => Reply::Count(events[i].gone().len() as u64),
            DeliverAction::Finish(_) => break,
        };
    }
    assert_eq!(seen, vec!["Hand(0)", "Delete(0)", "Hand(1)", "Hand(2)", "Delete(2)", "Finish(Delivered)"]);
    let (_, act) = deliver_step(&events, &DeliverState::Deleting(0), &Reply::Count(1));
    assert!(matches!(act, DeliverAction::Finish(DeliverEnd::Unacknowledged(0))));
    let (_, act) = deliver_step(&[], &DeliverState::Start, &Reply::Done);
    assert!(matches!(act, DeliverAction::Finish(DeliverEnd::Delivered)));
}

#[test]
fn drift_only_when_shapes_differ() {
    assert!(drift("a b", "a b").is_none());
    match drift("a b", "a c") {
        Some(Fault::Drift { expected, found }) => {
            assert_eq!(expected, "a b");
            assert_eq!(found, "a c");
        }
        other => panic!("unexpected {:?}", other),
    }
}
