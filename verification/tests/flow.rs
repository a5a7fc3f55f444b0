use keel::atom::Kind;
use keel::bond::Kind as Bond;
use keel::error::Error;
use keel::estate::step::Reply;
use keel::life::flow::{
    craft_row, craft_step, point_gate, set_step, tie_step, tune_step, Craft, Item, Phase, Query, Tie, Walk,
    WriteAction, WriteEnd,
};
use keel::life::Ends;
use keel::plan::{Edge, Slot, Unit};
use keel::spec::Only;
use keel::wire::Val;

fn note<T: std::fmt::Debug>(r: Result<T, Error>) -> String {
    match r {
        Err(Error::Adapt(m)) => m,
        other => panic!("expected a refusal, got {:?}", other),
    }
}

fn vals(v: &[Val]) -> Vec<String> {
    v.iter()
        .map(|x| match x {
            Val::Null => "null".to_string(),
            Val::Int(n) => format!("int {n}"),
            Val::Text(s) => format!("text {s}"),
        })
        .collect()
}

fn ticket() -> Unit {
    Unit::make(
        "Ticket".to_string(),
        vec![
            Slot::make("title".into(), Kind::Text, true).sole(Only::All),
            Slot::numbered("number".into(), true, "owner".into()),
        ],
        vec![
            Edge::make("owner".into(), Bond::Many2one, "User".into(), vec![], false, false),
            Edge::make("desk".into(), Bond::One2one, "Desk".into(), vec![], false, false),
            Edge::make("tags".into(), Bond::Many2many, "Tag".into(), vec![Slot::make("weight".into(), Kind::Int, true)], false, false),
        ],
    )
}

/// A store that answers every question as `answer` says, draws numbers
/// from 10 up, and counts one changed record per write.
fn run<F>(mut step: F, answer: &dyn Fn(&Query) -> bool, read: Option<Reply>) -> (Vec<String>, Walk)
where
    F: FnMut(&Walk, &Reply) -> (Walk, WriteAction),
{
    let mut at = Walk::start();
    let mut reply = Reply::Done;
    let mut seen = Vec::new();
    let mut next = 10;
    let mut read = read;
    for _ in 0..40 {
        let (w, act) = step(&at, &reply);
        at = w;
        reply = match act {
            WriteAction::Read => read.take().unwrap(),
            WriteAction::Ask(i) => match at.item(i) {
                Item::Ask { query, .. } => {
                    seen.push(format!("{:?}", query));
                    Reply::Holds(answer(query))
                }
                other => panic!("not a question: {:?}", other),
            },
            WriteAction::Draw(i) => match at.item(i) {
                Item::Draw(c) => {
                    seen.push(format!("draw {c}"));
                    next += 1;
                    Reply::Rows(vec![vec![Val::Int(next)]])
                }
                other => panic!("not a draw: {:?}", other),
            },
            WriteAction::Write => {
                seen.push("write".into());
                Reply::Count(1)
            }
            WriteAction::Finish(e) => {
                seen.push(format!("end {:?}", e));
                break;
            }
        };
    }
    (seen, at)
}

fn yes(q: &Query) -> bool {
    !matches!(q, Query::Lone { .. } | Query::Taken { .. } | Query::Paired { .. })
}

#[test]
fn point_gate_checks_the_target() {
    let owner = Edge::make("owner".into(), Bond::Many2one, "User".into(), vec![], false, false);
    let desk = Edge::make("desk".into(), Bond::One2one, "Desk".into(), vec![], false, false);
    assert_eq!(vals(&[point_gate(&owner, "4", true, true, true).unwrap()]), vec!["int 4"]);
    assert_eq!(note(point_gate(&owner, "4", false, true, false)), "right not live");
    assert_eq!(note(point_gate(&owner, "4", true, false, false)), "ref owner leased");
    assert_eq!(note(point_gate(&desk, "4", true, true, true)), "live ref exists");
    assert_eq!(note(point_gate(&owner, "x", true, true, false)), "ref owner needs id");
    assert_eq!(vals(&[point_gate(&owner, "", false, false, false).unwrap()]), vec!["null"]);
}

#[test]
fn craft_draws_binds_checks_then_writes() {
    let t = ticket();
    let fields = [("title", "Fix"), ("owner", "7"), ("desk", "3")];
    let work = Craft::new(&t, &fields);
    let (seen, at) = run(|a, r| craft_step(&work, a, r), &yes, None);
    assert_eq!(
        seen,
        vec![
            "draw unit:Ticket",
            "draw serial:Ticket:number:int:7",
            "Alive { unit: \"User\", key: 7 }",
            "Fresh { unit: \"User\", key: 7 }",
            "Alive { unit: \"Desk\", key: 3 }",
            "Fresh { unit: \"Desk\", key: 3 }",
            "Lone { unit: \"Ticket\", edge: \"desk\", key: 3, me: 0 }",
            "Taken { unit: \"Ticket\", claim: Claim { field: \"title\", value: Text(\"Fix\"), scope: None }, me: 0 }",
            "write",
            "end Written(11)",
        ]
    );
    let row = craft_row(&t, &fields, at.drawn(), 500).unwrap();
    assert_eq!(vals(&row), vec!["int 11", "text Fix", "int 12", "int 7", "int 3", "null", "int 500", "int 500"]);
}

#[test]
fn craft_refusals_come_in_order() {
    let t = ticket();
    let work = Craft::new(&t, &[("title", "Fix"), ("owner", "7")]);
    let (seen, _) = run(|a, r| craft_step(&work, a, r), &|q| !matches!(q, Query::Fresh { .. } | Query::Taken { .. }), None);
    assert_eq!(seen.last().unwrap(), "end Refused(3)");
    let work = Craft::new(&t, &[("owner", "x")]);
    let (seen, at) = run(|a, r| craft_step(&work, a, r), &yes, None);
    assert_eq!(seen.last().unwrap(), "end Refused(1)");
    assert_eq!(note(Err::<(), Error>(at.refusal(1))), "missing field title");
    let work = Craft::new(&t, &[("title", "Fix")]);
    let (seen, at) = run(|a, r| craft_step(&work, a, r), &|q| !matches!(q, Query::Taken { .. }) && yes(q) || matches!(q, Query::Taken { .. }), None);
    let last = seen.last().unwrap().clone();
    assert_eq!(last, "end Refused(2)");
    assert_eq!(note(Err::<(), Error>(at.refusal(2))), "field title taken");
}

#[test]
fn set_reads_the_row_then_checks() {
    let t = ticket();
    let cells = vec![("title".to_string(), Val::Text("Old".into()))];
    let (seen, _) = run(
        |a, r| set_step(&t, 5, &[("desk", "9")], a, r),
        &yes,
        Some(Reply::Cells(cells)),
    );
    assert_eq!(
        seen,
        vec![
            "Taken { unit: \"Ticket\", claim: Claim { field: \"title\", value: Text(\"Old\"), scope: None }, me: 5 }",
            "Alive { unit: \"Desk\", key: 9 }",
            "Fresh { unit: \"Desk\", key: 9 }",
            "Lone { unit: \"Ticket\", edge: \"desk\", key: 9, me: 5 }",
            "write",
            "end Written(0)",
        ]
    );
    let (seen, at) = run(|a, r| set_step(&t, 5, &[("desk", "9")], a, r), &yes, Some(Reply::Rows(vec![])));
    assert_eq!(seen, vec!["end Refused(0)"]);
    assert_eq!(note(Err::<(), Error>(at.refusal(0))), "missing row 5");
    let frozen = ticket().freeze();
    let (seen, at) = run(|a, r| set_step(&frozen, 5, &[("desk", "9")], a, r), &yes, None);
    assert_eq!(seen, vec!["end Refused(0)"]);
    assert_eq!(note(Err::<(), Error>(at.refusal(0))), "frozen unit Ticket");
    let (seen, at) = run(|a, r| set_step(&t, 5, &[("nope", "1")], a, r), &yes, Some(Reply::Cells(vec![])));
    assert_eq!(seen, vec!["end Refused(0)"]);
    assert_eq!(note(Err::<(), Error>(at.refusal(0))), "unknown field nope");
}

#[test]
fn tie_checks_both_ends_and_the_pair() {
    let t = ticket();
    let tags = &t.bonds()[2];
    let work = Tie::new(&t, tags, Ends { left: 1, right: 2 }, &[("weight", "3")]);
    let mut at = Walk::start();
    let mut reply = Reply::Done;
    let mut acts = Vec::new();
    for _ in 0..10 {
        let (w, act) = tie_step(&work, &at, &reply);
        at = w;
        acts.push(format!("{:?}", act));
        reply = match act {
            WriteAction::Ask(i) => match at.item(i) {
                Item::Ask { want, .. } => Reply::Holds(*want),
                _ => Reply::Fault,
            },
            WriteAction::Write => Reply::Key(40),
            _ => break,
        };
    }
    assert_eq!(acts, vec!["Ask(0)", "Ask(1)", "Ask(2)", "Ask(3)", "Ask(4)", "Write", "Finish(Written(40))"]);
    let (seen, _) = run(|a, r| tie_step(&work, a, r), &|q| !matches!(q, Query::Fresh { .. } | Query::Paired { .. }), None);
    assert_eq!(seen.last().unwrap(), "end Refused(2)");
    let bad = Tie::new(&t, tags, Ends { left: 1, right: 2 }, &[("weight", "x")]);
    let (seen, at) = run(|a, r| tie_step(&bad, a, r), &|q| !matches!(q, Query::Paired { .. }), None);
    assert_eq!(seen.last().unwrap(), "end Refused(5)");
    assert_eq!(note(Err::<(), Error>(at.refusal(5))), "not an int: x");
}

#[test]
fn tune_reads_ends_then_checks_liveness() {
    let t = ticket();
    let tags = &t.bonds()[2];
    let ends = Reply::Rows(vec![vec![Val::Int(1), Val::Int(2)]]);
    let (seen, _) = run(|a, r| tune_step(&t, tags, 8, &[("weight", "3")], a, r), &yes, Some(ends));
    assert_eq!(
        seen,
        vec!["Alive { unit: \"Ticket\", key: 1 }", "Alive { unit: \"Tag\", key: 2 }", "write", "end Written(0)"]
    );
    let ends = Reply::Rows(vec![vec![Val::Int(1), Val::Int(2)]]);
    let (seen, at) = run(|a, r| tune_step(&t, tags, 8, &[("weight", "3")], a, r), &|q| !matches!(q, Query::Alive { key: 2, .. }), Some(ends));
    assert_eq!(seen.last().unwrap(), "end Refused(1)");
    assert_eq!(note(Err::<(), Error>(at.refusal(1))), "right not live");
    let (seen, at) = run(|a, r| tune_step(&t, tags, 8, &[], a, r), &yes, None);
    assert_eq!(seen, vec!["end Refused(0)"]);
    assert_eq!(note(Err::<(), Error>(at.refusal(0))), "empty set");
    let (_, at) = run(|a, r| tune_step(&t, tags, 8, &[("weight", "3")], a, r), &yes, Some(Reply::Rows(vec![])));
    assert_eq!(note(Err::<(), Error>(at.refusal(0))), "missing tie 8");
    assert!(matches!(at.phase(), Phase::Over(WriteEnd::Refused(0))));
}

#[test]
fn update_with_no_row_changed_is_missing() {
    let t = ticket();
    let mut at = Walk::start();
    let (w, _) = set_step(&t, 5, &[], &at, &Reply::Done);
    at = w;
    let (w, act) = set_step(&t, 5, &[], &at, &Reply::Cells(vec![]));
    assert!(matches!(act, WriteAction::Write));
    let (_, act) = set_step(&t, 5, &[], &w, &Reply::Count(0));
    assert!(matches!(act, WriteAction::Finish(WriteEnd::Missing)));
}
