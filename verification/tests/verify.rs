use keel::estate::step::Reply;
use keel::estate::verify::{verify_step, VerifyAction, VerifyState};
use keel::wire::Val;

fn gen(id: i64, state: &str, created: i64, retired: Option<i64>) -> Vec<Val> {
    vec![
        Val::Int(id),
        Val::Text(state.into()),
        Val::Text("d".into()),
        Val::Text("m".into()),
        Val::Int(created),
        match retired {
            Some(r) => Val::Int(r),
            None => Val::Null,
        },
    ]
}

fn root(format: i64, active: i64) -> Vec<Vec<Val>> {
    vec![vec![Val::Int(format), Val::Int(active), Val::Text("S".into())]]
}

fn drive(roots: Vec<Vec<Val>>, gens: Vec<Vec<Val>>, bad: Option<usize>, shape: &str) -> (Vec<String>, VerifyState) {
    let mut at = VerifyState::start();
    let mut reply = Reply::Done;
    let mut seen = Vec::new();
    let mut roots = Some(roots);
    let mut gens = Some(gens);
    for _ in 0..20 {
        let (next, act) = verify_step(&at, &reply);
        at = next;
        seen.push(format!("{:?}", act));
        reply = match act {
            VerifyAction::Roots => Reply::Rows(roots.take().unwrap()),
            VerifyAction::Generations => Reply::Rows(gens.take().unwrap()),
            VerifyAction::Check(i) => {
                if bad == Some(i) {
                    Reply::Text("manifest digest mismatch".into())
                } else {
                    Reply::Done
                }
            }
            VerifyAction::Glean => Reply::Done,
            VerifyAction::Shape => Reply::Text(shape.into()),
            VerifyAction::Finish(_) => break,
        };
    }
    (seen, at)
}

#[test]
fn verify_binds_the_active_generation() {
    let (seen, at) = drive(root(11, 2), vec![gen(1, "cleanup", 5, Some(6)), gen(2, "active", 6, None)], None, "S");
    assert_eq!(seen, vec!["Roots", "Generations", "Check(0)", "Check(1)", "Glean", "Shape", "Finish(Bound(1))"]);
    assert_eq!(at.active(), 2);
}

#[test]
fn verify_refuses_what_does_not_hold() {
    let (seen, _) = drive(root(3, 2), vec![], None, "S");
    assert_eq!(seen, vec!["Roots", "Finish(Format(3))"]);
    let (seen, at) = drive(vec![], vec![], None, "S");
    assert_eq!(seen, vec!["Roots", "Finish(Unknown)"]);
    assert_eq!(at.note(), "catalog needs one record");
    let (_, at) = drive(root(11, 2), vec![gen(2, "active", 6, None)], Some(0), "S");
    assert_eq!(at.note(), "manifest digest mismatch");
    let (_, at) = drive(root(11, 3), vec![gen(2, "active", 6, None)], None, "S");
    assert_eq!(at.note(), "catalog active generation mismatch");
    let (seen, at) = drive(root(11, 2), vec![gen(2, "active", 6, None)], None, "T");
    assert!(matches!(seen.last().map(|s| s.as_str()), Some("Finish(Drifted)")));
    assert_eq!(at.held(), "S");
    assert_eq!(at.note(), "T");
}
