use keel::atom::Kind;
use keel::bond::Kind as Bond;
use keel::error::Error;
use keel::estate::Fault as EstateFault;
use keel::plan::{Edge, Plan, Unit};
use keel::serve::{bond_route, cells, sudo_of, triage, Operator, Scalar};
use keel::wire::Val;

#[test]
fn errors_answer_with_statuses() {
    let f = triage(Error::Missing("Task".into()));
    assert_eq!((f.status, f.note.as_str()), (404, "missing resource: Task"));
    let cases = [
        ("missing row 4", 404),
        ("missing tie 2", 404),
        ("live ties remain", 409),
        ("live ref exists", 409),
        ("code taken", 409),
        ("refused see", 403),
        ("left not live", 400),
        ("anything", 400),
    ];
    for (note, status) in cases {
        let f = triage(Error::Adapt(note.into()));
        assert_eq!(f.status, status, "{note}");
        assert_eq!(f.note, note);
    }
    let f = triage(Error::Estate(EstateFault::Vacant));
    assert_eq!((f.status, f.note.as_str()), (400, "vacant estate needs bootstrap"));
}

#[test]
fn sudo_header() {
    assert_eq!(sudo_of(Some("sudo abc")), Some("abc".to_string()));
    assert_eq!(sudo_of(Some("Bearer abc")), None);
    assert_eq!(sudo_of(None), None);
}

#[test]
fn bond_routes_ignore_case() {
    let plan = Plan::make(vec![Unit::make(
        "Task".to_string(),
        vec![],
        vec![Edge::make("Tags".to_string(), Bond::Many2many, "Tag".to_string(), vec![], false, false)],
    )]);
    assert_eq!(bond_route(&plan, "Task", "tags").unwrap(), "Tags");
    let f = bond_route(&plan, "Task", "zap").unwrap_err();
    assert_eq!((f.status, f.note.as_str()), (400, "unknown bond zap"));
    let f = bond_route(&plan, "Nope", "tags").unwrap_err();
    assert_eq!((f.status, f.note.as_str()), (404, "missing resource: Nope"));
    let _ = Kind::Text;
}

#[test]
fn body_cells_are_scalars() {
    let body = vec![
        ("a".to_string(), Scalar::Text("x".into())),
        ("n".to_string(), Scalar::Number("1.5".into())),
        ("f".to_string(), Scalar::Flag(true)),
        ("z".to_string(), Scalar::Null),
        ("skip".to_string(), Scalar::Nested),
    ];
    let got = cells(&body, &["skip"]).unwrap();
    assert_eq!(
        got,
        vec![
            ("a".to_string(), "x".to_string()),
            ("n".to_string(), "1.5".to_string()),
            ("f".to_string(), "true".to_string()),
            ("z".to_string(), String::new()),
        ]
    );
    let f = cells(&body, &[]).unwrap_err();
    assert_eq!((f.status, f.note.as_str()), (400, "field skip must be scalar"));
}

#[test]
fn operators_and_values() {
    let op = Operator(7);
    assert_eq!(op.0, 7);
    assert_eq!(Val::Int(4).integer(), 4);
    assert_eq!(Val::Text("x".into()).integer(), 0);
    assert_eq!(Val::Int(4).opt(), Some(4));
    assert_eq!(Val::Null.opt(), None);
    assert_eq!(Val::Int(-12).text(), "-12");
    assert_eq!(Val::Null.text(), "");
    assert_eq!(Val::Text("y".into()).text(), "y");
}
