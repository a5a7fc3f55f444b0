use keel::atom::Kind;
use keel::bond::Kind as Bond;
use keel::error::Error;
use keel::plan::{Edge, Plan, Slot, Unit};
use keel::query::check::{analyze, resolve};
use keel::query::parse::parse;

fn slot(name: &str, kind: Kind) -> Slot {
    Slot::make(name.to_string(), kind, true)
}

fn model() -> Plan {
    let task = Unit::make(
        "Task".to_string(),
        vec![slot("title", Kind::Text), slot("n", Kind::Int), slot("done", Kind::Bool)],
        vec![
            Edge::make("tags".to_string(), Bond::Many2many, "Tag".to_string(), vec![slot("weight", Kind::Int)], false, false),
            Edge::make("owner".to_string(), Bond::Many2one, "User".to_string(), vec![], true, false),
        ],
    );
    let tag = Unit::make("Tag".to_string(), vec![slot("label", Kind::Text)], vec![]);
    let user = Unit::make("User".to_string(), vec![slot("name", Kind::Text)], vec![]);
    Plan::make(vec![task, tag, user])
}

fn note(e: Error) -> String {
    match e {
        Error::Adapt(m) => format!("adapt: {m}"),
        Error::Missing(m) => format!("missing: {m}"),
        Error::Estate(f) => format!("estate: {}", f.note()),
    }
}

#[test]
fn find_and_kind() {
    let p = model();
    let t = p.find("Task").expect("known");
    assert_eq!(t.key(), "Task");
    assert!(t.kind("title").unwrap() == Kind::Text);
    assert!(t.kind("id").unwrap() == Kind::Int);
    assert_eq!(note(t.kind("nope").unwrap_err()), "adapt: unknown field nope");
    assert_eq!(note(p.find("Nope").unwrap_err()), "missing: Nope");
    assert_eq!(t.root().expect("rooted").name(), "owner");
    assert!(t.crew().is_none());
    assert_eq!(t.refs().len(), 1);
}

#[test]
fn resolve_names_the_unit() {
    let p = model();
    assert_eq!(resolve(&p, "Tag").unwrap(), "Tag");
    assert_eq!(note(resolve(&p, "Nope").unwrap_err()), "missing: Nope");
}

#[test]
fn analyze_accepts_a_sound_query() {
    let p = model();
    let t = parse("from Task where title like \"a\" and tags has \"3\" and tags some (weight = \"2\") link tags order by n")
        .expect("parses");
    let s = analyze(&p, &t).expect("sound");
    assert_eq!(s.name(), "Task");
    assert_eq!(s.unit().name(), "Task");
    assert_eq!(s.at("Tag").expect("reached").name(), "Tag");
    assert_eq!(note(s.at("User").unwrap_err()), "missing: User");
    assert!(s.verify(&t).is_ok());
}

#[test]
fn analyze_refuses_unknown_names() {
    let p = model();
    let cases = [
        ("from Nope", "missing: Nope"),
        ("from Task where nope = \"1\"", "adapt: unknown field nope"),
        ("from Task where n like \"1\"", "adapt: like wants a text field"),
        ("from Task link nope", "adapt: unknown bond nope"),
        ("from Task where owner has \"1\"", "adapt: unknown bond owner"),
        ("from Task order by nope", "adapt: unknown field nope"),
        ("from Task where tags some (nope = \"1\")", "adapt: unknown field nope"),
    ];
    for (text, want) in cases {
        let t = parse(text).expect("parses");
        match analyze(&p, &t) {
            Ok(_) => panic!("{text} should be refused"),
            Err(e) => assert_eq!(note(e), want, "{text}"),
        }
    }
}

#[test]
fn some_without_inner_is_refused() {
    let p = model();
    let t = keel::query::form("Task").when("tags", keel::query::Op::Exists, "x");
    assert_eq!(note(analyze(&p, &t).err().expect("refused")), "adapt: some needs inner");
}

#[test]
fn predicates_are_checked_before_links() {
    let p = model();
    let t = parse("from Task where nope = \"1\" link zap").expect("parses");
    assert_eq!(note(analyze(&p, &t).err().expect("refused")), "adapt: unknown field nope");
}

#[test]
fn verify_checks_values_fit() {
    let p = model();
    let t = parse("from Task where n = \"x\"").expect("parses");
    let s = analyze(&p, &t).expect("sound");
    assert_eq!(note(s.verify(&t).unwrap_err()), "adapt: not an int: x");
    let u = parse("from Task where done = \"maybe\"").expect("parses");
    let s = analyze(&p, &u).expect("sound");
    assert_eq!(note(s.verify(&u).unwrap_err()), "adapt: not a bool: maybe");
    let v = parse("from Task where tags has \"x\"").expect("parses");
    let s = analyze(&p, &v).expect("sound");
    assert_eq!(note(s.verify(&v).unwrap_err()), "adapt: id needs integer");
    let w = parse("from Task where tags some (weight = \"y\")").expect("parses");
    let s = analyze(&p, &w).expect("sound");
    assert_eq!(note(s.verify(&w).unwrap_err()), "adapt: not an int: y");
}

#[test]
fn involved_lists_units_sorted_once() {
    let p = model();
    let t = parse("from Task where tags has \"1\" link tags").expect("parses");
    assert_eq!(t.involved(&p).unwrap(), vec!["Tag".to_string(), "Task".to_string()]);
    let u = parse("from Tag").expect("parses");
    assert_eq!(u.involved(&p).unwrap(), vec!["Tag".to_string()]);
}

#[test]
fn involved_fails_on_a_missing_target() {
    let lost = Unit::make(
        "Lost".to_string(),
        vec![],
        vec![Edge::make("gone".to_string(), Bond::Many2many, "Void".to_string(), vec![], false, false)],
    );
    let p = Plan::make(vec![lost]);
    let t = parse("from Lost link gone").expect("parses");
    assert_eq!(note(t.involved(&p).unwrap_err()), "missing: Void");
    assert_eq!(note(analyze(&p, &t).err().expect("refused")), "missing: Void");
}
