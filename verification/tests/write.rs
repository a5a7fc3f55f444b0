use keel::atom::Kind;
use keel::bond::Kind as Bond;
use keel::error::Error;
use keel::estate::guard::Rule;
use keel::life::write::{anchor, bind, claims, taken, landed, row_values, serial_clocks, tie_gate, tie_values, tune_of, unset_of, update_of};
use keel::life::{secs_of, Ends};
use keel::plan::{Edge, Slot, Unit};
use keel::spec::Only;
use keel::wire::Val;

fn note<T: std::fmt::Debug>(r: Result<T, Error>) -> String {
    match r {
        Err(Error::Adapt(m)) => m,
        other => panic!("expected a refusal, got {:?}", other),
    }
}

fn vals(v: &[Val]) -> Vec<String> {
    v.iter()
        .map(|x| match x {
            Val::Null => "null".to_string(),
            Val::Int(n) => format!("int {n}"),
            Val::Text(s) => format!("text {s}"),
        })
        .collect()
}

fn rule(default: Option<&str>, values: &[&str], min: Option<i64>, max: Option<i64>) -> Rule {
    Rule { default: default.map(|d| d.to_string()), values: values.iter().map(|v| v.to_string()).collect(), min, max }
}

fn task() -> Unit {
    Unit::make(
        "Task".to_string(),
        vec![
            Slot::ruled("state".into(), Kind::Text, true, rule(Some("queued"), &["done", "queued"], None, None)),
            Slot::ruled("remind".into(), Kind::Int, false, rule(None, &[], Some(1), None)),
            Slot::make("done".into(), Kind::Bool, true),
            Slot::make("note".into(), Kind::Text, true),
        ],
        vec![
            Edge::make("owner".into(), Bond::Many2one, "User".into(), vec![], false, false).needed(),
            Edge::make("tags".into(), Bond::Many2many, "Tag".into(), vec![Slot::make("weight".into(), Kind::Int, true)], false, false),
        ],
    )
}

#[test]
fn bind_holds_the_law() {
    let s = Slot::ruled("n".into(), Kind::Int, true, rule(None, &[], Some(1), Some(5)));
    assert_eq!(vals(&[bind(&s, "3").unwrap()]), vec!["int 3"]);
    assert_eq!(note(bind(&s, "9")), "field n refuses 9");
    assert_eq!(note(bind(&s, "x")), "not an int: x");
    let b = Slot::make("b".into(), Kind::Bool, true);
    assert_eq!(vals(&[bind(&b, "true").unwrap(), bind(&b, "false").unwrap()]), vec!["int 1", "int 0"]);
    let t = Slot::make("t".into(), Kind::Text, true);
    assert_eq!(vals(&[bind(&t, "").unwrap()]), vec!["text "]);
}

#[test]
fn default_fills_an_omitted_required_field() {
    let v = row_values(&task(), &[("done", "true"), ("note", "")], &[]).unwrap();
    assert_eq!(vals(&v), vec!["text queued", "null", "int 1", "text "]);
    assert_eq!(note(row_values(&task(), &[("done", "true")], &[])), "missing field note");
    assert_eq!(note(row_values(&task(), &[("state", "later"), ("done", "true"), ("note", "x")], &[])), "field state refuses later");
    assert_eq!(note(row_values(&task(), &[("remind", "0"), ("done", "true"), ("note", "x")], &[])), "field remind refuses 0");
}

fn ticket() -> Unit {
    Unit::make(
        "Ticket".to_string(),
        vec![
            Slot::make("title".into(), Kind::Text, true),
            Slot::numbered("number".into(), true, "owner".into()),
            Slot::ruled("queue".into(), Kind::Text, true, rule(Some("main"), &[], None, None)),
            Slot::numbered("rank".into(), true, "queue".into()),
        ],
        vec![Edge::make("owner".into(), Bond::Many2one, "User".into(), vec![], false, false)],
    )
}

#[test]
fn serial_fields_draw_from_scoped_counters() {
    let t = ticket();
    let clocks = serial_clocks(&t, &[("title", "a"), ("owner", "7"), ("number", "99")]).unwrap();
    assert_eq!(clocks, vec!["serial:Ticket:number:int:7", "serial:Ticket:rank:text:4:main"]);
    let v = row_values(&t, &[("title", "a"), ("owner", "7"), ("number", "99")], &[3, 12]).unwrap();
    assert_eq!(vals(&v), vec!["text a", "int 3", "text main", "int 12"]);
    let clocks = serial_clocks(&t, &[("title", "a"), ("queue", "side")]).unwrap();
    assert_eq!(clocks, vec!["serial:Ticket:number:null", "serial:Ticket:rank:text:4:side"]);
    assert_eq!(note(serial_clocks(&t, &[("title", "a"), ("owner", "x")])), "ref owner needs id");
    assert_eq!(note(serial_clocks(&t, &[("owner", "7")])), "missing field title");
}

#[test]
fn anchors_read_fields_then_keys() {
    let t = ticket();
    assert_eq!(vals(&[anchor(&t, &[], &[], "queue").unwrap()]), vec!["text main"]);
    assert_eq!(vals(&[anchor(&t, &[("queue", "x")], &[], "queue").unwrap()]), vec!["text x"]);
    assert_eq!(vals(&[anchor(&t, &[("owner", "")], &[], "owner").unwrap()]), vec!["null"]);
    assert_eq!(vals(&[anchor(&t, &[("owner", "12")], &[], "owner").unwrap()]), vec!["int 12"]);
    assert_eq!(vals(&[anchor(&t, &[], &[], "owner").unwrap()]), vec!["null"]);
}

fn member() -> Unit {
    Unit::make(
        "Member".to_string(),
        vec![
            Slot::make("email".into(), Kind::Text, true).sole(Only::All),
            Slot::make("handle".into(), Kind::Text, false).sole(Only::Per("team".into())),
            Slot::make("bio".into(), Kind::Text, false),
        ],
        vec![Edge::make("team".into(), Bond::Many2one, "Team".into(), vec![], false, false)],
    )
}

fn claimed(u: &Unit, fields: &[(&str, &str)], held: &[(String, Val)]) -> Vec<String> {
    claims(u, fields, held)
        .unwrap()
        .iter()
        .map(|c| {
            let scope = match &c.scope {
                Some((name, v)) => format!(" per {} {}", name, vals(&[copy(v)])[0]),
                None => String::new(),
            };
            format!("{} {}{}", c.field, vals(&[copy(&c.value)])[0], scope)
        })
        .collect()
}

fn copy(v: &Val) -> Val {
    match v {
        Val::Null => Val::Null,
        Val::Int(n) => Val::Int(*n),
        Val::Text(s) => Val::Text(s.clone()),
    }
}

#[test]
fn unique_fields_make_claims() {
    let m = member();
    assert_eq!(
        claimed(&m, &[("email", "a@x"), ("handle", "al"), ("team", "4"), ("bio", "hi")], &[]),
        vec!["email text a@x", "handle text al per team int 4"]
    );
    assert_eq!(claimed(&m, &[("bio", "hi")], &[]), Vec::<String>::new());
    let held = vec![("email".to_string(), Val::Text("b@x".into())), ("team".to_string(), Val::Int(9))];
    assert_eq!(
        claimed(&m, &[("handle", "bo")], &held),
        vec!["email text b@x", "handle text bo per team int 9"]
    );
    assert_eq!(note(claims(&m, &[("handle", "bo"), ("team", "z")], &[])), "ref team needs id");
    assert_eq!(note(Err::<(), Error>(taken("email"))), "field email taken");
}

#[test]
fn update_sets_fields_and_keys() {
    let (names, v) = update_of(&task(), 7, &[("owner", "3"), ("note", "hi")], 100).unwrap();
    assert_eq!(names, vec!["owner", "note"]);
    assert_eq!(vals(&v), vec!["int 3", "text hi", "int 100", "int 7", "int 100"]);
    assert_eq!(note(update_of(&task(), 7, &[("owner", "")], 100)), "missing ref owner");
    assert_eq!(note(update_of(&task(), 7, &[("owner", "x")], 100)), "ref owner needs id");
    assert_eq!(note(update_of(&task(), 7, &[("junk", "1")], 100)), "unknown field junk");
    assert_eq!(note(update_of(&task().freeze(), 7, &[("note", "x")], 100)), "frozen unit Task");
    let pulse = Unit::make("@pulse".into(), vec![], vec![]);
    assert_eq!(note(update_of(&pulse, 1, &[], 1)), "pulse is engine owned");
    let grant = Unit::make("@grant".into(), vec![], vec![]);
    assert_eq!(note(update_of(&grant, 1, &[], 1)), "grant rows are put or end");
}

#[test]
fn unset_refuses_a_frozen_unit() {
    let (names, v) = unset_of(&task(), 4, &["note"], 9).unwrap();
    assert_eq!(names, vec!["note"]);
    assert_eq!(vals(&v), vec!["int 9", "int 4"]);
    assert_eq!(note(unset_of(&task().freeze(), 4, &["note"], 9)), "frozen unit Task");
}

#[test]
fn landed_needs_a_changed_row() {
    assert!(landed(1, 5).is_ok());
    assert_eq!(note(landed(0, -5)), "missing row -5");
}

#[test]
fn tie_gate_checks_in_order() {
    assert!(tie_gate(true, true, true, true, false).is_ok());
    assert_eq!(note(tie_gate(false, false, false, false, true)), "left not live");
    assert_eq!(note(tie_gate(true, false, false, false, true)), "right not live");
    assert_eq!(note(tie_gate(true, true, false, false, true)), "left leased");
    assert_eq!(note(tie_gate(true, true, true, false, true)), "right leased");
    assert_eq!(note(tie_gate(true, true, true, true, true)), "live pair exists");
}

#[test]
fn tie_values_bind_the_bond_fields() {
    let t = task();
    let tags = &t.bonds()[1];
    let v = tie_values(tags, Ends { left: 1, right: 2 }, &[("weight", "4")], 50).unwrap();
    assert_eq!(vals(&v), vec!["int 1", "int 2", "int 4", "null", "int 50", "int 50"]);
    assert_eq!(note(tie_values(tags, Ends { left: 1, right: 2 }, &[], 50)), "not an int: ");
}

#[test]
fn tune_needs_something_to_set() {
    let t = task();
    let tags = &t.bonds()[1];
    assert_eq!(note(tune_of(tags, 3, &[], 1)), "empty set");
    assert_eq!(note(tune_of(tags, 3, &[("color", "red")], 1)), "unknown field color");
    let (names, v) = tune_of(tags, 3, &[("weight", "2")], 8).unwrap();
    assert_eq!(names, vec!["weight"]);
    assert_eq!(vals(&v), vec!["int 2", "int 8", "int 3", "int 8"]);
}

#[test]
fn clock_readings_become_seconds() {
    assert_eq!(secs_of(Some(1_700_000_000)), 1_700_000_000);
    assert_eq!(secs_of(None), 0);
}
