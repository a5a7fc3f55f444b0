use keel::atom::Kind;
use keel::bond::Kind as Bond;
use keel::cap::chain::{descend, replace, rise, Hop};
use keel::cap::deed::{broad, settle_all, settle_rest, spans, Bear, Case, Deed, Verdict};
use keel::cap::grant::{scope, vet, whole};
use keel::cap::seal::{digest, hex, token, wild};
use keel::cap::shape::{blend, field, mold, shape};
use keel::cap::{verb_list, Mark, Plea};
use keel::error::Error;
use keel::face::Who;
use keel::life::{Cell, Row};
use keel::plan::{Edge, Plan, Slot, Unit};

fn slot(name: &str, kind: Kind) -> Slot {
    Slot::make(name.to_string(), kind, false)
}

fn model() -> Plan {
    let task = Unit::make(
        "Task".to_string(),
        vec![slot("title", Kind::Text), slot("n", Kind::Int), slot("done", Kind::Bool)],
        vec![
            Edge::make("project".to_string(), Bond::Many2one, "Project".to_string(), vec![], true, false),
            Edge::make("tags".to_string(), Bond::Many2many, "Tag".to_string(), vec![], false, false),
        ],
    );
    let project = Unit::make("Project".to_string(), vec![slot("owner", Kind::Text)], vec![]);
    let team = Unit::make(
        "Team".to_string(),
        vec![],
        vec![Edge::make("members".to_string(), Bond::Many2many, "User".to_string(), vec![], false, true)],
    );
    Plan::make(vec![task, project, team])
}

fn note(e: Error) -> String {
    match e {
        Error::Adapt(m) => format!("adapt: {m}"),
        Error::Missing(m) => format!("missing: {m}"),
        Error::Estate(f) => format!("estate: {}", f.note()),
    }
}

fn text(c: &Cell) -> String {
    match c {
        Cell::Text(s) => format!("text {s}"),
        Cell::Int(n) => format!("int {n}"),
        Cell::Bool(b) => format!("bool {b}"),
    }
}

fn show(cells: &[(String, Cell)]) -> Vec<String> {
    let mut v: Vec<String> = cells.iter().map(|(k, c)| format!("{k}={}", text(c))).collect();
    v.sort();
    v
}

#[test]
fn tokens_are_64_lowercase_hex() {
    assert!(token(&"a".repeat(64)));
    assert!(token(&"0123456789abcdef".repeat(4)));
    assert!(!token(&"A".repeat(64)));
    assert!(!token(&"a".repeat(63)));
    assert!(!token(&"g".repeat(64)));
}

#[test]
fn digest_is_sha256_hex() {
    assert_eq!(digest("abc"), "ba7816bf8f01cfea414140de5dae2223b00361a396177a9cb410ff61f20015ad");
    assert!(token(&digest("anything")));
    assert_ne!(digest("a"), digest("b"));
}

#[test]
fn hex_writes_two_digits_a_byte() {
    assert_eq!(hex(&[0, 15, 16, 255]), "000f10ff");
}

#[test]
fn wild_tokens_are_tokens() {
    match wild() {
        Ok(t) => {
            assert!(token(&t));
            assert_eq!(t.len(), 64);
        }
        Err(e) => assert_eq!(note(e), "adapt: os entropy unavailable"),
    }
}

#[test]
fn verbs_are_listed() {
    assert_eq!(verb_list(), vec!["see", "put", "set", "end", "tie", "cut"]);
}

#[test]
fn whole_names_grantees() {
    let p = model();
    assert!(whole(&p, "anon"));
    assert!(whole(&p, "all"));
    assert!(whole(&p, "42"));
    assert!(whole(&p, "Team 3"));
    assert!(!whole(&p, "Task 3"));
    assert!(!whole(&p, "Team x"));
    assert!(!whole(&p, "bob"));
}

#[test]
fn scope_forms() {
    assert!(scope(None, "all").is_ok());
    assert!(scope(Some("Task"), "row 5").is_ok());
    assert_eq!(note(scope(None, "row 5").unwrap_err()), "adapt: row scope needs a unit");
    assert_eq!(note(scope(Some("Task"), "row x").unwrap_err()), "adapt: row scope needs id");
    assert!(scope(Some("Task"), "pred title = \"a\"").is_ok());
    assert_eq!(note(scope(None, "pred title = \"a\"").unwrap_err()), "adapt: pred scope needs a unit");
    assert_eq!(note(scope(Some("Task"), "pred tags has \"1\"").unwrap_err()), "adapt: scope pred is cells only");
    assert_eq!(note(scope(Some("Task"), "pred title").unwrap_err()), "adapt: expected op");
    assert_eq!(note(scope(Some("Task"), "junk").unwrap_err()), "adapt: scope is all | row <id> | pred <where>");
}

#[test]
fn vet_checks_a_grant() {
    let p = model();
    assert!(vet(&p, &[("verb", "see"), ("who", "anon"), ("unit", "*"), ("scope", "all")]).is_ok());
    assert!(vet(&p, &[("verb", "*"), ("who", "7"), ("unit", "Task"), ("scope", "row 2")]).is_ok());
    assert_eq!(note(vet(&p, &[("verb", "fly"), ("who", "anon")]).unwrap_err()), "adapt: unknown verb fly");
    assert_eq!(
        note(vet(&p, &[("verb", "see"), ("who", "bob")]).unwrap_err()),
        "adapt: who is an id, group, anon, or all"
    );
    assert_eq!(note(vet(&p, &[("verb", "see"), ("who", "all"), ("unit", "Nope")]).unwrap_err()), "missing: Nope");
    assert_eq!(
        note(vet(&p, &[("verb", "see"), ("who", "all"), ("unit", "*"), ("scope", "row 1")]).unwrap_err()),
        "adapt: row scope needs a unit"
    );
}

#[test]
fn field_reads_the_first_pair() {
    let f = [("a", "1"), ("b", "2"), ("a", "3")];
    assert_eq!(field(&f, "a"), "1");
    assert_eq!(field(&f, "z"), "");
}

#[test]
fn shape_follows_the_kind() {
    assert_eq!(text(&shape(Kind::Int, "12")), "int 12");
    assert_eq!(text(&shape(Kind::Int, "x")), "int 0");
    assert_eq!(text(&shape(Kind::Bool, "true")), "bool true");
    assert_eq!(text(&shape(Kind::Bool, "yes")), "bool false");
    assert_eq!(text(&shape(Kind::Text, "hi")), "text hi");
}

#[test]
fn mold_shapes_known_fields() {
    let p = model();
    let cells = mold(&p, "Task", &[("title", "a"), ("n", "12"), ("done", "true"), ("project", "7"), ("tags", "3"), ("junk", "x"), ("title", "b")]);
    assert_eq!(show(&cells), vec!["done=bool true", "n=int 12", "project=int 7", "title=text a"]);
    let empty = mold(&p, "Task", &[("title", ""), ("n", ""), ("project", "x")]);
    assert_eq!(show(&empty), vec!["title=text "]);
    assert!(mold(&p, "Nope", &[("title", "a")]).is_empty());
}

#[test]
fn blend_applies_pairs_in_order() {
    let p = model();
    let mut base = vec![("title".to_string(), Cell::Text("a".into())), ("n".to_string(), Cell::Int(1))];
    blend(&p, "Task", &mut base, &[("title", ""), ("n", "5"), ("project", "9"), ("junk", "1")]);
    assert_eq!(show(&base), vec!["n=int 5", "project=int 9", "title=text "]);
    blend(&p, "Task", &mut base, &[("n", ""), ("project", "")]);
    assert_eq!(show(&base), vec!["title=text "]);
    let mut same = vec![("title".to_string(), Cell::Text("a".into()))];
    blend(&p, "Nope", &mut same, &[("title", "")]);
    assert_eq!(show(&same), vec!["title=text a"]);
}

#[test]
fn replace_swaps_every_occurrence() {
    assert_eq!(replace("a \"@me\" b \"@me\"", "\"@me\"", "\"7\""), "a \"7\" b \"7\"");
    assert_eq!(replace("aaa", "aa", "b"), "ba");
    assert_eq!(replace("none", "x", "y"), "none");
}

#[test]
fn suits_fills_in_the_caller() {
    let cells = vec![("owner".to_string(), Cell::Text("7".into()))];
    let mark = Mark { key: None, cells: &cells };
    assert!(mark.suits("Project", "owner = \"@me\"", Who::Op(7)));
    assert!(!mark.suits("Project", "owner = \"@me\"", Who::Op(8)));
    assert!(!mark.suits("Project", "owner = \"@me\"", Who::Anon));
    assert!(mark.suits("Project", "owner = \"7\"", Who::Anon));
    assert!(!mark.suits("Project", "owner", Who::Anon));
}

fn row(key: i64, cells: &[(&str, Cell)]) -> Row {
    Row::make(key, cells.iter().map(|(k, v)| (k.to_string(), v.dup())).collect(), None, 0, 0)
}

#[test]
fn descend_finds_a_suiting_anchor() {
    let chain = vec![
        Hop { unit: "Task".to_string(), key: 1, row: None },
        Hop { unit: "Project".to_string(), key: 4, row: Some(row(4, &[("owner", Cell::Text("7".into()))])) },
    ];
    assert!(descend("Project", "owner = \"@me\"", Who::Op(7), &chain));
    assert!(!descend("Project", "owner = \"@me\"", Who::Op(9), &chain));
    assert!(!descend("Task", "owner = \"@me\"", Who::Op(7), &chain));
}

#[test]
fn rise_climbs_the_root_bond() {
    let p = model();
    let cells = vec![("project".to_string(), Cell::Int(4))];
    assert_eq!(rise(&p, "Task", &cells).unwrap(), Some(("Project".to_string(), 4)));
    assert_eq!(rise(&p, "Project", &cells).unwrap(), None);
    let none: Vec<(String, Cell)> = vec![];
    assert_eq!(rise(&p, "Task", &none).unwrap(), None);
    let lost = Plan::make(vec![Unit::make(
        "A".to_string(),
        vec![],
        vec![Edge::make("up".to_string(), Bond::Many2one, "B".to_string(), vec![], true, false)],
    )]);
    let up = vec![("up".to_string(), Cell::Int(1))];
    assert_eq!(note(rise(&lost, "A", &up).unwrap_err()), "missing: B");
}

fn grant(who: &str, verb: &str, unit: &str, span: &str) -> Row {
    row(
        1,
        &[
            ("who", Cell::Text(who.into())),
            ("verb", Cell::Text(verb.into())),
            ("unit", Cell::Text(unit.into())),
            ("scope", Cell::Text(span.into())),
        ],
    )
}

#[test]
fn deeds_name_and_bear() {
    let p = model();
    let g = grant("all", "see", "Task", "all");
    let d = Deed(&g);
    assert!(d.names(Who::Op(3)));
    assert!(!d.names(Who::Anon));
    assert!(d.does("see"));
    assert!(!d.does("put"));
    assert_eq!(d.anchor(&p), "Task");
    let any = grant("anon", "*", "*", "all");
    assert!(Deed(&any).does("cut"));
    assert_eq!(Deed(&any).anchor(&p), "*");
    let group = grant("Team 5", "see", "Task", "all");
    match Deed(&group).bearer(&p, Who::Op(9)) {
        Bear::Probe { unit, bond, id, op } => {
            assert_eq!(unit, "Team");
            assert_eq!(bond, "members");
            assert_eq!(id, 5);
            assert_eq!(op, 9);
        }
        Bear::Held(_) => panic!("needs the store"),
    }
    assert!(matches!(Deed(&group).bearer(&p, Who::Anon), Bear::Held(false)));
    assert!(matches!(Deed(&g).bearer(&p, Who::Op(1)), Bear::Held(true)));
}

#[test]
fn deeds_hold_by_scope() {
    let p = model();
    let cells = vec![("title".to_string(), Cell::Text("x".into()))];
    let mark = Mark { key: Some(3), cells: &cells };
    let plea = Plea { who: Who::Op(7), verb: "see", unit: "Task", mark: &mark };
    let chain = vec![Hop { unit: "Project".to_string(), key: 4, row: Some(row(4, &[("owner", Cell::Text("7".into()))])) }];
    let case = Case { plea: &plea, chain: &chain, held: &mark };
    assert!(Deed(&grant("all", "see", "Task", "all")).held(&p, &case, true));
    assert!(!Deed(&grant("all", "see", "Task", "all")).held(&p, &case, false));
    assert!(!Deed(&grant("all", "put", "Task", "all")).held(&p, &case, true));
    assert!(Deed(&grant("all", "see", "Project", "row 4")).held(&p, &case, true));
    assert!(!Deed(&grant("all", "see", "Project", "row 5")).held(&p, &case, true));
    assert!(Deed(&grant("all", "see", "Task", "pred title = \"x\"")).held(&p, &case, true));
    assert!(Deed(&grant("all", "see", "Project", "pred owner = \"@me\"")).held(&p, &case, true));
    let write = Plea { who: Who::Op(7), verb: "set", unit: "Task", mark: &mark };
    let case2 = Case { plea: &write, chain: &chain, held: &mark };
    assert!(!Deed(&grant("all", "set", "Project", "pred owner = \"@me\"")).held(&p, &case2, true));
}

#[test]
fn court_weighs_all_scopes_first() {
    let p = model();
    let cells = vec![("title".to_string(), Cell::Text("x".into()))];
    let mark = Mark { key: Some(3), cells: &cells };
    let plea = Plea { who: Who::Op(7), verb: "see", unit: "Task", mark: &mark };
    let deeds = vec![grant("all", "see", "Task", "all"), grant("all", "see", "Project", "row 4")];
    assert!(matches!(settle_all(&p, &deeds, &plea, &mark, &[true, true]), Verdict::Held));
    assert!(matches!(settle_all(&p, &deeds, &plea, &mark, &[false, true]), Verdict::Climb));
    let only_all = vec![grant("all", "put", "Task", "all")];
    assert!(matches!(settle_all(&p, &only_all, &plea, &mark, &[true]), Verdict::Refused));
    let chain = vec![Hop { unit: "Project".to_string(), key: 4, row: None }];
    let case = Case { plea: &plea, chain: &chain, held: &mark };
    assert!(settle_rest(&p, &deeds, &case, &[false, true]));
    assert!(!settle_rest(&p, &deeds, &case, &[true, false]));
}

#[test]
fn court_broad_and_spans() {
    let p = model();
    let deeds = vec![grant("all", "*", "*", "all"), grant("all", "see", "Task", "row 1")];
    assert!(broad(&p, &deeds, "put", "Task", &[true, true]));
    assert!(!broad(&p, &deeds, "put", "Task", &[false, true]));
    let cells: Vec<(String, Cell)> = vec![];
    let mark = Mark { key: Some(1), cells: &cells };
    let plea = Plea { who: Who::Op(7), verb: "see", unit: "Task", mark: &mark };
    let chain: Vec<Hop> = vec![];
    assert!(spans(&p, &deeds, &plea, &chain, &[true, true]));
    let narrow = vec![grant("all", "see", "Task", "all")];
    assert!(!spans(&p, &narrow, &plea, &chain, &[true]));
}

use keel::cap::seal::{genesis, sealed};

#[test]
fn genesis_refuses_a_sealed_store() {
    let t = "ab".repeat(32);
    let fields = genesis(&[], &t).unwrap();
    assert_eq!(fields.len(), 1);
    assert_eq!(fields[0].0, "hash");
    assert_eq!(fields[0].1, digest(&t));
    let row = Row::make(1, vec![("hash".to_string(), Cell::Text(digest(&t)))], None, 0, 0);
    assert!(matches!(genesis(std::slice::from_ref(&row), &t), Err(Error::Estate(keel::estate::Fault::Occupied))));
    assert!(sealed(std::slice::from_ref(&row), &t));
    assert!(!sealed(std::slice::from_ref(&row), &"cd".repeat(32)));
    assert!(!sealed(&[], &t));
}

#[test]
fn mold_equals_blend_into_nothing() {
    let p = model();
    let f = [("title", ""), ("n", "4"), ("project", "9"), ("done", "")];
    let molded = mold(&p, "Task", &f);
    let mut blended = Vec::new();
    blend(&p, "Task", &mut blended, &f);
    assert_eq!(show(&molded), show(&blended));
}
