use keel::atom::Kind;
use keel::bond::Kind as Bond;
use keel::ddl::Grain;
use keel::estate::catalog::script;
use keel::estate::copy::{cast, fill, literal, reign};
use keel::estate::derivative::{lost, mark};
use keel::estate::evolve::{contract, paths};
use keel::estate::frame::frame;
use keel::estate::guard::{accepts, settle, valid, values, Rule};
use keel::estate::{Act, Change, Check, Fault, Step};
use keel::error::Error;
use keel::estate::hook::Gone;
use keel::plan::{Edge, Plan, Slot, Unit};
use keel::wire::Val;

fn rule(default: Option<&str>, values: &[&str], min: Option<i64>, max: Option<i64>) -> Rule {
    Rule {
        default: default.map(|d| d.to_string()),
        values: values.iter().map(|v| v.to_string()).collect(),
        min,
        max,
    }
}

fn open() -> Rule {
    rule(None, &[], None, None)
}

fn slot(name: &str, kind: Kind) -> Slot {
    Slot::make(name.to_string(), kind, true)
}

fn edge(name: &str, kind: Bond) -> Edge {
    Edge::make(name.to_string(), kind, "Tag".to_string(), vec![], false, false)
}

fn events(out: &[Gone]) -> Vec<(String, i64)> {
    out.iter().map(|g| (g.path().to_string(), g.key())).collect()
}

#[test]
fn law_admits_listed_values_only() {
    let states = rule(Some("queued"), &["done", "queued"], None, None);
    assert!(accepts(Kind::Text, &states, "done"));
    assert!(!accepts(Kind::Text, &states, "later"));
    assert!(accepts(Kind::Text, &open(), ""));
}

#[test]
fn law_bounds_are_inclusive() {
    let every = rule(None, &[], Some(1), Some(10));
    assert!(accepts(Kind::Int, &every, "1"));
    assert!(accepts(Kind::Int, &every, "10"));
    assert!(!accepts(Kind::Int, &every, "0"));
    assert!(!accepts(Kind::Int, &every, "11"));
    assert!(!accepts(Kind::Int, &every, "x"));
    assert!(accepts(Kind::Text, &every, "0"));
}

#[test]
fn values_that_survive_a_kind_change() {
    assert!(valid(&Val::Null, Kind::Text, Kind::Int, &rule(None, &[], Some(5), None)));
    assert!(valid(&Val::Text("12".into()), Kind::Text, Kind::Int, &open()));
    assert!(!valid(&Val::Text("012".into()), Kind::Text, Kind::Int, &open()));
    assert!(!valid(&Val::Text("+3".into()), Kind::Text, Kind::Int, &open()));
    assert!(!valid(&Val::Text("ab".into()), Kind::Text, Kind::Int, &open()));
    assert!(valid(&Val::Text("true".into()), Kind::Text, Kind::Bool, &open()));
    assert!(!valid(&Val::Text("yes".into()), Kind::Text, Kind::Bool, &open()));
    assert!(valid(&Val::Int(1), Kind::Int, Kind::Bool, &open()));
    assert!(!valid(&Val::Int(2), Kind::Int, Kind::Bool, &open()));
    assert!(valid(&Val::Int(7), Kind::Bool, Kind::Text, &rule(None, &["true"], None, None)));
    assert!(!valid(&Val::Int(0), Kind::Bool, Kind::Text, &rule(None, &["true"], None, None)));
    assert!(valid(&Val::Int(-4), Kind::Int, Kind::Text, &rule(None, &["-4"], None, None)));
    assert!(!valid(&Val::Int(12), Kind::Text, Kind::Int, &rule(None, &[], None, Some(11))));
}

#[test]
fn literals_are_quoted_for_their_kind() {
    assert_eq!(literal(Kind::Text, "it's"), "'it''s'");
    assert_eq!(literal(Kind::Link, ""), "''");
    assert_eq!(literal(Kind::Int, "42"), "42");
    assert_eq!(literal(Kind::Bool, "true"), "1");
    assert_eq!(literal(Kind::Bool, "false"), "0");
}

#[test]
fn defaults_fill_nulls() {
    let r = rule(Some("queued"), &[], None, None);
    assert_eq!(fill(Kind::Text, &r, "\"state\"".to_string()), "COALESCE(\"state\", 'queued')");
    assert_eq!(fill(Kind::Text, &open(), "NULL".to_string()), "NULL");
}

#[test]
fn casts_follow_the_kinds() {
    assert_eq!(cast("\"n\"", Kind::Text, Kind::Int, Grain::Lite), "CAST(\"n\" AS INTEGER)");
    assert_eq!(cast("\"n\"", Kind::Text, Kind::Int, Grain::Pg), "CAST(\"n\" AS BIGINT)");
    assert_eq!(cast("c", Kind::Int, Kind::Text, Grain::Pg), "CAST(c AS TEXT)");
    assert_eq!(
        cast("c", Kind::Text, Kind::Bool, Grain::Lite),
        "CASE WHEN c IS NULL THEN NULL WHEN c = 'true' THEN 1 ELSE 0 END"
    );
    assert_eq!(
        cast("c", Kind::Bool, Kind::Text, Grain::Lite),
        "CASE WHEN c IS NULL THEN NULL WHEN c = 1 THEN 'true' ELSE 'false' END"
    );
    assert_eq!(cast("c", Kind::Int, Kind::Int, Grain::Lite), "c");
}

#[test]
fn control_columns_are_carried() {
    let mut cols = vec!["id".to_string()];
    let mut vals = vec!["id".to_string()];
    reign(&mut cols, &mut vals);
    assert_eq!(cols, vec!["id", "expires_at", "created_at", "updated_at"]);
    assert_eq!(vals, cols);
}

#[test]
fn frames_carry_lengths() {
    let rows = vec![
        vec![Val::Text("table".into()), Val::Int(-12), Val::Null],
        vec![],
        vec![Val::Text("é:".into())],
    ];
    assert_eq!(frame(&rows), "r3:s5:tablei3:-12n0:r0:r1:s3:é:");
    assert_eq!(frame(&[]), "");
}

#[test]
fn frames_tell_catalogs_apart() {
    let a = vec![vec![Val::Text("ab".into())], vec![Val::Text("c".into())]];
    let b = vec![vec![Val::Text("a".into())], vec![Val::Text("bc".into())]];
    let c = vec![vec![Val::Text("1".into())]];
    let d = vec![vec![Val::Int(1)]];
    assert_ne!(frame(&a), frame(&b));
    assert_ne!(frame(&c), frame(&d));
}

#[test]
fn marks_stay_sorted_and_single() {
    let mut out = Vec::new();
    mark("T.b", &[3, 1, 3], &mut out);
    mark("T.a", &[2], &mut out);
    mark("T.b", &[1], &mut out);
    assert_eq!(
        events(&out),
        vec![("T.a".to_string(), 2), ("T.b".to_string(), 1), ("T.b".to_string(), 3)]
    );
}

#[test]
fn a_retired_unit_loses_every_row() {
    let prior = Unit::make("Task".into(), vec![slot("title", Kind::Text)], vec![]);
    let mut out = Vec::new();
    lost(&prior, None, &[5, 2], &[2], &mut out);
    assert_eq!(events(&out), vec![("Task".to_string(), 2), ("Task".to_string(), 5)]);
}

#[test]
fn a_kept_unit_loses_dropped_members() {
    let prior = Unit::make(
        "Task".into(),
        vec![slot("title", Kind::Text), slot("note", Kind::Text)],
        vec![edge("owner", Bond::Many2one), edge("tags", Bond::Many2many), edge("lead", Bond::One2one)],
    );
    let active = Unit::make(
        "Task".into(),
        vec![slot("title", Kind::Text)],
        vec![edge("lead", Bond::One2one)],
    );
    let mut out = Vec::new();
    lost(&prior, Some(&active), &[1, 2, 3], &[2, 3, 9], &mut out);
    assert_eq!(
        events(&out),
        vec![
            ("Task".to_string(), 1),
            ("Task.note".to_string(), 2),
            ("Task.note".to_string(), 3),
            ("Task.owner".to_string(), 2),
            ("Task.owner".to_string(), 3),
        ]
    );
}

fn model(with_tags: bool) -> Plan {
    let mut bonds = vec![edge("owner", Bond::Many2one)];
    if with_tags {
        bonds.push(edge("tags", Bond::Many2many));
    }
    let task = Unit::make("Task".into(), vec![], bonds);
    let tag = Unit::make("Tag".into(), vec![], vec![]);
    if with_tags {
        Plan::make(vec![task, tag])
    } else {
        Plan::make(vec![task])
    }
}

#[test]
fn paths_list_units_and_bonds() {
    assert_eq!(paths(&model(true)), vec!["Task", "Task.owner", "Task.tags", "Tag"]);
}

#[test]
fn contract_drops_what_the_request_lacks() {
    assert_eq!(contract(&model(true), &model(false)), vec!["Task.tags", "Tag"]);
    assert!(contract(&model(false), &model(true)).is_empty());
}

#[test]
fn stored_values_checked_together() {
    let rows = vec![vec![Val::Text("1".into())], vec![Val::Null], vec![Val::Text("30".into())]];
    assert!(values(&rows, Kind::Text, Kind::Int, &open()));
    assert!(!values(&rows, Kind::Text, Kind::Int, &rule(None, &[], None, Some(20))));
    assert!(values(&[], Kind::Text, Kind::Bool, &open()));
}

#[test]
fn catalog_tables_per_dialect() {
    let lite = script(Grain::Lite);
    assert_eq!(lite.len(), 4);
    assert_eq!(
        lite[0],
        "CREATE TABLE \"@estate\" (id INTEGER PRIMARY KEY NOT NULL, format INTEGER NOT NULL, active INTEGER NOT NULL, shape TEXT NOT NULL);"
    );
    assert_eq!(
        script(Grain::Pg)[2],
        "CREATE TABLE \"@clock\" (name TEXT PRIMARY KEY NOT NULL, value BIGINT NOT NULL);"
    );
    assert_eq!(
        script(Grain::Pg)[3],
        "CREATE TABLE \"@derivative\" (generation BIGINT NOT NULL, path TEXT NOT NULL, key BIGINT NOT NULL, created BIGINT NOT NULL, PRIMARY KEY (generation, path, key));"
    );
}

#[test]
fn the_first_failed_check_blocks_a_move() {
    let change = Change::new(vec![
        Step::new("Task".to_string(), Act::Add, None),
        Step::new("Task.n".to_string(), Act::Cast, Some(Check::Values)),
        Step::new("Task.m".to_string(), Act::Drop, Some(Check::Empty)),
    ]);
    assert!(settle(&change, &[false, true, true]).is_ok());
    match settle(&change, &[true, false, false]) {
        Err(Error::Estate(Fault::Blocked { path, check })) => {
            assert_eq!(path, "Task.n");
            assert!(matches!(check, Check::Values));
        }
        other => panic!("unexpected {:?}", other),
    }
}
