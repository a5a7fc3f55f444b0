use keel::atom::Kind;
use keel::bond::Kind as Bond;
use keel::error::Error;
use keel::life::{Cell, Row, Tie};
use keel::plan::{Edge, Plan, Slot, Unit};
use keel::query::check::analyze;
use keel::query::parse::parse;
use keel::query::run::{assemble, gather, settle, sift};
use keel::query::Bag;

fn model() -> Plan {
    let task = Unit::make(
        "Task".to_string(),
        vec![Slot::make("n".into(), Kind::Int, true)],
        vec![Edge::make("tags".to_string(), Bond::Many2many, "Tag".to_string(), vec![], false, false)],
    );
    let tag = Unit::make("Tag".to_string(), vec![Slot::make("label".into(), Kind::Text, true)], vec![]);
    Plan::make(vec![task, tag])
}

fn row(key: i64, n: i64) -> Row {
    Row::make(key, vec![("n".to_string(), Cell::Int(n))], None, 0, 0)
}

fn tie(key: i64) -> Tie {
    Tie::make(key, 1, 2, vec![], None, 0, 0)
}

fn keys(rows: &[Row]) -> Vec<i64> {
    rows.iter().map(|r| r.key()).collect()
}

#[test]
fn sift_keeps_rows_that_pass_and_hold() {
    let t = parse("from Task where n >= \"2\"").expect("parses");
    let rows = vec![row(1, 1), row(2, 2), row(3, 5), row(4, 7)];
    let kept = sift(&t, rows, &[true, true, false, true]);
    assert_eq!(keys(&kept), vec![2, 4]);
}

#[test]
fn settle_orders_then_pages() {
    let t = parse("from Task order by n desc limit 2 after \"4\"").expect("parses");
    let rows = vec![row(1, 1), row(2, 9), row(3, 5), row(4, 7)];
    assert_eq!(keys(&settle(&t, rows)), vec![3, 1]);
}

#[test]
fn gather_keeps_live_ties_by_key() {
    let ties = vec![tie(9), tie(3), tie(7), tie(1)];
    let out = gather(ties, &[true, true, false, true]).unwrap();
    assert_eq!(out.iter().map(|t| t.key()).collect::<Vec<_>>(), vec![1, 3, 9]);
    let many: Vec<Tie> = (0..10_001).map(tie).collect();
    let alive = vec![true; 10_001];
    match gather(many, &alive) {
        Err(Error::Adapt(m)) => assert_eq!(m, "tie cap exceeded"),
        other => panic!("unexpected {:?}", other.map(|v| v.len())),
    }
    let few: Vec<Tie> = (0..10_001).map(tie).collect();
    let mut alive = vec![true; 10_001];
    alive[0] = false;
    assert_eq!(gather(few, &alive).unwrap().len(), 10_000);
}

#[test]
fn assemble_bags_rows_and_links() {
    let p = model();
    let t = parse("from Task link tags").expect("parses");
    let s = analyze(&p, &t).expect("sound");
    let pack = assemble(&s, &t, vec![row(1, 1)], vec![vec![tie(5)]]);
    assert_eq!(pack.root(), "Task");
    assert!(pack.count().is_none());
    let names: Vec<&str> = pack.bags().iter().map(|(n, _)| n.as_str()).collect();
    assert_eq!(names, vec!["Task", "Task.tags"]);
    assert!(matches!(&pack.bags()[1].1, Bag::Bond(v) if v.len() == 1));
    let c = parse("from Task count").expect("parses");
    let s = analyze(&p, &c).expect("sound");
    let pack = assemble(&s, &c, vec![row(1, 1), row(2, 2)], vec![]);
    assert_eq!(pack.count(), Some(2));
}

use keel::query::run::{holds_right, verdict};

#[test]
fn bond_checks_decide_from_ties() {
    let ties = vec![Tie::make(1, 1, 4, vec![("weight".to_string(), Cell::Int(2))], None, 0, 0)];
    assert!(holds_right(&ties, 4));
    assert!(!holds_right(&ties, 5));
    let edge = Edge::make("tags".into(), Bond::Many2many, "Tag".into(), vec![Slot::make("weight".into(), Kind::Int, true)], false, false);
    let key = parse("from Task where tags some (id = \"4\")").expect("parses");
    let nest = key.preds()[0].nest().expect("inner");
    assert_eq!(verdict(&edge, &ties[0], nest), Some(true));
    let own = parse("from Task where tags some (weight > \"3\")").expect("parses");
    assert_eq!(verdict(&edge, &ties[0], own.preds()[0].nest().expect("inner")), Some(false));
    let far = parse("from Task where tags some (label = \"x\")").expect("parses");
    assert_eq!(verdict(&edge, &ties[0], far.preds()[0].nest().expect("inner")), None);
}
