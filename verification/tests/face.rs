use keel::face::stash::{owner, Stash};
use keel::face::{horizon, label, lane, Who};
use keel::life::{Row, Tie};
use keel::query::{Bag, Pack};

fn row(key: i64, expires: Option<i64>) -> Row {
    Row::make(key, vec![], expires, 0, 0)
}

fn tie(key: i64, expires: Option<i64>) -> Tie {
    Tie::make(key, 1, 2, vec![], expires, 0, 0)
}

fn pack(rows: Vec<Row>, ties: Vec<Tie>) -> Pack {
    Pack::make("T".to_string(), vec![("T".to_string(), Bag::Unit(rows)), ("T.tags".to_string(), Bag::Bond(ties))], None)
}

#[test]
fn labels_and_lanes() {
    assert_eq!(label(Who::Sudo), "sudo");
    assert_eq!(label(Who::Anon), "anon");
    assert_eq!(label(Who::Op(-4)), "-4");
    assert_eq!(lane("Task", "tags"), "Task.tags");
}

#[test]
fn horizon_is_the_earliest_expiry() {
    assert_eq!(horizon(&pack(vec![row(1, Some(30)), row(2, None)], vec![tie(1, Some(20))])), Some(20));
    assert_eq!(horizon(&pack(vec![row(1, None)], vec![])), None);
    assert_eq!(horizon(&pack(vec![row(1, Some(5)), row(2, Some(9))], vec![])), Some(5));
}

#[test]
fn owner_is_the_text_before_the_dot() {
    assert_eq!(owner("Task.tags"), "Task");
    assert_eq!(owner("Task"), "Task");
    assert_eq!(owner("a.b.c"), "a");
}

#[test]
fn stash_serves_what_it_kept_until_a_unit_moves() {
    let mut s = Stash::new(true);
    let units = vec!["Task".to_string(), "Tag".to_string()];
    assert!(s.read_at("q", &units, 0).is_none());
    s.keep("q".to_string(), &units, pack(vec![row(1, Some(50))], vec![]));
    assert_eq!(s.read_at("q", &units, 10).expect("kept").root(), "T");
    assert!(s.read_at("q", &units, 50).is_none());
    assert!(s.read_at("other", &units, 10).is_none());
    s.bump("Other.x");
    assert!(s.read_at("q", &units, 10).is_some());
    s.bump("Tag.members");
    assert_eq!(s.step("Tag"), 1);
    assert!(s.read_at("q", &units, 10).is_none());
}

#[test]
fn stash_off_keeps_nothing() {
    let mut s = Stash::new(false);
    let units = vec!["Task".to_string()];
    s.keep("q".to_string(), &units, pack(vec![], vec![]));
    assert!(s.read_at("q", &units, 0).is_none());
}

#[test]
fn stash_spoil_drops_everything() {
    let mut s = Stash::new(true);
    let units = vec!["Task".to_string()];
    s.keep("q".to_string(), &units, pack(vec![], vec![]));
    assert!(s.read_at("q", &units, 0).is_some());
    s.spoil();
    assert!(s.read_at("q", &units, 0).is_none());
    assert_eq!(s.stamp(&units), vec![("Task".to_string(), 0)]);
}
