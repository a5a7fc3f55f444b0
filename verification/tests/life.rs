use keel::atom::Kind;
use keel::bond::Kind as Bond;
use keel::error::Error;
use keel::life::closure::reach;
use keel::life::glean::{cell, draw, kept};
use keel::life::util::{pick, pluck, seek, val_of};
use keel::life::{Cell, Row, Tie};
use keel::life::edit::heirs;
use keel::plan::{Edge, Plan, Slot, Unit};
use keel::wire::Val;

fn note(e: Error) -> String {
    match e {
        Error::Adapt(m) => format!("adapt: {m}"),
        Error::Missing(m) => format!("missing: {m}"),
        Error::Estate(f) => format!("estate: {}", f.note()),
    }
}

fn text(c: &Cell) -> String {
    match c {
        Cell::Text(s) => format!("text {s}"),
        Cell::Int(n) => format!("int {n}"),
        Cell::Bool(b) => format!("bool {b}"),
    }
}

#[test]
fn closure_pairs_every_reached_row() {
    let out = reach(&[(1, 2), (2, 3), (3, 1), (4, 4), (5, 6)]);
    assert_eq!(out, vec![(1, 2), (1, 3), (2, 1), (2, 3), (3, 1), (3, 2), (5, 6)]);
    assert!(reach(&[]).is_empty());
    assert_eq!(reach(&[(1, 2), (2, 3), (1, 2)]), vec![(1, 2), (1, 3), (2, 3)]);
}

#[test]
fn seek_and_pluck() {
    let f = [("a", "1"), ("b", "")];
    assert_eq!(seek(&f, "a"), Some("1"));
    assert_eq!(seek(&f, "b"), Some(""));
    assert_eq!(seek(&f, "c"), None);
    assert_eq!(pluck(&f, "c"), "");
}

#[test]
fn cells_store_as_values() {
    assert!(matches!(val_of(&Cell::Bool(true)), Val::Int(1)));
    assert!(matches!(val_of(&Cell::Bool(false)), Val::Int(0)));
    assert!(matches!(val_of(&Cell::Int(7)), Val::Int(7)));
    assert!(matches!(val_of(&Cell::Text("x".into())), Val::Text(s) if s == "x"));
}

#[test]
fn pick_reads_by_kind() {
    let need = Slot::make("t".to_string(), Kind::Text, true);
    let opt = Slot::make("n".to_string(), Kind::Int, false);
    let flag = Slot::make("f".to_string(), Kind::Bool, false);
    assert_eq!(note(pick(&need, &Val::Null).unwrap_err()), "adapt: required field t is null");
    assert!(pick(&opt, &Val::Null).unwrap().is_none());
    assert_eq!(text(&pick(&need, &Val::Int(5)).unwrap().unwrap()), "text 5");
    assert_eq!(text(&pick(&opt, &Val::Text("x".into())).unwrap().unwrap()), "int 0");
    assert_eq!(text(&pick(&flag, &Val::Int(2)).unwrap().unwrap()), "bool true");
    assert_eq!(text(&pick(&flag, &Val::Int(0)).unwrap().unwrap()), "bool false");
}

fn task() -> Unit {
    Unit::make(
        "Task".to_string(),
        vec![Slot::make("title".to_string(), Kind::Text, true), Slot::make("n".to_string(), Kind::Int, false)],
        vec![
            Edge::make("tags".to_string(), Bond::Many2many, "Tag".to_string(), vec![], false, false),
            Edge::make("owner".to_string(), Bond::Many2one, "User".to_string(), vec![], false, false),
        ],
    )
}

#[test]
fn row_read_takes_key_fields_refs_stamps() {
    let line = vec![Val::Int(1), Val::Text("a".into()), Val::Null, Val::Int(9), Val::Null, Val::Int(100), Val::Int(200)];
    let r = Row::read(&task(), &line).expect("reads");
    assert_eq!(r.key(), 1);
    assert_eq!(text(r.cell("title").unwrap()), "text a");
    assert!(r.cell("n").is_none());
    assert_eq!(text(r.cell("owner").unwrap()), "int 9");
    assert_eq!(r.expires(), None);
    assert_eq!(r.created(), 100);
    assert_eq!(r.updated(), 200);
    let bad = vec![Val::Int(1), Val::Null, Val::Null, Val::Null, Val::Int(5), Val::Int(0), Val::Int(0)];
    assert_eq!(note(Row::read(&task(), &bad).unwrap_err()), "adapt: required field title is null");
}

#[test]
fn tie_read_needs_every_field() {
    let edge = Edge::make(
        "tags".to_string(),
        Bond::Many2many,
        "Tag".to_string(),
        vec![Slot::make("w".to_string(), Kind::Int, false)],
        false,
        false,
    );
    let line = vec![Val::Int(3), Val::Int(1), Val::Int(2), Val::Int(50), Val::Int(10), Val::Int(11), Val::Int(4)];
    let t = Tie::read(&edge, &line).expect("reads");
    assert_eq!((t.key(), t.left(), t.right()), (3, 1, 2));
    assert_eq!(t.expires(), Some(50));
    assert_eq!((t.created(), t.updated()), (10, 11));
    assert_eq!(t.cells().len(), 1);
    let null = vec![Val::Int(3), Val::Int(1), Val::Int(2), Val::Null, Val::Int(10), Val::Int(11), Val::Null];
    assert_eq!(note(Tie::read(&edge, &null).unwrap_err()), "adapt: required field w is null");
}

fn row(cells: &[(&str, Cell)]) -> Row {
    Row::make(1, cells.iter().map(|(k, v)| (k.to_string(), v.dup())).collect(), None, 0, 0)
}

#[test]
fn glean_draws_cells_as_text() {
    let r = row(&[("name", Cell::Text("x".into())), ("need", Cell::Bool(true)), ("unit", Cell::Int(4))]);
    assert_eq!(cell(&r, "need"), Some(("need".to_string(), "true".to_string())));
    assert_eq!(cell(&r, "nope"), None);
    assert_eq!(
        draw(&r, &["unit", "nope", "name"]),
        vec![("unit".to_string(), "4".to_string()), ("name".to_string(), "x".to_string())]
    );
    assert!(kept(&[3, 4], &r, "unit"));
    assert!(!kept(&[3], &r, "unit"));
    assert!(!kept(&[3], &r, "name"));
    assert!(!kept(&[3], &r, "nope"));
}

#[test]
fn cells_show_and_text() {
    assert_eq!(Cell::Int(-5).show(), "-5");
    assert_eq!(Cell::Bool(false).show(), "false");
    assert_eq!(Cell::Int(5).text(), "");
    assert_eq!(Cell::Text("q".into()).text(), "q");
}

#[test]
fn heirs_are_units_anchored_here() {
    let project = Unit::make("Project".to_string(), vec![], vec![]);
    let task = Unit::make(
        "Task".to_string(),
        vec![],
        vec![Edge::make("project".to_string(), Bond::Many2one, "Project".to_string(), vec![], true, false)],
    );
    let memo = Unit::make(
        "Note".to_string(),
        vec![],
        vec![Edge::make("task".to_string(), Bond::Many2one, "Task".to_string(), vec![], true, false)],
    );
    let plan = Plan::make(vec![project, task, memo]);
    assert_eq!(heirs(&plan, "Project").unwrap(), vec![("Task".to_string(), "project".to_string())]);
    assert_eq!(heirs(&plan, "Task").unwrap(), vec![("Note".to_string(), "task".to_string())]);
    assert!(heirs(&plan, "Note").unwrap().is_empty());
    assert_eq!(note(heirs(&plan, "Nope").unwrap_err()), "missing: Nope");
}
