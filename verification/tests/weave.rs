use keel::error::Error;
use keel::life::weave::{weave, Line, Sheet};
use keel::life::{Cell, Row};

fn row(key: i64, cells: &[(&str, Cell)]) -> Row {
    let cells = cells
        .iter()
        .map(|(h, c)| {
            let c = match c {
                Cell::Text(s) => Cell::Text(s.clone()),
                Cell::Int(n) => Cell::Int(*n),
                Cell::Bool(b) => Cell::Bool(*b),
            };
            (h.to_string(), c)
        })
        .collect();
    Row::make(key, cells, None, 0, 0)
}

fn text(s: &str) -> Cell {
    Cell::Text(s.to_string())
}

fn shown(lines: &[Line]) -> Vec<(Sheet, Vec<(String, String)>)> {
    lines.iter().map(|l| (l.unit, l.cells.clone())).collect()
}

fn pairs(p: &[(&str, &str)]) -> Vec<(String, String)> {
    p.iter().map(|(a, b)| (a.to_string(), b.to_string())).collect()
}

fn roots() -> Vec<Row> {
    vec![row(1, &[("key", text("Task")), ("name", text("Task")), ("frozen", Cell::Bool(false))])]
}

#[test]
fn weave_ties_rows_to_their_owners() {
    let bonds = vec![
        row(10, &[("unit", Cell::Int(1)), ("name", text("tags")), ("kind", text("many2many")), ("target", text("Tag"))]),
        row(11, &[("unit", Cell::Int(99)), ("name", text("lost"))]),
    ];
    let fields = vec![
        row(20, &[("unit", Cell::Int(1)), ("name", text("title")), ("kind", text("string"))]),
        row(21, &[("unit", Cell::Int(1)), ("bond", Cell::Int(10)), ("name", text("weight")), ("min", Cell::Int(1))]),
    ];
    let scopes = vec![row(30, &[("field", Cell::Int(20)), ("scope", text("owner"))])];
    let values = vec![
        row(40, &[("field", Cell::Int(21)), ("value", text("3"))]),
        row(41, &[("field", Cell::Int(77)), ("value", text("x"))]),
    ];
    let lines = weave(&roots(), &bonds, &fields, &scopes, &values).unwrap();
    assert_eq!(
        shown(&lines),
        vec![
            (Sheet::Unit, pairs(&[("key", "Task"), ("name", "Task"), ("frozen", "false")])),
            (Sheet::Bond, pairs(&[("unit", "Task"), ("name", "tags"), ("kind", "many2many"), ("target", "Tag")])),
            (Sheet::Field, pairs(&[("unit", "Task"), ("name", "title"), ("kind", "string")])),
            (Sheet::Field, pairs(&[("unit", "Task"), ("bond", "tags"), ("name", "weight"), ("min", "1")])),
            (Sheet::Scope, pairs(&[("unit", "Task"), ("name", "title"), ("scope", "owner")])),
            (Sheet::Value, pairs(&[("unit", "Task"), ("name", "weight"), ("bond", "tags"), ("value", "3")])),
        ]
    );
}

#[test]
fn weave_refuses_an_unknown_bond() {
    let fields = vec![row(20, &[("unit", Cell::Int(1)), ("bond", Cell::Int(77)), ("name", text("w"))])];
    match weave(&roots(), &[], &fields, &[], &[]) {
        Err(Error::Adapt(note)) => assert_eq!(note, "schema bond 77"),
        other => panic!("unexpected {:?}", other.map(|l| l.len())),
    }
}

#[test]
fn weave_of_nothing_is_empty() {
    assert!(weave(&[], &[], &[], &[], &[]).unwrap().is_empty());
}

use keel::life::etch::{tag, Seen};

fn line(unit: Sheet, cells: &[(&str, &str)]) -> Line {
    Line { unit, cells: pairs(cells) }
}

#[test]
fn look_reads_the_first_cell() {
    let l = line(Sheet::Bond, &[("unit", "Task"), ("name", "a"), ("name", "b")]);
    assert_eq!(l.look("name"), "a");
    assert_eq!(l.look("bond"), "");
}

#[test]
fn tag_names_owners_by_key() {
    let mut seen = Seen::new();
    let unit = line(Sheet::Unit, &[("key", "Task"), ("name", "Task")]);
    assert_eq!(tag(&unit, &seen).unwrap(), pairs(&[("key", "Task"), ("name", "Task")]));
    seen.keep(&unit, 7);
    let bond = line(Sheet::Bond, &[("unit", "Task"), ("name", "tags"), ("kind", "many2many")]);
    assert_eq!(
        tag(&bond, &seen).unwrap(),
        pairs(&[("name", "tags"), ("kind", "many2many"), ("unit", "7")])
    );
    seen.keep(&bond, 8);
    let field = line(Sheet::Field, &[("unit", "Task"), ("bond", "tags"), ("name", "weight")]);
    assert_eq!(
        tag(&field, &seen).unwrap(),
        pairs(&[("name", "weight"), ("unit", "7"), ("bond", "8")])
    );
    seen.keep(&field, 9);
    let value = line(Sheet::Value, &[("unit", "Task"), ("name", "weight"), ("bond", "tags"), ("value", "3")]);
    assert_eq!(tag(&value, &seen).unwrap(), pairs(&[("value", "3"), ("field", "9")]));
}

#[test]
fn tag_refuses_an_owner_not_yet_stored() {
    let seen = Seen::new();
    let bond = line(Sheet::Bond, &[("unit", "Task"), ("name", "tags")]);
    match tag(&bond, &seen) {
        Err(Error::Adapt(note)) => assert_eq!(note, "schema row Task"),
        other => panic!("unexpected {:?}", other),
    }
    let scope = line(Sheet::Scope, &[("unit", "T"), ("name", "n")]);
    match tag(&scope, &seen) {
        Err(Error::Adapt(note)) => assert_eq!(note, "schema row T\u{1}\u{1}n"),
        other => panic!("unexpected {:?}", other),
    }
}

use keel::life::glean::purge;

#[test]
fn purge_takes_a_generation_and_what_hangs_on_it() {
    let units = vec![
        row(1, &[("key", text("Task")), ("generation", Cell::Int(3))]),
        row(2, &[("key", text("Tag")), ("generation", Cell::Int(4))]),
        row(5, &[("key", text("Old")), ("generation", text("3"))]),
    ];
    let bonds = vec![row(10, &[("unit", Cell::Int(1))]), row(11, &[("unit", Cell::Int(2))])];
    let fields = vec![
        row(20, &[("unit", Cell::Int(5))]),
        row(21, &[("unit", Cell::Int(2))]),
        row(22, &[("unit", text("1"))]),
    ];
    let scopes = vec![row(30, &[("field", Cell::Int(22))]), row(31, &[("field", Cell::Int(21))])];
    let values = vec![row(40, &[("field", Cell::Int(20))]), row(41, &[])];
    let doomed = purge(3, &units, &bonds, &fields, &scopes, &values);
    assert_eq!(doomed.units, vec![1, 5]);
    assert_eq!(doomed.bonds, vec![10]);
    assert_eq!(doomed.fields, vec![20, 22]);
    assert_eq!(doomed.scopes, vec![30]);
    assert_eq!(doomed.values, vec![40]);
}
