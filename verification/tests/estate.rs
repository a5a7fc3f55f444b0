use keel::error::Error;
use keel::estate::catalog::{catalog_root, current_of, lifecycle, FORMAT};
use keel::estate::clock::{bond, maximum, serial, serials, unit};
use keel::estate::hook::{Gone, Purge};
use keel::estate::{Act, Change, Check, Fault, Step};
use keel::wire::Val;

fn unknown(e: Error) -> String {
    match e {
        Error::Estate(Fault::Unknown(m)) => m,
        other => panic!("expected an unknown-estate fault, got {:?}", other),
    }
}

#[test]
fn clock_names() {
    assert_eq!(unit("Task"), "unit:Task");
    assert_eq!(bond("Task", "tags"), "bond:Task.tags");
    assert_eq!(serial("Task", "no", &Val::Null).unwrap(), "serial:Task:no:null");
    assert_eq!(serial("Task", "no", &Val::Int(-3)).unwrap(), "serial:Task:no:int:-3");
    assert_eq!(serial("Task", "no", &Val::Text("a:b".into())).unwrap(), "serial:Task:no:text:3:a:b");
    assert_eq!(serial("T", "s", &Val::Text("é".into())).unwrap(), "serial:T:s:text:2:é");
}

#[test]
fn serial_scopes_stay_apart() {
    let a = serial("T", "s", &Val::Text("1".into())).unwrap();
    let b = serial("T", "s", &Val::Int(1)).unwrap();
    let c = serial("T", "s", &Val::Text("1:x".into())).unwrap();
    assert_ne!(a, b);
    assert_ne!(a, c);
    assert_ne!(b, c);
}

#[test]
fn faults_read_as_notes() {
    assert_eq!(Fault::Vacant.note(), "vacant estate needs bootstrap");
    assert_eq!(Fault::Token.note(), "invalid sudo token");
    assert_eq!(Fault::Occupied.note(), "occupied estate refuses bootstrap");
    assert_eq!(Fault::Unsealed.note(), "unsealed estate");
    assert_eq!(Fault::Unknown("x".into()).note(), "unknown estate: x");
    assert_eq!(Fault::Format { found: 3, expected: 11 }.note(), "estate format 3 needs 11");
    assert_eq!(Fault::Drift { expected: "a".into(), found: "b".into() }.note(), "estate drift a != b");
    assert_eq!(Fault::Denied { path: "T.f".into(), note: "no".into() }.note(), "estate delta denied at T.f: no");
    assert_eq!(Fault::Blocked { path: "T".into(), check: Check::Unique }.note(), "estate delta blocked at T: Unique");
}

#[test]
fn changes_keep_their_steps() {
    let c = Change::new(vec![Step::new("T.f".into(), Act::Add, Some(Check::Empty)), Step::new("T".into(), Act::Drop, None)]);
    assert_eq!(c.steps().len(), 2);
    assert_eq!(c.steps()[0].path(), "T.f");
    assert!(c.steps()[0].act() == Act::Add);
    assert!(c.steps()[0].check() == Some(Check::Empty));
    assert!(c.steps()[1].check().is_none());
}

#[test]
fn purges_list_what_went() {
    let p = Purge::new(4, vec![Gone::new("T".into(), 9)]);
    assert_eq!(p.generation(), 4);
    assert_eq!(p.gone()[0].path(), "T");
    assert_eq!(p.gone()[0].key(), 9);
}

#[test]
fn catalog_root_record() {
    let ok = vec![vec![Val::Int(FORMAT), Val::Int(2), Val::Text("shape".into())]];
    assert_eq!(catalog_root(&ok).unwrap(), (2, "shape".to_string()));
    let old = vec![vec![Val::Int(3), Val::Int(2), Val::Text("s".into())]];
    assert!(matches!(catalog_root(&old), Err(Error::Estate(Fault::Format { found: 3, expected: 11 }))));
    let none: Vec<Vec<Val>> = vec![];
    assert_eq!(unknown(catalog_root(&none).unwrap_err()), "catalog needs one record");
    let short = vec![vec![Val::Int(FORMAT)]];
    assert_eq!(unknown(catalog_root(&short).unwrap_err()), "catalog needs one record");
}

fn gen(id: i64, state: &str, created: i64, retired: Option<i64>) -> Vec<Val> {
    vec![
        Val::Int(id),
        Val::Text(state.into()),
        Val::Text("d".into()),
        Val::Text("m".into()),
        Val::Int(created),
        match retired {
            Some(r) => Val::Int(r),
            None => Val::Null,
        },
    ]
}

#[test]
fn lifecycle_rules() {
    assert!(lifecycle(&gen(1, "active", 5, None)).is_ok());
    assert!(lifecycle(&gen(1, "cleanup", 5, Some(5))).is_ok());
    assert_eq!(unknown(lifecycle(&gen(1, "cleanup", 5, Some(4))).unwrap_err()), "generation lifecycle");
    assert_eq!(unknown(lifecycle(&gen(1, "cleanup", 5, None)).unwrap_err()), "generation lifecycle");
    assert_eq!(unknown(lifecycle(&gen(1, "active", 5, Some(6))).unwrap_err()), "generation lifecycle");
    assert_eq!(unknown(lifecycle(&gen(1, "active", 0, None)).unwrap_err()), "generation lifecycle");
    assert_eq!(unknown(lifecycle(&gen(1, "gone", 5, None)).unwrap_err()), "state gone");
    assert_eq!(unknown(lifecycle(&vec![Val::Int(1)]).unwrap_err()), "generation record shape");
}

#[test]
fn current_generation_is_the_one_active() {
    let rows = vec![gen(1, "cleanup", 1, Some(2)), gen(2, "active", 2, None), gen(3, "candidate", 3, None)];
    let fine: Vec<Option<String>> = vec![None, None, None];
    assert_eq!(current_of(&rows, &fine, 2).unwrap(), 1);
    assert_eq!(unknown(current_of(&rows, &fine, 3).unwrap_err()), "catalog active generation mismatch");
    let bad: Vec<Option<String>> = vec![None, Some("manifest digest mismatch".into()), None];
    assert_eq!(unknown(current_of(&rows, &bad, 2).unwrap_err()), "manifest digest mismatch");
    let two = vec![gen(1, "active", 1, None), gen(2, "active", 2, None)];
    assert_eq!(unknown(current_of(&two, &[None, None], 2).unwrap_err()), "catalog needs one active generation");
}

use keel::config::Retain;
use keel::estate::cleanup::{due, pending};

#[test]
fn retention_texts() {
    assert_eq!(Retain::parse("0s").unwrap(), Retain::After(0));
    assert_eq!(Retain::parse("90s").unwrap(), Retain::After(90));
    assert_eq!(Retain::parse("2m").unwrap(), Retain::After(120));
    assert_eq!(Retain::parse("3h").unwrap(), Retain::After(10800));
    assert_eq!(Retain::parse("1d").unwrap(), Retain::After(86400));
    assert_eq!(Retain::parse("forever").unwrap(), Retain::Forever);
    for bad in ["", "s", "5", "5w", "-5s", "1.5h", "forever ", "99999999999999999999d"] {
        match Retain::parse(bad) {
            Err(Error::Adapt(m)) => assert_eq!(m, "retention is <digits>s|m|h|d or forever"),
            other => panic!("{bad:?} gave {:?}", other),
        }
    }
}

#[test]
fn retention_elapses() {
    assert!(Retain::After(0).elapsed(10, 10));
    assert!(!Retain::After(5).elapsed(10, 14));
    assert!(Retain::After(5).elapsed(10, 15));
    assert!(!Retain::Forever.elapsed(0, i64::MAX));
    assert!(Retain::After(0).elapsed(i64::MIN, i64::MAX));
}

#[test]
fn due_generations() {
    let rows = vec![vec![Val::Int(1), Val::Int(0)], vec![Val::Int(2), Val::Int(95)], vec![Val::Int(3), Val::Int(50)]];
    assert_eq!(due(&rows, &Retain::After(10), 100).unwrap(), vec![1, 3]);
    assert!(due(&rows, &Retain::Forever, 100).unwrap().is_empty());
    let bad = vec![vec![Val::Int(1), Val::Null]];
    assert_eq!(unknown(due(&bad, &Retain::After(0), 0).unwrap_err()), "cleanup retirement");
    let short = vec![vec![Val::Int(1)]];
    assert_eq!(unknown(due(&short, &Retain::After(0), 0).unwrap_err()), "cleanup record shape");
}

#[test]
fn zero_retention_takes_every_retired_generation() {
    let zero = Retain::parse("0s").unwrap();
    let rows = vec![vec![Val::Int(1), Val::Int(100)], vec![Val::Int(2), Val::Int(7)], vec![Val::Int(3), Val::Int(101)]];
    assert_eq!(due(&rows, &zero, 100).unwrap(), vec![1, 2]);
    let forever = Retain::parse("forever").unwrap();
    assert!(due(&rows, &forever, i64::MAX).unwrap().is_empty());
}

fn record(g: i64, path: &str, key: i64, created: i64) -> Vec<Val> {
    vec![Val::Int(g), Val::Text(path.into()), Val::Int(key), Val::Int(created)]
}

#[test]
fn pending_groups_by_generation() {
    let rows = vec![record(5, "T", 1, 9), record(2, "T", 7, 9), record(5, "U", 2, 9)];
    let events = pending(&rows).unwrap();
    assert_eq!(events.len(), 2);
    assert_eq!(events[0].generation(), 2);
    assert_eq!(events[0].gone().len(), 1);
    assert_eq!(events[0].gone()[0].key(), 7);
    assert_eq!(events[1].generation(), 5);
    let keys: Vec<(String, i64)> = events[1].gone().iter().map(|g| (g.path().to_string(), g.key())).collect();
    assert_eq!(keys, vec![("T".to_string(), 1), ("U".to_string(), 2)]);
    assert!(pending(&[]).unwrap().is_empty());
    assert_eq!(unknown(pending(&[record(1, "T", 1, 0)]).unwrap_err()), "derivative record shape");
    assert_eq!(unknown(pending(&[vec![Val::Int(1)]]).unwrap_err()), "derivative record shape");
}

#[test]
fn high_water_of_a_table() {
    assert_eq!(maximum(&[vec![Val::Int(41)]]).unwrap(), 41);
    assert_eq!(maximum(&[vec![Val::Null]]).unwrap(), 0);
    assert_eq!(unknown(maximum(&[]).unwrap_err()), "clock source shape");
    assert_eq!(unknown(maximum(&[vec![Val::Int(1), Val::Int(2)]]).unwrap_err()), "clock source shape");
}

#[test]
fn serial_marks_per_scope() {
    let rows = vec![
        vec![Val::Int(1), Val::Int(4)],
        vec![Val::Int(2), Val::Int(9)],
        vec![Val::Int(1), Val::Int(7)],
        vec![Val::Int(1), Val::Int(5)],
        vec![Val::Null, Val::Int(-3)],
    ];
    let mut marks = serials("Task", "no", &rows).unwrap();
    marks.sort();
    assert_eq!(
        marks,
        vec![
            ("serial:Task:no:int:1".to_string(), 7),
            ("serial:Task:no:int:2".to_string(), 9),
            ("serial:Task:no:null".to_string(), 0),
        ]
    );
    let bad = vec![vec![Val::Int(1)]];
    assert_eq!(unknown(serials("Task", "no", &bad).unwrap_err()), "serial record shape");
}

use keel::estate::cleanup::{acknowledged, retired_once, rooted};

#[test]
fn cleanup_counts_must_match() {
    assert!(retired_once(1).is_ok());
    assert_eq!(unknown(retired_once(0).unwrap_err()), "cleanup generation changed");
    assert_eq!(unknown(retired_once(2).unwrap_err()), "cleanup generation changed");
    assert!(rooted(1).is_ok());
    assert_eq!(unknown(rooted(0).unwrap_err()), "cleanup estate root");
    let p = Purge::new(3, vec![Gone::new("T".into(), 1), Gone::new("T".into(), 2)]);
    assert!(acknowledged(2, &p).is_ok());
    assert_eq!(unknown(acknowledged(1, &p).unwrap_err()), "derivative acknowledgement");
}
