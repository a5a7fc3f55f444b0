use keel::atom::Kind;
use keel::bond::Kind as Bond;
use keel::ddl::Grain;
use keel::estate::adopt::{adopt_step, Adopt, AdoptAction, AdoptEnd, AdoptPhase, AdoptState, Source};
use keel::estate::step::Reply;
use keel::plan::{Edge, Plan, Slot, Unit};
use keel::wire::Val;

fn plan() -> Plan {
    let task = Unit::make(
        "Task".into(),
        vec![Slot::make("title".into(), Kind::Text, true), Slot::numbered("number".into(), true, "owner".into())],
        vec![
            Edge::make("owner".into(), Bond::Many2one, "User".into(), vec![], false, false),
            Edge::make("tags".into(), Bond::Many2many, "Tag".into(), vec![], false, false),
        ],
    );
    Plan::make(vec![task])
}

fn drive(shape: &str, serial_rows: Vec<Vec<Val>>, restore: u64) -> (Vec<String>, AdoptState) {
    let work = Adopt::new(&plan(), Grain::Lite, 77);
    let mut at = AdoptState::start();
    let mut reply = Reply::Done;
    let mut seen = Vec::new();
    let mut serial_rows = Some(serial_rows);
    for _ in 0..60 {
        let (next, act) = adopt_step(&work, &at, &reply);
        at = next;
        reply = match act {
            AdoptAction::Expect => Reply::Text("S".into()),
            AdoptAction::Shape => Reply::Text(shape.into()),
            AdoptAction::Script(_) => Reply::Done,
            AdoptAction::Read(i) => {
                seen.push(format!("read {:?}", work.source(i)));
                match work.source(i) {
                    Source::Serial { .. } => Reply::Rows(serial_rows.take().unwrap()),
                    Source::Unit(_) => Reply::Rows(vec![vec![Val::Int(9)]]),
                    Source::Bond(_, _) => Reply::Rows(vec![vec![Val::Null]]),
                    Source::Pulse => Reply::Rows(vec![vec![Val::Int(3)]]),
                }
            }
            AdoptAction::Hold(k) => {
                let (name, v) = &at.holds()[k];
                seen.push(format!("hold {name} {v}"));
                Reply::Count(restore)
            }
            AdoptAction::Generation => Reply::Count(1),
            AdoptAction::Finish(e) => {
                seen.push(format!("end {:?}", e));
                break;
            }
            other => {
                seen.push(format!("{:?}", other));
                Reply::Done
            }
        };
    }
    (seen, at)
}

#[test]
fn adopt_restores_counters_then_seals() {
    let (seen, _) = drive("S", vec![vec![Val::Int(4), Val::Int(2)], vec![Val::Int(4), Val::Int(5)]], 1);
    assert_eq!(
        seen,
        vec![
            "Begin",
            "read Unit(\"Task\")",
            "hold unit:Task 9",
            "read Bond(\"Task\", \"tags\")",
            "read Serial { unit: \"Task\", slot: \"number\", scope: \"owner\" }",
            "hold serial:Task:number:int:4 5",
            "read Pulse",
            "hold pulse 3",
            "Insert",
            "Rewrite",
            "Seal",
            "Commit",
            "end Adopted",
        ]
    );
}

#[test]
fn adopt_refuses_drift_and_bad_restores() {
    let (seen, at) = drive("T", vec![], 1);
    assert_eq!(seen, vec!["Begin", "Rollback", "end Drifted"]);
    assert_eq!(at.expected(), "S");
    assert_eq!(at.note(), "T");
    let (seen, at) = drive("S", vec![], 0);
    assert_eq!(seen[seen.len() - 2..], ["Rollback", "end Refused"]);
    assert_eq!(at.note(), "clock restore");
    assert!(matches!(at.phase(), AdoptPhase::Over(AdoptEnd::Refused)));
    let (_, at) = drive("S", vec![vec![Val::Int(4)]], 1);
    assert_eq!(at.note(), "serial record shape");
}
