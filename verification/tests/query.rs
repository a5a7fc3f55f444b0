use keel::error::Error;
use keel::life::{Cell, Row};
use keel::query::parse::parse;
use keel::query::sift::{bare, cover, digest, escape, order, page, shape};
use keel::query::{form, Op, Rank};

fn adapt_note(e: Error) -> String {
    match e {
        Error::Adapt(m) => m,
        other => panic!("expected a refusal, got {:?}", other),
    }
}

#[test]
fn parses_a_full_query() {
    let t = parse("from Task where state = \"done\" and n >= \"3\" link tags order by n desc limit 5 after \"7\"")
        .expect("parses");
    assert_eq!(t.from(), "Task");
    assert_eq!(t.preds().len(), 2);
    assert_eq!(t.preds()[0].field(), "state");
    assert!(t.preds()[0].op() == Op::Eq);
    assert_eq!(t.preds()[0].value(), "done");
    assert!(t.preds()[1].op() == Op::Ge);
    assert_eq!(t.preds()[1].value(), "3");
    assert_eq!(t.links().len(), 1);
    assert_eq!(t.links()[0], "tags");
    let s = t.sort().expect("sorted");
    assert_eq!(s.field(), "n");
    assert!(s.rank() == Rank::Desc);
    assert_eq!(t.limit(), Some(5));
    assert_eq!(t.after(), Some(7));
    assert!(!t.tally());
}

#[test]
fn parses_in_like_null_has_some() {
    let t = parse("from Task where a in (\"x\", \"y\") and b like \"z\" and c is null and tags has \"4\" and tags some (n = \"1\")")
        .expect("parses");
    let p = t.preds();
    assert_eq!(p.len(), 5);
    assert!(p[0].op() == Op::In);
    assert_eq!(p[0].values().len(), 2);
    assert_eq!(p[0].values()[1], "y");
    assert!(p[1].op() == Op::Like);
    assert!(p[2].op() == Op::Null);
    assert!(p[3].op() == Op::Has);
    assert_eq!(p[3].value(), "4");
    assert!(p[4].op() == Op::Exists);
    let inner = p[4].nest().expect("inner");
    assert_eq!(inner.field(), "n");
    assert_eq!(inner.value(), "1");
}

#[test]
fn count_stands_alone() {
    let t = parse("from Task count").expect("parses");
    assert!(t.tally());
    let e = parse("from Task count limit 3").unwrap_err();
    assert_eq!(adapt_note(e), "count stands alone");
}

#[test]
fn trailing_tokens_are_refused() {
    let e = parse("from Task junk").unwrap_err();
    assert_eq!(adapt_note(e), "query has trailing tokens");
}

#[test]
fn missing_is_the_same_query_as_is_null() {
    let a = parse("from Task where due is null").expect("parses");
    let b = form("Task").missing("due");
    assert_eq!(digest(&a), digest(&b));
    assert_eq!(shape(&a), shape(&b));
}

#[test]
fn digest_writes_the_query() {
    let t = parse("from Task where a = \"x\" link tags order by n asc limit 2").expect("parses");
    assert_eq!(digest(&t), "from Task slice live where a = \"x\" link tags order by n asc limit 2");
    assert_eq!(shape(&t), "from Task slice live where a = link tags order by n");
}

#[test]
fn digest_escapes_quotes() {
    let t = form("T").when("a", Op::Eq, "say \"hi\"");
    assert_eq!(digest(&t), "from T slice live where a = \"say \\\"hi\\\"\"");
    assert_eq!(escape("a\\b\"c"), "a\\\\b\\\"c");
}

#[test]
fn bare_drops_the_count() {
    let t = form("T").count();
    assert!(t.tally());
    let b = bare(&t);
    assert!(!b.tally());
    assert_eq!(b.from(), "T");
}

fn cells(pairs: &[(&str, Cell)]) -> Vec<(String, Cell)> {
    pairs.iter().map(|(k, v)| (k.to_string(), v.dup())).collect()
}

#[test]
fn cover_checks_cells_and_key() {
    let held = cells(&[("state", Cell::Text("done".into())), ("n", Cell::Int(4))]);
    let t = parse("from T where state = \"done\" and id = \"5\" and n > \"3\"").expect("parses");
    assert!(cover(Some(5), &held, t.preds()));
    assert!(!cover(Some(6), &held, t.preds()));
    assert!(!cover(None, &held, t.preds()));
    let u = parse("from T where state = \"open\"").expect("parses");
    assert!(!cover(Some(5), &held, u.preds()));
}

#[test]
fn absent_cell_meets_only_is_null() {
    let held = cells(&[("state", Cell::Text("done".into()))]);
    let t = parse("from T where due is null").expect("parses");
    assert!(cover(None, &held, t.preds()));
    let u = parse("from T where state is null").expect("parses");
    assert!(!cover(None, &held, u.preds()));
    let v = parse("from T where due = \"x\"").expect("parses");
    assert!(!cover(None, &held, v.preds()));
}

fn row(key: i64, n: i64) -> Row {
    Row::make(key, cells(&[("n", Cell::Int(n))]), None, 0, 0)
}

#[test]
fn order_sorts_stably_by_the_key_field() {
    let mut rows = vec![row(1, 3), row(2, 1), row(3, 3), row(4, 2)];
    let t = form("T").order("n", Rank::Asc);
    order(&mut rows, t.sort());
    let keys: Vec<i64> = rows.iter().map(|r| r.key()).collect();
    assert_eq!(keys, vec![2, 4, 1, 3]);
    let d = form("T").order("n", Rank::Desc);
    order(&mut rows, d.sort());
    let keys: Vec<i64> = rows.iter().map(|r| r.key()).collect();
    assert_eq!(keys, vec![1, 3, 4, 2]);
}

#[test]
fn order_without_a_key_sorts_by_row_key() {
    let mut rows = vec![row(3, 0), row(1, 0), row(2, 0)];
    order(&mut rows, None);
    let keys: Vec<i64> = rows.iter().map(|r| r.key()).collect();
    assert_eq!(keys, vec![1, 2, 3]);
}

#[test]
fn page_skips_past_the_anchor_then_limits() {
    let mut rows = vec![row(1, 0), row(2, 0), row(3, 0), row(4, 0)];
    page(&mut rows, Some(2), Some(1));
    let keys: Vec<i64> = rows.iter().map(|r| r.key()).collect();
    assert_eq!(keys, vec![3]);
    let mut all = vec![row(1, 0), row(2, 0)];
    page(&mut all, Some(9), None);
    assert!(all.is_empty());
}

#[test]
fn like_matches_text_ignoring_case() {
    let held = cells(&[("title", Cell::Text("Write The Docs".into()))]);
    let t = parse("from T where title like \"the d\"").expect("parses");
    assert!(cover(None, &held, t.preds()));
    let u = parse("from T where title like \"xyz\"").expect("parses");
    assert!(!cover(None, &held, u.preds()));
}

#[test]
fn text_compares_by_code_point() {
    let held = cells(&[("name", Cell::Text("b".into()))]);
    let lt = parse("from T where name < \"c\"").expect("parses");
    assert!(cover(None, &held, lt.preds()));
    let ge = parse("from T where name >= \"ba\"").expect("parses");
    assert!(!cover(None, &held, ge.preds()));
}

#[test]
fn sieve_keeps_rows_meeting_every_predicate() {
    let mut rows = vec![row(1, 3), row(2, 1), row(3, 5)];
    let t = parse("from T where n >= \"3\"").expect("parses");
    keel::query::sift::sieve(&mut rows, t.preds());
    let keys: Vec<i64> = rows.iter().map(|r| r.key()).collect();
    assert_eq!(keys, vec![1, 3]);
}

#[test]
fn tallied_packs_hold_a_count() {
    let p = keel::query::Pack::tallied("T".to_string(), 3);
    assert_eq!(p.count(), Some(3));
    assert_eq!(p.root(), "T");
    assert!(p.bags().is_empty());
    assert!(p.rows().is_empty());
}

#[test]
fn top_and_past_page_the_query() {
    let t = form("T").top(3).past(9);
    assert_eq!(t.limit(), Some(3));
    assert_eq!(t.after(), Some(9));
}

#[test]
fn shape_ignores_values_and_paging() {
    let a = parse("from Task where a = \"x\" link tags order by n asc limit 2").expect("parses");
    let b = parse("from Task where a = \"y\" link tags order by n desc limit 5 after \"4\"").expect("parses");
    assert_eq!(shape(&a), shape(&b));
    assert_ne!(digest(&a), digest(&b));
}

#[test]
fn digest_separates_one_part() {
    let base = parse("from Task where a = \"x\" link tags order by n asc limit 2").expect("parses");
    for other in [
        "from Task where a = \"x\" link tags order by n asc limit 3",
        "from Task where a = \"x\" link tags order by n desc limit 2",
        "from Task where a = \"x\" link tags order by m asc limit 2",
        "from Task where a = \"x\" link tags order by n asc limit 2 after \"3\"",
        "from Task where a = \"x\" link tags link owner order by n asc limit 2",
        "from Task where a = \"z\" link tags order by n asc limit 2",
    ] {
        let t = parse(other).expect("parses");
        assert_ne!(digest(&base), digest(&t), "{other}");
    }
    let plain = parse("from Task where a = \"x\"").expect("parses");
    let counted = parse("from Task where a = \"x\" count").expect("parses");
    assert_ne!(digest(&plain), digest(&counted));
}
