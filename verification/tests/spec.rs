use keel::atom::Kind;
use keel::bond::Kind as Bond;
use keel::spec::{Only, Spec};

#[test]
fn builder_keeps_declarations_in_order() {
    let s = Spec::build("Task")
        .field("title", Kind::Text)
        .sole("code", Kind::Text)
        .per("slug", Kind::Text, "project")
        .serial("no", "project")
        .bond("tags", Bond::Many2many, "Tag", &[("weight", Kind::Int)])
        .free("peer", Bond::Many2one, "Task")
        .root("project", Bond::Many2one, "Project")
        .crew("team", Bond::Many2many, "User")
        .seal();
    assert_eq!(s.name(), "Task");
    let f = s.fields();
    assert_eq!(f.len(), 4);
    assert_eq!(f[0].name(), "title");
    assert!(matches!(f[0].only(), Only::Free));
    assert!(matches!(f[1].only(), Only::All));
    assert!(matches!(f[2].only(), Only::Per(p) if p == "project"));
    assert!(f[3].kind() == Kind::Int);
    assert_eq!(f[3].serial(), Some("project"));
    assert_eq!(f[0].serial(), None);
    let b = s.bonds();
    assert_eq!(b.len(), 4);
    assert_eq!(b[0].name(), "tags");
    assert_eq!(b[0].target(), "Tag");
    assert_eq!(b[0].fields().len(), 1);
    assert_eq!(b[0].fields()[0].name(), "weight");
    assert!(b[0].need() && !b[0].root() && !b[0].crew());
    assert!(!b[1].need());
    assert!(b[2].need() && b[2].root() && !b[2].crew());
    assert!(b[3].need() && !b[3].root() && b[3].crew());
    assert!(b[3].kind() == Bond::Many2many);
}

#[test]
fn empty_spec_has_nothing() {
    let s = Spec::build("Empty").seal();
    assert_eq!(s.name(), "Empty");
    assert!(s.fields().is_empty());
    assert!(s.bonds().is_empty());
}

#[test]
fn seal_keeps_every_call_in_order() {
    let s = Spec::build("Task")
        .field("title", Kind::Text)
        .root("project", Bond::Many2one, "Project")
        .sole("code", Kind::Text)
        .free("lead", Bond::Many2one, "User")
        .crew("team", Bond::One2many, "User")
        .bond("tags", Bond::Many2many, "Tag", &[("weight", Kind::Int)])
        .seal();
    assert_eq!(s.name(), "Task");
    let fields: Vec<&str> = s.fields().iter().map(|f| f.name()).collect();
    assert_eq!(fields, vec!["title", "code"]);
    let bonds: Vec<&str> = s.bonds().iter().map(|b| b.name()).collect();
    assert_eq!(bonds, vec!["project", "lead", "team", "tags"]);
    for b in s.bonds() {
        assert!(!(b.root() && b.crew()));
        assert!(!(b.root() || b.crew()) || b.need());
        assert!(b.fields().is_empty() || (b.need() && !b.root() && !b.crew()));
    }
}
