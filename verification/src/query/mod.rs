//! Query trees: the predicates, links, ordering and paging a query asks
//! for, and the pack of rows and ties it answers with.
use vstd::prelude::*;
use crate::life::{Row, Tie};
use crate::text::own;

pub mod parse;
pub mod scan;
pub mod sift;
pub mod check;
pub mod run;

verus! {

/// Most ties a single link may carry into a pack.
pub const CAP: usize = 10_000;

/// Which rows a query reads.
#[derive(Clone, Copy, Debug, PartialEq, Eq, Hash, Structural)]
pub enum Slice {
    Live,
}

/// A predicate's comparison.
#[derive(Clone, Copy, Debug, PartialEq, Eq, Hash, Structural)]
pub enum Op {
    Eq,
    Ne,
    Lt,
    Le,
    Gt,
    Ge,
    In,
    Like,
    Null,
    Has,
    /// Some tie of the bond reaches a row meeting the inner predicate
    /// (written `some` in query text).
    Exists,
}

/// Sort direction.
#[derive(Clone, Copy, Debug, PartialEq, Eq, Hash, Structural)]
pub enum Rank {
    Asc,
    Desc,
}

/// One condition on a field, a bond, or (for `some`) a field across a bond.
#[derive(Debug)]
pub struct Pred {
    field: String,
    op: Op,
    values: Vec<String>,
    nest: Option<Box<Pred>>,
}

/// The mathematical content of a predicate.
pub struct PredV {
    pub field: Seq<char>,
    pub op: Op,
    pub values: Seq<Seq<char>>,
    pub nest: Option<Box<PredV>>,
}

/// The texts of a list of strings.
pub open spec fn texts(v: Seq<String>) -> Seq<Seq<char>> {
    v.map_values(|s: String| s@)
}

/// The content of a predicate, nested predicate included.
pub closed spec fn pred_view(p: Pred) -> PredV
    decreases p,
{
    PredV {
        field: p.field@,
        op: p.op,
        values: texts(p.values@),
        nest: match p.nest {
            Some(b) => Some(Box::new(pred_view(*b))),
            None => None,
        },
    }
}

impl View for Pred {
    type V = PredV;

    closed spec fn view(&self) -> PredV {
        pred_view(*self)
    }
}

/// The first value of a predicate, or empty text.
pub open spec fn first_value(p: PredV) -> Seq<char> {
    if p.values.len() > 0 {
        p.values[0]
    } else {
        Seq::empty()
    }
}

/// Copies a list of strings.
pub fn copy_texts(v: &Vec<String>) -> (out: Vec<String>)
    ensures
        texts(out@) == texts(v@),
{
    let mut out: Vec<String> = Vec::new();
    let mut i: usize = 0;
    while i < v.len()
        invariant
            i <= v@.len(),
            texts(out@) == texts(v@.take(i as int)),
        decreases v@.len() - i,
    {
        out.push(v[i].clone());
        i = i + 1;
        assert(texts(v@.take(i as int)) =~= texts(v@.take((i - 1) as int)).push(v@[i - 1]@));
        assert(texts(out@) =~= texts(out@.drop_last()).push(out@.last()@));
    }
    assert(v@.take(v@.len() as int) == v@);
    out
}

impl Pred {
    pub(crate) fn make(field: String, op: Op, values: Vec<String>, nest: Option<Pred>) -> (p: Pred)
        ensures
            p@.field == field@,
            p@.op == op,
            p@.values == texts(values@),
            match nest {
                Some(n) => p@.nest == Some(Box::new(n@)),
                None => p@.nest is None,
            },
    {
        match nest {
            Some(n) => Pred { field, op, values, nest: Some(Box::new(n)) },
            None => Pred { field, op, values, nest: None },
        }
    }

    /// The field (or bond) the predicate tests.
    pub fn field(&self) -> (r: &str)
        ensures
            r@ == self@.field,
    {
        self.field.as_str()
    }

    /// The comparison.
    pub fn op(&self) -> (r: Op)
        ensures
            r == self@.op,
    {
        self.op
    }

    /// The first value, or empty text when there is none.
    pub fn value(&self) -> (r: &str)
        ensures
            r@ == first_value(self@),
    {
        proof {
            reveal_strlit("");
        }
        if self.values.len() > 0 {
            self.values[0].as_str()
        } else {
            ""
        }
    }

    /// All values.
    pub fn values(&self) -> (r: &[String])
        ensures
            texts(r@) == self@.values,
    {
        self.values.as_slice()
    }

    /// The inner predicate of a `some`.
    pub fn nest(&self) -> (r: Option<&Pred>)
        ensures
            match r {
                Some(n) => self@.nest == Some(Box::new(n@)),
                None => self@.nest is None,
            },
    {
        match &self.nest {
            Some(b) => Some(&**b),
            None => None,
        }
    }

    /// A copy of the predicate.
    pub fn dup(&self) -> (r: Pred)
        ensures
            r@ == self@,
        decreases self,
    {
        let nest = match &self.nest {
            Some(b) => Some(Box::new((&**b).dup())),
            None => None,
        };
        let r = Pred { field: self.field.clone(), op: self.op, values: copy_texts(&self.values), nest };
        r
    }
}

/// One ordering key.
#[derive(Debug)]
pub struct Sort {
    field: String,
    rank: Rank,
}

/// The content of an ordering key.
pub struct SortV {
    pub field: Seq<char>,
    pub rank: Rank,
}

impl View for Sort {
    type V = SortV;

    closed spec fn view(&self) -> SortV {
        SortV { field: self.field@, rank: self.rank }
    }
}

impl Sort {
    pub(crate) fn make(field: String, rank: Rank) -> (s: Sort)
        ensures
            s@ == (SortV { field: field@, rank }),
    {
        Sort { field, rank }
    }

    /// The field to order by.
    pub fn field(&self) -> (r: &str)
        ensures
            r@ == self@.field,
    {
        self.field.as_str()
    }

    /// The direction.
    pub fn rank(&self) -> (r: Rank)
        ensures
            r == self@.rank,
    {
        self.rank
    }

    /// A copy of the key.
    pub fn dup(&self) -> (r: Sort)
        ensures
            r@ == self@,
    {
        Sort { field: self.field.clone(), rank: self.rank }
    }
}

/// A query: the unit it reads, its predicates, links, order and paging.
#[derive(Debug)]
pub struct Tree {
    from: String,
    slice: Slice,
    preds: Vec<Pred>,
    links: Vec<String>,
    sorts: Vec<Sort>,
    limit: Option<usize>,
    after: Option<i64>,
    tally: bool,
}

/// The content of a query.
pub struct TreeV {
    pub from: Seq<char>,
    pub slice: Slice,
    pub preds: Seq<PredV>,
    pub links: Seq<Seq<char>>,
    pub sorts: Seq<SortV>,
    pub limit: Option<usize>,
    pub after: Option<i64>,
    pub tally: bool,
}

/// The contents of a list of predicates.
pub open spec fn preds_view(v: Seq<Pred>) -> Seq<PredV> {
    v.map_values(|p: Pred| p@)
}

/// The contents of a list of ordering keys.
pub open spec fn sorts_view(v: Seq<Sort>) -> Seq<SortV> {
    v.map_values(|s: Sort| s@)
}

impl View for Tree {
    type V = TreeV;

    closed spec fn view(&self) -> TreeV {
        TreeV {
            from: self.from@,
            slice: self.slice,
            preds: preds_view(self.preds@),
            links: texts(self.links@),
            sorts: sorts_view(self.sorts@),
            limit: self.limit,
            after: self.after,
            tally: self.tally,
        }
    }
}

/// A bare query on `unit`: live rows, no predicates, links, order or paging.
pub open spec fn form_view(unit: Seq<char>) -> TreeV {
    TreeV {
        from: unit,
        slice: Slice::Live,
        preds: Seq::empty(),
        links: Seq::empty(),
        sorts: Seq::empty(),
        limit: None,
        after: None,
        tally: false,
    }
}

/// A query reading every live row of `unit`.
pub fn form(unit: &str) -> (t: Tree)
    ensures
        t@ == form_view(unit@),
{
    let t = Tree {
        from: own(unit),
        slice: Slice::Live,
        preds: Vec::new(),
        links: Vec::new(),
        sorts: Vec::new(),
        limit: None,
        after: None,
        tally: false,
    };
    assert(t@.preds =~= Seq::<PredV>::empty());
    assert(t@.links =~= Seq::<Seq<char>>::empty());
    assert(t@.sorts =~= Seq::<SortV>::empty());
    t
}

/// Copies a list of predicates.
pub fn copy_preds(v: &Vec<Pred>) -> (out: Vec<Pred>)
    ensures
        preds_view(out@) == preds_view(v@),
{
    let mut out: Vec<Pred> = Vec::new();
    let mut i: usize = 0;
    while i < v.len()
        invariant
            i <= v@.len(),
            preds_view(out@) == preds_view(v@.take(i as int)),
        decreases v@.len() - i,
    {
        out.push(v[i].dup());
        i = i + 1;
        assert(preds_view(v@.take(i as int)) =~= preds_view(v@.take((i - 1) as int)).push(
            v@[i - 1]@,
        ));
        assert(preds_view(out@) =~= preds_view(out@.drop_last()).push(out@.last()@));
    }
    assert(v@.take(v@.len() as int) == v@);
    out
}

/// Copies a list of ordering keys.
pub fn copy_sorts(v: &Vec<Sort>) -> (out: Vec<Sort>)
    ensures
        sorts_view(out@) == sorts_view(v@),
{
    let mut out: Vec<Sort> = Vec::new();
    let mut i: usize = 0;
    while i < v.len()
        invariant
            i <= v@.len(),
            sorts_view(out@) == sorts_view(v@.take(i as int)),
        decreases v@.len() - i,
    {
        out.push(v[i].dup());
        i = i + 1;
        assert(sorts_view(v@.take(i as int)) =~= sorts_view(v@.take((i - 1) as int)).push(
            v@[i - 1]@,
        ));
        assert(sorts_view(out@) =~= sorts_view(out@.drop_last()).push(out@.last()@));
    }
    assert(v@.take(v@.len() as int) == v@);
    out
}

impl Tree {
    pub(crate) fn make(
        from: String,
        preds: Vec<Pred>,
        links: Vec<String>,
        sorts: Vec<Sort>,
        limit: Option<usize>,
        after: Option<i64>,
        tally: bool,
    ) -> (t: Tree)
        ensures
            t@ == (TreeV {
                from: from@,
                slice: Slice::Live,
                preds: preds_view(preds@),
                links: texts(links@),
                sorts: sorts_view(sorts@),
                limit,
                after,
                tally,
            }),
    {
        Tree { from, slice: Slice::Live, preds, links, sorts, limit, after, tally }
    }

    /// Adds the condition `field op value`.
    pub fn when(self, field: &str, op: Op, value: &str) -> (t: Tree)
        ensures
            t@ == (TreeV {
                preds: self@.preds.push(
                    PredV { field: field@, op, values: seq![value@], nest: None },
                ),
                ..self@
            }),
    {
        let mut t = self;
        let mut values: Vec<String> = Vec::new();
        values.push(own(value));
        let p = Pred { field: own(field), op, values, nest: None };
        assert(p@.values =~= seq![value@]);
        t.preds.push(p);
        assert(preds_view(t.preds@) =~= preds_view(self.preds@).push(p@));
        t
    }

    /// Adds the condition that `field` is one of `values`.
    pub fn any(self, field: &str, values: &[&str]) -> (t: Tree)
        ensures
            t@ == (TreeV {
                preds: self@.preds.push(
                    PredV {
                        field: field@,
                        op: Op::In,
                        values: values@.map_values(|v: &str| v@),
                        nest: None,
                    },
                ),
                ..self@
            }),
    {
        let mut t = self;
        let mut vals: Vec<String> = Vec::new();
        let mut i: usize = 0;
        while i < values.len()
            invariant
                i <= values@.len(),
                texts(vals@) == values@.take(i as int).map_values(|v: &str| v@),
            decreases values@.len() - i,
        {
            vals.push(own(values[i]));
            i = i + 1;
            assert(values@.take(i as int).map_values(|v: &str| v@) =~= values@.take(
                (i - 1) as int,
            ).map_values(|v: &str| v@).push(values@[i - 1]@));
            assert(texts(vals@) =~= texts(vals@.drop_last()).push(vals@.last()@));
        }
        assert(values@.take(values@.len() as int) == values@);
        let p = Pred { field: own(field), op: Op::In, values: vals, nest: None };
        t.preds.push(p);
        assert(preds_view(t.preds@) =~= preds_view(self.preds@).push(p@));
        t
    }

    /// Adds the condition that `field` is absent.
    pub fn missing(self, field: &str) -> (t: Tree)
        ensures
            t@ == (TreeV {
                preds: self@.preds.push(
                    PredV { field: field@, op: Op::Null, values: Seq::empty(), nest: None },
                ),
                ..self@
            }),
    {
        let mut t = self;
        let p = Pred { field: own(field), op: Op::Null, values: Vec::new(), nest: None };
        assert(p@.values =~= Seq::<Seq<char>>::empty());
        t.preds.push(p);
        assert(preds_view(t.preds@) =~= preds_view(self.preds@).push(p@));
        t
    }

    /// Asks for the ties of `bond` alongside the rows.
    pub fn link(self, bond: &str) -> (t: Tree)
        ensures
            t@ == (TreeV { links: self@.links.push(bond@), ..self@ }),
    {
        let mut t = self;
        t.links.push(own(bond));
        assert(texts(t.links@) =~= texts(self.links@).push(bond@));
        t
    }

    /// Adds an ordering key.
    pub fn order(self, field: &str, rank: Rank) -> (t: Tree)
        ensures
            t@ == (TreeV { sorts: self@.sorts.push(SortV { field: field@, rank }), ..self@ }),
    {
        let mut t = self;
        t.sorts.push(Sort { field: own(field), rank });
        assert(sorts_view(t.sorts@) =~= sorts_view(self.sorts@).push(SortV { field: field@, rank }));
        t
    }

    /// Keeps at most `n` rows.
    pub fn top(self, n: usize) -> (t: Tree)
        ensures
            t@ == (TreeV { limit: Some(n), ..self@ }),
    {
        let mut t = self;
        t.limit = Some(n);
        t
    }

    /// Starts after the row with key `key`.
    pub fn past(self, key: i64) -> (t: Tree)
        ensures
            t@ == (TreeV { after: Some(key), ..self@ }),
    {
        let mut t = self;
        t.after = Some(key);
        t
    }

    /// Asks for the number of rows instead of the rows.
    pub fn count(self) -> (t: Tree)
        ensures
            t@ == (TreeV { tally: true, ..self@ }),
    {
        let mut t = self;
        t.tally = true;
        t
    }

    /// The unit read.
    pub fn from(&self) -> (r: &str)
        ensures
            r@ == self@.from,
    {
        self.from.as_str()
    }

    /// The slice read.
    pub fn slice(&self) -> (r: Slice)
        ensures
            r == self@.slice,
    {
        self.slice
    }

    /// The predicates.
    pub fn preds(&self) -> (r: &[Pred])
        ensures
            preds_view(r@) == self@.preds,
    {
        self.preds.as_slice()
    }

    /// The linked bonds.
    pub fn links(&self) -> (r: &[String])
        ensures
            texts(r@) == self@.links,
    {
        self.links.as_slice()
    }

    /// The first ordering key, if any.
    pub fn sort(&self) -> (r: Option<&Sort>)
        ensures
            match r {
                Some(s) => self@.sorts.len() > 0 && s@ == self@.sorts[0],
                None => self@.sorts.len() == 0,
            },
    {
        if self.sorts.len() > 0 {
            Some(&self.sorts[0])
        } else {
            None
        }
    }

    /// All ordering keys.
    pub fn sorts(&self) -> (r: &[Sort])
        ensures
            sorts_view(r@) == self@.sorts,
    {
        self.sorts.as_slice()
    }

    /// The row limit.
    pub fn limit(&self) -> (r: Option<usize>)
        ensures
            r == self@.limit,
    {
        self.limit
    }

    /// The key to start after.
    pub fn after(&self) -> (r: Option<i64>)
        ensures
            r == self@.after,
    {
        self.after
    }

    /// Whether only the count is asked for.
    pub fn tally(&self) -> (r: bool)
        ensures
            r == self@.tally,
    {
        self.tally
    }

    /// A copy of the query.
    pub fn dup(&self) -> (t: Tree)
        ensures
            t@ == self@,
    {
        let mut links: Vec<String> = copy_texts(&self.links);
        Tree {
            from: self.from.clone(),
            slice: self.slice,
            preds: copy_preds(&self.preds),
            links,
            sorts: copy_sorts(&self.sorts),
            limit: self.limit,
            after: self.after,
            tally: self.tally,
        }
    }

    pub(crate) fn untallied(self) -> (t: Tree)
        ensures
            t@ == (TreeV { tally: false, ..self@ }),
    {
        let mut t = self;
        t.tally = false;
        t
    }
}

/// What a pack holds under one name: rows of a unit or ties of a bond.
#[derive(Debug)]
pub enum Bag {
    Unit(Vec<Row>),
    Bond(Vec<Tie>),
}

/// A query's answer: the root unit, its bags by name, or just a count.
/// Bag names are distinct.
#[derive(Debug)]
pub struct Pack {
    root: String,
    bags: Vec<(String, Bag)>,
    count: Option<usize>,
}

/// The position of the bag named `key`, if there is one.
pub open spec fn bag_at(b: Seq<(String, Bag)>, key: Seq<char>) -> Option<int> {
    if exists|i: int| 0 <= i < b.len() && b[i].0@ == key {
        Some(choose|i: int| 0 <= i < b.len() && b[i].0@ == key)
    } else {
        None
    }
}

impl Pack {
    /// Whether no two bags share a name.
    pub open spec fn wf(&self) -> bool {
        forall|i: int, j: int|
            0 <= i < j < self.bag_list().len() ==> self.bag_list()[i].0@ != self.bag_list()[j].0@
    }

    /// The root unit's name.
    pub closed spec fn root_name(&self) -> Seq<char> {
        self.root@
    }

    /// The bags.
    pub closed spec fn bag_list(&self) -> Seq<(String, Bag)> {
        self.bags@
    }

    /// The count, for a counting query.
    pub closed spec fn tally_of(&self) -> Option<usize> {
        self.count
    }

    pub fn make(root: String, bags: Vec<(String, Bag)>, count: Option<usize>) -> (p: Pack)
        ensures
            p.root_name() == root@,
            p.bag_list() == bags@,
            p.tally_of() == count,
    {
        Pack { root, bags, count }
    }

    /// The root unit's name.
    pub fn root(&self) -> (r: &str)
        ensures
            r@ == self.root_name(),
    {
        self.root.as_str()
    }

    /// All bags with their names.
    pub fn bags(&self) -> (r: &[(String, Bag)])
        ensures
            r@ == self.bag_list(),
    {
        self.bags.as_slice()
    }

    fn find(&self, key: &str) -> (r: Option<usize>)
        ensures
            match r {
                Some(i) => i < self.bag_list().len() && self.bag_list()[i as int].0@ == key@,
                None => bag_at(self.bag_list(), key@) is None,
            },
    {
        let mut i: usize = 0;
        while i < self.bags.len()
            invariant
                i <= self.bag_list().len(),
                forall|j: int| 0 <= j < i ==> self.bag_list()[j].0@ != key@,
            decreases self.bag_list().len() - i,
        {
            if crate::text::same(self.bags[i].0.as_str(), key) {
                return Some(i);
            }
            i = i + 1;
        }
        None
    }

    /// The rows of the unit bag named `key`.
    pub fn unit(&self, key: &str) -> (r: Option<&[Row]>)
        requires
            self.wf(),
        ensures
            match r {
                Some(rows) => exists|i: int|
                    0 <= i < self.bag_list().len() && self.bag_list()[i].0@ == key@ && (
                    self.bag_list()[i].1 matches Bag::Unit(v) && v@ == rows@),
                None => forall|i: int|
                    0 <= i < self.bag_list().len() && self.bag_list()[i].0@ == key@ ==> !(
                    self.bag_list()[i].1 is Unit),
            },
    {
        match self.find(key) {
            Some(i) => match &self.bags[i].1 {
                Bag::Unit(rows) => Some(rows.as_slice()),
                Bag::Bond(_) => None,
            },
            None => None,
        }
    }

    /// The ties of the bond bag named `key`.
    pub fn bond(&self, key: &str) -> (r: Option<&[Tie]>)
        requires
            self.wf(),
        ensures
            match r {
                Some(ties) => exists|i: int|
                    0 <= i < self.bag_list().len() && self.bag_list()[i].0@ == key@ && (
                    self.bag_list()[i].1 matches Bag::Bond(v) && v@ == ties@),
                None => forall|i: int|
                    0 <= i < self.bag_list().len() && self.bag_list()[i].0@ == key@ ==> !(
                    self.bag_list()[i].1 is Bond),
            },
    {
        match self.find(key) {
            Some(i) => match &self.bags[i].1 {
                Bag::Bond(ties) => Some(ties.as_slice()),
                Bag::Unit(_) => None,
            },
            None => None,
        }
    }

    /// The rows of the root unit, or none.
    pub fn rows(&self) -> (r: &[Row])
        requires
            self.wf(),
        ensures
            (exists|i: int|
                0 <= i < self.bag_list().len() && self.bag_list()[i].0@ == self.root_name() && (
                self.bag_list()[i].1 matches Bag::Unit(v) && v@ == r@)) || (r@.len() == 0 && forall|
                i: int,
            |
                0 <= i < self.bag_list().len() && self.bag_list()[i].0@ == self.root_name() ==> !(
                self.bag_list()[i].1 is Unit)),
    {
        match self.unit(self.root.as_str()) {
            Some(rows) => rows,
            None => &[],
        }
    }

    /// The count, for a counting query.
    pub fn count(&self) -> (r: Option<usize>)
        ensures
            r == self.tally_of(),
    {
        self.count
    }

    /// A counting answer on `root`.
    pub fn tallied(root: String, n: usize) -> (p: Pack)
        ensures
            p.root_name() == root@,
            p.bag_list().len() == 0,
            p.tally_of() == Some(n),
            p.wf(),
    {
        Pack { root, bags: Vec::new(), count: Some(n) }
    }
}

} // verus!
