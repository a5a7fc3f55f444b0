//! The write operations as step machines. A write first asks the store a
//! run of questions (is a row live, is it leased, is a value taken) and
//! draws counter numbers, each in the original order; the first answer
//! that refuses ends it with that refusal. The questions and draws of a
//! write form its script, decided from the unit, the raw pairs and what
//! was read; the walk over a script is the same for every write.
use vstd::prelude::*;
use crate::bond;
use crate::cap::shape::pairs_view;
use crate::error::{Error, adapt, refused};
use crate::estate::step::{Reply, ReplyV};
use crate::life::Ends;
use crate::life::util::{int_val, seek, sought, vals_view};
use crate::life::write::{
    Claim, ClaimV, anchor, cells_view, claims, claims_of, clock_for, copy_val, entry, entry_spec,
    edge_named, point, point_spec, ref_named, tie_spec, tie_values, tune_spec, tune_of, value_for,
};
use crate::plan::{Edge, EdgeV, SlotV, Unit, UnitV, edge_refs_view, first_where, refs_of};
use crate::text::{decimal, own, push_str, show_int};
use crate::wire::{Val, ValV};

verus! {

/// A question a write asks the store.
#[derive(Debug)]
pub enum Query {
    /// Is row `key` of unit `unit` live (not expired)?
    Alive { unit: String, key: i64 },
    /// Is row `key` of unit `unit` free of a lease (no expiry set)?
    Fresh { unit: String, key: i64 },
    /// Does a live row of `unit` other than `me` point at `key` through
    /// key-column bond `edge`?
    Lone { unit: String, edge: String, key: i64, me: i64 },
    /// Does a live tie of bond `edge` of `unit` join `left` and `right`?
    Paired { unit: String, edge: String, left: i64, right: i64 },
    /// Does a live row of `unit` other than `me` hold `claim`?
    Taken { unit: String, claim: Claim, me: i64 },
}

/// The content of a question.
pub enum QueryV {
    Alive { unit: Seq<char>, key: i64 },
    Fresh { unit: Seq<char>, key: i64 },
    Lone { unit: Seq<char>, edge: Seq<char>, key: i64, me: i64 },
    Paired { unit: Seq<char>, edge: Seq<char>, left: i64, right: i64 },
    Taken { unit: Seq<char>, claim: ClaimV, me: i64 },
}

impl View for Query {
    type V = QueryV;

    open spec fn view(&self) -> QueryV {
        match self {
            Query::Alive { unit, key } => QueryV::Alive { unit: unit@, key: *key },
            Query::Fresh { unit, key } => QueryV::Fresh { unit: unit@, key: *key },
            Query::Lone { unit, edge, key, me } => QueryV::Lone {
                unit: unit@,
                edge: edge@,
                key: *key,
                me: *me,
            },
            Query::Paired { unit, edge, left, right } => QueryV::Paired {
                unit: unit@,
                edge: edge@,
                left: *left,
                right: *right,
            },
            Query::Taken { unit, claim, me } => QueryV::Taken { unit: unit@, claim: claim@, me: *me },
        }
    }
}

/// One item of a write's script: a question whose answer must be `want`
/// (else the write is refused with `note`), a draw from a counter, or a
/// refusal decided without the store.
#[derive(Debug)]
pub enum Item {
    Ask { query: Query, want: bool, note: String },
    Draw(String),
    Stop(String),
}

/// The content of a script item.
pub enum ItemV {
    Ask { query: QueryV, want: bool, note: Seq<char> },
    Draw(Seq<char>),
    Stop(Seq<char>),
}

impl View for Item {
    type V = ItemV;

    open spec fn view(&self) -> ItemV {
        match self {
            Item::Ask { query, want, note } => ItemV::Ask { query: query@, want: *want, note: note@ },
            Item::Draw(c) => ItemV::Draw(c@),
            Item::Stop(n) => ItemV::Stop(n@),
        }
    }
}

/// The contents of a script.
pub open spec fn items_view(v: Seq<Item>) -> Seq<ItemV> {
    v.map_values(|x: Item| x@)
}

/// A question with the answer it needs and the refusal otherwise.
pub open spec fn ask(q: QueryV, want: bool, note: Seq<char>) -> ItemV {
    ItemV::Ask { query: q, want, note }
}

/// What refusing a leased target of bond `name` says.
pub open spec fn leased_note(name: Seq<char>) -> Seq<char> {
    "ref "@ + name + " leased"@
}

/// The script that checks key-column bond `e` of unit `u` set from raw
/// text `raw` on row `me` (0 for a new row): the text must read as a key
/// (or be empty where allowed); a key's target row must be live and not
/// leased; a one-to-one bond's target may not be held by another row.
pub open spec fn point_items(u: UnitV, e: EdgeV, raw: Seq<char>, me: i64) -> Seq<ItemV> {
    match point_spec(e, raw) {
        Err(n) => seq![ItemV::Stop(n)],
        Ok(ValV::Int(k)) => seq![
            ask(QueryV::Alive { unit: e.target, key: k }, true, "right not live"@),
            ask(QueryV::Fresh { unit: e.target, key: k }, true, leased_note(e.name)),
        ] + if e.kind == bond::Kind::One2one {
            seq![ask(QueryV::Lone { unit: u.name, edge: e.name, key: k, me }, false, "live ref exists"@)]
        } else {
            Seq::empty()
        },
        Ok(_) => Seq::empty(),
    }
}

/// The value key-column bond `e` takes from raw text `raw`, given whether
/// the target row is live, whether it is free of a lease, and whether
/// another row holds it through the bond.
pub open spec fn point_gate_spec(e: EdgeV, raw: Seq<char>, live: bool, fresh: bool, lone: bool) -> Result<
    ValV,
    Seq<char>,
> {
    match point_spec(e, raw) {
        Err(n) => Err(n),
        Ok(ValV::Int(k)) => if !live {
            Err("right not live"@)
        } else if !fresh {
            Err(leased_note(e.name))
        } else if e.kind == bond::Kind::One2one && lone {
            Err("live ref exists"@)
        } else {
            Ok(ValV::Int(k))
        },
        Ok(v) => Ok(v),
    }
}

/// The text of a refusal.
fn note_of(e: &Error) -> (s: String)
    ensures
        e matches Error::Adapt(m) ==> s@ == m@,
{
    match e {
        Error::Adapt(m) => m.clone(),
        _ => own(""),
    }
}

fn leased(name: &str) -> (s: String)
    ensures
        s@ == leased_note(name@),
{
    let mut s = own("ref ");
    push_str(&mut s, name);
    push_str(&mut s, " leased");
    s
}

/// The value a key-column bond takes from raw text, given the answers of
/// the store's checks on its target.
pub fn point_gate(edge: &Edge, raw: &str, live: bool, fresh: bool, lone: bool) -> (r: Result<Val, Error>)
    ensures
        match point_gate_spec(edge@, raw@, live, fresh, lone) {
            Ok(v) => r matches Ok(x) && x@ == v,
            Err(n) => r matches Err(e) && refused(e, n),
        },
{
    match point(edge, raw) {
        Err(e) => Err(e),
        Ok(Val::Int(k)) => {
            if !live {
                Err(adapt("right not live"))
            } else if !fresh {
                Err(Error::Adapt(leased(edge.name())))
            } else if edge.kind() == bond::Kind::One2one && lone {
                Err(adapt("live ref exists"))
            } else {
                Ok(Val::Int(k))
            }
        },
        Ok(v) => Ok(v),
    }
}

/// The script that checks a key-column bond set from raw text.
fn point_script(unit: &Unit, edge: &Edge, raw: &str, me: i64, out: &mut Vec<Item>)
    ensures
        items_view(final(out)@) == items_view(old(out)@) + point_items(unit@, edge@, raw@, me),
{
    let ghost was = items_view(out@);
    match point(edge, raw) {
        Err(e) => {
            out.push(Item::Stop(note_of(&e)));
            assert(items_view(out@) =~= was + point_items(unit@, edge@, raw@, me));
        },
        Ok(Val::Int(k)) => {
            out.push(Item::Ask {
                query: Query::Alive { unit: own(edge.target()), key: k },
                want: true,
                note: own("right not live"),
            });
            out.push(Item::Ask {
                query: Query::Fresh { unit: own(edge.target()), key: k },
                want: true,
                note: leased(edge.name()),
            });
            if edge.kind() == bond::Kind::One2one {
                out.push(Item::Ask {
                    query: Query::Lone { unit: own(unit.name()), edge: own(edge.name()), key: k, me },
                    want: false,
                    note: own("live ref exists"),
                });
            }
            assert(items_view(out@) =~= was + point_items(unit@, edge@, raw@, me));
        },
        Ok(_) => {
            assert(items_view(out@) =~= was + point_items(unit@, edge@, raw@, me));
        },
    }
}

// ---------------------------------------------------------------------
// The walk over a script
// ---------------------------------------------------------------------

/// How a write ended: written (with the key of the new row or record, 0
/// for an update); refused by script item `i`; without a number from the
/// counter of draw `i`; its row or tie no longer there; or failed at the
/// store.
#[derive(Clone, Copy, Debug)]
pub enum WriteEnd {
    Written(i64),
    Refused(usize),
    Unclocked(usize),
    Missing,
    Failed,
}

/// Where a write stands: before its first step, reading what its script
/// depends on, waiting on the answer to item `i` or on the draw of item
/// `i`, waiting on the write itself, or over.
#[derive(Clone, Copy, Debug)]
pub enum Phase {
    Start,
    Reading,
    Asking(usize),
    Drawing(usize),
    Writing,
    Over(WriteEnd),
}

/// What the caller does next for a write: read what the script depends
/// on; ask the question of item `i`; draw from the counter of item `i`;
/// write; or report the end.
#[derive(Clone, Copy, Debug)]
pub enum WriteAction {
    Read,
    Ask(usize),
    Draw(usize),
    Write,
    Finish(WriteEnd),
}

/// How the store answers a write: an insert whose count is not read, an
/// update whose count must not be zero, or a plant that gives the new key.
#[derive(Clone, Copy, Debug)]
pub enum Sink {
    Insert,
    Update,
    Plant,
}

/// A write's state: where it stands, its script, and the numbers drawn.
#[derive(Debug)]
pub struct Walk {
    phase: Phase,
    script: Vec<Item>,
    drawn: Vec<i64>,
}

/// The content of a write's state.
pub struct WalkV {
    pub phase: Phase,
    pub script: Seq<ItemV>,
    pub drawn: Seq<i64>,
}

impl View for Walk {
    type V = WalkV;

    closed spec fn view(&self) -> WalkV {
        WalkV { phase: self.phase, script: items_view(self.script@), drawn: self.drawn@ }
    }
}

/// A write's state.
pub open spec fn walk_at(phase: Phase, script: Seq<ItemV>, drawn: Seq<i64>) -> WalkV {
    WalkV { phase, script, drawn }
}

/// The write ends as `e`.
pub open spec fn ended(s: WalkV, e: WriteEnd) -> (WalkV, WriteAction) {
    (walk_at(Phase::Over(e), s.script, s.drawn), WriteAction::Finish(e))
}

/// Go on from item `i`: ask it, draw it, or stop at it; past the last
/// item, write.
pub open spec fn go_from(script: Seq<ItemV>, drawn: Seq<i64>, i: nat) -> (WalkV, WriteAction) {
    if i >= script.len() {
        (walk_at(Phase::Writing, script, drawn), WriteAction::Write)
    } else {
        match script[i as int] {
            ItemV::Ask { .. } => (walk_at(Phase::Asking(i as usize), script, drawn), WriteAction::Ask(i as usize)),
            ItemV::Draw(_) => (walk_at(Phase::Drawing(i as usize), script, drawn), WriteAction::Draw(i as usize)),
            ItemV::Stop(_) => (
                walk_at(Phase::Over(WriteEnd::Refused(i as usize)), script, drawn),
                WriteAction::Finish(WriteEnd::Refused(i as usize)),
            ),
        }
    }
}

/// Item `i` is a question whose answer must be `b`.
pub open spec fn answered(script: Seq<ItemV>, i: int, b: bool) -> bool {
    0 <= i < script.len() && (script[i] matches ItemV::Ask { want, .. } && want == b)
}

/// A refusal decided before any script: the script is that one refusal.
pub open spec fn stop_with(note: Seq<char>) -> (WalkV, WriteAction) {
    (
        walk_at(Phase::Over(WriteEnd::Refused(0)), seq![ItemV::Stop(note)], Seq::empty()),
        WriteAction::Finish(WriteEnd::Refused(0)),
    )
}

/// One step of the walk: an answer that is not the one needed refuses
/// the write with the item's note; a draw takes the first number read
/// (none refuses); the write's own answer ends it as its sink reads.
/// Anything else from the store fails the write.
pub open spec fn walk_next(s: WalkV, r: ReplyV, sink: Sink) -> (WalkV, WriteAction) {
    match s.phase {
        Phase::Asking(i) => match r {
            ReplyV::Holds(b) => if answered(s.script, i as int, b) {
                go_from(s.script, s.drawn, (i + 1) as nat)
            } else {
                ended(s, WriteEnd::Refused(i))
            },
            _ => ended(s, WriteEnd::Failed),
        },
        Phase::Drawing(i) => match r {
            ReplyV::Rows(rows) => if rows.len() > 0 && rows[0].len() > 0 {
                go_from(s.script, s.drawn.push(int_val(rows[0][0])), (i + 1) as nat)
            } else {
                ended(s, WriteEnd::Unclocked(i))
            },
            _ => ended(s, WriteEnd::Failed),
        },
        Phase::Writing => match (sink, r) {
            (Sink::Insert, ReplyV::Count(_)) => ended(
                s,
                WriteEnd::Written(if s.drawn.len() > 0 { s.drawn[0] } else { 0 }),
            ),
            (Sink::Update, ReplyV::Count(n)) => if n == 0 {
                ended(s, WriteEnd::Missing)
            } else {
                ended(s, WriteEnd::Written(0))
            },
            (Sink::Plant, ReplyV::Key(k)) => ended(s, WriteEnd::Written(k)),
            _ => ended(s, WriteEnd::Failed),
        },
        Phase::Over(e) => (s, WriteAction::Finish(e)),
        _ => ended(s, WriteEnd::Failed),
    }
}

/// A copy of a claim.
fn dup_claim(c: &Claim) -> (r: Claim)
    ensures
        r@ == c@,
{
    let scope = match &c.scope {
        Some(p) => Some((p.0.clone(), copy_val(&p.1))),
        None => None,
    };
    Claim { field: c.field.clone(), value: copy_val(&c.value), scope }
}

/// A copy of a script item.
fn dup_item(x: &Item) -> (r: Item)
    ensures
        r@ == x@,
{
    match x {
        Item::Ask { query, want, note } => {
            let q = match query {
                Query::Alive { unit, key } => Query::Alive { unit: unit.clone(), key: *key },
                Query::Fresh { unit, key } => Query::Fresh { unit: unit.clone(), key: *key },
                Query::Lone { unit, edge, key, me } => Query::Lone {
                    unit: unit.clone(),
                    edge: edge.clone(),
                    key: *key,
                    me: *me,
                },
                Query::Paired { unit, edge, left, right } => Query::Paired {
                    unit: unit.clone(),
                    edge: edge.clone(),
                    left: *left,
                    right: *right,
                },
                Query::Taken { unit, claim, me } => Query::Taken {
                    unit: unit.clone(),
                    claim: dup_claim(claim),
                    me: *me,
                },
            };
            Item::Ask { query: q, want: *want, note: note.clone() }
        },
        Item::Draw(c) => Item::Draw(c.clone()),
        Item::Stop(n) => Item::Stop(n.clone()),
    }
}

/// A copy of a script.
fn dup_script(v: &Vec<Item>) -> (r: Vec<Item>)
    ensures
        items_view(r@) == items_view(v@),
{
    let mut out: Vec<Item> = Vec::new();
    let mut i: usize = 0;
    while i < v.len()
        invariant
            0 <= i <= v@.len(),
            items_view(out@) == items_view(v@).take(i as int),
        decreases v@.len() - i,
    {
        let x = dup_item(&v[i]);
        let ghost was = items_view(out@);
        out.push(x);
        assert(items_view(out@) =~= was.push(v@[i as int]@));
        assert(items_view(v@).take(i + 1) =~= items_view(v@).take(i as int).push(v@[i as int]@));
        i = i + 1;
    }
    assert(items_view(v@).take(v@.len() as int) =~= items_view(v@));
    out
}

/// A copy of the numbers drawn.
fn dup_drawn(v: &Vec<i64>) -> (r: Vec<i64>)
    ensures
        r@ == v@,
{
    let mut out: Vec<i64> = Vec::new();
    let mut i: usize = 0;
    while i < v.len()
        invariant
            0 <= i <= v@.len(),
            out@ == v@.take(i as int),
        decreases v@.len() - i,
    {
        assert(v@.take(i + 1) =~= v@.take(i as int).push(v@[i as int]));
        out.push(v[i]);
        i = i + 1;
    }
    assert(v@.take(v@.len() as int) =~= v@);
    out
}

fn go_on(script: Vec<Item>, drawn: Vec<i64>, i: usize) -> (r: (Walk, WriteAction))
    ensures
        (r.0@, r.1) == go_from(items_view(script@), drawn@, i as nat),
{
    if i >= script.len() {
        return (Walk { phase: Phase::Writing, script, drawn }, WriteAction::Write);
    }
    let ghost x = script@[i as int]@;
    let kind: u8 = match &script[i] {
        Item::Ask { .. } => 0,
        Item::Draw(_) => 1,
        Item::Stop(_) => 2,
    };
    if kind == 0 {
        (Walk { phase: Phase::Asking(i), script, drawn }, WriteAction::Ask(i))
    } else if kind == 1 {
        (Walk { phase: Phase::Drawing(i), script, drawn }, WriteAction::Draw(i))
    } else {
        (
            Walk { phase: Phase::Over(WriteEnd::Refused(i)), script, drawn },
            WriteAction::Finish(WriteEnd::Refused(i)),
        )
    }
}

fn end_as(at: &Walk, e: WriteEnd) -> (r: (Walk, WriteAction))
    ensures
        (r.0@, r.1) == ended(at@, e),
{
    (Walk { phase: Phase::Over(e), script: dup_script(&at.script), drawn: dup_drawn(&at.drawn) }, WriteAction::Finish(e))
}

fn stop_now(note: String) -> (r: (Walk, WriteAction))
    ensures
        (r.0@, r.1) == stop_with(note@),
{
    let mut script: Vec<Item> = Vec::new();
    script.push(Item::Stop(note));
    assert(items_view(script@) =~= seq![ItemV::Stop(note@)]);
    (
        Walk { phase: Phase::Over(WriteEnd::Refused(0)), script, drawn: Vec::new() },
        WriteAction::Finish(WriteEnd::Refused(0)),
    )
}

fn walk(at: &Walk, reply: &Reply, sink: Sink) -> (r: (Walk, WriteAction))
    ensures
        (r.0@, r.1) == walk_next(at@, reply@, sink),
{
    match at.phase {
        Phase::Asking(i) => match reply {
            Reply::Holds(b) => {
                let ok = if i < at.script.len() {
                    match &at.script[i] {
                        Item::Ask { want, .. } => *want == *b,
                        _ => false,
                    }
                } else {
                    false
                };
                if ok {
                    go_on(dup_script(&at.script), dup_drawn(&at.drawn), i + 1)
                } else {
                    end_as(at, WriteEnd::Refused(i))
                }
            },
            _ => end_as(at, WriteEnd::Failed),
        },
        Phase::Drawing(i) => match reply {
            Reply::Rows(rows) => {
                proof {
                    if rows@.len() > 0 {
                        assert(crate::estate::catalog::lines_view(rows@)[0] == vals_view(rows@[0]@));
                    }
                }
                if rows.len() > 0 && rows[0].len() > 0 {
                    assert(vals_view(rows@[0]@)[0] == rows@[0]@[0]@);
                    let n = rows[0][0].integer();
                    let mut drawn = dup_drawn(&at.drawn);
                    drawn.push(n);
                    if i < at.script.len() {
                        go_on(dup_script(&at.script), drawn, i + 1)
                    } else {
                        let script = dup_script(&at.script);
                        (Walk { phase: Phase::Writing, script, drawn }, WriteAction::Write)
                    }
                } else {
                    end_as(at, WriteEnd::Unclocked(i))
                }
            },
            _ => end_as(at, WriteEnd::Failed),
        },
        Phase::Writing => match (sink, reply) {
            (Sink::Insert, Reply::Count(_)) => {
                let k = if at.drawn.len() > 0 {
                    at.drawn[0]
                } else {
                    0
                };
                end_as(at, WriteEnd::Written(k))
            },
            (Sink::Update, Reply::Count(n)) => if *n == 0 {
                end_as(at, WriteEnd::Missing)
            } else {
                end_as(at, WriteEnd::Written(0))
            },
            (Sink::Plant, Reply::Key(k)) => end_as(at, WriteEnd::Written(*k)),
            _ => end_as(at, WriteEnd::Failed),
        },
        Phase::Over(e) => (
            Walk { phase: Phase::Over(e), script: dup_script(&at.script), drawn: dup_drawn(&at.drawn) },
            WriteAction::Finish(e),
        ),
        _ => end_as(at, WriteEnd::Failed),
    }
}

impl Walk {
    /// A write before its first step.
    pub fn start() -> (r: Walk)
        ensures
            r@ == walk_at(Phase::Start, Seq::empty(), Seq::empty()),
    {
        let script: Vec<Item> = Vec::new();
        assert(items_view(script@) =~= Seq::<ItemV>::empty());
        Walk { phase: Phase::Start, script, drawn: Vec::new() }
    }

    /// Where the write stands.
    pub fn phase(&self) -> (r: Phase)
        ensures
            r == self@.phase,
    {
        self.phase
    }

    /// Item `i` of the script.
    pub fn item(&self, i: usize) -> (r: &Item)
        requires
            i < self@.script.len(),
        ensures
            r@ == self@.script[i as int],
    {
        &self.script[i]
    }

    /// The numbers drawn so far.
    pub fn drawn(&self) -> (r: &[i64])
        ensures
            r@ == self@.drawn,
    {
        self.drawn.as_slice()
    }

    /// The refusal of item `i`: its note.
    pub fn refusal(&self, i: usize) -> (e: Error)
        requires
            i < self@.script.len(),
        ensures
            match self@.script[i as int] {
                ItemV::Ask { note, .. } => refused(e, note),
                ItemV::Stop(note) => refused(e, note),
                ItemV::Draw(c) => e matches Error::Estate(crate::estate::Fault::Unknown(m)) && m@
                    == "clock "@ + c,
            },
    {
        match &self.script[i] {
            Item::Ask { note, .. } => Error::Adapt(note.clone()),
            Item::Stop(note) => Error::Adapt(note.clone()),
            Item::Draw(c) => {
                let mut s = own("clock ");
                push_str(&mut s, c.as_str());
                Error::Estate(crate::estate::Fault::Unknown(s))
            },
        }
    }
}

/// The next step over a script fixed from the start.
pub open spec fn script_next(script: Seq<ItemV>, s: WalkV, r: ReplyV, sink: Sink) -> (WalkV, WriteAction) {
    match s.phase {
        Phase::Start => go_from(script, Seq::empty(), 0),
        _ => walk_next(s, r, sink),
    }
}

fn script_step(script: &Vec<Item>, at: &Walk, reply: &Reply, sink: Sink) -> (r: (Walk, WriteAction))
    ensures
        (r.0@, r.1) == script_next(items_view(script@), at@, reply@, sink),
{
    match at.phase {
        Phase::Start => go_on(dup_script(script), Vec::new(), 0),
        _ => walk(at, reply, sink),
    }
}

// ---------------------------------------------------------------------
// Tie
// ---------------------------------------------------------------------

/// The script of a new tie of bond `e` of unit `u` between `ends`: both
/// rows live, both free of a lease, no live tie between them already; then
/// the tie's own fields must bind.
pub open spec fn tie_script(u: UnitV, e: EdgeV, ends: Ends, f: Seq<(Seq<char>, Seq<char>)>) -> Seq<ItemV> {
    seq![
        ask(QueryV::Alive { unit: u.name, key: ends.left }, true, "left not live"@),
        ask(QueryV::Alive { unit: e.target, key: ends.right }, true, "right not live"@),
        ask(QueryV::Fresh { unit: u.name, key: ends.left }, true, "left leased"@),
        ask(QueryV::Fresh { unit: e.target, key: ends.right }, true, "right leased"@),
        ask(
            QueryV::Paired { unit: u.name, edge: e.name, left: ends.left, right: ends.right },
            false,
            "live pair exists"@,
        ),
    ] + match tie_spec(e, ends, f, 0) {
        Err(n) => seq![ItemV::Stop(n)],
        Ok(_) => Seq::empty(),
    }
}

/// A new tie, by its script.
#[derive(Debug)]
pub struct Tie {
    script: Vec<Item>,
}

impl View for Tie {
    type V = Seq<ItemV>;

    closed spec fn view(&self) -> Seq<ItemV> {
        items_view(self.script@)
    }
}

impl Tie {
    /// The tie of bond `edge` of `unit` between `ends` with raw pairs `fields`.
    pub fn new(unit: &Unit, edge: &Edge, ends: Ends, fields: &[(&str, &str)]) -> (r: Tie)
        ensures
            r@ == tie_script(unit@, edge@, ends, pairs_view(fields@)),
    {
        let mut script: Vec<Item> = Vec::new();
        script.push(Item::Ask {
            query: Query::Alive { unit: own(unit.name()), key: ends.left },
            want: true,
            note: own("left not live"),
        });
        script.push(Item::Ask {
            query: Query::Alive { unit: own(edge.target()), key: ends.right },
            want: true,
            note: own("right not live"),
        });
        script.push(Item::Ask {
            query: Query::Fresh { unit: own(unit.name()), key: ends.left },
            want: true,
            note: own("left leased"),
        });
        script.push(Item::Ask {
            query: Query::Fresh { unit: own(edge.target()), key: ends.right },
            want: true,
            note: own("right leased"),
        });
        script.push(Item::Ask {
            query: Query::Paired {
                unit: own(unit.name()),
                edge: own(edge.name()),
                left: ends.left,
                right: ends.right,
            },
            want: false,
            note: own("live pair exists"),
        });
        match tie_values(edge, ends, fields, 0) {
            Err(e) => {
                script.push(Item::Stop(note_of(&e)));
            },
            Ok(_) => {},
        }
        assert(items_view(script@) =~= tie_script(unit@, edge@, ends, pairs_view(fields@)));
        Tie { script }
    }
}

/// One step of a new tie.
pub open spec fn tie_next(w: Seq<ItemV>, s: WalkV, r: ReplyV) -> (WalkV, WriteAction) {
    script_next(w, s, r, Sink::Plant)
}

/// One step of a new tie, as `tie_next` states it; the write plants the
/// values `tie_values` gives and replies with the new key.
pub fn tie_step(work: &Tie, at: &Walk, reply: &Reply) -> (r: (Walk, WriteAction))
    ensures
        (r.0@, r.1) == tie_next(work@, at@, reply@),
{
    script_step(&work.script, at, reply, Sink::Plant)
}

// ---------------------------------------------------------------------
// Tune
// ---------------------------------------------------------------------

/// The script of a retune of a tie of bond `e` of unit `u` whose ends are
/// `ends`: both rows live; then the pairs must fit the bond's fields.
pub open spec fn tune_script(u: UnitV, e: EdgeV, ends: Ends, f: Seq<(Seq<char>, Seq<char>)>) -> Seq<ItemV> {
    seq![
        ask(QueryV::Alive { unit: u.name, key: ends.left }, true, "left not live"@),
        ask(QueryV::Alive { unit: e.target, key: ends.right }, true, "right not live"@),
    ] + match tune_spec(e, 0, f, 0) {
        Err(n) => seq![ItemV::Stop(n)],
        Ok(_) => Seq::empty(),
    }
}

/// One step of a retune of tie `key`: an empty set is refused; then the
/// tie's ends are read (none: the tie is missing); then its script is
/// walked; the update must change the tie.
pub open spec fn tune_next(
    u: UnitV,
    e: EdgeV,
    key: i64,
    f: Seq<(Seq<char>, Seq<char>)>,
    s: WalkV,
    r: ReplyV,
) -> (WalkV, WriteAction) {
    match s.phase {
        Phase::Start => if f.len() == 0 {
            stop_with("empty set"@)
        } else {
            (walk_at(Phase::Reading, Seq::empty(), Seq::empty()), WriteAction::Read)
        },
        Phase::Reading => match r {
            ReplyV::Rows(rows) => if rows.len() > 0 && rows[0].len() >= 2 {
                go_from(
                    tune_script(u, e, Ends { left: int_val(rows[0][0]), right: int_val(rows[0][1]) }, f),
                    Seq::empty(),
                    0,
                )
            } else {
                stop_with("missing tie "@ + decimal(key as int))
            },
            _ => ended(s, WriteEnd::Failed),
        },
        _ => walk_next(s, r, Sink::Update),
    }
}

fn missing(what: &str, key: i64) -> (s: String)
    ensures
        s@ == what@ + decimal(key as int),
{
    let mut s = own(what);
    let k = show_int(key);
    push_str(&mut s, k.as_str());
    s
}

/// One step of a retune, as `tune_next` states it; the write sets what
/// `tune_of` gives.
pub fn tune_step(unit: &Unit, edge: &Edge, key: i64, fields: &[(&str, &str)], at: &Walk, reply: &Reply) -> (r: (
    Walk,
    WriteAction,
))
    ensures
        (r.0@, r.1) == tune_next(unit@, edge@, key, pairs_view(fields@), at@, reply@),
{
    match at.phase {
        Phase::Start => if fields.len() == 0 {
            stop_now(own("empty set"))
        } else {
            let script: Vec<Item> = Vec::new();
            assert(items_view(script@) =~= Seq::<ItemV>::empty());
            (Walk { phase: Phase::Reading, script, drawn: Vec::new() }, WriteAction::Read)
        },
        Phase::Reading => match reply {
            Reply::Rows(rows) => {
                proof {
                    if rows@.len() > 0 {
                        assert(crate::estate::catalog::lines_view(rows@)[0] == vals_view(rows@[0]@));
                    }
                }
                if rows.len() > 0 && rows[0].len() >= 2 {
                    assert(vals_view(rows@[0]@)[0] == rows@[0]@[0]@);
                    assert(vals_view(rows@[0]@)[1] == rows@[0]@[1]@);
                    let ends = Ends { left: rows[0][0].integer(), right: rows[0][1].integer() };
                    let mut script: Vec<Item> = Vec::new();
                    script.push(Item::Ask {
                        query: Query::Alive { unit: own(unit.name()), key: ends.left },
                        want: true,
                        note: own("left not live"),
                    });
                    script.push(Item::Ask {
                        query: Query::Alive { unit: own(edge.target()), key: ends.right },
                        want: true,
                        note: own("right not live"),
                    });
                    match tune_of(edge, 0, fields, 0) {
                        Err(e) => {
                            script.push(Item::Stop(note_of(&e)));
                        },
                        Ok(_) => {},
                    }
                    assert(items_view(script@) =~= tune_script(unit@, edge@, ends, pairs_view(fields@)));
                    go_on(script, Vec::new(), 0)
                } else {
                    stop_now(missing("missing tie ", key))
                }
            },
            _ => end_as(at, WriteEnd::Failed),
        },
        _ => walk(at, reply, Sink::Update),
    }
}

// ---------------------------------------------------------------------
// Uniqueness and bonds in a script
// ---------------------------------------------------------------------

/// What refusing a taken claim on field `name` says.
pub open spec fn taken_note(name: Seq<char>) -> Seq<char> {
    "field "@ + name + " taken"@
}

/// One question per claim: no other live row of `unit` than `me` may hold it.
pub open spec fn taken_items(unit: Seq<char>, cs: Seq<ClaimV>, me: i64) -> Seq<ItemV>
    decreases cs.len(),
{
    if cs.len() == 0 {
        Seq::empty()
    } else {
        taken_items(unit, cs.drop_last(), me).push(
            ask(QueryV::Taken { unit, claim: cs.last(), me }, false, taken_note(cs.last().field)),
        )
    }
}

/// The uniqueness checks of a write of row `me` of `u` (0 for a new row)
/// with raw pairs `f` over stored cells `h`.
pub open spec fn claim_items(
    u: UnitV,
    f: Seq<(Seq<char>, Seq<char>)>,
    h: Seq<(Seq<char>, ValV)>,
    me: i64,
) -> Seq<ItemV> {
    match claims_of(u, u.fields, f, h) {
        Err(e) => seq![ItemV::Stop(e)],
        Ok(cs) => taken_items(u.name, cs, me),
    }
}

fn claim_script(unit: &Unit, fields: &[(&str, &str)], h: &[(String, Val)], me: i64, out: &mut Vec<Item>)
    ensures
        items_view(final(out)@) == items_view(old(out)@) + claim_items(
            unit@,
            pairs_view(fields@),
            cells_view(h@),
            me,
        ),
{
    let ghost was = items_view(out@);
    match claims(unit, fields, h) {
        Err(e) => {
            out.push(Item::Stop(note_of(&e)));
            assert(items_view(out@) =~= was + claim_items(unit@, pairs_view(fields@), cells_view(h@), me));
        },
        Ok(cs) => {
            let ghost cv = crate::life::write::claims_view(cs@);
            let mut i: usize = 0;
            assert(was + taken_items(unit@.name, cv.take(0), me) =~= was);
            while i < cs.len()
                invariant
                    0 <= i <= cs@.len(),
                    cv == crate::life::write::claims_view(cs@),
                    items_view(out@) == was + taken_items(unit@.name, cv.take(i as int), me),
                decreases cs@.len() - i,
            {
                let c = &cs[i];
                let mut note = own("field ");
                push_str(&mut note, c.field.as_str());
                push_str(&mut note, " taken");
                let ghost prev = items_view(out@);
                out.push(Item::Ask {
                    query: Query::Taken { unit: own(unit.name()), claim: dup_claim(c), me },
                    want: false,
                    note,
                });
                assert(cv.take(i + 1).drop_last() =~= cv.take(i as int));
                assert(cv.take(i + 1).last() == c@);
                assert(items_view(out@) =~= prev.push(
                    ask(QueryV::Taken { unit: unit@.name, claim: c@, me }, false, taken_note(c@.field)),
                ));
                assert(items_view(out@) =~= was + taken_items(unit@.name, cv.take(i + 1), me));
                i = i + 1;
            }
            assert(cv.take(cs@.len() as int) =~= cv);
        },
    }
}

// ---------------------------------------------------------------------
// Set
// ---------------------------------------------------------------------

/// The checks of one raw pair of a partial update of row `me`: a
/// key-column bond's checks, or a field that must bind.
pub open spec fn entry_item(u: UnitV, col: Seq<char>, raw: Seq<char>, me: i64) -> Seq<ItemV> {
    match first_where(refs_of(u.bonds), edge_named(col)) {
        Some(i) => point_items(u, refs_of(u.bonds)[i], raw, me),
        None => match entry_spec(u, col, raw) {
            Err(n) => seq![ItemV::Stop(n)],
            Ok(_) => Seq::empty(),
        },
    }
}

/// The checks of the raw pairs of a partial update of row `me`, in order.
pub open spec fn entry_items(u: UnitV, f: Seq<(Seq<char>, Seq<char>)>, me: i64) -> Seq<ItemV>
    decreases f.len(),
{
    if f.len() == 0 {
        Seq::empty()
    } else {
        entry_items(u, f.drop_last(), me) + entry_item(u, f.last().0, f.last().1, me)
    }
}

/// The script of a partial update of row `key` of `u` whose stored cells
/// are `h`: the uniqueness checks, then each raw pair's checks in order.
pub open spec fn set_script(
    u: UnitV,
    key: i64,
    f: Seq<(Seq<char>, Seq<char>)>,
    h: Seq<(Seq<char>, ValV)>,
) -> Seq<ItemV> {
    claim_items(u, f, h, key) + entry_items(u, f, key)
}

/// One step of a partial update of row `key`: a unit that refuses updates
/// refuses it; then the row is read (none: the row is missing); then its
/// script is walked; the update must change the row.
pub open spec fn set_next(
    u: UnitV,
    key: i64,
    f: Seq<(Seq<char>, Seq<char>)>,
    s: WalkV,
    r: ReplyV,
) -> (WalkV, WriteAction) {
    match s.phase {
        Phase::Start => match crate::life::write::set_refusal(u) {
            Some(n) => stop_with(n),
            None => (walk_at(Phase::Reading, Seq::empty(), Seq::empty()), WriteAction::Read),
        },
        Phase::Reading => match r {
            ReplyV::Cells(h) => go_from(set_script(u, key, f, h), Seq::empty(), 0),
            ReplyV::Rows(rows) => if rows.len() == 0 {
                stop_with("missing row "@ + decimal(key as int))
            } else {
                ended(s, WriteEnd::Failed)
            },
            _ => ended(s, WriteEnd::Failed),
        },
        _ => walk_next(s, r, Sink::Update),
    }
}

fn entry_script(unit: &Unit, refs: &Vec<&Edge>, col: &str, raw: &str, me: i64, out: &mut Vec<Item>)
    requires
        edge_refs_view(refs@) == refs_of(unit@.bonds),
    ensures
        items_view(final(out)@) == items_view(old(out)@) + entry_item(unit@, col@, raw@, me),
{
    let ghost was = items_view(out@);
    match ref_named(refs, col) {
        Some(edge) => {
            point_script(unit, edge, raw, me, out);
        },
        None => {
            match entry(unit, refs, col, raw) {
                Err(e) => {
                    out.push(Item::Stop(note_of(&e)));
                },
                Ok(_) => {},
            }
            assert(items_view(out@) =~= was + entry_item(unit@, col@, raw@, me));
        },
    }
}

fn set_script_of(unit: &Unit, key: i64, fields: &[(&str, &str)], h: &[(String, Val)]) -> (r: Vec<Item>)
    ensures
        items_view(r@) == set_script(unit@, key, pairs_view(fields@), cells_view(h@)),
{
    let mut out: Vec<Item> = Vec::new();
    assert(items_view(out@) =~= Seq::<ItemV>::empty());
    claim_script(unit, fields, h, key, &mut out);
    let ghost head = items_view(out@);
    let ghost f = pairs_view(fields@);
    let refs = unit.refs();
    let mut i: usize = 0;
    assert(f.take(0) =~= Seq::<(Seq<char>, Seq<char>)>::empty());
    assert(head + entry_items(unit@, f.take(0), key) =~= head);
    while i < fields.len()
        invariant
            0 <= i <= fields@.len(),
            f == pairs_view(fields@),
            edge_refs_view(refs@) == refs_of(unit@.bonds),
            items_view(out@) == head + entry_items(unit@, f.take(i as int), key),
        decreases fields@.len() - i,
    {
        let (col, raw) = fields[i];
        assert(f.take(i + 1).drop_last() =~= f.take(i as int));
        assert(f.take(i + 1).last() == (col@, raw@));
        let ghost prev = items_view(out@);
        entry_script(unit, &refs, col, raw, key, &mut out);
        assert(items_view(out@) =~= head + entry_items(unit@, f.take(i + 1), key));
        i = i + 1;
    }
    assert(f.take(fields@.len() as int) =~= f);
    out
}

/// One step of a partial update, as `set_next` states it; the update sets
/// what `update_of` gives.
pub fn set_step(unit: &Unit, key: i64, fields: &[(&str, &str)], at: &Walk, reply: &Reply) -> (r: (
    Walk,
    WriteAction,
))
    ensures
        (r.0@, r.1) == set_next(unit@, key, pairs_view(fields@), at@, reply@),
{
    match at.phase {
        Phase::Start => match crate::life::write::set_check(unit) {
            Some(e) => stop_now(note_of(&e)),
            None => {
                let script: Vec<Item> = Vec::new();
                assert(items_view(script@) =~= Seq::<ItemV>::empty());
                (Walk { phase: Phase::Reading, script, drawn: Vec::new() }, WriteAction::Read)
            },
        },
        Phase::Reading => match reply {
            Reply::Cells(h) => go_on(set_script_of(unit, key, fields, h.as_slice()), Vec::new(), 0),
            Reply::Rows(rows) => if rows.len() == 0 {
                stop_now(missing("missing row ", key))
            } else {
                end_as(at, WriteEnd::Failed)
            },
            _ => end_as(at, WriteEnd::Failed),
        },
        _ => walk(at, reply, Sink::Update),
    }
}

// ---------------------------------------------------------------------
// Craft
// ---------------------------------------------------------------------

/// The raw text given for `name`, or empty text.
pub open spec fn pluck(f: Seq<(Seq<char>, Seq<char>)>, name: Seq<char>) -> Seq<char> {
    match sought(f, name) {
        Some(raw) => raw,
        None => Seq::empty(),
    }
}

/// For field `s` of a new row: the draw of a serial field, nothing for a
/// field that binds, or the refusal of one that does not.
pub open spec fn slot_item(u: UnitV, f: Seq<(Seq<char>, Seq<char>)>, s: SlotV) -> Seq<ItemV> {
    match clock_for(u, f, s) {
        Err(e) => seq![ItemV::Stop(e)],
        Ok(Some(c)) => seq![ItemV::Draw(c)],
        Ok(None) => Seq::empty(),
    }
}

/// The items of the fields `slots` of a new row, in order.
pub open spec fn slot_items(u: UnitV, slots: Seq<SlotV>, f: Seq<(Seq<char>, Seq<char>)>) -> Seq<ItemV>
    decreases slots.len(),
{
    if slots.len() == 0 {
        Seq::empty()
    } else {
        slot_items(u, slots.drop_last(), f) + slot_item(u, f, slots.last())
    }
}

/// The checks of the key-column bonds `refs` of a new row, in order.
pub open spec fn ref_items(u: UnitV, refs: Seq<EdgeV>, f: Seq<(Seq<char>, Seq<char>)>) -> Seq<ItemV>
    decreases refs.len(),
{
    if refs.len() == 0 {
        Seq::empty()
    } else {
        ref_items(u, refs.drop_last(), f) + point_items(u, refs.last(), pluck(f, refs.last().name), 0)
    }
}

/// The script of a new row of `u`: draw its key; then, field by field, draw
/// each serial number or bind the field; then check each key-column bond;
/// then check the uniqueness claims.
pub open spec fn craft_script(u: UnitV, f: Seq<(Seq<char>, Seq<char>)>) -> Seq<ItemV> {
    seq![ItemV::Draw(crate::estate::clock::unit_clock(u.name))] + slot_items(u, u.fields, f)
        + ref_items(u, refs_of(u.bonds), f) + claim_items(u, f, Seq::empty(), 0)
}

/// The keys the key-column bonds `refs` of a new row take, in order.
pub open spec fn ref_values(refs: Seq<EdgeV>, f: Seq<(Seq<char>, Seq<char>)>) -> Result<Seq<ValV>, Seq<char>>
    decreases refs.len(),
{
    if refs.len() == 0 {
        Ok(Seq::empty())
    } else {
        match ref_values(refs.drop_last(), f) {
            Err(e) => Err(e),
            Ok(vs) => match point_spec(refs.last(), pluck(f, refs.last().name)) {
                Err(e) => Err(e),
                Ok(v) => Ok(vs.push(v)),
            },
        }
    }
}

/// The values a new row of `u` is inserted with, `drawn` being its key
/// and then its serial numbers: the key, the fields, the bonds' keys, no
/// expiry, and the creation and update times.
pub open spec fn craft_row_spec(
    u: UnitV,
    f: Seq<(Seq<char>, Seq<char>)>,
    drawn: Seq<i64>,
    tick: i64,
) -> Result<Seq<ValV>, Seq<char>> {
    match crate::life::write::craft_spec(u, f, drawn.skip(1)) {
        Err(e) => Err(e),
        Ok(vs) => match ref_values(refs_of(u.bonds), f) {
            Err(e) => Err(e),
            Ok(ps) => Ok(seq![ValV::Int(drawn[0])] + vs + ps + seq![ValV::Null, ValV::Int(tick), ValV::Int(tick)]),
        },
    }
}

/// A new row, by its script.
#[derive(Debug)]
pub struct Craft {
    script: Vec<Item>,
}

impl View for Craft {
    type V = Seq<ItemV>;

    closed spec fn view(&self) -> Seq<ItemV> {
        items_view(self.script@)
    }
}

fn slot_script(unit: &Unit, fields: &[(&str, &str)], out: &mut Vec<Item>)
    ensures
        items_view(final(out)@) == items_view(old(out)@) + slot_items(unit@, unit@.fields, pairs_view(fields@)),
{
    let slots = unit.fields();
    let key = unit.key();
    let ghost sv = crate::plan::slots_view(slots@);
    let ghost f = pairs_view(fields@);
    let ghost head = items_view(out@);
    let mut i: usize = 0;
    assert(sv.take(0) =~= Seq::<crate::plan::SlotV>::empty());
    assert(head + slot_items(unit@, sv.take(0), f) =~= head);
    while i < slots.len()
        invariant
            0 <= i <= slots@.len(),
            sv == crate::plan::slots_view(slots@),
            sv == unit@.fields,
            f == pairs_view(fields@),
            key@ == unit@.name,
            items_view(out@) == head + slot_items(unit@, sv.take(i as int), f),
        decreases slots@.len() - i,
    {
        proof {
            assert(sv.take(i + 1).drop_last() =~= sv.take(i as int));
            assert(sv.take(i + 1).last() == slots@[i as int]@);
        }
        let slot = &slots[i];
        let ghost prev = items_view(out@);
        match slot.serial() {
            Some(scope) => match anchor(unit, fields, &[], scope) {
                Ok(v) => {
                    match crate::estate::clock::serial(key.as_str(), slot.name(), &v) {
                        Ok(c) => out.push(Item::Draw(c)),
                        Err(e) => {
                            assert(false);
                        },
                    }
                },
                Err(e) => out.push(Item::Stop(note_of(&e))),
            },
            None => match value_for(slot, fields) {
                Ok(_) => {},
                Err(e) => out.push(Item::Stop(note_of(&e))),
            },
        }
        assert(cells_view(Seq::<(String, Val)>::empty()) =~= Seq::<(Seq<char>, ValV)>::empty());
        assert(items_view(out@) =~= prev + slot_item(unit@, f, slot@));
        assert(items_view(out@) =~= head + slot_items(unit@, sv.take(i + 1), f));
        i = i + 1;
    }
    assert(sv.take(slots@.len() as int) =~= sv);
}

fn pluck_of<'a>(fields: &[(&'a str, &'a str)], name: &str) -> (r: &'a str)
    ensures
        r@ == pluck(pairs_view(fields@), name@),
{
    match seek(fields, name) {
        Some(raw) => raw,
        None => {
            let e = "";
            proof {
                reveal_strlit("");
            }
            e
        },
    }
}

fn ref_script(unit: &Unit, fields: &[(&str, &str)], out: &mut Vec<Item>)
    ensures
        items_view(final(out)@) == items_view(old(out)@) + ref_items(unit@, refs_of(unit@.bonds), pairs_view(fields@)),
{
    let refs = unit.refs();
    let ghost rv = refs_of(unit@.bonds);
    let ghost f = pairs_view(fields@);
    let ghost head = items_view(out@);
    let mut i: usize = 0;
    assert(rv.take(0) =~= Seq::<EdgeV>::empty());
    assert(head + ref_items(unit@, rv.take(0), f) =~= head);
    while i < refs.len()
        invariant
            0 <= i <= refs@.len(),
            edge_refs_view(refs@) == rv,
            rv == refs_of(unit@.bonds),
            f == pairs_view(fields@),
            items_view(out@) == head + ref_items(unit@, rv.take(i as int), f),
        decreases refs@.len() - i,
    {
        proof {
            assert(rv.take(i + 1).drop_last() =~= rv.take(i as int));
            assert(rv.take(i + 1).last() == refs@[i as int]@);
        }
        let edge = refs[i];
        let raw = pluck_of(fields, edge.name());
        let ghost prev = items_view(out@);
        point_script(unit, edge, raw, 0, out);
        assert(items_view(out@) =~= head + ref_items(unit@, rv.take(i + 1), f));
        i = i + 1;
    }
    assert(rv.take(refs@.len() as int) =~= rv);
}

impl Craft {
    /// The new row of `unit` with raw pairs `fields`.
    pub fn new(unit: &Unit, fields: &[(&str, &str)]) -> (r: Craft)
        ensures
            r@ == craft_script(unit@, pairs_view(fields@)),
    {
        let mut script: Vec<Item> = Vec::new();
        let k = unit.key();
        script.push(Item::Draw(crate::estate::clock::unit(k.as_str())));
        let ghost f = pairs_view(fields@);
        let ghost a = items_view(script@);
        assert(a =~= seq![ItemV::Draw(crate::estate::clock::unit_clock(unit@.name))]);
        slot_script(unit, fields, &mut script);
        let ghost b = items_view(script@);
        ref_script(unit, fields, &mut script);
        let ghost c = items_view(script@);
        let none: Vec<(String, Val)> = Vec::new();
        claim_script(unit, fields, none.as_slice(), 0, &mut script);
        assert(cells_view(none@) =~= Seq::<(Seq<char>, ValV)>::empty());
        assert(b == a + slot_items(unit@, unit@.fields, f));
        assert(c == b + ref_items(unit@, refs_of(unit@.bonds), f));
        assert(items_view(script@) == c + claim_items(unit@, f, Seq::empty(), 0));
        assert(items_view(script@) =~= craft_script(unit@, pairs_view(fields@)));
        Craft { script }
    }
}

/// One step of a new row.
pub open spec fn craft_next(w: Seq<ItemV>, s: WalkV, r: ReplyV) -> (WalkV, WriteAction) {
    script_next(w, s, r, Sink::Insert)
}

/// One step of a new row, as `craft_next` states it; the write inserts
/// what `craft_row` gives for the numbers drawn.
pub fn craft_step(work: &Craft, at: &Walk, reply: &Reply) -> (r: (Walk, WriteAction))
    ensures
        (r.0@, r.1) == craft_next(work@, at@, reply@),
{
    script_step(&work.script, at, reply, Sink::Insert)
}

/// The values a new row of `unit` is inserted with: `drawn` holds its key
/// and then its serial numbers, in the order its script drew them.
pub fn craft_row(unit: &Unit, fields: &[(&str, &str)], drawn: &[i64], tick: i64) -> (r: Result<Vec<Val>, Error>)
    requires
        drawn@.len() == 1 + crate::life::write::serial_count(unit@.fields),
    ensures
        match craft_row_spec(unit@, pairs_view(fields@), drawn@, tick) {
            Ok(vs) => r matches Ok(v) && crate::life::write::vals_of(v@) == vs,
            Err(n) => r matches Err(e) && refused(e, n),
        },
{
    let mut rest: Vec<i64> = Vec::new();
    let mut j: usize = 1;
    while j < drawn.len()
        invariant
            1 <= j <= drawn@.len(),
            rest@ == drawn@.subrange(1, j as int),
        decreases drawn@.len() - j,
    {
        assert(drawn@.subrange(1, j + 1) =~= drawn@.subrange(1, j as int).push(drawn@[j as int]));
        rest.push(drawn[j]);
        j = j + 1;
    }
    assert(rest@ =~= drawn@.skip(1));
    let vs = match crate::life::write::row_values(unit, fields, rest.as_slice()) {
        Ok(v) => v,
        Err(e) => {
            return Err(e);
        },
    };
    let refs = unit.refs();
    let ghost rv = refs_of(unit@.bonds);
    let ghost f = pairs_view(fields@);
    let mut ps: Vec<Val> = Vec::new();
    let mut i: usize = 0;
    assert(rv.take(0) =~= Seq::<EdgeV>::empty());
    assert(crate::life::write::vals_of(ps@) =~= Seq::<ValV>::empty());
    while i < refs.len()
        invariant
            0 <= i <= refs@.len(),
            edge_refs_view(refs@) == rv,
            rv == refs_of(unit@.bonds),
            f == pairs_view(fields@),
            ref_values(rv.take(i as int), f) == Ok::<Seq<ValV>, Seq<char>>(crate::life::write::vals_of(ps@)),
            crate::life::write::craft_spec(unit@, f, drawn@.skip(1)) == Ok::<Seq<ValV>, Seq<char>>(
                crate::life::write::vals_of(vs@),
            ),
        decreases refs@.len() - i,
    {
        proof {
            assert(rv.take(i + 1).drop_last() =~= rv.take(i as int));
            assert(rv.take(i + 1).last() == refs@[i as int]@);
        }
        let edge = refs[i];
        let raw = pluck_of(fields, edge.name());
        match point(edge, raw) {
            Ok(v) => {
                let ghost was = crate::life::write::vals_of(ps@);
                let ghost vv = v@;
                ps.push(v);
                assert(crate::life::write::vals_of(ps@) =~= was.push(vv));
            },
            Err(e) => {
                proof {
                    lemma_ref_values_fail(rv, f, i + 1);
                }
                return Err(e);
            },
        }
        i = i + 1;
    }
    assert(rv.take(refs@.len() as int) =~= rv);
    let mut out: Vec<Val> = Vec::new();
    out.push(Val::Int(drawn[0]));
    let ghost head = crate::life::write::vals_of(out@);
    let mut vs = vs;
    let ghost vsv = crate::life::write::vals_of(vs@);
    let ghost psv = crate::life::write::vals_of(ps@);
    out.append(&mut vs);
    let mut ps = ps;
    out.append(&mut ps);
    out.push(Val::Null);
    out.push(Val::Int(tick));
    out.push(Val::Int(tick));
    assert(crate::life::write::vals_of(out@) =~= seq![ValV::Int(drawn@[0])] + vsv + psv + seq![
        ValV::Null,
        ValV::Int(tick),
        ValV::Int(tick),
    ]);
    Ok(out)
}

proof fn lemma_ref_values_fail(refs: Seq<EdgeV>, f: Seq<(Seq<char>, Seq<char>)>, n: int)
    requires
        0 <= n <= refs.len(),
        ref_values(refs.take(n), f) is Err,
    ensures
        ref_values(refs, f) == ref_values(refs.take(n), f),
    decreases refs.len() - n,
{
    if n < refs.len() {
        assert(refs.take(n + 1).drop_last() =~= refs.take(n));
        lemma_ref_values_fail(refs, f, n + 1);
    } else {
        assert(refs.take(n) =~= refs);
    }
}

// ---------------------------------------------------------------------
// Laws: no write before its values are found
// ---------------------------------------------------------------------

/// No item before place `n` of the script refuses.
pub open spec fn clear_before(script: Seq<ItemV>, n: int) -> bool {
    forall|j: int| 0 <= j < n && j < script.len() ==> !(#[trigger] script[j] is Stop)
}

/// What the walk keeps: a question or draw waiting at item `i` was
/// reached past items that do not refuse, and so was a write.
pub open spec fn walk_inv(s: WalkV) -> bool {
    match s.phase {
        Phase::Asking(i) | Phase::Drawing(i) => i < s.script.len() && clear_before(s.script, i + 1),
        Phase::Writing => clear_before(s.script, s.script.len() as int),
        _ => true,
    }
}

proof fn lemma_go_from(script: Seq<ItemV>, drawn: Seq<i64>, i: nat)
    requires
        clear_before(script, i as int),
    ensures
        walk_inv(go_from(script, drawn, i).0),
        go_from(script, drawn, i).0.script == script,
        go_from(script, drawn, i).1 is Write ==> clear_before(script, script.len() as int),
{
    if i < script.len() {
        let k = i as usize;
        assert(k <= i);
        if k < i {
            assert(clear_before(script, k + 1));
        }
    }
}

proof fn lemma_walk(s: WalkV, r: ReplyV, sink: Sink)
    requires
        walk_inv(s),
    ensures
        walk_inv(walk_next(s, r, sink).0),
        walk_next(s, r, sink).0.script == s.script,
        walk_next(s, r, sink).1 is Write ==> clear_before(s.script, s.script.len() as int),
{
    match s.phase {
        Phase::Asking(i) => {
            if let ReplyV::Holds(b) = r {
                if answered(s.script, i as int, b) {
                    lemma_go_from(s.script, s.drawn, (i + 1) as nat);
                }
            }
        },
        Phase::Drawing(i) => {
            if let ReplyV::Rows(rows) = r {
                if rows.len() > 0 && rows[0].len() > 0 {
                    lemma_go_from(s.script, s.drawn.push(int_val(rows[0][0])), (i + 1) as nat);
                }
            }
        },
        _ => {},
    }
}

proof fn lemma_clear_parts(a: Seq<ItemV>, b: Seq<ItemV>)
    requires
        clear_before(a + b, (a + b).len() as int),
    ensures
        clear_before(a, a.len() as int),
        clear_before(b, b.len() as int),
{
    assert forall|j: int| 0 <= j < a.len() implies !(#[trigger] a[j] is Stop) by {
        assert((a + b)[j] == a[j]);
    }
    assert forall|j: int| 0 <= j < b.len() implies !(#[trigger] b[j] is Stop) by {
        assert((a + b)[a.len() + j] == b[j]);
    }
}

proof fn lemma_point_clear(u: UnitV, e: EdgeV, raw: Seq<char>, me: i64)
    requires
        clear_before(point_items(u, e, raw, me), point_items(u, e, raw, me).len() as int),
    ensures
        point_spec(e, raw) is Ok,
{
    if point_spec(e, raw) is Err {
        assert(point_items(u, e, raw, me)[0] is Stop);
    }
}

proof fn lemma_entries_clear(u: UnitV, f: Seq<(Seq<char>, Seq<char>)>, me: i64)
    requires
        clear_before(entry_items(u, f, me), entry_items(u, f, me).len() as int),
    ensures
        crate::life::write::entries(u, f) is Ok,
    decreases f.len(),
{
    if f.len() > 0 {
        let a = entry_items(u, f.drop_last(), me);
        let b = entry_item(u, f.last().0, f.last().1, me);
        lemma_clear_parts(a, b);
        lemma_entries_clear(u, f.drop_last(), me);
        match first_where(refs_of(u.bonds), edge_named(f.last().0)) {
            Some(i) => {
                lemma_point_clear(u, refs_of(u.bonds)[i], f.last().1, me);
            },
            None => {
                if entry_spec(u, f.last().0, f.last().1) is Err {
                    assert(b[0] is Stop);
                }
            },
        }
    }
}

proof fn lemma_slots_clear(u: UnitV, slots: Seq<SlotV>, f: Seq<(Seq<char>, Seq<char>)>)
    requires
        clear_before(slot_items(u, slots, f), slot_items(u, slots, f).len() as int),
    ensures
        crate::life::write::clocks_of(u, slots, f) is Ok,
    decreases slots.len(),
{
    if slots.len() > 0 {
        let a = slot_items(u, slots.drop_last(), f);
        let b = slot_item(u, f, slots.last());
        lemma_clear_parts(a, b);
        lemma_slots_clear(u, slots.drop_last(), f);
        if clock_for(u, f, slots.last()) is Err {
            assert(b[0] is Stop);
        }
    }
}

proof fn lemma_refs_clear(u: UnitV, refs: Seq<EdgeV>, f: Seq<(Seq<char>, Seq<char>)>)
    requires
        clear_before(ref_items(u, refs, f), ref_items(u, refs, f).len() as int),
    ensures
        ref_values(refs, f) is Ok,
    decreases refs.len(),
{
    if refs.len() > 0 {
        let a = ref_items(u, refs.drop_last(), f);
        let b = point_items(u, refs.last(), pluck(f, refs.last().name), 0);
        lemma_clear_parts(a, b);
        lemma_refs_clear(u, refs.drop_last(), f);
        lemma_point_clear(u, refs.last(), pluck(f, refs.last().name), 0);
    }
}

/// What a new row's walk keeps: past its start it walks its own script.
pub open spec fn craft_inv(u: UnitV, f: Seq<(Seq<char>, Seq<char>)>, s: WalkV) -> bool {
    &&& walk_inv(s)
    &&& (s.phase is Asking || s.phase is Drawing || s.phase is Writing) ==> s.script == craft_script(u, f)
}

/// A new row is written only once its values are found: every step keeps
/// the walk on the row's script, and the write comes only when the fields
/// bind and the bonds' keys read, whatever numbers were drawn.
pub proof fn lemma_craft_writes_ok(u: UnitV, f: Seq<(Seq<char>, Seq<char>)>, s: WalkV, r: ReplyV)
    requires
        craft_inv(u, f, s),
    ensures
        craft_inv(u, f, craft_next(craft_script(u, f), s, r).0),
        craft_next(craft_script(u, f), s, r).1 is Write ==> forall|d: Seq<i64>, tick: i64|
            #[trigger] craft_row_spec(u, f, d, tick) is Ok,
{
    let w = craft_script(u, f);
    let next = craft_next(w, s, r);
    if s.phase is Start {
        lemma_go_from(w, Seq::empty(), 0);
    } else {
        lemma_walk(s, r, Sink::Insert);
    }
    if next.1 is Write {
        assert(clear_before(w, w.len() as int));
        let a = seq![ItemV::Draw(crate::estate::clock::unit_clock(u.name))];
        let b = slot_items(u, u.fields, f);
        let c = ref_items(u, refs_of(u.bonds), f);
        let d = claim_items(u, f, Seq::empty(), 0);
        assert(w == a + b + c + d);
        lemma_clear_parts(a + b + c, d);
        lemma_clear_parts(a + b, c);
        lemma_clear_parts(a, b);
        lemma_slots_clear(u, u.fields, f);
        lemma_refs_clear(u, refs_of(u.bonds), f);
        assert forall|dr: Seq<i64>, tick: i64| #[trigger] craft_row_spec(u, f, dr, tick) is Ok by {
            crate::life::write::lemma_clocks_then_values(u, u.fields, f, dr.skip(1));
        }
    }
}

/// What a partial update's walk keeps: past reading the row, it walks
/// the script of some stored cells, on a unit that takes updates.
pub open spec fn set_inv(u: UnitV, key: i64, f: Seq<(Seq<char>, Seq<char>)>, s: WalkV) -> bool {
    &&& walk_inv(s)
    &&& s.phase is Reading ==> crate::life::write::set_refusal(u) is None
    &&& (s.phase is Asking || s.phase is Drawing || s.phase is Writing) ==> crate::life::write::set_refusal(u) is None
        && exists|h: Seq<(Seq<char>, ValV)>| s.script == set_script(u, key, f, h)
}

/// A partial update is written only once what it sets is found: the
/// write comes only when `update_spec` gives the names and values.
pub proof fn lemma_set_writes_ok(
    u: UnitV,
    key: i64,
    f: Seq<(Seq<char>, Seq<char>)>,
    s: WalkV,
    r: ReplyV,
    tick: i64,
)
    requires
        set_inv(u, key, f, s),
    ensures
        set_inv(u, key, f, set_next(u, key, f, s, r).0),
        set_next(u, key, f, s, r).1 is Write ==> crate::life::write::update_spec(u, key, f, tick) is Ok,
{
    let next = set_next(u, key, f, s, r);
    match s.phase {
        Phase::Start => {},
        Phase::Over(_) => {},
        Phase::Reading => {
            if let ReplyV::Cells(h) = r {
                let w = set_script(u, key, f, h);
                lemma_go_from(w, Seq::empty(), 0);
                assert(next.0.script == w);
                if next.1 is Write {
                    lemma_clear_parts(claim_items(u, f, h, key), entry_items(u, f, key));
                    lemma_entries_clear(u, f, key);
                }
            }
        },
        _ => {
            lemma_walk(s, r, Sink::Update);
            let h = choose|h: Seq<(Seq<char>, ValV)>| s.script == set_script(u, key, f, h);
            assert(next.0.script == set_script(u, key, f, h));
            if next.1 is Write {
                lemma_clear_parts(claim_items(u, f, h, key), entry_items(u, f, key));
                lemma_entries_clear(u, f, key);
            }
        },
    }
}

/// What a retune's walk keeps: past reading the tie, it walks the script
/// of some ends, with pairs to set.
pub open spec fn tune_inv(u: UnitV, e: EdgeV, f: Seq<(Seq<char>, Seq<char>)>, s: WalkV) -> bool {
    &&& walk_inv(s)
    &&& s.phase is Reading ==> f.len() > 0
    &&& (s.phase is Asking || s.phase is Drawing || s.phase is Writing) ==> f.len() > 0 && exists|ends: Ends|
        s.script == tune_script(u, e, ends, f)
}

/// A retune is written only once what it sets is found: the write comes
/// only when `tune_spec` gives the names and values.
pub proof fn lemma_tune_writes_ok(
    u: UnitV,
    e: EdgeV,
    key: i64,
    f: Seq<(Seq<char>, Seq<char>)>,
    s: WalkV,
    r: ReplyV,
    tick: i64,
)
    requires
        tune_inv(u, e, f, s),
    ensures
        tune_inv(u, e, f, tune_next(u, e, key, f, s, r).0),
        tune_next(u, e, key, f, s, r).1 is Write ==> tune_spec(e, key, f, tick) is Ok,
{
    let next = tune_next(u, e, key, f, s, r);
    match s.phase {
        Phase::Start => {},
        Phase::Over(_) => {},
        Phase::Reading => {
            if let ReplyV::Rows(rows) = r {
                if rows.len() > 0 && rows[0].len() >= 2 {
                    let ends = Ends { left: int_val(rows[0][0]), right: int_val(rows[0][1]) };
                    let w = tune_script(u, e, ends, f);
                    lemma_go_from(w, Seq::empty(), 0);
                    assert(next.0.script == w);
                    if next.1 is Write && tune_spec(e, 0, f, 0) is Err {
                        assert(w[2] is Stop);
                    }
                }
            }
        },
        _ => {
            lemma_walk(s, r, Sink::Update);
            let ends = choose|ends: Ends| s.script == tune_script(u, e, ends, f);
            let w = tune_script(u, e, ends, f);
            assert(next.0.script == w);
            if next.1 is Write && tune_spec(e, 0, f, 0) is Err {
                assert(w[2] is Stop);
            }
        },
    }
}

/// What a new tie's walk keeps: past its start it walks its own script.
pub open spec fn tie_inv(u: UnitV, e: EdgeV, ends: Ends, f: Seq<(Seq<char>, Seq<char>)>, s: WalkV) -> bool {
    &&& walk_inv(s)
    &&& (s.phase is Asking || s.phase is Drawing || s.phase is Writing) ==> s.script == tie_script(u, e, ends, f)
}

/// A new tie is planted only once its values are found.
pub proof fn lemma_tie_writes_ok(
    u: UnitV,
    e: EdgeV,
    ends: Ends,
    f: Seq<(Seq<char>, Seq<char>)>,
    s: WalkV,
    r: ReplyV,
    tick: i64,
)
    requires
        tie_inv(u, e, ends, f, s),
    ensures
        tie_inv(u, e, ends, f, tie_next(tie_script(u, e, ends, f), s, r).0),
        tie_next(tie_script(u, e, ends, f), s, r).1 is Write ==> tie_spec(e, ends, f, tick) is Ok,
{
    let w = tie_script(u, e, ends, f);
    if s.phase is Start {
        lemma_go_from(w, Seq::empty(), 0);
    } else {
        lemma_walk(s, r, Sink::Plant);
    }
    if tie_next(w, s, r).1 is Write {
        if tie_spec(e, ends, f, 0) is Err {
            assert(w[5] is Stop);
        }
    }
}

} // verus!
