//! Adopting an unsealed namespace as a step machine: the store must match
//! the layout the plan generates exactly; then, in one transaction, the
//! catalog is created, every counter is restored to the high-water mark of
//! what is stored, the first generation is recorded and the estate sealed.
use vstd::prelude::*;
use crate::ddl::Grain;
use crate::estate::catalog::{lines_view, script, script_of};
use crate::estate::clock::{
    bond, bond_clock, marks, maximum, maximum_spec, serials, serials_spec, unique_names, unit,
    unit_clock,
};
use crate::estate::step::{Reply, ReplyV};
use crate::life::etch::keys_view;
use crate::plan::{Plan, UnitV, EdgeV, SlotV};
use crate::text::{own, same};

verus! {

/// Where a counter's high-water mark is read from: a unit's rows, a
/// many-to-many bond's ties, a serial field's values within their scopes,
/// or the pulse log.
#[derive(Debug)]
pub enum Source {
    Unit(String),
    Bond(String, String),
    Serial { unit: String, slot: String, scope: String },
    Pulse,
}

/// The content of a source.
pub enum SourceV {
    Unit(Seq<char>),
    Bond(Seq<char>, Seq<char>),
    Serial { unit: Seq<char>, slot: Seq<char>, scope: Seq<char> },
    Pulse,
}

impl View for Source {
    type V = SourceV;

    open spec fn view(&self) -> SourceV {
        match self {
            Source::Unit(u) => SourceV::Unit(u@),
            Source::Bond(u, e) => SourceV::Bond(u@, e@),
            Source::Serial { unit, slot, scope } => SourceV::Serial { unit: unit@, slot: slot@, scope: scope@ },
            Source::Pulse => SourceV::Pulse,
        }
    }
}

/// The sources of the many-to-many bonds among `bs` of unit `name`.
pub open spec fn bond_sources(name: Seq<char>, bs: Seq<EdgeV>) -> Seq<SourceV>
    decreases bs.len(),
{
    if bs.len() == 0 {
        Seq::empty()
    } else if bs.last().kind == crate::bond::Kind::Many2many {
        bond_sources(name, bs.drop_last()).push(SourceV::Bond(name, bs.last().name))
    } else {
        bond_sources(name, bs.drop_last())
    }
}

/// The sources of the serial fields among `ss` of unit `name`.
pub open spec fn serial_sources(name: Seq<char>, ss: Seq<SlotV>) -> Seq<SourceV>
    decreases ss.len(),
{
    if ss.len() == 0 {
        Seq::empty()
    } else {
        match ss.last().serial {
            Some(scope) => serial_sources(name, ss.drop_last()).push(
                SourceV::Serial { unit: name, slot: ss.last().name, scope },
            ),
            None => serial_sources(name, ss.drop_last()),
        }
    }
}

/// The sources of one unit: its rows, its many-to-many bonds' ties, its
/// serial fields.
pub open spec fn unit_sources(u: UnitV) -> Seq<SourceV> {
    seq![SourceV::Unit(u.name)] + bond_sources(u.name, u.bonds) + serial_sources(u.name, u.fields)
}

/// The sources of a plan's units, unit after unit.
pub open spec fn units_sources(us: Seq<UnitV>) -> Seq<SourceV>
    decreases us.len(),
{
    if us.len() == 0 {
        Seq::empty()
    } else {
        units_sources(us.drop_last()) + unit_sources(us.last())
    }
}

/// Every counter adoption restores, in order: the units' sources, then
/// the pulse log.
pub open spec fn sources_of(p: Seq<UnitV>) -> Seq<SourceV> {
    units_sources(p).push(SourceV::Pulse)
}

/// What adopting works from: the sources of the counters, the catalog's
/// statements, and the time the first generation is stamped with.
#[derive(Debug)]
pub struct Adopt {
    sources: Vec<Source>,
    script: Vec<String>,
    tick: i64,
}

/// The content of an adoption.
pub struct AdoptV {
    pub sources: Seq<SourceV>,
    pub script: Seq<Seq<char>>,
    pub tick: i64,
}

impl View for Adopt {
    type V = AdoptV;

    closed spec fn view(&self) -> AdoptV {
        AdoptV {
            sources: self.sources@.map_values(|s: Source| s@),
            script: self.script@.map_values(|s: String| s@),
            tick: self.tick,
        }
    }
}

/// How adopting ended: adopted; the store's shape differs from the
/// expected layout; refused (a counter could not be read or restored); or
/// failed at the store.
#[derive(Clone, Copy, Debug)]
pub enum AdoptEnd {
    Adopted,
    Drifted,
    Refused,
    Failed,
}

/// Where adopting stands; `Reading(i)` waits on the read of source `i`,
/// `Holding(i, k)` on restoring counter `k` of what source `i` gave.
#[derive(Clone, Copy, Debug)]
pub enum AdoptPhase {
    Start,
    Expecting,
    Begun,
    Shaping,
    Scripting(usize),
    Reading(usize),
    Holding(usize, usize),
    Generating,
    Inserting,
    Rewriting,
    Sealing,
    Committing,
    Undoing(AdoptEnd),
    Over(AdoptEnd),
}

/// An adoption's state: where it stands, the expected shape, the counters
/// to restore from the last source read, and the note of a refusal or the
/// shape found on drift.
#[derive(Debug)]
pub struct AdoptState {
    phase: AdoptPhase,
    expected: String,
    holds: Vec<(String, i64)>,
    note: String,
}

/// The content of an adoption's state.
pub struct AdoptStateV {
    pub phase: AdoptPhase,
    pub expected: Seq<char>,
    pub holds: Seq<(Seq<char>, i64)>,
    pub note: Seq<char>,
}

impl View for AdoptState {
    type V = AdoptStateV;

    closed spec fn view(&self) -> AdoptStateV {
        AdoptStateV {
            phase: self.phase,
            expected: self.expected@,
            holds: keys_view(self.holds@),
            note: self.note@,
        }
    }
}

/// What the caller does next to adopt.
#[derive(Clone, Copy, Debug)]
pub enum AdoptAction {
    /// Build the plan's layout aside and reply with its shape text.
    Expect,
    /// Open the transaction.
    Begin,
    /// Reply with the store's physical shape text.
    Shape,
    /// Run catalog statement `i`.
    Script(usize),
    /// Read source `i`: the largest key of a table, or a serial field's
    /// scope values and numbers.
    Read(usize),
    /// Restore counter `k` of the state's list, replying with the count of
    /// records inserted.
    Hold(usize),
    /// Restore the generation counter to 1, replying with the count.
    Generation,
    /// Insert the first generation, active, with the model's digest.
    Insert,
    /// Rewrite the stored schema rows for the model.
    Rewrite,
    /// Record the estate root with the physical shape.
    Seal,
    /// Commit the transaction.
    Commit,
    /// Roll the transaction back.
    Rollback,
    /// Report the end.
    Finish(AdoptEnd),
}

/// An adoption state.
pub open spec fn adopt_at(
    phase: AdoptPhase,
    expected: Seq<char>,
    holds: Seq<(Seq<char>, i64)>,
    note: Seq<char>,
) -> AdoptStateV {
    AdoptStateV { phase, expected, holds, note }
}

/// The first counter at or after `k` with a mark above 0 (a mark of 0
/// restores nothing).
pub open spec fn next_mark(h: Seq<(Seq<char>, i64)>, k: nat) -> Option<nat>
    decreases h.len() - k,
{
    if k >= h.len() {
        None
    } else if h[k as int].1 > 0 {
        Some(k)
    } else {
        next_mark(h, k + 1)
    }
}

/// Read source `i`, or, past the last, restore the generation counter.
pub open spec fn read_from(w: AdoptV, s: AdoptStateV, i: nat) -> (AdoptStateV, AdoptAction) {
    if i < w.sources.len() {
        (adopt_at(AdoptPhase::Reading(i as usize), s.expected, s.holds, s.note), AdoptAction::Read(i as usize))
    } else {
        (adopt_at(AdoptPhase::Generating, s.expected, s.holds, s.note), AdoptAction::Generation)
    }
}

/// Restore the next counter of `h` at or after `k` read from source `i`,
/// or go on to the next source.
pub open spec fn hold_from(w: AdoptV, s: AdoptStateV, i: nat, h: Seq<(Seq<char>, i64)>, k: nat) -> (
    AdoptStateV,
    AdoptAction,
) {
    match next_mark(h, k) {
        Some(j) => (adopt_at(AdoptPhase::Holding(i as usize, j as usize), s.expected, h, s.note), AdoptAction::Hold(j as usize)),
        None => read_from(w, adopt_at(s.phase, s.expected, h, s.note), i + 1),
    }
}

/// Run catalog statement `i`, or, past the last, read the first source.
pub open spec fn script_from(w: AdoptV, s: AdoptStateV, i: nat) -> (AdoptStateV, AdoptAction) {
    if i < w.script.len() {
        (adopt_at(AdoptPhase::Scripting(i as usize), s.expected, s.holds, s.note), AdoptAction::Script(i as usize))
    } else {
        read_from(w, s, 0)
    }
}

/// Refuse inside the transaction with `note`: roll back.
pub open spec fn adopt_refuse(s: AdoptStateV, note: Seq<char>) -> (AdoptStateV, AdoptAction) {
    (adopt_at(AdoptPhase::Undoing(AdoptEnd::Refused), s.expected, s.holds, note), AdoptAction::Rollback)
}

/// A store fault inside the transaction: roll back.
pub open spec fn adopt_fails(s: AdoptStateV) -> (AdoptStateV, AdoptAction) {
    (adopt_at(AdoptPhase::Undoing(AdoptEnd::Failed), s.expected, s.holds, s.note), AdoptAction::Rollback)
}

/// End without a transaction to undo.
pub open spec fn adopt_over(s: AdoptStateV, e: AdoptEnd) -> (AdoptStateV, AdoptAction) {
    (adopt_at(AdoptPhase::Over(e), s.expected, s.holds, s.note), AdoptAction::Finish(e))
}

/// The counter name of a table source.
pub open spec fn table_clock(src: SourceV) -> Seq<char> {
    match src {
        SourceV::Unit(u) => unit_clock(u),
        SourceV::Bond(u, e) => bond_clock(u, e),
        _ => "pulse"@,
    }
}

/// One step of adopting, for every reply but the read of a serial source
/// (whose counters come in no fixed order; see `adopt_moves`): take the
/// expected shape; begin; the store's shape must equal it, else drift;
/// run the catalog statements; read each source and restore each counter
/// above 0 (each restore must insert one record, else "clock restore");
/// restore the generation counter; insert the generation; rewrite the
/// schema rows; seal; commit.
pub open spec fn adopt_next(w: AdoptV, s: AdoptStateV, r: ReplyV) -> (AdoptStateV, AdoptAction) {
    match s.phase {
        AdoptPhase::Start => (adopt_at(AdoptPhase::Expecting, s.expected, s.holds, s.note), AdoptAction::Expect),
        AdoptPhase::Expecting => match r {
            ReplyV::Text(e) => (adopt_at(AdoptPhase::Begun, e, s.holds, s.note), AdoptAction::Begin),
            _ => adopt_over(s, AdoptEnd::Failed),
        },
        AdoptPhase::Begun => if r is Done {
            (adopt_at(AdoptPhase::Shaping, s.expected, s.holds, s.note), AdoptAction::Shape)
        } else {
            adopt_over(s, AdoptEnd::Failed)
        },
        AdoptPhase::Shaping => match r {
            ReplyV::Text(found) => if found == s.expected {
                script_from(w, s, 0)
            } else {
                (adopt_at(AdoptPhase::Undoing(AdoptEnd::Drifted), s.expected, s.holds, found), AdoptAction::Rollback)
            },
            _ => adopt_fails(s),
        },
        AdoptPhase::Scripting(i) => if r is Done {
            script_from(w, s, (i + 1) as nat)
        } else {
            adopt_fails(s)
        },
        AdoptPhase::Reading(i) => match r {
            ReplyV::Rows(rows) => if i < w.sources.len() && !(w.sources[i as int] is Serial) {
                match maximum_spec(rows) {
                    Err(n) => adopt_refuse(s, n),
                    Ok(h) => hold_from(w, s, i as nat, seq![(table_clock(w.sources[i as int]), h)], 0),
                }
            } else {
                adopt_fails(s)
            },
            _ => adopt_fails(s),
        },
        AdoptPhase::Holding(i, k) => match r {
            ReplyV::Count(n) => if n == 1 {
                hold_from(w, s, i as nat, s.holds, (k + 1) as nat)
            } else {
                adopt_refuse(s, "clock restore"@)
            },
            _ => adopt_fails(s),
        },
        AdoptPhase::Generating => match r {
            ReplyV::Count(n) => if n == 1 {
                (adopt_at(AdoptPhase::Inserting, s.expected, s.holds, s.note), AdoptAction::Insert)
            } else {
                adopt_refuse(s, "clock restore"@)
            },
            _ => adopt_fails(s),
        },
        AdoptPhase::Inserting => if r is Done {
            (adopt_at(AdoptPhase::Rewriting, s.expected, s.holds, s.note), AdoptAction::Rewrite)
        } else {
            adopt_fails(s)
        },
        AdoptPhase::Rewriting => if r is Done {
            (adopt_at(AdoptPhase::Sealing, s.expected, s.holds, s.note), AdoptAction::Seal)
        } else {
            adopt_fails(s)
        },
        AdoptPhase::Sealing => if r is Done {
            (adopt_at(AdoptPhase::Committing, s.expected, s.holds, s.note), AdoptAction::Commit)
        } else {
            adopt_fails(s)
        },
        AdoptPhase::Committing => if r is Done {
            adopt_over(s, AdoptEnd::Adopted)
        } else {
            adopt_over(s, AdoptEnd::Failed)
        },
        AdoptPhase::Undoing(e) => adopt_over(s, e),
        AdoptPhase::Over(e) => adopt_over(s, e),
    }
}

/// One step of adopting: as `adopt_next` states it, except that the read
/// of a serial source gives the counters its records name, each once with
/// its high-water mark (`serials_spec`), in some order.
pub open spec fn adopt_moves(w: AdoptV, s: AdoptStateV, r: ReplyV, t: AdoptStateV, a: AdoptAction) -> bool {
    match (s.phase, r) {
        (AdoptPhase::Reading(i), ReplyV::Rows(rows)) => if i < w.sources.len() && w.sources[i as int] is Serial {
            let src = w.sources[i as int];
            match serials_spec(src->Serial_unit, src->Serial_slot, rows) {
                Err(n) => (t, a) == adopt_refuse(s, n),
                Ok(m) => exists|h: Seq<(Seq<char>, i64)>|
                    unique_names(h) && marks(h) == m && (t, a) == hold_from(w, s, i as nat, h, 0),
            }
        } else {
            (t, a) == adopt_next(w, s, r)
        },
        _ => (t, a) == adopt_next(w, s, r),
    }
}

/// The contents of a list of sources.
pub open spec fn sources_view(v: Seq<Source>) -> Seq<SourceV> {
    v.map_values(|s: Source| s@)
}

fn unit_sources_into(u: &crate::plan::Unit, out: &mut Vec<Source>)
    ensures
        sources_view(final(out)@) == sources_view(old(out)@) + unit_sources(u@),
{
    let ghost was = sources_view(out@);
    let key = u.key();
    out.push(Source::Unit(key.clone()));
    let ghost head = sources_view(out@);
    assert(head =~= was + seq![SourceV::Unit(u@.name)]);
    let bs = u.bonds();
    let ghost bv = crate::plan::edges_view(bs@);
    let mut i: usize = 0;
    assert(bv.take(0) =~= Seq::<EdgeV>::empty());
    assert(head + bond_sources(u@.name, bv.take(0)) =~= head);
    while i < bs.len()
        invariant
            0 <= i <= bs@.len(),
            bv == crate::plan::edges_view(bs@),
            bv == u@.bonds,
            key@ == u@.name,
            sources_view(out@) == head + bond_sources(u@.name, bv.take(i as int)),
        decreases bs@.len() - i,
    {
        assert(bv.take(i + 1).drop_last() =~= bv.take(i as int));
        assert(bv.take(i + 1).last() == bs@[i as int]@);
        let ghost prev = sources_view(out@);
        if bs[i].kind() == crate::bond::Kind::Many2many {
            out.push(Source::Bond(key.clone(), own(bs[i].name())));
            assert(sources_view(out@) =~= prev.push(SourceV::Bond(u@.name, bs@[i as int]@.name)));
        }
        i = i + 1;
    }
    assert(bv.take(bs@.len() as int) =~= bv);
    let ghost mid = sources_view(out@);
    let fs = u.fields();
    let ghost fv = crate::plan::slots_view(fs@);
    let mut j: usize = 0;
    assert(fv.take(0) =~= Seq::<SlotV>::empty());
    assert(mid + serial_sources(u@.name, fv.take(0)) =~= mid);
    while j < fs.len()
        invariant
            0 <= j <= fs@.len(),
            fv == crate::plan::slots_view(fs@),
            fv == u@.fields,
            key@ == u@.name,
            sources_view(out@) == mid + serial_sources(u@.name, fv.take(j as int)),
        decreases fs@.len() - j,
    {
        assert(fv.take(j + 1).drop_last() =~= fv.take(j as int));
        assert(fv.take(j + 1).last() == fs@[j as int]@);
        let ghost prev = sources_view(out@);
        match fs[j].serial() {
            Some(scope) => {
                out.push(Source::Serial { unit: key.clone(), slot: own(fs[j].name()), scope: own(scope) });
                assert(sources_view(out@) =~= prev.push(
                    SourceV::Serial { unit: u@.name, slot: fs@[j as int]@.name, scope: scope@ },
                ));
            },
            None => {},
        }
        j = j + 1;
    }
    assert(fv.take(fs@.len() as int) =~= fv);
    assert(sources_view(out@) =~= was + unit_sources(u@));
}

impl Adopt {
    /// Adopting for `plan` on a store of grain `grain`, the first
    /// generation stamped at `tick`.
    pub fn new(plan: &Plan, grain: Grain, tick: i64) -> (r: Adopt)
        ensures
            r@ == (AdoptV { sources: sources_of(plan@), script: script_of(grain), tick }),
    {
        let units = plan.units();
        let ghost uv = plan@;
        let mut out: Vec<Source> = Vec::new();
        let mut i: usize = 0;
        assert(uv.take(0) =~= Seq::<UnitV>::empty());
        assert(sources_view(out@) =~= units_sources(uv.take(0)));
        while i < units.len()
            invariant
                0 <= i <= units@.len(),
                units@.map_values(|u: crate::plan::Unit| u@) == uv,
                uv == plan@,
                sources_view(out@) == units_sources(uv.take(i as int)),
            decreases units@.len() - i,
        {
            assert(uv.take(i + 1).drop_last() =~= uv.take(i as int));
            assert(uv.take(i + 1).last() == units@[i as int]@);
            unit_sources_into(&units[i], &mut out);
            i = i + 1;
        }
        assert(uv.take(units@.len() as int) =~= uv);
        let ghost all = sources_view(out@);
        out.push(Source::Pulse);
        assert(sources_view(out@) =~= sources_of(plan@));
        let sc = script(grain);
        Adopt { sources: out, script: sc, tick }
    }

    /// Source `i`.
    pub fn source(&self, i: usize) -> (r: &Source)
        requires
            i < self@.sources.len(),
        ensures
            r@ == self@.sources[i as int],
    {
        &self.sources[i]
    }

    /// Catalog statement `i`.
    pub fn statement(&self, i: usize) -> (r: &str)
        requires
            i < self@.script.len(),
        ensures
            r@ == self@.script[i as int],
    {
        self.script[i].as_str()
    }
}

fn copy_holds(v: &Vec<(String, i64)>) -> (r: Vec<(String, i64)>)
    ensures
        keys_view(r@) == keys_view(v@),
{
    let mut out: Vec<(String, i64)> = Vec::new();
    let mut i: usize = 0;
    while i < v.len()
        invariant
            0 <= i <= v@.len(),
            keys_view(out@) == keys_view(v@).take(i as int),
        decreases v@.len() - i,
    {
        let ghost was = keys_view(out@);
        out.push((v[i].0.clone(), v[i].1));
        assert(keys_view(out@) =~= was.push((v@[i as int].0@, v@[i as int].1)));
        assert(keys_view(v@).take(i + 1) =~= keys_view(v@).take(i as int).push(keys_view(v@)[i as int]));
        i = i + 1;
    }
    assert(keys_view(v@).take(v@.len() as int) =~= keys_view(v@));
    out
}

impl AdoptState {
    /// Adopting before its first step.
    pub fn start() -> (r: AdoptState)
        ensures
            r@.phase == AdoptPhase::Start,
    {
        AdoptState { phase: AdoptPhase::Start, expected: String::new(), holds: Vec::new(), note: String::new() }
    }

    /// Where adopting stands.
    pub fn phase(&self) -> (r: AdoptPhase)
        ensures
            r == self@.phase,
    {
        self.phase
    }

    /// The expected shape.
    pub fn expected(&self) -> (r: &str)
        ensures
            r@ == self@.expected,
    {
        self.expected.as_str()
    }

    /// The counters to restore from the last source read.
    pub fn holds(&self) -> (r: &[(String, i64)])
        ensures
            keys_view(r@) == self@.holds,
    {
        self.holds.as_slice()
    }

    /// The note of a refusal, or the shape found on drift.
    pub fn note(&self) -> (r: &str)
        ensures
            r@ == self@.note,
    {
        self.note.as_str()
    }

    fn moved(&self, phase: AdoptPhase) -> (r: AdoptState)
        ensures
            r@ == adopt_at(phase, self@.expected, self@.holds, self@.note),
    {
        AdoptState { phase, expected: self.expected.clone(), holds: copy_holds(&self.holds), note: self.note.clone() }
    }
}

fn read_on(work: &Adopt, at: AdoptState, i: usize) -> (r: (AdoptState, AdoptAction))
    ensures
        (r.0@, r.1) == read_from(work@, at@, i as nat),
{
    if i < work.sources.len() {
        (AdoptState { phase: AdoptPhase::Reading(i), ..at }, AdoptAction::Read(i))
    } else {
        (AdoptState { phase: AdoptPhase::Generating, ..at }, AdoptAction::Generation)
    }
}

fn hold_on(work: &Adopt, at: &AdoptState, i: usize, h: Vec<(String, i64)>, k: usize) -> (r: (AdoptState, AdoptAction))
    ensures
        (r.0@, r.1) == hold_from(work@, at@, i as nat, keys_view(h@), k as nat),
{
    let ghost hv = keys_view(h@);
    let mut j: usize = k;
    while j < h.len()
        invariant
            k <= j,
            hv == keys_view(h@),
            next_mark(hv, k as nat) == next_mark(hv, j as nat),
        decreases h@.len() - j,
    {
        assert(hv[j as int] == (h@[j as int].0@, h@[j as int].1));
        if h[j].1 > 0 {
            return (
                AdoptState { phase: AdoptPhase::Holding(i, j), expected: at.expected.clone(), holds: h, note: at.note.clone() },
                AdoptAction::Hold(j),
            );
        }
        j = j + 1;
    }
    let next = AdoptState { phase: at.phase, expected: at.expected.clone(), holds: h, note: at.note.clone() };
    if i < work.sources.len() {
        read_on(work, next, i + 1)
    } else {
        (AdoptState { phase: AdoptPhase::Generating, ..next }, AdoptAction::Generation)
    }
}

fn script_on(work: &Adopt, at: &AdoptState, i: usize) -> (r: (AdoptState, AdoptAction))
    ensures
        (r.0@, r.1) == script_from(work@, at@, i as nat),
{
    if i < work.script.len() {
        (at.moved(AdoptPhase::Scripting(i)), AdoptAction::Script(i))
    } else {
        read_on(work, at.moved(at.phase), 0)
    }
}

fn refuse_with(at: &AdoptState, note: String) -> (r: (AdoptState, AdoptAction))
    ensures
        (r.0@, r.1) == adopt_refuse(at@, note@),
{
    (
        AdoptState {
            phase: AdoptPhase::Undoing(AdoptEnd::Refused),
            expected: at.expected.clone(),
            holds: copy_holds(&at.holds),
            note,
        },
        AdoptAction::Rollback,
    )
}

fn unknown_note(e: &crate::error::Error) -> (s: String)
    ensures
        e matches crate::error::Error::Estate(crate::estate::Fault::Unknown(m)) ==> s@ == m@,
{
    match e {
        crate::error::Error::Estate(crate::estate::Fault::Unknown(m)) => m.clone(),
        _ => String::new(),
    }
}

/// One step of adopting, as `adopt_moves` states it.
pub fn adopt_step(work: &Adopt, at: &AdoptState, reply: &Reply) -> (r: (AdoptState, AdoptAction))
    ensures
        adopt_moves(work@, at@, reply@, r.0@, r.1),
{
    let done = match reply {
        Reply::Done => true,
        _ => false,
    };
    match at.phase {
        AdoptPhase::Start => (at.moved(AdoptPhase::Expecting), AdoptAction::Expect),
        AdoptPhase::Expecting => match reply {
            Reply::Text(e) => (
                AdoptState { phase: AdoptPhase::Begun, expected: e.clone(), holds: copy_holds(&at.holds), note: at.note.clone() },
                AdoptAction::Begin,
            ),
            _ => (at.moved(AdoptPhase::Over(AdoptEnd::Failed)), AdoptAction::Finish(AdoptEnd::Failed)),
        },
        AdoptPhase::Begun => if done {
            (at.moved(AdoptPhase::Shaping), AdoptAction::Shape)
        } else {
            (at.moved(AdoptPhase::Over(AdoptEnd::Failed)), AdoptAction::Finish(AdoptEnd::Failed))
        },
        AdoptPhase::Shaping => match reply {
            Reply::Text(found) => if same(found.as_str(), at.expected.as_str()) {
                script_on(work, at, 0)
            } else {
                (
                    AdoptState {
                        phase: AdoptPhase::Undoing(AdoptEnd::Drifted),
                        expected: at.expected.clone(),
                        holds: copy_holds(&at.holds),
                        note: found.clone(),
                    },
                    AdoptAction::Rollback,
                )
            },
            _ => (at.moved(AdoptPhase::Undoing(AdoptEnd::Failed)), AdoptAction::Rollback),
        },
        AdoptPhase::Scripting(i) => if done {
            if i < work.script.len() {
                script_on(work, at, i + 1)
            } else {
                read_on(work, at.moved(at.phase), 0)
            }
        } else {
            (at.moved(AdoptPhase::Undoing(AdoptEnd::Failed)), AdoptAction::Rollback)
        },
        AdoptPhase::Reading(i) => match reply {
            Reply::Rows(rows) => {
                if i >= work.sources.len() {
                    return (at.moved(AdoptPhase::Undoing(AdoptEnd::Failed)), AdoptAction::Rollback);
                }
                match &work.sources[i] {
                    Source::Serial { unit, slot, .. } => match serials(unit.as_str(), slot.as_str(), rows.as_slice()) {
                        Err(e) => refuse_with(at, unknown_note(&e)),
                        Ok(h) => {
                            let out = hold_on(work, at, i, h, 0);
                            out
                        },
                    },
                    src => {
                        let name = match src {
                            Source::Unit(u) => unit(u.as_str()),
                            Source::Bond(u, e) => bond(u.as_str(), e.as_str()),
                            _ => own("pulse"),
                        };
                        proof {
                            reveal_strlit("pulse");
                        }
                        match maximum(rows.as_slice()) {
                            Err(e) => refuse_with(at, unknown_note(&e)),
                            Ok(high) => {
                                let mut h: Vec<(String, i64)> = Vec::new();
                                h.push((name, high));
                                assert(keys_view(h@) =~= seq![(table_clock(work@.sources[i as int]), high)]);
                                hold_on(work, at, i, h, 0)
                            },
                        }
                    },
                }
            },
            _ => (at.moved(AdoptPhase::Undoing(AdoptEnd::Failed)), AdoptAction::Rollback),
        },
        AdoptPhase::Holding(i, k) => match reply {
            Reply::Count(n) => if *n == 1 {
                if k < at.holds.len() {
                    hold_on(work, at, i, copy_holds(&at.holds), k + 1)
                } else if i < work.sources.len() {
                    read_on(work, at.moved(at.phase), i + 1)
                } else {
                    (at.moved(AdoptPhase::Generating), AdoptAction::Generation)
                }
            } else {
                refuse_with(at, own("clock restore"))
            },
            _ => (at.moved(AdoptPhase::Undoing(AdoptEnd::Failed)), AdoptAction::Rollback),
        },
        AdoptPhase::Generating => match reply {
            Reply::Count(n) => if *n == 1 {
                (at.moved(AdoptPhase::Inserting), AdoptAction::Insert)
            } else {
                refuse_with(at, own("clock restore"))
            },
            _ => (at.moved(AdoptPhase::Undoing(AdoptEnd::Failed)), AdoptAction::Rollback),
        },
        AdoptPhase::Inserting => if done {
            (at.moved(AdoptPhase::Rewriting), AdoptAction::Rewrite)
        } else {
            (at.moved(AdoptPhase::Undoing(AdoptEnd::Failed)), AdoptAction::Rollback)
        },
        AdoptPhase::Rewriting => if done {
            (at.moved(AdoptPhase::Sealing), AdoptAction::Seal)
        } else {
            (at.moved(AdoptPhase::Undoing(AdoptEnd::Failed)), AdoptAction::Rollback)
        },
        AdoptPhase::Sealing => if done {
            (at.moved(AdoptPhase::Committing), AdoptAction::Commit)
        } else {
            (at.moved(AdoptPhase::Undoing(AdoptEnd::Failed)), AdoptAction::Rollback)
        },
        AdoptPhase::Committing => if done {
            (at.moved(AdoptPhase::Over(AdoptEnd::Adopted)), AdoptAction::Finish(AdoptEnd::Adopted))
        } else {
            (at.moved(AdoptPhase::Over(AdoptEnd::Failed)), AdoptAction::Finish(AdoptEnd::Failed))
        },
        AdoptPhase::Undoing(e) => (at.moved(AdoptPhase::Over(e)), AdoptAction::Finish(e)),
        AdoptPhase::Over(e) => (at.moved(AdoptPhase::Over(e)), AdoptAction::Finish(e)),
    }
}

/// Adoption goes on only on an exact match: a store whose shape differs
/// from the expected layout rolls back as drifted, before any catalog
/// statement runs; an equal shape goes on to the catalog.
pub proof fn lemma_adopt_exact(w: AdoptV, s: AdoptStateV, found: Seq<char>)
    requires
        s.phase is Shaping,
    ensures
        found != s.expected ==> adopt_next(w, s, ReplyV::Text(found)) == (
            adopt_at(AdoptPhase::Undoing(AdoptEnd::Drifted), s.expected, s.holds, found),
            AdoptAction::Rollback,
        ),
        found == s.expected ==> !(adopt_next(w, s, ReplyV::Text(found)).0.phase is Undoing),
{
}

/// Every counter read with a mark above 0 is restored, in the order read:
/// restoring goes to the first such counter at or after the one done.
pub proof fn lemma_adopt_restores(w: AdoptV, s: AdoptStateV, i: nat, h: Seq<(Seq<char>, i64)>, k: nat)
    requires
        k < h.len(),
        h[k as int].1 > 0,
        k <= usize::MAX,
        i <= usize::MAX,
    ensures
        hold_from(w, s, i, h, k).1 == AdoptAction::Hold(k as usize),
{
}

} // verus!
