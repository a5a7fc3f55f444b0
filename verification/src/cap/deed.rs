//! Deeds: stored grants, and whether one holds for a request. What needs
//! the store (whether a group row is alive and ties the caller) is asked
//! of the caller of these functions.
use vstd::prelude::*;
use crate::cap::{Mark, Plea};
use crate::cap::chain::{Hop, descend, descends, suits_spec};
use crate::cap::shape::cell;
use crate::face::Who;
use crate::life::{CellV, Row, cells_view, distinct, lookup, text_of};
use crate::plan::{Plan, UnitV, crewed, edge_where, unit_of};
use crate::text::{chars_of, int_from, int_in, int_of, own, same, split_at_first, split_once, strip, strip_lead, string_of};

verus! {

/// A stored grant row.
pub struct Deed<'a>(pub &'a Row);

/// The text of cell `name` of a grant row, or empty text.
pub open spec fn deed_text(row: Row, name: Seq<char>) -> Seq<char> {
    match lookup(row.cells_of(), name) {
        Some(c) => text_of(c),
        None => Seq::empty(),
    }
}

/// The unit a grant is anchored at: `*` for any unit, the unit's name when
/// the plan knows it, else the text as written.
pub open spec fn anchor_spec(p: Seq<UnitV>, place: Seq<char>) -> Seq<char> {
    if place == "*"@ {
        place
    } else {
        match unit_of(p, place) {
            Some(u) => u.name,
            None => place,
        }
    }
}

/// Whether grantee text `who` names caller `w` outright: `anon` names
/// everyone, `all` every operator, an id that operator.
pub open spec fn names_spec(who: Seq<char>, w: Who) -> bool {
    if who == "anon"@ {
        true
    } else if who == "all"@ {
        w is Op
    } else {
        match w {
            Who::Op(op) => int_of(who) == Some(op as int),
            _ => false,
        }
    }
}

/// Whether a grant verb covers `verb`.
pub open spec fn does_spec(deed: Seq<char>, verb: Seq<char>) -> bool {
    deed == "*"@ || deed == verb
}

/// What settling whether a grant bears on a caller needs.
pub enum Bear {
    /// Settled without the store.
    Held(bool),
    /// Settled by the store: the grant bears when row `id` of unit `unit`
    /// is alive and one of its ties on `bond` reaches operator `op`.
    Probe { unit: String, bond: String, id: i64, op: i64 },
}

/// Whether a grant's grantee text bears on caller `w`, or what to ask the
/// store.
pub open spec fn bear_spec(p: Seq<UnitV>, who: Seq<char>, w: Who) -> Option<bool> {
    if names_spec(who, w) {
        Some(true)
    } else if !(w is Op) {
        Some(false)
    } else {
        match split_at_first(who, ' ') {
            None => Some(false),
            Some((place, id)) => if int_of(id) is None {
                Some(false)
            } else {
                match unit_of(p, place) {
                    None => Some(false),
                    Some(u) => if edge_where(u, crewed()) is None {
                        Some(false)
                    } else {
                        None
                    },
                }
            },
        }
    }
}

/// The probe the store must settle for grantee text `text` and caller
/// `w`: the operator, the group unit's name, its member bond, and the
/// group row's id.
pub open spec fn probe_fits(p: Seq<UnitV>, text: Seq<char>, w: Who, unit: Seq<char>, bond: Seq<char>, id: i64, op: i64) -> bool {
    &&& w == Who::Op(op)
    &&& match split_at_first(text, ' ') {
        Some((place, idt)) => int_of(idt) == Some(id as int) && match unit_of(p, place) {
            Some(u) => unit == u.name && match edge_where(u, crewed()) {
                Some(e) => bond == e.name,
                None => false,
            },
            None => false,
        },
        None => false,
    }
}

impl<'a> Deed<'a> {
    /// The grantee text.
    pub fn who(&self) -> (r: &'a str)
        requires
            self.0.wf(),
        ensures
            r@ == deed_text(*self.0, "who"@),
    {
        cell(self.0, "who")
    }

    /// The verb granted.
    pub fn verb(&self) -> (r: &'a str)
        requires
            self.0.wf(),
        ensures
            r@ == deed_text(*self.0, "verb"@),
    {
        cell(self.0, "verb")
    }

    /// The unit granted on, as written.
    pub fn place(&self) -> (r: &'a str)
        requires
            self.0.wf(),
        ensures
            r@ == deed_text(*self.0, "unit"@),
    {
        cell(self.0, "unit")
    }

    /// The scope granted.
    pub fn span(&self) -> (r: &'a str)
        requires
            self.0.wf(),
        ensures
            r@ == deed_text(*self.0, "scope"@),
    {
        cell(self.0, "scope")
    }

    /// The unit the grant is anchored at.
    pub fn anchor(&self, plan: &Plan) -> (r: String)
        requires
            self.0.wf(),
        ensures
            r@ == anchor_spec(plan@, deed_text(*self.0, "unit"@)),
    {
        let place = self.place();
        if same(place, "*") {
            return own(place);
        }
        match plan.find(place) {
            Ok(unit) => unit.key(),
            Err(_) => own(place),
        }
    }

    /// Whether the grant covers `verb`.
    pub fn does(&self, verb: &str) -> (r: bool)
        requires
            self.0.wf(),
        ensures
            r == does_spec(deed_text(*self.0, "verb"@), verb@),
    {
        let deed = self.verb();
        same(deed, "*") || same(deed, verb)
    }

    /// Whether the grant names caller `who` outright.
    pub fn names(&self, who: Who) -> (r: bool)
        requires
            self.0.wf(),
        ensures
            r == names_spec(deed_text(*self.0, "who"@), who),
    {
        let text = self.who();
        if same(text, "anon") {
            true
        } else if same(text, "all") {
            match who {
                Who::Op(_) => true,
                _ => false,
            }
        } else {
            match who {
                Who::Op(op) => match int_in(text) {
                    Some(n) => n == op,
                    None => false,
                },
                _ => false,
            }
        }
    }

    /// Whether the grant bears on caller `who`, or what the store must
    /// settle.
    pub fn bearer(&self, plan: &Plan, who: Who) -> (r: Bear)
        requires
            self.0.wf(),
        ensures
            match bear_spec(plan@, deed_text(*self.0, "who"@), who) {
                Some(b) => r == Bear::Held(b),
                None => r matches Bear::Probe { unit, bond, id, op }
                    && probe_fits(plan@, deed_text(*self.0, "who"@), who, unit@, bond@, id, op),
            },
    {
        if self.names(who) {
            return Bear::Held(true);
        }
        let op = match who {
            Who::Op(op) => op,
            _ => return Bear::Held(false),
        };
        let text = self.who();
        let cs = chars_of(text);
        let (place, id) = match split_once(cs.as_slice(), ' ') {
            Some(parts) => parts,
            None => return Bear::Held(false),
        };
        let id = match int_from(id.as_slice()) {
            Some(v) => v,
            None => return Bear::Held(false),
        };
        let name = string_of(place.as_slice());
        let node = match plan.find(name.as_str()) {
            Ok(n) => n,
            Err(_) => return Bear::Held(false),
        };
        match node.crew() {
            Some(edge) => Bear::Probe { unit: node.key(), bond: own(edge.name()), id, op },
            None => Bear::Held(false),
        }
    }
}

/// A request as a grant is weighed against it: the plea, the anchors of
/// the row, and the row as it is held.
pub struct Case<'a> {
    pub plea: &'a Plea<'a>,
    pub chain: &'a [Hop],
    pub held: &'a Mark<'a>,
}

/// Some hop of `chain` is row `id` of unit `anchor`.
pub open spec fn hops_to(chain: Seq<Hop>, anchor: Seq<char>, id: int) -> bool {
    exists|i: int| 0 <= i < chain.len() && #[trigger] chain[i].unit@ == anchor && chain[i].key == id
}

/// Whether a grant holds for a request, given whether it bears on the
/// caller: it must cover the verb; then `all` holds on its unit (or on any
/// unit), `row <id>` holds when the row hangs from that row, and
/// `pred <where>` holds when the row meets it on its own unit, or, for
/// reading, when an anchor of the grant's unit does.
pub open spec fn held_spec(
    p: Seq<UnitV>,
    row: Row,
    who: Who,
    verb: Seq<char>,
    unit: Seq<char>,
    chain: Seq<Hop>,
    key: Option<i64>,
    cells: Seq<(Seq<char>, CellV)>,
    bears: bool,
) -> bool {
    let span = deed_text(row, "scope"@);
    let anchor = anchor_spec(p, deed_text(row, "unit"@));
    if !bears || !does_spec(deed_text(row, "verb"@), verb) {
        false
    } else if span == "all"@ {
        anchor == "*"@ || anchor == unit
    } else {
        match strip(span, "row "@) {
            Some(id) => match int_of(id) {
                Some(n) => hops_to(chain, anchor, n),
                None => false,
            },
            None => match strip(span, "pred "@) {
                None => false,
                Some(pred) => if anchor == unit {
                    suits_spec(key, cells, unit, pred, who)
                } else if verb != "see"@ {
                    false
                } else {
                    descends(anchor, pred, who, chain)
                },
            },
        }
    }
}

/// Whether some hop is row `id` of `anchor`.
fn hops(chain: &[Hop], anchor: &str, id: i64) -> (r: bool)
    ensures
        r == hops_to(chain@, anchor@, id as int),
{
    let mut i: usize = 0;
    while i < chain.len()
        invariant
            i <= chain@.len(),
            forall|j: int| 0 <= j < i ==> !(#[trigger] chain@[j].unit@ == anchor@ && chain@[j].key == id),
        decreases chain@.len() - i,
    {
        if same(chain[i].unit.as_str(), anchor) && chain[i].key == id {
            return true;
        }
        i = i + 1;
    }
    false
}

impl<'a> Deed<'a> {
    /// Whether the grant holds for the request in `case`, given whether
    /// it bears on the caller.
    pub fn held(&self, plan: &Plan, case: &Case, bears: bool) -> (r: bool)
        requires
            self.0.wf(),
            distinct(cells_view(case.held.cells@)),
            forall|i: int| 0 <= i < case.chain@.len() ==> (#[trigger] case.chain@[i].row matches Some(row) ==> row.wf()),
        ensures
            r == held_spec(
                plan@,
                *self.0,
                case.plea.who,
                case.plea.verb@,
                case.plea.unit@,
                case.chain@,
                case.held.key,
                cells_view(case.held.cells@),
                bears,
            ),
    {
        let plea = case.plea;
        if !bears || !self.does(plea.verb) {
            return false;
        }
        let span = self.span();
        let anchor = self.anchor(plan);
        if same(span, "all") {
            return same(anchor.as_str(), "*") || same(anchor.as_str(), plea.unit);
        }
        match strip_lead(span, "row ") {
            Some(id) => {
                return match int_in(id.as_str()) {
                    Some(n) => hops(case.chain, anchor.as_str(), n),
                    None => false,
                };
            },
            None => {},
        }
        let pred = match strip_lead(span, "pred ") {
            Some(p) => p,
            None => return false,
        };
        if same(anchor.as_str(), plea.unit) {
            return case.held.suits(plea.unit, pred.as_str(), plea.who);
        }
        if !same(plea.verb, "see") {
            return false;
        }
        descend(anchor.as_str(), pred.as_str(), plea.who, case.chain)
    }
}

/// The grant rows are well formed.
pub open spec fn rows_wf(deeds: Seq<Row>) -> bool {
    forall|i: int| 0 <= i < deeds.len() ==> #[trigger] deeds[i].wf()
}

/// The grant's scope is `all`.
pub open spec fn spans_all(row: Row) -> bool {
    deed_text(row, "scope"@) == "all"@
}

/// Where weighing a request stands after the grants scoped `all`.
pub enum Verdict {
    /// A grant scoped `all` holds.
    Held,
    /// No grant holds, and no grant is scoped otherwise.
    Refused,
    /// The row's anchors are needed to weigh the other grants.
    Climb,
}

/// Weighs the grants scoped `all` for a request held as `held`, with no
/// anchors; `bears[i]` says whether grant `i` bears on the caller.
pub fn settle_all(plan: &Plan, deeds: &[Row], plea: &Plea, held: &Mark, bears: &[bool]) -> (r: Verdict)
    requires
        rows_wf(deeds@),
        bears@.len() == deeds@.len(),
        distinct(cells_view(held.cells@)),
    ensures
        match r {
            Verdict::Held => exists|i: int| 0 <= i < deeds@.len() && spans_all(#[trigger] deeds@[i]) && held_spec(
                plan@, deeds@[i], plea.who, plea.verb@, plea.unit@, Seq::empty(), held.key, cells_view(held.cells@), bears@[i]),
            Verdict::Refused => forall|i: int| 0 <= i < deeds@.len() ==> spans_all(#[trigger] deeds@[i]) && !held_spec(
                plan@, deeds@[i], plea.who, plea.verb@, plea.unit@, Seq::empty(), held.key, cells_view(held.cells@), bears@[i]),
            Verdict::Climb => (forall|i: int| 0 <= i < deeds@.len() && spans_all(#[trigger] deeds@[i]) ==> !held_spec(
                plan@, deeds@[i], plea.who, plea.verb@, plea.unit@, Seq::empty(), held.key, cells_view(held.cells@), bears@[i]))
                && exists|i: int| 0 <= i < deeds@.len() && !spans_all(#[trigger] deeds@[i]),
        },
{
    let none: Vec<Hop> = Vec::new();
    let case = Case { plea, chain: none.as_slice(), held };
    let mut rest = false;
    let mut i: usize = 0;
    assert(none@ =~= Seq::<Hop>::empty());
    while i < deeds.len()
        invariant
            i <= deeds@.len(),
            rows_wf(deeds@),
            bears@.len() == deeds@.len(),
            distinct(cells_view(held.cells@)),
            case.plea == plea,
            case.held == held,
            case.chain@ == Seq::<Hop>::empty(),
            forall|j: int| 0 <= j < i && spans_all(#[trigger] deeds@[j]) ==> !held_spec(
                plan@, deeds@[j], plea.who, plea.verb@, plea.unit@, Seq::empty(), held.key, cells_view(held.cells@), bears@[j]),
            rest <==> exists|j: int| 0 <= j < i && !spans_all(#[trigger] deeds@[j]),
        decreases deeds@.len() - i,
    {
        let d = Deed(&deeds[i]);
        assert(deeds@[i as int].wf());
        if !same(d.span(), "all") {
            rest = true;
        } else if d.held(plan, &case, bears[i]) {
            return Verdict::Held;
        }
        i = i + 1;
    }
    if rest {
        Verdict::Climb
    } else {
        Verdict::Refused
    }
}

/// Weighs the grants not scoped `all` for the request in `case`.
pub fn settle_rest(plan: &Plan, deeds: &[Row], case: &Case, bears: &[bool]) -> (r: bool)
    requires
        rows_wf(deeds@),
        bears@.len() == deeds@.len(),
        distinct(cells_view(case.held.cells@)),
        forall|i: int| 0 <= i < case.chain@.len() ==> (#[trigger] case.chain@[i].row matches Some(row) ==> row.wf()),
    ensures
        r == exists|i: int| 0 <= i < deeds@.len() && !spans_all(#[trigger] deeds@[i]) && held_spec(
            plan@, deeds@[i], case.plea.who, case.plea.verb@, case.plea.unit@, case.chain@, case.held.key,
            cells_view(case.held.cells@), bears@[i]),
{
    let mut i: usize = 0;
    while i < deeds.len()
        invariant
            i <= deeds@.len(),
            rows_wf(deeds@),
            bears@.len() == deeds@.len(),
            distinct(cells_view(case.held.cells@)),
            forall|k: int| 0 <= k < case.chain@.len() ==> (#[trigger] case.chain@[k].row matches Some(row) ==> row.wf()),
            forall|j: int| 0 <= j < i && !spans_all(#[trigger] deeds@[j]) ==> !held_spec(
                plan@, deeds@[j], case.plea.who, case.plea.verb@, case.plea.unit@, case.chain@, case.held.key,
                cells_view(case.held.cells@), bears@[j]),
        decreases deeds@.len() - i,
    {
        let d = Deed(&deeds[i]);
        assert(deeds@[i as int].wf());
        if !same(d.span(), "all") && d.held(plan, case, bears[i]) {
            return true;
        }
        i = i + 1;
    }
    false
}

/// Whether some grant scoped `all` that bears on the caller covers `verb`
/// on the whole of `unit` (or on any unit).
pub open spec fn broad_spec(p: Seq<UnitV>, row: Row, verb: Seq<char>, unit: Seq<char>, bears: bool) -> bool {
    let anchor = anchor_spec(p, deed_text(row, "unit"@));
    bears && does_spec(deed_text(row, "verb"@), verb) && (anchor == "*"@ || anchor == unit) && spans_all(row)
}

/// Whether some grant covers `verb` on every row of `unit`.
pub fn broad(plan: &Plan, deeds: &[Row], verb: &str, unit: &str, bears: &[bool]) -> (r: bool)
    requires
        rows_wf(deeds@),
        bears@.len() == deeds@.len(),
    ensures
        r == exists|i: int| 0 <= i < deeds@.len() && broad_spec(plan@, #[trigger] deeds@[i], verb@, unit@, bears@[i]),
{
    let mut i: usize = 0;
    while i < deeds.len()
        invariant
            i <= deeds@.len(),
            rows_wf(deeds@),
            bears@.len() == deeds@.len(),
            forall|j: int| 0 <= j < i ==> !broad_spec(plan@, #[trigger] deeds@[j], verb@, unit@, bears@[j]),
        decreases deeds@.len() - i,
    {
        let d = Deed(&deeds[i]);
        assert(deeds@[i as int].wf());
        if bears[i] && d.does(verb) {
            let anchor = d.anchor(plan);
            let wide = same(anchor.as_str(), "*") || same(anchor.as_str(), unit);
            if wide && same(d.span(), "all") {
                return true;
            }
        }
        i = i + 1;
    }
    false
}

/// Some grant holds `verb` for the request, with its anchors.
pub open spec fn verb_held(
    p: Seq<UnitV>,
    deeds: Seq<Row>,
    who: Who,
    verb: Seq<char>,
    unit: Seq<char>,
    chain: Seq<Hop>,
    key: Option<i64>,
    cells: Seq<(Seq<char>, CellV)>,
    bears: Seq<bool>,
) -> bool {
    exists|i: int| 0 <= i < deeds.len() && held_spec(p, #[trigger] deeds[i], who, verb, unit, chain, key, cells, bears[i])
}

/// Whether the grants hold every verb for the request, with the row's
/// anchors `chain`.
pub fn spans(plan: &Plan, deeds: &[Row], plea: &Plea, chain: &[Hop], bears: &[bool]) -> (r: bool)
    requires
        rows_wf(deeds@),
        bears@.len() == deeds@.len(),
        distinct(cells_view(plea.mark.cells@)),
        forall|i: int| 0 <= i < chain@.len() ==> (#[trigger] chain@[i].row matches Some(row) ==> row.wf()),
    ensures
        r == forall|v: int| 0 <= v < crate::cap::verbs().len() ==> verb_held(
            plan@, deeds@, plea.who, #[trigger] crate::cap::verbs()[v], plea.unit@, chain@, plea.mark.key,
            cells_view(plea.mark.cells@), bears@),
{
    let list = crate::cap::verb_list();
    let mut k: usize = 0;
    while k < list.len()
        invariant
            k <= list@.len(),
            list@.map_values(|v: &str| v@) == crate::cap::verbs(),
            rows_wf(deeds@),
            bears@.len() == deeds@.len(),
            distinct(cells_view(plea.mark.cells@)),
            forall|i: int| 0 <= i < chain@.len() ==> (#[trigger] chain@[i].row matches Some(row) ==> row.wf()),
            forall|v: int| 0 <= v < k ==> verb_held(
                plan@, deeds@, plea.who, #[trigger] crate::cap::verbs()[v], plea.unit@, chain@, plea.mark.key,
                cells_view(plea.mark.cells@), bears@),
        decreases list@.len() - k,
    {
        let verb = list[k];
        assert(crate::cap::verbs()[k as int] == verb@);
        let seen = Plea { who: plea.who, verb, unit: plea.unit, mark: plea.mark };
        let case = Case { plea: &seen, chain, held: plea.mark };
        let mut held = false;
        let mut i: usize = 0;
        while i < deeds.len() && !held
            invariant
                i <= deeds@.len(),
                rows_wf(deeds@),
                bears@.len() == deeds@.len(),
                distinct(cells_view(case.held.cells@)),
                case.held == plea.mark,
                case.chain@ == chain@,
                case.plea.who == plea.who,
                case.plea.verb@ == verb@,
                case.plea.unit@ == plea.unit@,
                forall|q: int| 0 <= q < chain@.len() ==> (#[trigger] chain@[q].row matches Some(row) ==> row.wf()),
                held ==> verb_held(plan@, deeds@, plea.who, verb@, plea.unit@, chain@, plea.mark.key,
                    cells_view(plea.mark.cells@), bears@),
                !held ==> forall|j: int| 0 <= j < i ==> !held_spec(plan@, #[trigger] deeds@[j], plea.who, verb@,
                    plea.unit@, chain@, plea.mark.key, cells_view(plea.mark.cells@), bears@[j]),
            decreases deeds@.len() - i,
        {
            assert(deeds@[i as int].wf());
            if Deed(&deeds[i]).held(plan, &case, bears[i]) {
                held = true;
            }
            i = i + 1;
        }
        if !held {
            return false;
        }
        k = k + 1;
    }
    true
}

/// A grant to `anon` names every caller; a grant to `all` names every
/// operator and no other caller.
pub proof fn lemma_names_broad(w: Who)
    ensures
        names_spec("anon"@, w),
        names_spec("all"@, w) <==> w is Op,
{
    reveal_strlit("anon");
    reveal_strlit("all");
    assert("all"@.len() != "anon"@.len());
}

/// A grant whose grantee is the decimal id of operator `n` names operator
/// `n` and no other operator, and names no caller that is not an operator;
/// it bears on operator `m` exactly when `m` is `n`, with nothing for the
/// store to settle.
pub proof fn lemma_names_operator(p: Seq<UnitV>, n: i64, w: Who, m: i64)
    ensures
        names_spec(crate::text::decimal(n as int), w) <==> w == Who::Op(n),
        bear_spec(p, crate::text::decimal(n as int), Who::Op(m)) == Some(m == n),
{
    crate::text::lemma_int_of_decimal(n);
    let t = crate::text::decimal(n as int);
    reveal_strlit("anon");
    reveal_strlit("all");
    if n < 0 {
        assert(t[0] == '-');
        assert(t != "anon"@);
        assert(t != "all"@);
    } else {
        crate::text::lemma_digits_shape(n as nat);
        assert(crate::text::is_digit(t[0]));
        assert(t[0] != 'a');
        assert("anon"@[0] == 'a');
        assert("all"@[0] == 'a');
    }
    assert forall|i: int| 0 <= i < t.len() implies t[i] != ' ' by {
        if n < 0 {
            crate::text::lemma_digits_shape((-(n as int)) as nat);
            if i > 0 {
                assert(t[i] == crate::text::digits((-(n as int)) as nat)[i - 1]);
            }
        } else {
            assert(crate::text::is_digit(t[i]));
        }
    }
    assert(crate::text::split_at_first(t, ' ') is None);
}

} // verus!
