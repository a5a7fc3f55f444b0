//! The answer cache: query answers kept by key, each stamped with the
//! generations of the units it read, and good until one of them moves or
//! the earliest expiry in it passes.
use vstd::prelude::*;
use crate::face::{horizon, is_horizon};
use crate::plan::{first_where, lemma_first_at, lemma_first_some};
use crate::query::{Pack, texts};
use crate::life::Row;
use crate::text::{chars_of, own, same, split_at_first, split_once, string_of};

verus! {

/// Most answers kept at once; keeping one more clears them all first.
pub const HOLD: usize = 1024;

/// The pair is keyed by `k`.
pub open spec fn key_is<V>(k: Seq<char>) -> spec_fn((Seq<char>, V)) -> bool {
    |x: (Seq<char>, V)| x.0 == k
}

/// The generation counters, by name.
pub open spec fn gens_view(g: Seq<(String, i64)>) -> Seq<(Seq<char>, i64)> {
    g.map_values(|e: (String, i64)| (e.0@, e.1))
}

/// No key occurs twice.
pub open spec fn keys_distinct<V>(s: Seq<(Seq<char>, V)>) -> bool {
    forall|i: int, j: int| 0 <= i < j < s.len() ==> s[i].0 != s[j].0
}

/// The generation of unit `u`: zero until it is first bumped.
pub open spec fn gen_of(g: Seq<(Seq<char>, i64)>, u: Seq<char>) -> i64 {
    match first_where(g, key_is::<i64>(u)) {
        Some(i) => g[i].1,
        None => 0,
    }
}

/// The unit a name belongs to: the text before its first dot.
pub open spec fn owner_of(unit: Seq<char>) -> Seq<char> {
    match split_at_first(unit, '.') {
        Some((a, _)) => a,
        None => unit,
    }
}

/// The generations of `units`, in order.
pub open spec fn stamp_of(g: Seq<(Seq<char>, i64)>, units: Seq<Seq<char>>) -> Seq<(Seq<char>, i64)> {
    units.map_values(|u: Seq<char>| (u, gen_of(g, u)))
}

/// A kept answer: the generations it was stamped with, the time it is
/// good until, and the answer.
pub struct Deal {
    gens: Vec<(String, i64)>,
    until: Option<i64>,
    pack: Pack,
}

/// The content of a kept answer.
pub struct DealV {
    pub gens: Seq<(Seq<char>, i64)>,
    pub until: Option<i64>,
    pub pack: Pack,
}

impl View for Deal {
    type V = DealV;

    closed spec fn view(&self) -> DealV {
        DealV { gens: gens_view(self.gens@), until: self.until, pack: self.pack }
    }
}

/// The contents of the kept answers.
pub open spec fn deals_view(d: Seq<(String, Deal)>) -> Seq<(Seq<char>, DealV)> {
    d.map_values(|e: (String, Deal)| (e.0@, e.1@))
}

/// The answer kept under `key`, if any.
pub open spec fn deal_of(d: Seq<(Seq<char>, DealV)>, key: Seq<char>) -> Option<DealV> {
    match first_where(d, key_is::<DealV>(key)) {
        Some(i) => Some(d[i].1),
        None => None,
    }
}

/// What reading `key` for `units` at time `now` gives: the kept answer,
/// when caching is on, the answer's stamp matches the units' generations,
/// and its expiry has not come.
pub open spec fn read_spec(
    on: bool,
    g: Seq<(Seq<char>, i64)>,
    d: Seq<(Seq<char>, DealV)>,
    key: Seq<char>,
    units: Seq<Seq<char>>,
    now: i64,
) -> Option<Pack> {
    if !on {
        None
    } else {
        match deal_of(d, key) {
            None => None,
            Some(deal) => if deal.gens != stamp_of(g, units) {
                None
            } else if deal.until matches Some(u) && now >= u {
                None
            } else {
                Some(deal.pack)
            },
        }
    }
}

/// The answer cache.
pub struct Stash {
    on: bool,
    gens: Vec<(String, i64)>,
    deals: Vec<(String, Deal)>,
}

impl Stash {
    /// Whether caching is on.
    pub closed spec fn live(&self) -> bool {
        self.on
    }

    /// The generation counters.
    pub closed spec fn counters(&self) -> Seq<(Seq<char>, i64)> {
        gens_view(self.gens@)
    }

    /// The kept answers.
    pub closed spec fn kept(&self) -> Seq<(Seq<char>, DealV)> {
        deals_view(self.deals@)
    }

    /// Counters and answers are each kept once per key.
    pub open spec fn wf(&self) -> bool {
        keys_distinct(self.counters()) && keys_distinct(self.kept())
    }
}

/// `g` with the counter of `o` one higher (starting from zero).
pub open spec fn bumped(g: Seq<(Seq<char>, i64)>, o: Seq<char>) -> Seq<(Seq<char>, i64)> {
    match first_where(g, key_is::<i64>(o)) {
        Some(i) => g.update(i, (o, (g[i].1 + 1) as i64)),
        None => g.push((o, 1)),
    }
}

/// `d` with `key` set to `v`, in place or added last.
pub open spec fn put_deal(d: Seq<(Seq<char>, DealV)>, key: Seq<char>, v: DealV) -> Seq<(Seq<char>, DealV)> {
    match first_where(d, key_is::<DealV>(key)) {
        Some(i) => d.update(i, (key, v)),
        None => d.push((key, v)),
    }
}

/// The unit a name belongs to.
pub fn owner(unit: &str) -> (r: String)
    ensures
        r@ == owner_of(unit@),
{
    let cs = chars_of(unit);
    match split_once(cs.as_slice(), '.') {
        Some((a, _)) => string_of(a.as_slice()),
        None => own(unit),
    }
}

/// Where the counter of `u` stands.
fn gen_seat(gens: &Vec<(String, i64)>, u: &str) -> (r: Option<usize>)
    ensures
        match r {
            Some(k) => first_where(gens_view(gens@), key_is::<i64>(u@)) == Some(k as int) && k < gens@.len(),
            None => first_where(gens_view(gens@), key_is::<i64>(u@)) is None,
        },
{
    let ghost gv = gens_view(gens@);
    let mut i: usize = 0;
    while i < gens.len()
        invariant
            i <= gens@.len(),
            gv == gens_view(gens@),
            forall|j: int| 0 <= j < i ==> !key_is::<i64>(u@)(#[trigger] gv[j]),
        decreases gens@.len() - i,
    {
        assert(gv[i as int] == (gens@[i as int].0@, gens@[i as int].1));
        if same(gens[i].0.as_str(), u) {
            proof {
                lemma_first_at(gv, key_is::<i64>(u@), i as int);
            }
            return Some(i);
        }
        i = i + 1;
    }
    proof {
        if first_where(gv, key_is::<i64>(u@)) is Some {
            let c = first_where(gv, key_is::<i64>(u@))->0;
            assert(key_is::<i64>(u@)(gv[c]));
        }
    }
    None
}

/// Where the answer kept under `key` stands.
fn deal_seat(deals: &Vec<(String, Deal)>, key: &str) -> (r: Option<usize>)
    ensures
        match r {
            Some(k) => first_where(deals_view(deals@), key_is::<DealV>(key@)) == Some(k as int) && k < deals@.len(),
            None => first_where(deals_view(deals@), key_is::<DealV>(key@)) is None,
        },
{
    let ghost dv = deals_view(deals@);
    let mut i: usize = 0;
    while i < deals.len()
        invariant
            i <= deals@.len(),
            dv == deals_view(deals@),
            forall|j: int| 0 <= j < i ==> !key_is::<DealV>(key@)(#[trigger] dv[j]),
        decreases deals@.len() - i,
    {
        assert(dv[i as int] == (deals@[i as int].0@, deals@[i as int].1@));
        if same(deals[i].0.as_str(), key) {
            proof {
                lemma_first_at(dv, key_is::<DealV>(key@), i as int);
            }
            return Some(i);
        }
        i = i + 1;
    }
    proof {
        if first_where(dv, key_is::<DealV>(key@)) is Some {
            let c = first_where(dv, key_is::<DealV>(key@))->0;
            assert(key_is::<DealV>(key@)(dv[c]));
        }
    }
    None
}

impl Stash {
    /// An empty cache, on or off.
    pub fn new(on: bool) -> (r: Stash)
        ensures
            r.live() == on,
            r.counters() == Seq::<(Seq<char>, i64)>::empty(),
            r.kept() == Seq::<(Seq<char>, DealV)>::empty(),
            r.wf(),
    {
        let r = Stash { on, gens: Vec::new(), deals: Vec::new() };
        assert(r.counters() =~= Seq::<(Seq<char>, i64)>::empty());
        assert(r.kept() =~= Seq::<(Seq<char>, DealV)>::empty());
        r
    }

    /// The generation of unit `unit`.
    pub fn step(&self, unit: &str) -> (r: i64)
        ensures
            r == gen_of(self.counters(), unit@),
    {
        match gen_seat(&self.gens, unit) {
            Some(i) => {
                assert(self.counters()[i as int] == (self.gens@[i as int].0@, self.gens@[i as int].1));
                self.gens[i].1
            },
            None => 0,
        }
    }

    /// Moves the generation of the unit `unit` belongs to.
    pub fn bump(&mut self, unit: &str)
        requires
            old(self).wf(),
            gen_of(old(self).counters(), owner_of(unit@)) < i64::MAX,
        ensures
            final(self).wf(),
            final(self).live() == old(self).live(),
            final(self).kept() == old(self).kept(),
            final(self).counters() == bumped(old(self).counters(), owner_of(unit@)),
    {
        let o = owner(unit);
        let ghost g = self.counters();
        match gen_seat(&self.gens, o.as_str()) {
            Some(i) => {
                assert(g[i as int] == (self.gens@[i as int].0@, self.gens@[i as int].1));
                let n = self.gens[i].1 + 1;
                self.gens.set(i, (o, n));
                proof {
                    assert(self.counters() =~= g.update(i as int, (o@, n)));
                    assert forall|a: int, b: int| 0 <= a < b < self.counters().len() implies self.counters()[a].0 != self.counters()[b].0 by {
                        if a == i {
                            assert(g[i as int].0 == o@);
                        }
                        if b == i {
                            assert(g[i as int].0 == o@);
                        }
                    }
                }
            },
            None => {
                self.gens.push((o, 1));
                proof {
                    assert(self.counters() =~= g.push((o@, 1)));
                    assert forall|a: int, b: int| 0 <= a < b < self.counters().len() implies self.counters()[a].0 != self.counters()[b].0 by {
                        if b == g.len() {
                            if g[a].0 == o@ {
                                lemma_first_some(g, key_is::<i64>(o@), a);
                            }
                        }
                    }
                }
            },
        }
    }

    /// The generations of `units`, in order.
    pub fn stamp(&self, units: &[String]) -> (r: Vec<(String, i64)>)
        ensures
            gens_view(r@) == stamp_of(self.counters(), texts(units@)),
    {
        let ghost uv = texts(units@);
        let mut out: Vec<(String, i64)> = Vec::new();
        let mut i: usize = 0;
        while i < units.len()
            invariant
                i <= units@.len(),
                uv == texts(units@),
                gens_view(out@) =~= stamp_of(self.counters(), uv.take(i as int)),
            decreases units@.len() - i,
        {
            let n = self.step(units[i].as_str());
            let ghost before = out@;
            out.push((units[i].clone(), n));
            proof {
                let g = self.counters();
                assert(uv[i as int] == units@[i as int]@);
                assert(uv.take(i + 1) =~= uv.take(i as int).push(uv[i as int]));
                assert(stamp_of(g, uv.take(i + 1)) =~= stamp_of(g, uv.take(i as int)).push((uv[i as int], n)));
                assert(gens_view(out@) =~= gens_view(before).push((units@[i as int]@, n)));
            }
            i = i + 1;
        }
        assert(uv.take(units@.len() as int) =~= uv);
        out
    }
}

/// Whether two stamps are the same.
fn same_stamp(a: &Vec<(String, i64)>, b: &Vec<(String, i64)>) -> (r: bool)
    ensures
        r == (gens_view(a@) == gens_view(b@)),
{
    if a.len() != b.len() {
        assert(gens_view(a@).len() != gens_view(b@).len());
        return false;
    }
    let mut i: usize = 0;
    while i < a.len()
        invariant
            i <= a@.len(),
            a@.len() == b@.len(),
            forall|j: int| 0 <= j < i ==> gens_view(a@)[j] == gens_view(b@)[j],
        decreases a@.len() - i,
    {
        assert(gens_view(a@)[i as int] == (a@[i as int].0@, a@[i as int].1));
        assert(gens_view(b@)[i as int] == (b@[i as int].0@, b@[i as int].1));
        if !same(a[i].0.as_str(), b[i].0.as_str()) || a[i].1 != b[i].1 {
            return false;
        }
        i = i + 1;
    }
    assert(gens_view(a@) =~= gens_view(b@));
    true
}

impl Stash {
    /// The answer kept under `key` for `units`, as good at time `now`.
    pub fn read_at(&self, key: &str, units: &[String], now: i64) -> (r: Option<&Pack>)
        ensures
            match read_spec(self.live(), self.counters(), self.kept(), key@, texts(units@), now) {
                Some(p) => r matches Some(x) && *x == p,
                None => r is None,
            },
    {
        if !self.on {
            return None;
        }
        let i = match deal_seat(&self.deals, key) {
            Some(i) => i,
            None => return None,
        };
        let deal = &self.deals[i].1;
        assert(self.kept()[i as int] == (self.deals@[i as int].0@, deal@));
        let now_stamp = self.stamp(units);
        if !same_stamp(&deal.gens, &now_stamp) {
            return None;
        }
        match deal.until {
            Some(u) => {
                if now >= u {
                    return None;
                }
            },
            None => {},
        }
        Some(&deal.pack)
    }

    /// The answer kept under `key` for `units`, as good now.
    pub fn read(&self, key: &str, units: &[String]) -> (r: Option<&Pack>)
        ensures
            exists|now: i64|
                match #[trigger] read_spec(self.live(), self.counters(), self.kept(), key@, texts(units@), now) {
                    Some(p) => r matches Some(x) && *x == p,
                    None => r is None,
                },
    {
        let now = crate::life::tick();
        let r = self.read_at(key, units, now);
        assert(match read_spec(self.live(), self.counters(), self.kept(), key@, texts(units@), now) {
            Some(p) => r matches Some(x) && *x == p,
            None => r is None,
        });
        r
    }

    /// Keeps `pack` under `key`, stamped with the generations of `units`
    /// and good until its earliest expiry; a full cache is cleared first.
    pub fn keep(&mut self, key: String, units: &[String], pack: Pack)
        requires
            old(self).wf(),
        ensures
            final(self).wf(),
            final(self).live() == old(self).live(),
            final(self).counters() == old(self).counters(),
            !old(self).live() ==> final(self).kept() == old(self).kept(),
            old(self).live() ==> exists|until: Option<i64>| is_horizon(pack, until) && final(self).kept() == put_deal(
                if old(self).kept().len() >= HOLD { Seq::empty() } else { old(self).kept() },
                key@,
                DealV { gens: stamp_of(old(self).counters(), texts(units@)), until, pack },
            ),
    {
        if !self.on {
            return;
        }
        if self.deals.len() >= HOLD {
            self.deals.clear();
            assert(self.kept() =~= Seq::<(Seq<char>, DealV)>::empty());
        }
        let ghost d0 = self.kept();
        let gens = self.stamp(units);
        let until = horizon(&pack);
        let deal = Deal { gens, until, pack };
        let ghost dv = deal@;
        match deal_seat(&self.deals, key.as_str()) {
            Some(i) => {
                let ghost k = key@;
                self.deals.set(i, (key, deal));
                proof {
                    assert(self.kept() =~= d0.update(i as int, (k, dv)));
                    assert forall|a: int, b: int| 0 <= a < b < self.kept().len() implies self.kept()[a].0 != self.kept()[b].0 by {
                        if a == i {
                            assert(d0[i as int].0 == k);
                        }
                        if b == i {
                            assert(d0[i as int].0 == k);
                        }
                    }
                }
            },
            None => {
                let ghost k = key@;
                self.deals.push((key, deal));
                proof {
                    assert(self.kept() =~= d0.push((k, dv)));
                    assert forall|a: int, b: int| 0 <= a < b < self.kept().len() implies self.kept()[a].0 != self.kept()[b].0 by {
                        if b == d0.len() {
                            if d0[a].0 == k {
                                lemma_first_some(d0, key_is::<DealV>(k), a);
                            }
                        }
                    }
                }
            },
        }
    }

    /// Drops every kept answer.
    pub fn spoil(&mut self)
        requires
            old(self).wf(),
        ensures
            final(self).wf(),
            final(self).live() == old(self).live(),
            final(self).counters() == old(self).counters(),
            final(self).kept() == Seq::<(Seq<char>, DealV)>::empty(),
    {
        self.deals.clear();
        assert(self.kept() =~= Seq::<(Seq<char>, DealV)>::empty());
    }
}

/// An answer just kept is what reading its key for the same units gives,
/// until its earliest expiry, while no unit it read has moved.
pub proof fn lemma_kept_is_read(
    g: Seq<(Seq<char>, i64)>,
    d: Seq<(Seq<char>, DealV)>,
    key: Seq<char>,
    units: Seq<Seq<char>>,
    until: Option<i64>,
    pack: Pack,
    now: i64,
)
    requires
        until matches Some(u) ==> now < u,
    ensures
        read_spec(true, g, put_deal(d, key, DealV { gens: stamp_of(g, units), until, pack }), key, units, now) == Some(pack),
{
    let v = DealV { gens: stamp_of(g, units), until, pack };
    let d2 = put_deal(d, key, v);
    match first_where(d, key_is::<DealV>(key)) {
        Some(i) => {
            assert(d2[i] == (key, v));
            assert forall|j: int| 0 <= j < i implies !key_is::<DealV>(key)(#[trigger] d2[j]) by {
                assert(d2[j] == d[j]);
            }
            lemma_first_at(d2, key_is::<DealV>(key), i);
        },
        None => {
            assert forall|j: int| 0 <= j < d.len() implies !key_is::<DealV>(key)(#[trigger] d2[j]) by {
                assert(d2[j] == d[j]);
                if key_is::<DealV>(key)(d[j]) {
                    lemma_first_some(d, key_is::<DealV>(key), j);
                }
            }
            lemma_first_at(d2, key_is::<DealV>(key), d.len() as int);
        },
    }
}

/// Moving the generation of a unit an answer read makes the answer stale:
/// no read serves it again.
pub proof fn lemma_bump_spoils(
    g: Seq<(Seq<char>, i64)>,
    d: Seq<(Seq<char>, DealV)>,
    unit: Seq<char>,
    key: Seq<char>,
    units: Seq<Seq<char>>,
    now: i64,
)
    requires
        keys_distinct(g),
        units.contains(owner_of(unit)),
        gen_of(g, owner_of(unit)) < i64::MAX,
        deal_of(d, key) matches Some(deal) && deal.gens == stamp_of(g, units),
    ensures
        read_spec(true, bumped(g, owner_of(unit)), d, key, units, now) is None,
{
    let o = owner_of(unit);
    let g2 = bumped(g, o);
    let j = choose|j: int| 0 <= j < units.len() && units[j] == o;
    assert(gen_of(g2, o) == gen_of(g, o) + 1) by {
        match first_where(g, key_is::<i64>(o)) {
            Some(i) => {
                assert forall|k: int| 0 <= k < i implies !key_is::<i64>(o)(#[trigger] g2[k]) by {
                    assert(g2[k] == g[k]);
                }
                lemma_first_at(g2, key_is::<i64>(o), i);
            },
            None => {
                assert forall|k: int| 0 <= k < g.len() implies !key_is::<i64>(o)(#[trigger] g2[k]) by {
                    assert(g2[k] == g[k]);
                    if key_is::<i64>(o)(g[k]) {
                        lemma_first_some(g, key_is::<i64>(o), k);
                    }
                }
                lemma_first_at(g2, key_is::<i64>(o), g.len() as int);
            },
        }
    }
    assert(stamp_of(g2, units)[j] != stamp_of(g, units)[j]);
}

/// The grant cache: the grant rows read at one step of the grant unit.
pub struct Deeds {
    on: bool,
    held: Option<(i64, Vec<Row>)>,
}

impl Deeds {
    /// Whether caching is on.
    pub closed spec fn live(&self) -> bool {
        self.on
    }

    /// The step the grant rows were kept at, and the rows.
    pub closed spec fn holding(&self) -> Option<(i64, Seq<Row>)> {
        match self.held {
            Some((at, rows)) => Some((at, rows@)),
            None => None,
        }
    }

    /// An empty grant cache, on or off.
    pub fn new(on: bool) -> (r: Deeds)
        ensures
            r.live() == on,
            r.holding() is None,
    {
        Deeds { on, held: None }
    }

    /// The grant rows kept at `step`, if caching is on and they were.
    pub fn read(&self, step: i64) -> (r: Option<&[Row]>)
        ensures
            match r {
                Some(rows) => self.live() && self.holding() == Some((step, rows@)),
                None => !self.live() || !(self.holding() matches Some((at, _)) && at == step),
            },
    {
        if !self.on {
            return None;
        }
        match &self.held {
            Some((at, rows)) => {
                if *at == step {
                    Some(rows.as_slice())
                } else {
                    None
                }
            },
            None => None,
        }
    }

    /// Keeps the grant rows read at `step`, when caching is on.
    pub fn keep(&mut self, step: i64, rows: Vec<Row>)
        ensures
            final(self).live() == old(self).live(),
            final(self).holding() == (if old(self).live() {
                Some((step, rows@))
            } else {
                old(self).holding()
            }),
    {
        if self.on {
            self.held = Some((step, rows));
        }
    }
}

} // verus!
