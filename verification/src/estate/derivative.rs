//! The logical rows a retired generation no longer carries: what the
//! caller's derivative cleanup is told, as `path + key` events.
use vstd::prelude::*;
use crate::bond;
use crate::estate::hook::{Gone, GoneV, gones_view};
use crate::plan::{Unit, UnitV};
use crate::text::{
    before, chars_of, lemma_text_lt_total, lemma_text_lt_transitive,
    own, push_char, push_str, same, text_lt,
};

verus! {

/// The order of events: by path, then by key (the derived order of `Gone`).
pub open spec fn gone_lt(a: GoneV, b: GoneV) -> bool {
    text_lt(a.path, b.path) || (a.path == b.path && a.key < b.key)
}

/// Strictly ascending: sorted, with nothing twice.
pub open spec fn ranked(s: Seq<GoneV>) -> bool {
    forall|i: int, j: int| 0 <= i < j < s.len() ==> gone_lt(#[trigger] s[i], #[trigger] s[j])
}

/// The events a list holds.
pub open spec fn events(s: Seq<Gone>) -> Set<GoneV> {
    gones_view(s).to_set()
}

proof fn lemma_gone_lt_transitive(a: GoneV, b: GoneV, c: GoneV)
    requires
        gone_lt(a, b),
        gone_lt(b, c),
    ensures
        gone_lt(a, c),
{
    if text_lt(a.path, b.path) && text_lt(b.path, c.path) {
        lemma_text_lt_transitive(a.path, b.path, c.path);
    }
}

proof fn lemma_gone_lt_total(a: GoneV, b: GoneV)
    requires
        a != b,
    ensures
        gone_lt(a, b) || gone_lt(b, a),
{
    if a.path != b.path {
        lemma_text_lt_total(a.path, b.path);
    }
}

proof fn lemma_insert_to_set<A>(s: Seq<A>, i: int, x: A)
    requires
        0 <= i <= s.len(),
    ensures
        s.insert(i, x).to_set() == s.to_set().insert(x),
{
    let t = s.insert(i, x);
    assert forall|a: A| t.contains(a) implies s.contains(a) || a == x by {
        let k = choose|k: int| 0 <= k < t.len() && t[k] == a;
        if k < i {
            assert(s[k] == a);
        } else if k > i {
            assert(s[k - 1] == a);
        }
    }
    assert forall|a: A| s.contains(a) || a == x implies t.contains(a) by {
        if a == x {
            assert(t[i] == x);
        } else {
            let k = choose|k: int| 0 <= k < s.len() && s[k] == a;
            if k < i {
                assert(t[k] == a);
            } else {
                assert(t[k + 1] == a);
            }
        }
    }
    assert(t.to_set() =~= s.to_set().insert(x));
}

/// Whether `a` comes strictly before `b`.
fn precedes(a: &Gone, b: &Gone) -> (r: bool)
    ensures
        r == gone_lt(a@, b@),
{
    let ap = chars_of(a.path());
    let bp = chars_of(b.path());
    if before(ap.as_slice(), bp.as_slice()) {
        true
    } else {
        same(a.path(), b.path()) && a.key() < b.key()
    }
}

/// Adds one event to an ascending list, keeping it ascending.
pub fn enter(out: &mut Vec<Gone>, g: Gone)
    requires
        ranked(gones_view(old(out)@)),
    ensures
        ranked(gones_view(final(out)@)),
        events(final(out)@) == events(old(out)@).insert(g@),
{
    let ghost s = gones_view(out@);
    let mut i: usize = 0;
    while i < out.len() && precedes(&out[i], &g)
        invariant
            0 <= i <= out@.len(),
            s == gones_view(out@),
            ranked(s),
            forall|j: int| 0 <= j < i ==> gone_lt(#[trigger] s[j], g@),
        decreases out@.len() - i,
    {
        i = i + 1;
    }
    if i < out.len() && same(out[i].path(), g.path()) && out[i].key() == g.key() {
        assert(s[i as int] == g@);
        assert(s.to_set().contains(g@));
        assert(s.to_set().insert(g@) =~= s.to_set());
        return;
    }
    proof {
        if i < s.len() {
            assert(s[i as int] != g@);
            lemma_gone_lt_total(s[i as int], g@);
            assert forall|j: int| i < j < s.len() implies gone_lt(g@, #[trigger] s[j]) by {
                lemma_gone_lt_transitive(g@, s[i as int], s[j]);
            }
        }
    }
    let ghost gv = g@;
    out.insert(i, g);
    proof {
        let t = gones_view(out@);
        assert(t =~= s.insert(i as int, gv));
        lemma_insert_to_set(s, i as int, gv);
        assert forall|a: int, b: int| 0 <= a < b < t.len() implies gone_lt(
            #[trigger] t[a],
            #[trigger] t[b],
        ) by {
            if b < i {
            } else if b == i {
            } else if a < i {
                assert(t[b] == s[b - 1]);
                lemma_gone_lt_transitive(s[a], gv, s[b - 1]);
            } else if a == i {
                assert(t[b] == s[b - 1]);
            } else {
                assert(t[a] == s[a - 1]);
                assert(t[b] == s[b - 1]);
            }
        }
    }
}


/// One event for each key of `keys` under `path`.
pub open spec fn at_keys(path: Seq<char>, keys: Set<i64>) -> Set<GoneV> {
    Set::new(|g: GoneV| g.path == path && keys.contains(g.key))
}

/// One event for each path of `paths` and each key of `keys`.
pub open spec fn over(paths: Set<Seq<char>>, keys: Set<i64>) -> Set<GoneV> {
    Set::new(|g: GoneV| paths.contains(g.path) && keys.contains(g.key))
}

/// The path of a field or bond `name` of unit `unit`.
pub open spec fn sub_path(unit: Seq<char>, name: Seq<char>) -> Seq<char> {
    unit + seq!['.'] + name
}

/// The unit has a field named `name`.
pub open spec fn has_field(u: UnitV, name: Seq<char>) -> bool {
    exists|j: int| 0 <= j < u.fields.len() && #[trigger] u.fields[j].name == name
}

/// The unit has a bond named `name`.
pub open spec fn has_bond(u: UnitV, name: Seq<char>) -> bool {
    exists|j: int| 0 <= j < u.bonds.len() && #[trigger] u.bonds[j].name == name
}

/// The paths of the first `n` fields of `prior` that `active` no longer has.
pub open spec fn fields_dropped(prior: UnitV, active: UnitV, n: int) -> Set<Seq<char>> {
    Set::new(
        |p: Seq<char>|
            exists|i: int|
                0 <= i < n && !has_field(active, #[trigger] prior.fields[i].name) && p == sub_path(
                    prior.name,
                    prior.fields[i].name,
                ),
    )
}

/// The paths of the first `n` bonds of `prior`, other than many-to-many ones,
/// that `active` no longer has.
pub open spec fn points_dropped(prior: UnitV, active: UnitV, n: int) -> Set<Seq<char>> {
    Set::new(
        |p: Seq<char>|
            exists|i: int|
                0 <= i < n && prior.bonds[i].kind != bond::Kind::Many2many && !has_bond(
                    active,
                    #[trigger] prior.bonds[i].name,
                ) && p == sub_path(prior.name, prior.bonds[i].name),
    )
}

/// What a retired generation leaves behind of unit `prior`, given the keys
/// it held (`before`) and, where the unit lives on as `current`, the keys
/// the active generation holds (`after`): each row no longer held, under the
/// unit's path; and, for each row held in both, one event per dropped field
/// and per dropped bond that is not many-to-many, under `unit.name`.
pub open spec fn lost_set(
    prior: UnitV,
    current: Option<UnitV>,
    before: Seq<i64>,
    after: Seq<i64>,
) -> Set<GoneV> {
    let rows = Set::new(
        |g: GoneV|
            g.path == prior.name && before.contains(g.key) && !(current is Some && after.contains(
                g.key,
            )),
    );
    match current {
        Some(c) => {
            let held = before.to_set().intersect(after.to_set());
            rows.union(over(fields_dropped(prior, c, prior.fields.len() as int), held)).union(
                over(points_dropped(prior, c, prior.bonds.len() as int), held),
            )
        },
        None => rows,
    }
}

/// Whether `keys` holds `k`.
fn has_key(keys: &[i64], k: i64) -> (r: bool)
    ensures
        r == keys@.contains(k),
{
    let mut i: usize = 0;
    while i < keys.len()
        invariant
            0 <= i <= keys@.len(),
            forall|j: int| 0 <= j < i ==> keys@[j] != k,
        decreases keys@.len() - i,
    {
        if keys[i] == k {
            return true;
        }
        i = i + 1;
    }
    false
}

/// Records each key of `keys` under `path`.
pub fn mark(path: &str, keys: &[i64], out: &mut Vec<Gone>)
    requires
        ranked(gones_view(old(out)@)),
    ensures
        ranked(gones_view(final(out)@)),
        events(final(out)@) == events(old(out)@).union(at_keys(path@, keys@.to_set())),
{
    let ghost start = events(out@);
    let mut i: usize = 0;
    while i < keys.len()
        invariant
            0 <= i <= keys@.len(),
            ranked(gones_view(out@)),
            events(out@) == start.union(at_keys(path@, keys@.take(i as int).to_set())),
        decreases keys@.len() - i,
    {
        let ghost was = events(out@);
        let g = Gone::new(own(path), keys[i]);
        enter(out, g);
        proof {
            let a = keys@.take(i as int);
            let b = keys@.take(i + 1);
            assert forall|k: i64| b.contains(k) <==> a.contains(k) || k == keys@[i as int] by {
                if b.contains(k) {
                    let j = choose|j: int| 0 <= j < b.len() && b[j] == k;
                    if j < i {
                        assert(a[j] == k);
                    }
                }
                if a.contains(k) {
                    let j = choose|j: int| 0 <= j < a.len() && a[j] == k;
                    assert(b[j] == k);
                }
                if k == keys@[i as int] {
                    assert(b[i as int] == k);
                }
            }
            assert(at_keys(path@, b.to_set()) =~= at_keys(path@, a.to_set()).insert(
                GoneV { path: path@, key: keys@[i as int] },
            ));
            assert(events(out@) =~= start.union(at_keys(path@, b.to_set())));
        }
        i = i + 1;
    }
    assert(keys@.take(keys@.len() as int) =~= keys@);
}

/// Whether the unit has a field named `name`.
fn field_named(u: &Unit, name: &str) -> (r: bool)
    ensures
        r == has_field(u@, name@),
{
    let fields = u.fields();
    let mut i: usize = 0;
    while i < fields.len()
        invariant
            0 <= i <= fields@.len(),
            crate::plan::slots_view(fields@) == u@.fields,
            forall|j: int| 0 <= j < i ==> #[trigger] u@.fields[j].name != name@,
        decreases fields@.len() - i,
    {
        assert(u@.fields[i as int] == fields@[i as int]@);
        if same(fields[i].name(), name) {
            return true;
        }
        i = i + 1;
    }
    false
}

/// Whether the unit has a bond named `name`.
fn bond_named(u: &Unit, name: &str) -> (r: bool)
    ensures
        r == has_bond(u@, name@),
{
    let bonds = u.bonds();
    let mut i: usize = 0;
    while i < bonds.len()
        invariant
            0 <= i <= bonds@.len(),
            crate::plan::edges_view(bonds@) == u@.bonds,
            forall|j: int| 0 <= j < i ==> #[trigger] u@.bonds[j].name != name@,
        decreases bonds@.len() - i,
    {
        assert(u@.bonds[i as int] == bonds@[i as int]@);
        if same(bonds[i].name(), name) {
            return true;
        }
        i = i + 1;
    }
    false
}

/// The path of member `name` of unit `unit`.
pub(crate) fn path_of(unit: &str, name: &str) -> (out: String)
    ensures
        out@ == sub_path(unit@, name@),
{
    let mut out = own(unit);
    push_char(&mut out, '.');
    push_str(&mut out, name);
    assert(out@ =~= sub_path(unit@, name@));
    out
}

/// Records, for each held key, every field of `prior` that `active` dropped.
pub fn fields(prior: &Unit, active: &Unit, held: &[i64], out: &mut Vec<Gone>)
    requires
        ranked(gones_view(old(out)@)),
    ensures
        ranked(gones_view(final(out)@)),
        events(final(out)@) == events(old(out)@).union(
            over(fields_dropped(prior@, active@, prior@.fields.len() as int), held@.to_set()),
        ),
{
    let ghost start = events(out@);
    let keys = Ghost(held@.to_set());
    let list = prior.fields();
    let mut i: usize = 0;
    while i < list.len()
        invariant
            0 <= i <= list@.len(),
            crate::plan::slots_view(list@) == prior@.fields,
            ranked(gones_view(out@)),
            keys@ == held@.to_set(),
            events(out@) == start.union(over(fields_dropped(prior@, active@, i as int), keys@)),
        decreases list@.len() - i,
    {
        let ghost was = fields_dropped(prior@, active@, i as int);
        let ghost now = fields_dropped(prior@, active@, i + 1);
        assert(prior@.fields[i as int] == list@[i as int]@);
        let name = list[i].name();
        if !field_named(active, name) {
            let path = path_of(prior.name(), name);
            mark(path.as_str(), held, out);
            proof {
                assert(now =~= was.insert(path@));
                assert(events(out@) =~= start.union(over(now, keys@)));
            }
        } else {
            proof {
                assert forall|p: Seq<char>| now.contains(p) implies was.contains(p) by {
                    let j = choose|j: int|
                        0 <= j < i + 1 && !has_field(active@, #[trigger] prior@.fields[j].name)
                            && p == sub_path(prior@.name, prior@.fields[j].name);
                    if j == i {
                        assert(has_field(active@, prior@.fields[j].name));
                    }
                }
                assert(now =~= was);
            }
        }
        i = i + 1;
    }
}

/// Records, for each held key, every bond of `prior` other than a
/// many-to-many one that `active` dropped.
pub fn points(prior: &Unit, active: &Unit, held: &[i64], out: &mut Vec<Gone>)
    requires
        ranked(gones_view(old(out)@)),
    ensures
        ranked(gones_view(final(out)@)),
        events(final(out)@) == events(old(out)@).union(
            over(points_dropped(prior@, active@, prior@.bonds.len() as int), held@.to_set()),
        ),
{
    let ghost start = events(out@);
    let keys = Ghost(held@.to_set());
    let list = prior.bonds();
    let mut i: usize = 0;
    while i < list.len()
        invariant
            0 <= i <= list@.len(),
            crate::plan::edges_view(list@) == prior@.bonds,
            ranked(gones_view(out@)),
            keys@ == held@.to_set(),
            events(out@) == start.union(over(points_dropped(prior@, active@, i as int), keys@)),
        decreases list@.len() - i,
    {
        let ghost was = points_dropped(prior@, active@, i as int);
        let ghost now = points_dropped(prior@, active@, i + 1);
        assert(prior@.bonds[i as int] == list@[i as int]@);
        let name = list[i].name();
        let many = match list[i].kind() {
            bond::Kind::Many2many => true,
            _ => false,
        };
        if !many && !bond_named(active, name) {
            let path = path_of(prior.name(), name);
            mark(path.as_str(), held, out);
            proof {
                assert(now =~= was.insert(path@));
                assert(events(out@) =~= start.union(over(now, keys@)));
            }
        } else {
            proof {
                assert forall|p: Seq<char>| now.contains(p) implies was.contains(p) by {
                    let j = choose|j: int|
                        0 <= j < i + 1 && prior@.bonds[j].kind != bond::Kind::Many2many
                            && !has_bond(active@, #[trigger] prior@.bonds[j].name) && p
                            == sub_path(prior@.name, prior@.bonds[j].name);
                    if j == i {
                        assert(has_bond(active@, prior@.bonds[j].name) || prior@.bonds[j].kind
                            == bond::Kind::Many2many);
                    }
                }
                assert(now =~= was);
            }
        }
        i = i + 1;
    }
}

/// Records what a retired generation leaves behind of unit `prior`: `before`
/// holds the keys the retired generation had, `after` those of the active
/// generation where the unit lives on as `current`.
pub fn lost(
    prior: &Unit,
    current: Option<&Unit>,
    before: &[i64],
    after: &[i64],
    out: &mut Vec<Gone>,
)
    requires
        ranked(gones_view(old(out)@)),
    ensures
        ranked(gones_view(final(out)@)),
        events(final(out)@) == events(old(out)@).union(
            lost_set(
                prior@,
                match current {
                    Some(u) => Some(u@),
                    None => None,
                },
                before@,
                after@,
            ),
        ),
{
    let ghost start = events(out@);
    let ghost cur = match current {
        Some(u) => Some(u@),
        None => None,
    };
    let ghost rows = Set::new(
        |g: GoneV|
            g.path == prior@.name && before@.contains(g.key) && !(cur is Some && after@.contains(
                g.key,
            )),
    );
    let mut held: Vec<i64> = Vec::new();
    let mut i: usize = 0;
    while i < before.len()
        invariant
            0 <= i <= before@.len(),
            cur == (match current {
                Some(u) => Some(u@),
                None => None,
            }),
            rows == Set::new(
                |g: GoneV|
                    g.path == prior@.name && before@.contains(g.key) && !(cur is Some
                        && after@.contains(g.key)),
            ),
            ranked(gones_view(out@)),
            events(out@) == start.union(
                Set::new(
                    |g: GoneV|
                        g.path == prior@.name && before@.take(i as int).contains(g.key) && !(
                        cur is Some && after@.contains(g.key)),
                ),
            ),
            forall|k: i64|
                held@.contains(k) <==> before@.take(i as int).contains(k) && after@.contains(k),
        decreases before@.len() - i,
    {
        let k = before[i];
        let ghost a = before@.take(i as int);
        let ghost b = before@.take(i + 1);
        proof {
            assert forall|x: i64| b.contains(x) <==> a.contains(x) || x == k by {
                if b.contains(x) {
                    let j = choose|j: int| 0 <= j < b.len() && b[j] == x;
                    if j < i {
                        assert(a[j] == x);
                    }
                }
                if a.contains(x) {
                    let j = choose|j: int| 0 <= j < a.len() && a[j] == x;
                    assert(b[j] == x);
                }
                if x == k {
                    assert(b[i as int] == x);
                }
            }
        }
        let inside = has_key(after, k);
        let ghost old_held = held@;
        if inside {
            held.push(k);
            proof {
                assert forall|x: i64| held@.contains(x) <==> old_held.contains(x) || x == k by {
                    if held@.contains(x) {
                        let j = choose|j: int| 0 <= j < held@.len() && held@[j] == x;
                        if j < old_held.len() {
                            assert(old_held[j] == x);
                        }
                    }
                    if old_held.contains(x) {
                        let j = choose|j: int| 0 <= j < old_held.len() && old_held[j] == x;
                        assert(held@[j] == x);
                    }
                    if x == k {
                        assert(held@[old_held.len() as int] == x);
                    }
                }
            }
        }
        proof {
            assert forall|x: i64| held@.contains(x) <==> b.contains(x) && after@.contains(x) by {
                assert(old_held.contains(x) <==> a.contains(x) && after@.contains(x));
                assert(b.contains(x) <==> a.contains(x) || x == k);
                if x == k {
                    assert(inside == after@.contains(k));
                }
                if !inside {
                    assert(held@ == old_held);
                }
            }
        }
        if current.is_none() || !inside {
            enter(out, Gone::new(own(prior.name()), k));
            proof {
                assert(events(out@) =~= start.union(
                    Set::new(
                        |g: GoneV|
                            g.path == prior@.name && b.contains(g.key) && !(cur is Some
                                && after@.contains(g.key)),
                    ),
                ));
            }
        } else {
            proof {
                assert(events(out@) =~= start.union(
                    Set::new(
                        |g: GoneV|
                            g.path == prior@.name && b.contains(g.key) && !(cur is Some
                                && after@.contains(g.key)),
                    ),
                ));
            }
        }
        i = i + 1;
    }
    assert(before@.take(before@.len() as int) =~= before@);
    assert(events(out@) =~= start.union(rows));
    match current {
        Some(unit) => {
            proof {
                assert(held@.to_set() =~= before@.to_set().intersect(after@.to_set()));
            }
            let ghost mid = events(out@);
            fields(prior, unit, held.as_slice(), out);
            points(prior, unit, held.as_slice(), out);
            proof {
                let h = before@.to_set().intersect(after@.to_set());
                assert(events(out@) =~= start.union(
                    rows.union(over(fields_dropped(prior@, unit@, prior@.fields.len() as int), h)).union(
                        over(points_dropped(prior@, unit@, prior@.bonds.len() as int), h),
                    ),
                ));
            }
        },
        None => {},
    }
}

} // verus!
