//! The transitive closure of a bond: every pair of rows joined by a chain
//! of one or more ties, each row paired with those it reaches but itself.
use vstd::prelude::*;

verus! {

/// `(a, b)` is a tie.
pub open spec fn linked(pairs: Seq<(i64, i64)>, a: i64, b: i64) -> bool {
    pairs.contains((a, b))
}

/// `p` is a chain of one or more ties.
pub open spec fn chain_of(pairs: Seq<(i64, i64)>, p: Seq<i64>) -> bool {
    p.len() >= 2 && forall|i: int| 0 <= i < p.len() - 1 ==> linked(pairs, #[trigger] p[i], p[i + 1])
}

/// A chain of ties leads from `a` to `b`.
pub open spec fn reaches(pairs: Seq<(i64, i64)>, a: i64, b: i64) -> bool {
    exists|p: Seq<i64>| chain_of(pairs, p) && p[0] == a && p.last() == b
}

/// The closure: every pair of different rows a chain of ties joins.
pub open spec fn closure_of(pairs: Seq<(i64, i64)>) -> Set<(i64, i64)> {
    Set::new(|x: (i64, i64)| x.0 != x.1 && reaches(pairs, x.0, x.1))
}

/// Pair order: by left, then by right.
pub open spec fn pair_lt(a: (i64, i64), b: (i64, i64)) -> bool {
    a.0 < b.0 || (a.0 == b.0 && a.1 < b.1)
}

/// Each pair sorts strictly before the next.
pub open spec fn pairs_sorted(s: Seq<(i64, i64)>) -> bool {
    forall|i: int, j: int| 0 <= i < j < s.len() ==> pair_lt(#[trigger] s[i], #[trigger] s[j])
}

/// A tie extends a chain.
proof fn lemma_extend(pairs: Seq<(i64, i64)>, a: i64, x: i64, y: i64)
    requires
        reaches(pairs, a, x),
        linked(pairs, x, y),
    ensures
        reaches(pairs, a, y),
{
    let p = choose|p: Seq<i64>| chain_of(pairs, p) && p[0] == a && p.last() == x;
    let q = p.push(y);
    assert forall|i: int| 0 <= i < q.len() - 1 implies linked(pairs, #[trigger] q[i], q[i + 1]) by {
        if i < p.len() - 1 {
            assert(q[i] == p[i] && q[i + 1] == p[i + 1]);
        } else {
            assert(q[i] == x && q[i + 1] == y);
        }
    }
    assert(chain_of(pairs, q) && q[0] == a && q.last() == y);
}

/// A single tie is a chain.
proof fn lemma_one(pairs: Seq<(i64, i64)>, a: i64, b: i64)
    requires
        linked(pairs, a, b),
    ensures
        reaches(pairs, a, b),
{
    let q = seq![a, b];
    assert(q[0] == a && q[1] == b);
    assert(chain_of(pairs, q) && q[0] == a && q.last() == b);
}

/// Once every tie out of `root` and out of each row of `seen` lands in
/// `seen`, every row a chain from `root` reaches is in `seen`.
proof fn lemma_closed(pairs: Seq<(i64, i64)>, root: i64, seen: Set<i64>, b: i64)
    requires
        reaches(pairs, root, b),
        forall|y: i64| linked(pairs, root, y) ==> seen.contains(y),
        forall|x: i64, y: i64| seen.contains(x) && linked(pairs, x, y) ==> seen.contains(y),
    ensures
        seen.contains(b),
{
    let p = choose|p: Seq<i64>| chain_of(pairs, p) && p[0] == root && p.last() == b;
    assert(linked(pairs, p[0], p[1]));
    lemma_chain_seen(pairs, p, seen, p.len() - 1);
}

proof fn lemma_chain_seen(pairs: Seq<(i64, i64)>, p: Seq<i64>, seen: Set<i64>, k: int)
    requires
        chain_of(pairs, p),
        1 <= k < p.len(),
        seen.contains(p[1]),
        forall|x: i64, y: i64| seen.contains(x) && linked(pairs, x, y) ==> seen.contains(y),
    ensures
        seen.contains(p[k]),
    decreases k,
{
    if k > 1 {
        lemma_chain_seen(pairs, p, seen, k - 1);
        assert(linked(pairs, p[k - 1], p[k]));
    }
}

/// Every right end of the ties.
pub open spec fn rights(pairs: Seq<(i64, i64)>) -> Set<i64> {
    Set::new(|y: i64| exists|x: i64| linked(pairs, x, y))
}

proof fn lemma_rights_finite(pairs: Seq<(i64, i64)>)
    ensures
        rights(pairs).finite(),
{
    let s = pairs.map_values(|p: (i64, i64)| p.1).to_set();
    assert forall|y: i64| rights(pairs).contains(y) implies s.contains(y) by {
        let x = choose|x: i64| linked(pairs, x, y);
        let i = choose|i: int| 0 <= i < pairs.len() && pairs[i] == (x, y);
        assert(pairs.map_values(|p: (i64, i64)| p.1)[i] == y);
    }
    assert(rights(pairs).subset_of(s));
    vstd::set_lib::lemma_len_subset(rights(pairs), s);
}

/// The rows ties out of `x` lead to, in order.
pub open spec fn outs(pairs: Seq<(i64, i64)>, x: i64) -> Seq<i64>
    decreases pairs.len(),
{
    if pairs.len() == 0 {
        Seq::empty()
    } else {
        let r = outs(pairs.drop_last(), x);
        if pairs.last().0 == x {
            r.push(pairs.last().1)
        } else {
            r
        }
    }
}

proof fn lemma_outs(pairs: Seq<(i64, i64)>, x: i64, y: i64)
    ensures
        outs(pairs, x).contains(y) <==> linked(pairs, x, y),
    decreases pairs.len(),
{
    if pairs.len() > 0 {
        let p = pairs.drop_last();
        lemma_outs(p, x, y);
        let r = outs(p, x);
        let l = pairs.last();
        let o = outs(pairs, x);
        if linked(p, x, y) {
            let j = choose|j: int| 0 <= j < p.len() && p[j] == (x, y);
            assert(pairs[j] == (x, y));
            assert(linked(pairs, x, y));
        }
        if linked(pairs, x, y) {
            let j = choose|j: int| 0 <= j < pairs.len() && pairs[j] == (x, y);
            if j < p.len() {
                assert(p[j] == (x, y));
                assert(linked(p, x, y));
            } else {
                assert(l == (x, y));
            }
        }
        if r.contains(y) {
            let k = choose|k: int| 0 <= k < r.len() && r[k] == y;
            if l.0 == x {
                assert(o[k] == y);
            }
            assert(o.contains(y));
        }
        if l.0 == x {
            if o.contains(y) {
                let k = choose|k: int| 0 <= k < o.len() && o[k] == y;
                if k < r.len() {
                    assert(r[k] == y);
                } else {
                    assert(pairs[pairs.len() - 1] == (x, y));
                    assert(linked(pairs, x, y));
                }
            }
            if l == (x, y) {
                assert(o[r.len() as int] == y);
            }
        }
    }
}

/// The rows a tie out of `x` leads to, in order.
fn succ(pairs: &[(i64, i64)], x: i64) -> (r: Vec<i64>)
    ensures
        r@ == outs(pairs@, x),
        forall|y: i64| #[trigger] linked(pairs@, x, y) <==> r@.contains(y),
{
    let mut r: Vec<i64> = Vec::new();
    let mut i: usize = 0;
    assert(pairs@.take(0) =~= Seq::<(i64, i64)>::empty());
    while i < pairs.len()
        invariant
            i <= pairs@.len(),
            r@ == outs(pairs@.take(i as int), x),
        decreases pairs@.len() - i,
    {
        let (a, b) = pairs[i];
        proof {
            assert(pairs@.take(i + 1).drop_last() =~= pairs@.take(i as int));
            assert(pairs@.take(i + 1).last() == pairs@[i as int]);
        }
        if a == x {
            r.push(b);
        }
        i = i + 1;
    }
    assert(pairs@.take(pairs@.len() as int) =~= pairs@);
    proof {
        assert forall|y: i64| #[trigger] linked(pairs@, x, y) <==> r@.contains(y) by {
            lemma_outs(pairs@, x, y);
        }
    }
    r
}

/// Whether `v` holds `x`.
fn holds(v: &Vec<i64>, x: i64) -> (r: bool)
    ensures
        r == v@.contains(x),
{
    let mut i: usize = 0;
    while i < v.len()
        invariant
            i <= v@.len(),
            forall|j: int| 0 <= j < i ==> v@[j] != x,
        decreases v@.len() - i,
    {
        if v[i] == x {
            return true;
        }
        i = i + 1;
    }
    false
}

/// Adds a pair to a strictly sorted list, keeping it strictly sorted.
fn enroll(out: &mut Vec<(i64, i64)>, p: (i64, i64))
    requires
        pairs_sorted(old(out)@),
    ensures
        pairs_sorted(final(out)@),
        final(out)@.to_set() == old(out)@.to_set().insert(p),
{
    let ghost o = out@;
    let mut j: usize = 0;
    while j < out.len() && (out[j].0 < p.0 || (out[j].0 == p.0 && out[j].1 < p.1))
        invariant
            j <= out@.len(),
            o == out@,
            forall|q: int| 0 <= q < j ==> pair_lt(#[trigger] o[q], p),
        decreases out@.len() - j,
    {
        j = j + 1;
    }
    if j < out.len() && out[j].0 == p.0 && out[j].1 == p.1 {
        assert(o[j as int] == p);
        assert(o.to_set().insert(p) =~= o.to_set());
        return;
    }
    out.insert(j, p);
    proof {
        let n = out@;
        assert(n =~= o.insert(j as int, p));
        assert forall|a: int, b: int| 0 <= a < b < n.len() implies pair_lt(#[trigger] n[a], #[trigger] n[b]) by {
            if a < j && b == j {
            } else if a < j && b > j {
                assert(n[b] == o[b - 1]);
            } else if a == j {
                assert(n[b] == o[b - 1]);
                if b - 1 > j {
                    assert(pair_lt(o[j as int], o[b - 1]));
                }
            } else if a > j {
                assert(n[a] == o[a - 1] && n[b] == o[b - 1]);
            } else {
                assert(n[a] == o[a] && n[b] == o[b]);
            }
        }
        assert forall|x: (i64, i64)| n.to_set().contains(x) <==> o.to_set().insert(p).contains(x) by {
            if n.contains(x) {
                let i = choose|i: int| 0 <= i < n.len() && n[i] == x;
                if i < j {
                    assert(o[i] == x);
                } else if i > j {
                    assert(o[i - 1] == x);
                }
            }
            if o.contains(x) {
                let i = choose|i: int| 0 <= i < o.len() && o[i] == x;
                if i < j {
                    assert(n[i] == x);
                } else {
                    assert(n[i + 1] == x);
                }
            }
            if x == p {
                assert(n[j as int] == x);
            }
        }
        assert(n.to_set() =~= o.to_set().insert(p));
    }
}

/// The pairs `root` forms with every other row a chain from it reaches.
pub open spec fn reach_from(pairs: Seq<(i64, i64)>, root: i64) -> Set<(i64, i64)> {
    Set::new(|q: (i64, i64)| q.0 == root && q.1 != root && reaches(pairs, root, q.1))
}

/// The pairs `root` forms with the other rows of `seen`.
pub open spec fn pairs_with(root: i64, seen: Seq<i64>) -> Set<(i64, i64)> {
    Set::new(|q: (i64, i64)| q.0 == root && q.1 != root && seen.contains(q.1))
}

/// What the walk from `root` keeps true: every row seen or still open is
/// reached, and every tie out of `root` or out of a seen row lands in a
/// seen or open row.
pub open spec fn walk_inv(pairs: Seq<(i64, i64)>, root: i64, seen: Seq<i64>, open: Seq<i64>) -> bool {
    &&& forall|i: int| 0 <= i < seen.len() ==> reaches(pairs, root, #[trigger] seen[i]) && rights(pairs).contains(seen[i])
    &&& forall|i: int| 0 <= i < open.len() ==> reaches(pairs, root, #[trigger] open[i]) && rights(pairs).contains(open[i])
    &&& forall|x: i64, y: i64| seen.contains(x) && #[trigger] linked(pairs, x, y) ==> seen.contains(y) || open.contains(y)
    &&& forall|y: i64| #[trigger] linked(pairs, root, y) ==> seen.contains(y) || open.contains(y)
    &&& seen.no_duplicates()
}

proof fn lemma_push_has(s: Seq<i64>, r: i64, y: i64)
    ensures
        s.push(r).contains(y) <==> s.contains(y) || y == r,
{
    if s.push(r).contains(y) {
        let j = choose|j: int| 0 <= j < s.len() + 1 && s.push(r)[j] == y;
        if j < s.len() {
            assert(s[j] == y);
        }
    }
    if s.contains(y) {
        let j = choose|j: int| 0 <= j < s.len() && s[j] == y;
        assert(s.push(r)[j] == y);
    }
    if y == r {
        assert(s.push(r)[s.len() as int] == y);
    }
}

proof fn lemma_concat_has(a: Seq<i64>, b: Seq<i64>, y: i64)
    ensures
        (a + b).contains(y) <==> a.contains(y) || b.contains(y),
{
    if (a + b).contains(y) {
        let j = choose|j: int| 0 <= j < a.len() + b.len() && (a + b)[j] == y;
        if j < a.len() {
            assert(a[j] == y);
        } else {
            assert(b[j - a.len()] == y);
        }
    }
    if a.contains(y) {
        let j = choose|j: int| 0 <= j < a.len() && a[j] == y;
        assert((a + b)[j] == y);
    }
    if b.contains(y) {
        let j = choose|j: int| 0 <= j < b.len() && b[j] == y;
        assert((a + b)[a.len() + j] == y);
    }
}

/// Popping a row already seen keeps the walk's invariant.
proof fn lemma_walk_skip(pairs: Seq<(i64, i64)>, root: i64, seen: Seq<i64>, open: Seq<i64>)
    requires
        walk_inv(pairs, root, seen, open),
        open.len() > 0,
        seen.contains(open.last()),
    ensures
        walk_inv(pairs, root, seen, open.drop_last()),
{
    let o = open.drop_last();
    assert(open =~= o.push(open.last()));
    assert forall|y: i64| open.contains(y) implies seen.contains(y) || o.contains(y) by {
        lemma_push_has(o, open.last(), y);
    }
    assert forall|i: int| 0 <= i < o.len() implies reaches(pairs, root, #[trigger] o[i]) && rights(pairs).contains(o[i]) by {
        assert(o[i] == open[i]);
    }
}

/// Seeing a new row and opening the rows its ties lead to keeps the
/// walk's invariant.
#[verifier::rlimit(60)]
proof fn lemma_walk_see(pairs: Seq<(i64, i64)>, root: i64, seen: Seq<i64>, open: Seq<i64>, next: Seq<i64>)
    requires
        walk_inv(pairs, root, seen, open),
        open.len() > 0,
        !seen.contains(open.last()),
        forall|y: i64| #[trigger] linked(pairs, open.last(), y) <==> next.contains(y),
    ensures
        walk_inv(pairs, root, seen.push(open.last()), open.drop_last() + next),
{
    let r = open.last();
    let o = open.drop_last();
    let s2 = seen.push(r);
    let o2 = o + next;
    assert(open =~= o.push(r));
    assert(reaches(pairs, root, r) && rights(pairs).contains(r)) by {
        assert(open[open.len() - 1] == r);
    }
    assert forall|i: int| 0 <= i < s2.len() implies reaches(pairs, root, #[trigger] s2[i]) && rights(pairs).contains(s2[i]) by {
        if i < seen.len() {
            assert(s2[i] == seen[i]);
        }
    }
    assert forall|i: int| 0 <= i < o2.len() implies reaches(pairs, root, #[trigger] o2[i]) && rights(pairs).contains(o2[i]) by {
        if i < o.len() {
            assert(o2[i] == open[i]);
        } else {
            let y = next[i - o.len()];
            assert(o2[i] == y);
            assert(next.contains(y));
            assert(linked(pairs, r, y));
            lemma_extend(pairs, root, r, y);
            assert(rights(pairs).contains(y));
        }
    }
    assert forall|y: i64| open.contains(y) implies s2.contains(y) || o2.contains(y) by {
        lemma_push_has(o, r, y);
        lemma_push_has(seen, r, y);
        lemma_concat_has(o, next, y);
    }
    assert forall|x: i64, y: i64| s2.contains(x) && #[trigger] linked(pairs, x, y) implies s2.contains(y) || o2.contains(y) by {
        lemma_push_has(seen, r, x);
        lemma_push_has(seen, r, y);
        lemma_concat_has(o, next, y);
        lemma_push_has(o, r, y);
    }
    assert forall|y: i64| #[trigger] linked(pairs, root, y) implies s2.contains(y) || o2.contains(y) by {
        lemma_push_has(seen, r, y);
        lemma_concat_has(o, next, y);
        lemma_push_has(o, r, y);
    }
    assert(s2.no_duplicates()) by {
        assert forall|a: int, b: int| 0 <= a < s2.len() && 0 <= b < s2.len() && a != b implies s2[a] != s2[b] by {
            if a < seen.len() && b < seen.len() {
                assert(s2[a] == seen[a] && s2[b] == seen[b]);
            } else if a == seen.len() {
                assert(s2[b] == seen[b]);
            } else {
                assert(s2[a] == seen[a]);
            }
        }
    }
}

/// Seeing row `r` adds its pair with `root`, unless it is `root`.
proof fn lemma_pairs_with(root: i64, seen: Seq<i64>, r: i64)
    ensures
        pairs_with(root, seen.push(r)) == (if r != root {
            pairs_with(root, seen).insert((root, r))
        } else {
            pairs_with(root, seen)
        }),
{
    assert forall|q: (i64, i64)| pairs_with(root, seen.push(r)).contains(q) <==> (pairs_with(root, seen).contains(q) || (q.0 == root && q.1 == r && r != root)) by {
        lemma_push_has(seen, r, q.1);
    }
    if r != root {
        assert forall|q: (i64, i64)| pairs_with(root, seen.push(r)).contains(q) <==> pairs_with(root, seen).insert((root, r)).contains(q) by {
            lemma_push_has(seen, r, q.1);
            if q.0 == root && q.1 == r {
                assert(q == (root, r));
            }
        }
        assert(pairs_with(root, seen.push(r)) =~= pairs_with(root, seen).insert((root, r)));
    } else {
        assert(pairs_with(root, seen.push(r)) =~= pairs_with(root, seen));
    }
}

/// Adds to `out` the pairs `root` forms with every other row it reaches.
#[verifier::rlimit(40)]
fn walk(root: i64, pairs: &[(i64, i64)], out: &mut Vec<(i64, i64)>)
    requires
        pairs_sorted(old(out)@),
    ensures
        pairs_sorted(final(out)@),
        final(out)@.to_set() == old(out)@.to_set().union(reach_from(pairs@, root)),
{
    let ghost start = out@.to_set();
    let ghost u = rights(pairs@);
    proof {
        lemma_rights_finite(pairs@);
    }
    let mut seen: Vec<i64> = Vec::new();
    let mut open: Vec<i64> = succ(pairs, root);
    proof {
        assert forall|i: int| 0 <= i < open@.len() implies reaches(pairs@, root, #[trigger] open@[i]) && u.contains(open@[i]) by {
            assert(open@.contains(open@[i]));
            assert(linked(pairs@, root, open@[i]));
            lemma_one(pairs@, root, open@[i]);
        }
        assert(seen@.len() == 0);
        assert(pairs_with(root, seen@) =~= Set::<(i64, i64)>::empty());
        assert(out@.to_set() =~= start.union(pairs_with(root, seen@)));
    }
    while open.len() > 0
        invariant
            u == rights(pairs@),
            u.finite(),
            walk_inv(pairs@, root, seen@, open@),
            pairs_sorted(out@),
            out@.to_set() == start.union(pairs_with(root, seen@)),
        decreases u.len() - seen@.len(), open@.len(),
    {
        proof {
            seen@.unique_seq_to_set();
            assert(seen@.to_set().subset_of(u));
            vstd::set_lib::lemma_len_subset(seen@.to_set(), u);
        }
        let ghost before_open = open@;
        let ghost before_seen = seen@;
        let ghost before_out = out@.to_set();
        let r = open.pop().unwrap();
        if holds(&seen, r) {
            proof {
                lemma_walk_skip(pairs@, root, before_seen, before_open);
            }
        } else {
            seen.push(r);
            if r != root {
                enroll(out, (root, r));
            }
            let next = succ(pairs, r);
            let ghost base = open@;
            let mut k: usize = 0;
            while k < next.len()
                invariant
                    k <= next@.len(),
                    open@ == base + next@.take(k as int),
                decreases next@.len() - k,
            {
                open.push(next[k]);
                k = k + 1;
                assert(open@ =~= base + next@.take(k as int));
            }
            assert(next@.take(next@.len() as int) =~= next@);
            proof {
                lemma_walk_see(pairs@, root, before_seen, before_open, next@);
                assert(seen@ == before_seen.push(r));
                lemma_pairs_with(root, before_seen, r);
                if r != root {
                    assert(out@.to_set() == before_out.insert((root, r)));
                } else {
                    assert(out@.to_set() == before_out);
                }
                assert(out@.to_set() =~= start.union(pairs_with(root, seen@)));
                seen@.unique_seq_to_set();
                assert(seen@.to_set().subset_of(u));
                vstd::set_lib::lemma_len_subset(seen@.to_set(), u);
            }
        }
    }
    proof {
        let sset = seen@.to_set();
        assert forall|x: i64, y: i64| sset.contains(x) && linked(pairs@, x, y) implies sset.contains(y) by {}
        assert forall|y: i64| linked(pairs@, root, y) implies sset.contains(y) by {}
        assert forall|q: (i64, i64)| reach_from(pairs@, root).contains(q) <==> pairs_with(root, seen@).contains(q) by {
            if reach_from(pairs@, root).contains(q) {
                lemma_closed(pairs@, root, sset, q.1);
            }
            if pairs_with(root, seen@).contains(q) {
                let j = choose|j: int| 0 <= j < seen@.len() && seen@[j] == q.1;
                assert(reaches(pairs@, root, seen@[j]));
            }
        }
        assert(out@.to_set() =~= start.union(reach_from(pairs@, root)));
    }
}

/// A chain starts with a tie out of its first row.
proof fn lemma_starts(pairs: Seq<(i64, i64)>, a: i64, b: i64)
    requires
        reaches(pairs, a, b),
    ensures
        exists|j: int| 0 <= j < pairs.len() && #[trigger] pairs[j].0 == a,
{
    let p = choose|p: Seq<i64>| chain_of(pairs, p) && p[0] == a && p.last() == b;
    assert(linked(pairs, p[0], p[1]));
    let j = choose|j: int| 0 <= j < pairs.len() && pairs[j] == (p[0], p[1]);
    assert(pairs[j].0 == a);
}

/// The transitive closure of ties `pairs`, sorted, each pair once.
pub fn reach(pairs: &[(i64, i64)]) -> (out: Vec<(i64, i64)>)
    ensures
        pairs_sorted(out@),
        out@.to_set() == closure_of(pairs@),
{
    let mut out: Vec<(i64, i64)> = Vec::new();
    let mut done: Vec<i64> = Vec::new();
    let mut i: usize = 0;
    assert(out@.to_set() =~= Set::<(i64, i64)>::empty());
    while i < pairs.len()
        invariant
            i <= pairs@.len(),
            pairs_sorted(out@),
            forall|x: i64| done@.contains(x) <==> exists|j: int| 0 <= j < i && #[trigger] pairs@[j].0 == x,
            out@.to_set() == Set::new(|q: (i64, i64)| done@.contains(q.0) && reach_from(pairs@, q.0).contains(q)),
        decreases pairs@.len() - i,
    {
        let a = pairs[i].0;
        let ghost before_done = done@;
        let ghost before_out = out@.to_set();
        if !holds(&done, a) {
            walk(a, pairs, &mut out);
            done.push(a);
            proof {
                assert forall|x: i64| done@.contains(x) <==> (before_done.contains(x) || x == a) by {
                    if done@.contains(x) {
                        let j = choose|j: int| 0 <= j < done@.len() && done@[j] == x;
                        if j < before_done.len() {
                            assert(before_done[j] == x);
                        }
                    }
                    if before_done.contains(x) {
                        let j = choose|j: int| 0 <= j < before_done.len() && before_done[j] == x;
                        assert(done@[j] == x);
                    }
                    if x == a {
                        assert(done@[before_done.len() as int] == x);
                    }
                }
                assert(out@.to_set() =~= Set::new(|q: (i64, i64)| done@.contains(q.0) && reach_from(pairs@, q.0).contains(q)));
            }
        }
        proof {
            assert forall|x: i64| done@.contains(x) <==> exists|j: int| 0 <= j < i + 1 && #[trigger] pairs@[j].0 == x by {
                if exists|j: int| 0 <= j < i + 1 && #[trigger] pairs@[j].0 == x {
                    let j = choose|j: int| 0 <= j < i + 1 && #[trigger] pairs@[j].0 == x;
                    if j < i {
                        assert(before_done.contains(x));
                    }
                }
                if done@.contains(x) && !before_done.contains(x) {
                    assert(pairs@[i as int].0 == x);
                }
                if before_done.contains(x) {
                    let j = choose|j: int| 0 <= j < i && #[trigger] pairs@[j].0 == x;
                    assert(pairs@[j].0 == x);
                }
            }
        }
        i = i + 1;
    }
    proof {
        assert forall|q: (i64, i64)| out@.to_set().contains(q) <==> closure_of(pairs@).contains(q) by {
            if closure_of(pairs@).contains(q) {
                lemma_starts(pairs@, q.0, q.1);
                let j = choose|j: int| 0 <= j < pairs@.len() && #[trigger] pairs@[j].0 == q.0;
                assert(done@.contains(q.0));
            }
        }
        assert(out@.to_set() =~= closure_of(pairs@));
    }
    out
}

/// The closure holds every tie between different rows.
pub proof fn lemma_closure_holds_ties(pairs: Seq<(i64, i64)>, a: i64, b: i64)
    requires
        linked(pairs, a, b),
        a != b,
    ensures
        closure_of(pairs).contains((a, b)),
{
    lemma_one(pairs, a, b);
}

/// The closure is transitive: rows it pairs in a chain are paired, unless
/// the chain comes back to where it started.
pub proof fn lemma_closure_transitive(pairs: Seq<(i64, i64)>, a: i64, b: i64, c: i64)
    requires
        closure_of(pairs).contains((a, b)),
        closure_of(pairs).contains((b, c)),
        a != c,
    ensures
        closure_of(pairs).contains((a, c)),
{
    let p = choose|p: Seq<i64>| chain_of(pairs, p) && p[0] == a && p.last() == b;
    let q = choose|q: Seq<i64>| chain_of(pairs, q) && q[0] == b && q.last() == c;
    let r = p + q.drop_first();
    assert forall|i: int| 0 <= i < r.len() - 1 implies linked(pairs, #[trigger] r[i], r[i + 1]) by {
        if i < p.len() - 1 {
            assert(r[i] == p[i] && r[i + 1] == p[i + 1]);
        } else if i == p.len() - 1 {
            assert(r[i] == b);
            assert(r[i + 1] == q[1]);
            assert(linked(pairs, q[0], q[1]));
        } else {
            let k = i - p.len() + 1;
            assert(r[i] == q[k] && r[i + 1] == q[k + 1]);
            assert(linked(pairs, q[k], q[k + 1]));
        }
    }
    assert(r.last() == c);
    assert(chain_of(pairs, r) && r[0] == a && r.last() == c);
}

} // verus!
