//! Cleanup decisions: which retired generations are due, and the purge
//! events the retained derivative records make for the caller's hook.
use vstd::prelude::*;
use crate::config::{Retain, retain_of};
use crate::text::{all_digits, digits_value};
use crate::error::Error;
use crate::estate::Fault;
use crate::estate::catalog::{lines_view, unknown_is};
use crate::estate::hook::{Gone, GoneV, gones_view, Purge};
use crate::life::util::{int_val, opt_val, vals_view};
use crate::text::own;
use crate::wire::{Val, ValV, val_text};

verus! {

fn unknown(note: &str) -> (e: Error)
    ensures
        unknown_is(e, note@),
{
    Error::Estate(Fault::Unknown(own(note)))
}

/// Why a cleanup refuses to go on: a malformed cleanup record, one without
/// a retirement time, a generation record that changed under it, or an
/// estate root that did not take the new shape.
#[derive(Clone, Copy, Debug, PartialEq, Eq, Structural)]
pub enum Refusal {
    Shape,
    Retirement,
    Changed,
    Root,
}

/// The note of a refusal, as written in its fault.
pub open spec fn refusal_note(r: Refusal) -> Seq<char> {
    match r {
        Refusal::Shape => "cleanup record shape"@,
        Refusal::Retirement => "cleanup retirement"@,
        Refusal::Changed => "cleanup generation changed"@,
        Refusal::Root => "cleanup estate root"@,
    }
}

impl Refusal {
    /// The error a refusal is reported as.
    pub fn error(&self) -> (e: Error)
        ensures
            unknown_is(e, refusal_note(*self)),
    {
        match self {
            Refusal::Shape => unknown("cleanup record shape"),
            Refusal::Retirement => unknown("cleanup retirement"),
            Refusal::Changed => unknown("cleanup generation changed"),
            Refusal::Root => unknown("cleanup estate root"),
        }
    }
}

/// The generations due for collection among cleanup records `rows`
/// (each its id and retirement time), in order; a malformed record fails.
pub open spec fn due_spec(rows: Seq<Seq<ValV>>, retain: Retain, now: i64) -> Result<Seq<i64>, Refusal>
    decreases rows.len(),
{
    if rows.len() == 0 {
        Ok(Seq::empty())
    } else {
        match due_spec(rows.drop_last(), retain, now) {
            Err(m) => Err(m),
            Ok(ids) => {
                let row = rows.last();
                if row.len() != 2 {
                    Err(Refusal::Shape)
                } else {
                    match opt_val(row[1]) {
                        None => Err(Refusal::Retirement),
                        Some(at) => if retain.due_at(at, now) {
                            Ok(ids.push(int_val(row[0])))
                        } else {
                            Ok(ids)
                        },
                    }
                }
            },
        }
    }
}

proof fn lemma_due_fails(rows: Seq<Seq<ValV>>, retain: Retain, now: i64, n: int)
    requires
        0 <= n <= rows.len(),
        due_spec(rows.take(n), retain, now) is Err,
    ensures
        due_spec(rows, retain, now) == due_spec(rows.take(n), retain, now),
    decreases rows.len() - n,
{
    if n < rows.len() {
        assert(rows.take(n + 1).drop_last() =~= rows.take(n));
        lemma_due_fails(rows, retain, now, n + 1);
    } else {
        assert(rows.take(n) =~= rows);
    }
}

/// Retention `forever` disables collection: whatever the records and the
/// time, no generation is ever due.
pub proof fn lemma_forever_keeps_all(rows: Seq<Seq<ValV>>, now: i64)
    ensures
        retain_of("forever"@) == Some(Retain::Forever),
        due_spec(rows, Retain::Forever, now) matches Ok(ids) ==> ids.len() == 0,
    decreases rows.len(),
{
    reveal_strlit("forever");
    if rows.len() > 0 {
        lemma_forever_keeps_all(rows.drop_last(), now);
    }
}

/// Retention `0s` makes retired generations eligible at once: every
/// well-formed record retired no later than `now` is due.
pub proof fn lemma_zero_takes_all(rows: Seq<Seq<ValV>>, now: i64)
    ensures
        retain_of("0s"@) == Some(Retain::After(0)),
        due_spec(rows, Retain::After(0), now) matches Ok(ids) ==> forall|i: int|
            0 <= i < rows.len() && rows[i].len() == 2 && (opt_val(rows[i][1]) matches Some(at)
                && at <= now) ==> ids.contains(int_val(#[trigger] rows[i][0])),
    decreases rows.len(),
{
    reveal_strlit("0s");
    reveal_strlit("forever");
    let z = "0s"@;
    assert(z.len() != "forever"@.len());
    assert(z.drop_last() =~= seq!['0']);
    assert(all_digits(z.drop_last()));
    assert(seq!['0'].drop_last() =~= Seq::<char>::empty());
    assert(digits_value(Seq::<char>::empty()) == 0);
    assert(digits_value(seq!['0']) == digits_value(seq!['0'].drop_last()) * 10
        + crate::text::digit_value(seq!['0'].last()));
    assert(digits_value(z.drop_last()) == 0);
    assert(z.len() == 2 && z.last() == 's');
    if rows.len() > 0 {
        let t = rows.drop_last();
        lemma_zero_takes_all(t, now);
        if let Ok(ids) = due_spec(rows, Retain::After(0), now) {
            if let Ok(prev) = due_spec(t, Retain::After(0), now) {
                assert forall|i: int|
                    0 <= i < rows.len() && rows[i].len() == 2 && (opt_val(rows[i][1]) matches Some(
                        at,
                    ) && at <= now) implies ids.contains(int_val(#[trigger] rows[i][0])) by {
                    if i < t.len() {
                        assert(t[i] == rows[i]);
                        assert(prev.contains(int_val(t[i][0])));
                        let k = choose|k: int| 0 <= k < prev.len() && prev[k] == int_val(t[i][0]);
                        assert(ids[k] == prev[k]);
                    } else {
                        assert(ids.last() == int_val(rows[i][0]));
                        assert(ids[ids.len() - 1] == int_val(rows[i][0]));
                    }
                }
            }
        }
    }
}

/// The generations due for collection at `now`, or why the records refuse.
pub fn due_list(rows: &[Vec<Val>], retain: &Retain, now: i64) -> (r: Result<Vec<i64>, Refusal>)
    ensures
        match due_spec(lines_view(rows@), *retain, now) {
            Ok(ids) => r matches Ok(v) && v@ == ids,
            Err(m) => r == Err::<Vec<i64>, Refusal>(m),
        },
{
    let ghost rs = lines_view(rows@);
    let mut out: Vec<i64> = Vec::new();
    let mut i: usize = 0;
    assert(rs.take(0) =~= Seq::<Seq<ValV>>::empty());
    while i < rows.len()
        invariant
            i <= rows@.len(),
            rs == lines_view(rows@),
            due_spec(rs.take(i as int), *retain, now) == Ok::<Seq<i64>, Refusal>(out@),
        decreases rows@.len() - i,
    {
        proof {
            assert(rs.take(i + 1).drop_last() =~= rs.take(i as int));
            assert(rs.take(i + 1).last() == rs[i as int]);
            assert(rs[i as int] == vals_view(rows@[i as int]@));
        }
        let row = &rows[i];
        if row.len() != 2 {
            proof {
                lemma_due_fails(rs, *retain, now, i + 1);
            }
            return Err(Refusal::Shape);
        }
        proof {
            assert(vals_view(row@)[0] == row@[0]@);
            assert(vals_view(row@)[1] == row@[1]@);
        }
        let retired = match row[1].opt() {
            Some(at) => at,
            None => {
                proof {
                    lemma_due_fails(rs, *retain, now, i + 1);
                }
                return Err(Refusal::Retirement);
            },
        };
        if retain.elapsed(retired, now) {
            out.push(row[0].integer());
        }
        i = i + 1;
    }
    assert(rs.take(rows@.len() as int) =~= rs);
    Ok(out)
}

/// The generations due for collection at `now`.
pub fn due(rows: &[Vec<Val>], retain: &Retain, now: i64) -> (r: Result<Vec<i64>, Error>)
    ensures
        match due_spec(lines_view(rows@), *retain, now) {
            Ok(ids) => r matches Ok(v) && v@ == ids,
            Err(m) => r matches Err(e) && unknown_is(e, refusal_note(m)),
        },
{
    match due_list(rows, retain, now) {
        Ok(v) => Ok(v),
        Err(m) => Err(m.error()),
    }
}

/// A derivative record: four values, created at a positive time.
pub open spec fn record_ok(row: Seq<ValV>) -> bool {
    row.len() == 4 && int_val(row[3]) > 0
}

/// The purged row a derivative record names.
pub open spec fn gone_of(row: Seq<ValV>) -> GoneV {
    GoneV { path: val_text(row[1]), key: int_val(row[2]) }
}

/// The purged rows the records of generation `g` name, in order.
pub open spec fn group_of(rows: Seq<Seq<ValV>>, g: i64) -> Seq<GoneV>
    decreases rows.len(),
{
    if rows.len() == 0 {
        Seq::empty()
    } else {
        let rest = group_of(rows.drop_last(), g);
        if int_val(rows.last()[0]) == g {
            rest.push(gone_of(rows.last()))
        } else {
            rest
        }
    }
}

/// Some record is of generation `g`.
pub open spec fn has_generation(rows: Seq<Seq<ValV>>, g: i64) -> bool {
    exists|i: int| 0 <= i < rows.len() && int_val(#[trigger] rows[i][0]) == g
}

/// Records of no generation `g` name no purged rows of it.
proof fn lemma_group_empty(rows: Seq<Seq<ValV>>, g: i64)
    requires
        !has_generation(rows, g),
    ensures
        group_of(rows, g) == Seq::<GoneV>::empty(),
    decreases rows.len(),
{
    if rows.len() > 0 {
        let p = rows.drop_last();
        assert(!has_generation(p, g)) by {
            if has_generation(p, g) {
                let i = choose|i: int| 0 <= i < p.len() && int_val(#[trigger] p[i][0]) == g;
                assert(rows[i] == p[i]);
            }
        }
        lemma_group_empty(p, g);
        assert(int_val(rows[rows.len() - 1][0]) != g);
    }
}

/// One more record extends its generation's group and leaves the others.
proof fn lemma_group_step(rows: Seq<Seq<ValV>>, i: int, g: i64)
    requires
        0 <= i < rows.len(),
    ensures
        group_of(rows.take(i + 1), g) == (if int_val(rows[i][0]) == g {
            group_of(rows.take(i), g).push(gone_of(rows[i]))
        } else {
            group_of(rows.take(i), g)
        }),
        has_generation(rows.take(i + 1), g) == (has_generation(rows.take(i), g) || int_val(rows[i][0]) == g),
{
    assert(rows.take(i + 1).drop_last() =~= rows.take(i));
    assert(rows.take(i + 1).last() == rows[i]);
    let a = rows.take(i);
    let b = rows.take(i + 1);
    if has_generation(b, g) {
        let k = choose|k: int| 0 <= k < b.len() && int_val(#[trigger] b[k][0]) == g;
        if k < i {
            assert(a[k] == b[k]);
        }
    }
    if has_generation(a, g) {
        let k = choose|k: int| 0 <= k < a.len() && int_val(#[trigger] a[k][0]) == g;
        assert(b[k] == a[k]);
    }
    if int_val(rows[i][0]) == g {
        assert(b[i] == rows[i]);
    }
}

/// The purge events the derivative records make: one per generation, in
/// ascending order of generation, each naming its records' rows in order.
pub open spec fn pending_ok(rows: Seq<Seq<ValV>>, out: Seq<Purge>) -> bool {
    &&& forall|a: int, b: int| 0 <= a < b < out.len() ==> #[trigger] out[a].era() < #[trigger] out[b].era()
    &&& forall|k: int| 0 <= k < out.len() ==> #[trigger] out[k].taken() == group_of(rows, out[k].era())
    &&& forall|g: i64| has_generation(rows, g) <==> exists|k: int| 0 <= k < out.len() && #[trigger] out[k].era() == g
}

/// The groups built so far, kept in ascending order of generation.
spec fn groups_ok(rows: Seq<Seq<ValV>>, v: Seq<(i64, Vec<Gone>)>) -> bool {
    &&& forall|a: int, b: int| 0 <= a < b < v.len() ==> #[trigger] v[a].0 < #[trigger] v[b].0
    &&& forall|k: int| 0 <= k < v.len() ==> gones_view((#[trigger] v[k]).1@) == group_of(rows, v[k].0)
    &&& forall|g: i64| has_generation(rows, g) <==> exists|k: int| 0 <= k < v.len() && #[trigger] v[k].0 == g
}

/// Groups the retained derivative records into purge events, one per
/// generation; a malformed record fails.
pub fn pending(rows: &[Vec<Val>]) -> (r: Result<Vec<Purge>, Error>)
    ensures
        match r {
            Ok(v) => (forall|i: int| 0 <= i < rows@.len() ==> record_ok(#[trigger] lines_view(rows@)[i]))
                && pending_ok(lines_view(rows@), v@),
            Err(e) => unknown_is(e, "derivative record shape"@) && exists|i: int|
                0 <= i < rows@.len() && !record_ok(#[trigger] lines_view(rows@)[i]),
        },
{
    let ghost rs = lines_view(rows@);
    let mut j: usize = 0;
    while j < rows.len()
        invariant
            j <= rows@.len(),
            rs == lines_view(rows@),
            forall|i: int| 0 <= i < j ==> record_ok(#[trigger] rs[i]),
        decreases rows@.len() - j,
    {
        let row = &rows[j];
        proof {
            assert(rs[j as int] == vals_view(row@));
        }
        if row.len() != 4 {
            return Err(unknown("derivative record shape"));
        }
        proof {
            assert(vals_view(row@)[3] == row@[3]@);
        }
        if row[3].integer() <= 0 {
            return Err(unknown("derivative record shape"));
        }
        j = j + 1;
    }
    let mut groups: Vec<(i64, Vec<Gone>)> = Vec::new();
    let mut i: usize = 0;
    proof {
        assert(rs.take(0) =~= Seq::<Seq<ValV>>::empty());
        assert forall|g: i64| has_generation(rs.take(0), g) <==> exists|k: int| 0 <= k < groups@.len() && #[trigger] groups@[k].0 == g by {}
    }
    while i < rows.len()
        invariant
            i <= rows@.len(),
            rs == lines_view(rows@),
            forall|q: int| 0 <= q < rows@.len() ==> record_ok(#[trigger] rs[q]),
            groups_ok(rs.take(i as int), groups@),
        decreases rows@.len() - i,
    {
        let row = &rows[i];
        proof {
            assert(rs[i as int] == vals_view(row@));
            assert(record_ok(rs[i as int]));
            assert(vals_view(row@)[0] == row@[0]@);
            assert(vals_view(row@)[1] == row@[1]@);
            assert(vals_view(row@)[2] == row@[2]@);
        }
        let g = row[0].integer();
        let gone = Gone::new(row[1].text(), row[2].integer());
        let ghost before = groups@;
        let ghost prev = rs.take(i as int);
        let ghost next = rs.take(i + 1);
        let mut k: usize = 0;
        while k < groups.len() && groups[k].0 < g
            invariant
                k <= groups@.len(),
                groups@ == before,
                forall|q: int| 0 <= q < k ==> #[trigger] before[q].0 < g,
            decreases groups@.len() - k,
        {
            k = k + 1;
        }
        if k < groups.len() && groups[k].0 == g {
            let mut entry = groups.remove(k);
            let ghost old_list = entry.1@;
            entry.1.push(gone);
            groups.insert(k, entry);
            proof {
                assert(groups@ =~= before.update(k as int, (g, entry.1)));
                assert(gones_view(entry.1@) =~= gones_view(old_list).push(gone@));
                assert forall|q: int| 0 <= q < groups@.len() implies gones_view((#[trigger] groups@[q]).1@) == group_of(next, groups@[q].0) by {
                    lemma_group_step(rs, i as int, groups@[q].0);
                    if q != k {
                        assert(groups@[q] == before[q]);
                        assert(before[q].0 != g) by {
                            if q < k {
                            } else {
                                assert(before[k as int].0 < before[q].0);
                            }
                        }
                    }
                }
                assert forall|h: i64| has_generation(next, h) <==> exists|q: int| 0 <= q < groups@.len() && #[trigger] groups@[q].0 == h by {
                    lemma_group_step(rs, i as int, h);
                    if has_generation(prev, h) {
                        let q = choose|q: int| 0 <= q < before.len() && #[trigger] before[q].0 == h;
                        assert(groups@[q].0 == h);
                    }
                    if h == g {
                        assert(groups@[k as int].0 == h);
                    }
                    if exists|q: int| 0 <= q < groups@.len() && #[trigger] groups@[q].0 == h {
                        let q = choose|q: int| 0 <= q < groups@.len() && #[trigger] groups@[q].0 == h;
                        assert(before[q].0 == h);
                    }
                }
                assert forall|a: int, b: int| 0 <= a < b < groups@.len() implies #[trigger] groups@[a].0 < #[trigger] groups@[b].0 by {
                    assert(groups@[a].0 == before[a].0 && groups@[b].0 == before[b].0);
                }
            }
        } else {
            let mut list: Vec<Gone> = Vec::new();
            list.push(gone);
            groups.insert(k, (g, list));
            proof {
                let n = groups@;
                assert(n =~= before.insert(k as int, (g, list)));
                assert(!has_generation(prev, g)) by {
                    if has_generation(prev, g) {
                        let q = choose|q: int| 0 <= q < before.len() && #[trigger] before[q].0 == g;
                        if q < k {
                        } else if q == k {
                        } else {
                            assert(before[k as int].0 < before[q].0);
                            assert(before[k as int].0 > g);
                        }
                    }
                }
                lemma_group_empty(prev, g);
                assert(gones_view(list@) =~= Seq::<GoneV>::empty().push(gone@));
                assert forall|q: int| 0 <= q < n.len() implies gones_view((#[trigger] n[q]).1@) == group_of(next, n[q].0) by {
                    lemma_group_step(rs, i as int, n[q].0);
                    if q < k {
                        assert(n[q] == before[q]);
                    } else if q > k {
                        assert(n[q] == before[q - 1]);
                        assert(before[q - 1].0 != g) by {
                            if k < before.len() {
                                if q - 1 > k {
                                    assert(before[k as int].0 < before[q - 1].0);
                                }
                            }
                        }
                    }
                }
                assert forall|h: i64| has_generation(next, h) <==> exists|q: int| 0 <= q < n.len() && #[trigger] n[q].0 == h by {
                    lemma_group_step(rs, i as int, h);
                    if has_generation(prev, h) {
                        let q = choose|q: int| 0 <= q < before.len() && #[trigger] before[q].0 == h;
                        if q < k {
                            assert(n[q].0 == h);
                        } else {
                            assert(n[q + 1].0 == h);
                        }
                    }
                    if h == g {
                        assert(n[k as int].0 == h);
                    }
                    if exists|q: int| 0 <= q < n.len() && #[trigger] n[q].0 == h {
                        let q = choose|q: int| 0 <= q < n.len() && #[trigger] n[q].0 == h;
                        if q < k {
                            assert(before[q].0 == h);
                        } else if q > k {
                            assert(before[q - 1].0 == h);
                        }
                    }
                }
                assert forall|a: int, b: int| 0 <= a < b < n.len() implies #[trigger] n[a].0 < #[trigger] n[b].0 by {
                    if a < k && b == k {
                    } else if a < k && b > k {
                        assert(n[b] == before[b - 1]);
                    } else if a == k {
                        assert(n[b] == before[b - 1]);
                        if b - 1 > k {
                            assert(before[k as int].0 < before[b - 1].0);
                        }
                    } else if a > k {
                        assert(n[a] == before[a - 1] && n[b] == before[b - 1]);
                    } else {
                        assert(n[a] == before[a] && n[b] == before[b]);
                    }
                }
            }
        }
        i = i + 1;
    }
    assert(rs.take(rows@.len() as int) =~= rs);
    let ghost fg = groups@;
    let mut rest = groups;
    let mut out: Vec<Purge> = Vec::new();
    assert(fg.skip(0) =~= fg);
    while rest.len() > 0
        invariant
            out@.len() <= fg.len(),
            rest@ == fg.skip(out@.len() as int),
            forall|k: int| 0 <= k < out@.len() ==> (#[trigger] out@[k]).era() == fg[k].0
                && out@[k].taken() == gones_view(fg[k].1@),
        decreases rest@.len(),
    {
        let ghost n = out@.len();
        assert(rest@[0] == fg[n as int]);
        let (g, list) = rest.remove(0);
        out.push(Purge::new(g, list));
        assert(rest@ =~= fg.skip((n + 1) as int));
    }
    proof {
        assert(out@.len() == fg.len());
        let ov = out@;
        assert forall|a: int, b: int| 0 <= a < b < ov.len() implies #[trigger] ov[a].era() < #[trigger] ov[b].era() by {
            assert(ov[a].era() == fg[a].0 && ov[b].era() == fg[b].0);
        }
        assert forall|k: int| 0 <= k < ov.len() implies #[trigger] ov[k].taken() == group_of(rs, ov[k].era()) by {
            assert(ov[k].era() == fg[k].0);
        }
        assert forall|g: i64| has_generation(rs, g) <==> exists|k: int| 0 <= k < ov.len() && #[trigger] ov[k].era() == g by {
            if has_generation(rs, g) {
                let k = choose|k: int| 0 <= k < fg.len() && #[trigger] fg[k].0 == g;
                assert(ov[k].era() == g);
            }
            if exists|k: int| 0 <= k < ov.len() && #[trigger] ov[k].era() == g {
                let k = choose|k: int| 0 <= k < ov.len() && #[trigger] ov[k].era() == g;
                assert(fg[k].0 == g);
            }
        }
    }
    Ok(out)
}

/// Deleting a collected generation's record must remove exactly that one
/// record; otherwise the catalog changed under the cleanup.
pub fn retired_once(removed: u64) -> (r: Result<(), Error>)
    ensures
        r is Ok <==> removed == 1,
        r matches Err(e) ==> unknown_is(e, "cleanup generation changed"@),
{
    if removed != 1 {
        return Err(unknown("cleanup generation changed"));
    }
    Ok(())
}

/// Resealing the estate's shape after a cleanup must change exactly the
/// root record.
pub fn rooted(changed: u64) -> (r: Result<(), Error>)
    ensures
        r is Ok <==> changed == 1,
        r matches Err(e) ==> unknown_is(e, "cleanup estate root"@),
{
    if changed != 1 {
        return Err(unknown("cleanup estate root"));
    }
    Ok(())
}

/// A hook's purge event is acknowledged when deleting its records removed
/// one record per row the event named.
pub fn acknowledged(removed: u64, event: &Purge) -> (r: Result<(), Error>)
    ensures
        r is Ok <==> removed == event.taken().len(),
        r matches Err(e) ==> unknown_is(e, "derivative acknowledgement"@),
{
    let n = event.gone().len();
    if removed != n as u64 {
        return Err(unknown("derivative acknowledgement"));
    }
    Ok(())
}

} // verus!
