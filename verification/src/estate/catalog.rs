//! Reading the estate catalog: its root record and its generations, each
//! held to the lifecycle a generation may have.
use vstd::prelude::*;
use crate::ddl::Grain;
use crate::error::Error;
use crate::estate::Fault;
use crate::life::util::{int_val, opt_val, vals_view};
use crate::text::{own, push_str, same};
use crate::wire::{Val, ValV, val_text};

verus! {

/// The catalog format this engine reads.
pub const FORMAT: i64 = 11;

/// `e` is an unknown-estate fault saying `note`.
pub open spec fn unknown_is(e: Error, note: Seq<char>) -> bool {
    e matches Error::Estate(Fault::Unknown(n)) && n@ == note
}

fn unknown(note: &str) -> (e: Error)
    ensures
        unknown_is(e, note@),
{
    Error::Estate(Fault::Unknown(own(note)))
}

/// The contents of stored rows.
pub open spec fn lines_view(rows: Seq<Vec<Val>>) -> Seq<Seq<ValV>> {
    rows.map_values(|r: Vec<Val>| vals_view(r@))
}

/// Reads the catalog's root record: there must be exactly one, of three
/// values, in this engine's format; it gives the active generation and
/// the recorded shape.
pub fn catalog_root(roots: &[Vec<Val>]) -> (r: Result<(i64, String), Error>)
    ensures
        ({
            let rs = lines_view(roots@);
            if rs.len() != 1 || rs[0].len() != 3 {
                r matches Err(e) && unknown_is(e, "catalog needs one record"@)
            } else if int_val(rs[0][0]) != FORMAT {
                r matches Err(Error::Estate(Fault::Format { found, expected }))
                    && found == int_val(rs[0][0]) && expected == FORMAT
            } else {
                r matches Ok((active, shape)) && active == int_val(rs[0][1]) && shape@ == val_text(rs[0][2])
            }
        }),
{
    proof {
        if roots@.len() == 1 {
            assert(lines_view(roots@)[0] == vals_view(roots@[0]@));
        }
    }
    if roots.len() != 1 || roots[0].len() != 3 {
        return Err(unknown("catalog needs one record"));
    }
    let root = &roots[0];
    proof {
        assert(vals_view(root@)[0] == root@[0]@);
        assert(vals_view(root@)[1] == root@[1]@);
        assert(vals_view(root@)[2] == root@[2]@);
    }
    let found = root[0].integer();
    if found != FORMAT {
        return Err(Error::Estate(Fault::Format { found, expected: FORMAT }));
    }
    Ok((root[1].integer(), root[2].text()))
}

/// A generation's state.
pub open spec fn state_known(s: Seq<char>) -> bool {
    s == "active"@ || s == "candidate"@ || s == "cleanup"@
}

/// What is wrong with a generation record, if anything: it has six values;
/// its state is active, candidate or cleanup; it was created at a positive
/// time; a generation in cleanup was retired no earlier than created, and
/// no other was retired.
pub open spec fn lifecycle_fault(row: Seq<ValV>) -> Option<Seq<char>> {
    if row.len() != 6 {
        Some("generation record shape"@)
    } else {
        let state = val_text(row[1]);
        let created = int_val(row[4]);
        let retired = opt_val(row[5]);
        if !state_known(state) {
            Some("state "@ + state)
        } else if created <= 0 || (state == "cleanup"@ && (match retired {
            None => true,
            Some(at) => at < created,
        })) || (state != "cleanup"@ && retired is Some) {
            Some("generation lifecycle"@)
        } else {
            None
        }
    }
}

/// Checks a generation record's shape and lifecycle.
pub fn lifecycle(row: &Vec<Val>) -> (r: Result<(), Error>)
    ensures
        match lifecycle_fault(vals_view(row@)) {
            None => r is Ok,
            Some(m) => r matches Err(e) && unknown_is(e, m),
        },
{
    if row.len() != 6 {
        return Err(unknown("generation record shape"));
    }
    proof {
        assert(vals_view(row@)[1] == row@[1]@);
        assert(vals_view(row@)[4] == row@[4]@);
        assert(vals_view(row@)[5] == row@[5]@);
    }
    let state = row[1].text();
    let s = state.as_str();
    if !(same(s, "active") || same(s, "candidate") || same(s, "cleanup")) {
        let mut note = own("state ");
        push_str(&mut note, s);
        return Err(Error::Estate(Fault::Unknown(note)));
    }
    let created = row[4].integer();
    let retired = row[5].opt();
    let cleanup = same(s, "cleanup");
    let late = match retired {
        None => true,
        Some(at) => at < created,
    };
    if created <= 0 || (cleanup && late) || (!cleanup && retired.is_some()) {
        return Err(unknown("generation lifecycle"));
    }
    Ok(())
}

/// The first fault among generation records, in order: each record's
/// lifecycle, then what the caller found of its manifest.
pub open spec fn records_fault(rows: Seq<Seq<ValV>>, checks: Seq<Option<Seq<char>>>) -> Option<Seq<char>>
    decreases rows.len(),
{
    if rows.len() == 0 {
        None
    } else {
        match records_fault(rows.drop_last(), checks) {
            Some(m) => Some(m),
            None => match lifecycle_fault(rows.last()) {
                Some(m) => Some(m),
                None => checks[rows.len() - 1],
            },
        }
    }
}

/// The record is of an active generation.
pub open spec fn is_active(row: Seq<ValV>) -> bool {
    val_text(row[1]) == "active"@
}

/// How many of the records are of active generations.
pub open spec fn actives(rows: Seq<Seq<ValV>>) -> int
    decreases rows.len(),
{
    if rows.len() == 0 {
        0
    } else {
        actives(rows.drop_last()) + if is_active(rows.last()) { 1int } else { 0int }
    }
}

/// A fault on the first records stays the fault of them all.
proof fn lemma_records_fail(rows: Seq<Seq<ValV>>, checks: Seq<Option<Seq<char>>>, n: int)
    requires
        0 <= n <= rows.len(),
        records_fault(rows.take(n), checks) is Some,
    ensures
        records_fault(rows, checks) == records_fault(rows.take(n), checks),
    decreases rows.len() - n,
{
    if n < rows.len() {
        assert(rows.take(n + 1).drop_last() =~= rows.take(n));
        lemma_records_fail(rows, checks, n + 1);
    } else {
        assert(rows.take(n) =~= rows);
    }
}

/// Holds the generation records to their lifecycle and finds the active
/// one: `checks` says, record by record, what was found wrong with its
/// manifest. There must be exactly one active generation, and it must be
/// `active`; its place among the records is the result.
pub fn current_of(rows: &[Vec<Val>], checks: &[Option<String>], active: i64) -> (r: Result<usize, Error>)
    requires
        checks@.len() == rows@.len(),
    ensures
        ({
            let rs = lines_view(rows@);
            let cs = checks@.map_values(|c: Option<String>| match c {
                Some(s) => Some(s@),
                None => None,
            });
            match records_fault(rs, cs) {
                Some(m) => r matches Err(e) && unknown_is(e, m),
                None => if actives(rs) != 1 {
                    r matches Err(e) && unknown_is(e, "catalog needs one active generation"@)
                } else {
                    match r {
                        Ok(i) => i < rs.len() && is_active(rs[i as int]) && int_val(rs[i as int][0]) == active,
                        Err(e) => unknown_is(e, "catalog active generation mismatch"@) && forall|i: int|
                            0 <= i < rs.len() && is_active(#[trigger] rs[i]) ==> int_val(rs[i][0]) != active,
                    }
                },
            }
        }),
{
    let ghost rs = lines_view(rows@);
    let ghost cs = checks@.map_values(|c: Option<String>| match c {
        Some(s) => Some(s@),
        None => None,
    });
    let mut current: Option<usize> = None;
    let mut count: usize = 0;
    let mut i: usize = 0;
    assert(rs.take(0) =~= Seq::<Seq<ValV>>::empty());
    while i < rows.len()
        invariant
            i <= rows@.len(),
            checks@.len() == rows@.len(),
            rs == lines_view(rows@),
            cs == checks@.map_values(|c: Option<String>| match c {
                Some(s) => Some(s@),
                None => None,
            }),
            records_fault(rs.take(i as int), cs) is None,
            count == actives(rs.take(i as int)),
            count <= i,
            match current {
                Some(k) => k < i && is_active(rs[k as int]) && int_val(rs[k as int][0]) == active,
                None => forall|k: int| 0 <= k < i && is_active(#[trigger] rs[k]) ==> int_val(rs[k][0]) != active,
            },
        decreases rows@.len() - i,
    {
        proof {
            assert(rs.take(i + 1).drop_last() =~= rs.take(i as int));
            assert(rs.take(i + 1).last() == rs[i as int]);
            assert(rs[i as int] == vals_view(rows@[i as int]@));
            assert(cs[i as int] == match checks@[i as int] {
                Some(s) => Some(s@),
                None => None::<Seq<char>>,
            });
        }
        let row = &rows[i];
        match lifecycle(row) {
            Ok(()) => {},
            Err(e) => {
                proof {
                    lemma_records_fail(rs, cs, i + 1);
                }
                return Err(e);
            },
        }
        match &checks[i] {
            Some(note) => {
                proof {
                    lemma_records_fail(rs, cs, i + 1);
                }
                return Err(Error::Estate(Fault::Unknown(note.clone())));
            },
            None => {},
        }
        proof {
            assert(vals_view(row@)[1] == row@[1]@);
            assert(vals_view(row@)[0] == row@[0]@);
        }
        let state = row[1].text();
        if same(state.as_str(), "active") {
            count = count + 1;
            if row[0].integer() == active {
                current = Some(i);
            }
        }
        i = i + 1;
    }
    assert(rs.take(rows@.len() as int) =~= rs);
    if count != 1 {
        return Err(unknown("catalog needs one active generation"));
    }
    match current {
        Some(k) => Ok(k),
        None => Err(unknown("catalog active generation mismatch")),
    }
}

/// The integer column type of a dialect.
pub open spec fn int_type(grain: Grain) -> Seq<char> {
    match grain {
        Grain::Lite => "INTEGER"@,
        Grain::Pg => "BIGINT"@,
    }
}

/// The statements that create the catalog's tables: the root record, the
/// generations, the allocator clocks and the pending derivative events.
pub open spec fn script_of(grain: Grain) -> Seq<Seq<char>> {
    let ty = int_type(grain);
    seq![
        "CREATE TABLE \"@estate\" (id "@ + ty + " PRIMARY KEY NOT NULL, format "@ + ty
            + " NOT NULL, active "@ + ty + " NOT NULL, shape TEXT NOT NULL);"@,
        "CREATE TABLE \"@generation\" (id "@ + ty
            + " PRIMARY KEY NOT NULL, state TEXT NOT NULL, digest TEXT NOT NULL, created "@ + ty
            + " NOT NULL, retired "@ + ty + ");"@,
        "CREATE TABLE \"@clock\" (name TEXT PRIMARY KEY NOT NULL, value "@ + ty
            + " NOT NULL);"@,
        "CREATE TABLE \"@derivative\" (generation "@ + ty
            + " NOT NULL, path TEXT NOT NULL, key "@ + ty + " NOT NULL, created "@ + ty
            + " NOT NULL, PRIMARY KEY (generation, path, key));"@,
    ]
}

/// The statements that create the catalog's tables in dialect `grain`.
pub fn script(grain: Grain) -> (out: Vec<String>)
    ensures
        out@.map_values(|s: String| s@) == script_of(grain),
{
    let ty: &str = match grain {
        Grain::Lite => "INTEGER",
        Grain::Pg => "BIGINT",
    };
    assert(ty@ == int_type(grain));
    let mut a = own("CREATE TABLE \"@estate\" (id ");
    push_str(&mut a, ty);
    push_str(&mut a, " PRIMARY KEY NOT NULL, format ");
    push_str(&mut a, ty);
    push_str(&mut a, " NOT NULL, active ");
    push_str(&mut a, ty);
    push_str(&mut a, " NOT NULL, shape TEXT NOT NULL);");
    let mut b = own("CREATE TABLE \"@generation\" (id ");
    push_str(&mut b, ty);
    push_str(&mut b, " PRIMARY KEY NOT NULL, state TEXT NOT NULL, digest TEXT NOT NULL, created ");
    push_str(&mut b, ty);
    push_str(&mut b, " NOT NULL, retired ");
    push_str(&mut b, ty);
    push_str(&mut b, ");");
    let mut c = own("CREATE TABLE \"@clock\" (name TEXT PRIMARY KEY NOT NULL, value ");
    push_str(&mut c, ty);
    push_str(&mut c, " NOT NULL);");
    let mut d = own("CREATE TABLE \"@derivative\" (generation ");
    push_str(&mut d, ty);
    push_str(&mut d, " NOT NULL, path TEXT NOT NULL, key ");
    push_str(&mut d, ty);
    push_str(&mut d, " NOT NULL, created ");
    push_str(&mut d, ty);
    push_str(&mut d, " NOT NULL, PRIMARY KEY (generation, path, key));");
    let ghost (av, bv, cv, dv) = (a@, b@, c@, d@);
    let out = vec![a, b, c, d];
    assert(out@.map_values(|s: String| s@) =~= script_of(grain));
    out
}

} // verus!
