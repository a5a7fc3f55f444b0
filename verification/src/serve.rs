//! What the HTTP face decides: which status an error answers with, who a
//! request speaks for, and which cells a request body carries.
use vstd::prelude::*;
use crate::error::Error;
use crate::plan::{EdgeV, Plan, UnitV, edges_view, first_where, lemma_first_at, unit_of};
use crate::query::parse::{same_ci, same_ci_text};
use crate::text::{begins, ends, flag_text, lead, own, push_str, same, show_flag, strip, strip_lead, trail};

verus! {

/// An operator a request was authenticated as, by row key.
#[derive(Clone, Copy, Debug, PartialEq, Eq, Structural)]
pub struct Operator(pub i64);

/// A refused request: the HTTP status it answers with, and why.
#[derive(Debug)]
pub struct Fault {
    pub status: u16,
    pub note: String,
}

/// Not found.
pub const NOT_FOUND: u16 = 404;

/// Bad request.
pub const BAD_REQUEST: u16 = 400;

/// Conflict.
pub const CONFLICT: u16 = 409;

/// Forbidden.
pub const FORBIDDEN: u16 = 403;

/// Unauthorized.
pub const UNAUTHORIZED: u16 = 401;

/// A resource that is not there.
pub fn miss(name: &str) -> (r: Fault)
    ensures
        r.status == NOT_FOUND,
        r.note@ == "missing resource: "@ + name@,
{
    let mut note = own("missing resource: ");
    push_str(&mut note, name);
    Fault { status: NOT_FOUND, note }
}

/// A request that cannot be served as written.
pub fn bad(note: String) -> (r: Fault)
    ensures
        r.status == BAD_REQUEST,
        r.note@ == note@,
{
    Fault { status: BAD_REQUEST, note }
}

/// The status a refusal reason answers with: a missing row or tie is not
/// found; live ties, a live reference or a taken value conflict; a refusal
/// is forbidden; anything else is a bad request.
pub open spec fn status_of(note: Seq<char>) -> u16 {
    if lead(note, "missing row"@) || lead(note, "missing tie"@) {
        NOT_FOUND
    } else if lead(note, "live ties remain"@) || lead(note, "live ref exists"@) || trail(note, " taken"@) {
        CONFLICT
    } else if lead(note, "refused"@) {
        FORBIDDEN
    } else {
        BAD_REQUEST
    }
}

/// The answer an engine error gets.
pub fn triage(err: Error) -> (r: Fault)
    ensures
        match err {
            Error::Missing(name) => r.status == NOT_FOUND && r.note@ == "missing resource: "@ + name@,
            Error::Adapt(note) => r.status == status_of(note@) && r.note@ == note@,
            Error::Estate(f) => r.status == BAD_REQUEST && r.note@ == crate::estate::fault_note(f),
        },
{
    match err {
        Error::Missing(name) => miss(name.as_str()),
        Error::Adapt(note) => {
            let s = note.as_str();
            let status = if begins(s, "missing row") || begins(s, "missing tie") {
                NOT_FOUND
            } else if begins(s, "live ties remain") || begins(s, "live ref exists") || ends(s, " taken") {
                CONFLICT
            } else if begins(s, "refused") {
                FORBIDDEN
            } else {
                BAD_REQUEST
            };
            Fault { status, note }
        },
        Error::Estate(f) => Fault { status: BAD_REQUEST, note: f.note() },
    }
}

/// The sudo token an authorization header carries, if it carries one.
pub fn sudo_of(header: Option<&str>) -> (r: Option<String>)
    ensures
        match header {
            None => r is None,
            Some(h) => match strip(h@, "sudo "@) {
                Some(t) => r matches Some(x) && x@ == t,
                None => r is None,
            },
        },
{
    match header {
        None => None,
        Some(h) => strip_lead(h, "sudo "),
    }
}

/// The bond is named `bond`, ignoring ASCII case.
pub open spec fn named_ci(bond: Seq<char>) -> spec_fn(EdgeV) -> bool {
    |e: EdgeV| same_ci(e.name, bond)
}

/// The bond of unit `unit` named `bond`, ignoring ASCII case, as the
/// plan spells it.
pub open spec fn bond_route_spec(p: Seq<UnitV>, unit: Seq<char>, bond: Seq<char>) -> Result<Seq<char>, (u16, Seq<char>)> {
    match unit_of(p, unit) {
        None => Err((NOT_FOUND, "missing resource: "@ + unit)),
        Some(u) => match first_where(u.bonds, named_ci(bond)) {
            Some(i) => Ok(u.bonds[i].name),
            None => Err((BAD_REQUEST, "unknown bond "@ + bond)),
        },
    }
}

/// The bond a route names, as the plan spells it.
pub fn bond_route(plan: &Plan, unit: &str, bond: &str) -> (r: Result<String, Fault>)
    ensures
        match bond_route_spec(plan@, unit@, bond@) {
            Ok(n) => r matches Ok(x) && x@ == n,
            Err((s, m)) => r matches Err(f) && f.status == s && f.note@ == m,
        },
{
    let node = match plan.find(unit) {
        Ok(n) => n,
        Err(_) => return Err(miss(unit)),
    };
    let bonds = node.bonds();
    let ghost ev = node@.bonds;
    let ghost p = named_ci(bond@);
    let mut i: usize = 0;
    while i < bonds.len()
        invariant
            i <= bonds@.len(),
            ev == edges_view(bonds@),
            p == named_ci(bond@),
            ev == node@.bonds,
            unit_of(plan@, unit@) == Some(node@),
            forall|j: int| 0 <= j < i ==> !p(#[trigger] ev[j]),
        decreases bonds@.len() - i,
    {
        assert(ev[i as int] == bonds@[i as int]@);
        if same_ci_text(bonds[i].name(), bond) {
            proof {
                lemma_first_at(ev, p, i as int);
            }
            return Ok(own(bonds[i].name()));
        }
        i = i + 1;
    }
    proof {
        if first_where(ev, p) is Some {
            let c = first_where(ev, p)->0;
            assert(p(ev[c]));
        }
    }
    let mut note = own("unknown bond ");
    push_str(&mut note, bond);
    Err(bad(note))
}

/// A value of a request body, as the cells see it: text, a number as
/// written, a flag, null, or anything nested.
#[derive(Debug)]
pub enum Scalar {
    Text(String),
    Number(String),
    Flag(bool),
    Null,
    Nested,
}

/// The text a body value gives a cell, or none for a nested value.
pub open spec fn scalar_text(v: Scalar) -> Option<Seq<char>> {
    match v {
        Scalar::Text(s) => Some(s@),
        Scalar::Number(n) => Some(n@),
        Scalar::Flag(b) => Some(flag_text(b)),
        Scalar::Null => Some(Seq::empty()),
        Scalar::Nested => None,
    }
}

/// The contents of a request body.
pub open spec fn body_view(b: Seq<(String, Scalar)>) -> Seq<(Seq<char>, Scalar)> {
    b.map_values(|e: (String, Scalar)| (e.0@, e.1))
}

/// The cells a request body gives, in order, leaving out the `skip`
/// keys; a nested value fails.
pub open spec fn body_cells(b: Seq<(Seq<char>, Scalar)>, skip: Seq<Seq<char>>) -> Result<Seq<(Seq<char>, Seq<char>)>, Seq<char>>
    decreases b.len(),
{
    if b.len() == 0 {
        Ok(Seq::empty())
    } else {
        match body_cells(b.drop_last(), skip) {
            Err(m) => Err(m),
            Ok(cs) => {
                let (k, v) = b.last();
                if skip.contains(k) {
                    Ok(cs)
                } else {
                    match scalar_text(v) {
                        None => Err("field "@ + k + " must be scalar"@),
                        Some(t) => Ok(cs.push((k, t))),
                    }
                }
            },
        }
    }
}

proof fn lemma_body_fails(b: Seq<(Seq<char>, Scalar)>, skip: Seq<Seq<char>>, n: int)
    requires
        0 <= n <= b.len(),
        body_cells(b.take(n), skip) is Err,
    ensures
        body_cells(b, skip) == body_cells(b.take(n), skip),
    decreases b.len() - n,
{
    if n < b.len() {
        assert(b.take(n + 1).drop_last() =~= b.take(n));
        lemma_body_fails(b, skip, n + 1);
    } else {
        assert(b.take(n) =~= b);
    }
}

/// Whether `key` is among `skip`.
fn skipped(skip: &[&str], key: &str) -> (r: bool)
    ensures
        r == skip@.map_values(|s: &str| s@).contains(key@),
{
    let ghost sv = skip@.map_values(|s: &str| s@);
    let mut i: usize = 0;
    while i < skip.len()
        invariant
            i <= skip@.len(),
            sv == skip@.map_values(|s: &str| s@),
            forall|j: int| 0 <= j < i ==> sv[j] != key@,
        decreases skip@.len() - i,
    {
        assert(sv[i as int] == skip@[i as int]@);
        if same(skip[i], key) {
            return true;
        }
        i = i + 1;
    }
    false
}

/// The cells a request body gives.
pub fn cells(body: &[(String, Scalar)], skip: &[&str]) -> (r: Result<Vec<(String, String)>, Fault>)
    ensures
        match body_cells(body_view(body@), skip@.map_values(|s: &str| s@)) {
            Ok(cs) => r matches Ok(v) && v@.map_values(|e: (String, String)| (e.0@, e.1@)) == cs,
            Err(m) => r matches Err(f) && f.status == BAD_REQUEST && f.note@ == m,
        },
{
    let ghost bv = body_view(body@);
    let ghost sk = skip@.map_values(|s: &str| s@);
    let mut out: Vec<(String, String)> = Vec::new();
    let mut i: usize = 0;
    assert(bv.take(0) =~= Seq::<(Seq<char>, Scalar)>::empty());
    assert(out@.map_values(|e: (String, String)| (e.0@, e.1@)) =~= Seq::<(Seq<char>, Seq<char>)>::empty());
    while i < body.len()
        invariant
            i <= body@.len(),
            bv == body_view(body@),
            sk == skip@.map_values(|s: &str| s@),
            body_cells(bv.take(i as int), sk) == Ok::<Seq<(Seq<char>, Seq<char>)>, Seq<char>>(
                out@.map_values(|e: (String, String)| (e.0@, e.1@)),
            ),
        decreases body@.len() - i,
    {
        proof {
            assert(bv.take(i + 1).drop_last() =~= bv.take(i as int));
            assert(bv.take(i + 1).last() == (body@[i as int].0@, body@[i as int].1));
        }
        let key = body[i].0.as_str();
        if !skipped(skip, key) {
            let text = match &body[i].1 {
                Scalar::Text(s) => s.clone(),
                Scalar::Number(n) => n.clone(),
                Scalar::Flag(b) => show_flag(*b),
                Scalar::Null => String::new(),
                Scalar::Nested => {
                    proof {
                        lemma_body_fails(bv, sk, i + 1);
                    }
                    let mut note = own("field ");
                    push_str(&mut note, key);
                    push_str(&mut note, " must be scalar");
                    return Err(bad(note));
                },
            };
            let ghost before = out@;
            out.push((own(key), text));
            assert(out@.map_values(|e: (String, String)| (e.0@, e.1@)) =~= before.map_values(
                |e: (String, String)| (e.0@, e.1@),
            ).push((key@, text@)));
        }
        i = i + 1;
    }
    assert(bv.take(body@.len() as int) =~= bv);
    Ok(out)
}

} // verus!
