//! Names of the counters the estate keeps: one per unit, per bond, and per
//! serial field and scope value.
use vstd::prelude::*;
use vstd::utf8::encode_utf8;
use crate::error::Error;
use crate::estate::Fault;
use crate::estate::catalog::{lines_view, unknown_is};
use crate::life::etch::keys_view;
use crate::life::util::{int_val, opt_val, vals_view};
use crate::text::{decimal, digits, lemma_decimal_injective, lemma_digits_shape, is_digit, own, push_str, same, show_int, show_nat};
use crate::wire::{Val, ValV};

verus! {

/// The counter of unit `key`.
pub open spec fn unit_clock(key: Seq<char>) -> Seq<char> {
    "unit:"@ + key
}

/// The counter of bond `edge` of `unit`.
pub open spec fn bond_clock(unit: Seq<char>, edge: Seq<char>) -> Seq<char> {
    "bond:"@ + unit + "."@ + edge
}

/// A scope value as text: its kind, then the value; text carries its byte
/// length before it.
pub open spec fn scope_text(v: ValV) -> Seq<char> {
    match v {
        ValV::Null => "null"@,
        ValV::Int(i) => "int:"@ + decimal(i as int),
        ValV::Text(s) => "text:"@ + digits((encode_utf8(s).len() as usize) as nat) + ":"@ + s,
    }
}

/// The counter of serial field `slot` of `unit` within scope value `v`.
pub open spec fn serial_clock(unit: Seq<char>, slot: Seq<char>, v: ValV) -> Seq<char> {
    "serial:"@ + unit + ":"@ + slot + ":"@ + scope_text(v)
}

/// The counter name of unit `key`.
pub fn unit(key: &str) -> (r: String)
    ensures
        r@ == unit_clock(key@),
{
    let mut s = own("unit:");
    push_str(&mut s, key);
    s
}

/// The counter name of bond `edge` of `unit`.
pub fn bond(unit: &str, edge: &str) -> (r: String)
    ensures
        r@ == bond_clock(unit@, edge@),
{
    let mut s = own("bond:");
    push_str(&mut s, unit);
    push_str(&mut s, ".");
    push_str(&mut s, edge);
    s
}

/// The counter name of serial field `slot` of `unit` within `scope`.
pub fn serial(unit: &str, slot: &str, scope: &Val) -> (r: Result<String, Error>)
    ensures
        r matches Ok(s) && s@ == serial_clock(unit@, slot@, scope@),
{
    let mut s = own("serial:");
    push_str(&mut s, unit);
    push_str(&mut s, ":");
    push_str(&mut s, slot);
    push_str(&mut s, ":");
    match scope {
        Val::Null => push_str(&mut s, "null"),
        Val::Int(value) => {
            push_str(&mut s, "int:");
            let t = show_int(*value);
            push_str(&mut s, t.as_str());
        },
        Val::Text(value) => {
            push_str(&mut s, "text:");
            let n = value.as_str().len();
            let t = show_nat(n as u64);
            push_str(&mut s, t.as_str());
            push_str(&mut s, ":");
            push_str(&mut s, value.as_str());
        },
    }
    Ok(s)
}

/// A text with a decimal length prefix and a colon gives back the text.
proof fn lemma_counted(n1: nat, s1: Seq<char>, n2: nat, s2: Seq<char>)
    requires
        digits(n1) + ":"@ + s1 == digits(n2) + ":"@ + s2,
    ensures
        s1 == s2,
{
    reveal_strlit(":");
    lemma_digits_shape(n1);
    lemma_digits_shape(n2);
    let x = digits(n1) + ":"@ + s1;
    let k1 = digits(n1).len() as int;
    let k2 = digits(n2).len() as int;
    assert(x[k1] == ':');
    assert(x[k2] == ':');
    if k1 < k2 {
        assert(x[k1] == digits(n2)[k1]);
        assert(is_digit(digits(n2)[k1]));
    } else if k2 < k1 {
        assert(x[k2] == digits(n1)[k2]);
        assert(is_digit(digits(n1)[k2]));
    }
    assert(x.skip(k1 + 1) =~= s1);
    assert((digits(n2) + ":"@ + s2).skip(k2 + 1) =~= s2);
}

/// For one field of one unit, different scope values name different
/// counters: no two scopes share a serial.
pub proof fn lemma_serial_distinct(unit: Seq<char>, slot: Seq<char>, a: ValV, b: ValV)
    requires
        serial_clock(unit, slot, a) == serial_clock(unit, slot, b),
    ensures
        a == b,
{
    reveal_strlit("serial:");
    reveal_strlit(":");
    reveal_strlit("null");
    reveal_strlit("int:");
    reveal_strlit("text:");
    let p = "serial:"@ + unit + ":"@ + slot + ":"@;
    assert((p + scope_text(a)).skip(p.len() as int) =~= scope_text(a));
    assert((p + scope_text(b)).skip(p.len() as int) =~= scope_text(b));
    let ta = scope_text(a);
    let tb = scope_text(b);
    assert(ta == tb);
    match (a, b) {
        (ValV::Int(x), ValV::Int(y)) => {
            assert(ta.skip(4) =~= decimal(x as int));
            assert(tb.skip(4) =~= decimal(y as int));
            lemma_decimal_injective(x as int, y as int);
        },
        (ValV::Text(x), ValV::Text(y)) => {
            let nx = (encode_utf8(x).len() as usize) as nat;
            let ny = (encode_utf8(y).len() as usize) as nat;
            let rx = digits(nx) + ":"@ + x;
            let ry = digits(ny) + ":"@ + y;
            assert(ta.skip(5) =~= rx);
            assert(tb.skip(5) =~= ry);
            lemma_counted(nx, x, ny, y);
        },
        (ValV::Null, ValV::Null) => {},
        _ => {
            assert(ta[0] != tb[0]);
        },
    }
}

fn unknown(note: &str) -> (e: Error)
    ensures
        unknown_is(e, note@),
{
    Error::Estate(Fault::Unknown(own(note)))
}

/// The high-water key a `MAX` query answers: one record of one value, the
/// largest key stored or null for none (read as 0).
pub open spec fn maximum_spec(rows: Seq<Seq<ValV>>) -> Result<i64, Seq<char>> {
    if rows.len() != 1 || rows[0].len() != 1 {
        Err("clock source shape"@)
    } else {
        match opt_val(rows[0][0]) {
            Some(v) => Ok(v),
            None => Ok(0),
        }
    }
}

/// Reads the high-water key a `MAX` query answered.
pub fn maximum(rows: &[Vec<Val>]) -> (r: Result<i64, Error>)
    ensures
        match maximum_spec(lines_view(rows@)) {
            Ok(v) => r matches Ok(x) && x == v,
            Err(n) => r matches Err(e) && unknown_is(e, n),
        },
{
    proof {
        if rows@.len() == 1 {
            assert(lines_view(rows@)[0] == vals_view(rows@[0]@));
        }
    }
    if rows.len() != 1 || rows[0].len() != 1 {
        return Err(unknown("clock source shape"));
    }
    assert(vals_view(rows@[0]@)[0] == rows@[0]@[0]@);
    match rows[0][0].opt() {
        Some(v) => Ok(v),
        None => Ok(0),
    }
}

/// Each name occurs once.
pub open spec fn unique_names(s: Seq<(Seq<char>, i64)>) -> bool {
    forall|i: int, j: int| 0 <= i < j < s.len() ==> #[trigger] s[i].0 != #[trigger] s[j].0
}

/// Named marks as a map.
pub open spec fn marks(s: Seq<(Seq<char>, i64)>) -> Map<Seq<char>, i64> {
    Map::new(
        |k: Seq<char>| exists|i: int| 0 <= i < s.len() && s[i].0 == k,
        |k: Seq<char>| s[choose|i: int| 0 <= i < s.len() && s[i].0 == k].1,
    )
}

proof fn lemma_marks_at(s: Seq<(Seq<char>, i64)>, i: int)
    requires
        unique_names(s),
        0 <= i < s.len(),
    ensures
        marks(s).dom().contains(s[i].0),
        marks(s)[s[i].0] == s[i].1,
{
    let j = choose|j: int| 0 <= j < s.len() && s[j].0 == s[i].0;
    if j != i {
        if j < i {
            assert(s[j].0 != s[i].0);
        } else {
            assert(s[i].0 != s[j].0);
        }
    }
}

proof fn lemma_marks_update(s: Seq<(Seq<char>, i64)>, i: int, v: i64)
    requires
        unique_names(s),
        0 <= i < s.len(),
    ensures
        unique_names(s.update(i, (s[i].0, v))),
        marks(s.update(i, (s[i].0, v))) == marks(s).insert(s[i].0, v),
{
    let t = s.update(i, (s[i].0, v));
    assert forall|a: int, b: int| 0 <= a < b < t.len() implies #[trigger] t[a].0 != #[trigger] t[b].0 by {
        assert(t[a].0 == s[a].0);
        assert(t[b].0 == s[b].0);
    }
    assert forall|k: Seq<char>| marks(t).dom().contains(k) <==> marks(s).insert(s[i].0, v).dom().contains(k) by {
        if exists|j: int| 0 <= j < t.len() && t[j].0 == k {
            let j = choose|j: int| 0 <= j < t.len() && t[j].0 == k;
            assert(s[j].0 == k);
        }
        if exists|j: int| 0 <= j < s.len() && s[j].0 == k {
            let j = choose|j: int| 0 <= j < s.len() && s[j].0 == k;
            assert(t[j].0 == k);
        }
    }
    assert forall|k: Seq<char>| #[trigger] marks(t).dom().contains(k) implies marks(t)[k] == marks(s).insert(s[i].0, v)[k] by {
        let j = choose|j: int| 0 <= j < t.len() && t[j].0 == k;
        lemma_marks_at(t, j);
        if j != i {
            lemma_marks_at(s, j);
        }
    }
    assert(marks(t) =~= marks(s).insert(s[i].0, v));
}

proof fn lemma_marks_push(s: Seq<(Seq<char>, i64)>, k: Seq<char>, v: i64)
    requires
        unique_names(s),
        !marks(s).dom().contains(k),
    ensures
        unique_names(s.push((k, v))),
        marks(s.push((k, v))) == marks(s).insert(k, v),
{
    let t = s.push((k, v));
    assert forall|a: int, b: int| 0 <= a < b < t.len() implies #[trigger] t[a].0 != #[trigger] t[b].0 by {
        if b == s.len() {
            assert(t[a].0 == s[a].0);
            if s[a].0 == k {
                assert(marks(s).dom().contains(k));
            }
        } else {
            assert(t[a] == s[a]);
            assert(t[b] == s[b]);
        }
    }
    assert forall|x: Seq<char>| marks(t).dom().contains(x) <==> marks(s).insert(k, v).dom().contains(x) by {
        if exists|j: int| 0 <= j < t.len() && t[j].0 == x {
            let j = choose|j: int| 0 <= j < t.len() && t[j].0 == x;
            if j < s.len() {
                assert(s[j].0 == x);
            }
        }
        if exists|j: int| 0 <= j < s.len() && s[j].0 == x {
            let j = choose|j: int| 0 <= j < s.len() && s[j].0 == x;
            assert(t[j].0 == x);
        }
        if x == k {
            assert(t[s.len() as int].0 == k);
        }
    }
    assert forall|x: Seq<char>| #[trigger] marks(t).dom().contains(x) implies marks(t)[x] == marks(s).insert(k, v)[x] by {
        let j = choose|j: int| 0 <= j < t.len() && t[j].0 == x;
        lemma_marks_at(t, j);
        if j < s.len() {
            assert(t[j] == s[j]);
            lemma_marks_at(s, j);
        }
    }
    assert(marks(t) =~= marks(s).insert(k, v));
}

/// The larger of two marks.
pub open spec fn higher(a: i64, b: i64) -> i64 {
    if a >= b {
        a
    } else {
        b
    }
}

/// The serial counters' high-water marks that the stored values of serial
/// field `slot` of `unit` give, from records of its scope value and its
/// serial: for each scope, the largest serial stored under it, and at least
/// 0; a record of another shape fails.
pub open spec fn serials_spec(unit: Seq<char>, slot: Seq<char>, rows: Seq<Seq<ValV>>) -> Result<
    Map<Seq<char>, i64>,
    Seq<char>,
>
    decreases rows.len(),
{
    if rows.len() == 0 {
        Ok(Map::empty())
    } else {
        match serials_spec(unit, slot, rows.drop_last()) {
            Err(e) => Err(e),
            Ok(m) => {
                let row = rows.last();
                if row.len() != 2 {
                    Err("serial record shape"@)
                } else {
                    let name = serial_clock(unit, slot, row[0]);
                    let was = if m.dom().contains(name) {
                        m[name]
                    } else {
                        0
                    };
                    Ok(m.insert(name, higher(was, int_val(row[1]) as i64)))
                }
            },
        }
    }
}

proof fn lemma_serials_fail(unit: Seq<char>, slot: Seq<char>, rows: Seq<Seq<ValV>>, n: int)
    requires
        0 <= n <= rows.len(),
        serials_spec(unit, slot, rows.take(n)) is Err,
    ensures
        serials_spec(unit, slot, rows) == serials_spec(unit, slot, rows.take(n)),
    decreases rows.len() - n,
{
    if n < rows.len() {
        assert(rows.take(n + 1).drop_last() =~= rows.take(n));
        lemma_serials_fail(unit, slot, rows, n + 1);
    } else {
        assert(rows.take(n) =~= rows);
    }
}

/// Adoption rebuilds every serial high-water mark: each stored serial is at
/// most the mark its scope's counter is restored to, and no mark is below 0.
pub proof fn lemma_serials_cover(unit: Seq<char>, slot: Seq<char>, rows: Seq<Seq<ValV>>)
    ensures
        serials_spec(unit, slot, rows) matches Ok(m) ==> (forall|i: int|
            0 <= i < rows.len() ==> m.dom().contains(serial_clock(unit, slot, #[trigger] rows[i][0]))
                && m[serial_clock(unit, slot, rows[i][0])] >= int_val(rows[i][1])) && (forall|
            k: Seq<char>,
        | #[trigger] m.dom().contains(k) ==> m[k] >= 0),
    decreases rows.len(),
{
    if rows.len() > 0 {
        let t = rows.drop_last();
        lemma_serials_cover(unit, slot, t);
        if let Ok(m) = serials_spec(unit, slot, rows) {
            if let Ok(p) = serials_spec(unit, slot, t) {
                let row = rows.last();
                let name = serial_clock(unit, slot, row[0]);
                assert forall|i: int| 0 <= i < rows.len() implies m.dom().contains(
                    serial_clock(unit, slot, #[trigger] rows[i][0]),
                ) && m[serial_clock(unit, slot, rows[i][0])] >= int_val(rows[i][1]) by {
                    if i < t.len() {
                        assert(t[i] == rows[i]);
                    }
                }
            }
        }
    }
}

/// The serial counters' high-water marks, each name once, that the stored
/// values of serial field `slot` of `unit` give.
pub fn serials(unit: &str, slot: &str, rows: &[Vec<Val>]) -> (r: Result<Vec<(String, i64)>, Error>)
    ensures
        match serials_spec(unit@, slot@, lines_view(rows@)) {
            Ok(m) => r matches Ok(v) && unique_names(keys_view(v@)) && marks(keys_view(v@)) == m,
            Err(n) => r matches Err(e) && unknown_is(e, n),
        },
{
    let ghost rs = lines_view(rows@);
    let mut out: Vec<(String, i64)> = Vec::new();
    let mut i: usize = 0;
    assert(rs.take(0) =~= Seq::<Seq<ValV>>::empty());
    assert(marks(keys_view(out@)) =~= Map::<Seq<char>, i64>::empty());
    while i < rows.len()
        invariant
            0 <= i <= rows@.len(),
            rs == lines_view(rows@),
            unique_names(keys_view(out@)),
            serials_spec(unit@, slot@, rs.take(i as int)) == Ok::<Map<Seq<char>, i64>, Seq<char>>(
                marks(keys_view(out@)),
            ),
        decreases rows@.len() - i,
    {
        proof {
            assert(rs.take(i + 1).drop_last() =~= rs.take(i as int));
            assert(rs.take(i + 1).last() == rs[i as int]);
            assert(rs[i as int] == vals_view(rows@[i as int]@));
        }
        let row = &rows[i];
        if row.len() != 2 {
            proof {
                lemma_serials_fail(unit@, slot@, rs, i + 1);
            }
            return Err(unknown("serial record shape"));
        }
        proof {
            assert(vals_view(row@)[0] == row@[0]@);
            assert(vals_view(row@)[1] == row@[1]@);
        }
        let name = match serial(unit, slot, &row[0]) {
            Ok(n) => n,
            Err(e) => {
                return Err(e);
            },
        };
        let value = row[1].integer();
        let ghost kv = keys_view(out@);
        let mut j: usize = 0;
        let mut at: Option<usize> = None;
        while j < out.len()
            invariant
                0 <= j <= out@.len(),
                kv == keys_view(out@),
                at is None ==> forall|x: int| 0 <= x < j ==> #[trigger] kv[x].0 != name@,
                at matches Some(a) ==> a < out@.len() && kv[a as int].0 == name@,
            decreases out@.len() - j,
        {
            if at.is_none() && same(out[j].0.as_str(), name.as_str()) {
                at = Some(j);
            }
            j = j + 1;
        }
        match at {
            Some(a) => {
                let was = out[a].1;
                let high = if was >= value {
                    was
                } else {
                    value
                };
                proof {
                    lemma_marks_at(kv, a as int);
                    lemma_marks_update(kv, a as int, high);
                }
                let old_name = out[a].0.clone();
                out.set(a, (old_name, high));
                assert(keys_view(out@) =~= kv.update(a as int, (kv[a as int].0, high)));
            },
            None => {
                let high = if 0 >= value {
                    0
                } else {
                    value
                };
                proof {
                    if marks(kv).dom().contains(name@) {
                        let x = choose|x: int| 0 <= x < kv.len() && kv[x].0 == name@;
                        assert(kv[x].0 != name@);
                    }
                    lemma_marks_push(kv, name@, high);
                }
                let ghost nv = name@;
                out.push((name, high));
                assert(keys_view(out@) =~= kv.push((nv, high)));
            },
        }
        i = i + 1;
    }
    assert(rs.take(rows@.len() as int) =~= rs);
    Ok(out)
}

} // verus!
