//! Text helpers shared by the engine: character access, decimal numbers,
//! comparison and searching, all stated over character sequences.
use vstd::prelude::*;

verus! {

/// The characters of a string slice, one by one.
pub fn chars_of(s: &str) -> (out: Vec<char>)
    ensures
        out@ == s@,
{
    let mut out: Vec<char> = Vec::new();
    for c in it: s.chars()
        invariant
            out@ == it.seq().take(it.index() as int),
            it.seq() == s@,
    {
        out.push(c);
    }
    out
}

/// `String::push`: appends one character.
#[verifier::external_body]
pub(crate) fn push_char(s: &mut String, c: char)
    ensures
        final(s)@ == old(s)@.push(c),
{
    s.push(c);
}

/// Appends a run of characters to a string.
pub fn push_all(s: &mut String, cs: &[char])
    ensures
        final(s)@ == old(s)@ + cs@,
{
    let ghost start = s@;
    let mut i: usize = 0;
    while i < cs.len()
        invariant
            i <= cs@.len(),
            s@ == start + cs@.take(i as int),
        decreases cs@.len() - i,
    {
        push_char(s, cs[i]);
        i = i + 1;
        assert(cs@.take(i as int) == cs@.take((i - 1) as int).push(cs@[i - 1]));
    }
    assert(cs@.take(cs@.len() as int) == cs@);
}

/// Appends a string slice to a string.
pub fn push_str(s: &mut String, t: &str)
    ensures
        final(s)@ == old(s)@ + t@,
{
    let cs = chars_of(t);
    push_all(s, cs.as_slice());
}

/// A string holding exactly the given characters.
pub fn string_of(cs: &[char]) -> (out: String)
    ensures
        out@ == cs@,
{
    let mut out = String::new();
    push_all(&mut out, cs);
    out
}

/// A fresh copy of a string slice.
pub fn own(s: &str) -> (out: String)
    ensures
        out@ == s@,
{
    let cs = chars_of(s);
    string_of(cs.as_slice())
}

/// Whether two character runs are the same.
pub fn same_chars(a: &[char], b: &[char]) -> (r: bool)
    ensures
        r == (a@ == b@),
{
    if a.len() != b.len() {
        return false;
    }
    let mut i: usize = 0;
    while i < a.len()
        invariant
            a@.len() == b@.len(),
            i <= a@.len(),
            forall|j: int| 0 <= j < i ==> a@[j] == b@[j],
        decreases a@.len() - i,
    {
        if a[i] != b[i] {
            return false;
        }
        i = i + 1;
    }
    assert(a@ =~= b@);
    true
}

/// Whether two string slices hold the same text.
pub fn same(a: &str, b: &str) -> (r: bool)
    ensures
        r == (a@ == b@),
{
    let x = chars_of(a);
    let y = chars_of(b);
    same_chars(x.as_slice(), y.as_slice())
}

/// `true` when `p` is a prefix of `s`.
pub open spec fn lead(s: Seq<char>, p: Seq<char>) -> bool {
    p.len() <= s.len() && s.take(p.len() as int) == p
}

/// Whether `s` starts with `p`.
pub fn starts(s: &[char], p: &[char]) -> (r: bool)
    ensures
        r == lead(s@, p@),
{
    if p.len() > s.len() {
        return false;
    }
    let mut i: usize = 0;
    while i < p.len()
        invariant
            p@.len() <= s@.len(),
            i <= p@.len(),
            forall|j: int| 0 <= j < i ==> s@[j] == p@[j],
        decreases p@.len() - i,
    {
        if s[i] != p[i] {
            return false;
        }
        i = i + 1;
    }
    assert(s@.take(p@.len() as int) =~= p@);
    true
}

/// `true` when `p` is a suffix of `s`.
pub open spec fn trail(s: Seq<char>, p: Seq<char>) -> bool {
    p.len() <= s.len() && s.skip(s.len() - p.len()) == p
}

/// Whether `s` ends with `p`.
pub fn ends(s: &str, p: &str) -> (r: bool)
    ensures
        r == trail(s@, p@),
{
    let x = chars_of(s);
    let y = chars_of(p);
    if y.len() > x.len() {
        return false;
    }
    let d = x.len() - y.len();
    let n = x.len();
    let mut i: usize = 0;
    while i < y.len()
        invariant
            n == x@.len(),
            y@.len() <= x@.len(),
            d == x@.len() - y@.len(),
            x@ == s@,
            y@ == p@,
            i <= y@.len(),
            forall|j: int| 0 <= j < i ==> x@[d + j] == y@[j],
        decreases y@.len() - i,
    {
        if x[d + i] != y[i] {
            assert(x@.skip(d as int)[i as int] != y@[i as int]);
            return false;
        }
        i = i + 1;
    }
    assert(x@.skip(d as int) =~= y@);
    true
}

/// Whether `s` starts with `p`.
pub fn begins(s: &str, p: &str) -> (r: bool)
    ensures
        r == lead(s@, p@),
{
    let x = chars_of(s);
    let y = chars_of(p);
    starts(x.as_slice(), y.as_slice())
}

/// `str::strip_prefix` over characters.
pub open spec fn strip(s: Seq<char>, p: Seq<char>) -> Option<Seq<char>> {
    if lead(s, p) {
        Some(s.skip(p.len() as int))
    } else {
        None
    }
}

/// Removes `p` from the front of `s`, when `s` starts with it.
pub fn strip_lead(s: &str, p: &str) -> (r: Option<String>)
    ensures
        match r {
            Some(t) => strip(s@, p@) == Some(t@),
            None => strip(s@, p@) is None,
        },
{
    let x = chars_of(s);
    let y = chars_of(p);
    if !starts(x.as_slice(), y.as_slice()) {
        return None;
    }
    let mut out = String::new();
    let mut i: usize = y.len();
    while i < x.len()
        invariant
            y@.len() <= i <= x@.len(),
            out@ == x@.subrange(y@.len() as int, i as int),
        decreases x@.len() - i,
    {
        push_char(&mut out, x[i]);
        i = i + 1;
        assert(x@.subrange(y@.len() as int, i as int) == x@.subrange(
            y@.len() as int,
            (i - 1) as int,
        ).push(x@[i - 1]));
    }
    assert(x@.subrange(y@.len() as int, x@.len() as int) == x@.skip(y@.len() as int));
    Some(out)
}

/// `str::split_once` on a single character: the text before and after its
/// first occurrence.
pub open spec fn split_at_first(s: Seq<char>, c: char) -> Option<(Seq<char>, Seq<char>)> {
    if exists|i: int| 0 <= i < s.len() && s[i] == c && forall|j: int| 0 <= j < i ==> s[j] != c {
        let i = choose|i: int| 0 <= i < s.len() && s[i] == c && forall|j: int| 0 <= j < i ==> s[j] != c;
        Some((s.take(i), s.skip(i + 1)))
    } else {
        None
    }
}

/// Splits `s` around the first `c`.
pub fn split_once(s: &[char], c: char) -> (r: Option<(Vec<char>, Vec<char>)>)
    ensures
        match r {
            Some((a, b)) => split_at_first(s@, c) == Some((a@, b@)),
            None => split_at_first(s@, c) is None,
        },
{
    let mut i: usize = 0;
    while i < s.len()
        invariant
            i <= s@.len(),
            forall|j: int| 0 <= j < i ==> s@[j] != c,
        decreases s@.len() - i,
    {
        if s[i] == c {
            let ghost k = i as int;
            assert(0 <= k < s@.len() && s@[k] == c && forall|j: int| 0 <= j < k ==> s@[j] != c);
            let ghost w = choose|w: int| 0 <= w < s@.len() && s@[w] == c && forall|j: int| 0 <= j < w ==> s@[j] != c;
            assert(w == k) by {
                if w < k {
                    assert(s@[w] != c);
                } else if w > k {
                    assert(s@[k] != c);
                }
            }
            let mut a: Vec<char> = Vec::new();
            let mut j: usize = 0;
            while j < i
                invariant
                    j <= i < s@.len(),
                    a@ == s@.take(j as int),
                decreases i - j,
            {
                a.push(s[j]);
                j = j + 1;
                assert(s@.take(j as int) == s@.take((j - 1) as int).push(s@[j - 1]));
            }
            let mut b: Vec<char> = Vec::new();
            let mut j: usize = i + 1;
            while j < s.len()
                invariant
                    i + 1 <= j <= s@.len(),
                    b@ == s@.subrange(i + 1, j as int),
                decreases s@.len() - j,
            {
                b.push(s[j]);
                j = j + 1;
                assert(s@.subrange(i + 1, j as int) == s@.subrange(i + 1, (j - 1) as int).push(
                    s@[j - 1],
                ));
            }
            assert(s@.subrange(i + 1, s@.len() as int) == s@.skip(i + 1));
            return Some((a, b));
        }
        i = i + 1;
    }
    None
}

/// The decimal digit for a value below ten.
pub open spec fn digit(d: int) -> char {
    if d == 0 { '0' }
    else if d == 1 { '1' }
    else if d == 2 { '2' }
    else if d == 3 { '3' }
    else if d == 4 { '4' }
    else if d == 5 { '5' }
    else if d == 6 { '6' }
    else if d == 7 { '7' }
    else if d == 8 { '8' }
    else { '9' }
}

/// The value of a decimal digit character.
pub open spec fn digit_value(c: char) -> int {
    (c as int) - ('0' as int)
}

/// `true` for '0'..='9'.
pub open spec fn is_digit(c: char) -> bool {
    '0' <= c && c <= '9'
}

/// Decimal digits of a natural number, most significant first, without
/// leading zeros.
pub open spec fn digits(n: nat) -> Seq<char>
    decreases n,
{
    if n < 10 {
        seq![digit(n as int)]
    } else {
        digits(n / 10) + seq![digit((n % 10) as int)]
    }
}

/// The text `to_string` gives for an integer.
pub open spec fn decimal(n: int) -> Seq<char> {
    if n < 0 {
        seq!['-'] + digits((-n) as nat)
    } else {
        digits(n as nat)
    }
}

/// The text of a boolean.
pub open spec fn flag_text(b: bool) -> Seq<char> {
    if b { seq!['t', 'r', 'u', 'e'] } else { seq!['f', 'a', 'l', 's', 'e'] }
}

/// Distinct values below ten have distinct digits, each a decimal digit.
pub proof fn lemma_digit(a: int, b: int)
    requires
        0 <= a < 10,
        0 <= b < 10,
    ensures
        is_digit(digit(a)),
        digit(a) == digit(b) ==> a == b,
{
}

/// Every character of `digits(n)` is a decimal digit, and there is at
/// least one.
pub proof fn lemma_digits_shape(n: nat)
    ensures
        digits(n).len() >= 1,
        n >= 10 ==> digits(n).len() >= 2,
        forall|i: int| 0 <= i < digits(n).len() ==> is_digit(#[trigger] digits(n)[i]),
    decreases n,
{
    lemma_digit((n % 10) as int, 0);
    if n >= 10 {
        lemma_digits_shape(n / 10);
        let d = digits(n / 10) + seq![digit((n % 10) as int)];
        assert forall|i: int| 0 <= i < d.len() implies is_digit(#[trigger] d[i]) by {
            if i < digits(n / 10).len() {
                assert(d[i] == digits(n / 10)[i]);
            }
        }
    } else {
        lemma_digit(n as int, 0);
    }
}

/// Different numbers have different decimal digits.
pub proof fn lemma_digits_injective(a: nat, b: nat)
    requires
        digits(a) == digits(b),
    ensures
        a == b,
    decreases a,
{
    lemma_digits_shape(a);
    lemma_digits_shape(b);
    if a < 10 && b < 10 {
        assert(digits(a)[0] == digit(a as int));
        assert(digits(b)[0] == digit(b as int));
        lemma_digit(a as int, b as int);
    } else if a >= 10 && b >= 10 {
        let da = digits(a);
        let db = digits(b);
        assert(da.last() == digit((a % 10) as int));
        assert(db.last() == digit((b % 10) as int));
        lemma_digit((a % 10) as int, (b % 10) as int);
        assert(da.drop_last() =~= digits(a / 10));
        assert(db.drop_last() =~= digits(b / 10));
        lemma_digits_injective(a / 10, b / 10);
        assert(a == (a / 10) * 10 + a % 10);
        assert(b == (b / 10) * 10 + b % 10);
    } else if a < 10 {
        assert(digits(a).len() == 1);
    } else {
        assert(digits(b).len() == 1);
    }
}

/// The value of a decimal digit is the value it was written for.
pub proof fn lemma_digit_value(d: int)
    requires
        0 <= d < 10,
    ensures
        digit_value(digit(d)) == d,
{
}

/// Reading the decimal digits of a number gives the number back.
pub proof fn lemma_digits_value(n: nat)
    ensures
        digits_value(digits(n)) == n,
    decreases n,
{
    if n < 10 {
        lemma_digit_value(n as int);
        let d = seq![digit(n as int)];
        assert(digits(n) == d);
        assert(d.drop_last() =~= Seq::<char>::empty());
        assert(digits_value(d) == digits_value(d.drop_last()) * 10 + digit_value(d.last()));
    } else {
        lemma_digits_value(n / 10);
        lemma_digit_value((n % 10) as int);
        let d = digits(n / 10) + seq![digit((n % 10) as int)];
        assert(digits(n) == d);
        assert(d.drop_last() =~= digits(n / 10));
        assert(d.last() == digit((n % 10) as int));
        assert(digits_value(d) == digits_value(d.drop_last()) * 10 + digit_value(d.last()));
        assert(n == (n / 10) * 10 + n % 10);
    }
}

/// `str::parse::<i64>` reads back the text `to_string` writes for an `i64`.
pub proof fn lemma_int_of_decimal(n: i64)
    ensures
        int_of(decimal(n as int)) == Some(n as int),
{
    if n < 0 {
        let t = digits((-(n as int)) as nat);
        lemma_digits_shape((-(n as int)) as nat);
        lemma_digits_value((-(n as int)) as nat);
        let s = decimal(n as int);
        assert(s[0] == '-');
        assert(s.drop_first() =~= t);
        assert(all_digits(t));
    } else {
        let t = digits(n as nat);
        lemma_digits_shape(n as nat);
        lemma_digits_value(n as nat);
        assert(is_digit(t[0]));
        assert(all_digits(t));
    }
}

/// Different integers have different decimal texts.
pub proof fn lemma_decimal_injective(a: int, b: int)
    requires
        decimal(a) == decimal(b),
    ensures
        a == b,
{
    if a < 0 && b < 0 {
        assert(decimal(a).drop_first() =~= digits((-a) as nat));
        assert(decimal(b).drop_first() =~= digits((-b) as nat));
        lemma_digits_injective((-a) as nat, (-b) as nat);
    } else if a >= 0 && b >= 0 {
        lemma_digits_injective(a as nat, b as nat);
    } else if a < 0 {
        lemma_digits_shape(b as nat);
        assert(decimal(a)[0] == '-');
        assert(is_digit(digits(b as nat)[0]));
    } else {
        lemma_digits_shape(a as nat);
        assert(decimal(b)[0] == '-');
        assert(is_digit(digits(a as nat)[0]));
    }
}

pub fn digit_char(d: u64) -> (c: char)
    requires
        d < 10,
    ensures
        c == digit(d as int),
{
    if d == 0 { '0' }
    else if d == 1 { '1' }
    else if d == 2 { '2' }
    else if d == 3 { '3' }
    else if d == 4 { '4' }
    else if d == 5 { '5' }
    else if d == 6 { '6' }
    else if d == 7 { '7' }
    else if d == 8 { '8' }
    else { '9' }
}

fn digits_of(n: u64) -> (out: Vec<char>)
    ensures
        out@ == digits(n as nat),
    decreases n,
{
    if n < 10 {
        let mut v = Vec::new();
        v.push(digit_char(n));
        v
    } else {
        let mut v = digits_of(n / 10);
        v.push(digit_char(n % 10));
        v
    }
}

/// Decimal text of an unsigned number.
pub fn show_nat(n: u64) -> (out: String)
    ensures
        out@ == digits(n as nat),
{
    let v = digits_of(n);
    string_of(v.as_slice())
}

/// Decimal text of an `i64`, as `to_string` writes it.
pub fn show_int(n: i64) -> (out: String)
    ensures
        out@ == decimal(n as int),
{
    if n < 0 {
        let m: u64 = if n == i64::MIN {
            9223372036854775808u64
        } else {
            (-n) as u64
        };
        let mut out = String::new();
        push_char(&mut out, '-');
        let v = digits_of(m);
        push_all(&mut out, v.as_slice());
        out
    } else {
        show_nat(n as u64)
    }
}

/// Text of a boolean, as `to_string` writes it.
pub fn show_flag(b: bool) -> (out: String)
    ensures
        out@ == flag_text(b),
{
    let mut out = String::new();
    if b {
        push_char(&mut out, 't');
        push_char(&mut out, 'r');
        push_char(&mut out, 'u');
        push_char(&mut out, 'e');
    } else {
        push_char(&mut out, 'f');
        push_char(&mut out, 'a');
        push_char(&mut out, 'l');
        push_char(&mut out, 's');
        push_char(&mut out, 'e');
    }
    out
}

/// Every character is a decimal digit.
pub open spec fn all_digits(s: Seq<char>) -> bool {
    forall|i: int| 0 <= i < s.len() ==> is_digit(#[trigger] s[i])
}

/// The value of a run of decimal digits.
pub open spec fn digits_value(s: Seq<char>) -> nat
    decreases s.len(),
{
    if s.len() == 0 {
        0
    } else {
        (digits_value(s.drop_last()) * 10 + digit_value(s.last())) as nat
    }
}

/// `str::parse::<i64>`: an optional sign, then one or more decimal digits,
/// within range.
pub open spec fn int_of(s: Seq<char>) -> Option<int> {
    if s.len() == 0 {
        None
    } else if s[0] == '-' || s[0] == '+' {
        let t = s.drop_first();
        if t.len() == 0 || !all_digits(t) {
            None
        } else if s[0] == '-' {
            if digits_value(t) <= 9223372036854775808 {
                Some(-(digits_value(t) as int))
            } else {
                None
            }
        } else if digits_value(t) <= 9223372036854775807 {
            Some(digits_value(t) as int)
        } else {
            None
        }
    } else if all_digits(s) && digits_value(s) <= 9223372036854775807 {
        Some(digits_value(s) as int)
    } else {
        None
    }
}

proof fn lemma_digits_value_grows(s: Seq<char>, i: int)
    requires
        0 <= i <= s.len(),
        all_digits(s),
    ensures
        digits_value(s.take(i)) <= digits_value(s),
    decreases s.len() - i,
{
    if i < s.len() {
        lemma_digits_value_grows(s, i + 1);
        let t = s.take(i + 1);
        assert(t.drop_last() == s.take(i));
        assert(is_digit(s[i]));
    } else {
        assert(s.take(i) == s);
    }
}

/// Reads a run of decimal digits, giving up once the value passes `limit`.
pub(crate) fn read_digits(s: &[char], from: usize, limit: u64) -> (r: Option<u64>)
    requires
        from <= s@.len(),
        limit >= 9,
    ensures
        match r {
            Some(v) => all_digits(s@.skip(from as int)) && v == digits_value(s@.skip(from as int))
                && v <= limit,
            None => !all_digits(s@.skip(from as int)) || digits_value(s@.skip(from as int))
                > limit,
        },
{
    let ghost t = s@.skip(from as int);
    let mut acc: u64 = 0;
    let mut i: usize = from;
    while i < s.len()
        invariant
            from <= i <= s@.len(),
            t == s@.skip(from as int),
            all_digits(t.take(i - from)),
            acc == digits_value(t.take(i - from)),
            acc <= limit,
            limit >= 9,
        decreases s@.len() - i,
    {
        let c = s[i];
        if !('0' <= c && c <= '9') {
            assert(t[i - from] == c);
            return None;
        }
        let d: u64 = (c as u64) - ('0' as u64);
        let ghost k = i - from;
        assert(t.take(k + 1).drop_last() == t.take(k));
        assert(t.take(k + 1).last() == c);
        if acc > (limit - d) / 10 {
            proof {
                assert(acc * 10 + d > limit) by (nonlinear_arith)
                    requires
                        acc > (limit - d) / 10,
                        d <= 9,
                ;
                assert(all_digits(t.take(k + 1)));
                if all_digits(t) {
                    lemma_digits_value_grows(t, k + 1);
                }
            }
            return None;
        }
        assert(acc * 10 + d <= limit) by (nonlinear_arith)
            requires
                acc <= (limit - d) / 10,
                d <= 9,
                d <= limit,
        ;
        acc = acc * 10 + d;
        i = i + 1;
        assert(all_digits(t.take(i - from)));
    }
    assert(t.take(i - from) == t);
    Some(acc)
}

/// `str::parse::<i64>` over characters.
pub fn int_from(s: &[char]) -> (r: Option<i64>)
    ensures
        match r {
            Some(v) => int_of(s@) == Some(v as int),
            None => int_of(s@) is None,
        },
{
    if s.len() == 0 {
        return None;
    }
    let c = s[0];
    if c == '-' || c == '+' {
        assert(s@.drop_first() == s@.skip(1));
        if s.len() == 1 {
            return None;
        }
        if c == '-' {
            match read_digits(s, 1, 9223372036854775808u64) {
                Some(v) => {
                    if v == 9223372036854775808u64 {
                        Some(i64::MIN)
                    } else {
                        Some(-(v as i64))
                    }
                },
                None => None,
            }
        } else {
            match read_digits(s, 1, 9223372036854775807u64) {
                Some(v) => Some(v as i64),
                None => None,
            }
        }
    } else {
        assert(s@.skip(0) == s@);
        match read_digits(s, 0, 9223372036854775807u64) {
            Some(v) => Some(v as i64),
            None => None,
        }
    }
}

/// `str::parse::<i64>` on a string slice.
pub fn int_in(s: &str) -> (r: Option<i64>)
    ensures
        match r {
            Some(v) => int_of(s@) == Some(v as int),
            None => int_of(s@) is None,
        },
{
    let cs = chars_of(s);
    int_from(cs.as_slice())
}

/// Strict lexicographic order of character sequences, by code point; this is
/// the order `<` gives on `str`.
pub open spec fn text_lt(a: Seq<char>, b: Seq<char>) -> bool
    decreases a.len(),
{
    if a.len() == 0 {
        b.len() > 0
    } else if b.len() == 0 {
        false
    } else if a[0] != b[0] {
        (a[0] as int) < (b[0] as int)
    } else {
        text_lt(a.drop_first(), b.drop_first())
    }
}

/// `text_lt` is irreflexive.
pub proof fn lemma_text_lt_irreflexive(a: Seq<char>)
    ensures
        !text_lt(a, a),
    decreases a.len(),
{
    if a.len() > 0 {
        lemma_text_lt_irreflexive(a.drop_first());
    }
}

/// `text_lt` is transitive.
pub proof fn lemma_text_lt_transitive(a: Seq<char>, b: Seq<char>, c: Seq<char>)
    requires
        text_lt(a, b),
        text_lt(b, c),
    ensures
        text_lt(a, c),
    decreases a.len(),
{
    if a.len() > 0 && b.len() > 0 && c.len() > 0 {
        if a[0] == b[0] && b[0] == c[0] {
            lemma_text_lt_transitive(a.drop_first(), b.drop_first(), c.drop_first());
        }
    }
}

/// `text_lt` orders any two different texts.
pub proof fn lemma_text_lt_total(a: Seq<char>, b: Seq<char>)
    requires
        a != b,
    ensures
        text_lt(a, b) || text_lt(b, a),
    decreases a.len(),
{
    if a.len() > 0 && b.len() > 0 && a[0] == b[0] {
        if a.drop_first() == b.drop_first() {
            assert(a =~= seq![a[0]] + a.drop_first());
            assert(b =~= seq![b[0]] + b.drop_first());
        }
        lemma_text_lt_total(a.drop_first(), b.drop_first());
    } else if a.len() > 0 && b.len() > 0 {
        assert(a[0] as int != b[0] as int);
    } else if a.len() == 0 && b.len() == 0 {
        assert(a =~= b);
    }
}

/// Whether `a` sorts strictly before `b`.
pub fn before(a: &[char], b: &[char]) -> (r: bool)
    ensures
        r == text_lt(a@, b@),
{
    let mut i: usize = 0;
    assert(a@.skip(0) == a@);
    assert(b@.skip(0) == b@);
    while i < a.len() && i < b.len()
        invariant
            i <= a@.len(),
            i <= b@.len(),
            forall|j: int| 0 <= j < i ==> a@[j] == b@[j],
            text_lt(a@, b@) == text_lt(a@.skip(i as int), b@.skip(i as int)),
        decreases a@.len() - i,
    {
        if a[i] != b[i] {
            return a[i] < b[i];
        }
        assert(a@.skip(i as int).drop_first() == a@.skip(i + 1));
        assert(b@.skip(i as int).drop_first() == b@.skip(i + 1));
        i = i + 1;
    }
    i < b.len()
}

/// Whether `needle` occurs in `hay` at `at`.
pub open spec fn occurs_at(hay: Seq<char>, needle: Seq<char>, at: int) -> bool {
    0 <= at && at + needle.len() <= hay.len() && hay.subrange(at, at + needle.len()) == needle
}

/// `str::contains` for a text needle.
pub open spec fn holds_text(hay: Seq<char>, needle: Seq<char>) -> bool {
    exists|at: int| occurs_at(hay, needle, at)
}

/// Whether `needle` occurs somewhere in `hay`.
pub fn contains(hay: &[char], needle: &[char]) -> (r: bool)
    ensures
        r == holds_text(hay@, needle@),
{
    if needle.len() > hay.len() {
        assert forall|at: int| !occurs_at(hay@, needle@, at) by {}
        return false;
    }
    if needle.len() == 0 {
        assert(hay@.subrange(0, 0) =~= needle@);
        assert(occurs_at(hay@, needle@, 0));
        return true;
    }
    let n = hay.len();
    let last = n - needle.len();
    let mut at: usize = 0;
    while at <= last
        invariant
            1 <= needle@.len() <= hay@.len(),
            n == hay@.len(),
            last == hay@.len() - needle@.len(),
            at <= last + 1,
            forall|k: int| 0 <= k < at ==> !occurs_at(hay@, needle@, k),
        decreases last + 1 - at,
    {
        let mut j: usize = 0;
        let mut hit = true;
        while j < needle.len()
            invariant
                1 <= needle@.len() <= hay@.len(),
                n == hay@.len(),
                at <= last,
                last == hay@.len() - needle@.len(),
                j <= needle@.len(),
                hit ==> forall|q: int| 0 <= q < j ==> hay@[at + q] == needle@[q],
                !hit ==> !occurs_at(hay@, needle@, at as int),
            decreases needle@.len() - j,
        {
            if hit && hay[at + j] != needle[j] {
                hit = false;
                assert(hay@.subrange(at as int, at + needle@.len())[j as int] == hay@[at + j]);
            }
            j = j + 1;
        }
        if hit {
            assert(hay@.subrange(at as int, at + needle@.len()) =~= needle@);
            assert(occurs_at(hay@, needle@, at as int));
            return true;
        }
        at = at + 1;
    }
    assert forall|k: int| !occurs_at(hay@, needle@, k) by {
        if k > last {
        }
    }
    false
}

/// The text `str::to_lowercase` gives.
pub uninterp spec fn lowered(s: Seq<char>) -> Seq<char>;

/// `str::to_lowercase`: Unicode lower case of a text.
#[verifier::external_body]
pub(crate) fn lower(s: &str) -> (out: String)
    ensures
        out@ == lowered(s@),
{
    s.to_lowercase()
}

} // verus!
