//! The seal: a sudo token is 64 lowercase hex digits, kept only as its
//! SHA-256 digest; fresh tokens come from the system's entropy.
use vstd::prelude::*;
use vstd::utf8::{encode_utf8, is_ascii_chars, is_ascii_chars_encode_utf8};
use sha2::Digest;
use vstd::string::StringSliceAdditionalSpecFns;
use crate::error::{Why, adapt, told};
use crate::text::{digit, digit_char, own, push_char, same};
use crate::error::Error;
use crate::estate::Fault;
use crate::life::{Row, lookup, text_of};

verus! {

/// The SHA-256 digest of `data`, as `sha2` computes it.
pub uninterp spec fn sha256(data: Seq<u8>) -> Seq<u8>;

/// `<sha2::Sha256 as Digest>::digest`: the contract claims the result is
/// the SHA-256 of the bytes given, and that it is 32 bytes long (the
/// hash's output size).
#[verifier::external_body]
fn sha256_of(data: &[u8]) -> (r: Vec<u8>)
    ensures
        r@ == sha256(data@),
        r@.len() == 32,
{
    sha2::Sha256::digest(data).to_vec()
}

/// `getrandom::fill`: fills the buffer from the system's entropy and says
/// whether it succeeded. Nothing is claimed of the bytes, nor of which
/// outcome comes.
#[verifier::external_body]
fn fill_random(dest: &mut [u8; 32]) -> (ok: bool) {
    getrandom::fill(dest).is_ok()
}

/// A lowercase hex digit byte.
pub open spec fn hex_byte(x: u8) -> bool {
    (48 <= x <= 57) || (97 <= x <= 102)
}

/// Bytes that make a sudo token: 64 lowercase hex digits.
pub open spec fn token_bytes(b: Seq<u8>) -> bool {
    b.len() == 64 && forall|i: int| 0 <= i < b.len() ==> hex_byte(#[trigger] b[i])
}

/// Whether `value` has the shape of a sudo token.
pub fn token(value: &str) -> (r: bool)
    ensures
        r == token_bytes(value.spec_bytes()),
{
    let b = value.as_bytes();
    if b.len() != 64 {
        return false;
    }
    let mut i: usize = 0;
    while i < b.len()
        invariant
            i <= b@.len(),
            b@ == value.spec_bytes(),
            forall|j: int| 0 <= j < i ==> hex_byte(#[trigger] b@[j]),
        decreases b@.len() - i,
    {
        let x = b[i];
        if !((48 <= x && x <= 57) || (97 <= x && x <= 102)) {
            return false;
        }
        i = i + 1;
    }
    true
}

/// The lowercase hex digit of a value below sixteen.
pub open spec fn nibble(d: int) -> char {
    if d < 10 {
        digit(d)
    } else if d == 10 {
        'a'
    } else if d == 11 {
        'b'
    } else if d == 12 {
        'c'
    } else if d == 13 {
        'd'
    } else if d == 14 {
        'e'
    } else {
        'f'
    }
}

fn nibble_char(d: u8) -> (c: char)
    requires
        d < 16,
    ensures
        c == nibble(d as int),
{
    if d < 10 {
        digit_char(d as u64)
    } else if d == 10 {
        'a'
    } else if d == 11 {
        'b'
    } else if d == 12 {
        'c'
    } else if d == 13 {
        'd'
    } else if d == 14 {
        'e'
    } else {
        'f'
    }
}

/// Bytes written as lowercase hex, two digits each, high digit first.
pub open spec fn hex_of(b: Seq<u8>) -> Seq<char>
    decreases b.len(),
{
    if b.len() == 0 {
        Seq::empty()
    } else {
        hex_of(b.drop_last()) + seq![nibble(b.last() as int / 16), nibble(b.last() as int % 16)]
    }
}

/// Bytes written as lowercase hex.
pub fn hex(b: &[u8]) -> (r: String)
    ensures
        r@ == hex_of(b@),
{
    let mut out = String::new();
    let mut i: usize = 0;
    while i < b.len()
        invariant
            i <= b@.len(),
            out@ == hex_of(b@.take(i as int)),
        decreases b@.len() - i,
    {
        let x = b[i];
        push_char(&mut out, nibble_char(x / 16));
        push_char(&mut out, nibble_char(x % 16));
        i = i + 1;
        assert(b@.take(i as int).drop_last() =~= b@.take(i - 1));
    }
    assert(b@.take(b@.len() as int) =~= b@);
    out
}

/// The digest a token is kept as: SHA-256 of its bytes, in lowercase hex.
pub open spec fn sealed_text(token: Seq<u8>) -> Seq<char> {
    hex_of(sha256(token))
}

/// The digest a token is kept as.
pub fn digest(token: &str) -> (r: String)
    ensures
        r@ == sealed_text(token.spec_bytes()),
        token_bytes(encode_utf8(r@)),
{
    let h = sha256_of(token.as_bytes());
    proof {
        lemma_hex_token(h@);
    }
    hex(h.as_slice())
}

/// A fresh sudo token: 32 bytes of system entropy in lowercase hex.
pub fn wild() -> (r: Result<String, crate::error::Error>)
    ensures
        match r {
            Ok(s) => (exists|b: Seq<u8>| b.len() == 32 && s@ == hex_of(b)) && token_bytes(encode_utf8(s@)),
            Err(e) => told(e, Why::Refused("os entropy unavailable"@)),
        },
{
    let mut seed = [0u8; 32];
    if fill_random(&mut seed) {
        let s = hex(&seed);
        assert(seed@.len() == 32);
        proof {
            lemma_hex_token(seed@);
        }
        Ok(s)
    } else {
        Err(adapt("os entropy unavailable"))
    }
}

/// The hex text of any bytes is ASCII, two lowercase hex digits a byte.
pub proof fn lemma_hex_shape(b: Seq<u8>)
    ensures
        hex_of(b).len() == 2 * b.len(),
        is_ascii_chars(hex_of(b)),
        forall|i: int| 0 <= i < hex_of(b).len() ==> hex_byte(#[trigger] hex_of(b)[i] as u8),
    decreases b.len(),
{
    if b.len() > 0 {
        lemma_hex_shape(b.drop_last());
        let h = hex_of(b.drop_last());
        let x = b.last() as int;
        let t = h + seq![nibble(x / 16), nibble(x % 16)];
        assert forall|i: int| 0 <= i < t.len() implies hex_byte(#[trigger] t[i] as u8) && '\0' <= t[i] <= '\u{7f}' by {
            if i < h.len() {
                assert(t[i] == h[i]);
            }
        }
    }
}

/// A hex text of 32 bytes has the shape of a sudo token: what `wild`
/// gives and what `digest` keeps are tokens.
pub proof fn lemma_hex_token(b: Seq<u8>)
    requires
        b.len() == 32,
    ensures
        token_bytes(encode_utf8(hex_of(b))),
{
    lemma_hex_shape(b);
    is_ascii_chars_encode_utf8(hex_of(b));
    let e = encode_utf8(hex_of(b));
    assert forall|i: int| 0 <= i < e.len() implies hex_byte(#[trigger] e[i]) by {
        assert(hex_of(b)[i] as u8 == e[i]);
    }
}

/// The text of cell `name` of row `r` when it is a text cell, or empty.
pub open spec fn text_cell(r: Row, name: Seq<char>) -> Seq<char> {
    match lookup(r.cells_of(), name) {
        Some(c) => text_of(c),
        None => Seq::empty(),
    }
}

/// Sealing a store whose seal rows are `rows` with `token`: a store already
/// sealed is occupied; otherwise the seal row to put holds the token's
/// digest as its `hash`.
pub fn genesis(rows: &[Row], token: &str) -> (r: Result<Vec<(String, String)>, Error>)
    ensures
        rows@.len() > 0 ==> (r matches Err(Error::Estate(Fault::Occupied))),
        rows@.len() == 0 ==> (r matches Ok(v) && v@.len() == 1 && v@[0].0@ == "hash"@ && v@[0].1@
            == sealed_text(token.spec_bytes())),
{
    if rows.len() > 0 {
        return Err(Error::Estate(Fault::Occupied));
    }
    let h = digest(token);
    let v = vec![(own("hash"), h)];
    Ok(v)
}

/// Whether the store's seal rows `rows` hold `token`: the first seal row's
/// `hash` is the token's digest.
pub fn sealed(rows: &[Row], token: &str) -> (r: bool)
    requires
        rows@.len() > 0 ==> rows@[0].wf(),
    ensures
        r == (rows@.len() > 0 && text_cell(rows@[0], "hash"@) == sealed_text(token.spec_bytes())),
{
    if rows.len() == 0 {
        return false;
    }
    let want = digest(token);
    let held = crate::cap::shape::cell(&rows[0], "hash");
    same(held, want.as_str())
}

} // verus!
