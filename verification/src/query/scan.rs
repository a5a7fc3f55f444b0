//! The query scanner: whitespace, keywords, names, numbers, operators and
//! quoted strings, read from the UTF-8 bytes of the query text.
//!
//! Each step is stated as a spec function from a byte sequence and a
//! position to what the step reads and where it stops.
use vstd::prelude::*;
use crate::error::{Error, refused, adapt, adapt2};
use crate::text::{own, push_char, digits_value, chars_of};
use crate::query::Op;
use vstd::string::StringSliceAdditionalSpecFns;

verus! {

/// Byte length of the whitespace character starting at `i`, or 0. These are
/// the UTF-8 encodings of the characters Unicode marks White_Space, the set
/// `char::is_whitespace` accepts.
pub open spec fn ws_width(b: Seq<u8>, i: int) -> int {
    if !(0 <= i < b.len()) {
        0
    } else {
        let x = b[i];
        if x == 9 || x == 10 || x == 11 || x == 12 || x == 13 || x == 32 {
            1
        } else if x == 0xC2 && i + 1 < b.len() && (b[i + 1] == 0x85 || b[i + 1] == 0xA0) {
            2
        } else if x == 0xE1 && i + 2 < b.len() && b[i + 1] == 0x9A && b[i + 2] == 0x80 {
            3
        } else if x == 0xE2 && i + 2 < b.len() && b[i + 1] == 0x80 && ((0x80 <= b[i + 2]
            && b[i + 2] <= 0x8A) || b[i + 2] == 0xA8 || b[i + 2] == 0xA9 || b[i + 2] == 0xAF) {
            3
        } else if x == 0xE2 && i + 2 < b.len() && b[i + 1] == 0x81 && b[i + 2] == 0x9F {
            3
        } else if x == 0xE3 && i + 2 < b.len() && b[i + 1] == 0x80 && b[i + 2] == 0x80 {
            3
        } else {
            0
        }
    }
}

/// The first position at or after `i` that does not start whitespace.
pub open spec fn past_ws(b: Seq<u8>, i: int) -> int
    decreases b.len() - i,
{
    if 0 <= i < b.len() && ws_width(b, i) > 0 {
        past_ws(b, i + ws_width(b, i))
    } else {
        i
    }
}

/// An ASCII letter or digit.
pub open spec fn alnum(x: u8) -> bool {
    (48 <= x <= 57) || (65 <= x <= 90) || (97 <= x <= 122)
}

/// A byte that continues a word: letter, digit or underscore.
pub open spec fn word_byte(x: u8) -> bool {
    alnum(x) || x == 95
}

/// ASCII lower case of a character code.
pub open spec fn low_code(x: u32) -> u32 {
    if 65 <= x <= 90 {
        (x + 32) as u32
    } else {
        x
    }
}

/// The keyword `w` stands at `j`, ignoring ASCII case.
pub open spec fn fits_word(b: Seq<u8>, j: int, w: Seq<char>) -> bool {
    0 <= j && j + w.len() <= b.len() && forall|k: int|
        0 <= k < w.len() ==> low_code(#[trigger] b[j + k] as u32) == low_code(w[k] as u32)
}

/// Reading the optional keyword `w` at `i`: whether it is there as a whole
/// word, and where the scanner stands afterwards (past the word, or past
/// the whitespace when the word is not there).
pub open spec fn opt_at(b: Seq<u8>, i: int, w: Seq<char>) -> (bool, int) {
    let j = past_ws(b, i);
    if fits_word(b, j, w) && !(j + w.len() < b.len() && word_byte(b[j + w.len()])) {
        (true, j + w.len())
    } else {
        (false, j)
    }
}

/// Reading the required keyword `w` at `i`.
pub open spec fn kw_at(b: Seq<u8>, i: int, w: Seq<char>) -> Result<int, Seq<char>> {
    let (hit, j) = opt_at(b, i, w);
    if hit {
        Ok(j)
    } else {
        Err("expected "@ + w)
    }
}

/// A byte allowed in a name; `@` only as the first.
pub open spec fn name_byte(x: u8, head: bool) -> bool {
    word_byte(x) || (head && x == 64)
}

/// The end of the name that starts at `s`, scanning from `i`.
pub open spec fn name_end(b: Seq<u8>, s: int, i: int) -> int
    decreases b.len() - i,
{
    if s <= i < b.len() && name_byte(b[i], i == s) {
        name_end(b, s, i + 1)
    } else {
        i
    }
}

/// Bytes read one by one as characters.
pub open spec fn bytes_text(s: Seq<u8>) -> Seq<char> {
    s.map_values(|x: u8| x as char)
}

/// Reading a name at `i`.
pub open spec fn ident_at(b: Seq<u8>, i: int) -> Result<(Seq<char>, int), Seq<char>> {
    let j = past_ws(b, i);
    let e = name_end(b, j, j);
    if e == j {
        Err("expected name"@)
    } else {
        Ok((bytes_text(b.subrange(j, e)), e))
    }
}

/// The end of the run of ASCII digits from `i`.
pub open spec fn digit_end(b: Seq<u8>, i: int) -> int
    decreases b.len() - i,
{
    if 0 <= i < b.len() && 48 <= b[i] <= 57 {
        digit_end(b, i + 1)
    } else {
        i
    }
}

/// Reading a decimal number that fits `usize` at `i`.
pub open spec fn num_at(b: Seq<u8>, i: int) -> Result<(nat, int), Seq<char>> {
    let j = past_ws(b, i);
    let e = digit_end(b, j);
    if e == j {
        Err("expected number"@)
    } else if digits_value(bytes_text(b.subrange(j, e))) > usize::MAX {
        Err("bad number"@)
    } else {
        Ok((digits_value(bytes_text(b.subrange(j, e))), e))
    }
}

/// Reading a comparison operator at `i`.
pub open spec fn op_at(b: Seq<u8>, i: int) -> Result<(Op, int), Seq<char>> {
    let j = past_ws(b, i);
    if 0 <= j && j + 1 < b.len() && b[j] == 33 && b[j + 1] == 61 {
        Ok((Op::Ne, j + 2))
    } else if 0 <= j && j + 1 < b.len() && b[j] == 60 && b[j + 1] == 61 {
        Ok((Op::Le, j + 2))
    } else if 0 <= j && j + 1 < b.len() && b[j] == 62 && b[j + 1] == 61 {
        Ok((Op::Ge, j + 2))
    } else if 0 <= j < b.len() && b[j] == 60 {
        Ok((Op::Lt, j + 1))
    } else if 0 <= j < b.len() && b[j] == 62 {
        Ok((Op::Gt, j + 1))
    } else if 0 <= j < b.len() && b[j] == 61 {
        Ok((Op::Eq, j + 1))
    } else {
        Err("expected op"@)
    }
}

/// Reading the ASCII character `c` at `i`.
pub open spec fn ch_at(b: Seq<u8>, i: int, c: char) -> Result<int, Seq<char>> {
    let j = past_ws(b, i);
    if 0 <= j < b.len() && (b[j] as u32) == (c as u32) {
        Ok(j + 1)
    } else {
        Err("expected "@ + seq![c])
    }
}

/// Reading an optional comma at `i`.
pub open spec fn comma_at(b: Seq<u8>, i: int) -> (bool, int) {
    let j = past_ws(b, i);
    if 0 <= j < b.len() && b[j] == 44 {
        (true, j + 1)
    } else {
        (false, j)
    }
}

/// The rest of a quoted string whose body continues at `i`, given what was
/// read so far: a backslash takes the next byte as it is, a double quote
/// ends the string. Gives the text and the position past the closing
/// quote; `None` when the string never closes.
pub open spec fn close_at(b: Seq<u8>, i: int, acc: Seq<char>) -> Option<(Seq<char>, int)>
    decreases b.len() - i,
{
    if i < 0 || i >= b.len() {
        None
    } else if b[i] == 34 {
        Some((acc, i + 1))
    } else if b[i] == 92 {
        if i + 1 >= b.len() {
            None
        } else {
            close_at(b, i + 2, acc.push(b[i + 1] as char))
        }
    } else {
        close_at(b, i + 1, acc.push(b[i] as char))
    }
}

/// Reading a double-quoted string at `i`.
pub open spec fn quoted_at(b: Seq<u8>, i: int) -> Result<(Seq<char>, int), Seq<char>> {
    let j = past_ws(b, i);
    if !(0 <= j < b.len() && b[j] == 34) {
        Err("expected string"@)
    } else {
        match close_at(b, j + 1, Seq::empty()) {
            None => Err("unterminated string"@),
            Some((out, e)) => Ok((out, e)),
        }
    }
}

pub(crate) proof fn lemma_past_ws(b: Seq<u8>, i: int)
    requires
        0 <= i <= b.len(),
    ensures
        i <= past_ws(b, i) <= b.len(),
        past_ws(b, past_ws(b, i)) == past_ws(b, i),
    decreases b.len() - i,
{
    if 0 <= i < b.len() && ws_width(b, i) > 0 {
        lemma_past_ws(b, i + ws_width(b, i));
    }
}

proof fn lemma_name_end(b: Seq<u8>, s: int, i: int)
    requires
        0 <= s <= i <= b.len(),
    ensures
        i <= name_end(b, s, i) <= b.len(),
    decreases b.len() - i,
{
    if s <= i < b.len() && name_byte(b[i], i == s) {
        lemma_name_end(b, s, i + 1);
    }
}

proof fn lemma_digit_end(b: Seq<u8>, i: int)
    requires
        0 <= i <= b.len(),
    ensures
        i <= digit_end(b, i) <= b.len(),
        forall|k: int| i <= k < digit_end(b, i) ==> 48 <= #[trigger] b[k] <= 57,
    decreases b.len() - i,
{
    if 0 <= i < b.len() && 48 <= b[i] <= 57 {
        lemma_digit_end(b, i + 1);
    }
}

/// Where a step of the scanner may stand: positions stay within the text.
pub open spec fn moves(b: Seq<u8>, i: int, j: int) -> bool {
    0 <= i <= j <= b.len()
}

/// The scanner over a query's bytes.
pub(crate) struct Scan<'a> {
    pub(crate) text: &'a [u8],
    pub(crate) at: usize,
}

/// Byte length of the whitespace character at `i`, or 0.
fn ws_len(b: &[u8], i: usize) -> (r: usize)
    requires
        i <= b@.len(),
    ensures
        r == ws_width(b@, i as int),
        r > 0 ==> i + r <= b@.len(),
{
    let n = b.len();
    if i >= n {
        return 0;
    }
    let x = b[i];
    if x == 9 || x == 10 || x == 11 || x == 12 || x == 13 || x == 32 {
        1
    } else if x == 0xC2 && n - i > 1 && (b[i + 1] == 0x85 || b[i + 1] == 0xA0) {
        2
    } else if x == 0xE1 && n - i > 2 && b[i + 1] == 0x9A && b[i + 2] == 0x80 {
        3
    } else if x == 0xE2 && n - i > 2 && b[i + 1] == 0x80 && ((0x80 <= b[i + 2] && b[i + 2]
        <= 0x8A) || b[i + 2] == 0xA8 || b[i + 2] == 0xA9 || b[i + 2] == 0xAF) {
        3
    } else if x == 0xE2 && n - i > 2 && b[i + 1] == 0x81 && b[i + 2] == 0x9F {
        3
    } else if x == 0xE3 && n - i > 2 && b[i + 1] == 0x80 && b[i + 2] == 0x80 {
        3
    } else {
        0
    }
}

fn low_of(x: u32) -> (r: u32)
    ensures
        r == low_code(x),
{
    if 65 <= x && x <= 90 {
        x + 32
    } else {
        x
    }
}

fn is_word(x: u8) -> (r: bool)
    ensures
        r == word_byte(x),
{
    (48 <= x && x <= 57) || (65 <= x && x <= 90) || (97 <= x && x <= 122) || x == 95
}

/// Reads the rest of a quoted string whose opening quote stands just
/// before `from`.
fn close(b: &[u8], from: usize) -> (r: Option<(String, usize)>)
    requires
        1 <= from <= b@.len(),
    ensures
        match r {
            Some((s, e)) => close_at(b@, from as int, Seq::empty()) == Some((s@, e as int)) && e
                <= b@.len(),
            None => close_at(b@, from as int, Seq::empty()) is None,
        },
{
    let mut out = String::new();
    let mut i: usize = from;
    let n = b.len();
    while i < n
        invariant
            n == b@.len(),
            from <= i,
            i <= n + 1,
            close_at(b@, from as int, Seq::empty()) == close_at(b@, i as int, out@),
        decreases n + 1 - i,
    {
        let x = b[i];
        if x == 34 {
            return Some((out, i + 1));
        }
        if x == 92 {
            if i + 1 >= n {
                return None;
            }
            push_char(&mut out, b[i + 1] as char);
            i = i + 2;
        } else {
            push_char(&mut out, x as char);
            i = i + 1;
        }
    }
    None
}

/// Reads a quoted string from `rest`, which starts at its opening quote:
/// the text inside and the number of bytes the string spans.
pub(crate) fn take(rest: &[u8]) -> (r: Option<(String, usize)>)
    requires
        rest@.len() >= 1,
    ensures
        match r {
            Some((s, e)) => close_at(rest@, 1, Seq::empty()) == Some((s@, e as int)),
            None => close_at(rest@, 1, Seq::empty()) is None,
        },
{
    close(rest, 1)
}

impl<'a> Scan<'a> {
    pub(crate) open spec fn bytes(&self) -> Seq<u8> {
        self.text@
    }

    pub(crate) open spec fn wf(&self) -> bool {
        self.at <= self.text@.len()
    }

    pub(crate) fn new(text: &'a str) -> (s: Scan<'a>)
        ensures
            s.bytes() == text.spec_bytes(),
            s.at == 0,
            s.wf(),
    {
        Scan { text: text.as_bytes(), at: 0 }
    }

    pub(crate) fn done(&self) -> (r: bool)
        ensures
            r == (self.at >= self.text@.len()),
    {
        self.at >= self.text.len()
    }

    pub(crate) fn ws(&mut self)
        requires
            old(self).wf(),
        ensures
            final(self).wf(),
            final(self).text == old(self).text,
            final(self).at == past_ws(old(self).text@, old(self).at as int),
    {
        let ghost b = self.text@;
        let ghost t = self.text;
        let ghost start = self.at as int;
        let n = self.text.len();
        proof {
            lemma_past_ws(b, start);
        }
        loop
            invariant
                n == b.len(),
                t == old(self).text,
                b == old(self).text@,
                start == old(self).at,
                self.text == t,
                self.text@ == b,
                self.wf(),
                past_ws(b, start) == past_ws(b, self.at as int),
            decreases b.len() - self.at,
        {
            let w = ws_len(self.text, self.at);
            if w == 0 {
                return;
            }
            self.at = self.at + w;
        }
    }

    pub(crate) fn opt(&mut self, want: &str) -> (r: bool)
        requires
            old(self).wf(),
        ensures
            final(self).wf(),
            final(self).text == old(self).text,
            (r, final(self).at as int) == opt_at(old(self).text@, old(self).at as int, want@),
    {
        self.ws();
        let w = chars_of(want);
        let n = self.text.len();
        let j = self.at;
        if n - j < w.len() {
            return false;
        }
        let mut k: usize = 0;
        let ghost t = self.text;
        while k < w.len()
            invariant
                self.text == t,
                t == old(self).text,
                j == past_ws(old(self).text@, old(self).at as int),
                w@ == want@,
                n == self.text@.len(),
                j == self.at,
                j + w@.len() <= n,
                k <= w@.len(),
                forall|q: int| 0 <= q < k ==> low_code(#[trigger] self.text@[j + q] as u32) == low_code(w@[q] as u32),
            decreases w@.len() - k,
        {
            if low_of(self.text[j + k] as u32) != low_of(w[k] as u32) {
                assert(low_code(self.text@[j + k] as u32) != low_code(want@[k as int] as u32));
                assert(!fits_word(self.text@, j as int, want@));
                return false;
            }
            k = k + 1;
        }
        let e = j + w.len();
        if e < n && is_word(self.text[e]) {
            return false;
        }
        self.at = e;
        true
    }

    pub(crate) fn kw(&mut self, want: &str) -> (r: Result<(), Error>)
        requires
            old(self).wf(),
        ensures
            final(self).wf(),
            final(self).text == old(self).text,
            match r {
                Ok(()) => kw_at(old(self).text@, old(self).at as int, want@) == Ok::<int, Seq<char>>(final(self).at as int),
                Err(e) => kw_at(old(self).text@, old(self).at as int, want@) is Err && refused(e, kw_at(old(self).text@, old(self).at as int, want@)->Err_0),
            },
    {
        self.ws();
        proof {
            lemma_past_ws(self.text@, old(self).at as int);
        }
        if self.opt(want) {
            Ok(())
        } else {
            Err(adapt2("expected ", want))
        }
    }

    pub(crate) fn ident(&mut self) -> (r: Result<String, Error>)
        requires
            old(self).wf(),
        ensures
            final(self).wf(),
            final(self).text == old(self).text,
            match r {
                Ok(s) => ident_at(old(self).text@, old(self).at as int) == Ok::<(Seq<char>, int), Seq<char>>((s@, final(self).at as int)),
                Err(e) => ident_at(old(self).text@, old(self).at as int) is Err && refused(e, ident_at(old(self).text@, old(self).at as int)->Err_0),
            },
    {
        self.ws();
        let ghost b = self.text@;
        let ghost t = self.text;
        let j = self.at;
        proof {
            lemma_name_end(b, j as int, j as int);
        }
        let n = self.text.len();
        let mut e: usize = j;
        while e < n && (is_word(self.text[e]) || (e == j && self.text[e] == 64))
            invariant
                n == b.len(),
                self.text == t,
                self.text@ == b,
                j == self.at,
                j <= e <= n,
                name_end(b, j as int, j as int) == name_end(b, j as int, e as int),
                forall|q: int| j <= q < e ==> name_byte(#[trigger] b[q], q == j),
            decreases n - e,
        {
            e = e + 1;
        }
        if e == j {
            return Err(adapt("expected name"));
        }
        let mut out = String::new();
        let mut q: usize = j;
        while q < e
            invariant
                self.text == t,
                self.text@ == b,
                j <= q <= e <= b.len(),
                out@ == bytes_text(b.subrange(j as int, q as int)),
            decreases e - q,
        {
            push_char(&mut out, self.text[q] as char);
            q = q + 1;
            assert(bytes_text(b.subrange(j as int, q as int)) =~= bytes_text(
                b.subrange(j as int, (q - 1) as int),
            ).push(b[q - 1] as char));
        }
        self.at = e;
        Ok(out)
    }

    pub(crate) fn num(&mut self) -> (r: Result<usize, Error>)
        requires
            old(self).wf(),
        ensures
            final(self).wf(),
            final(self).text == old(self).text,
            match r {
                Ok(v) => num_at(old(self).text@, old(self).at as int) == Ok::<(nat, int), Seq<char>>((v as nat, final(self).at as int)),
                Err(e) => num_at(old(self).text@, old(self).at as int) is Err && refused(e, num_at(old(self).text@, old(self).at as int)->Err_0),
            },
    {
        self.ws();
        let ghost b = self.text@;
        let ghost t = self.text;
        let j = self.at;
        proof {
            lemma_digit_end(b, j as int);
        }
        let n = self.text.len();
        let mut e: usize = j;
        while e < n && 48 <= self.text[e] && self.text[e] <= 57
            invariant
                n == b.len(),
                self.text == t,
                self.text@ == b,
                j == self.at,
                j <= e <= n,
                digit_end(b, j as int) == digit_end(b, e as int),
            decreases n - e,
        {
            e = e + 1;
        }
        if e == j {
            return Err(adapt("expected number"));
        }
        let mut cs: Vec<char> = Vec::new();
        let mut q: usize = j;
        while q < e
            invariant
                self.text == t,
                self.text@ == b,
                j <= q <= e <= b.len(),
                cs@ == bytes_text(b.subrange(j as int, q as int)),
            decreases e - q,
        {
            cs.push(self.text[q] as char);
            q = q + 1;
            assert(bytes_text(b.subrange(j as int, q as int)) =~= bytes_text(
                b.subrange(j as int, (q - 1) as int),
            ).push(b[q - 1] as char));
        }
        match read_count(cs.as_slice()) {
            Some(v) => {
                self.at = e;
                Ok(v)
            },
            None => Err(adapt("bad number")),
        }
    }

    pub(crate) fn op(&mut self) -> (r: Result<Op, Error>)
        requires
            old(self).wf(),
        ensures
            final(self).wf(),
            final(self).text == old(self).text,
            match r {
                Ok(o) => op_at(old(self).text@, old(self).at as int) == Ok::<(Op, int), Seq<char>>((o, final(self).at as int)),
                Err(e) => op_at(old(self).text@, old(self).at as int) is Err && refused(e, op_at(old(self).text@, old(self).at as int)->Err_0),
            },
    {
        self.ws();
        let n = self.text.len();
        let j = self.at;
        let two = j < n && n - j > 1;
        let (op, w): (Op, usize) = if two && self.text[j] == 33 && self.text[j + 1] == 61 {
            (Op::Ne, 2)
        } else if two && self.text[j] == 60 && self.text[j + 1] == 61 {
            (Op::Le, 2)
        } else if two && self.text[j] == 62 && self.text[j + 1] == 61 {
            (Op::Ge, 2)
        } else if j < n && self.text[j] == 60 {
            (Op::Lt, 1)
        } else if j < n && self.text[j] == 62 {
            (Op::Gt, 1)
        } else if j < n && self.text[j] == 61 {
            (Op::Eq, 1)
        } else {
            return Err(adapt("expected op"));
        };
        self.at = j + w;
        Ok(op)
    }

    pub(crate) fn ch(&mut self, want: char) -> (r: Result<(), Error>)
        requires
            old(self).wf(),
            (want as u32) < 128,
        ensures
            final(self).wf(),
            final(self).text == old(self).text,
            match r {
                Ok(()) => ch_at(old(self).text@, old(self).at as int, want) == Ok::<int, Seq<char>>(final(self).at as int),
                Err(e) => ch_at(old(self).text@, old(self).at as int, want) is Err && refused(e, ch_at(old(self).text@, old(self).at as int, want)->Err_0),
            },
    {
        self.ws();
        let n = self.text.len();
        let j = self.at;
        if j < n && (self.text[j] as u32) == (want as u32) {
            self.at = j + 1;
            Ok(())
        } else {
            let mut s = own("expected ");
            push_char(&mut s, want);
            assert(s@ =~= "expected "@ + seq![want]);
            Err(Error::Adapt(s))
        }
    }

    pub(crate) fn comma(&mut self) -> (r: bool)
        requires
            old(self).wf(),
        ensures
            final(self).wf(),
            final(self).text == old(self).text,
            (r, final(self).at as int) == comma_at(old(self).text@, old(self).at as int),
    {
        self.ws();
        let j = self.at;
        if j < self.text.len() && self.text[j] == 44 {
            self.at = j + 1;
            true
        } else {
            false
        }
    }

    pub(crate) fn quoted(&mut self) -> (r: Result<String, Error>)
        requires
            old(self).wf(),
        ensures
            final(self).wf(),
            final(self).text == old(self).text,
            match r {
                Ok(s) => quoted_at(old(self).text@, old(self).at as int) == Ok::<(Seq<char>, int), Seq<char>>((s@, final(self).at as int)),
                Err(e) => quoted_at(old(self).text@, old(self).at as int) is Err && refused(e, quoted_at(old(self).text@, old(self).at as int)->Err_0),
            },
    {
        self.ws();
        let j = self.at;
        if !(j < self.text.len() && self.text[j] == 34) {
            return Err(adapt("expected string"));
        }
        match close(self.text, j + 1) {
            Some((out, e)) => {
                self.at = e;
                Ok(out)
            },
            None => Err(adapt("unterminated string")),
        }
    }
}

/// `str::parse::<usize>` on a run of decimal digits.
fn read_count(s: &[char]) -> (r: Option<usize>)
    requires
        crate::text::all_digits(s@),
    ensures
        match r {
            Some(v) => v == digits_value(s@),
            None => digits_value(s@) > usize::MAX,
        },
{
    let mut acc: usize = 0;
    let mut i: usize = 0;
    while i < s.len()
        invariant
            i <= s@.len(),
            crate::text::all_digits(s@),
            acc == digits_value(s@.take(i as int)),
        decreases s@.len() - i,
    {
        let d: usize = (s[i] as u32 - '0' as u32) as usize;
        assert(s@.take(i + 1).drop_last() == s@.take(i as int));
        if acc > (usize::MAX - d) / 10 {
            proof {
                assert(acc * 10 + d > usize::MAX) by (nonlinear_arith)
                    requires
                        acc > (usize::MAX - d) / 10,
                        d <= 9,
                ;
                lemma_grows(s@, i + 1);
            }
            return None;
        }
        assert(acc * 10 + d <= usize::MAX) by (nonlinear_arith)
            requires
                acc <= (usize::MAX - d) / 10,
                d <= 9,
        ;
        acc = acc * 10 + d;
        i = i + 1;
    }
    assert(s@.take(s@.len() as int) == s@);
    Some(acc)
}

proof fn lemma_grows(s: Seq<char>, i: int)
    requires
        0 <= i <= s.len(),
        crate::text::all_digits(s),
    ensures
        digits_value(s.take(i)) <= digits_value(s),
    decreases s.len() - i,
{
    if i < s.len() {
        lemma_grows(s, i + 1);
        assert(s.take(i + 1).drop_last() == s.take(i));
        assert(crate::text::is_digit(s[i]));
    } else {
        assert(s.take(i) == s);
    }
}

} // verus!
