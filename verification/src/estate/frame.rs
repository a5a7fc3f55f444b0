//! The text a catalog's shape is sealed with: each row and each cell written
//! with its length in front, so that the text tells any two catalogs apart.
use vstd::prelude::*;
use vstd::utf8::encode_utf8;
use vstd::string::StringSliceAdditionalSpecFns;
use crate::estate::catalog::lines_view;
use crate::life::util::vals_view;
use crate::text::{
    digits, is_digit, lemma_decimal_injective, lemma_digits_injective,
    lemma_digits_shape, push_char, push_str, show_nat,
};
use crate::wire::{Val, ValV, val_text};

verus! {

/// The number of bytes of the UTF-8 form of `s`.
pub open spec fn utf8_len(s: Seq<char>) -> nat {
    encode_utf8(s).len()
}

/// The tag a cell is written with: `n` null, `i` integer, `s` text.
pub open spec fn cell_tag(v: ValV) -> char {
    match v {
        ValV::Null => 'n',
        ValV::Int(_) => 'i',
        ValV::Text(_) => 's',
    }
}

/// A cell: its tag, the byte length of its text, `:`, then the text.
pub open spec fn cell_frame(v: ValV) -> Seq<char> {
    seq![cell_tag(v)] + digits(utf8_len(val_text(v))) + seq![':'] + val_text(v)
}

/// The cells of a row, one after another.
pub open spec fn cells_frame(cs: Seq<ValV>) -> Seq<char>
    decreases cs.len(),
{
    if cs.len() == 0 {
        Seq::empty()
    } else {
        cell_frame(cs[0]) + cells_frame(cs.drop_first())
    }
}

/// A row: `r`, its number of cells, `:`, then its cells.
pub open spec fn row_frame(row: Seq<ValV>) -> Seq<char> {
    seq!['r'] + digits(row.len()) + seq![':'] + cells_frame(row)
}

/// The rows of a catalog, one after another.
pub open spec fn frame_of(rows: Seq<Seq<ValV>>) -> Seq<char>
    decreases rows.len(),
{
    if rows.len() == 0 {
        Seq::empty()
    } else {
        row_frame(rows[0]) + frame_of(rows.drop_first())
    }
}

proof fn lemma_cells_push(cs: Seq<ValV>, v: ValV)
    ensures
        cells_frame(cs.push(v)) == cells_frame(cs) + cell_frame(v),
    decreases cs.len(),
{
    if cs.len() == 0 {
        assert(cs.push(v).drop_first() =~= Seq::<ValV>::empty());
        assert(cs.push(v)[0] == v);
        assert(cells_frame(Seq::<ValV>::empty()) == Seq::<char>::empty());
        assert(cells_frame(cs) == Seq::<char>::empty());
        assert(cells_frame(cs.push(v)) =~= cell_frame(v));
    } else {
        assert(cs.push(v).drop_first() =~= cs.drop_first().push(v));
        lemma_cells_push(cs.drop_first(), v);
        assert(cells_frame(cs.push(v)) =~= cells_frame(cs) + cell_frame(v));
    }
}

proof fn lemma_frame_push(rows: Seq<Seq<ValV>>, r: Seq<ValV>)
    ensures
        frame_of(rows.push(r)) == frame_of(rows) + row_frame(r),
    decreases rows.len(),
{
    if rows.len() == 0 {
        assert(rows.push(r).drop_first() =~= Seq::<Seq<ValV>>::empty());
        assert(rows.push(r)[0] == r);
        assert(frame_of(Seq::<Seq<ValV>>::empty()) == Seq::<char>::empty());
        assert(frame_of(rows) == Seq::<char>::empty());
        assert(frame_of(rows.push(r)) =~= row_frame(r));
    } else {
        assert(rows.push(r).drop_first() =~= rows.drop_first().push(r));
        lemma_frame_push(rows.drop_first(), r);
        assert(frame_of(rows.push(r)) =~= frame_of(rows) + row_frame(r));
    }
}

/// Each text of the rows has a UTF-8 length that fits in `usize`.
pub open spec fn sized(rows: Seq<Seq<ValV>>) -> bool {
    forall|i: int, j: int|
        0 <= i < rows.len() && 0 <= j < rows[i].len() ==> utf8_len(val_text(#[trigger] rows[i][j]))
            <= usize::MAX
}

/// Appends one cell's frame.
fn put_cell(out: &mut String, v: &Val)
    requires
        utf8_len(val_text(v@)) <= usize::MAX,
    ensures
        final(out)@ == old(out)@ + cell_frame(v@),
{
    let tag = match v {
        Val::Null => 'n',
        Val::Int(_) => 'i',
        Val::Text(_) => 's',
    };
    let text = v.text();
    let st = text.as_str();
    let size = st.len();
    assert(size == st.spec_bytes().len());
    assert(size == utf8_len(text@));
    assert(text@ == val_text(v@));
    push_char(out, tag);
    push_str(out, show_nat(size as u64).as_str());
    push_char(out, ':');
    push_str(out, text.as_str());
    assert(final(out)@ =~= old(out)@ + cell_frame(v@));
}

/// The frame of the catalog rows `rows`.
pub fn frame(rows: &[Vec<Val>]) -> (out: String)
    requires
        sized(lines_view(rows@)),
    ensures
        out@ == frame_of(lines_view(rows@)),
{
    let ghost all = lines_view(rows@);
    let mut out = String::new();
    let mut i: usize = 0;
    while i < rows.len()
        invariant
            0 <= i <= rows@.len(),
            all == lines_view(rows@),
            sized(all),
            out@ == frame_of(all.take(i as int)),
        decreases rows@.len() - i,
    {
        let row = &rows[i];
        let ghost cs = vals_view(row@);
        assert(all[i as int] == cs);
        push_char(&mut out, 'r');
        push_str(&mut out, show_nat(row.len() as u64).as_str());
        push_char(&mut out, ':');
        let ghost head = out@;
        let mut j: usize = 0;
        while j < row.len()
            invariant
                0 <= j <= row@.len(),
                cs == vals_view(row@),
                cs == all[i as int],
                sized(all),
                i < all.len(),
                out@ == head + cells_frame(cs.take(j as int)),
            decreases row@.len() - j,
        {
            assert(cs[j as int] == row@[j as int]@);
            assert(utf8_len(val_text(all[i as int][j as int])) <= usize::MAX);
            put_cell(&mut out, &row[j]);
            proof {
                assert(cs.take(j + 1) =~= cs.take(j as int).push(cs[j as int]));
                lemma_cells_push(cs.take(j as int), cs[j as int]);
            }
            j = j + 1;
        }
        proof {
            assert(cs.take(row@.len() as int) =~= cs);
            assert(all.take(i + 1) =~= all.take(i as int).push(cs));
            lemma_frame_push(all.take(i as int), cs);
            assert(out@ =~= frame_of(all.take(i + 1)));
        }
        i = i + 1;
    }
    assert(all.take(rows@.len() as int) =~= all);
    out
}

// --- why the frame tells catalogs apart ---

proof fn lemma_utf8_concat(a: Seq<char>, b: Seq<char>)
    ensures
        encode_utf8(a + b) == encode_utf8(a) + encode_utf8(b),
    decreases a.len(),
{
    if a.len() == 0 {
        assert(a + b =~= b);
        assert(encode_utf8(a) =~= Seq::<u8>::empty());
        assert(encode_utf8(a) + encode_utf8(b) =~= encode_utf8(b));
    } else {
        assert((a + b).drop_first() =~= a.drop_first() + b);
        lemma_utf8_concat(a.drop_first(), b);
        assert(encode_utf8(a + b) =~= encode_utf8(a) + encode_utf8(b));
    }
}

proof fn lemma_utf8_len_grows(s: Seq<char>)
    ensures
        utf8_len(s) >= s.len(),
    decreases s.len(),
{
    if s.len() > 0 {
        lemma_utf8_len_grows(s.drop_first());
    }
}

/// `x` followed by `a` is `y` followed by `b`, with `x` no longer than `y`:
/// then `x` begins `y`.
proof fn lemma_prefix(x: Seq<char>, a: Seq<char>, y: Seq<char>, b: Seq<char>)
    requires
        x + a == y + b,
        x.len() <= y.len(),
    ensures
        y == x + y.skip(x.len() as int),
        a == y.skip(x.len() as int) + b,
{
    assert forall|i: int| 0 <= i < x.len() implies x[i] == y[i] by {
        assert((x + a)[i] == x[i]);
        assert((y + b)[i] == y[i]);
    }
    assert((x + a).len() == (y + b).len());
    assert((x + a).len() == x.len() + a.len());
    assert((y + b).len() == y.len() + b.len());
    assert(y =~= x + y.skip(x.len() as int));
    let c = y.skip(x.len() as int) + b;
    assert forall|i: int| 0 <= i < a.len() implies a[i] == c[i] by {
        let k = x.len() + i;
        assert((x + a)[k] == a[i]);
        if k < y.len() {
            assert((y + b)[k] == y[k]);
            assert(c[i] == y[k]);
        } else {
            assert(x.len() + a.len() == y.len() + b.len());
            assert(k < y.len() + b.len());
            assert((y + b)[k] == b[k - y.len()]);
            assert(c[i] == b[k - y.len()]);
        }
    }
    assert(a =~= y.skip(x.len() as int) + b);
}

/// A number written before `:` is read back whole.
proof fn lemma_count_split(n: nat, a: Seq<char>, m: nat, b: Seq<char>)
    requires
        digits(n) + seq![':'] + a == digits(m) + seq![':'] + b,
    ensures
        n == m,
        a == b,
{
    lemma_digits_shape(n);
    lemma_digits_shape(m);
    let x = digits(n) + seq![':'] + a;
    let y = digits(m) + seq![':'] + b;
    let dn = digits(n).len();
    let dm = digits(m).len();
    if dn < dm {
        assert(x[dn as int] == ':');
        assert(y[dn as int] == digits(m)[dn as int]);
        assert(is_digit(digits(m)[dn as int]));
    } else if dm < dn {
        assert(y[dm as int] == ':');
        assert(x[dm as int] == digits(n)[dm as int]);
        assert(is_digit(digits(n)[dm as int]));
    }
    assert(dn == dm);
    assert forall|i: int| 0 <= i < dn implies digits(n)[i] == digits(m)[i] by {
        assert(x[i] == y[i]);
        assert((digits(n) + seq![':'])[i] == digits(n)[i]);
        assert((digits(m) + seq![':'])[i] == digits(m)[i]);
        assert(x[i] == (digits(n) + seq![':'])[i]);
        assert(y[i] == (digits(m) + seq![':'])[i]);
    }
    assert(digits(n) =~= digits(m));
    lemma_digits_injective(n, m);
    assert(x =~= (digits(n) + seq![':']) + a);
    assert(y =~= (digits(m) + seq![':']) + b);
    assert((digits(n) + seq![':']).len() == dn + 1);
    assert(x.len() == y.len());
    assert(a.len() == b.len());
    assert forall|i: int| 0 <= i < a.len() implies a[i] == b[i] by {
        assert(x[dn + 1 + i] == a[i]);
        assert(y[dn + 1 + i] == b[i]);
    }
    assert(a =~= b);
}

/// A cell's frame is read back whole, and what follows it with it.
proof fn lemma_cell_split(v: ValV, a: Seq<char>, w: ValV, b: Seq<char>)
    requires
        cell_frame(v) + a == cell_frame(w) + b,
    ensures
        v == w,
        a == b,
{
    let tv = val_text(v);
    let tw = val_text(w);
    let x = cell_frame(v) + a;
    let y = cell_frame(w) + b;
    assert(x[0] == cell_tag(v));
    assert(y[0] == cell_tag(w));
    let xr = digits(utf8_len(tv)) + seq![':'] + (tv + a);
    let yr = digits(utf8_len(tw)) + seq![':'] + (tw + b);
    assert(x =~= seq![cell_tag(v)] + xr);
    assert(y =~= seq![cell_tag(w)] + yr);
    assert(xr =~= x.drop_first());
    assert(yr =~= y.drop_first());
    lemma_count_split(utf8_len(tv), tv + a, utf8_len(tw), tw + b);
    if tv.len() <= tw.len() {
        lemma_prefix(tv, a, tw, b);
        let rest = tw.skip(tv.len() as int);
        lemma_utf8_concat(tv, rest);
        lemma_utf8_len_grows(rest);
        assert(rest.len() == 0);
        assert(tw =~= tv);
    } else {
        lemma_prefix(tw, b, tv, a);
        let rest = tv.skip(tw.len() as int);
        lemma_utf8_concat(tw, rest);
        lemma_utf8_len_grows(rest);
        assert(rest.len() == 0);
        assert(tv =~= tw);
    }
    assert(tv + a == tw + b);
    assert(a =~= (tv + a).skip(tv.len() as int));
    assert(b =~= (tw + b).skip(tw.len() as int));
    match v {
        ValV::Int(i) => {
            if let ValV::Int(j) = w {
                lemma_decimal_injective(i as int, j as int);
            }
        },
        _ => {},
    }
}

/// Runs of the same number of cells are read back whole.
proof fn lemma_cells_split(vs: Seq<ValV>, a: Seq<char>, ws: Seq<ValV>, b: Seq<char>)
    requires
        vs.len() == ws.len(),
        cells_frame(vs) + a == cells_frame(ws) + b,
    ensures
        vs == ws,
        a == b,
    decreases vs.len(),
{
    if vs.len() == 0 {
        assert(cells_frame(vs) + a =~= a);
        assert(cells_frame(ws) + b =~= b);
        assert(vs =~= ws);
    } else {
        let ra = cells_frame(vs.drop_first()) + a;
        let rb = cells_frame(ws.drop_first()) + b;
        assert(cells_frame(vs) + a =~= cell_frame(vs[0]) + ra);
        assert(cells_frame(ws) + b =~= cell_frame(ws[0]) + rb);
        lemma_cell_split(vs[0], ra, ws[0], rb);
        lemma_cells_split(vs.drop_first(), a, ws.drop_first(), b);
        assert(vs =~= seq![vs[0]] + vs.drop_first());
        assert(ws =~= seq![ws[0]] + ws.drop_first());
    }
}

/// A row's frame is read back whole, and what follows it with it.
proof fn lemma_row_split(x: Seq<ValV>, a: Seq<char>, y: Seq<ValV>, b: Seq<char>)
    requires
        row_frame(x) + a == row_frame(y) + b,
    ensures
        x == y,
        a == b,
{
    let xr = digits(x.len()) + seq![':'] + (cells_frame(x) + a);
    let yr = digits(y.len()) + seq![':'] + (cells_frame(y) + b);
    assert(row_frame(x) + a =~= seq!['r'] + xr);
    assert(row_frame(y) + b =~= seq!['r'] + yr);
    assert(xr =~= (row_frame(x) + a).drop_first());
    assert(yr =~= (row_frame(y) + b).drop_first());
    lemma_count_split(x.len(), cells_frame(x) + a, y.len(), cells_frame(y) + b);
    lemma_cells_split(x, a, y, b);
}

/// The sealed shape tells catalogs apart: two lists of catalog rows with the
/// same frame are the same list.
pub proof fn lemma_frame_injective(a: Seq<Seq<ValV>>, b: Seq<Seq<ValV>>)
    requires
        frame_of(a) == frame_of(b),
    ensures
        a == b,
    decreases a.len(),
{
    if a.len() == 0 && b.len() == 0 {
        assert(a =~= b);
    } else if a.len() == 0 {
        assert(frame_of(b)[0] == 'r');
    } else if b.len() == 0 {
        assert(frame_of(a)[0] == 'r');
    } else {
        lemma_row_split(a[0], frame_of(a.drop_first()), b[0], frame_of(b.drop_first()));
        lemma_frame_injective(a.drop_first(), b.drop_first());
        assert(a =~= seq![a[0]] + a.drop_first());
        assert(b =~= seq![b[0]] + b.drop_first());
    }
}

} // verus!
