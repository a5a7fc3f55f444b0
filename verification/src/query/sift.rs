//! Query digests, and how predicates, ordering and paging apply to rows.
use vstd::prelude::*;
use crate::query::{Op, Pred, PredV, Rank, Sort, SortV, Tree, TreeV, first_value, texts, preds_view};
use crate::life::{Cell, CellV, Row, cells_view, distinct, lookup, get_cell};
use crate::text::{push_str, push_char, same, chars_of, contains, before, holds_text, text_lt, int_of, lemma_text_lt_irreflexive, lemma_text_lt_transitive, lemma_text_lt_total, decimal, digits, show_int, show_nat, flag_text, show_flag, lowered, lower, lemma_digits_injective, lemma_decimal_injective};

verus! {

/// The text of an operator in a digest.
pub open spec fn mark_text(op: Op) -> Seq<char> {
    match op {
        Op::Eq => "="@,
        Op::Ne => "!="@,
        Op::Lt => "<"@,
        Op::Le => "<="@,
        Op::Gt => ">"@,
        Op::Ge => ">="@,
        Op::In => "in"@,
        Op::Like => "like"@,
        Op::Null => "is null"@,
        Op::Has => "has"@,
        Op::Exists => "some"@,
    }
}

/// The operator as query text.
pub fn mark(op: Op) -> (r: &'static str)
    ensures
        r@ == mark_text(op),
{
    match op {
        Op::Eq => "=",
        Op::Ne => "!=",
        Op::Lt => "<",
        Op::Le => "<=",
        Op::Gt => ">",
        Op::Ge => ">=",
        Op::In => "in",
        Op::Like => "like",
        Op::Null => "is null",
        Op::Has => "has",
        Op::Exists => "some",
    }
}

/// A value with backslashes and double quotes escaped by a backslash.
pub open spec fn escaped(s: Seq<char>) -> Seq<char>
    decreases s.len(),
{
    if s.len() == 0 {
        Seq::empty()
    } else {
        let c = s.last();
        escaped(s.drop_last()) + if c == '\\' || c == '"' {
            seq!['\\', c]
        } else {
            seq![c]
        }
    }
}

/// Escapes backslashes and double quotes.
pub fn escape(value: &str) -> (r: String)
    ensures
        r@ == escaped(value@),
{
    let cs = chars_of(value);
    let mut out = String::new();
    let mut i: usize = 0;
    while i < cs.len()
        invariant
            i <= cs@.len(),
            cs@ == value@,
            out@ == escaped(cs@.take(i as int)),
        decreases cs@.len() - i,
    {
        let c = cs[i];
        if c == '\\' || c == '"' {
            push_char(&mut out, '\\');
        }
        push_char(&mut out, c);
        i = i + 1;
        assert(cs@.take(i as int).drop_last() == cs@.take((i - 1) as int));
        assert(out@ =~= escaped(cs@.take(i as int)));
    }
    assert(cs@.take(cs@.len() as int) == cs@);
    out
}

/// Quoted, escaped values joined by ", ".
pub open spec fn quoted_list(vs: Seq<Seq<char>>) -> Seq<char>
    decreases vs.len(),
{
    if vs.len() == 0 {
        Seq::empty()
    } else {
        quoted_list(vs.drop_last()) + (if vs.len() > 1 {
            ", "@
        } else {
            Seq::empty()
        }) + "\""@ + escaped(vs.last()) + "\""@
    }
}

/// The canonical text of a predicate.
pub open spec fn pred_text(p: PredV) -> Seq<char>
    decreases p,
{
    p.field + " "@ + if p.op == Op::In {
        "in ("@ + quoted_list(p.values) + ")"@
    } else if p.op == Op::Has {
        "has \""@ + escaped(first_value(p)) + "\""@
    } else if p.op == Op::Exists {
        "some ("@ + match p.nest {
            Some(n) => pred_text(*n),
            None => Seq::empty(),
        } + ")"@
    } else {
        mark_text(p.op) + " \""@ + escaped(first_value(p)) + "\""@
    }
}

/// The shape of a predicate: field and operator, values left out.
pub open spec fn pred_shape(p: PredV) -> Seq<char>
    decreases p,
{
    p.field + " "@ + mark_text(p.op) + if p.op != Op::Exists {
        Seq::empty()
    } else {
        " ("@ + match p.nest {
            Some(n) => pred_shape(*n),
            None => Seq::empty(),
        } + ")"@
    }
}

/// Predicates joined as a where clause, with `show` writing each.
pub open spec fn where_text(ps: Seq<PredV>, canon: bool) -> Seq<char>
    decreases ps.len(),
{
    if ps.len() == 0 {
        Seq::empty()
    } else {
        where_text(ps.drop_last(), canon) + (if ps.len() == 1 {
            " where "@
        } else {
            " and "@
        }) + if canon {
            pred_text(ps.last())
        } else {
            pred_shape(ps.last())
        }
    }
}

/// `link <bond>` for each linked bond.
pub open spec fn links_text(ls: Seq<Seq<char>>) -> Seq<char>
    decreases ls.len(),
{
    if ls.len() == 0 {
        Seq::empty()
    } else {
        links_text(ls.drop_last()) + " link "@ + ls.last()
    }
}

/// The text of a sort direction.
pub open spec fn rank_text(r: Rank) -> Seq<char> {
    match r {
        Rank::Asc => "asc"@,
        Rank::Desc => "desc"@,
    }
}

/// The order clause of a digest.
pub open spec fn order_tail(t: TreeV) -> Seq<char> {
    if t.sorts.len() > 0 {
        " order by "@ + t.sorts[0].field + " "@ + rank_text(t.sorts[0].rank)
    } else {
        Seq::empty()
    }
}

/// The paging and count clauses of a digest.
pub open spec fn page_tail(t: TreeV) -> Seq<char> {
    (match t.limit {
        Some(n) => " limit "@ + digits(n as nat),
        None => Seq::empty(),
    }) + (match t.after {
        Some(id) => " after \""@ + decimal(id as int) + "\""@,
        None => Seq::empty(),
    }) + (if t.tally {
        " count"@
    } else {
        Seq::empty()
    })
}

/// The head of a digest or shape: unit and slice.
pub open spec fn head_text(t: TreeV) -> Seq<char> {
    "from "@ + t.from + " slice live"@
}

/// A query written canonically: the key under which its answer is cached.
pub open spec fn digest_text(t: TreeV) -> Seq<char> {
    head_text(t) + where_text(t.preds, true) + links_text(t.links) + order_tail(t) + page_tail(t)
}

/// A query's shape: what it reads and tests, values and paging left out;
/// the key under which its analysis is kept.
pub open spec fn shape_text(t: TreeV) -> Seq<char> {
    head_text(t) + where_text(t.preds, false) + links_text(t.links) + (
    if t.sorts.len() > 0 {
        " order by "@ + t.sorts[0].field
    } else {
        Seq::empty()
    })
}

/// Two predicates are alike: the same field and operator, and nested
/// predicates alike; their values may differ.
pub open spec fn alike(a: PredV, b: PredV) -> bool
    decreases a,
{
    &&& a.field == b.field
    &&& a.op == b.op
    &&& match a.nest {
        Some(x) => match b.nest {
            Some(y) => alike(*x, *y),
            None => false,
        },
        None => b.nest is None,
    }
}

proof fn lemma_pred_shape_alike(a: PredV, b: PredV)
    requires
        alike(a, b),
    ensures
        pred_shape(a) == pred_shape(b),
    decreases a,
{
    match a.nest {
        Some(x) => {
            let y = b.nest->0;
            lemma_pred_shape_alike(*x, *y);
        },
        None => {},
    }
}

proof fn lemma_where_alike(ps: Seq<PredV>, qs: Seq<PredV>)
    requires
        ps.len() == qs.len(),
        forall|i: int| 0 <= i < ps.len() ==> alike(#[trigger] ps[i], qs[i]),
    ensures
        where_text(ps, false) == where_text(qs, false),
    decreases ps.len(),
{
    if ps.len() > 0 {
        lemma_where_alike(ps.drop_last(), qs.drop_last());
        lemma_pred_shape_alike(ps.last(), qs.last());
    }
}

/// A query's shape ignores what the analysis does not read: two queries of
/// the same unit whose predicates are alike (values aside), whose links are
/// the same and whose first sort (if any) is on the same field have the same
/// shape, whatever their values, sort directions, later sorts, limit, start
/// and count.
pub proof fn lemma_shape_ignores_values(t1: TreeV, t2: TreeV)
    requires
        t1.from == t2.from,
        t1.preds.len() == t2.preds.len(),
        forall|i: int| 0 <= i < t1.preds.len() ==> alike(#[trigger] t1.preds[i], t2.preds[i]),
        t1.links == t2.links,
        t1.sorts.len() > 0 <==> t2.sorts.len() > 0,
        t1.sorts.len() > 0 ==> t1.sorts[0].field == t2.sorts[0].field,
    ensures
        shape_text(t1) == shape_text(t2),
{
    lemma_where_alike(t1.preds, t2.preds);
}

proof fn lemma_cut_front(x: Seq<char>, a: Seq<char>, b: Seq<char>)
    requires
        x + a == x + b,
    ensures
        a == b,
{
    let l = x + a;
    let r = x + b;
    assert(l.len() == r.len());
    assert(a.len() == b.len());
    assert forall|i: int| 0 <= i < a.len() implies a[i] == b[i] by {
        assert(l[x.len() + i] == a[i]);
        assert(r[x.len() + i] == b[i]);
    }
    assert(a =~= b);
}

proof fn lemma_cut_ends(x: Seq<char>, a: Seq<char>, b: Seq<char>, y: Seq<char>)
    requires
        x + a + y == x + b + y,
    ensures
        a == b,
{
    let l = x + a + y;
    let r = x + b + y;
    assert(l.len() == r.len());
    assert(a.len() == b.len());
    assert forall|i: int| 0 <= i < a.len() implies a[i] == b[i] by {
        assert(l[x.len() + i] == a[i]);
        assert(r[x.len() + i] == b[i]);
    }
    assert(a =~= b);
}

/// No name holds a space.
pub open spec fn spaceless(ls: Seq<Seq<char>>) -> bool {
    forall|i: int, j: int| 0 <= i < ls.len() && 0 <= j < ls[i].len() ==> ls[i][j] != ' '
}

#[verifier::spinoff_prover]
#[verifier::rlimit(40)]
proof fn lemma_links_injective(l1: Seq<Seq<char>>, l2: Seq<Seq<char>>)
    requires
        spaceless(l1),
        spaceless(l2),
        links_text(l1) == links_text(l2),
    ensures
        l1 == l2,
    decreases l1.len(),
{
    reveal_strlit(" link ");
    let k = " link "@;
    assert(k.len() == 6 && k[5] == ' ');
    if l1.len() == 0 && l2.len() == 0 {
        assert(l1 =~= l2);
    } else if l1.len() == 0 {
        assert(links_text(l2).len() >= 6);
    } else if l2.len() == 0 {
        assert(links_text(l1).len() >= 6);
    } else {
        let p1 = links_text(l1.drop_last());
        let p2 = links_text(l2.drop_last());
        let n1 = l1.last();
        let n2 = l2.last();
        let w = links_text(l1);
        assert(w == p1 + k + n1);
        assert(w == p2 + k + n2);
        assert forall|j: int| 0 <= j < n1.len() implies n1[j] != ' ' by {
            assert(l1[l1.len() - 1] == n1);
        }
        assert forall|j: int| 0 <= j < n2.len() implies n2[j] != ' ' by {
            assert(l2[l2.len() - 1] == n2);
        }
        if n1.len() < n2.len() {
            let at = w.len() - n1.len() - 1;
            assert((p1 + k + n1)[at] == ' ');
            assert((p2 + k + n2)[at] == n2[at - p2.len() - 6]);
        } else if n2.len() < n1.len() {
            let at = w.len() - n2.len() - 1;
            assert((p2 + k + n2)[at] == ' ');
            assert((p1 + k + n1)[at] == n1[at - p1.len() - 6]);
        }
        assert(n1.len() == n2.len());
        assert forall|j: int| 0 <= j < n1.len() implies n1[j] == n2[j] by {
            assert((p1 + k + n1)[p1.len() + 6 + j] == n1[j]);
            assert((p2 + k + n2)[p2.len() + 6 + j] == n2[j]);
        }
        assert(n1 =~= n2);
        assert(p1.len() == p2.len());
        assert forall|j: int| 0 <= j < p1.len() implies p1[j] == p2[j] by {
            assert((p1 + k + n1)[j] == p1[j]);
            assert((p2 + k + n2)[j] == p2[j]);
        }
        assert(p1 =~= p2);
        assert forall|i: int, j: int|
            0 <= i < l1.drop_last().len() && 0 <= j < l1.drop_last()[i].len() implies l1.drop_last()[i][j]
            != ' ' by {
            assert(l1.drop_last()[i] == l1[i]);
        }
        assert forall|i: int, j: int|
            0 <= i < l2.drop_last().len() && 0 <= j < l2.drop_last()[i].len() implies l2.drop_last()[i][j]
            != ' ' by {
            assert(l2.drop_last()[i] == l2[i]);
        }
        lemma_links_injective(l1.drop_last(), l2.drop_last());
        assert(l1 =~= l1.drop_last().push(n1));
        assert(l2 =~= l2.drop_last().push(n2));
    }
}

/// A digest separates queries that differ only in the bonds they link,
/// when no bond name holds a space.
pub proof fn lemma_digest_separates_links(t1: TreeV, t2: TreeV)
    requires
        t1.from == t2.from,
        t1.preds == t2.preds,
        t1.links != t2.links,
        spaceless(t1.links),
        spaceless(t2.links),
        t1.sorts == t2.sorts,
        t1.limit == t2.limit,
        t1.after == t2.after,
        t1.tally == t2.tally,
    ensures
        digest_text(t1) != digest_text(t2),
{
    let x = head_text(t1) + where_text(t1.preds, true);
    let y = order_tail(t1) + page_tail(t1);
    assert(head_text(t2) + where_text(t2.preds, true) == x);
    assert(order_tail(t2) + page_tail(t2) == y);
    assert(digest_text(t1) =~= x + links_text(t1.links) + y);
    assert(digest_text(t2) =~= x + links_text(t2.links) + y);
    if digest_text(t1) == digest_text(t2) {
        lemma_cut_ends(x, links_text(t1.links), links_text(t2.links), y);
        lemma_links_injective(t1.links, t2.links);
    }
}

proof fn lemma_escaped_injective(a: Seq<char>, b: Seq<char>)
    requires
        escaped(a) == escaped(b),
    ensures
        a == b,
    decreases a.len(),
{
    if a.len() == 0 && b.len() == 0 {
        assert(a =~= b);
    } else if a.len() == 0 {
        assert(escaped(b).len() > 0);
    } else if b.len() == 0 {
        assert(escaped(a).len() > 0);
    } else {
        let ca = a.last();
        let cb = b.last();
        let pa = if ca == '\\' || ca == '"' { seq!['\\', ca] } else { seq![ca] };
        let pb = if cb == '\\' || cb == '"' { seq!['\\', cb] } else { seq![cb] };
        let e = escaped(a);
        assert(e == escaped(a.drop_last()) + pa);
        assert(e == escaped(b.drop_last()) + pb);
        assert(e.last() == ca);
        assert(e.last() == cb);
        assert(pa == pb);
        let n = e.len() - pa.len();
        assert(escaped(a.drop_last()) =~= e.take(n));
        assert(escaped(b.drop_last()) =~= e.take(n));
        lemma_escaped_injective(a.drop_last(), b.drop_last());
        assert(a =~= a.drop_last().push(ca));
        assert(b =~= b.drop_last().push(cb));
    }
}

/// How one character is written inside quotes.
pub open spec fn esc_char(c: char) -> Seq<char> {
    if c == '\\' || c == '"' {
        seq!['\\', c]
    } else {
        seq![c]
    }
}

proof fn lemma_escaped_concat(a: Seq<char>, b: Seq<char>)
    ensures
        escaped(a + b) == escaped(a) + escaped(b),
    decreases b.len(),
{
    if b.len() == 0 {
        assert(a + b =~= a);
        assert(escaped(a) + escaped(b) =~= escaped(a));
    } else {
        lemma_escaped_concat(a, b.drop_last());
        assert((a + b).drop_last() =~= a + b.drop_last());
        assert((a + b).last() == b.last());
        assert(escaped(a + b) =~= escaped(a) + escaped(b));
    }
}

proof fn lemma_escaped_head(a: Seq<char>)
    requires
        a.len() > 0,
    ensures
        escaped(a) == esc_char(a[0]) + escaped(a.drop_first()),
{
    assert(a =~= seq![a[0]] + a.drop_first());
    lemma_escaped_concat(seq![a[0]], a.drop_first());
    assert(seq![a[0]].drop_last() =~= Seq::<char>::empty());
    assert(seq![a[0]].last() == a[0]);
    assert(escaped(Seq::<char>::empty()) == Seq::<char>::empty());
    assert(escaped(seq![a[0]]) =~= esc_char(a[0]));
}

/// A quoted value is read back whole: escaped text followed by a closing
/// quote determines the text and what follows.
#[verifier::spinoff_prover]
#[verifier::rlimit(40)]
proof fn lemma_quote_split(a: Seq<char>, x: Seq<char>, b: Seq<char>, y: Seq<char>)
    requires
        escaped(a) + seq!['"'] + x == escaped(b) + seq!['"'] + y,
    ensures
        a == b,
        x == y,
    decreases a.len(),
{
    let l = escaped(a) + seq!['"'] + x;
    if a.len() == 0 && b.len() == 0 {
        assert(escaped(a) =~= Seq::<char>::empty());
        assert(escaped(b) =~= Seq::<char>::empty());
        assert(x =~= l.drop_first());
        assert(y =~= l.drop_first());
        assert(a =~= b);
    } else if a.len() == 0 {
        lemma_escaped_head(b);
        assert(escaped(a) =~= Seq::<char>::empty());
        assert(l[0] == '"');
        assert(l[0] == esc_char(b[0])[0]);
    } else if b.len() == 0 {
        lemma_escaped_head(a);
        assert(escaped(b) =~= Seq::<char>::empty());
        assert(l[0] == esc_char(a[0])[0]);
    } else {
        lemma_escaped_head(a);
        lemma_escaped_head(b);
        let pa = esc_char(a[0]);
        let pb = esc_char(b[0]);
        assert(l[0] == pa[0]);
        assert(l[0] == pb[0]);
        if pa.len() == 2 {
            assert(l[1] == pa[1]);
        }
        if pb.len() == 2 {
            assert(l[1] == pb[1]);
        }
        assert(pa == pb);
        assert(a[0] == b[0]);
        let ra = escaped(a.drop_first()) + seq!['"'] + x;
        let rb = escaped(b.drop_first()) + seq!['"'] + y;
        assert(l =~= pa + ra);
        assert(l =~= pb + rb);
        assert(ra =~= l.skip(pa.len() as int));
        assert(rb =~= l.skip(pa.len() as int));
        lemma_quote_split(a.drop_first(), x, b.drop_first(), y);
        assert(a =~= seq![a[0]] + a.drop_first());
        assert(b =~= seq![b[0]] + b.drop_first());
    }
}

/// The values after the first of a quoted list, each led by `, `.
pub open spec fn quoted_rest(vs: Seq<Seq<char>>) -> Seq<char>
    decreases vs.len(),
{
    if vs.len() == 0 {
        Seq::empty()
    } else {
        seq![',', ' ', '"'] + escaped(vs[0]) + seq!['"'] + quoted_rest(vs.drop_first())
    }
}

proof fn lemma_quoted_rest_push(vs: Seq<Seq<char>>, v: Seq<char>)
    ensures
        quoted_rest(vs.push(v)) == quoted_rest(vs) + seq![',', ' ', '"'] + escaped(v) + seq!['"'],
    decreases vs.len(),
{
    if vs.len() == 0 {
        assert(vs.push(v).drop_first() =~= Seq::<Seq<char>>::empty());
        assert(vs.push(v)[0] == v);
        assert(quoted_rest(Seq::<Seq<char>>::empty()) == Seq::<char>::empty());
        assert(vs =~= Seq::<Seq<char>>::empty());
        assert(quoted_rest(vs.push(v)) =~= quoted_rest(vs) + seq![',', ' ', '"'] + escaped(v) + seq!['"']);
    } else {
        assert(vs.push(v).drop_first() =~= vs.drop_first().push(v));
        assert(vs.push(v)[0] == vs[0]);
        lemma_quoted_rest_push(vs.drop_first(), v);
        assert(quoted_rest(vs.push(v)) =~= quoted_rest(vs) + seq![',', ' ', '"'] + escaped(v) + seq!['"']);
    }
}

#[verifier::spinoff_prover]
#[verifier::rlimit(40)]
proof fn lemma_quoted_head(vs: Seq<Seq<char>>)
    requires
        vs.len() > 0,
    ensures
        quoted_list(vs) == seq!['"'] + escaped(vs[0]) + seq!['"'] + quoted_rest(vs.drop_first()),
    decreases vs.len(),
{
    reveal_strlit(", ");
    reveal_strlit("\"");
    assert("\""@ =~= seq!['"']);
    assert(", "@ =~= seq![',', ' ']);
    assert(quoted_list(Seq::<Seq<char>>::empty()) == Seq::<char>::empty());
    assert(quoted_rest(Seq::<Seq<char>>::empty()) == Seq::<char>::empty());
    if vs.len() == 1 {
        assert(vs.drop_last() =~= Seq::<Seq<char>>::empty());
        assert(vs.drop_first() =~= Seq::<Seq<char>>::empty());
        assert(quoted_list(vs) =~= seq!['"'] + escaped(vs[0]) + seq!['"'] + quoted_rest(vs.drop_first()));
    } else {
        let init = vs.drop_last();
        lemma_quoted_head(init);
        assert(init[0] == vs[0]);
        assert(init.drop_first().push(vs.last()) =~= vs.drop_first());
        lemma_quoted_rest_push(init.drop_first(), vs.last());
        assert(quoted_list(vs) =~= seq!['"'] + escaped(vs[0]) + seq!['"'] + quoted_rest(vs.drop_first()));
    }
}

proof fn lemma_quoted_rest_injective(v: Seq<Seq<char>>, w: Seq<Seq<char>>)
    requires
        quoted_rest(v) == quoted_rest(w),
    ensures
        v == w,
    decreases v.len(),
{
    if v.len() == 0 && w.len() == 0 {
        assert(v =~= w);
    } else if v.len() == 0 {
        assert(quoted_rest(w).len() > 0);
    } else if w.len() == 0 {
        assert(quoted_rest(v).len() > 0);
    } else {
        let h = seq![',', ' ', '"'];
        let l = quoted_rest(v);
        let a = escaped(v[0]) + seq!['"'] + quoted_rest(v.drop_first());
        let b = escaped(w[0]) + seq!['"'] + quoted_rest(w.drop_first());
        assert(l =~= h + a);
        assert(l =~= h + b);
        assert(a =~= l.skip(3));
        assert(b =~= l.skip(3));
        lemma_quote_split(v[0], quoted_rest(v.drop_first()), w[0], quoted_rest(w.drop_first()));
        lemma_quoted_rest_injective(v.drop_first(), w.drop_first());
        assert(v =~= seq![v[0]] + v.drop_first());
        assert(w =~= seq![w[0]] + w.drop_first());
    }
}

/// A quoted list is read back whole: different value lists are written
/// differently.
proof fn lemma_quoted_injective(v: Seq<Seq<char>>, w: Seq<Seq<char>>)
    requires
        quoted_list(v) == quoted_list(w),
    ensures
        v == w,
{
    if v.len() == 0 && w.len() == 0 {
        assert(v =~= w);
    } else if v.len() == 0 {
        lemma_quoted_head(w);
        assert(quoted_list(w).len() > 0);
    } else if w.len() == 0 {
        lemma_quoted_head(v);
        assert(quoted_list(v).len() > 0);
    } else {
        lemma_quoted_head(v);
        lemma_quoted_head(w);
        let l = quoted_list(v);
        let a = escaped(v[0]) + seq!['"'] + quoted_rest(v.drop_first());
        let b = escaped(w[0]) + seq!['"'] + quoted_rest(w.drop_first());
        assert(l =~= seq!['"'] + a);
        assert(l =~= seq!['"'] + b);
        assert(a =~= l.drop_first());
        assert(b =~= l.drop_first());
        lemma_quote_split(v[0], quoted_rest(v.drop_first()), w[0], quoted_rest(w.drop_first()));
        lemma_quoted_rest_injective(v.drop_first(), w.drop_first());
        assert(v =~= seq![v[0]] + v.drop_first());
        assert(w =~= seq![w[0]] + w.drop_first());
    }
}

/// The separator before predicate `j` of a where clause.
pub open spec fn where_sep(j: int) -> Seq<char> {
    if j == 0 {
        " where "@
    } else {
        " and "@
    }
}

/// The canonical where clause from predicate `n` on.
pub open spec fn where_from(ps: Seq<PredV>, n: int) -> Seq<char>
    decreases ps.len() - n,
{
    if n < 0 || n >= ps.len() {
        Seq::empty()
    } else {
        where_sep(n) + pred_text(ps[n]) + where_from(ps, n + 1)
    }
}

proof fn lemma_where_split(ps: Seq<PredV>, n: int)
    requires
        0 <= n <= ps.len(),
    ensures
        where_text(ps, true) == where_text(ps.take(n), true) + where_from(ps, n),
    decreases ps.len() - n,
{
    if n == ps.len() {
        assert(ps.take(n) =~= ps);
        assert(where_text(ps, true) + Seq::<char>::empty() =~= where_text(ps, true));
    } else {
        lemma_where_split(ps, n + 1);
        let t = ps.take(n + 1);
        assert(t.drop_last() =~= ps.take(n));
        assert(t.last() == ps[n]);
        assert(where_text(t, true) == where_text(ps.take(n), true) + where_sep(n) + pred_text(ps[n]));
        assert(where_text(ps, true) =~= where_text(ps.take(n), true) + where_from(ps, n));
    }
}

proof fn lemma_where_from_same(p1: Seq<PredV>, p2: Seq<PredV>, n: int)
    requires
        0 <= n,
        p1.len() == p2.len(),
        forall|j: int| n <= j < p1.len() ==> p1[j] == p2[j],
    ensures
        where_from(p1, n) == where_from(p2, n),
    decreases p1.len() - n,
{
    if n < p1.len() {
        lemma_where_from_same(p1, p2, n + 1);
    }
}

/// What a predicate's canonical text reads of its values: the whole list
/// for `in`, nothing for `some`, the first value otherwise.
pub open spec fn read_values(p: PredV) -> Seq<Seq<char>> {
    if p.op == Op::In {
        p.values
    } else if p.op == Op::Exists {
        Seq::empty()
    } else {
        seq![first_value(p)]
    }
}

proof fn lemma_pred_text_values(p1: PredV, p2: PredV)
    requires
        p1.field == p2.field,
        p1.op == p2.op,
        p1.nest == p2.nest,
        pred_text(p1) == pred_text(p2),
    ensures
        read_values(p1) == read_values(p2),
{
    let f = p1.field + " "@;
    if p1.op == Op::In {
        let a = f + "in ("@;
        assert(pred_text(p1) =~= a + quoted_list(p1.values) + ")"@);
        assert(pred_text(p2) =~= a + quoted_list(p2.values) + ")"@);
        lemma_cut_ends(a, quoted_list(p1.values), quoted_list(p2.values), ")"@);
        lemma_quoted_injective(p1.values, p2.values);
    } else if p1.op == Op::Has {
        let a = f + "has \""@;
        assert(pred_text(p1) =~= a + escaped(first_value(p1)) + "\""@);
        assert(pred_text(p2) =~= a + escaped(first_value(p2)) + "\""@);
        lemma_cut_ends(a, escaped(first_value(p1)), escaped(first_value(p2)), "\""@);
        lemma_escaped_injective(first_value(p1), first_value(p2));
    } else if p1.op == Op::Exists {
    } else {
        let a = f + mark_text(p1.op) + " \""@;
        assert(pred_text(p1) =~= a + escaped(first_value(p1)) + "\""@);
        assert(pred_text(p2) =~= a + escaped(first_value(p2)) + "\""@);
        lemma_cut_ends(a, escaped(first_value(p1)), escaped(first_value(p2)), "\""@);
        lemma_escaped_injective(first_value(p1), first_value(p2));
    }
}

#[verifier::spinoff_prover]
#[verifier::rlimit(40)]
proof fn lemma_digest_parts(t: TreeV, i: int)
    requires
        0 <= i < t.preds.len(),
    ensures
        digest_text(t) == (head_text(t) + where_text(t.preds.take(i), true) + where_sep(i)) + pred_text(
            t.preds[i],
        ) + (where_from(t.preds, i + 1) + links_text(t.links) + order_tail(t) + page_tail(t)),
{
    lemma_where_split(t.preds, i);
    let w = where_from(t.preds, i);
    assert(w == where_sep(i) + pred_text(t.preds[i]) + where_from(t.preds, i + 1));
    assert(digest_text(t) =~= (head_text(t) + where_text(t.preds.take(i), true) + where_sep(i)) + pred_text(
        t.preds[i],
    ) + (where_from(t.preds, i + 1) + links_text(t.links) + order_tail(t) + page_tail(t)));
}

/// A digest separates queries that differ only in what one predicate's
/// text reads of its values (the whole list for `in`, the first value
/// for a comparison or `has`; a `some` predicate reads none).
#[verifier::spinoff_prover]
#[verifier::rlimit(40)]
pub proof fn lemma_digest_separates_values(t1: TreeV, t2: TreeV, i: int)
    requires
        t1.from == t2.from,
        t1.preds.len() == t2.preds.len(),
        0 <= i < t1.preds.len(),
        forall|j: int| 0 <= j < t1.preds.len() && j != i ==> t1.preds[j] == t2.preds[j],
        t1.preds[i].field == t2.preds[i].field,
        t1.preds[i].op == t2.preds[i].op,
        t1.preds[i].nest == t2.preds[i].nest,
        read_values(t1.preds[i]) != read_values(t2.preds[i]),
        t1.links == t2.links,
        t1.sorts == t2.sorts,
        t1.limit == t2.limit,
        t1.after == t2.after,
        t1.tally == t2.tally,
    ensures
        digest_text(t1) != digest_text(t2),
{
    let ps1 = t1.preds;
    let ps2 = t2.preds;
    lemma_digest_parts(t1, i);
    lemma_digest_parts(t2, i);
    lemma_where_from_same(ps1, ps2, i + 1);
    assert(ps1.take(i) =~= ps2.take(i));
    let x = head_text(t1) + where_text(ps1.take(i), true) + where_sep(i);
    let y = where_from(ps1, i + 1) + links_text(t1.links) + order_tail(t1) + page_tail(t1);
    assert(head_text(t2) + where_text(ps2.take(i), true) + where_sep(i) == x);
    assert(where_from(ps2, i + 1) + links_text(t2.links) + order_tail(t2) + page_tail(t2) == y);
    if digest_text(t1) == digest_text(t2) {
        lemma_cut_ends(x, pred_text(ps1[i]), pred_text(ps2[i]), y);
        lemma_pred_text_values(ps1[i], ps2[i]);
    }
}

/// The part of a digest before its order clause.
pub open spec fn digest_head(t: TreeV) -> Seq<char> {
    head_text(t) + where_text(t.preds, true) + links_text(t.links)
}

/// A digest only reads the first sort: queries that differ only in the
/// sorts after the first have the same digest.
pub proof fn lemma_digest_ignores_later_sorts(t1: TreeV, t2: TreeV)
    requires
        t1.from == t2.from,
        t1.preds == t2.preds,
        t1.links == t2.links,
        t1.sorts.len() > 0 <==> t2.sorts.len() > 0,
        t1.sorts.len() > 0 ==> t1.sorts[0] == t2.sorts[0],
        t1.limit == t2.limit,
        t1.after == t2.after,
        t1.tally == t2.tally,
    ensures
        digest_text(t1) == digest_text(t2),
{
}

/// A digest separates queries that differ in exactly one of: the limit,
/// the start, the count, the first sort's field, or the first sort's
/// direction; everything else being the same.
#[verifier::spinoff_prover]
#[verifier::rlimit(40)]
pub proof fn lemma_digest_separates(t1: TreeV, t2: TreeV)
    requires
        t1.from == t2.from,
        t1.preds == t2.preds,
        t1.links == t2.links,
        ({
            let same_order = (t1.sorts.len() > 0 <==> t2.sorts.len() > 0) && (t1.sorts.len() > 0
                ==> t1.sorts[0] == t2.sorts[0]);
            let both = t1.sorts.len() > 0 && t2.sorts.len() > 0;
            let same_page = t1.limit == t2.limit && t1.after == t2.after && t1.tally == t2.tally;
            ||| same_order && t1.limit != t2.limit && t1.after == t2.after && t1.tally == t2.tally
            ||| same_order && t1.limit == t2.limit && t1.after != t2.after && t1.tally == t2.tally
            ||| same_order && t1.limit == t2.limit && t1.after == t2.after && t1.tally != t2.tally
            ||| both && same_page && t1.sorts[0].field == t2.sorts[0].field && t1.sorts[0].rank
                != t2.sorts[0].rank
            ||| both && same_page && t1.sorts[0].field != t2.sorts[0].field && t1.sorts[0].rank
                == t2.sorts[0].rank
        }),
    ensures
        digest_text(t1) != digest_text(t2),
{
    let h = digest_head(t1);
    assert(digest_head(t2) == h);
    assert(digest_text(t1) =~= h + order_tail(t1) + page_tail(t1));
    assert(digest_text(t2) =~= h + order_tail(t2) + page_tail(t2));
    if digest_text(t1) == digest_text(t2) {
        let same_order = (t1.sorts.len() > 0 <==> t2.sorts.len() > 0) && (t1.sorts.len() > 0
            ==> t1.sorts[0] == t2.sorts[0]);
        if same_order {
            assert(order_tail(t1) == order_tail(t2));
            let p = h + order_tail(t1);
            assert(digest_text(t1) =~= p + page_tail(t1));
            assert(digest_text(t2) =~= p + page_tail(t2));
            lemma_cut_front(p, page_tail(t1), page_tail(t2));
            let l1 = match t1.limit {
                Some(n) => " limit "@ + digits(n as nat),
                None => Seq::empty(),
            };
            let l2 = match t2.limit {
                Some(n) => " limit "@ + digits(n as nat),
                None => Seq::empty(),
            };
            let a1 = match t1.after {
                Some(id) => " after \""@ + decimal(id as int) + "\""@,
                None => Seq::empty(),
            };
            let a2 = match t2.after {
                Some(id) => " after \""@ + decimal(id as int) + "\""@,
                None => Seq::empty(),
            };
            let c1 = if t1.tally {
                " count"@
            } else {
                Seq::<char>::empty()
            };
            let c2 = if t2.tally {
                " count"@
            } else {
                Seq::<char>::empty()
            };
            reveal_strlit(" limit ");
            reveal_strlit(" after \"");
            reveal_strlit("\"");
            reveal_strlit(" count");
            if t1.limit != t2.limit {
                assert(page_tail(t1) =~= Seq::<char>::empty() + l1 + (a1 + c1));
                assert(page_tail(t2) =~= Seq::<char>::empty() + l2 + (a1 + c1));
                lemma_cut_ends(Seq::empty(), l1, l2, a1 + c1);
                if t1.limit is Some && t2.limit is Some {
                    let e = " limit "@;
                    lemma_cut_front(e, digits(t1.limit->0 as nat), digits(t2.limit->0 as nat));
                    lemma_digits_injective(t1.limit->0 as nat, t2.limit->0 as nat);
                }
            } else if t1.after != t2.after {
                assert(page_tail(t1) =~= l1 + a1 + c1);
                assert(page_tail(t2) =~= l1 + a2 + c1);
                lemma_cut_ends(l1, a1, a2, c1);
                if t1.after is Some && t2.after is Some {
                    let e = " after \""@;
                    let q = "\""@;
                    let d1 = decimal(t1.after->0 as int);
                    let d2 = decimal(t2.after->0 as int);
                    lemma_cut_ends(e, d1, d2, q);
                    lemma_decimal_injective(t1.after->0 as int, t2.after->0 as int);
                }
            } else {
                assert(page_tail(t1) =~= l1 + a1 + c1);
                assert(page_tail(t2) =~= l1 + a1 + c2);
                assert((l1 + a1 + c1).len() != (l1 + a1 + c2).len());
            }
        } else {
            let s1 = t1.sorts[0];
            let s2 = t2.sorts[0];
            assert(page_tail(t1) == page_tail(t2));
            lemma_cut_ends(h, order_tail(t1), order_tail(t2), page_tail(t1));
            reveal_strlit(" order by ");
            reveal_strlit(" ");
            reveal_strlit("asc");
            reveal_strlit("desc");
            if s1.rank != s2.rank {
                let x = " order by "@ + s1.field + " "@;
                assert(order_tail(t1) =~= x + rank_text(s1.rank));
                assert(order_tail(t2) =~= x + rank_text(s2.rank));
                lemma_cut_front(x, rank_text(s1.rank), rank_text(s2.rank));
                assert(rank_text(s1.rank).len() != rank_text(s2.rank).len());
            } else {
                let y = " "@ + rank_text(s1.rank);
                assert(order_tail(t1) =~= " order by "@ + s1.field + y);
                assert(order_tail(t2) =~= " order by "@ + s2.field + y);
                lemma_cut_ends(" order by "@, s1.field, s2.field, y);
            }
        }
    }
}

fn write_values(out: &mut String, values: &[String])
    ensures
        final(out)@ == old(out)@ + quoted_list(texts(values@)),
{
    let ghost start = out@;
    let mut i: usize = 0;
    while i < values.len()
        invariant
            i <= values@.len(),
            out@ == start + quoted_list(texts(values@.take(i as int))),
        decreases values@.len() - i,
    {
        let ghost before = out@;
        if i > 0 {
            push_str(out, ", ");
        }
        push_str(out, "\"");
        let e = escape(values[i].as_str());
        push_str(out, e.as_str());
        push_str(out, "\"");
        i = i + 1;
        proof {
            let t = texts(values@.take(i as int));
            assert(t.drop_last() =~= texts(values@.take((i - 1) as int)));
            assert(t.last() == values@[i - 1]@);
            if i > 1 {
                assert(out@ =~= start + quoted_list(t.drop_last()) + ", "@ + "\""@ + escaped(t.last()) + "\""@);
            } else {
                assert(out@ =~= start + quoted_list(t.drop_last()) + Seq::<char>::empty() + "\""@ + escaped(t.last()) + "\""@);
            }
        }
    }
    assert(values@.take(values@.len() as int) == values@);
}

/// Appends the canonical text of a predicate.
pub fn write_pred(out: &mut String, pred: &Pred)
    ensures
        final(out)@ == old(out)@ + pred_text(pred@),
    decreases pred,
{
    let ghost start = out@;
    let ghost p = pred@;
    push_str(out, pred.field());
    push_str(out, " ");
    if pred.op() == Op::In {
        push_str(out, "in (");
        write_values(out, pred.values());
        push_str(out, ")");
        assert(out@ =~= start + pred_text(p));
        return;
    }
    if pred.op() == Op::Has {
        push_str(out, "has \"");
        let e = escape(pred.value());
        push_str(out, e.as_str());
        push_str(out, "\"");
        assert(out@ =~= start + pred_text(p));
        return;
    }
    if pred.op() == Op::Exists {
        push_str(out, "some (");
        let ghost mid = out@;
        match &pred.nest {
            Some(nest) => {
                write_pred(out, &**nest);
            },
            None => {},
        }
        push_str(out, ")");
        assert(out@ =~= start + pred_text(p));
        return;
    }
    push_str(out, mark(pred.op()));
    push_str(out, " \"");
    let e = escape(pred.value());
    push_str(out, e.as_str());
    push_str(out, "\"");
    assert(out@ =~= start + pred_text(p));
}

/// Appends the shape of a predicate.
pub fn write_shape(out: &mut String, pred: &Pred)
    ensures
        final(out)@ == old(out)@ + pred_shape(pred@),
    decreases pred,
{
    let ghost start = out@;
    let ghost p = pred@;
    push_str(out, pred.field());
    push_str(out, " ");
    push_str(out, mark(pred.op()));
    if pred.op() != Op::Exists {
        assert(out@ =~= start + pred_shape(p));
        return;
    }
    push_str(out, " (");
    match &pred.nest {
        Some(nest) => {
            write_shape(out, &**nest);
        },
        None => {},
    }
    push_str(out, ")");
    assert(out@ =~= start + pred_shape(p));
}

fn write_where(out: &mut String, preds: &[Pred], canon: bool)
    ensures
        final(out)@ == old(out)@ + where_text(preds_view(preds@), canon),
{
    let ghost start = out@;
    let mut i: usize = 0;
    while i < preds.len()
        invariant
            i <= preds@.len(),
            out@ == start + where_text(preds_view(preds@.take(i as int)), canon),
        decreases preds@.len() - i,
    {
        if i == 0 {
            push_str(out, " where ");
        } else {
            push_str(out, " and ");
        }
        if canon {
            write_pred(out, &preds[i]);
        } else {
            write_shape(out, &preds[i]);
        }
        i = i + 1;
        proof {
            let t = preds_view(preds@.take(i as int));
            assert(t.drop_last() =~= preds_view(preds@.take((i - 1) as int)));
            assert(t.last() == preds@[i - 1]@);
        }
        assert(out@ =~= start + where_text(preds_view(preds@.take(i as int)), canon));
    }
    assert(preds@.take(preds@.len() as int) == preds@);
}

fn write_links(out: &mut String, links: &[String])
    ensures
        final(out)@ == old(out)@ + links_text(texts(links@)),
{
    let ghost start = out@;
    let mut i: usize = 0;
    while i < links.len()
        invariant
            i <= links@.len(),
            out@ == start + links_text(texts(links@.take(i as int))),
        decreases links@.len() - i,
    {
        push_str(out, " link ");
        push_str(out, links[i].as_str());
        i = i + 1;
        proof {
            let t = texts(links@.take(i as int));
            assert(t.drop_last() =~= texts(links@.take((i - 1) as int)));
            assert(t.last() == links@[i - 1]@);
        }
        assert(out@ =~= start + links_text(texts(links@.take(i as int))));
    }
    assert(links@.take(links@.len() as int) == links@);
}

fn write_order(out: &mut String, tree: &Tree)
    ensures
        final(out)@ == old(out)@ + order_tail(tree@),
{
    let ghost start = out@;
    match tree.sort() {
        Some(sort) => {
            push_str(out, " order by ");
            push_str(out, sort.field());
            push_str(out, " ");
            match sort.rank() {
                Rank::Asc => push_str(out, "asc"),
                Rank::Desc => push_str(out, "desc"),
            }
        },
        None => {},
    }
    assert(out@ =~= start + order_tail(tree@));
}

fn write_page(out: &mut String, tree: &Tree)
    ensures
        final(out)@ == old(out)@ + page_tail(tree@),
{
    let ghost start = out@;
    match tree.limit() {
        Some(n) => {
            push_str(out, " limit ");
            let t = show_nat(n as u64);
            push_str(out, t.as_str());
        },
        None => {},
    }
    let ghost l = out@;
    match tree.after() {
        Some(id) => {
            push_str(out, " after \"");
            let t = show_int(id);
            push_str(out, t.as_str());
            push_str(out, "\"");
        },
        None => {},
    }
    let ghost a = out@;
    if tree.tally() {
        push_str(out, " count");
    }
    assert(out@ =~= start + page_tail(tree@));
}

fn write_head(out: &mut String, tree: &Tree)
    ensures
        final(out)@ == old(out)@ + head_text(tree@),
{
    let ghost start = out@;
    push_str(out, "from ");
    push_str(out, tree.from());
    push_str(out, " slice live");
    assert(out@ =~= start + head_text(tree@));
}

/// The canonical text of a query, which two queries share exactly when they
/// ask the same thing: the key of the answer cache.
pub fn digest(tree: &Tree) -> (r: String)
    ensures
        r@ == digest_text(tree@),
{
    let mut out = String::new();
    write_head(&mut out, tree);
    write_where(&mut out, tree.preds(), true);
    write_links(&mut out, tree.links());
    write_order(&mut out, tree);
    write_page(&mut out, tree);
    assert(out@ =~= digest_text(tree@));
    out
}

/// The shape of a query: the key under which its analysis is kept.
pub fn shape(tree: &Tree) -> (r: String)
    ensures
        r@ == shape_text(tree@),
{
    let mut out = String::new();
    write_head(&mut out, tree);
    write_where(&mut out, tree.preds(), false);
    write_links(&mut out, tree.links());
    match tree.sort() {
        Some(sort) => {
            push_str(&mut out, " order by ");
            push_str(&mut out, sort.field());
        },
        None => {},
    }
    assert(out@ =~= shape_text(tree@));
    out
}


/// A text cell `got` meets predicate `p`: comparisons by code point order,
/// `in` by membership, `like` by case-insensitive containment.
pub open spec fn text_hits(got: Seq<char>, p: PredV) -> bool {
    let v = first_value(p);
    match p.op {
        Op::Eq => got == v,
        Op::Ne => got != v,
        Op::Lt => text_lt(got, v),
        Op::Le => got == v || text_lt(got, v),
        Op::Gt => text_lt(v, got),
        Op::Ge => got == v || text_lt(v, got),
        Op::In => exists|i: int| 0 <= i < p.values.len() && p.values[i] == got,
        Op::Like => holds_text(lowered(got), lowered(v)),
        _ => false,
    }
}

/// A boolean cell meets `p`: compared as the text `true` or `false`.
pub open spec fn flag_hits(got: bool, p: PredV) -> bool {
    let v = first_value(p);
    match p.op {
        Op::Eq => v == flag_text(got),
        Op::Ne => v != flag_text(got),
        Op::In => exists|i: int| 0 <= i < p.values.len() && p.values[i] == flag_text(got),
        _ => false,
    }
}

/// An integer (or key) meets `p`: the predicate's values must read as
/// integers; one that does not never matches.
pub open spec fn key_hits(key: i64, p: PredV) -> bool {
    let v = int_of(first_value(p));
    match p.op {
        Op::Eq => v == Some(key as int),
        Op::Ne => v is Some && v->0 != key,
        Op::Lt => v is Some && key < v->0,
        Op::Le => v is Some && key <= v->0,
        Op::Gt => v is Some && key > v->0,
        Op::Ge => v is Some && key >= v->0,
        Op::In => exists|i: int| 0 <= i < p.values.len() && int_of(p.values[i]) == Some(key as int),
        _ => false,
    }
}

/// The named cells meet `p`. An absent cell meets only `is null`.
pub open spec fn cells_hit(cells: Seq<(Seq<char>, CellV)>, p: PredV) -> bool {
    match lookup(cells, p.field) {
        None => p.op == Op::Null,
        Some(c) => match c {
            CellV::Text(s) => text_hits(s, p),
            CellV::Int(n) => key_hits(n, p),
            CellV::Bool(b) => flag_hits(b, p),
        },
    }
}

/// A row (its key, if known, and cells) meets a cell predicate; bond
/// predicates are not decided on cells and count as misses.
pub open spec fn hits_at(key: Option<i64>, cells: Seq<(Seq<char>, CellV)>, p: PredV) -> bool {
    if p.op == Op::Has || p.op == Op::Exists {
        false
    } else if p.field == crate::ddl::KEY@ {
        key is Some && key_hits(key->0, p)
    } else {
        cells_hit(cells, p)
    }
}

/// A stored row meets a predicate; bond predicates are left to the bond
/// sweep and count as met here.
pub open spec fn row_hits(row: Row, p: PredV) -> bool {
    if p.op == Op::Has || p.op == Op::Exists {
        true
    } else if p.field == crate::ddl::KEY@ {
        key_hits(row.key_of(), p)
    } else {
        cells_hit(row.cells_of(), p)
    }
}

/// Whether a text cell meets the predicate.
pub fn hit_text(got: &str, pred: &Pred) -> (r: bool)
    ensures
        r == text_hits(got@, pred@),
{
    let g = chars_of(got);
    let v = chars_of(pred.value());
    match pred.op() {
        Op::Eq => crate::text::same_chars(g.as_slice(), v.as_slice()),
        Op::Ne => !crate::text::same_chars(g.as_slice(), v.as_slice()),
        Op::Lt => before(g.as_slice(), v.as_slice()),
        Op::Le => crate::text::same_chars(g.as_slice(), v.as_slice()) || before(g.as_slice(), v.as_slice()),
        Op::Gt => before(v.as_slice(), g.as_slice()),
        Op::Ge => crate::text::same_chars(g.as_slice(), v.as_slice()) || before(v.as_slice(), g.as_slice()),
        Op::In => {
            let values = pred.values();
            let mut i: usize = 0;
            while i < values.len()
                invariant
                    i <= values@.len(),
                    texts(values@) == pred@.values,
                    pred@.op == Op::In,
                    forall|j: int| 0 <= j < i ==> pred@.values[j] != got@,
                decreases values@.len() - i,
            {
                if same(values[i].as_str(), got) {
                    assert(pred@.values[i as int] == got@);
                    return true;
                }
                i = i + 1;
            }
            false
        },
        Op::Like => {
            let a = lower(got);
            let b = lower(pred.value());
            let x = chars_of(a.as_str());
            let y = chars_of(b.as_str());
            contains(x.as_slice(), y.as_slice())
        },
        _ => false,
    }
}

/// Whether a boolean cell meets the predicate.
pub fn hit_flag(got: bool, pred: &Pred) -> (r: bool)
    ensures
        r == flag_hits(got, pred@),
{
    let want = show_flag(got);
    match pred.op() {
        Op::Eq => same(pred.value(), want.as_str()),
        Op::Ne => !same(pred.value(), want.as_str()),
        Op::In => {
            let values = pred.values();
            let mut i: usize = 0;
            while i < values.len()
                invariant
                    i <= values@.len(),
                    texts(values@) == pred@.values,
                    want@ == flag_text(got),
                    pred@.op == Op::In,
                    forall|j: int| 0 <= j < i ==> pred@.values[j] != flag_text(got),
                decreases values@.len() - i,
            {
                if same(values[i].as_str(), want.as_str()) {
                    assert(pred@.values[i as int] == flag_text(got));
                    return true;
                }
                i = i + 1;
            }
            false
        },
        _ => false,
    }
}

/// An id written as text, as an integer.
pub fn key_text(text: &str) -> (r: Result<i64, crate::error::Error>)
    ensures
        match r {
            Ok(v) => int_of(text@) == Some(v as int),
            Err(e) => int_of(text@) is None && crate::error::refused(e, "id needs integer"@),
        },
{
    match crate::text::int_in(text) {
        Some(v) => Ok(v),
        None => Err(crate::error::adapt("id needs integer")),
    }
}

/// Whether a key meets the predicate.
pub fn hit_key(key: i64, pred: &Pred) -> (r: bool)
    ensures
        r == key_hits(key, pred@),
{
    let want = crate::text::int_in(pred.value());
    match pred.op() {
        Op::Eq => match want { Some(w) => w == key, None => false },
        Op::Ne => match want { Some(w) => w != key, None => false },
        Op::Lt => match want { Some(w) => key < w, None => false },
        Op::Le => match want { Some(w) => key <= w, None => false },
        Op::Gt => match want { Some(w) => key > w, None => false },
        Op::Ge => match want { Some(w) => key >= w, None => false },
        Op::In => {
            let values = pred.values();
            let mut i: usize = 0;
            while i < values.len()
                invariant
                    i <= values@.len(),
                    texts(values@) == pred@.values,
                    pred@.op == Op::In,
                    forall|j: int| 0 <= j < i ==> int_of(pred@.values[j]) != Some(key as int),
                decreases values@.len() - i,
            {
                match crate::text::int_in(values[i].as_str()) {
                    Some(n) => {
                        if n == key {
                            assert(int_of(pred@.values[i as int]) == Some(key as int));
                            return true;
                        }
                    },
                    None => {},
                }
                i = i + 1;
            }
            false
        },
        _ => false,
    }
}

/// Whether named cells meet the predicate.
pub fn hit_map(cells: &[(String, Cell)], pred: &Pred) -> (r: bool)
    requires
        distinct(cells_view(cells@)),
    ensures
        r == cells_hit(cells_view(cells@), pred@),
{
    match get_cell(cells, pred.field()) {
        None => pred.op() == Op::Null,
        Some(got) => match got {
            Cell::Text(value) => hit_text(value.as_str(), pred),
            Cell::Int(value) => hit_key(*value, pred),
            Cell::Bool(value) => hit_flag(*value, pred),
        },
    }
}

/// Whether a row, known by its key (if any) and cells, meets a predicate;
/// bond predicates count as misses.
pub fn hit_at(key: Option<i64>, cells: &[(String, Cell)], pred: &Pred) -> (r: bool)
    requires
        distinct(cells_view(cells@)),
    ensures
        r == hits_at(key, cells_view(cells@), pred@),
{
    if pred.op() == Op::Has || pred.op() == Op::Exists {
        return false;
    }
    if same(pred.field(), crate::ddl::KEY) {
        return match key {
            Some(k) => hit_key(k, pred),
            None => false,
        };
    }
    hit_map(cells, pred)
}

/// Whether a row, known by its key (if any) and cells, meets every
/// predicate.
pub fn cover(key: Option<i64>, cells: &[(String, Cell)], preds: &[Pred]) -> (r: bool)
    requires
        distinct(cells_view(cells@)),
    ensures
        r == forall|i: int| 0 <= i < preds@.len() ==> hits_at(key, cells_view(cells@), #[trigger] preds_view(preds@)[i]),
{
    let mut i: usize = 0;
    while i < preds.len()
        invariant
            i <= preds@.len(),
            distinct(cells_view(cells@)),
            forall|j: int| 0 <= j < i ==> hits_at(key, cells_view(cells@), #[trigger] preds_view(preds@)[j]),
        decreases preds@.len() - i,
    {
        if !hit_at(key, cells, &preds[i]) {
            assert(!hits_at(key, cells_view(cells@), preds_view(preds@)[i as int]));
            return false;
        }
        i = i + 1;
    }
    true
}

/// Whether a stored row meets a predicate; bond predicates count as met.
pub fn hit(row: &Row, pred: &Pred) -> (r: bool)
    requires
        row.wf(),
    ensures
        r == row_hits(*row, pred@),
{
    if pred.op() == Op::Has || pred.op() == Op::Exists {
        return true;
    }
    if same(pred.field(), crate::ddl::KEY) {
        return hit_key(row.key(), pred);
    }
    hit_map(row.cells(), pred)
}

/// Whether a stored row meets every predicate.
pub fn pass(row: &Row, preds: &[Pred]) -> (r: bool)
    requires
        row.wf(),
    ensures
        r == forall|i: int| 0 <= i < preds@.len() ==> row_hits(*row, #[trigger] preds_view(preds@)[i]),
{
    let mut i: usize = 0;
    while i < preds.len()
        invariant
            i <= preds@.len(),
            row.wf(),
            forall|j: int| 0 <= j < i ==> row_hits(*row, #[trigger] preds_view(preds@)[j]),
        decreases preds@.len() - i,
    {
        if !hit(row, &preds[i]) {
            assert(!row_hits(*row, preds_view(preds@)[i as int]));
            return false;
        }
        i = i + 1;
    }
    true
}

/// The same query asking for rows instead of their count.
pub fn bare(tree: &Tree) -> (t: Tree)
    ensures
        t@ == (TreeV { tally: false, ..tree@ }),
{
    tree.dup().untallied()
}

/// Rows after the first row keyed `id`; none when no row has that key.
pub open spec fn rows_after(rows: Seq<Row>, id: i64) -> Seq<Row> {
    if exists|i: int| 0 <= i < rows.len() && rows[i].key_of() == id {
        let i = choose|i: int|
            0 <= i < rows.len() && rows[i].key_of() == id && forall|j: int|
                0 <= j < i ==> rows[j].key_of() != id;
        rows.skip(i + 1)
    } else {
        Seq::empty()
    }
}

/// Drops every row up to and including the first keyed `id`; drops all rows
/// when none is.
pub fn past(rows: &mut Vec<Row>, id: i64)
    ensures
        final(rows)@ == rows_after(old(rows)@, id),
{
    let ghost start = rows@;
    let mut i: usize = 0;
    while i < rows.len()
        invariant
            rows@ == start,
            start == old(rows)@,
            i <= rows@.len(),
            forall|j: int| 0 <= j < i ==> rows@[j].key_of() != id,
        decreases rows@.len() - i,
    {
        if rows[i].key() == id {
            proof {
                let w = choose|w: int|
                    0 <= w < start.len() && start[w].key_of() == id && forall|j: int|
                        0 <= j < w ==> start[j].key_of() != id;
                assert(0 <= i < start.len() && start[i as int].key_of() == id);
                if w < i {
                    assert(start[w].key_of() != id);
                } else if w > i {
                    assert(start[i as int].key_of() != id);
                }
                assert(w == i);
            }
            let mut kept: Vec<Row> = Vec::new();
            let mut rest = rows.split_off(i + 1);
            std::mem::swap(rows, &mut rest);
            assert(rows@ =~= start.skip(i + 1));
            return;
        }
        i = i + 1;
    }
    rows.clear();
    assert(rows@ =~= Seq::<Row>::empty());
}

/// Applies paging: rows after `after` (when given), then at most `limit`.
pub fn page(rows: &mut Vec<Row>, after: Option<i64>, limit: Option<usize>)
    ensures
        final(rows)@ == ({
            let a = match after {
                Some(id) => rows_after(old(rows)@, id),
                None => old(rows)@,
            };
            match limit {
                Some(n) => if n < a.len() { a.take(n as int) } else { a },
                None => a,
            }
        }),
{
    match after {
        Some(id) => past(rows, id),
        None => {},
    }
    match limit {
        Some(n) => rows.truncate(n),
        None => {},
    }
}

/// The cell under `field`, or empty text.
pub fn cell(row: &Row, field: &str) -> (r: Cell)
    requires
        row.wf(),
    ensures
        match lookup(row.cells_of(), field@) {
            Some(c) => r@ == c,
            None => r@ == CellV::Text(Seq::empty()),
        },
{
    match row.cell(field) {
        Some(c) => c.dup(),
        None => Cell::Text(String::new()),
    }
}


/// The rank of a cell's kind in cell order: booleans, then integers, then
/// texts.
pub open spec fn kind_rank(c: CellV) -> int {
    match c {
        CellV::Bool(_) => 0,
        CellV::Int(_) => 1,
        CellV::Text(_) => 2,
    }
}

/// Strict cell order: by kind, then by value (`false` before `true`,
/// integers by value, texts by code point order).
pub open spec fn cell_lt(a: CellV, b: CellV) -> bool {
    if kind_rank(a) != kind_rank(b) {
        kind_rank(a) < kind_rank(b)
    } else {
        match (a, b) {
            (CellV::Bool(x), CellV::Bool(y)) => !x && y,
            (CellV::Int(x), CellV::Int(y)) => x < y,
            (CellV::Text(x), CellV::Text(y)) => text_lt(x, y),
            _ => false,
        }
    }
}

/// The cell a row sorts by: the named cell, or empty text when absent.
pub open spec fn sort_cell(row: Row, field: Seq<char>) -> CellV {
    match lookup(row.cells_of(), field) {
        Some(c) => c,
        None => CellV::Text(Seq::empty()),
    }
}

/// Row `a` sorts strictly before row `b` under the ordering key `sort`:
/// with no key, by row key; on the key field, by row key in the asked
/// direction; on another field, by that cell in the asked direction and
/// then by row key ascending.
pub open spec fn precedes(a: Row, b: Row, sort: Option<SortV>) -> bool {
    match sort {
        None => a.key_of() < b.key_of(),
        Some(s) => if s.field == crate::ddl::KEY@ {
            if s.rank == Rank::Desc {
                a.key_of() > b.key_of()
            } else {
                a.key_of() < b.key_of()
            }
        } else {
            let ca = sort_cell(a, s.field);
            let cb = sort_cell(b, s.field);
            (if s.rank == Rank::Desc {
                cell_lt(cb, ca)
            } else {
                cell_lt(ca, cb)
            }) || (ca == cb && a.key_of() < b.key_of())
        },
    }
}

/// Neither row sorts before the other.
pub open spec fn tied(a: Row, b: Row, sort: Option<SortV>) -> bool {
    !precedes(a, b, sort) && !precedes(b, a, sort)
}

/// No row sorts before one that stands earlier.
pub open spec fn in_order(s: Seq<Row>, sort: Option<SortV>) -> bool {
    forall|i: int, j: int| 0 <= i < j < s.len() ==> !precedes(#[trigger] s[j], #[trigger] s[i], sort)
}

/// `out` holds the rows of `inp`, each once, and tied rows keep their
/// relative order: `m` maps each output place to its input place.
pub open spec fn stable_from(out: Seq<Row>, inp: Seq<Row>, sort: Option<SortV>, m: Seq<int>) -> bool {
    &&& m.len() == out.len() == inp.len()
    &&& forall|i: int| 0 <= i < m.len() ==> 0 <= #[trigger] m[i] < inp.len() && out[i] == inp[m[i]]
    &&& forall|i: int, j: int| 0 <= i < j < m.len() ==> #[trigger] m[i] != #[trigger] m[j]
    &&& forall|i: int, j: int|
        0 <= i < j < m.len() && tied(out[i], out[j], sort) ==> #[trigger] m[i] < #[trigger] m[j]
}

/// `out` is `inp` sorted stably by `sort`.
pub open spec fn sorted_stably(out: Seq<Row>, inp: Seq<Row>, sort: Option<SortV>) -> bool {
    in_order(out, sort) && exists|m: Seq<int>| stable_from(out, inp, sort, m)
}

proof fn lemma_cell_lt(a: CellV, b: CellV, c: CellV)
    ensures
        !cell_lt(a, a),
        cell_lt(a, b) && cell_lt(b, c) ==> cell_lt(a, c),
        a != b ==> cell_lt(a, b) || cell_lt(b, a),
{
    match a {
        CellV::Text(x) => {
            lemma_text_lt_irreflexive(x);
        },
        _ => {},
    }
    match (a, b, c) {
        (CellV::Text(x), CellV::Text(y), CellV::Text(z)) => {
            if text_lt(x, y) && text_lt(y, z) {
                lemma_text_lt_transitive(x, y, z);
            }
        },
        _ => {},
    }
    match (a, b) {
        (CellV::Text(x), CellV::Text(y)) => {
            if x != y {
                lemma_text_lt_total(x, y);
            }
        },
        _ => {},
    }
}

/// The row order is a strict weak order: irreflexive, transitive, and
/// whenever `a` precedes `b`, any `c` follows `a` or precedes `b`.
proof fn lemma_precedes(a: Row, b: Row, c: Row, sort: Option<SortV>)
    ensures
        !precedes(a, a, sort),
        precedes(a, b, sort) && precedes(b, c, sort) ==> precedes(a, c, sort),
        precedes(a, b, sort) ==> precedes(a, c, sort) || precedes(c, b, sort),
{
    match sort {
        None => {},
        Some(s) => {
            if s.field != crate::ddl::KEY@ {
                let ca = sort_cell(a, s.field);
                let cb = sort_cell(b, s.field);
                let cc = sort_cell(c, s.field);
                lemma_cell_lt(ca, cb, cc);
                lemma_cell_lt(cb, cc, ca);
                lemma_cell_lt(cc, ca, cb);
                lemma_cell_lt(cb, ca, cc);
                lemma_cell_lt(ca, cc, cb);
                lemma_cell_lt(cc, cb, ca);
            }
        },
    }
}

/// Whether cell `a` sorts strictly before cell `b`.
pub fn cell_before(a: &Cell, b: &Cell) -> (r: bool)
    ensures
        r == cell_lt(a@, b@),
{
    match (a, b) {
        (Cell::Bool(x), Cell::Bool(y)) => !*x && *y,
        (Cell::Int(x), Cell::Int(y)) => *x < *y,
        (Cell::Text(x), Cell::Text(y)) => {
            let p = chars_of(x.as_str());
            let q = chars_of(y.as_str());
            before(p.as_slice(), q.as_slice())
        },
        (Cell::Bool(_), _) => true,
        (Cell::Int(_), Cell::Text(_)) => true,
        _ => false,
    }
}

/// Whether two cells are the same.
pub fn cell_same(a: &Cell, b: &Cell) -> (r: bool)
    ensures
        r == (a@ == b@),
{
    match (a, b) {
        (Cell::Bool(x), Cell::Bool(y)) => *x == *y,
        (Cell::Int(x), Cell::Int(y)) => *x == *y,
        (Cell::Text(x), Cell::Text(y)) => same(x.as_str(), y.as_str()),
        _ => false,
    }
}

/// The view of an optional ordering key.
pub open spec fn sort_opt(sort: Option<&Sort>) -> Option<SortV> {
    match sort {
        Some(s) => Some(s@),
        None => None,
    }
}

/// Whether row `a` sorts strictly before row `b`.
pub fn goes_before(a: &Row, b: &Row, sort: Option<&Sort>) -> (r: bool)
    requires
        a.wf(),
        b.wf(),
    ensures
        r == precedes(*a, *b, sort_opt(sort)),
{
    match sort {
        None => a.key() < b.key(),
        Some(s) => {
            if same(s.field(), crate::ddl::KEY) {
                if s.rank() == Rank::Desc {
                    a.key() > b.key()
                } else {
                    a.key() < b.key()
                }
            } else {
                let ca = cell(a, s.field());
                let cb = cell(b, s.field());
                let primary = if s.rank() == Rank::Desc {
                    cell_before(&cb, &ca)
                } else {
                    cell_before(&ca, &cb)
                };
                primary || (cell_same(&ca, &cb) && a.key() < b.key())
            }
        },
    }
}

/// Sorts rows stably by the ordering key (by row key when there is none).
pub fn order(rows: &mut Vec<Row>, sort: Option<&Sort>)
    requires
        forall|i: int| 0 <= i < old(rows)@.len() ==> #[trigger] old(rows)@[i].wf(),
    ensures
        sorted_stably(final(rows)@, old(rows)@, sort_opt(sort)),
        forall|i: int| 0 <= i < final(rows)@.len() ==> #[trigger] final(rows)@[i].wf(),
{
    let ghost so = sort_opt(sort);
    let ghost inp = rows@;
    let mut input: Vec<Row> = Vec::new();
    std::mem::swap(&mut input, rows);
    let n = input.len();
    let mut out: Vec<Row> = Vec::new();
    let ghost mut m: Seq<int> = Seq::empty();
    let mut k: usize = 0;
    while k < n
        invariant
            n == inp.len(),
            k <= n,
            input@ == inp.skip(k as int),
            forall|i: int| 0 <= i < inp.len() ==> #[trigger] inp[i].wf(),
            out@.len() == k,
            m.len() == k,
            forall|i: int| 0 <= i < k ==> 0 <= #[trigger] m[i] < k && out@[i] == inp[m[i]],
            forall|i: int, j: int| 0 <= i < j < k ==> #[trigger] m[i] != #[trigger] m[j],
            forall|i: int, j: int|
                0 <= i < j < k && tied(out@[i], out@[j], so) ==> #[trigger] m[i] < #[trigger] m[j],
            in_order(out@, so),
            so == sort_opt(sort),
        decreases n - k,
    {
        let x = input.remove(0);
        assert(x == inp[k as int]);
        assert(input@ =~= inp.skip(k + 1));
        let ghost before_out = out@;
        let ghost before_m = m;
        proof {
            assert forall|i: int| 0 <= i < k implies (#[trigger] out@[i]).wf() by {
                assert(out@[i] == inp[m[i]]);
            }
        }
        let mut j: usize = 0;
        while j < out.len() && !goes_before(&x, &out[j], sort)
            invariant
                j <= out@.len(),
                out@.len() == k,
                x == inp[k as int],
                x.wf(),
                forall|i: int| 0 <= i < k ==> (#[trigger] out@[i]).wf(),
                forall|q: int| 0 <= q < j ==> !precedes(x, #[trigger] out@[q], so),
                so == sort_opt(sort),
                out@ == before_out,
            decreases out@.len() - j,
        {
            j = j + 1;
        }
        out.insert(j, x);
        proof {
            m = before_m.insert(j as int, k as int);
            let o = out@;
            assert(o =~= before_out.insert(j as int, x));
            if j < k {
                assert(precedes(x, before_out[j as int], so));
            }
            assert forall|a: int, b: int| 0 <= a < b < o.len() implies !precedes(#[trigger] o[b], #[trigger] o[a], so) by {
                if a == j {
                    let ob = before_out[b - 1];
                    assert(o[b] == ob);
                    lemma_precedes(ob, x, before_out[j as int], so);
                    if b - 1 > j {
                        assert(!precedes(before_out[b - 1], before_out[j as int], so));
                    }
                    lemma_precedes(before_out[j as int], before_out[j as int], before_out[j as int], so);
                } else if b == j {
                    assert(o[a] == before_out[a]);
                } else {
                    let pa = if a < j { a } else { a - 1 };
                    let pb = if b < j { b } else { b - 1 };
                    assert(o[a] == before_out[pa] && o[b] == before_out[pb]);
                }
            }
            assert forall|i: int| 0 <= i < k + 1 implies 0 <= #[trigger] m[i] < k + 1 && out@[i] == inp[m[i]] by {
                if i < j {
                    assert(m[i] == before_m[i]);
                } else if i > j {
                    assert(m[i] == before_m[i - 1]);
                }
            }
            assert forall|a: int, b: int| 0 <= a < b < k + 1 implies #[trigger] m[a] != #[trigger] m[b] by {
                let pa = if a < j { a } else { a - 1 };
                let pb = if b < j { b } else { b - 1 };
                if a != j && b != j {
                    assert(m[a] == before_m[pa] && m[b] == before_m[pb]);
                } else if a == j {
                    assert(m[b] == before_m[pb]);
                } else {
                    assert(m[a] == before_m[pa]);
                }
            }
            assert forall|a: int, b: int|
                0 <= a < b < k + 1 && tied(out@[a], out@[b], so) implies #[trigger] m[a] < #[trigger] m[b] by {
                let pa = if a < j { a } else { a - 1 };
                let pb = if b < j { b } else { b - 1 };
                if a != j && b != j {
                    assert(m[a] == before_m[pa] && m[b] == before_m[pb]);
                    assert(out@[a] == before_out[pa] && out@[b] == before_out[pb]);
                } else if b == j {
                    assert(m[a] == before_m[pa]);
                } else {
                    let ob = before_out[pb];
                    assert(out@[b] == ob);
                    lemma_precedes(x, before_out[j as int], ob, so);
                    if pb > j {
                        assert(!precedes(ob, before_out[j as int], so));
                    }
                }
            }
        }
        k = k + 1;
    }
    proof {
        assert(stable_from(out@, inp, so, m));
    }
    *rows = out;
    proof {
        assert forall|i: int| 0 <= i < rows@.len() implies #[trigger] rows@[i].wf() by {
            assert(rows@[i] == inp[m[i]]);
        }
    }
}

/// The row meets every predicate.
pub open spec fn passes(row: Row, ps: Seq<PredV>) -> bool {
    forall|i: int| 0 <= i < ps.len() ==> row_hits(row, #[trigger] ps[i])
}

/// The rows that meet every predicate, in order.
pub open spec fn sieved(rows: Seq<Row>, ps: Seq<PredV>) -> Seq<Row>
    decreases rows.len(),
{
    if rows.len() == 0 {
        Seq::empty()
    } else {
        let rest = sieved(rows.drop_last(), ps);
        if passes(rows.last(), ps) {
            rest.push(rows.last())
        } else {
            rest
        }
    }
}

/// Keeps the rows that meet every predicate, in order.
pub fn sieve(rows: &mut Vec<Row>, preds: &[Pred])
    requires
        forall|i: int| 0 <= i < old(rows)@.len() ==> #[trigger] old(rows)@[i].wf(),
    ensures
        final(rows)@ == sieved(old(rows)@, preds_view(preds@)),
        forall|i: int| 0 <= i < final(rows)@.len() ==> #[trigger] final(rows)@[i].wf(),
{
    let ghost start = rows@;
    let ghost ps = preds_view(preds@);
    let mut input: Vec<Row> = Vec::new();
    std::mem::swap(&mut input, rows);
    let n = input.len();
    let mut kept: Vec<Row> = Vec::new();
    let mut k: usize = 0;
    assert(start.take(0) =~= Seq::<Row>::empty());
    while k < n
        invariant
            n == start.len(),
            k <= n,
            input@ == start.skip(k as int),
            ps == preds_view(preds@),
            forall|i: int| 0 <= i < start.len() ==> #[trigger] start[i].wf(),
            kept@ == sieved(start.take(k as int), ps),
            forall|i: int| 0 <= i < kept@.len() ==> #[trigger] kept@[i].wf(),
        decreases n - k,
    {
        let x = input.remove(0);
        assert(x == start[k as int]);
        assert(input@ =~= start.skip(k + 1));
        proof {
            assert(start.take(k + 1).drop_last() =~= start.take(k as int));
            assert(start.take(k + 1).last() == x);
        }
        if pass(&x, preds) {
            let ghost before = kept@;
            kept.push(x);
            proof {
                assert forall|i: int| 0 <= i < kept@.len() implies #[trigger] kept@[i].wf() by {
                    if i < before.len() {
                        assert(kept@[i] == before[i]);
                    }
                }
            }
        }
        k = k + 1;
    }
    assert(start.take(n as int) =~= start);
    *rows = kept;
}

} // verus!
