//! The query grammar:
//! `from <unit> [where <pred> (and <pred>)*] [count] (link <bond>)*
//! [order by <field> [asc|desc] (, ...)*] [limit <n>] [after "<id>"]`.
use vstd::prelude::*;
use crate::error::{Error, refused, adapt, adapt2};
use crate::query::{Op, Pred, PredV, Rank, Sort, SortV, Tree, TreeV, Slice, texts, preds_view, sorts_view};
use crate::query::scan::{Scan, past_ws, opt_at, kw_at, ident_at, num_at, op_at, ch_at, comma_at, quoted_at, low_code};
use crate::text::{int_of, chars_of, int_from};
use vstd::string::StringSliceAdditionalSpecFns;

verus! {

/// A predicate on a cell: `is null`, `in (...)`, `like "..."`, or an
/// operator and a quoted value.
pub open spec fn cell_at(b: Seq<u8>, i: int, field: Seq<char>) -> Result<(PredV, int), Seq<char>> {
    let (is_null, j1) = opt_at(b, i, "is"@);
    if is_null {
        match kw_at(b, j1, "null"@) {
            Err(m) => Err(m),
            Ok(j2) => Ok((PredV { field, op: Op::Null, values: Seq::empty(), nest: None }, j2)),
        }
    } else {
        let (is_in, j2) = opt_at(b, j1, "in"@);
        if is_in {
            match list_at(b, j2) {
                Err(m) => Err(m),
                Ok((vs, j3)) => Ok((PredV { field, op: Op::In, values: vs, nest: None }, j3)),
            }
        } else {
            let (is_like, j3) = opt_at(b, j2, "like"@);
            if is_like {
                match quoted_at(b, j3) {
                    Err(m) => Err(m),
                    Ok((v, j4)) => Ok(
                        (PredV { field, op: Op::Like, values: seq![v], nest: None }, j4),
                    ),
                }
            } else {
                match op_at(b, j3) {
                    Err(m) => Err(m),
                    Ok((op, j4)) => match quoted_at(b, j4) {
                        Err(m) => Err(m),
                        Ok((v, j5)) => Ok((PredV { field, op, values: seq![v], nest: None }, j5)),
                    },
                }
            }
        }
    }
}

/// Quoted values separated by commas.
pub open spec fn vals_at(b: Seq<u8>, i: int) -> Result<(Seq<Seq<char>>, int), Seq<char>>
    decreases b.len() - i,
{
    match quoted_at(b, i) {
        Err(m) => Err(m),
        Ok((v, j)) => {
            let (more, k) = comma_at(b, j);
            if more && i < k <= b.len() {
                match vals_at(b, k) {
                    Err(m) => Err(m),
                    Ok((vs, e)) => Ok((seq![v] + vs, e)),
                }
            } else {
                Ok((seq![v], k))
            }
        },
    }
}

/// A parenthesised list of quoted values.
pub open spec fn list_at(b: Seq<u8>, i: int) -> Result<(Seq<Seq<char>>, int), Seq<char>> {
    match ch_at(b, i, '(') {
        Err(m) => Err(m),
        Ok(j) => match vals_at(b, j) {
            Err(m) => Err(m),
            Ok((vs, k)) => match ch_at(b, k, ')') {
                Err(m) => Err(m),
                Ok(e) => Ok((vs, e)),
            },
        },
    }
}

/// One predicate: `<field> has "<id>"`, `<bond> some (<field> ...)`, or a
/// cell predicate.
pub open spec fn pred_at(b: Seq<u8>, i: int) -> Result<(PredV, int), Seq<char>> {
    match ident_at(b, i) {
        Err(m) => Err(m),
        Ok((field, j)) => {
            let (has, j1) = opt_at(b, j, "has"@);
            if has {
                match quoted_at(b, j1) {
                    Err(m) => Err(m),
                    Ok((v, j2)) => Ok((PredV { field, op: Op::Has, values: seq![v], nest: None }, j2)),
                }
            } else {
                let (some, j2) = opt_at(b, j1, "some"@);
                if some {
                    match ch_at(b, j2, '(') {
                        Err(m) => Err(m),
                        Ok(j3) => match ident_at(b, j3) {
                            Err(m) => Err(m),
                            Ok((inner, j4)) => match cell_at(b, j4, inner) {
                                Err(m) => Err(m),
                                Ok((nest, j5)) => match ch_at(b, j5, ')') {
                                    Err(m) => Err(m),
                                    Ok(j6) => Ok(
                                        (
                                            PredV {
                                                field,
                                                op: Op::Exists,
                                                values: Seq::empty(),
                                                nest: Some(Box::new(nest)),
                                            },
                                            j6,
                                        ),
                                    ),
                                },
                            },
                        },
                    }
                } else {
                    cell_at(b, j2, field)
                }
            }
        },
    }
}

/// Predicates joined by `and`.
pub open spec fn preds_at(b: Seq<u8>, i: int) -> Result<(Seq<PredV>, int), Seq<char>>
    decreases b.len() - i,
{
    match pred_at(b, i) {
        Err(m) => Err(m),
        Ok((p, j)) => {
            let (more, k) = opt_at(b, j, "and"@);
            if more && i < k <= b.len() {
                match preds_at(b, k) {
                    Err(m) => Err(m),
                    Ok((ps, e)) => Ok((seq![p] + ps, e)),
                }
            } else {
                Ok((seq![p], k))
            }
        },
    }
}

/// Equal texts, ignoring ASCII case.
pub open spec fn same_ci(a: Seq<char>, c: Seq<char>) -> bool {
    a.len() == c.len() && forall|k: int|
        0 <= k < a.len() ==> low_code(#[trigger] a[k] as u32) == low_code(c[k] as u32)
}

/// `link <bond>` clauses after those read so far; a bond may appear once.
pub open spec fn links_from(b: Seq<u8>, i: int, acc: Seq<Seq<char>>) -> Result<(Seq<Seq<char>>, int), Seq<char>>
    decreases b.len() - i,
{
    let (more, j) = opt_at(b, i, "link"@);
    if !more {
        Ok((acc, j))
    } else {
        match ident_at(b, j) {
            Err(m) => Err(m),
            Ok((bond, k)) => if exists|q: int| 0 <= q < acc.len() && same_ci(acc[q], bond) {
                Err("duplicate link "@ + bond)
            } else if i < k <= b.len() {
                links_from(b, k, acc.push(bond))
            } else {
                Ok((acc.push(bond), k))
            },
        }
    }
}

/// Ordering keys separated by commas.
pub open spec fn sort_list(b: Seq<u8>, i: int) -> Result<(Seq<SortV>, int), Seq<char>>
    decreases b.len() - i,
{
    match ident_at(b, i) {
        Err(m) => Err(m),
        Ok((field, j)) => {
            let (desc, j1) = opt_at(b, j, "desc"@);
            let rank = if desc { Rank::Desc } else { Rank::Asc };
            let j2 = if desc { j1 } else { opt_at(b, j1, "asc"@).1 };
            let (more, k) = comma_at(b, j2);
            if more && i < k <= b.len() {
                match sort_list(b, k) {
                    Err(m) => Err(m),
                    Ok((ss, e)) => Ok((seq![SortV { field, rank }] + ss, e)),
                }
            } else {
                Ok((seq![SortV { field, rank }], k))
            }
        },
    }
}

/// An optional `order by` clause.
pub open spec fn sorts_at(b: Seq<u8>, i: int) -> Result<(Seq<SortV>, int), Seq<char>> {
    let (ordered, j) = opt_at(b, i, "order"@);
    if !ordered {
        Ok((Seq::empty(), j))
    } else {
        match kw_at(b, j, "by"@) {
            Err(m) => Err(m),
            Ok(k) => sort_list(b, k),
        }
    }
}

/// An optional `limit <n>`, with `n` positive.
pub open spec fn limit_at(b: Seq<u8>, i: int) -> Result<(Option<usize>, int), Seq<char>> {
    let (limited, j) = opt_at(b, i, "limit"@);
    if !limited {
        Ok((None, j))
    } else {
        match num_at(b, j) {
            Err(m) => Err(m),
            Ok((n, k)) => if n == 0 {
                Err("limit must be positive"@)
            } else {
                Ok((Some(n as usize), k))
            },
        }
    }
}

/// An optional `after "<id>"`, with an integer id.
pub open spec fn after_at(b: Seq<u8>, i: int) -> Result<(Option<i64>, int), Seq<char>> {
    let (paged, j) = opt_at(b, i, "after"@);
    if !paged {
        Ok((None, j))
    } else {
        match quoted_at(b, j) {
            Err(m) => Err(m),
            Ok((t, k)) => match int_of(t) {
                None => Err("after needs integer id"@),
                Some(v) => Ok((Some(v as i64), k)),
            },
        }
    }
}

/// What a query text means, or why it is refused.
pub open spec fn parsed(b: Seq<u8>) -> Result<TreeV, Seq<char>> {
    let i0 = past_ws(b, 0);
    match kw_at(b, i0, "from"@) {
        Err(m) => Err(m),
        Ok(i1) => match ident_at(b, i1) {
            Err(m) => Err(m),
            Ok((unit, i2)) => {
                let (filtered, i3) = opt_at(b, i2, "where"@);
                let found = if filtered {
                    preds_at(b, i3)
                } else {
                    Ok((Seq::<PredV>::empty(), i3))
                };
                match found {
                    Err(m) => Err(m),
                    Ok((preds, i4)) => {
                        let (tally, i5) = opt_at(b, i4, "count"@);
                        match links_from(b, i5, Seq::empty()) {
                            Err(m) => Err(m),
                            Ok((links, i6)) => match sorts_at(b, i6) {
                                Err(m) => Err(m),
                                Ok((sorts, i7)) => match limit_at(b, i7) {
                                    Err(m) => Err(m),
                                    Ok((limit, i8)) => match after_at(b, i8) {
                                        Err(m) => Err(m),
                                        Ok((after, i9)) => {
                                            if past_ws(b, i9) < b.len() {
                                                Err("query has trailing tokens"@)
                                            } else if tally && (links.len() > 0 || sorts.len() > 0
                                                || limit is Some || after is Some) {
                                                Err("count stands alone"@)
                                            } else {
                                                Ok(
                                                    TreeV {
                                                        from: unit,
                                                        slice: Slice::Live,
                                                        preds,
                                                        links,
                                                        sorts,
                                                        limit,
                                                        after,
                                                        tally,
                                                    },
                                                )
                                            }
                                        },
                                    },
                                },
                            },
                        }
                    },
                }
            },
        },
    }
}

proof fn lemma_ws(b: Seq<u8>, i: int)
    requires
        0 <= i <= b.len(),
    ensures
        i <= past_ws(b, i) <= b.len(),
    decreases b.len() - i,
{
    if 0 <= i < b.len() && crate::query::scan::ws_width(b, i) > 0 {
        lemma_ws(b, i + crate::query::scan::ws_width(b, i));
    }
}

proof fn lemma_name_grows(b: Seq<u8>, s: int, i: int)
    requires
        0 <= s <= i <= b.len(),
    ensures
        i <= crate::query::scan::name_end(b, s, i) <= b.len(),
    decreases b.len() - i,
{
    if s <= i < b.len() && crate::query::scan::name_byte(b[i], i == s) {
        lemma_name_grows(b, s, i + 1);
    }
}

proof fn lemma_ident_moves(b: Seq<u8>, i: int)
    requires
        0 <= i <= b.len(),
    ensures
        ident_at(b, i) matches Ok((_, e)) ==> i < e <= b.len(),
{
    lemma_ws(b, i);
    let j = past_ws(b, i);
    lemma_name_grows(b, j, j);
}

proof fn lemma_close_moves(b: Seq<u8>, i: int, acc: Seq<char>)
    requires
        0 <= i,
    ensures
        crate::query::scan::close_at(b, i, acc) matches Some((_, e)) ==> i < e <= b.len(),
    decreases b.len() - i,
{
    if i < b.len() && b[i] != 34 {
        if b[i] == 92 {
            if i + 1 < b.len() {
                lemma_close_moves(b, i + 2, acc.push(b[i + 1] as char));
            }
        } else {
            lemma_close_moves(b, i + 1, acc.push(b[i] as char));
        }
    }
}

proof fn lemma_quoted_moves(b: Seq<u8>, i: int)
    requires
        0 <= i <= b.len(),
    ensures
        quoted_at(b, i) matches Ok((_, e)) ==> i < e <= b.len(),
{
    lemma_ws(b, i);
    let j = past_ws(b, i);
    lemma_close_moves(b, j + 1, Seq::empty());
}

/// Equal string slices, ignoring ASCII case.
pub(crate) fn same_ci_text(a: &str, c: &str) -> (r: bool)
    ensures
        r == same_ci(a@, c@),
{
    let x = chars_of(a);
    let y = chars_of(c);
    if x.len() != y.len() {
        return false;
    }
    let mut k: usize = 0;
    while k < x.len()
        invariant
            x@ == a@,
            y@ == c@,
            x@.len() == y@.len(),
            k <= x@.len(),
            forall|q: int| 0 <= q < k ==> low_code(#[trigger] x@[q] as u32) == low_code(y@[q] as u32),
        decreases x@.len() - k,
    {
        let p = x[k] as u32;
        let lp = if 65 <= p && p <= 90 { p + 32 } else { p };
        let q = y[k] as u32;
        let lq = if 65 <= q && q <= 90 { q + 32 } else { q };
        if lp != lq {
            assert(low_code(x@[k as int] as u32) != low_code(y@[k as int] as u32));
            return false;
        }
        k = k + 1;
    }
    true
}

impl<'a> Scan<'a> {
    pub(crate) fn cell(&mut self, field: String) -> (r: Result<Pred, Error>)
        requires
            old(self).wf(),
        ensures
            final(self).wf(),
            final(self).text == old(self).text,
            match r {
                Ok(p) => cell_at(old(self).text@, old(self).at as int, field@) == Ok::<(PredV, int), Seq<char>>((p@, final(self).at as int)),
                Err(e) => cell_at(old(self).text@, old(self).at as int, field@) is Err && refused(e, cell_at(old(self).text@, old(self).at as int, field@)->Err_0),
            },
    {
        let ghost fv = field@;
        if self.opt("is") {
            match self.kw("null") {
            Ok(_) => {},
            Err(e) => return Err(e),
        }
            let p = Pred::make(field, Op::Null, Vec::new(), None);
            assert(p@.values =~= Seq::<Seq<char>>::empty());
            return Ok(p);
        }
        if self.opt("in") {
            let values = match self.list() {
            Ok(v) => v,
            Err(e) => return Err(e),
        };
            return Ok(Pred::make(field, Op::In, values, None));
        }
        if self.opt("like") {
            let value = match self.quoted() {
            Ok(v) => v,
            Err(e) => return Err(e),
        };
            let mut values = Vec::new();
            values.push(value);
            let p = Pred::make(field, Op::Like, values, None);
            assert(texts(values@) =~= seq![values@[0]@]);
            return Ok(p);
        }
        let op = match self.op() {
            Ok(v) => v,
            Err(e) => return Err(e),
        };
        let value = match self.quoted() {
            Ok(v) => v,
            Err(e) => return Err(e),
        };
        let mut values = Vec::new();
        values.push(value);
        assert(texts(values@) =~= seq![values@[0]@]);
        Ok(Pred::make(field, op, values, None))
    }

    fn vals(&mut self) -> (r: Result<Vec<String>, Error>)
        requires
            old(self).wf(),
        ensures
            final(self).wf(),
            final(self).text == old(self).text,
            match r {
                Ok(vs) => vals_at(old(self).text@, old(self).at as int) == Ok::<(Seq<Seq<char>>, int), Seq<char>>((texts(vs@), final(self).at as int)) && vs@.len() >= 1,
                Err(e) => vals_at(old(self).text@, old(self).at as int) is Err && refused(e, vals_at(old(self).text@, old(self).at as int)->Err_0),
            },
        decreases old(self).text@.len() - old(self).at,
    {
        let start = self.at;
        let ghost i = self.at as int;
        proof {
            lemma_quoted_moves(self.text@, i);
        }
        let v = match self.quoted() {
            Ok(v) => v,
            Err(e) => return Err(e),
        };
        let more = self.comma();
        let mut out: Vec<String> = Vec::new();
        out.push(v);
        if more && start < self.at {
            let mut rest = match self.vals() {
            Ok(v) => v,
            Err(e) => return Err(e),
        };
            let ghost rv = texts(rest@);
            out.append(&mut rest);
            assert(texts(out@) =~= seq![v@] + rv);
            return Ok(out);
        }
        assert(texts(out@) =~= seq![v@]);
        Ok(out)
    }

    pub(crate) fn list(&mut self) -> (r: Result<Vec<String>, Error>)
        requires
            old(self).wf(),
        ensures
            final(self).wf(),
            final(self).text == old(self).text,
            match r {
                Ok(vs) => list_at(old(self).text@, old(self).at as int) == Ok::<(Seq<Seq<char>>, int), Seq<char>>((texts(vs@), final(self).at as int)),
                Err(e) => list_at(old(self).text@, old(self).at as int) is Err && refused(e, list_at(old(self).text@, old(self).at as int)->Err_0),
            },
    {
        match self.ch('(') {
            Ok(_) => {},
            Err(e) => return Err(e),
        }
        let values = match self.vals() {
            Ok(v) => v,
            Err(e) => return Err(e),
        };
        match self.ch(')') {
            Ok(_) => {},
            Err(e) => return Err(e),
        }
        if values.len() == 0 {
            return Err(adapt("empty in list"));
        }
        Ok(values)
    }

    pub(crate) fn pred(&mut self) -> (r: Result<Pred, Error>)
        requires
            old(self).wf(),
        ensures
            final(self).wf(),
            final(self).text == old(self).text,
            match r {
                Ok(p) => pred_at(old(self).text@, old(self).at as int) == Ok::<(PredV, int), Seq<char>>((p@, final(self).at as int)),
                Err(e) => pred_at(old(self).text@, old(self).at as int) is Err && refused(e, pred_at(old(self).text@, old(self).at as int)->Err_0),
            },
    {
        let field = match self.ident() {
            Ok(v) => v,
            Err(e) => return Err(e),
        };
        if self.opt("has") {
            let value = match self.quoted() {
            Ok(v) => v,
            Err(e) => return Err(e),
        };
            let mut values = Vec::new();
            values.push(value);
            assert(texts(values@) =~= seq![values@[0]@]);
            return Ok(Pred::make(field, Op::Has, values, None));
        }
        if self.opt("some") {
            match self.ch('(') {
            Ok(_) => {},
            Err(e) => return Err(e),
        }
            let inner = match self.ident() {
            Ok(v) => v,
            Err(e) => return Err(e),
        };
            let nest = match self.cell(inner) {
            Ok(v) => v,
            Err(e) => return Err(e),
        };
            match self.ch(')') {
            Ok(_) => {},
            Err(e) => return Err(e),
        }
            let p = Pred::make(field, Op::Exists, Vec::new(), Some(nest));
            assert(p@.values =~= Seq::<Seq<char>>::empty());
            return Ok(p);
        }
        self.cell(field)
    }

    fn preds(&mut self) -> (r: Result<Vec<Pred>, Error>)
        requires
            old(self).wf(),
        ensures
            final(self).wf(),
            final(self).text == old(self).text,
            match r {
                Ok(ps) => preds_at(old(self).text@, old(self).at as int) == Ok::<(Seq<PredV>, int), Seq<char>>((preds_view(ps@), final(self).at as int)),
                Err(e) => preds_at(old(self).text@, old(self).at as int) is Err && refused(e, preds_at(old(self).text@, old(self).at as int)->Err_0),
            },
        decreases old(self).text@.len() - old(self).at,
    {
        let start = self.at;
        let ghost i = self.at as int;
        proof {
            lemma_ident_moves(self.text@, i);
        }
        let p = match self.pred() {
            Ok(v) => v,
            Err(e) => return Err(e),
        };
        let ghost pv = p@;
        let more = self.opt("and");
        let mut out: Vec<Pred> = Vec::new();
        out.push(p);
        if more && start < self.at {
            let mut rest = match self.preds() {
            Ok(v) => v,
            Err(e) => return Err(e),
        };
            let ghost rv = preds_view(rest@);
            out.append(&mut rest);
            assert(preds_view(out@) =~= seq![pv] + rv);
            return Ok(out);
        }
        assert(preds_view(out@) =~= seq![pv]);
        Ok(out)
    }

    #[verifier::loop_isolation(false)]
    fn links_more(&mut self, acc: Vec<String>) -> (r: Result<Vec<String>, Error>)
        requires
            old(self).wf(),
        ensures
            final(self).wf(),
            final(self).text == old(self).text,
            match r {
                Ok(ls) => links_from(old(self).text@, old(self).at as int, texts(acc@)) == Ok::<(Seq<Seq<char>>, int), Seq<char>>((texts(ls@), final(self).at as int)),
                Err(e) => links_from(old(self).text@, old(self).at as int, texts(acc@)) is Err && refused(e, links_from(old(self).text@, old(self).at as int, texts(acc@))->Err_0),
            },
        decreases old(self).text@.len() - old(self).at,
    {
        let start = self.at;
        let ghost i = self.at as int;
        if !self.opt("link") {
            return Ok(acc);
        }
        let ghost j = self.at as int;
        proof {
            lemma_ident_moves(self.text@, j);
        }
        let bond = match self.ident() {
            Ok(v) => v,
            Err(e) => return Err(e),
        };
        let mut q: usize = 0;
        while q < acc.len()
            invariant
                q <= acc@.len(),
                forall|t: int| 0 <= t < q ==> !same_ci(texts(acc@)[t], bond@),
            decreases acc@.len() - q,
        {
            if same_ci_text(acc[q].as_str(), bond.as_str()) {
                assert(same_ci(texts(acc@)[q as int], bond@));
                return Err(adapt2("duplicate link ", bond.as_str()));
            }
            q = q + 1;
        }
        let ghost av = texts(acc@);
        let mut acc = acc;
        acc.push(bond);
        assert(texts(acc@) =~= av.push(bond@));
        if start < self.at {
            self.links_more(acc)
        } else {
            Ok(acc)
        }
    }

    pub(crate) fn links(&mut self) -> (r: Result<Vec<String>, Error>)
        requires
            old(self).wf(),
        ensures
            final(self).wf(),
            final(self).text == old(self).text,
            match r {
                Ok(ls) => links_from(old(self).text@, old(self).at as int, Seq::empty()) == Ok::<(Seq<Seq<char>>, int), Seq<char>>((texts(ls@), final(self).at as int)),
                Err(e) => links_from(old(self).text@, old(self).at as int, Seq::empty()) is Err && refused(e, links_from(old(self).text@, old(self).at as int, Seq::empty())->Err_0),
            },
    {
        let acc: Vec<String> = Vec::new();
        assert(texts(acc@) =~= Seq::<Seq<char>>::empty());
        self.links_more(acc)
    }

    fn sort_keys(&mut self) -> (r: Result<Vec<Sort>, Error>)
        requires
            old(self).wf(),
        ensures
            final(self).wf(),
            final(self).text == old(self).text,
            match r {
                Ok(ss) => sort_list(old(self).text@, old(self).at as int) == Ok::<(Seq<SortV>, int), Seq<char>>((sorts_view(ss@), final(self).at as int)),
                Err(e) => sort_list(old(self).text@, old(self).at as int) is Err && refused(e, sort_list(old(self).text@, old(self).at as int)->Err_0),
            },
        decreases old(self).text@.len() - old(self).at,
    {
        let start = self.at;
        let ghost i = self.at as int;
        proof {
            lemma_ident_moves(self.text@, i);
        }
        let field = match self.ident() {
            Ok(v) => v,
            Err(e) => return Err(e),
        };
        let mut rank = Rank::Asc;
        if self.opt("desc") {
            rank = Rank::Desc;
        } else {
            let _ = self.opt("asc");
        }
        let s = Sort::make(field, rank);
        let ghost sv = s@;
        let more = self.comma();
        let mut out: Vec<Sort> = Vec::new();
        out.push(s);
        if more && start < self.at {
            let mut rest = match self.sort_keys() {
            Ok(v) => v,
            Err(e) => return Err(e),
        };
            let ghost rv = sorts_view(rest@);
            out.append(&mut rest);
            assert(sorts_view(out@) =~= seq![sv] + rv);
            return Ok(out);
        }
        assert(sorts_view(out@) =~= seq![sv]);
        Ok(out)
    }

    pub(crate) fn sorts(&mut self) -> (r: Result<Vec<Sort>, Error>)
        requires
            old(self).wf(),
        ensures
            final(self).wf(),
            final(self).text == old(self).text,
            match r {
                Ok(ss) => sorts_at(old(self).text@, old(self).at as int) == Ok::<(Seq<SortV>, int), Seq<char>>((sorts_view(ss@), final(self).at as int)),
                Err(e) => sorts_at(old(self).text@, old(self).at as int) is Err && refused(e, sorts_at(old(self).text@, old(self).at as int)->Err_0),
            },
    {
        if !self.opt("order") {
            let none: Vec<Sort> = Vec::new();
            assert(sorts_view(none@) =~= Seq::<SortV>::empty());
            return Ok(none);
        }
        match self.kw("by") {
            Ok(_) => {},
            Err(e) => return Err(e),
        }
        self.sort_keys()
    }

    pub(crate) fn limit(&mut self) -> (r: Result<Option<usize>, Error>)
        requires
            old(self).wf(),
        ensures
            final(self).wf(),
            final(self).text == old(self).text,
            match r {
                Ok(n) => limit_at(old(self).text@, old(self).at as int) == Ok::<(Option<usize>, int), Seq<char>>((n, final(self).at as int)),
                Err(e) => limit_at(old(self).text@, old(self).at as int) is Err && refused(e, limit_at(old(self).text@, old(self).at as int)->Err_0),
            },
    {
        if !self.opt("limit") {
            return Ok(None);
        }
        let n = match self.num() {
            Ok(v) => v,
            Err(e) => return Err(e),
        };
        if n == 0 {
            return Err(adapt("limit must be positive"));
        }
        Ok(Some(n))
    }

    pub(crate) fn after(&mut self) -> (r: Result<Option<i64>, Error>)
        requires
            old(self).wf(),
        ensures
            final(self).wf(),
            final(self).text == old(self).text,
            match r {
                Ok(n) => after_at(old(self).text@, old(self).at as int) == Ok::<(Option<i64>, int), Seq<char>>((n, final(self).at as int)),
                Err(e) => after_at(old(self).text@, old(self).at as int) is Err && refused(e, after_at(old(self).text@, old(self).at as int)->Err_0),
            },
    {
        if !self.opt("after") {
            return Ok(None);
        }
        let text = match self.quoted() {
            Ok(v) => v,
            Err(e) => return Err(e),
        };
        let cs = chars_of(text.as_str());
        match int_from(cs.as_slice()) {
            Some(id) => Ok(Some(id)),
            None => Err(adapt("after needs integer id")),
        }
    }
}

/// Reads a query text. The result is exactly what `parsed` says of the
/// text's bytes: the tree, or the refusal with its reason.
#[verifier::rlimit(50)]
pub fn parse(text: &str) -> (r: Result<Tree, Error>)
    ensures
        match r {
            Ok(t) => parsed(text.spec_bytes()) == Ok::<TreeV, Seq<char>>(t@),
            Err(e) => parsed(text.spec_bytes()) is Err && refused(e, parsed(text.spec_bytes())->Err_0),
        },
{
    let mut scan = Scan::new(text);
    let ghost b = scan.text@;
    scan.ws();
    match scan.kw("from") {
            Ok(_) => {},
            Err(e) => return Err(e),
        }
    let unit = match scan.ident() {
            Ok(v) => v,
            Err(e) => return Err(e),
        };
    let mut preds: Vec<Pred> = Vec::new();
    if scan.opt("where") {
        preds = match scan.preds() {
            Ok(v) => v,
            Err(e) => return Err(e),
        };
    } else {
        assert(preds_view(preds@) =~= Seq::<PredV>::empty());
    }
    let tally = scan.opt("count");
    let links = match scan.links() {
            Ok(v) => v,
            Err(e) => return Err(e),
        };
    let sorts = match scan.sorts() {
            Ok(v) => v,
            Err(e) => return Err(e),
        };
    let limit = match scan.limit() {
            Ok(v) => v,
            Err(e) => return Err(e),
        };
    let after = match scan.after() {
            Ok(v) => v,
            Err(e) => return Err(e),
        };
    scan.ws();
    if !scan.done() {
        return Err(adapt("query has trailing tokens"));
    }
    let more = links.len() > 0 || sorts.len() > 0 || limit.is_some() || after.is_some();
    if tally && more {
        return Err(adapt("count stands alone"));
    }
    Ok(Tree::make(unit, preds, links, sorts, limit, after, tally))
}

} // verus!
