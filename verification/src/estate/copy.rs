//! The SQL expressions that carry a column's values into a new generation
//! when its kind or its default changes.
use vstd::prelude::*;
use crate::atom::Kind;
use crate::ddl::{Grain, CREATED, EXPIRES, UPDATED};
use crate::estate::guard::{Rule, RuleV};
use crate::text::{own, push_char, push_str, same};

verus! {

/// `s` with each `'` doubled.
pub open spec fn escaped(s: Seq<char>) -> Seq<char>
    decreases s.len(),
{
    if s.len() == 0 {
        Seq::empty()
    } else if s.last() == '\'' {
        escaped(s.drop_last()) + seq!['\'', '\'']
    } else {
        escaped(s.drop_last()) + seq![s.last()]
    }
}

/// The SQL literal for the value `v` of a field of kind `kind`: quoted and
/// escaped text, an integer as written, a flag as 1 or 0.
pub open spec fn literal_of(kind: Kind, v: Seq<char>) -> Seq<char> {
    match kind {
        Kind::Text | Kind::Link => seq!['\''] + escaped(v) + seq!['\''],
        Kind::Int => v,
        Kind::Bool => if v == "true"@ { "1"@ } else { "0"@ },
    }
}

/// The value of a flag field is `true` or `false`.
pub open spec fn normal(kind: Kind, v: Seq<char>) -> bool {
    kind == Kind::Bool ==> (v == "true"@ || v == "false"@)
}

/// The SQL literal for `value`, a value of a field of kind `kind`.
pub fn literal(kind: Kind, value: &str) -> (out: String)
    requires
        normal(kind, value@),
    ensures
        out@ == literal_of(kind, value@),
{
    match kind {
        Kind::Text | Kind::Link => {
            let cs = crate::text::chars_of(value);
            let mut out = String::new();
            push_char(&mut out, '\'');
            let mut i: usize = 0;
            while i < cs.len()
                invariant
                    0 <= i <= cs@.len(),
                    cs@ == value@,
                    out@ == seq!['\''] + escaped(cs@.take(i as int)),
                decreases cs@.len() - i,
            {
                let c = cs[i];
                proof {
                    assert(cs@.take(i + 1).drop_last() =~= cs@.take(i as int));
                    assert(cs@.take(i + 1).last() == c);
                }
                if c == '\'' {
                    push_char(&mut out, '\'');
                    push_char(&mut out, '\'');
                } else {
                    push_char(&mut out, c);
                }
                proof {
                    assert(out@ =~= seq!['\''] + escaped(cs@.take(i + 1)));
                }
                i = i + 1;
            }
            push_char(&mut out, '\'');
            assert(cs@.take(cs@.len() as int) =~= cs@);
            assert(out@ =~= literal_of(kind, value@));
            out
        },
        Kind::Int => own(value),
        Kind::Bool => {
            if same(value, "true") {
                own("1")
            } else {
                own("0")
            }
        },
    }
}

/// The value expression `value`, falling back to the field's default when
/// the law has one.
pub open spec fn fill_of(kind: Kind, rule: RuleV, value: Seq<char>) -> Seq<char> {
    match rule.default {
        Some(d) => "COALESCE("@ + value + ", "@ + literal_of(kind, d) + ")"@,
        None => value,
    }
}

/// Wraps `value` so that a null takes the field's default, where there is one.
pub fn fill(kind: Kind, rule: &Rule, value: String) -> (out: String)
    requires
        rule@.default matches Some(d) ==> normal(kind, d),
    ensures
        out@ == fill_of(kind, rule@, value@),
{
    match &rule.default {
        Some(d) => {
            let mut out = own("COALESCE(");
            push_str(&mut out, value.as_str());
            push_str(&mut out, ", ");
            let lit = literal(kind, d.as_str());
            push_str(&mut out, lit.as_str());
            push_str(&mut out, ")");
            assert(out@ =~= fill_of(kind, rule@, value@));
            out
        },
        None => value,
    }
}

/// The expression that reads column `col`, held as kind `active`, as kind
/// `requested`.
pub open spec fn cast_of(col: Seq<char>, active: Kind, requested: Kind, grain: Grain) -> Seq<
    char,
> {
    match (active, requested) {
        (Kind::Text, Kind::Int) => "CAST("@ + col + " AS "@ + (if grain == Grain::Lite {
            "INTEGER"@
        } else {
            "BIGINT"@
        }) + ")"@,
        (Kind::Text, Kind::Bool) => "CASE WHEN "@ + col + " IS NULL THEN NULL WHEN "@ + col
            + " = 'true' THEN 1 ELSE 0 END"@,
        (Kind::Int, Kind::Text) => "CAST("@ + col + " AS TEXT)"@,
        (Kind::Bool, Kind::Text) => "CASE WHEN "@ + col + " IS NULL THEN NULL WHEN "@ + col
            + " = 1 THEN 'true' ELSE 'false' END"@,
        _ => col,
    }
}

/// Reads the column `col` (as quoted for the store), held as kind `active`,
/// as kind `requested`.
pub fn cast(col: &str, active: Kind, requested: Kind, grain: Grain) -> (out: String)
    ensures
        out@ == cast_of(col@, active, requested, grain),
{
    match (active, requested) {
        (Kind::Text, Kind::Int) => {
            let mut out = own("CAST(");
            push_str(&mut out, col);
            push_str(&mut out, " AS ");
            match grain {
                Grain::Lite => push_str(&mut out, "INTEGER"),
                Grain::Pg => push_str(&mut out, "BIGINT"),
            }
            push_str(&mut out, ")");
            assert(out@ =~= cast_of(col@, active, requested, grain));
            out
        },
        (Kind::Text, Kind::Bool) => {
            let mut out = own("CASE WHEN ");
            push_str(&mut out, col);
            push_str(&mut out, " IS NULL THEN NULL WHEN ");
            push_str(&mut out, col);
            push_str(&mut out, " = 'true' THEN 1 ELSE 0 END");
            assert(out@ =~= cast_of(col@, active, requested, grain));
            out
        },
        (Kind::Int, Kind::Text) => {
            let mut out = own("CAST(");
            push_str(&mut out, col);
            push_str(&mut out, " AS TEXT)");
            assert(out@ =~= cast_of(col@, active, requested, grain));
            out
        },
        (Kind::Bool, Kind::Text) => {
            let mut out = own("CASE WHEN ");
            push_str(&mut out, col);
            push_str(&mut out, " IS NULL THEN NULL WHEN ");
            push_str(&mut out, col);
            push_str(&mut out, " = 1 THEN 'true' ELSE 'false' END");
            assert(out@ =~= cast_of(col@, active, requested, grain));
            out
        },
        _ => own(col),
    }
}

/// Adds the engine's control columns, copied as they stand, to a copy's
/// columns and values.
pub fn reign(cols: &mut Vec<String>, vals: &mut Vec<String>)
    ensures
        final(cols)@.map_values(|s: String| s@) == old(cols)@.map_values(|s: String| s@) + seq![
            EXPIRES@,
            CREATED@,
            UPDATED@,
        ],
        final(vals)@.map_values(|s: String| s@) == old(vals)@.map_values(|s: String| s@) + seq![
            EXPIRES@,
            CREATED@,
            UPDATED@,
        ],
{
    cols.push(own(EXPIRES));
    vals.push(own(EXPIRES));
    cols.push(own(CREATED));
    vals.push(own(CREATED));
    cols.push(own(UPDATED));
    vals.push(own(UPDATED));
    assert(cols@.map_values(|s: String| s@) =~= old(cols)@.map_values(|s: String| s@) + seq![
        EXPIRES@,
        CREATED@,
        UPDATED@,
    ]);
    assert(vals@.map_values(|s: String| s@) =~= old(vals)@.map_values(|s: String| s@) + seq![
        EXPIRES@,
        CREATED@,
        UPDATED@,
    ]);
}

} // verus!
