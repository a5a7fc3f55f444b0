//! Runtime values a caller supplies: how long retired generations are
//! kept before cleanup collects them.
use vstd::prelude::*;
use crate::error::{Error, adapt};
use crate::text::{all_digits, chars_of, digits_value, read_digits, same};

verus! {

/// How long a retired generation is kept.
#[derive(Clone, Copy, Debug, PartialEq, Eq, Structural)]
pub enum Retain {
    /// Never collected.
    Forever,
    /// Collected once this many seconds have passed since retirement.
    After(i64),
}

/// Seconds in one unit of a retention text.
pub open spec fn unit_secs(c: char) -> int {
    if c == 's' {
        1
    } else if c == 'm' {
        60
    } else if c == 'h' {
        3600
    } else if c == 'd' {
        86400
    } else {
        0
    }
}

/// What a retention text means: `forever`, or digits followed by `s`,
/// `m`, `h` or `d`, within range; anything else means nothing.
pub open spec fn retain_of(s: Seq<char>) -> Option<Retain> {
    if s == "forever"@ {
        Some(Retain::Forever)
    } else if s.len() >= 2 && unit_secs(s.last()) > 0 && all_digits(s.drop_last())
        && digits_value(s.drop_last()) * unit_secs(s.last()) <= i64::MAX {
        Some(Retain::After((digits_value(s.drop_last()) * unit_secs(s.last())) as i64))
    } else {
        None
    }
}

impl Retain {
    /// Reads a retention text.
    pub fn parse(text: &str) -> (r: Result<Retain, Error>)
        ensures
            match retain_of(text@) {
                Some(v) => r == Ok::<Retain, Error>(v),
                None => r matches Err(e) && crate::error::refused(e, "retention is <digits>s|m|h|d or forever"@),
            },
    {
        proof {
            reveal_strlit("forever");
        }
        if same(text, "forever") {
            return Ok(Retain::Forever);
        }
        let cs = chars_of(text);
        let n = cs.len();
        if n < 2 {
            return Err(adapt("retention is <digits>s|m|h|d or forever"));
        }
        let c = cs[n - 1];
        let mult: u64 = if c == 's' {
            1
        } else if c == 'm' {
            60
        } else if c == 'h' {
            3600
        } else if c == 'd' {
            86400
        } else {
            return Err(adapt("retention is <digits>s|m|h|d or forever"));
        };
        let head = cs.as_slice().split_at(n - 1).0;
        assert(head@ =~= text@.drop_last());
        assert(head@.skip(0) =~= head@);
        let limit: u64 = 9223372036854775807u64 / mult;
        match read_digits(head, 0, limit) {
            Some(v) => {
                proof {
                    assert(v * mult <= 9223372036854775807) by (nonlinear_arith)
                        requires
                            v <= limit,
                            limit == 9223372036854775807u64 / mult,
                            mult > 0,
                    ;
                }
                Ok(Retain::After((v * mult) as i64))
            },
            None => {
                proof {
                    if all_digits(head@) {
                        assert(digits_value(head@) > limit);
                        assert(digits_value(head@) * mult > 9223372036854775807) by (nonlinear_arith)
                            requires
                                digits_value(head@) > limit,
                                limit == 9223372036854775807u64 / mult,
                                mult > 0,
                        ;
                    }
                }
                Err(adapt("retention is <digits>s|m|h|d or forever"))
            },
        }
    }

    /// Whether a generation retired at `retired` is due at `now`.
    pub open spec fn due_at(self, retired: i64, now: i64) -> bool {
        match self {
            Retain::Forever => false,
            Retain::After(s) => now - retired >= s,
        }
    }

    /// Whether a generation retired at `retired` is due at `now`.
    pub fn elapsed(&self, retired: i64, now: i64) -> (r: bool)
        ensures
            r == self.due_at(retired, now),
    {
        match self {
            Retain::Forever => false,
            Retain::After(s) => (now as i128) - (retired as i128) >= (*s as i128),
        }
    }
}

} // verus!
