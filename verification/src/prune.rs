//! Durations for pruning old cache entries (`7d`, `24h`, `30m`, `45s`, `1w`, bare seconds).

use vstd::prelude::*;

use crate::text::{chars_of, is_digit, slice_chars, str_eq, string_of, u64_text, parse_u64};

verus! {

/// Seconds per unit name.
pub open spec fn unit_seconds(unit: Seq<char>) -> Option<nat> {
    if unit == "s"@ || unit == "sec"@ || unit == "second"@ || unit == "seconds"@ {
        Some(1)
    } else if unit == "m"@ || unit == "min"@ || unit == "minute"@ || unit == "minutes"@ {
        Some(60)
    } else if unit == "h"@ || unit == "hour"@ || unit == "hours"@ {
        Some(3600)
    } else if unit == "d"@ || unit == "day"@ || unit == "days"@ {
        Some(86400)
    } else if unit == "w"@ || unit == "week"@ || unit == "weeks"@ {
        Some(604800)
    } else {
        None
    }
}

/// Index of the first character that is not an ASCII digit (or the length).
pub open spec fn digit_run(s: Seq<char>) -> int
    decreases s.len(),
{
    if s.len() == 0 || !is_digit(s[0]) {
        0
    } else {
        1 + digit_run(s.drop_first())
    }
}

/// The duration `s` names, in seconds: leading digits, then a unit (seconds when none).
pub open spec fn duration_seconds(s: Seq<char>) -> Option<nat> {
    let pos = digit_run(s);
    let num = s.subrange(0, pos);
    let unit = if pos < s.len() {
        s.subrange(pos, s.len() as int)
    } else {
        "s"@
    };
    match u64_text(num) {
        Some(n) => match unit_seconds(unit) {
            Some(k) => Some(n * k),
            None => None,
        },
        None => None,
    }
}

proof fn lemma_digit_run_unique(s: Seq<char>, k: int)
    requires
        0 <= k <= s.len(),
        forall|i: int| 0 <= i < k ==> is_digit(#[trigger] s[i]),
        k < s.len() ==> !is_digit(s[k]),
    ensures
        digit_run(s) == k,
    decreases s.len(),
{
    if k > 0 {
        assert(is_digit(s[0]));
        assert forall|i: int| 0 <= i < k - 1 implies is_digit(#[trigger] s.drop_first()[i]) by {
            assert(is_digit(s[i + 1]));
        }
        if k < s.len() {
            assert(s.drop_first()[k - 1] == s[k]);
        }
        lemma_digit_run_unique(s.drop_first(), k - 1);
    }
}

fn unit_secs(unit: &str) -> (r: Option<u64>)
    ensures
        match unit_seconds(unit@) {
            Some(k) => r == Some(k as u64),
            None => r is None,
        },
{
    if str_eq(unit, "s") || str_eq(unit, "sec") || str_eq(unit, "second") || str_eq(unit, "seconds") {
        Some(1)
    } else if str_eq(unit, "m") || str_eq(unit, "min") || str_eq(unit, "minute") || str_eq(
        unit,
        "minutes",
    ) {
        Some(60)
    } else if str_eq(unit, "h") || str_eq(unit, "hour") || str_eq(unit, "hours") {
        Some(3600)
    } else if str_eq(unit, "d") || str_eq(unit, "day") || str_eq(unit, "days") {
        Some(86400)
    } else if str_eq(unit, "w") || str_eq(unit, "week") || str_eq(unit, "weeks") {
        Some(604800)
    } else {
        None
    }
}

/// Seconds named by `s` (`7d`, `24h`, `1w`, `30m`, `45s`, `100`); `None` for an empty or
/// malformed number, an unknown unit, or a value past `u64::MAX`.
pub fn parse_duration(s: &str) -> (r: Option<u64>)
    ensures
        match duration_seconds(s@) {
            Some(v) => if v <= u64::MAX {
                r == Some(v as u64)
            } else {
                r is None
            },
            None => r is None,
        },
{
    let v = chars_of(s);
    let mut pos: usize = 0;
    while pos < v.len() && '0' <= v[pos] && v[pos] <= '9'
        invariant
            pos <= v@.len(),
            forall|i: int| 0 <= i < pos ==> is_digit(#[trigger] v@[i]),
        decreases v@.len() - pos,
    {
        pos = pos + 1;
    }
    proof {
        lemma_digit_run_unique(v@, pos as int);
    }
    let num = string_of(&slice_chars(&v, 0, pos));
    let unit = if pos < v.len() {
        string_of(&slice_chars(&v, pos, v.len()))
    } else {
        crate::text::owned("s")
    };
    let n = match parse_u64(num.as_str()) {
        Some(n) => n,
        None => return None,
    };
    let k = match unit_secs(unit.as_str()) {
        Some(k) => k,
        None => return None,
    };
    n.checked_mul(k)
}

} // verus!
