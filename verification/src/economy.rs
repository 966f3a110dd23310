//! Dates on the economy page: `YYYY-MM-DD` text shifted and labelled.

use vstd::prelude::*;
use vstd::string::StringExecFns;
use crate::calendar::{month_abbr, push_month_abbr};
use crate::parse::{char_index_at_byte, chars_in_bytes, chars_of, parse_i32, parse_int, parse_usize};
use crate::text::{int_text, push_char, push_int};

verus! {

/// The same date a year earlier: the year (the first four bytes, read as
/// an `i32`) less one, then the rest unchanged. `None` when the first four
/// bytes are not a whole number of characters or not a number.
pub open spec fn year_before_of(date: Seq<char>) -> Option<Seq<char>> {
    match chars_in_bytes(date, 4) {
        None => None,
        Some(k) => match parse_int(date.take(k), true, i32::MIN as int, i32::MAX as int) {
            None => None,
            Some(y) => Some(int_text(y - 1) + date.skip(k)),
        },
    }
}

/// `2026-08-01` → `2025-08-01`.
pub fn year_before(date: &str) -> (r: Option<String>)
    ensures
        match year_before_of(date@) {
            Some(t) => r matches Some(s) && s@ == t,
            None => r is None,
        },
{
    let t = chars_of(date);
    let k = match char_index_at_byte(&t, 4) {
        Some(k) => k,
        None => {
            return None;
        },
    };
    proof {
        assert(t@.subrange(0, k as int) == t@.take(k as int));
    }
    let year = match parse_i32(&t, 0, k) {
        Some(y) => y,
        None => {
            return None;
        },
    };
    let mut out = String::new();
    push_int(&mut out, year as i64 - 1);
    let mut i = k;
    while i < t.len()
        invariant
            k <= i <= t.len(),
            out@ == int_text(year - 1) + t@.subrange(k as int, i as int),
        decreases t.len() - i,
    {
        push_char(&mut out, t[i]);
        i = i + 1;
        proof {
            assert(t@.subrange(k as int, i as int) == t@.subrange(k as int, i - 1).push(t@[i - 1]));
        }
    }
    proof {
        assert(t@.subrange(k as int, t.len() as int) == t@.skip(k as int));
    }
    Some(out)
}

/// The month number of `YYYY-MM-DD` (bytes 5 to 7, read as a `usize`), or
/// 0 when that slice is not whole characters or not a number.
pub open spec fn month_number(date: Seq<char>) -> int {
    match (chars_in_bytes(date, 5), chars_in_bytes(date, 7)) {
        (Some(a), Some(b)) => if a <= b {
            match parse_int(date.subrange(a, b), false, 0, usize::MAX as int) {
                Some(v) => v,
                None => 0,
            }
        } else {
            0
        },
        _ => 0,
    }
}

/// `Aug 2026` for `2026-08-01`: the month's abbreviation and the first
/// four bytes; the date unchanged when the month is not 1–12 or the first
/// four bytes are not whole characters.
pub open spec fn month_year_of(date: Seq<char>) -> Seq<char> {
    let m = month_number(date);
    match chars_in_bytes(date, 4) {
        Some(k) => if 1 <= m <= 12 {
            month_abbr(m) + seq![' '] + date.take(k)
        } else {
            date
        },
        None => date,
    }
}

/// `2026-08-01` → `Aug 2026`.
pub fn month_year(date: &str) -> (r: String)
    ensures
        r@ == month_year_of(date@),
{
    let t = chars_of(date);
    let month: usize = match (char_index_at_byte(&t, 5), char_index_at_byte(&t, 7)) {
        (Some(a), Some(b)) => {
            if a <= b {
                match parse_usize(&t, a, b) {
                    Some(v) => v,
                    None => 0,
                }
            } else {
                0
            }
        },
        _ => 0,
    };
    match char_index_at_byte(&t, 4) {
        Some(k) => {
            if 1 <= month && month <= 12 {
                let mut out = String::new();
                push_month_abbr(&mut out, month as u32);
                push_char(&mut out, ' ');
                let mut i: usize = 0;
                while i < k
                    invariant
                        i <= k <= t.len(),
                        out@ == month_abbr(month as int) + seq![' '] + t@.take(i as int),
                    decreases k - i,
                {
                    push_char(&mut out, t[i]);
                    i = i + 1;
                    proof {
                        assert(t@.take(i as int) == t@.take(i - 1).push(t@[i - 1]));
                    }
                }
                out
            } else {
                String::from_str(date)
            }
        },
        None => String::from_str(date),
    }
}

} // verus!
