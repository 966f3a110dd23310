//! Money and share-count formatting.

use vstd::prelude::*;
use vstd::string::StringExecFns;
use crate::decimal::{abs, dec_normalize, normalize, checked_mul, checked_sub, dec_abs, dec_lt, dec_round, dec_round_dp, dec_text, dec_to_string, dec_trunc, dec_sub, dec_mul, less_than, pow10, pow10_u128, round, round_dp, trunc, Dec};
use crate::parse::{find_char, index_of};
use crate::text::{pad_zeros, push_char, push_slice, zero_padded};

verus! {

/// `digits` with a `,` before every group of three from the right
/// (`1234567` → `1,234,567`).
pub open spec fn group_thousands(digits: Seq<char>) -> Seq<char>
    decreases digits.len(),
{
    if digits.len() <= 3 {
        digits
    } else {
        group_thousands(digits.take(digits.len() - 3)) + seq![','] + digits.skip(
            digits.len() - 3,
        )
    }
}

/// Appends `v[0..n]` grouped in thousands.
fn push_grouped(s: &mut String, v: &Vec<char>, n: usize)
    requires
        n <= v.len(),
    ensures
        final(s)@ == old(s)@ + group_thousands(v@.take(n as int)),
    decreases n,
{
    if n <= 3 {
        push_slice(s, v, 0, n);
        proof {
            assert(v@.subrange(0, n as int) == v@.take(n as int));
        }
    } else {
        push_grouped(s, v, n - 3);
        push_char(s, ',');
        push_slice(s, v, n - 3, n);
        proof {
            let t = v@.take(n as int);
            assert(t.take(n - 3) == v@.take(n - 3));
            assert(t.skip(n - 3) == v@.subrange(n - 3, n as int));
        }
    }
}

/// Text of an amount: `symbol`, the absolute value rounded to `decimals`
/// places (ties to even) with the whole part grouped in thousands, and a
/// leading `-` when `v` is negative — for a value that rounds to zero only
/// if `sign_of_zero`. `None` where `rust_decimal`'s operators would
/// overflow.
pub open spec fn amount_text(v: Dec, decimals: nat, symbol: Seq<char>, sign_of_zero: bool) -> Option<Seq<char>> {
    let a = dec_round_dp(dec_abs(v), decimals);
    let whole = dec_trunc(a);
    match dec_sub(a, whole) {
        None => None,
        Some(f) => match dec_mul(f, Dec { negative: false, magnitude: pow10(decimals) as u128, scale: 0 }) {
            None => None,
            Some(g) => {
                let sign = if v.negative && (sign_of_zero || a.magnitude != 0) { seq!['-'] } else { Seq::empty() };
                let head = sign + symbol + group_thousands(dec_text(whole));
                if decimals == 0 {
                    Some(head)
                } else {
                    Some(head + seq!['.'] + zero_padded(dec_text(dec_round(g)), decimals))
                }
            },
        },
    }
}

/// `$1,234.56` style text of `value` shown in a display currency worth
/// `rate` units per USD with sign `symbol`: the converted amount rounded to
/// `decimals` places (ties to even), whole part grouped in thousands, a
/// leading `-` for negatives that do not round to zero. `None` where
/// `rust_decimal`'s operators would overflow.
pub open spec fn usd_text(value: Dec, decimals: nat, symbol: Seq<char>, rate: Dec) -> Option<Seq<char>> {
    match dec_mul(value, rate) {
        None => None,
        Some(v) => amount_text(v, decimals, symbol, false),
    }
}

fn push_str(s: &mut String, t: &str)
    ensures
        final(s)@ == old(s)@ + t@,
{
    s.append(t);
}

/// `$1,234.56` style, with a leading `-` for negatives, in the display
/// currency (`symbol`, `rate` units per USD).
pub fn fmt_usd(value: Dec, decimals: u32, symbol: &str, rate: Dec) -> (r: Option<String>)
    requires
        value.is_valid(),
        rate.is_valid(),
        decimals <= 19,
    ensures
        match usd_text(value, decimals as nat, symbol@, rate) {
            Some(t) => r matches Some(s) && s@ == t,
            None => r is None,
        },
{
    match checked_mul(value, rate) {
        Some(v) => fmt_amount(v, decimals, symbol, false),
        None => None,
    }
}

/// The text [`amount_text`] describes.
pub fn fmt_amount(v: Dec, decimals: u32, symbol: &str, sign_of_zero: bool) -> (r: Option<String>)
    requires
        v.is_valid(),
        decimals <= 19,
    ensures
        match amount_text(v, decimals as nat, symbol@, sign_of_zero) {
            Some(t) => r matches Some(s) && s@ == t,
            None => r is None,
        },
{
    let a = round_dp(abs(v), decimals);
    let whole = trunc(a);
    let f = match checked_sub(a, whole) {
        Some(f) => f,
        None => {
            return None;
        },
    };
    proof {
        lemma_pow10_u64(decimals as nat);
    }
    let scale = Dec::from_u64(pow10_u128(decimals) as u64);
    let g = match checked_mul(f, scale) {
        Some(g) => g,
        None => {
            return None;
        },
    };
    let frac = nat_text_of(round(g));
    let digits = dec_chars(whole);
    let mut out = String::new();
    if v.negative && (sign_of_zero || a.magnitude != 0) {
        push_char(&mut out, '-');
    }
    push_str(&mut out, symbol);
    push_grouped(&mut out, &digits, digits.len());
    proof {
        assert(digits@.take(digits.len() as int) == digits@);
    }
    if decimals != 0 {
        push_char(&mut out, '.');
        let padded = pad_zeros(&frac, decimals as usize);
        push_slice(&mut out, &padded, 0, padded.len());
        proof {
            assert(padded@.subrange(0, padded@.len() as int) == padded@);
        }
    }
    Some(out)
}

proof fn lemma_pow10_u64(n: nat)
    requires
        n <= 19,
    ensures
        pow10(n) <= 10000000000000000000,
{
    crate::decimal::lemma_pow10_grows(n, 19);
    reveal_with_fuel(pow10, 20);
}

/// The characters of `d.to_string()`.
fn dec_chars(d: Dec) -> (r: Vec<char>)
    requires
        d.is_valid(),
    ensures
        r@ == dec_text(d),
{
    let s = dec_to_string(d);
    crate::parse::chars_of(s.as_str())
}

fn nat_text_of(d: Dec) -> (r: Vec<char>)
    requires
        d.is_valid(),
    ensures
        r@ == dec_text(d),
{
    dec_chars(d)
}

/// Like [`fmt_usd`] but always signed: `+$12.00` / `-$3.50`.
pub open spec fn signed_text(value: Dec, decimals: nat, symbol: Seq<char>, rate: Dec) -> Option<Seq<char>> {
    match usd_text(value, decimals, symbol, rate) {
        None => None,
        Some(t) => Some(if !dec_lt(value, Dec { negative: false, magnitude: 0, scale: 0 }) { seq!['+'] + t } else { t }),
    }
}

/// Like [`fmt_usd`] but always signed: `+$12.00` / `-$3.50`.
pub fn fmt_signed(value: Dec, decimals: u32, symbol: &str, rate: Dec) -> (r: Option<String>)
    requires
        value.is_valid(),
        rate.is_valid(),
        decimals <= 19,
    ensures
        match signed_text(value, decimals as nat, symbol@, rate) {
            Some(t) => r matches Some(s) && s@ == t,
            None => r is None,
        },
{
    let nonnegative = !less_than(value, Dec::zero());
    match fmt_usd(value, decimals, symbol, rate) {
        None => None,
        Some(t) => {
            if nonnegative {
                let mut out = String::new();
                push_char(&mut out, '+');
                push_str(&mut out, t.as_str());
                Some(out)
            } else {
                Some(t)
            }
        },
    }
}


/// A share count people can read: rounded to at most 4 decimals (ties to
/// even), trailing zeros dropped, whole part grouped in thousands.
pub open spec fn shares_text(shares: Dec) -> Seq<char> {
    let rounded = dec_normalize(dec_round_dp(shares, 4));
    let text = dec_text(dec_abs(rounded));
    let sign = if rounded.negative && rounded.magnitude != 0 { seq!['-'] } else { Seq::empty() };
    match index_of(text, '.') {
        Some(i) => {
            let frac = text.skip(i + 1);
            if frac.len() == 0 {
                sign + group_thousands(text.take(i))
            } else {
                sign + group_thousands(text.take(i)) + seq!['.'] + frac
            }
        },
        None => sign + group_thousands(text),
    }
}

/// A share count people can read: at most 4 decimals, no trailing zeros,
/// thousands grouped — `1.405399` → `1.4054`, `1500` → `1,500`.
pub fn fmt_shares(shares: Dec) -> (r: String)
    requires
        shares.is_valid(),
    ensures
        r@ == shares_text(shares),
{
    let rounded = normalize(round_dp(shares, 4));
    let text = dec_chars(abs(rounded));
    let mut out = String::new();
    if rounded.negative && rounded.magnitude != 0 {
        push_char(&mut out, '-');
    }
    match find_char(&text, 0, text.len(), '.') {
        Some(i) => {
            proof {
                assert(text@.subrange(0, text@.len() as int) == text@);
            }
            push_grouped(&mut out, &text, i);
            if i + 1 < text.len() {
                push_char(&mut out, '.');
                push_slice(&mut out, &text, i + 1, text.len());
                proof {
                    assert(text@.subrange(i + 1, text@.len() as int) == text@.skip(i + 1));
                }
            }
        },
        None => {
            proof {
                assert(text@.subrange(0, text@.len() as int) == text@);
                assert(text@.take(text@.len() as int) == text@);
            }
            push_grouped(&mut out, &text, text.len());
        },
    }
    out
}

/// Tailwind text colour for a gain (zero included) or a loss.
pub fn signed_color(value: Dec) -> (r: &'static str)
    requires
        value.is_valid(),
    ensures
        r@ == (if dec_lt(value, Dec { negative: false, magnitude: 0, scale: 0 }) { "text-ctp-red"@ } else { "text-ctp-green"@ }),
{
    if !less_than(value, Dec::zero()) {
        "text-ctp-green"
    } else {
        "text-ctp-red"
    }
}


/// `—` for missing values, otherwise the formatted value.
pub fn or_dash<T, F: Fn(T) -> String>(value: Option<T>, fmt: F) -> (r: String)
    requires
        value matches Some(v) ==> call_requires(fmt, (v,)),
    ensures
        match value {
            Some(v) => call_ensures(fmt, (v,), r),
            None => r@ == seq!['—'],
        },
{
    match value {
        Some(v) => fmt(v),
        None => {
            let mut s = String::new();
            push_char(&mut s, '—');
            s
        },
    }
}

} // verus!
