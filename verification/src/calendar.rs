//! Proleptic Gregorian calendar arithmetic on day numbers (days since the
//! Unix epoch, 1970-01-01).

use vstd::prelude::*;
use crate::parse::{chars_of, find_char, parse_i64, parse_int, parse_u32, split3, trim_bounds, trimmed};
use crate::text::{int_text, nat_text, push_char, push_int, push_nat, zero_padded};

verus! {

/// Days from the March 1st that starts year 0 to the March 1st that starts
/// year `y`: 365 days a year plus one for every 29 February in between.
pub open spec fn days_before_march(y: int) -> int {
    365 * y + y / 4 - y / 100 + y / 400
}

/// Gregorian leap years.
pub open spec fn is_leap(y: int) -> bool {
    y % 4 == 0 && (y % 100 != 0 || y % 400 == 0)
}

proof fn lemma_year_length(y: int)
    ensures
        days_before_march(y + 1) - days_before_march(y) == 365 + (if is_leap(y + 1) { 1int } else { 0int }),
{
    lemma_div_step(y, 4);
    lemma_div_step(y, 100);
    lemma_div_step(y, 400);
    lemma_leap_divisors(y + 1);
}

proof fn lemma_div_step(y: int, k: int)
    requires
        k == 4 || k == 100 || k == 400,
    ensures
        (y + 1) / k == y / k + (if (y + 1) % k == 0 { 1int } else { 0int }),
{
}

proof fn lemma_leap_divisors(y: int)
    ensures
        y % 400 == 0 ==> y % 100 == 0 && y % 4 == 0,
        y % 100 == 0 ==> y % 4 == 0,
{
}


/// The normalised day count that Hinnant's year-of-era formula divides by 365.
spec fn era_days_norm(doe: int) -> int {
    doe - doe / 1460 + doe / 36524 - doe / 146096
}

proof fn lemma_norm_at_year_start(k: int)
    requires
        0 <= k <= 399,
    ensures
        era_days_norm(days_before_march(k)) == 365 * k,
{
    let a = k / 4;
    let b = k % 4;
    let h = k / 100;
    assert(k == 4 * a + b);
    assert(days_before_march(k) == 1461 * a + 365 * b - h);
    assert(days_before_march(k) / 1460 == a);
    assert(days_before_march(k) / 36524 == h);
}

proof fn lemma_norm_before_year_start(k: int)
    requires
        1 <= k <= 400,
    ensures
        era_days_norm(days_before_march(k) - 1) < 365 * k,
{
    let j = k - 1;
    let a = j / 4;
    let b = j % 4;
    let h = j / 100;
    lemma_year_length(j);
    assert(j == 4 * a + b);
    assert(days_before_march(j) == 1461 * a + 365 * b - h);
}

proof fn lemma_norm_monotone(n1: int, n2: int)
    requires
        0 <= n1 <= n2 <= 146095,
    ensures
        era_days_norm(n1) <= era_days_norm(n2),
{
}

proof fn lemma_era_bounds(doe: int)
    requires
        0 <= doe <= 146096,
    ensures
        ({
            let yoe = era_days_norm(doe) / 365;
            &&& 0 <= yoe <= 399
            &&& days_before_march(yoe) <= doe < days_before_march(yoe + 1)
        }),
{
    let k = era_days_norm(doe) / 365;
    if doe == 146096 {
        assert(era_days_norm(doe) == 145999);
        assert(k == 399);
    } else {
        lemma_norm_monotone(doe, 146095);
        lemma_norm_monotone(0, doe);
        assert(era_days_norm(146095) < 146000);
        assert(0 <= k <= 399);
        if doe < days_before_march(k) {
            lemma_norm_before_year_start(k);
            lemma_norm_monotone(doe, days_before_march(k) - 1);
        }
        if k < 399 && doe >= days_before_march(k + 1) {
            lemma_norm_at_year_start(k + 1);
            lemma_norm_monotone(days_before_march(k + 1), doe);
        }
    }
}


/// Days from March 1st to the first day of the `mi`-th month of a year that
/// starts in March (0 = March, …, 11 = February).
pub open spec fn march_month_offset(mi: int) -> int {
    (153 * mi + 2) / 5
}

/// Number of days of month `m` (1–12) of year `y`.
pub open spec fn days_in_month(y: int, m: int) -> int {
    if m == 2 {
        if is_leap(y) { 29 } else { 28 }
    } else if m == 4 || m == 6 || m == 9 || m == 11 {
        30
    } else {
        31
    }
}

/// `(y, m, d)` names a real day of the proleptic Gregorian calendar.
pub open spec fn is_valid_date(y: int, m: int, d: int) -> bool {
    1 <= m <= 12 && 1 <= d <= days_in_month(y, m)
}

/// Day count of `(y, m, d)` from 0000-03-01, counting January and February
/// as the last months of the previous (March-based) year. Months and days
/// past their end simply run on into the following ones.
pub open spec fn day_count(y: int, m: int, d: int) -> int {
    let (yy, mi) = if m <= 2 { (y - 1, m + 9) } else { (y, m - 3) };
    days_before_march(yy) + march_month_offset(mi) + d - 1
}

/// Days since 1970-01-01 of the civil date `(y, m, d)`.
pub open spec fn days_since_epoch(y: int, m: int, d: int) -> int {
    day_count(y, m, d) - day_count(1970, 1, 1)
}

/// Splitting a day of a March-based year into month and day of month.
proof fn lemma_month_of_day(doy: int, leap: bool)
    requires
        0 <= doy < 365 + (if leap { 1int } else { 0int }),
    ensures
        ({
            let mp = (5 * doy + 2) / 153;
            let d = doy - march_month_offset(mp) + 1;
            let feb = if leap { 29int } else { 28int };
            &&& 0 <= mp <= 11
            &&& 1 <= d
            &&& mp == 11 ==> d <= feb
            &&& (mp == 1 || mp == 3 || mp == 6 || mp == 8) ==> d <= 30
            &&& d <= 31
        }),
{
}

/// Shifting a year by whole 400-year eras shifts its March 1st by 146097 days.
proof fn lemma_era_shift(era: int, yoe: int)
    ensures
        days_before_march(400 * era + yoe) == 146097 * era + days_before_march(yoe),
{
    assert((400 * era + yoe) / 4 == 100 * era + yoe / 4) by {
        assert(400 * era + yoe == 4 * (100 * era) + yoe);
    }
    assert((400 * era + yoe) / 100 == 4 * era + yoe / 100) by {
        assert(400 * era + yoe == 100 * (4 * era) + yoe);
    }
    assert((400 * era + yoe) / 400 == era + yoe / 400) by {
        assert(400 * era + yoe == 400 * era + yoe);
    }
}

/// The date that Hinnant's `civil_from_days` computes for `day`.
spec fn hinnant_civil(day: int) -> (int, int, int) {
    let z = day + 719468;
    let era = z / 146097;
    let doe = z % 146097;
    let yoe = era_days_norm(doe) / 365;
    let doy = doe - (365 * yoe + yoe / 4 - yoe / 100);
    let mp = (5 * doy + 2) / 153;
    let d = doy - (153 * mp + 2) / 5 + 1;
    let m = if mp < 10 { mp + 3 } else { mp - 9 };
    (yoe + era * 400 + (if m <= 2 { 1int } else { 0int }), m, d)
}

/// Every day number is a valid civil date: the one Hinnant's algorithm finds.
proof fn lemma_hinnant_date(day: int)
    ensures
        ({
            let (y, m, d) = hinnant_civil(day);
            is_valid_date(y, m, d) && days_since_epoch(y, m, d) == day
        }),
{
    let z = day + 719468;
    let era = z / 146097;
    let doe = z % 146097;
    lemma_era_bounds(doe);
    let yoe = era_days_norm(doe) / 365;
    let doy = doe - (365 * yoe + yoe / 4 - yoe / 100);
    assert(days_before_march(yoe) == 365 * yoe + yoe / 4 - yoe / 100);
    lemma_year_length(yoe);
    lemma_year_length(400 * era + yoe);
    lemma_era_shift(era, yoe);
    lemma_era_shift(era, yoe + 1);
    let yy = 400 * era + yoe;
    let leap = is_leap(yy + 1);
    assert(0 <= doy < 365 + (if leap { 1int } else { 0int }));
    lemma_month_of_day(doy, leap);
    let mp = (5 * doy + 2) / 153;
    let m = if mp < 10 { mp + 3 } else { mp - 9 };
    let y = yoe + era * 400 + (if m <= 2 { 1int } else { 0int });
    assert(day_count(1970, 1, 1) == 719468);
    assert(day_count(y, m, hinnant_civil(day).2) == days_before_march(yy) + doy);
}


proof fn lemma_days_before_march_monotone(a: int, b: int)
    requires
        a < b,
    ensures
        days_before_march(a + 1) <= days_before_march(b),
{
}

/// Where a valid date falls within its March-based year: the month formula
/// gives back its month, and the day lies before the next March 1st.
proof fn lemma_day_of_year(y: int, m: int, d: int)
    requires
        is_valid_date(y, m, d),
    ensures
        ({
            let (yy, mi) = if m <= 2 { (y - 1, m + 9) } else { (y, m - 3) };
            let t = march_month_offset(mi) + d - 1;
            &&& 0 <= t
            &&& t < days_before_march(yy + 1) - days_before_march(yy)
            &&& (5 * t + 2) / 153 == mi
        }),
{
    let yy = if m <= 2 { y - 1 } else { y };
    lemma_year_length(yy);
    if m == 1 {
    } else if m == 2 {
    } else if m == 3 {
    } else if m == 4 {
    } else if m == 5 {
    } else if m == 6 {
    } else if m == 7 {
    } else if m == 8 {
    } else if m == 9 {
    } else if m == 10 {
    } else if m == 11 {
    } else {
    }
}

/// Distinct valid dates have distinct day numbers, so a day number names at
/// most one date.
pub proof fn lemma_dates_distinct(y1: int, m1: int, d1: int, y2: int, m2: int, d2: int)
    requires
        is_valid_date(y1, m1, d1),
        is_valid_date(y2, m2, d2),
        days_since_epoch(y1, m1, d1) == days_since_epoch(y2, m2, d2),
    ensures
        y1 == y2 && m1 == m2 && d1 == d2,
{
    lemma_day_of_year(y1, m1, d1);
    lemma_day_of_year(y2, m2, d2);
    let (yy1, mi1) = if m1 <= 2 { (y1 - 1, m1 + 9) } else { (y1, m1 - 3) };
    let (yy2, mi2) = if m2 <= 2 { (y2 - 1, m2 + 9) } else { (y2, m2 - 3) };
    if yy1 < yy2 {
        lemma_days_before_march_monotone(yy1, yy2);
    } else if yy2 < yy1 {
        lemma_days_before_march_monotone(yy2, yy1);
    }
    assert(yy1 == yy2);
    assert(mi1 == mi2);
}


/// The civil date of a day number: the valid date whose day number it is.
pub open spec fn civil_date(day: int) -> (int, int, int) {
    choose|t: (int, int, int)| is_valid_date(t.0, t.1, t.2) && days_since_epoch(t.0, t.1, t.2) == day
}

/// Every day number has a civil date, and it is the one Hinnant's
/// algorithm computes.
pub proof fn lemma_civil_date(day: int)
    ensures
        ({
            let t = civil_date(day);
            is_valid_date(t.0, t.1, t.2) && days_since_epoch(t.0, t.1, t.2) == day
        }),
{
    lemma_civil_date_is_hinnant(day);
}

proof fn lemma_civil_date_is_hinnant(day: int)
    ensures
        ({
            let t = civil_date(day);
            is_valid_date(t.0, t.1, t.2) && days_since_epoch(t.0, t.1, t.2) == day
        }),
        civil_date(day) == hinnant_civil(day),
{
    lemma_hinnant_date(day);
    let h = hinnant_civil(day);
    assert(is_valid_date(h.0, h.1, h.2) && days_since_epoch(h.0, h.1, h.2) == day);
    let t = civil_date(day);
    lemma_dates_distinct(t.0, t.1, t.2, h.0, h.1, h.2);
}

/// Converting a valid date to its day number and back gives the same date.
pub proof fn lemma_date_roundtrip(y: int, m: int, d: int)
    requires
        is_valid_date(y, m, d),
    ensures
        civil_date(days_since_epoch(y, m, d)) == (y, m, d),
{
    let day = days_since_epoch(y, m, d);
    lemma_civil_date(day);
    let t = civil_date(day);
    lemma_dates_distinct(t.0, t.1, t.2, y, m, d);
}

/// The civil-date arithmetic of [`days_from_civil`] stays within `i64`.
pub open spec fn civil_date_fits(y: int, m: int, d: int) -> bool {
    let yy = if m <= 2 { y - 1 } else { y };
    &&& i64::MIN <= yy
    &&& i64::MIN <= 146097 * (yy / 400)
    &&& day_count(y, m, d) <= i64::MAX
    &&& i64::MIN <= days_since_epoch(y, m, d)
}

/// `(year, month 1–12, day 1–31)` from days since the Unix epoch
/// (Howard Hinnant's `civil_from_days`).
pub fn civil_from_days(day: i64) -> (r: (i64, u32, u32))
    requires
        day <= i64::MAX - 719_468,
    ensures
        (r.0 as int, r.1 as int, r.2 as int) == civil_date(day as int),
        is_valid_date(r.0 as int, r.1 as int, r.2 as int),
        days_since_epoch(r.0 as int, r.1 as int, r.2 as int) == day,
{
    proof {
        lemma_civil_date_is_hinnant(day as int);
        lemma_era_bounds((day + 719_468) % 146_097);
    }
    let z = day + 719_468;
    let era = z.checked_div_euclid(146_097).unwrap();
    let doe = z.checked_rem_euclid(146_097).unwrap();
    let yoe = (doe - doe / 1_460 + doe / 36_524 - doe / 146_096) / 365;
    let doy = doe - (365 * yoe + yoe / 4 - yoe / 100);
    let mp = (5 * doy + 2) / 153;
    let d = doy - (153 * mp + 2) / 5 + 1;
    let m = if mp < 10 { mp + 3 } else { mp - 9 };
    let leap_shift: i64 = if m <= 2 { 1 } else { 0 };
    (yoe + era * 400 + leap_shift, m as u32, d as u32)
}

/// Days since the Unix epoch from a civil date (`days_from_civil`).
/// Months and days past their end run on into the following ones.
pub fn days_from_civil(y: i64, m: u32, d: u32) -> (r: i64)
    requires
        civil_date_fits(y as int, m as int, d as int),
    ensures
        r == days_since_epoch(y as int, m as int, d as int),
{
    let y = if m <= 2 { y - 1 } else { y };
    let era = y.checked_div_euclid(400).unwrap();
    let yoe = y.checked_rem_euclid(400).unwrap();
    let m = m as i64;
    let mi = if m > 2 { m - 3 } else { m + 9 };
    let doy = (153 * mi + 2) / 5 + d as i64 - 1;
    let doe = yoe * 365 + yoe / 4 - yoe / 100 + doy;
    proof {
        lemma_era_shift(era as int, yoe as int);
        assert(day_count(1970, 1, 1) == 719468);
    }
    era * 146_097 + doe - 719_468
}


/// English three-letter month abbreviation (`Jan` … `Dec`).
pub open spec fn month_abbr(m: int) -> Seq<char> {
    if m == 1 { seq!['J', 'a', 'n'] } else if m == 2 { seq!['F', 'e', 'b'] }
    else if m == 3 { seq!['M', 'a', 'r'] } else if m == 4 { seq!['A', 'p', 'r'] }
    else if m == 5 { seq!['M', 'a', 'y'] } else if m == 6 { seq!['J', 'u', 'n'] }
    else if m == 7 { seq!['J', 'u', 'l'] } else if m == 8 { seq!['A', 'u', 'g'] }
    else if m == 9 { seq!['S', 'e', 'p'] } else if m == 10 { seq!['O', 'c', 't'] }
    else if m == 11 { seq!['N', 'o', 'v'] } else { seq!['D', 'e', 'c'] }
}

fn push3(s: &mut String, a: char, b: char, c: char)
    ensures
        final(s)@ == old(s)@ + seq![a, b, c],
{
    push_char(s, a);
    push_char(s, b);
    push_char(s, c);
}

/// Appends the abbreviation of month `m` (1–12).
pub fn push_month_abbr(s: &mut String, m: u32)
    requires
        1 <= m <= 12,
    ensures
        final(s)@ == old(s)@ + month_abbr(m as int),
{
    if m == 1 { push3(s, 'J', 'a', 'n') } else if m == 2 { push3(s, 'F', 'e', 'b') }
    else if m == 3 { push3(s, 'M', 'a', 'r') } else if m == 4 { push3(s, 'A', 'p', 'r') }
    else if m == 5 { push3(s, 'M', 'a', 'y') } else if m == 6 { push3(s, 'J', 'u', 'n') }
    else if m == 7 { push3(s, 'J', 'u', 'l') } else if m == 8 { push3(s, 'A', 'u', 'g') }
    else if m == 9 { push3(s, 'S', 'e', 'p') } else if m == 10 { push3(s, 'O', 'c', 't') }
    else if m == 11 { push3(s, 'N', 'o', 'v') } else { push3(s, 'D', 'e', 'c') }
}

/// `Mar 5, 2026`: the civil date of `day`.
pub open spec fn day_label_text(day: int) -> Seq<char> {
    let t = civil_date(day);
    month_abbr(t.1) + seq![' '] + nat_text(t.2 as nat) + seq![',', ' '] + int_text(t.0)
}

/// `Mar 5, 2026` from a day number.
pub fn day_label(day: i64) -> (r: String)
    requires
        day <= i64::MAX - 719_468,
    ensures
        r@ == day_label_text(day as int),
{
    let (y, m, d) = civil_from_days(day);
    let mut out = String::new();
    push_month_abbr(&mut out, m);
    push_char(&mut out, ' ');
    push_nat(&mut out, d as u128);
    push_char(&mut out, ',');
    push_char(&mut out, ' ');
    push_int(&mut out, y);
    out
}

/// How chart labels show a point in time.
#[derive(Clone, Copy, PartialEq, Eq, Debug)]
pub enum LabelStyle {
    /// `14:30`
    Time,
    /// `5 Mar 14:30`
    DayTime,
    /// `5 Mar`
    Date,
}

/// Labels use a fixed UTC+7 clock.
pub const LABEL_OFFSET_SECS: i64 = 25_200;

/// `hh:mm` for a number of seconds into the day.
pub open spec fn clock_text(secs: int) -> Seq<char> {
    zero_padded(nat_text((secs / 3600) as nat), 2) + seq![':'] + zero_padded(
        nat_text((secs % 3600 / 60) as nat),
        2,
    )
}

/// The chart label of unix time `ts` on the UTC+7 clock.
pub open spec fn label_text(ts: int, style: LabelStyle) -> Seq<char> {
    let local = ts + LABEL_OFFSET_SECS;
    let t = civil_date(local / 86400);
    let secs = local % 86400;
    match style {
        LabelStyle::Time => clock_text(secs),
        LabelStyle::DayTime => nat_text(t.2 as nat) + seq![' '] + month_abbr(t.1) + seq![' ']
            + clock_text(secs),
        LabelStyle::Date => nat_text(t.2 as nat) + seq![' '] + month_abbr(t.1),
    }
}

fn push_two_digits(s: &mut String, n: u64)
    requires
        n < 100,
    ensures
        final(s)@ == old(s)@ + zero_padded(nat_text(n as nat), 2),
{
    proof {
        reveal_with_fuel(nat_text, 2);
    }
    if n < 10 {
        push_char(s, '0');
        proof {
            assert(Seq::new(1, |i: int| '0') == seq!['0']);
        }
    }
    push_nat(s, n as u128);
}

fn push_clock(s: &mut String, secs: i64)
    requires
        0 <= secs < 86400,
    ensures
        final(s)@ == old(s)@ + clock_text(secs as int),
{
    push_two_digits(s, (secs / 3600) as u64);
    push_char(s, ':');
    push_two_digits(s, (secs % 3600 / 60) as u64);
}

/// Chart label of unix time `ts` on the UTC+7 clock.
pub fn label(ts: i64, style: LabelStyle) -> (r: String)
    requires
        ts <= i64::MAX - LABEL_OFFSET_SECS,
    ensures
        r@ == label_text(ts as int, style),
{
    let local = ts + LABEL_OFFSET_SECS;
    let day = local.checked_div_euclid(86_400).unwrap();
    let secs = local.checked_rem_euclid(86_400).unwrap();
    let (_, m, d) = civil_from_days(day);
    let mut out = String::new();
    match style {
        LabelStyle::Time => {
            push_clock(&mut out, secs);
        },
        LabelStyle::DayTime => {
            push_nat(&mut out, d as u128);
            push_char(&mut out, ' ');
            push_month_abbr(&mut out, m);
            push_char(&mut out, ' ');
            push_clock(&mut out, secs);
        },
        LabelStyle::Date => {
            push_nat(&mut out, d as u128);
            push_char(&mut out, ' ');
            push_month_abbr(&mut out, m);
        },
    }
    out
}


/// The `(year, month, day)` numbers of a `YYYY-MM-DD` text: white space
/// around it is ignored, the year is read as an `i64` and month and day as
/// `u32`s; anything after the second `-` is the day.
pub open spec fn date_fields(date: Seq<char>) -> Option<(int, int, int)> {
    match split3(trimmed(date), '-') {
        None => None,
        Some(parts) => {
            let y = parse_int(parts.0, true, i64::MIN as int, i64::MAX as int);
            let m = parse_int(parts.1, false, 0, u32::MAX as int);
            let d = parse_int(parts.2, false, 0, u32::MAX as int);
            if y is Some && m is Some && d is Some {
                Some((y->0, m->0, d->0))
            } else {
                None
            }
        },
    }
}

/// The unix time of midnight UTC starting the date `(y, m, d)`.
pub open spec fn midnight_unix(y: int, m: int, d: int) -> int {
    days_since_epoch(y, m, d) * 86400
}

/// The date's day count and its midnight in seconds stay within `i64`.
pub open spec fn date_fits(y: int, m: int, d: int) -> bool {
    civil_date_fits(y, m, d) && i64::MIN <= midnight_unix(y, m, d) <= i64::MAX
}

/// Whether [`date_fits`] holds, worked out in `i128`.
fn fits_in_i64(y: i64, m: u32, d: u32) -> (r: bool)
    ensures
        r == date_fits(y as int, m as int, d as int),
{
    let yy: i128 = if m <= 2 { y as i128 - 1 } else { y as i128 };
    if yy < i64::MIN as i128 {
        return false;
    }
    let y64 = yy as i64;
    let q400 = y64.checked_div_euclid(400).unwrap();
    let q100 = y64.checked_div_euclid(100).unwrap();
    let q4 = y64.checked_div_euclid(4).unwrap();
    let era_days: i128 = 146_097 * q400 as i128;
    if era_days < i64::MIN as i128 {
        return false;
    }
    let mi: i128 = if m <= 2 { m as i128 + 9 } else { m as i128 - 3 };
    let count: i128 = 365 * yy + q4 as i128 - q100 as i128 + q400 as i128 + (153 * mi + 2) / 5 + d as i128 - 1;
    proof {
        assert(count == day_count(y as int, m as int, d as int));
        assert(day_count(1970, 1, 1) == 719468);
    }
    if count > i64::MAX as i128 {
        return false;
    }
    let days = count - 719_468;
    if days < i64::MIN as i128 {
        return false;
    }
    let secs = days * 86_400;
    secs >= i64::MIN as i128 && secs <= i64::MAX as i128
}

/// `YYYY-MM-DD` (UTC midnight) to unix seconds.
/// `None` also when the date's arithmetic would leave `i64`.
pub fn date_to_unix(date: &str) -> (r: Option<i64>)
    ensures
        match date_fields(date@) {
            Some(f) => if date_fits(f.0, f.1, f.2) {
                r == Some(midnight_unix(f.0, f.1, f.2) as i64)
            } else {
                r is None
            },
            None => r is None,
        },
{
    let chars = chars_of(date);
    let (lo, hi) = trim_bounds(&chars);
    let ghost t = chars@.subrange(lo as int, hi as int);
    let first = match find_char(&chars, lo, hi, '-') {
        Some(i) => lo + i,
        None => {
            return None;
        },
    };
    proof {
        assert(chars@.subrange(first + 1, hi as int) == t.skip(first - lo + 1));
    }
    let second = match find_char(&chars, first + 1, hi, '-') {
        Some(j) => first + 1 + j,
        None => {
            return None;
        },
    };
    proof {
        let rest = t.skip(first - lo + 1);
        assert(chars@.subrange(lo as int, first as int) == t.take(first - lo));
        assert(chars@.subrange(first + 1, second as int) == rest.take(second - first - 1));
        assert(chars@.subrange(second + 1, hi as int) == rest.skip(second - first));
    }
    let y = match parse_i64(&chars, lo, first) {
        Some(v) => v,
        None => {
            return None;
        },
    };
    let m = match parse_u32(&chars, first + 1, second) {
        Some(v) => v,
        None => {
            return None;
        },
    };
    let d = match parse_u32(&chars, second + 1, hi) {
        Some(v) => v,
        None => {
            return None;
        },
    };
    if !fits_in_i64(y, m, d) {
        return None;
    }
    Some(days_from_civil(y, m, d) * 86_400)
}

} // verus!
