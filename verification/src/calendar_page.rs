//! Dates of the earnings and dividend calendar, read and written with
//! `chrono`.

use chrono::{Datelike, NaiveDate};
use vstd::prelude::*;
use vstd::string::StringExecFns;
use crate::calendar::is_valid_date;
use crate::text::{nat_text, zero_padded};

verus! {

/// Earliest year a `chrono::NaiveDate` holds.
pub open spec fn min_year() -> int {
    -262143
}

/// Latest year a `chrono::NaiveDate` holds.
pub open spec fn max_year() -> int {
    262142
}

/// The date `chrono::NaiveDate::parse_from_str(text, "%Y-%m-%d")` reads,
/// as (year, month, day).
pub uninterp spec fn parsed_date(text: Seq<char>) -> Option<(int, int, int)>;

/// `NaiveDate::parse_from_str(text, "%Y-%m-%d")`, as (year, month, day).
/// What it accepts is `chrono`'s format grammar and is named, not stated;
/// what it gives back is a date a `NaiveDate` can hold.
#[verifier::external_body]
fn parse_date(text: &str) -> (r: Option<(i32, u32, u32)>)
    ensures
        match r {
            Some(t) => parsed_date(text@) == Some((t.0 as int, t.1 as int, t.2 as int)),
            None => parsed_date(text@) is None,
        },
        r matches Some(t) ==> is_valid_date(t.0 as int, t.1 as int, t.2 as int)
            && min_year() <= t.0 <= max_year(),
{
    match NaiveDate::parse_from_str(text, "%Y-%m-%d") {
        Ok(d) => Some((d.year(), d.month(), d.day())),
        Err(_) => None,
    }
}

/// The English name of month `m` (1–12).
pub open spec fn full_month_name(m: int) -> Seq<char> {
    if m == 1 { "January"@ } else if m == 2 { "February"@ } else if m == 3 { "March"@ }
    else if m == 4 { "April"@ } else if m == 5 { "May"@ } else if m == 6 { "June"@ }
    else if m == 7 { "July"@ } else if m == 8 { "August"@ } else if m == 9 { "September"@ }
    else if m == 10 { "October"@ } else if m == 11 { "November"@ } else { "December"@ }
}

/// `chrono`'s `%Y`: the year zero-padded to four digits, with a sign
/// before years outside 0–9999.
pub open spec fn year_text(y: int) -> Seq<char> {
    if 0 <= y <= 9999 {
        zero_padded(nat_text(y as nat), 4)
    } else if y < 0 {
        seq!['-'] + zero_padded(nat_text((-y) as nat), 4)
    } else {
        seq!['+'] + zero_padded(nat_text(y as nat), 4)
    }
}

/// `NaiveDate::format("%B %Y")` of a date given as (year, month, day):
/// the month's English name, a space and the year as `%Y` writes it.
#[verifier::external_body]
fn month_and_year(year: i32, month: u32, day: u32) -> (r: String)
    requires
        is_valid_date(year as int, month as int, day as int),
        min_year() <= year <= max_year(),
    ensures
        r@ == full_month_name(month as int) + seq![' '] + year_text(year as int),
{
    NaiveDate::from_ymd_opt(year, month, day).unwrap().format("%B %Y").to_string()
}

/// `October 2026` for `2026-10`: the month's name and year when
/// `{month}-01` is a date, else `month` unchanged.
pub open spec fn month_label_of(month: Seq<char>) -> Seq<char> {
    match parsed_date(month + "-01"@) {
        Some(t) => full_month_name(t.1) + seq![' '] + year_text(t.0),
        None => month,
    }
}

/// The label of `month` once `{month}-01` has been read as a date (or
/// not): the month's name and year, else `month` unchanged.
pub fn month_label_from(month: &str, parsed: Option<(i32, u32, u32)>) -> (r: String)
    requires
        parsed matches Some(t) ==> is_valid_date(t.0 as int, t.1 as int, t.2 as int)
            && min_year() <= t.0 <= max_year(),
    ensures
        r@ == match parsed {
            Some(t) => full_month_name(t.1 as int) + seq![' '] + year_text(t.0 as int),
            None => month@,
        },
{
    match parsed {
        Some((y, m, d)) => month_and_year(y, m, d),
        None => String::from_str(month),
    }
}

/// `2026-10` → `October 2026`.
pub fn month_label(month: &str) -> (r: String)
    ensures
        r@ == month_label_of(month@),
{
    let mut text = String::from_str(month);
    text.append("-01");
    month_label_from(month, parse_date(text.as_str()))
}

} // verus!
