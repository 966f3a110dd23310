//! The settings page's rates, read from the text typed.

use vstd::prelude::*;
use vstd::string::StringExecFns;
use crate::decimal::Dec;
use crate::editors::{read_decimal, parse_trimmed};
use crate::parse::trimmed;

verus! {

/// The risk-free rate and the assumed return read from their fields
/// (trimmed, then read as `Decimal`s), or the message shown when either
/// is not a number.
pub open spec fn rates_of(risk_free: Seq<char>, assumed: Seq<char>) -> Result<(Dec, Dec), Seq<char>> {
    match (read_decimal(trimmed(risk_free)), read_decimal(trimmed(assumed))) {
        (Some(rf), Some(ar)) => Ok((rf, ar)),
        _ => Err("Enter numbers for the rates"@),
    }
}

/// The two rates typed on the settings page (see [`rates_of`]).
pub fn parse_rates(risk_free: &str, assumed: &str) -> (r: Result<(Dec, Dec), String>)
    ensures
        match rates_of(risk_free@, assumed@) {
            Ok(t) => r matches Ok(x) && x == t,
            Err(e) => r matches Err(m) && m@ == e,
        },
{
    match (parse_trimmed(risk_free), parse_trimmed(assumed)) {
        (Some(rf), Some(ar)) => Ok((rf, ar)),
        _ => Err(String::from_str("Enter numbers for the rates")),
    }
}

} // verus!
