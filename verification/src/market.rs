//! The market page's refresh loop: what to do with each result.

use vstd::prelude::*;

verus! {

/// Milliseconds between refreshes of the market map.
pub const REFRESH_MS: u32 = 60_000;

/// Milliseconds before a failed refresh is tried again: a failure is often
/// a dropped connection.
pub const RETRY_MS: u32 = 5_000;

/// What the refresh loop does with one result.
#[derive(Clone, Copy, Debug, PartialEq, Eq, Structural)]
pub struct RefreshStep {
    /// Whether the result replaces what the page shows.
    pub show: bool,
    /// How long to wait before the next refresh.
    pub wait_ms: u32,
}

/// The step after a refresh that succeeded (`ok`) or failed, while the page
/// shows good data (`showing_good`) or not: a good result is always shown,
/// a failure only when there is no good data to keep showing; the next
/// refresh follows after `REFRESH_MS`, or `RETRY_MS` after a failure.
pub fn refresh_step(showing_good: bool, ok: bool) -> (r: RefreshStep)
    ensures
        r.show == (ok || !showing_good),
        r.wait_ms == (if ok { REFRESH_MS } else { RETRY_MS }),
{
    RefreshStep { show: ok || !showing_good, wait_ms: if ok { REFRESH_MS } else { RETRY_MS } }
}

} // verus!
