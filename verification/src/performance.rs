//! Where a performance comparison starts and how its points are labelled.
//! Every line starts at the same point: the period start, or just before
//! the first trade of the compared holdings if that is later.

use vstd::prelude::*;
use vstd::string::StringExecFns;
use crate::calendar::{label, label_text, LabelStyle, LABEL_OFFSET_SECS};

verus! {

/// Index of the first timestamp on the (UTC) day of the last one; 0 for
/// an empty timeline.
pub open spec fn last_session_start_of(timeline: Seq<i64>) -> int {
    if timeline.len() == 0 {
        0
    } else if exists|k: int| 0 <= k < timeline.len() && (#[trigger] timeline[k]) / 86400 == timeline.last() / 86400 {
        choose|k: int| 0 <= k < timeline.len() && (#[trigger] timeline[k]) / 86400 == timeline.last() / 86400
            && forall|j: int| 0 <= j < k ==> (#[trigger] timeline[j]) / 86400 != timeline.last() / 86400
    } else {
        0
    }
}

/// Index of the first timestamp on the last trading day (US sessions fall
/// within one UTC day, so this is the last session's open).
pub fn last_session_start(timeline: &Vec<i64>) -> (r: usize)
    ensures
        r == last_session_start_of(timeline@),
        timeline.len() > 0 ==> r < timeline.len(),
{
    if timeline.len() == 0 {
        return 0;
    }
    let last = timeline[timeline.len() - 1];
    let day = last.checked_div_euclid(86_400).unwrap();
    let mut k: usize = 0;
    while k < timeline.len()
        invariant
            k <= timeline.len(),
            timeline.len() > 0,
            day == timeline@.last() / 86400,
            forall|j: int| 0 <= j < k ==> (#[trigger] timeline@[j]) / 86400 != day,
        decreases timeline.len() - k,
    {
        if timeline[k].checked_div_euclid(86_400).unwrap() == day {
            proof {
                let w = choose|w: int| 0 <= w < timeline.len() && (#[trigger] timeline@[w]) / 86400 == timeline@.last() / 86400
                    && forall|j: int| 0 <= j < w ==> (#[trigger] timeline@[j]) / 86400 != timeline@.last() / 86400;
                assert(timeline@[k as int] / 86400 == timeline@.last() / 86400);
                if w < k {
                } else if w > k {
                }
                assert(w == k);
            }
            return k;
        }
        k = k + 1;
    }
    proof {
        assert(timeline@[timeline.len() - 1] == timeline@.last());
    }
    0
}

/// What a line tells the window: whether it follows holdings, whether
/// those were held when the period opened, and the step of their first
/// trade inside it.
#[derive(Clone, Copy, Debug, PartialEq, Eq, Structural)]
pub struct LineStart {
    pub is_holdings: bool,
    pub held_at_start: bool,
    pub first_trade_step: Option<usize>,
}

/// The earliest first-trade step among the holdings lines.
pub open spec fn first_trade_of(lines: Seq<LineStart>) -> Option<int>
    decreases lines.len(),
{
    if lines.len() == 0 {
        None
    } else {
        let rest = first_trade_of(lines.drop_last());
        let l = lines.last();
        match (if l.is_holdings { l.first_trade_step } else { None }) {
            None => rest,
            Some(k) => match rest {
                None => Some(k as int),
                Some(m) => Some(if (k as int) < m { k as int } else { m }),
            },
        }
    }
}

/// Step the compared lines start from: `floor` when some compared holdings
/// were already held when the period opened; otherwise the step before
/// the first trade (not before `floor`), or `floor` when no holdings trade.
pub open spec fn window_start_of(floor: int, lines: Seq<LineStart>) -> int {
    if exists|i: int| 0 <= i < lines.len() && (#[trigger] lines[i]).is_holdings && lines[i].held_at_start {
        floor
    } else {
        match first_trade_of(lines) {
            None => floor,
            Some(k) => {
                let before = if k > 0 { k - 1 } else { 0 };
                if before < floor { floor } else { before }
            },
        }
    }
}

/// The step the comparison starts at (see [`window_start_of`]).
pub fn window_start(floor: usize, lines: &Vec<LineStart>) -> (r: usize)
    ensures
        r == window_start_of(floor as int, lines@),
{
    let mut held = false;
    let mut first: Option<usize> = None;
    let mut i: usize = 0;
    while i < lines.len()
        invariant
            i <= lines.len(),
            held == exists|j: int| 0 <= j < i && (#[trigger] lines@[j]).is_holdings && lines@[j].held_at_start,
            match first {
                Some(k) => first_trade_of(lines@.take(i as int)) == Some(k as int),
                None => first_trade_of(lines@.take(i as int)) is None,
            },
        decreases lines.len() - i,
    {
        proof {
            assert(lines@.take(i + 1).drop_last() == lines@.take(i as int));
            assert(lines@.take(i + 1).last() == lines@[i as int]);
        }
        let l = &lines[i];
        if l.is_holdings && l.held_at_start {
            held = true;
        }
        if l.is_holdings {
            match l.first_trade_step {
                Some(k) => {
                    first = match first {
                        None => Some(k),
                        Some(m) => Some(if k < m { k } else { m }),
                    };
                },
                None => {},
            }
        }
        i = i + 1;
    }
    proof {
        assert(lines@.take(lines.len() as int) == lines@);
    }
    if held {
        return floor;
    }
    match first {
        None => floor,
        Some(k) => {
            let before = if k > 0 { k - 1 } else { 0 };
            if before < floor { floor } else { before }
        },
    }
}

/// The earliest step a comparison may start at: the previous close (the
/// step before the last session's open) for a one-session chart, else 0.
pub fn window_floor(timeline: &Vec<i64>, last_session: bool) -> (r: usize)
    ensures
        r == (if last_session {
            let s = last_session_start_of(timeline@);
            if s > 0 { s - 1 } else { 0 }
        } else {
            0
        }),
{
    if last_session {
        let s = last_session_start(timeline);
        if s > 0 { s - 1 } else { 0 }
    } else {
        0
    }
}

/// Labels of the timeline from `start` on; the first reads `Prev close`
/// when a one-session chart starts at the previous close.
pub open spec fn labels_of(timeline: Seq<i64>, start: int, style: LabelStyle, last_session: bool, floor: int) -> Seq<Seq<char>> {
    Seq::new((timeline.len() - start) as nat, |k: int|
        if k == 0 && last_session && start > 0 && start == floor { "Prev close"@ } else { label_text(timeline[start + k] as int, style) })
}

/// The point labels of a comparison (see [`labels_of`]).
pub fn point_labels(timeline: &Vec<i64>, start: usize, style: LabelStyle, last_session: bool, floor: usize) -> (r: Vec<String>)
    requires
        start <= timeline.len(),
        forall|k: int| 0 <= k < timeline.len() ==> #[trigger] timeline@[k] <= i64::MAX - LABEL_OFFSET_SECS,
    ensures
        r@.map_values(|s: String| s@) == labels_of(timeline@, start as int, style, last_session, floor as int),
{
    let mut out: Vec<String> = Vec::new();
    let mut k = start;
    while k < timeline.len()
        invariant
            start <= k <= timeline.len(),
            forall|j: int| 0 <= j < timeline.len() ==> #[trigger] timeline@[j] <= i64::MAX - LABEL_OFFSET_SECS,
            out.len() == k - start,
            forall|q: int| 0 <= q < out.len() ==> (#[trigger] out@[q])@
                == labels_of(timeline@, start as int, style, last_session, floor as int)[q],
        decreases timeline.len() - k,
    {
        let text = if k == start && last_session && start > 0 && start == floor {
            String::from_str("Prev close")
        } else {
            label(timeline[k], style)
        };
        out.push(text);
        k = k + 1;
    }
    proof {
        assert(out@.map_values(|s: String| s@) =~= labels_of(timeline@, start as int, style, last_session, floor as int));
    }
    out
}

} // verus!
