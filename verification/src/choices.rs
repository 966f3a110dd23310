//! The fixed choices the pages offer — chart spans, backtest lengths, risk
//! grades, graph edges — and how each is shown. Labels are the English
//! text; the interface shows them in the chosen language.

use vstd::prelude::*;

verus! {

/// How much of a stock's history the technical chart shows.
#[derive(Clone, Copy, PartialEq, Eq, Debug, Structural)]
pub enum Span {
    M1,
    M3,
    M6,
    Y1,
    Y2,
    Y5,
}

impl Span {
    pub fn label(self) -> (r: &'static str)
        ensures
            r@ == (match self {
                Span::M1 => "1M"@,
                Span::M3 => "3M"@,
                Span::M6 => "6M"@,
                Span::Y1 => "1Y"@,
                Span::Y2 => "2Y"@,
                Span::Y5 => "5Y"@,
            }),
    {
        match self {
            Span::M1 => "1M",
            Span::M3 => "3M",
            Span::M6 => "6M",
            Span::Y1 => "1Y",
            Span::Y2 => "2Y",
            Span::Y5 => "5Y",
        }
    }

    /// Days shown at first; the rest of the fetched history warms up the
    /// indicators and stays reachable by zooming out.
    pub fn days(self) -> (r: i64)
        ensures
            r == (match self {
                Span::M1 => 31int,
                Span::M3 => 92,
                Span::M6 => 183,
                Span::Y1 => 366,
                Span::Y2 => 731,
                Span::Y5 => 1827,
            }),
    {
        match self {
            Span::M1 => 31,
            Span::M3 => 92,
            Span::M6 => 183,
            Span::Y1 => 366,
            Span::Y2 => 731,
            Span::Y5 => 1827,
        }
    }
}

/// How far back a backtest runs.
#[derive(Clone, Copy, PartialEq, Eq, Debug, Structural)]
pub enum Years {
    Three,
    Five,
    Ten,
    Max,
}

impl Years {
    pub fn label(self) -> (r: &'static str)
        ensures
            r@ == (match self {
                Years::Three => "3 years"@,
                Years::Five => "5 years"@,
                Years::Ten => "10 years"@,
                Years::Max => "Max"@,
            }),
    {
        match self {
            Years::Three => "3 years",
            Years::Five => "5 years",
            Years::Ten => "10 years",
            Years::Max => "Max",
        }
    }

    /// Months kept from the end of the fetched history (all for `Max`).
    pub fn months(self) -> (r: Option<usize>)
        ensures
            r == (match self {
                Years::Three => Some(37usize),
                Years::Five => Some(61usize),
                Years::Ten => Some(121usize),
                Years::Max => None,
            }),
    {
        match self {
            Years::Three => Some(37),
            Years::Five => Some(61),
            Years::Ten => Some(121),
            Years::Max => None,
        }
    }
}

/// Risk grade of a portfolio.
#[derive(Clone, Copy, PartialEq, Eq, Debug, Structural)]
pub enum Grade {
    Low,
    Moderate,
    High,
}

impl Grade {
    pub fn label(self) -> (r: &'static str)
        ensures
            r@ == (match self {
                Grade::Low => "Low risk"@,
                Grade::Moderate => "Moderate risk"@,
                Grade::High => "High risk"@,
            }),
    {
        match self {
            Grade::Low => "Low risk",
            Grade::Moderate => "Moderate risk",
            Grade::High => "High risk",
        }
    }

    /// Badge classes of the grade.
    pub fn pill(self) -> (r: &'static str)
        ensures
            r@ == (match self {
                Grade::Low => "bg-ctp-green/15 text-ctp-green"@,
                Grade::Moderate => "bg-ctp-yellow/15 text-ctp-yellow"@,
                Grade::High => "bg-ctp-red/15 text-ctp-red"@,
            }),
    {
        match self {
            Grade::Low => "bg-ctp-green/15 text-ctp-green",
            Grade::Moderate => "bg-ctp-yellow/15 text-ctp-yellow",
            Grade::High => "bg-ctp-red/15 text-ctp-red",
        }
    }
}

/// Text colour of a figure that is good (green) or not (peach).
pub fn tone(good: bool) -> (r: &'static str)
    ensures
        r@ == (if good { "text-ctp-green"@ } else { "text-ctp-peach"@ }),
{
    if good {
        "text-ctp-green"
    } else {
        "text-ctp-peach"
    }
}

/// How an edge of the correlation graph is drawn.
#[derive(Clone, Copy, PartialEq, Eq, Debug, Structural)]
pub enum EdgeState {
    Normal,
    Highlighted,
    Dimmed,
}

/// The edge between stocks `i` and `j` while `hovered` (if any) is under
/// the pointer: highlighted when it touches the hovered stock, dimmed
/// when another one is hovered.
pub fn edge_state(hovered: Option<usize>, i: usize, j: usize) -> (r: EdgeState)
    ensures
        r == (match hovered {
            None => EdgeState::Normal,
            Some(h) => if h == i || h == j { EdgeState::Highlighted } else { EdgeState::Dimmed },
        }),
{
    match hovered {
        None => EdgeState::Normal,
        Some(h) => {
            if h == i || h == j {
                EdgeState::Highlighted
            } else {
                EdgeState::Dimmed
            }
        },
    }
}

} // verus!
