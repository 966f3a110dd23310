//! Modern-portfolio-theory style analytics of the open positions:
//! concentration (HHI), win rate, return spread and diversification.

use vstd::prelude::*;
use crate::decimal::{
    all_valid, checked_div, checked_mul, checked_sub, dec_lt, dec_of_nat, dec_one, dec_round_dp,
    dec_sum_seq, dec_zero, dec_sub, dec_mul, decimal_quotient,
    descending_order, exact_product_case, less_than, pow10, DecimalOverflow, round_dp, sort_descending, sum, Dec,
};

verus! {

/// What the analytics read of an open position.
pub struct Position {
    pub ticker: String,
    /// Latest price; zero while no live price is known.
    pub current_price: Dec,
    pub market_value: Dec,
    pub unrealized_pnl: Dec,
    /// Unrealized return in percent.
    pub unrealized_pnl_pct: Dec,
    /// Today's move in percent.
    pub daily_change_pct: Dec,
}

impl Position {
    pub open spec fn is_valid(&self) -> bool {
        &&& self.current_price.is_valid()
        &&& self.market_value.is_valid()
        &&& self.unrealized_pnl.is_valid()
        &&& self.unrealized_pnl_pct.is_valid()
        &&& self.daily_change_pct.is_valid()
    }
}

pub open spec fn positions_valid(ps: Seq<Position>) -> bool {
    forall|i: int| 0 <= i < ps.len() ==> (#[trigger] ps[i]).is_valid()
}

/// A position with a live (positive) market price.
pub open spec fn is_live(p: Position) -> bool {
    dec_lt(dec_zero(), p.current_price)
}

/// The positions with a live price, in order.
pub open spec fn live_of(ps: Seq<Position>) -> Seq<Position>
    decreases ps.len(),
{
    if ps.len() == 0 {
        Seq::empty()
    } else if is_live(ps.last()) {
        live_of(ps.drop_last()).push(ps.last())
    } else {
        live_of(ps.drop_last())
    }
}

/// Indices of the positions with a live price, in order.
pub fn live_indices(ps: &Vec<Position>) -> (r: Vec<usize>)
    requires
        positions_valid(ps@),
    ensures
        forall|k: int| 0 <= k < r.len() ==> #[trigger] r@[k] < ps.len(),
        r@.map_values(|i: usize| ps@[i as int]) == live_of(ps@),
{
    let mut out: Vec<usize> = Vec::new();
    let mut i: usize = 0;
    while i < ps.len()
        invariant
            i <= ps.len(),
            positions_valid(ps@),
            forall|k: int| 0 <= k < out.len() ==> #[trigger] out@[k] < i,
            out@.map_values(|j: usize| ps@[j as int]) == live_of(ps@.take(i as int)),
        decreases ps.len() - i,
    {
        proof {
            assert(ps@.take(i + 1).drop_last() == ps@.take(i as int));
            assert(ps@.take(i + 1).last() == ps@[i as int]);
        }
        if less_than(Dec::zero(), ps[i].current_price) {
            out.push(i);
            proof {
                assert(out@.map_values(|j: usize| ps@[j as int]) == live_of(ps@.take(i as int)).push(ps@[i as int]));
            }
        }
        i = i + 1;
    }
    proof {
        assert(ps@.take(ps.len() as int) == ps@);
    }
    out
}

/// Each position's share of `total`: `market_value / total`, `None`
/// when a division fails.
pub open spec fn weights_of(live: Seq<Position>, total: Dec) -> Option<Seq<Dec>> {
    if forall|i: int| 0 <= i < live.len() ==> (#[trigger] decimal_quotient(live[i].market_value, total)) is Some {
        Some(Seq::new(live.len(), |i: int| decimal_quotient(live[i].market_value, total)->0))
    } else {
        None
    }
}

/// `xs[i] * ys[i]` for every `i`, `None` when a product overflows.
pub open spec fn products_of(xs: Seq<Dec>, ys: Seq<Dec>) -> Option<Seq<Dec>> {
    if forall|i: int| 0 <= i < xs.len() ==> (#[trigger] dec_mul(xs[i], ys[i])) is Some {
        Some(Seq::new(xs.len(), |i: int| dec_mul(xs[i], ys[i])->0))
    } else {
        None
    }
}

/// `Σ xs[i] * ys[i]`, products first, then summed left to right.
pub open spec fn sum_of_products(xs: Seq<Dec>, ys: Seq<Dec>) -> Option<Dec> {
    match products_of(xs, ys) {
        None => None,
        Some(ps) => dec_sum_seq(ps),
    }
}

/// `(x - mean)²` for every `x`.
pub open spec fn squared_deviations(xs: Seq<Dec>, mean: Dec) -> Option<Seq<Dec>> {
    if forall|i: int| 0 <= i < xs.len() ==> (#[trigger] dec_sub(xs[i], mean)) is Some {
        products_of(
            Seq::new(xs.len(), |i: int| dec_sub(xs[i], mean)->0),
            Seq::new(xs.len(), |i: int| dec_sub(xs[i], mean)->0),
        )
    } else {
        None
    }
}

/// Population variance of `xs`: the mean of the squared deviations from
/// the mean, in `rust_decimal` arithmetic.
pub open spec fn population_variance(xs: Seq<Dec>) -> Option<Dec> {
    match dec_sum_seq(xs) {
        None => None,
        Some(total) => match decimal_quotient(total, dec_of_nat(xs.len())) {
            None => None,
            Some(mean) => match squared_deviations(xs, mean) {
                None => None,
                Some(ds) => match dec_sum_seq(ds) {
                    None => None,
                    Some(t) => decimal_quotient(t, dec_of_nat(xs.len())),
                },
            },
        },
    }
}

/// The weights of the live positions: `market_value / total_value`.
pub fn weights(ps: &Vec<Position>, idx: &Vec<usize>, total: Dec) -> (r: Option<Vec<Dec>>)
    requires
        positions_valid(ps@),
        forall|k: int| 0 <= k < idx.len() ==> #[trigger] idx@[k] < ps.len(),
        total.is_valid(),
    ensures
        match weights_of(idx@.map_values(|i: usize| ps@[i as int]), total) {
            Some(ws) => r matches Some(v) && v@ == ws && all_valid(v@),
            None => r is None,
        },
{
    let ghost live = idx@.map_values(|i: usize| ps@[i as int]);
    let mut out: Vec<Dec> = Vec::new();
    let mut k: usize = 0;
    while k < idx.len()
        invariant
            k <= idx.len(),
            live == idx@.map_values(|i: usize| ps@[i as int]),
            positions_valid(ps@),
            forall|j: int| 0 <= j < idx.len() ==> #[trigger] idx@[j] < ps.len(),
            total.is_valid(),
            out.len() == k,
            all_valid(out@),
            forall|j: int| 0 <= j < k ==> #[trigger] decimal_quotient(live[j].market_value, total) == Some(out@[j]),
        decreases idx.len() - k,
    {
        let p = &ps[idx[k]];
        assert(live[k as int] == ps@[idx@[k as int] as int]);
        match checked_div(p.market_value, total) {
            Some(w) => {
                out.push(w);
            },
            None => {
                assert(!(forall|i: int| 0 <= i < live.len() ==> (#[trigger] decimal_quotient(live[i].market_value, total)) is Some));
                return None;
            },
        }
        k = k + 1;
    }
    assert(out@ == Seq::new(live.len(), |i: int| decimal_quotient(live[i].market_value, total)->0));
    Some(out)
}

/// `xs[i] * ys[i]` for every `i`.
pub fn products(xs: &Vec<Dec>, ys: &Vec<Dec>) -> (r: Option<Vec<Dec>>)
    requires
        xs.len() == ys.len(),
        all_valid(xs@),
        all_valid(ys@),
    ensures
        match products_of(xs@, ys@) {
            Some(ps) => r matches Some(v) && v@ == ps && all_valid(v@),
            None => r is None,
        },
{
    let mut out: Vec<Dec> = Vec::new();
    let mut k: usize = 0;
    while k < xs.len()
        invariant
            k <= xs.len() == ys.len(),
            all_valid(xs@),
            all_valid(ys@),
            out.len() == k,
            all_valid(out@),
            forall|j: int| 0 <= j < k ==> #[trigger] dec_mul(xs@[j], ys@[j]) == Some(out@[j]),
        decreases xs.len() - k,
    {
        match checked_mul(xs[k], ys[k]) {
            Some(p) => {
                out.push(p);
            },
            None => {
                assert(dec_mul(xs@[k as int], ys@[k as int]) is None);
                assert(!(forall|i: int| 0 <= i < xs@.len() ==> (#[trigger] dec_mul(xs@[i], ys@[i])) is Some));
                return None;
            },
        }
        k = k + 1;
    }
    assert(out@ == Seq::new(xs@.len(), |i: int| dec_mul(xs@[i], ys@[i])->0));
    Some(out)
}

/// `Σ xs[i] * ys[i]`.
pub fn sum_products(xs: &Vec<Dec>, ys: &Vec<Dec>) -> (r: Option<Dec>)
    requires
        xs.len() == ys.len(),
        all_valid(xs@),
        all_valid(ys@),
    ensures
        r == sum_of_products(xs@, ys@),
        r matches Some(x) ==> x.is_valid(),
{
    match products(xs, ys) {
        None => None,
        Some(ps) => sum(&ps),
    }
}

/// Population variance of `xs` (`None` when the arithmetic overflows).
pub fn variance(xs: &Vec<Dec>) -> (r: Option<Dec>)
    requires
        all_valid(xs@),
    ensures
        r == population_variance(xs@),
        r matches Some(x) ==> x.is_valid(),
{
    let total = match sum(xs) {
        Some(t) => t,
        None => {
            return None;
        },
    };
    let n = Dec::from_u64(xs.len() as u64);
    assert(n == dec_of_nat(xs@.len()));
    let mean = match checked_div(total, n) {
        Some(m) => m,
        None => {
            return None;
        },
    };
    let mut devs: Vec<Dec> = Vec::new();
    let mut k: usize = 0;
    while k < xs.len()
        invariant
            k <= xs.len(),
            all_valid(xs@),
            mean.is_valid(),
            dec_sum_seq(xs@) == Some(total),
            decimal_quotient(total, dec_of_nat(xs@.len())) == Some(mean),
            devs.len() == k,
            all_valid(devs@),
            forall|j: int| 0 <= j < k ==> #[trigger] dec_sub(xs@[j], mean) == Some(devs@[j]),
        decreases xs.len() - k,
    {
        match checked_sub(xs[k], mean) {
            Some(d) => {
                devs.push(d);
            },
            None => {
                assert(dec_sub(xs@[k as int], mean) is None);
                assert(!(forall|i: int| 0 <= i < xs@.len() ==> (#[trigger] dec_sub(xs@[i], mean)) is Some));
                assert(squared_deviations(xs@, mean) is None);
                return None;
            },
        }
        k = k + 1;
    }
    assert(devs@ == Seq::new(xs@.len(), |i: int| dec_sub(xs@[i], mean)->0));
    let squares = match products(&devs, &devs) {
        Some(q) => q,
        None => {
            return None;
        },
    };
    let t = match sum(&squares) {
        Some(t) => t,
        None => {
            return None;
        },
    };
    checked_div(t, n)
}


/// Qualitative concentration bucket derived from HHI.
#[derive(Clone, Copy, Debug, PartialEq, Eq, Structural)]
pub enum ConcentrationRisk {
    Low,
    Moderate,
    High,
}

impl ConcentrationRisk {
    pub fn label(&self) -> (r: &'static str)
        ensures
            r@ == (match self {
                ConcentrationRisk::Low => "Low"@,
                ConcentrationRisk::Moderate => "Moderate"@,
                ConcentrationRisk::High => "High"@,
            }),
    {
        match self {
            Self::Low => "Low",
            Self::Moderate => "Moderate",
            Self::High => "High",
        }
    }

    pub fn color(&self) -> (r: &'static str)
        ensures
            r@ == (match self {
                ConcentrationRisk::Low => "text-ctp-green"@,
                ConcentrationRisk::Moderate => "text-ctp-yellow"@,
                ConcentrationRisk::High => "text-ctp-red"@,
            }),
    {
        match self {
            Self::Low => "text-ctp-green",
            Self::Moderate => "text-ctp-yellow",
            Self::High => "text-ctp-red",
        }
    }

    pub fn bar_color(&self) -> (r: &'static str)
        ensures
            r@ == (match self {
                ConcentrationRisk::Low => "bg-ctp-green"@,
                ConcentrationRisk::Moderate => "bg-ctp-yellow"@,
                ConcentrationRisk::High => "bg-ctp-red"@,
            }),
    {
        match self {
            Self::Low => "bg-ctp-green",
            Self::Moderate => "bg-ctp-yellow",
            Self::High => "bg-ctp-red",
        }
    }
}

/// `0.15`: below this HHI a portfolio counts as diversified.
pub open spec fn hhi_low() -> Dec {
    Dec { negative: false, magnitude: 15, scale: 2 }
}

/// `0.25`: from this HHI on a portfolio counts as highly concentrated.
pub open spec fn hhi_high() -> Dec {
    Dec { negative: false, magnitude: 25, scale: 2 }
}

/// The bucket of an HHI: below 0.15 low, below 0.25 moderate, else high.
pub open spec fn concentration_of(hhi: Dec) -> ConcentrationRisk {
    if dec_lt(hhi, hhi_low()) {
        ConcentrationRisk::Low
    } else if dec_lt(hhi, hhi_high()) {
        ConcentrationRisk::Moderate
    } else {
        ConcentrationRisk::High
    }
}

/// The bucket of an HHI: below 0.15 low, below 0.25 moderate, else high.
pub fn concentration(hhi: Dec) -> (r: ConcentrationRisk)
    requires
        hhi.is_valid(),
    ensures
        r == concentration_of(hhi),
{
    if less_than(hhi, Dec { negative: false, magnitude: 15, scale: 2 }) {
        ConcentrationRisk::Low
    } else if less_than(hhi, Dec { negative: false, magnitude: 25, scale: 2 }) {
        ConcentrationRisk::Moderate
    } else {
        ConcentrationRisk::High
    }
}

/// Index of the largest entry, the last one among equals (what
/// `Iterator::max_by` picks).
pub open spec fn last_max_index(xs: Seq<Dec>) -> int
    decreases xs.len(),
{
    if xs.len() <= 1 {
        0
    } else {
        let j = last_max_index(xs.drop_last());
        if dec_lt(xs.last(), xs[j]) { j } else { xs.len() - 1 }
    }
}

proof fn lemma_last_max_index_bounds(xs: Seq<Dec>)
    requires
        xs.len() > 0,
    ensures
        0 <= last_max_index(xs) < xs.len(),
    decreases xs.len(),
{
    if xs.len() > 1 {
        lemma_last_max_index_bounds(xs.drop_last());
    }
}

/// Index of the largest entry, the last among equals.
pub fn max_index(xs: &Vec<Dec>) -> (r: usize)
    requires
        xs.len() > 0,
        all_valid(xs@),
    ensures
        r == last_max_index(xs@),
        r < xs.len(),
{
    let mut best: usize = 0;
    let mut i: usize = 1;
    while i < xs.len()
        invariant
            1 <= i <= xs.len(),
            all_valid(xs@),
            best < i,
            best == last_max_index(xs@.take(i as int)),
        decreases xs.len() - i,
    {
        proof {
            assert(xs@.take(i + 1).drop_last() == xs@.take(i as int));
            assert(xs@.take(i + 1)[best as int] == xs@[best as int]);
        }
        if !less_than(xs[i], xs[best]) {
            best = i;
        }
        i = i + 1;
    }
    proof {
        assert(xs@.take(xs.len() as int) == xs@);
    }
    best
}

/// Index of the smallest entry, the first one among equals (what
/// `Iterator::min_by` picks).
pub open spec fn first_min_index(xs: Seq<Dec>) -> int
    decreases xs.len(),
{
    if xs.len() <= 1 {
        0
    } else {
        let j = first_min_index(xs.drop_last());
        if dec_lt(xs.last(), xs[j]) { xs.len() - 1 } else { j }
    }
}

/// Index of the smallest entry, the first among equals.
pub fn min_index(xs: &Vec<Dec>) -> (r: usize)
    requires
        xs.len() > 0,
        all_valid(xs@),
    ensures
        r == first_min_index(xs@),
        r < xs.len(),
{
    let mut best: usize = 0;
    let mut i: usize = 1;
    while i < xs.len()
        invariant
            1 <= i <= xs.len(),
            all_valid(xs@),
            best < i,
            best == first_min_index(xs@.take(i as int)),
        decreases xs.len() - i,
    {
        proof {
            assert(xs@.take(i + 1).drop_last() == xs@.take(i as int));
            assert(xs@.take(i + 1)[best as int] == xs@[best as int]);
        }
        if less_than(xs[i], xs[best]) {
            best = i;
        }
        i = i + 1;
    }
    proof {
        assert(xs@.take(xs.len() as int) == xs@);
    }
    best
}

/// How many of the positions show an unrealized gain (`unrealized_pnl > 0`).
pub open spec fn count_profitable(live: Seq<Position>) -> nat
    decreases live.len(),
{
    if live.len() == 0 {
        0
    } else {
        count_profitable(live.drop_last()) + (if dec_lt(dec_zero(), live.last().unrealized_pnl) { 1nat } else { 0nat })
    }
}

/// `100`.
pub open spec fn hundred() -> Dec {
    Dec { negative: false, magnitude: 100, scale: 0 }
}


/// `1 / hhi` to two decimals ("effective number of bets"), zero when HHI
/// is not positive.
pub open spec fn effective_n_of(hhi: Dec) -> Option<Dec> {
    if dec_lt(dec_zero(), hhi) {
        match decimal_quotient(dec_one(), hhi) {
            None => None,
            Some(x) => Some(dec_round_dp(x, 2)),
        }
    } else {
        Some(dec_zero())
    }
}

/// `part / whole * 100` rounded to one decimal.
pub open spec fn percent_of(part: Dec, whole: Dec) -> Option<Dec> {
    match decimal_quotient(part, whole) {
        None => None,
        Some(q) => match dec_mul(q, hundred()) {
            None => None,
            Some(x) => Some(dec_round_dp(x, 1)),
        },
    }
}

/// `x` clamped to `[0, 1]` as `x.max(ZERO).min(ONE)` does.
pub open spec fn clamp_unit(x: Dec) -> Dec {
    let y = if dec_lt(dec_zero(), x) { x } else { dec_zero() };
    if dec_lt(dec_one(), y) { dec_one() } else { y }
}

/// `(1 - HHI) / (1 - 1/n)`: how far the weights are from one position
/// (0) towards equal weights (1).
pub open spec fn score_ratio(hhi: Dec, n: nat) -> Option<Dec> {
    match decimal_quotient(dec_one(), dec_of_nat(n)) {
        None => None,
        Some(equal_hhi) => match dec_sub(dec_one(), hhi) {
            None => None,
            Some(a) => match dec_sub(dec_one(), equal_hhi) {
                None => None,
                Some(b) => decimal_quotient(a, b),
            },
        },
    }
}

/// 0–100 score of how close the weights are to equal weight:
/// [`score_ratio`] clamped to `[0, 1]`, times 100, one decimal; zero for a
/// single position.
pub open spec fn diversification_of(hhi: Dec, n: nat) -> Option<Dec> {
    match decimal_quotient(dec_one(), dec_of_nat(n)) {
        None => None,
        Some(equal_hhi) => if n > 1 {
            match score_ratio(hhi, n) {
                None => None,
                Some(raw) => match dec_mul(clamp_unit(raw), hundred()) {
                    None => None,
                    Some(x) => Some(dec_round_dp(x, 1)),
                },
            }
        } else {
            Some(dec_zero())
        },
    }
}

/// Each weight as a percentage rounded to one decimal.
pub open spec fn percents_of(ws: Seq<Dec>) -> Option<Seq<Dec>> {
    match products_of(ws, Seq::new(ws.len(), |i: int| hundred())) {
        None => None,
        Some(ps) => Some(Seq::new(ps.len(), |i: int| dec_round_dp(ps[i], 1))),
    }
}

/// The unrealized returns of the positions.
pub open spec fn returns_of(live: Seq<Position>) -> Seq<Dec> {
    Seq::new(live.len(), |i: int| live[i].unrealized_pnl_pct)
}

/// What the analytics compute from the live positions, when no
/// `rust_decimal` operation overflows: (weights, HHI, effective N, top
/// weight %, win rate, weighted average return, return variance,
/// diversification score, weight % per position).
pub open spec fn mpt_parts(live: Seq<Position>, total: Dec) -> Option<(Seq<Dec>, Dec, Dec, Dec, Dec, Dec, Dec, Dec, Seq<Dec>)> {
    match weights_of(live, total) {
        None => None,
        Some(ws) => match sum_of_products(ws, ws) {
            None => None,
            Some(hhi) => match effective_n_of(hhi) {
                None => None,
                Some(eff) => match dec_mul(ws[last_max_index(ws)], hundred()) {
                    None => None,
                    Some(top) => match percent_of(dec_of_nat(count_profitable(live)), dec_of_nat(live.len())) {
                        None => None,
                        Some(win) => match sum_of_products(returns_of(live), ws) {
                            None => None,
                            Some(wavg) => match population_variance(returns_of(live)) {
                                None => None,
                                Some(var) => match diversification_of(hhi, live.len()) {
                                    None => None,
                                    Some(div) => match percents_of(ws) {
                                        None => None,
                                        Some(pcts) => Some((ws, hhi, eff, dec_round_dp(top, 1), win, dec_round_dp(wavg, 2), var, div, pcts)),
                                    },
                                },
                            },
                        },
                    },
                },
            },
        },
    }
}

/// MPT-flavoured analytics of the live-priced positions.
pub struct MptAnalysis {
    /// Herfindahl-Hirschman index, sum of squared weights (0–1), four
    /// decimals.
    pub hhi: Dec,
    /// Effective number of independent bets, `1 / HHI`.
    pub effective_n: Dec,
    pub concentration_risk: ConcentrationRisk,
    /// Ticker with the largest weight, and that weight in percent.
    pub top_holding: (String, Dec),
    /// Percent of the positions showing an unrealized gain.
    pub win_rate: Dec,
    /// Weighted-average unrealized return in percent.
    pub weighted_avg_return: Dec,
    /// Population variance of the unrealized returns; its square root is
    /// the return dispersion.
    pub return_variance: Dec,
    /// 0–100: how close the weights are to equal weight.
    pub diversification_score: Dec,
    /// (ticker, weight %) largest first.
    pub weights: Vec<(String, Dec)>,
    /// Number of live-priced positions analysed.
    pub live_positions: usize,
}

/// The weight rows: (ticker, weight %) in descending weight order.
pub open spec fn weight_rows(live: Seq<Position>, pcts: Seq<Dec>) -> Seq<(String, Dec)> {
    descending_order(pcts, pcts.len()).map_values(|k: int| (live[k].ticker, pcts[k]))
}

/// The analysis holds exactly the figures `mpt_parts` gives.
pub open spec fn mpt_matches(a: MptAnalysis, live: Seq<Position>, total: Dec) -> bool {
    match mpt_parts(live, total) {
        None => false,
        Some(t) => {
            &&& a.hhi == dec_round_dp(t.1, 4)
            &&& a.effective_n == t.2
            &&& a.concentration_risk == concentration_of(t.1)
            &&& a.top_holding == (live[last_max_index(t.0)].ticker, t.3)
            &&& a.win_rate == t.4
            &&& a.weighted_avg_return == t.5
            &&& a.return_variance == t.6
            &&& a.diversification_score == t.7
            &&& a.weights@ == weight_rows(live, t.8)
            &&& a.live_positions == live.len()
        },
    }
}

/// Compute MPT-flavoured portfolio analytics. `Ok(None)` when there are no
/// positions, the total value is not positive, or no position has a live
/// price; `Err` where `rust_decimal` arithmetic overflows.
pub fn compute_mpt(positions: &Vec<Position>, total_value: Dec) -> (r: Result<Option<MptAnalysis>, DecimalOverflow>)
    requires
        positions_valid(positions@),
        total_value.is_valid(),
    ensures
        positions@.len() == 0 || !dec_lt(dec_zero(), total_value) || live_of(positions@).len() == 0
            ==> r == Ok::<Option<MptAnalysis>, DecimalOverflow>(None),
        !(positions@.len() == 0 || !dec_lt(dec_zero(), total_value) || live_of(positions@).len() == 0)
            ==> match r {
            Ok(Some(a)) => mpt_matches(a, live_of(positions@), total_value),
            Ok(None) => false,
            Err(_) => mpt_parts(live_of(positions@), total_value) is None,
        },
{
    if positions.len() == 0 || !less_than(Dec::zero(), total_value) {
        return Ok(None);
    }
    let idx = live_indices(positions);
    let ghost live = live_of(positions@);
    proof {
        assert(idx@.map_values(|i: usize| positions@[i as int]).len() == idx.len());
    }
    if idx.len() == 0 {
        return Ok(None);
    }
    let n = idx.len();
    let ws = match weights(positions, &idx, total_value) {
        Some(w) => w,
        None => {
            return Err(DecimalOverflow);
        },
    };
    let hhi = match sum_products(&ws, &ws) {
        Some(h) => h,
        None => {
            return Err(DecimalOverflow);
        },
    };
    let effective_n = if less_than(Dec::zero(), hhi) {
        match checked_div(Dec::one(), hhi) {
            Some(x) => round_dp(x, 2),
            None => {
                return Err(DecimalOverflow);
            },
        }
    } else {
        Dec::zero()
    };
    let concentration_risk = concentration(hhi);
    let top = max_index(&ws);
    let top_pct = match checked_mul(ws[top], Dec { negative: false, magnitude: 100, scale: 0 }) {
        Some(x) => round_dp(x, 1),
        None => {
            return Err(DecimalOverflow);
        },
    };
    let mut profitable: u64 = 0;
    let mut rets: Vec<Dec> = Vec::new();
    let mut k: usize = 0;
    while k < n
        invariant
            k <= n == idx.len(),
            positions_valid(positions@),
            forall|j: int| 0 <= j < idx.len() ==> #[trigger] idx@[j] < positions.len(),
            live == idx@.map_values(|i: usize| positions@[i as int]),
            profitable == count_profitable(live.take(k as int)),
            profitable <= k,
            rets@ == returns_of(live.take(k as int)),
            all_valid(rets@),
        decreases n - k,
    {
        let p = &positions[idx[k]];
        proof {
            assert(live[k as int] == positions@[idx@[k as int] as int]);
            assert(live.take(k + 1).drop_last() == live.take(k as int));
        }
        if less_than(Dec::zero(), p.unrealized_pnl) {
            profitable = profitable + 1;
        }
        rets.push(p.unrealized_pnl_pct);
        k = k + 1;
        proof {
            assert(rets@ == returns_of(live.take(k as int)));
        }
    }
    proof {
        assert(live.take(n as int) == live);
    }
    let win_rate = match checked_div(Dec::from_u64(profitable), Dec::from_u64(n as u64)) {
        Some(q) => match checked_mul(q, Dec { negative: false, magnitude: 100, scale: 0 }) {
            Some(x) => round_dp(x, 1),
            None => {
                return Err(DecimalOverflow);
            },
        },
        None => {
            return Err(DecimalOverflow);
        },
    };
    let weighted_avg_return = match sum_products(&rets, &ws) {
        Some(x) => round_dp(x, 2),
        None => {
            return Err(DecimalOverflow);
        },
    };
    let return_variance = match variance(&rets) {
        Some(v) => v,
        None => {
            return Err(DecimalOverflow);
        },
    };
    let diversification_score = match diversification(hhi, n) {
        Some(d) => d,
        None => {
            return Err(DecimalOverflow);
        },
    };
    let pcts = match percents(&ws) {
        Some(p) => p,
        None => {
            return Err(DecimalOverflow);
        },
    };
    let order = sort_descending(&pcts);
    let mut rows: Vec<(String, Dec)> = Vec::new();
    let mut m: usize = 0;
    while m < n
        invariant
            m <= n == idx.len() == pcts.len() == order.len(),
            forall|j: int| 0 <= j < idx.len() ==> #[trigger] idx@[j] < positions.len(),
            forall|j: int| 0 <= j < order.len() ==> #[trigger] order@[j] < n,
            live == idx@.map_values(|i: usize| positions@[i as int]),
            rows@ == order@.map_values(|x: usize| x as int).take(m as int).map_values(|j: int| (live[j].ticker, pcts@[j])),
        decreases n - m,
    {
        let j = order[m];
        proof {
            assert(live[j as int] == positions@[idx@[j as int] as int]);
        }
        rows.push((positions[idx[j]].ticker.clone(), pcts[j]));
        m = m + 1;
        proof {
            assert(order@.map_values(|x: usize| x as int).take(m as int) == order@.map_values(|x: usize| x as int).take(m - 1).push(j as int));
        }
    }
    proof {
        assert(order@.map_values(|x: usize| x as int).take(n as int) == order@.map_values(|x: usize| x as int));
        assert(live[top as int] == positions@[idx@[top as int] as int]);
    }
    let analysis = MptAnalysis {
        hhi: round_dp(hhi, 4),
        effective_n,
        concentration_risk,
        top_holding: (positions[idx[top]].ticker.clone(), top_pct),
        win_rate,
        weighted_avg_return,
        return_variance,
        diversification_score,
        weights: rows,
        live_positions: n,
    };
    Ok(Some(analysis))
}

/// 0–100 diversification score (see [`diversification_of`]).
fn diversification(hhi: Dec, n: usize) -> (r: Option<Dec>)
    requires
        hhi.is_valid(),
    ensures
        r == diversification_of(hhi, n as nat),
        r matches Some(x) ==> x.is_valid(),
{
    proof {
        assert(diversification_of(hhi, n as nat) == match decimal_quotient(dec_one(), dec_of_nat(n as nat)) {
            None => None,
            Some(equal_hhi) => if n > 1 {
                match dec_sub(dec_one(), hhi) {
                    None => None,
                    Some(a) => match dec_sub(dec_one(), equal_hhi) {
                        None => None,
                        Some(b) => match decimal_quotient(a, b) {
                            None => None,
                            Some(raw) => match dec_mul(clamp_unit(raw), hundred()) {
                                None => None,
                                Some(x) => Some(dec_round_dp(x, 1)),
                            },
                        },
                    },
                }
            } else {
                Some(dec_zero())
            },
        });
    }
    let equal_hhi = match checked_div(Dec::one(), Dec::from_u64(n as u64)) {
        Some(e) => e,
        None => {
            return None;
        },
    };
    if n > 1 {
        let a = match checked_sub(Dec::one(), hhi) {
            Some(a) => a,
            None => {
                return None;
            },
        };
        let b = match checked_sub(Dec::one(), equal_hhi) {
            Some(b) => b,
            None => {
                return None;
            },
        };
        let raw = match checked_div(a, b) {
            Some(x) => x,
            None => {
                return None;
            },
        };
        let y = if less_than(Dec::zero(), raw) { raw } else { Dec::zero() };
        let z = if less_than(Dec::one(), y) { Dec::one() } else { y };
        match checked_mul(z, Dec { negative: false, magnitude: 100, scale: 0 }) {
            Some(x) => Some(round_dp(x, 1)),
            None => None,
        }
    } else {
        Some(Dec::zero())
    }
}

/// Each weight as a percentage rounded to one decimal.
fn percents(ws: &Vec<Dec>) -> (r: Option<Vec<Dec>>)
    requires
        all_valid(ws@),
    ensures
        match percents_of(ws@) {
            Some(ps) => r matches Some(v) && v@ == ps && all_valid(v@),
            None => r is None,
        },
{
    let mut hundreds: Vec<Dec> = Vec::new();
    let mut k: usize = 0;
    while k < ws.len()
        invariant
            k <= ws.len(),
            hundreds@ == Seq::new(k as nat, |i: int| hundred()),
        decreases ws.len() - k,
    {
        hundreds.push(Dec { negative: false, magnitude: 100, scale: 0 });
        k = k + 1;
        proof {
            assert(hundreds@ == Seq::new(k as nat, |i: int| hundred()));
        }
    }
    let raw = match products(ws, &hundreds) {
        Some(p) => p,
        None => {
            return None;
        },
    };
    let mut out: Vec<Dec> = Vec::new();
    let mut m: usize = 0;
    while m < raw.len()
        invariant
            m <= raw.len(),
            all_valid(raw@),
            all_valid(out@),
            out@ == Seq::new(m as nat, |i: int| dec_round_dp(raw@[i], 1)),
        decreases raw.len() - m,
    {
        out.push(round_dp(raw[m], 1));
        m = m + 1;
        proof {
            assert(out@ == Seq::new(m as nat, |i: int| dec_round_dp(raw@[i], 1)));
        }
    }
    Some(out)
}


/// A single position scores zero on diversification, whatever its HHI
/// (when `1 / 1` is computed at all).
pub proof fn lemma_single_position_not_diversified(hhi: Dec)
    requires
        decimal_quotient(dec_one(), dec_of_nat(1)) is Some,
    ensures
        diversification_of(hhi, 1) == Some(dec_zero()),
{
}

/// The diversification score lies within 0–100 wherever `rust_decimal`
/// scales the clamped ratio to percent exactly ([`exact_product_case`]; a
/// ratio clamped to 0 or 1 always is). Where it rounds that product, its
/// result is named and no bound is stated.
#[verifier::spinoff_prover]
pub proof fn lemma_score_within_hundred(hhi: Dec, n: nat)
    requires
        score_ratio(hhi, n) matches Some(raw) ==> raw.is_valid() && (clamp_unit(raw).magnitude == 0
            || exact_product_case(clamp_unit(raw), hundred())),
    ensures
        diversification_of(hhi, n) matches Some(s) ==> !dec_lt(s, dec_zero()) && !dec_lt(hundred(), s),
{
    assert(pow10(0) == 1);
    if n > 1 {
        if let Some(raw) = score_ratio(hhi, n) {
            lemma_clamped_percent(raw);
            let x = dec_mul(clamp_unit(raw), hundred())->0;
            assert(diversification_of(hhi, n) matches Some(s) ==> s == dec_round_dp(x, 1));
        }
    } else {
        assert(diversification_of(hhi, n) matches Some(s) ==> s == dec_zero());
        assert(!dec_lt(dec_zero(), dec_zero()));
        assert(!dec_lt(hundred(), dec_zero()));
    }
}

/// A ratio clamped to `[0, 1]`, scaled to percent and rounded to one
/// decimal is within 0–100 when the scaling is exact.
#[verifier::spinoff_prover]
proof fn lemma_clamped_percent(raw: Dec)
    requires
        raw.is_valid(),
        clamp_unit(raw).magnitude == 0 || exact_product_case(clamp_unit(raw), hundred()),
    ensures
        dec_mul(clamp_unit(raw), hundred()) matches Some(x) && !dec_lt(dec_round_dp(x, 1), dec_zero())
            && !dec_lt(hundred(), dec_round_dp(x, 1)),
{
    let c = clamp_unit(raw);
    crate::decimal::lemma_pow10_positive(c.scale as nat);
    if c.magnitude == 0 {
        assert(dec_mul(c, hundred()) == Some(Dec { negative: false, magnitude: 0, scale: 0 }));
    } else {
        let m = c.magnitude as nat;
        let s = c.scale as nat;
        assert(!c.negative);
        assert(m <= pow10(s)) by {
            if dec_lt(dec_one(), raw) {
                assert(c == dec_one());
            } else {
                assert(!dec_lt(dec_one(), c));
            }
        }
        let x = Dec { negative: false, magnitude: (m * 100) as u128, scale: s as u32 };
        assert(dec_mul(c, hundred()) == Some(x));
        if s >= 2 {
            let k = (s - 1) as nat;
            let p = pow10(k);
            assert(pow10(s) == 10 * p);
            crate::decimal::lemma_pow10_positive(k);
            let q = (m * 100) / p;
            let r = (m * 100) % p;
            assert(m * 100 <= 1000 * p) by (nonlinear_arith)
                requires
                    m <= 10 * p,
            ;
            assert(q <= 1000 && (q == 1000 ==> r == 0)) by (nonlinear_arith)
                requires
                    m * 100 <= 1000 * p,
                    p >= 1,
                    q == (m * 100) / p,
                    r == (m * 100) % p,
            ;
            let half = 5 * pow10((k - 1) as nat);
            crate::decimal::lemma_pow10_positive((k - 1) as nat);
            let q2: nat = if r > half || (r == half && q % 2 == 1) { q + 1 } else { q };
            assert(q2 <= 1000);
            let rd = Dec { negative: false, magnitude: q2 as u128, scale: 1 };
            assert(dec_round_dp(x, 1) == rd);
            assert(pow10(1) == 10 && pow10(0) == 1) by {
                reveal_with_fuel(pow10, 2);
            }
            assert(!dec_lt(rd, dec_zero()));
            assert(!dec_lt(hundred(), rd));
        } else {
            assert(dec_round_dp(x, 1) == x);
            assert(pow10(0) == 1);
            assert(m * 100 * pow10(0) <= 100 * pow10(s)) by (nonlinear_arith)
                requires
                    m <= pow10(s),
                    pow10(0) == 1,
            ;
            assert(x.signed() == m * 100);
            assert(!dec_lt(x, dec_zero()));
            assert(!dec_lt(hundred(), x));
        }
    }
}

/// The weight rows of an analysis run largest first, and they are the live
/// positions' (ticker, weight %) pairs, each exactly once: row `k` is the
/// pair of position `order[k]` for a permutation `order` of the positions.
pub proof fn lemma_weight_rows_largest_first(a: MptAnalysis, live: Seq<Position>, total: Dec)
    requires
        mpt_matches(a, live, total),
    ensures
        a.weights@.len() == live.len(),
        forall|x: int, y: int| 0 <= x < y < a.weights@.len() ==> !dec_lt(a.weights@[x].1, a.weights@[y].1),
        exists|order: Seq<int>| {
            &&& order.len() == live.len()
            &&& forall|k: int| 0 <= k < order.len() ==> 0 <= #[trigger] order[k] < live.len()
            &&& forall|x: int, y: int| 0 <= x < y < order.len() ==> order[x] != order[y]
            &&& forall|k: int| 0 <= k < order.len() ==> #[trigger] a.weights@[k] == (live[order[k]].ticker, (mpt_parts(live, total)->0).8[order[k]])
        },
{
    let t = mpt_parts(live, total)->0;
    let ws = t.0;
    let pcts = t.8;
    assert(ws.len() == live.len());
    assert(pcts.len() == ws.len());
    let order = descending_order(pcts, pcts.len());
    crate::decimal::lemma_descending_order_sorted(pcts, pcts.len());
    assert(a.weights@ == order.map_values(|k: int| (live[k].ticker, pcts[k])));
    assert forall|x: int, y: int| 0 <= x < y < a.weights@.len() implies !dec_lt(a.weights@[x].1, a.weights@[y].1) by {
        assert(a.weights@[x].1 == pcts[order[x]]);
        assert(a.weights@[y].1 == pcts[order[y]]);
    }
    assert forall|k: int| 0 <= k < order.len() implies #[trigger] a.weights@[k] == (live[order[k]].ticker, t.8[order[k]]) by {
    }
}

} // verus!
