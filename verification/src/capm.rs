//! Capital Asset Pricing Model analytics: E(rᵢ) = Rf + βᵢ · (Rm − Rf),
//! Jensen's alpha, Treynor ratio and portfolio aggregates.

use vstd::prelude::*;
use crate::decimal::{
    abs, all_valid, checked_add, checked_div, checked_mul, checked_sub, dec_abs, dec_lt, dec_one,
    dec_round_dp, dec_sub, dec_mul, decimal_quotient, dec_add,
    descending_order, less_than, round_dp, sort_descending, Dec, DecimalOverflow,
};
use crate::mpt::{
    live_indices, live_of, population_variance, positions_valid, sum_of_products, sum_products,
    variance, Position,
};

verus! {

/// Rates the user tunes, in percent a year.
#[derive(Clone, Copy, Debug, PartialEq, Eq, Structural)]
pub struct CAPMInputs {
    /// Risk-free rate, e.g. 5.25.
    pub rf: Dec,
    /// Expected market return, e.g. 10.0.
    pub rm: Dec,
}

impl CAPMInputs {
    /// Rf 5.25 %, Rm 10.0 %.
    pub fn default() -> (r: CAPMInputs)
        ensures
            r.rf == (Dec { negative: false, magnitude: 525, scale: 2 }),
            r.rm == (Dec { negative: false, magnitude: 100, scale: 1 }),
    {
        CAPMInputs {
            rf: Dec { negative: false, magnitude: 525, scale: 2 },
            rm: Dec { negative: false, magnitude: 100, scale: 1 },
        }
    }

    /// Market risk premium Rm − Rf (`None` where the subtraction overflows).
    pub fn market_premium(&self) -> (r: Option<Dec>)
        requires
            self.rf.is_valid(),
            self.rm.is_valid(),
        ensures
            r == dec_sub(self.rm, self.rf),
            r matches Some(x) ==> x.is_valid(),
    {
        checked_sub(self.rm, self.rf)
    }
}

/// The beta given for `ticker` (the first entry with that ticker), or 1
/// — the market itself — when none is given.
pub open spec fn beta_for(betas: Seq<(String, Dec)>, ticker: Seq<char>) -> Dec
    decreases betas.len(),
{
    if betas.len() == 0 {
        dec_one()
    } else if betas[0].0@ == ticker {
        betas[0].1
    } else {
        beta_for(betas.drop_first(), ticker)
    }
}

/// The beta given for `ticker`, else 1.
pub fn lookup_beta(betas: &Vec<(String, Dec)>, ticker: &String) -> (r: Dec)
    requires
        forall|i: int| 0 <= i < betas.len() ==> (#[trigger] betas@[i]).1.is_valid(),
    ensures
        r == beta_for(betas@, ticker@),
        r.is_valid(),
{
    let mut i: usize = 0;
    assert(betas@.skip(0) == betas@);
    while i < betas.len()
        invariant
            i <= betas.len(),
            forall|j: int| 0 <= j < betas.len() ==> (#[trigger] betas@[j]).1.is_valid(),
            beta_for(betas@, ticker@) == beta_for(betas@.skip(i as int), ticker@),
        decreases betas.len() - i,
    {
        proof {
            assert(betas@.skip(i as int)[0] == betas@[i as int]);
            assert(betas@.skip(i as int).drop_first() == betas@.skip(i + 1));
        }
        if betas[i].0 == *ticker {
            return betas[i].1;
        }
        i = i + 1;
    }
    Dec::one()
}

/// `0.0001`: a beta closer to zero than this leaves the Treynor ratio undefined.
pub open spec fn beta_floor() -> Dec {
    Dec { negative: false, magnitude: 1, scale: 4 }
}

/// One position's CAPM row before sorting: (weight, beta, expected return,
/// actual return, alpha, Treynor ratio), `None` where arithmetic overflows.
pub open spec fn capm_row(p: Position, total: Dec, betas: Seq<(String, Dec)>, rf: Dec, premium: Dec)
    -> Option<(Dec, Dec, Dec, Dec, Dec, Option<Dec>)> {
    let beta = beta_for(betas, p.ticker@);
    let actual = dec_round_dp(p.unrealized_pnl_pct, 4);
    match decimal_quotient(p.market_value, total) {
        None => None,
        Some(weight) => match dec_mul(beta, premium) {
            None => None,
            Some(bp) => match dec_add(rf, bp) {
                None => None,
                Some(e) => {
                    let expected = dec_round_dp(e, 4);
                    match dec_sub(actual, expected) {
                        None => None,
                        Some(a) => {
                            let alpha = dec_round_dp(a, 4);
                            if dec_lt(beta_floor(), dec_abs(beta)) {
                                match dec_sub(actual, rf) {
                                    None => None,
                                    Some(x) => match decimal_quotient(x, beta) {
                                        None => None,
                                        Some(t) => Some((weight, beta, expected, actual, alpha, Some(dec_round_dp(t, 4)))),
                                    },
                                }
                            } else {
                                Some((weight, beta, expected, actual, alpha, None))
                            }
                        },
                    }
                },
            },
        },
    }
}

/// Rows of every live position, `None` where one overflows.
pub open spec fn capm_rows(live: Seq<Position>, total: Dec, betas: Seq<(String, Dec)>, rf: Dec, premium: Dec)
    -> Option<Seq<(Dec, Dec, Dec, Dec, Dec, Option<Dec>)>> {
    if forall|i: int| 0 <= i < live.len() ==> (#[trigger] capm_row(live[i], total, betas, rf, premium)) is Some {
        Some(Seq::new(live.len(), |i: int| capm_row(live[i], total, betas, rf, premium)->0))
    } else {
        None
    }
}

/// CAPM metrics for one position.
pub struct PositionCAPM {
    pub ticker: String,
    /// Portfolio weight (0–1).
    pub weight: Dec,
    /// Beta used (1 if none was given).
    pub beta: Dec,
    /// CAPM expected return %: Rf + β(Rm − Rf).
    pub expected_return: Dec,
    /// Actual unrealized return %.
    pub actual_return: Dec,
    /// Jensen's alpha %: actual − expected.
    pub alpha: Dec,
    /// Treynor ratio (actual − Rf) / β; `None` when β ≈ 0.
    pub treynor: Option<Dec>,
}

pub open spec fn row_matches(pc: PositionCAPM, p: Position, row: (Dec, Dec, Dec, Dec, Dec, Option<Dec>)) -> bool {
    &&& pc.ticker == p.ticker
    &&& pc.weight == row.0
    &&& pc.beta == row.1
    &&& pc.expected_return == row.2
    &&& pc.actual_return == row.3
    &&& pc.alpha == row.4
    &&& pc.treynor == row.5
}


/// One position's CAPM row.
fn position_row(p: &Position, total: Dec, betas: &Vec<(String, Dec)>, rf: Dec, premium: Dec)
    -> (r: Option<(Dec, Dec, Dec, Dec, Dec, Option<Dec>)>)
    requires
        p.is_valid(),
        total.is_valid(),
        rf.is_valid(),
        premium.is_valid(),
        forall|i: int| 0 <= i < betas.len() ==> (#[trigger] betas@[i]).1.is_valid(),
    ensures
        r == capm_row(*p, total, betas@, rf, premium),
        r matches Some(t) ==> t.0.is_valid() && t.1.is_valid() && t.3.is_valid() && t.4.is_valid(),
{
    let beta = lookup_beta(betas, &p.ticker);
    let actual = round_dp(p.unrealized_pnl_pct, 4);
    let weight = match checked_div(p.market_value, total) {
        Some(w) => w,
        None => {
            return None;
        },
    };
    let bp = match checked_mul(beta, premium) {
        Some(x) => x,
        None => {
            return None;
        },
    };
    let expected = match checked_add(rf, bp) {
        Some(e) => round_dp(e, 4),
        None => {
            return None;
        },
    };
    let alpha = match checked_sub(actual, expected) {
        Some(a) => round_dp(a, 4),
        None => {
            return None;
        },
    };
    if less_than(Dec { negative: false, magnitude: 1, scale: 4 }, abs(beta)) {
        let x = match checked_sub(actual, rf) {
            Some(x) => x,
            None => {
                return None;
            },
        };
        match checked_div(x, beta) {
            Some(t) => Some((weight, beta, expected, actual, alpha, Some(round_dp(t, 4)))),
            None => None,
        }
    } else {
        Some((weight, beta, expected, actual, alpha, None))
    }
}

/// Aggregate CAPM metrics of the portfolio. The Sharpe and information
/// ratios divide by the square root of `return_variance` and
/// `alpha_variance`, which is taken in floating point outside this
/// library (see [`ratio_to_sigma`]).
pub struct PortfolioCAPM {
    pub inputs: CAPMInputs,
    /// Weighted average beta Σ wᵢβᵢ.
    pub portfolio_beta: Dec,
    /// CAPM expected return of the portfolio.
    pub portfolio_expected_return: Dec,
    /// Weighted average of the position alphas.
    pub portfolio_alpha: Dec,
    /// Treynor ratio (rₚ − Rf) / βₚ, `None` when βₚ ≈ 0.
    pub treynor_ratio: Option<Dec>,
    /// Actual weighted-average return.
    pub portfolio_actual_return: Dec,
    /// Population variance of the actual returns.
    pub return_variance: Dec,
    /// Population variance of the alphas.
    pub alpha_variance: Dec,
    /// Per-position rows, best alpha first.
    pub positions: Vec<PositionCAPM>,
}

pub open spec fn column(rows: Seq<(Dec, Dec, Dec, Dec, Dec, Option<Dec>)>, order: Seq<int>, c: int) -> Seq<Dec> {
    Seq::new(order.len(), |k: int| if c == 0 { rows[order[k]].0 } else if c == 1 { rows[order[k]].1 }
        else if c == 3 { rows[order[k]].3 } else { rows[order[k]].4 })
}

/// Sort order of the rows: best alpha first, stable.
pub open spec fn alpha_order(rows: Seq<(Dec, Dec, Dec, Dec, Dec, Option<Dec>)>) -> Seq<int> {
    descending_order(Seq::new(rows.len(), |i: int| rows[i].4), rows.len())
}

/// Everything `compute_capm` derives from the live positions when no
/// `rust_decimal` operation overflows: (rows, their order, βₚ, E(rₚ), rₚ,
/// αₚ, return variance, Treynor ratio, alpha variance).
pub open spec fn capm_parts(live: Seq<Position>, total: Dec, betas: Seq<(String, Dec)>, inputs: CAPMInputs)
    -> Option<(Seq<(Dec, Dec, Dec, Dec, Dec, Option<Dec>)>, Seq<int>, Dec, Dec, Dec, Dec, Dec, Option<Dec>, Dec)> {
    let rf = inputs.rf;
    match dec_sub(inputs.rm, rf) {
        None => None,
        Some(premium) => match capm_rows(live, total, betas, rf, premium) {
            None => None,
            Some(rows) => {
                let order = alpha_order(rows);
                let ws = column(rows, order, 0);
                match sum_of_products(ws, column(rows, order, 1)) {
                    None => None,
                    Some(b) => {
                        let pb = dec_round_dp(b, 4);
                        match dec_mul(pb, premium) {
                            None => None,
                            Some(x) => match dec_add(rf, x) {
                                None => None,
                                Some(e) => match sum_of_products(ws, column(rows, order, 3)) {
                                    None => None,
                                    Some(a) => match sum_of_products(ws, column(rows, order, 4)) {
                                        None => None,
                                        Some(al) => match population_variance(column(rows, order, 3)) {
                                            None => None,
                                            Some(rv) => {
                                                let pa = dec_round_dp(a, 4);
                                                let treynor = if dec_lt(beta_floor(), dec_abs(pb)) {
                                                    match dec_sub(pa, rf) {
                                                        None => None,
                                                        Some(d) => match decimal_quotient(d, pb) {
                                                            None => None,
                                                            Some(t) => Some(Some(dec_round_dp(t, 4))),
                                                        },
                                                    }
                                                } else {
                                                    Some(None)
                                                };
                                                match treynor {
                                                    None => None,
                                                    Some(tr) => match population_variance(column(rows, order, 4)) {
                                                        None => None,
                                                        Some(av) => Some((rows, order, pb, dec_round_dp(e, 4), pa, dec_round_dp(al, 4), rv, tr, av)),
                                                    },
                                                }
                                            },
                                        },
                                    },
                                },
                            },
                        }
                    },
                }
            },
        },
    }
}

/// The result holds exactly what `capm_parts` gives.
pub open spec fn capm_matches(c: PortfolioCAPM, live: Seq<Position>, total: Dec, betas: Seq<(String, Dec)>, inputs: CAPMInputs) -> bool {
    match capm_parts(live, total, betas, inputs) {
        None => false,
        Some(t) => {
            &&& c.inputs == inputs
            &&& c.portfolio_beta == t.2
            &&& c.portfolio_expected_return == t.3
            &&& c.portfolio_actual_return == t.4
            &&& c.portfolio_alpha == t.5
            &&& c.return_variance == t.6
            &&& c.treynor_ratio == t.7
            &&& c.alpha_variance == t.8
            &&& c.positions.len() == live.len()
            &&& forall|k: int| 0 <= k < live.len() ==> row_matches(#[trigger] c.positions@[k], live[t.1[k]], t.0[t.1[k]])
        },
    }
}


/// Compute CAPM analytics of the live-priced positions. `betas` maps
/// tickers to betas (missing tickers use 1). `Ok(None)` when there are no
/// positions, the total value is not positive or no position has a live
/// price; `Err` where `rust_decimal` arithmetic overflows.
pub fn compute_capm(positions: &Vec<Position>, total_value: Dec, betas: &Vec<(String, Dec)>, inputs: &CAPMInputs)
    -> (r: Result<Option<PortfolioCAPM>, DecimalOverflow>)
    requires
        positions_valid(positions@),
        total_value.is_valid(),
        forall|i: int| 0 <= i < betas.len() ==> (#[trigger] betas@[i]).1.is_valid(),
        inputs.rf.is_valid(),
        inputs.rm.is_valid(),
    ensures
        positions@.len() == 0 || !dec_lt(crate::decimal::dec_zero(), total_value) || live_of(positions@).len() == 0
            ==> r == Ok::<Option<PortfolioCAPM>, DecimalOverflow>(None),
        !(positions@.len() == 0 || !dec_lt(crate::decimal::dec_zero(), total_value) || live_of(positions@).len() == 0)
            ==> match r {
            Ok(Some(c)) => capm_matches(c, live_of(positions@), total_value, betas@, *inputs),
            Ok(None) => false,
            Err(_) => capm_parts(live_of(positions@), total_value, betas@, *inputs) is None,
        },
{
    if positions.len() == 0 || !less_than(Dec::zero(), total_value) {
        return Ok(None);
    }
    let idx = live_indices(positions);
    let ghost live = live_of(positions@);
    proof {
        assert(idx@.map_values(|i: usize| positions@[i as int]).len() == idx.len());
    }
    if idx.len() == 0 {
        return Ok(None);
    }
    let n = idx.len();
    let rf = inputs.rf;
    let premium = match inputs.market_premium() {
        Some(p) => p,
        None => {
            return Err(DecimalOverflow);
        },
    };
    let mut ws: Vec<Dec> = Vec::new();
    let mut bs: Vec<Dec> = Vec::new();
    let mut exps: Vec<Dec> = Vec::new();
    let mut acts: Vec<Dec> = Vec::new();
    let mut als: Vec<Dec> = Vec::new();
    let mut trs: Vec<Option<Dec>> = Vec::new();
    let mut k: usize = 0;
    while k < n
        invariant
            k <= n == idx.len(),
            n > 0,
            positions@.len() > 0,
            dec_lt(crate::decimal::dec_zero(), total_value),
            live == live_of(positions@),
            live.len() == n,
            rf == inputs.rf,
            dec_sub(inputs.rm, inputs.rf) == Some(premium),
            positions_valid(positions@),
            forall|j: int| 0 <= j < idx.len() ==> #[trigger] idx@[j] < positions.len(),
            live == idx@.map_values(|i: usize| positions@[i as int]),
            total_value.is_valid(),
            rf.is_valid(),
            premium.is_valid(),
            forall|i: int| 0 <= i < betas.len() ==> (#[trigger] betas@[i]).1.is_valid(),
            ws.len() == k && bs.len() == k && exps.len() == k && acts.len() == k && als.len() == k && trs.len() == k,
            all_valid(ws@) && all_valid(bs@) && all_valid(acts@) && all_valid(als@),
            forall|j: int| 0 <= j < k ==> #[trigger] capm_row(live[j], total_value, betas@, rf, premium)
                == Some((ws@[j], bs@[j], exps@[j], acts@[j], als@[j], trs@[j])),
        decreases n - k,
    {
        proof {
            assert(live[k as int] == positions@[idx@[k as int] as int]);
        }
        match position_row(&positions[idx[k]], total_value, betas, rf, premium) {
            Some(t) => {
                ws.push(t.0);
                bs.push(t.1);
                exps.push(t.2);
                acts.push(t.3);
                als.push(t.4);
                trs.push(t.5);
            },
            None => {
                assert(!(forall|i: int| 0 <= i < live.len() ==> (#[trigger] capm_row(live[i], total_value, betas@, rf, premium)) is Some));
                return Err(DecimalOverflow);
            },
        }
        k = k + 1;
    }
    let ghost rows = Seq::new(n as nat, |i: int| (ws@[i], bs@[i], exps@[i], acts@[i], als@[i], trs@[i]));
    assert(capm_rows(live, total_value, betas@, rf, premium) == Some(rows));
    assert(als@ == Seq::new(rows.len(), |i: int| rows[i].4));
    let order = sort_descending(&als);
    let ghost ord = order@.map_values(|x: usize| x as int);
    assert(ord == alpha_order(rows));
    let mut sws: Vec<Dec> = Vec::new();
    let mut sbs: Vec<Dec> = Vec::new();
    let mut sacts: Vec<Dec> = Vec::new();
    let mut sals: Vec<Dec> = Vec::new();
    let mut rows_out: Vec<PositionCAPM> = Vec::new();
    let mut m: usize = 0;
    while m < n
        invariant
            m <= n == idx.len() == order.len() == ws.len() == bs.len() == exps.len() == acts.len() == als.len() == trs.len(),
            forall|j: int| 0 <= j < idx.len() ==> #[trigger] idx@[j] < positions.len(),
            forall|j: int| 0 <= j < order.len() ==> #[trigger] order@[j] < n,
            live == idx@.map_values(|i: usize| positions@[i as int]),
            ord == order@.map_values(|x: usize| x as int),
            rows == Seq::new(n as nat, |i: int| (ws@[i], bs@[i], exps@[i], acts@[i], als@[i], trs@[i])),
            all_valid(ws@) && all_valid(bs@) && all_valid(acts@) && all_valid(als@),
            all_valid(sws@) && all_valid(sbs@) && all_valid(sacts@) && all_valid(sals@),
            sws@ == column(rows, ord, 0).take(m as int),
            sbs@ == column(rows, ord, 1).take(m as int),
            sacts@ == column(rows, ord, 3).take(m as int),
            sals@ == column(rows, ord, 4).take(m as int),
            rows_out.len() == m,
            forall|q: int| 0 <= q < m ==> row_matches(#[trigger] rows_out@[q], live[ord[q]], rows[ord[q]]),
        decreases n - m,
    {
        let j = order[m];
        proof {
            assert(live[j as int] == positions@[idx@[j as int] as int]);
        }
        sws.push(ws[j]);
        sbs.push(bs[j]);
        sacts.push(acts[j]);
        sals.push(als[j]);
        rows_out.push(PositionCAPM {
            ticker: positions[idx[j]].ticker.clone(),
            weight: ws[j],
            beta: bs[j],
            expected_return: exps[j],
            actual_return: acts[j],
            alpha: als[j],
            treynor: trs[j],
        });
        m = m + 1;
        proof {
            assert(sws@ == column(rows, ord, 0).take(m as int));
            assert(sbs@ == column(rows, ord, 1).take(m as int));
            assert(sacts@ == column(rows, ord, 3).take(m as int));
            assert(sals@ == column(rows, ord, 4).take(m as int));
        }
    }
    proof {
        assert(sws@ == column(rows, ord, 0));
        assert(sbs@ == column(rows, ord, 1));
        assert(sacts@ == column(rows, ord, 3));
        assert(sals@ == column(rows, ord, 4));
    }
    let pb = match sum_products(&sws, &sbs) {
        Some(b) => round_dp(b, 4),
        None => {
            return Err(DecimalOverflow);
        },
    };
    let pe = match checked_mul(pb, premium) {
        Some(x) => match checked_add(rf, x) {
            Some(e) => round_dp(e, 4),
            None => {
                return Err(DecimalOverflow);
            },
        },
        None => {
            return Err(DecimalOverflow);
        },
    };
    let pa = match sum_products(&sws, &sacts) {
        Some(a) => round_dp(a, 4),
        None => {
            return Err(DecimalOverflow);
        },
    };
    let pl = match sum_products(&sws, &sals) {
        Some(a) => round_dp(a, 4),
        None => {
            return Err(DecimalOverflow);
        },
    };
    let rv = match variance(&sacts) {
        Some(v) => v,
        None => {
            return Err(DecimalOverflow);
        },
    };
    let treynor = if less_than(Dec { negative: false, magnitude: 1, scale: 4 }, abs(pb)) {
        match checked_sub(pa, rf) {
            Some(d) => match checked_div(d, pb) {
                Some(t) => Some(round_dp(t, 4)),
                None => {
                    return Err(DecimalOverflow);
                },
            },
            None => {
                return Err(DecimalOverflow);
            },
        }
    } else {
        None
    };
    let av = match variance(&sals) {
        Some(v) => v,
        None => {
            return Err(DecimalOverflow);
        },
    };
    Ok(Some(PortfolioCAPM {
        inputs: *inputs,
        portfolio_beta: pb,
        portfolio_expected_return: pe,
        portfolio_alpha: pl,
        treynor_ratio: treynor,
        portfolio_actual_return: pa,
        return_variance: rv,
        alpha_variance: av,
        positions: rows_out,
    }))
}

/// Sharpe or information ratio once the standard deviation `sigma` is
/// known: `numerator / sigma` to four decimals.
pub fn ratio_to_sigma(numerator: Dec, sigma: Dec) -> (r: Option<Dec>)
    requires
        numerator.is_valid(),
        sigma.is_valid(),
    ensures
        r == (match decimal_quotient(numerator, sigma) {
            Some(q) => Some(dec_round_dp(q, 4)),
            None => None::<Dec>,
        }),
{
    match checked_div(numerator, sigma) {
        Some(q) => Some(round_dp(q, 4)),
        None => None,
    }
}


/// How a beta reads: below 0.5 defensive, below 0.8 below the market,
/// below 1.2 with the market, below 1.5 above it, else aggressive.
pub fn beta_label(b: Dec) -> (r: &'static str)
    requires
        b.is_valid(),
    ensures
        r@ == (if dec_lt(b, Dec { negative: false, magnitude: 5, scale: 1 }) { "Defensive"@ }
            else if dec_lt(b, Dec { negative: false, magnitude: 8, scale: 1 }) { "Below market"@ }
            else if dec_lt(b, Dec { negative: false, magnitude: 12, scale: 1 }) { "Moves with the market"@ }
            else if dec_lt(b, Dec { negative: false, magnitude: 15, scale: 1 }) { "Above market"@ }
            else { "Aggressive"@ }),
{
    if less_than(b, Dec { negative: false, magnitude: 5, scale: 1 }) {
        "Defensive"
    } else if less_than(b, Dec { negative: false, magnitude: 8, scale: 1 }) {
        "Below market"
    } else if less_than(b, Dec { negative: false, magnitude: 12, scale: 1 }) {
        "Moves with the market"
    } else if less_than(b, Dec { negative: false, magnitude: 15, scale: 1 }) {
        "Above market"
    } else {
        "Aggressive"
    }
}

/// The per-position rows of a CAPM result run best alpha first, and they
/// are the live positions' rows, each exactly once: row `k` is that of
/// position `order[k]` for a permutation `order` of the positions.
pub proof fn lemma_capm_rows_best_alpha_first(c: PortfolioCAPM, live: Seq<Position>, total: Dec, betas: Seq<(String, Dec)>, inputs: CAPMInputs)
    requires
        capm_matches(c, live, total, betas, inputs),
    ensures
        c.positions@.len() == live.len(),
        forall|x: int, y: int| 0 <= x < y < c.positions@.len() ==> !dec_lt(c.positions@[x].alpha, c.positions@[y].alpha),
        exists|order: Seq<int>| {
            &&& order.len() == live.len()
            &&& forall|k: int| 0 <= k < order.len() ==> 0 <= #[trigger] order[k] < live.len()
            &&& forall|x: int, y: int| 0 <= x < y < order.len() ==> order[x] != order[y]
            &&& forall|k: int| 0 <= k < order.len() ==> row_matches(#[trigger] c.positions@[k], live[order[k]],
                capm_row(live[order[k]], total, betas, inputs.rf, dec_sub(inputs.rm, inputs.rf)->0)->0)
        },
{
    let t = capm_parts(live, total, betas, inputs)->0;
    let premium = dec_sub(inputs.rm, inputs.rf)->0;
    let rows = t.0;
    assert(rows == capm_rows(live, total, betas, inputs.rf, premium)->0);
    assert(rows.len() == live.len());
    let keys = Seq::new(rows.len(), |i: int| rows[i].4);
    let order = t.1;
    assert(order == descending_order(keys, rows.len()));
    crate::decimal::lemma_descending_order_sorted(keys, rows.len());
    assert forall|x: int, y: int| 0 <= x < y < c.positions@.len() implies !dec_lt(c.positions@[x].alpha, c.positions@[y].alpha) by {
        assert(row_matches(c.positions@[x], live[order[x]], rows[order[x]]));
        assert(row_matches(c.positions@[y], live[order[y]], rows[order[y]]));
        assert(keys[order[x]] == rows[order[x]].4);
        assert(keys[order[y]] == rows[order[y]].4);
    }
    assert forall|k: int| 0 <= k < order.len() implies row_matches(#[trigger] c.positions@[k], live[order[k]],
        capm_row(live[order[k]], total, betas, inputs.rf, premium)->0) by {
        assert(row_matches(c.positions@[k], live[order[k]], rows[order[k]]));
        assert(rows[order[k]] == capm_row(live[order[k]], total, betas, inputs.rf, premium)->0);
    }
}

} // verus!
