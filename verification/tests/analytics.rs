use ui::capm::{beta_label, compute_capm, lookup_beta, ratio_to_sigma, CAPMInputs};
use ui::decimal::{dec_to_string, normalize, Dec};
use ui::mpt::{compute_mpt, concentration, ConcentrationRisk, Position};

fn val(d: Dec) -> String {
    dec_to_string(normalize(d))
}

fn position(ticker: &str, price: i64, value: i64, pnl: i64, pct: Dec) -> Position {
    Position {
        ticker: ticker.to_string(),
        current_price: Dec::new(price, 0),
        market_value: Dec::new(value, 0),
        unrealized_pnl: Dec::new(pnl, 0),
        unrealized_pnl_pct: pct,
        daily_change_pct: Dec::zero(),
    }
}

fn book() -> Vec<Position> {
    vec![
        position("A", 10, 600, 100, Dec::new(20, 0)),
        position("B", 5, 400, -50, Dec::new(-1111, 2)),
        position("C", 0, 300, 0, Dec::zero()),
    ]
}

#[test]
fn mpt_of_two_live_positions() {
    let a = compute_mpt(&book(), Dec::new(1000, 0)).unwrap().unwrap();
    assert_eq!(val(a.hhi), "0.52");
    assert_eq!(val(a.effective_n), "1.92");
    assert_eq!(a.concentration_risk, ConcentrationRisk::High);
    assert_eq!(a.top_holding.0, "A");
    assert_eq!(val(a.top_holding.1), "60");
    assert_eq!(val(a.win_rate), "50");
    assert_eq!(val(a.weighted_avg_return), "7.56");
    assert_eq!(val(a.return_variance), "241.958025");
    assert_eq!(val(a.diversification_score), "96");
    assert_eq!(a.live_positions, 2);
    let rows: Vec<(String, String)> = a.weights.iter().map(|(t, w)| (t.clone(), val(*w))).collect();
    assert_eq!(rows, vec![("A".to_string(), "60".to_string()), ("B".to_string(), "40".to_string())]);
}

#[test]
fn mpt_needs_live_positions_and_value() {
    assert!(compute_mpt(&vec![], Dec::new(1000, 0)).unwrap().is_none());
    assert!(compute_mpt(&book(), Dec::zero()).unwrap().is_none());
    let dead = vec![position("C", 0, 300, 0, Dec::zero())];
    assert!(compute_mpt(&dead, Dec::new(300, 0)).unwrap().is_none());
}

#[test]
fn single_position_scores_zero_diversification() {
    let one = vec![position("A", 10, 500, 0, Dec::zero())];
    let a = compute_mpt(&one, Dec::new(500, 0)).unwrap().unwrap();
    assert_eq!(val(a.hhi), "1");
    assert_eq!(val(a.effective_n), "1");
    assert_eq!(val(a.diversification_score), "0");
    assert_eq!(val(a.win_rate), "0", "break-even is no gain");
    let gaining = vec![position("A", 10, 500, 1, Dec::zero()), position("B", 10, 500, 0, Dec::zero())];
    let b = compute_mpt(&gaining, Dec::new(1000, 0)).unwrap().unwrap();
    assert_eq!(val(b.win_rate), "50");
}

#[test]
fn concentration_buckets_and_labels() {
    assert_eq!(concentration(Dec::new(14, 2)), ConcentrationRisk::Low);
    assert_eq!(concentration(Dec::new(15, 2)), ConcentrationRisk::Moderate);
    assert_eq!(concentration(Dec::new(25, 2)), ConcentrationRisk::High);
    assert_eq!(ConcentrationRisk::Low.label(), "Low");
    assert_eq!(ConcentrationRisk::Moderate.color(), "text-ctp-yellow");
    assert_eq!(ConcentrationRisk::High.bar_color(), "bg-ctp-red");
}

#[test]
fn capm_of_two_positions() {
    let betas = vec![("A".to_string(), Dec::new(12, 1))];
    let inputs = CAPMInputs::default();
    assert_eq!(val(inputs.market_premium().unwrap()), "4.75");
    let c = compute_capm(&book(), Dec::new(1000, 0), &betas, &inputs).unwrap().unwrap();
    assert_eq!(val(c.portfolio_beta), "1.12");
    assert_eq!(val(c.portfolio_expected_return), "10.57");
    assert_eq!(val(c.portfolio_actual_return), "7.556");
    assert_eq!(val(c.portfolio_alpha), "-3.014");
    assert_eq!(val(c.return_variance), "241.958025");
    assert_eq!(val(c.alpha_variance), "227.4064");
    assert_eq!(val(c.treynor_ratio.unwrap()), "2.0589");
    assert_eq!(c.positions.len(), 2);
    let a = &c.positions[0];
    assert_eq!(a.ticker, "A");
    assert_eq!(val(a.weight), "0.6");
    assert_eq!(val(a.beta), "1.2");
    assert_eq!(val(a.expected_return), "10.95");
    assert_eq!(val(a.actual_return), "20");
    assert_eq!(val(a.alpha), "9.05");
    assert_eq!(val(a.treynor.unwrap()), "12.2917");
    let b = &c.positions[1];
    assert_eq!(b.ticker, "B");
    assert_eq!(val(b.beta), "1");
    assert_eq!(val(b.alpha), "-21.11");
    assert_eq!(val(b.treynor.unwrap()), "-16.36");
}

#[test]
fn capm_sorts_by_alpha_and_skips_tiny_betas() {
    let betas = vec![("A".to_string(), Dec::new(-1, 1)), ("B".to_string(), Dec::new(1, 5))];
    let c = compute_capm(&book(), Dec::new(1000, 0), &betas, &CAPMInputs::default()).unwrap().unwrap();
    // A: expected 5.25 - 0.475 = 4.775, alpha 15.225; B: beta ≈ 0, no Treynor.
    assert_eq!(c.positions[0].ticker, "A");
    assert_eq!(val(c.positions[0].alpha), "15.225");
    assert!(c.positions[1].treynor.is_none());
    assert!(compute_capm(&vec![], Dec::new(1, 0), &betas, &CAPMInputs::default()).unwrap().is_none());
}

#[test]
fn betas_default_to_the_market() {
    let betas = vec![("A".to_string(), Dec::new(12, 1)), ("A".to_string(), Dec::new(2, 0))];
    assert_eq!(val(lookup_beta(&betas, &"A".to_string())), "1.2");
    assert_eq!(val(lookup_beta(&betas, &"Z".to_string())), "1");
}

#[test]
fn beta_labels() {
    assert_eq!(beta_label(Dec::new(49, 2)), "Defensive");
    assert_eq!(beta_label(Dec::new(5, 1)), "Below market");
    assert_eq!(beta_label(Dec::new(1, 0)), "Moves with the market");
    assert_eq!(beta_label(Dec::new(12, 1)), "Above market");
    assert_eq!(beta_label(Dec::new(15, 1)), "Aggressive");
}

#[test]
fn ratio_over_sigma_rounds_to_four_places() {
    assert_eq!(val(ratio_to_sigma(Dec::new(2306, 3), Dec::new(3, 0)).unwrap()), "0.7687");
    assert!(ratio_to_sigma(Dec::new(1, 0), Dec::zero()).is_none());
}
