use ui::compare::{group_measures, measure_table, quarter_label, Better, PeriodFinancials, Unit};
use ui::dashboard::dashboard_title;
use ui::market::{refresh_step, RefreshStep, REFRESH_MS, RETRY_MS};
use ui::notify::Toasts;
use ui::performance_chart::{follow_portfolio, holdings_pick, pick_name, portfolio_name, Pick};

#[test]
fn toasts_get_fresh_ids_and_dismiss_by_id() {
    let mut toasts = Toasts::new();
    let a = toasts.show("Saved".into(), "".into());
    let b = toasts.show("Alert".into(), "NVDA crossed $100".into());
    assert_eq!((a, b), (0, 1));
    assert_eq!(toasts.list.len(), 2);
    toasts.dismiss(a);
    assert_eq!(toasts.list.len(), 1);
    assert_eq!(toasts.list[0].title, "Alert");
    toasts.dismiss(a);
    assert_eq!(toasts.list.len(), 1);
    let c = toasts.show("Again".into(), "".into());
    assert_eq!(c, 2);
    toasts.dismiss(c);
    assert_eq!(toasts.list.len(), 1);
    assert_eq!(toasts.list[0].id, 1);
}

#[test]
fn measures_group_by_consecutive_section() {
    let ms: Vec<(String, String)> = vec![
        ("Valuation".into(), "Market cap".into()),
        ("Valuation".into(), "P/E".into()),
        ("Growth".into(), "Revenue".into()),
        ("Valuation".into(), "P/B".into()),
    ];
    let g = group_measures(&ms);
    assert_eq!(g.len(), 3);
    assert_eq!(g[0].0, "Valuation");
    assert_eq!(g[0].1, vec![(0, "Market cap".to_string()), (1, "P/E".to_string())]);
    assert_eq!(g[1].1, vec![(2, "Revenue".to_string())]);
    assert_eq!(g[2].1, vec![(3, "P/B".to_string())]);
    assert!(group_measures(&vec![]).is_empty());
}

#[test]
fn quarters_from_end_dates() {
    let q = |d: Option<&str>| PeriodFinancials { end_date: d.map(|s| s.to_string()), period: "FY".to_string() };
    assert_eq!(quarter_label(&q(Some("2026-09-30"))), "Q3 '26");
    assert_eq!(quarter_label(&q(Some("2025-12-31"))), "Q4 '25");
    assert_eq!(quarter_label(&q(Some("2025-01"))), "Q1 '25");
    assert_eq!(quarter_label(&q(Some("2025-xx-01"))), "Q4 '25");
    assert_eq!(quarter_label(&q(Some("2025-1"))), "FY");
    assert_eq!(quarter_label(&q(None)), "FY");
}

#[test]
fn line_names() {
    let portfolios = vec![("p1".to_string(), "Retirement".to_string())];
    assert_eq!(pick_name(&Pick::AllHoldings, &portfolios), "All holdings");
    assert_eq!(pick_name(&Pick::Portfolio("p1".into()), &portfolios), "Retirement");
    assert_eq!(pick_name(&Pick::Portfolio("p2".into()), &portfolios), "Portfolio");
    assert_eq!(pick_name(&Pick::Ticker("^NDX".into()), &portfolios), "Nasdaq 100");
    assert_eq!(pick_name(&Pick::Ticker("AAPL".into()), &portfolios), "AAPL");
    assert!(matches!(holdings_pick(None), Pick::AllHoldings));
    assert!(matches!(holdings_pick(Some("p1".into())), Pick::Portfolio(id) if id == "p1"));
}

use ui::calendar::LabelStyle;
use ui::performance::{last_session_start, point_labels, window_floor, window_start, LineStart};

const DAY: i64 = 86_400;

#[test]
fn window_starts_at_first_trade_or_previous_close() {
    let timeline = vec![DAY - 60, DAY + 10, DAY + 20, 2 * DAY + 5, 2 * DAY + 9];
    assert_eq!(last_session_start(&timeline), 3);
    assert_eq!(last_session_start(&vec![]), 0);
    assert_eq!(window_floor(&timeline, true), 2);
    assert_eq!(window_floor(&timeline, false), 0);
    let ticker = LineStart { is_holdings: false, held_at_start: false, first_trade_step: Some(1) };
    let later = LineStart { is_holdings: true, held_at_start: false, first_trade_step: Some(4) };
    let earlier = LineStart { is_holdings: true, held_at_start: false, first_trade_step: Some(2) };
    let held = LineStart { is_holdings: true, held_at_start: true, first_trade_step: Some(3) };
    assert_eq!(window_start(0, &vec![ticker]), 0);
    assert_eq!(window_start(0, &vec![later]), 3);
    assert_eq!(window_start(0, &vec![later, earlier]), 1);
    assert_eq!(window_start(2, &vec![LineStart { is_holdings: true, held_at_start: false, first_trade_step: Some(1) }]), 2);
    assert_eq!(window_start(0, &vec![later, held]), 0);
}

#[test]
fn labels_from_the_window_start() {
    let timeline = vec![20_454 * DAY - 3600, 20_454 * DAY, 20_454 * DAY + 1800];
    let labels = point_labels(&timeline, 1, LabelStyle::Time, true, 1);
    assert_eq!(labels, vec!["Prev close".to_string(), "07:30".to_string()]);
    let labels = point_labels(&timeline, 0, LabelStyle::Time, false, 0);
    assert_eq!(labels, vec!["06:00".to_string(), "07:00".to_string(), "07:30".to_string()]);
}

#[test]
fn measure_table_lists_every_measure_in_order() {
    let rows = measure_table();
    assert_eq!(rows.len(), 18);
    assert_eq!((rows[0].0.as_str(), rows[0].1.as_str(), rows[0].2, rows[0].3), ("Valuation", "Market cap", Unit::Money, Better::Neutral));
    assert_eq!((rows[6].0.as_str(), rows[6].1.as_str(), rows[6].2, rows[6].3), ("Profitability", "Gross margin", Unit::Percent, Better::Higher));
    assert_eq!((rows[17].0.as_str(), rows[17].1.as_str(), rows[17].2, rows[17].3), ("Analysts", "Rating (1 buy – 5 sell)", Unit::Number, Better::Lower));
    let groups = group_measures(&rows.iter().map(|r| (r.0.clone(), r.1.clone())).collect());
    let names: Vec<&str> = groups.iter().map(|g| g.0.as_str()).collect();
    assert_eq!(names, vec!["Valuation", "Profitability", "Growth", "Financial health", "Income", "Analysts"]);
}

fn keys(picks: &[Pick]) -> Vec<String> {
    picks
        .iter()
        .map(|p| match p {
            Pick::AllHoldings => "all".to_string(),
            Pick::Portfolio(id) => format!("p:{id}"),
            Pick::Ticker(t) => format!("t:{t}"),
        })
        .collect()
}

#[test]
fn chart_follows_the_chosen_portfolio() {
    let mut picks = vec![Pick::Ticker("^GSPC".to_string()), Pick::AllHoldings, Pick::Ticker("AAPL".to_string())];
    follow_portfolio(&mut picks, Some("p1".to_string()));
    assert_eq!(keys(&picks), vec!["t:^GSPC", "p:p1", "t:AAPL"]);
    follow_portfolio(&mut picks, None);
    assert_eq!(keys(&picks), vec!["t:^GSPC", "all", "t:AAPL"]);
    let mut only_index = vec![Pick::Ticker("^GSPC".to_string())];
    follow_portfolio(&mut only_index, Some("p2".to_string()));
    assert_eq!(keys(&only_index), vec!["t:^GSPC", "p:p2"]);
}

#[test]
fn market_refresh_keeps_good_data_and_retries_sooner() {
    assert_eq!(refresh_step(true, false), RefreshStep { show: false, wait_ms: RETRY_MS });
    assert_eq!(refresh_step(false, false), RefreshStep { show: true, wait_ms: 5_000 });
    assert_eq!(refresh_step(true, true), RefreshStep { show: true, wait_ms: 60_000 });
    assert_eq!(refresh_step(false, true), RefreshStep { show: true, wait_ms: REFRESH_MS });
}

#[test]
fn dashboard_title_names_the_chosen_portfolio() {
    let portfolios = vec![("a".to_string(), "Growth".to_string()), ("b".to_string(), "Income".to_string())];
    assert_eq!(dashboard_title(Some("b".to_string()), &portfolios), "Income");
    assert_eq!(dashboard_title(Some("z".to_string()), &portfolios), "Your portfolio");
    assert_eq!(dashboard_title(None, &portfolios), "Your portfolio");
    assert_eq!(portfolio_name(&portfolios, &"a".to_string()).as_deref(), Some("Growth"));
}
