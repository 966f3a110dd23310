use ui::decimal::{dec_to_string, normalize, Dec};
use ui::holdings::{fmt_signed, fmt_usd, lookup_or_zero, portfolio_stats, Asset, FlashDir};
use ui::mpt::Position;
use ui::portfolio::{allocation, day_change_pct, pct, priced_weights};
use ui::transaction::{compute_realized_pnl, is_cash_kind, Transaction, TransactionType};

fn val(d: Dec) -> String {
    dec_to_string(normalize(d))
}

fn position(ticker: &str, price: i64, value: i64) -> Position {
    Position {
        ticker: ticker.to_string(),
        current_price: Dec::new(price, 0),
        market_value: Dec::new(value, 0),
        unrealized_pnl: Dec::zero(),
        unrealized_pnl_pct: Dec::zero(),
        daily_change_pct: Dec::zero(),
    }
}

fn tx(ticker: &str, kind: TransactionType, shares: i64, price: i64) -> Transaction {
    Transaction {
        id: 0,
        portfolio_id: 0,
        ticker: ticker.to_string(),
        transaction_type: kind,
        shares: Dec::new(shares, 0),
        price: Dec::new(price, 0),
        date: "2026-01-02".to_string(),
        fee: Dec::zero(),
        currency: "USD".to_string(),
        fx_to_usd: Dec::one(),
    }
}

#[test]
fn day_change_from_previous_close() {
    assert_eq!(val(day_change_pct(Dec::new(110, 0), Dec::new(100, 0)).unwrap()), "10");
    assert_eq!(val(day_change_pct(Dec::new(95, 0), Dec::new(100, 0)).unwrap()), "-5");
    assert_eq!(day_change_pct(Dec::new(95, 0), Dec::zero()).unwrap(), Dec::zero());
}

#[test]
fn percent_of_a_positive_whole() {
    assert_eq!(val(pct(Dec::new(25, 0), Dec::new(200, 0)).unwrap()), "12.5");
    assert_eq!(pct(Dec::new(25, 0), Dec::zero()).unwrap(), Dec::zero());
    assert_eq!(pct(Dec::new(25, 0), Dec::new(-3, 0)).unwrap(), Dec::zero());
}

fn holdings() -> Vec<Position> {
    vec![position("A", 10, 600), position("B", 5, 400), position("C", 0, 300), position("D", 2, 600)]
}

#[test]
fn allocation_is_largest_first_and_stable() {
    let rows: Vec<(String, String)> = allocation(&holdings(), Dec::new(1600, 0))
        .unwrap()
        .into_iter()
        .map(|(t, w)| (t, val(w)))
        .collect();
    assert_eq!(
        rows,
        vec![
            ("A".to_string(), "37.5".to_string()),
            ("D".to_string(), "37.5".to_string()),
            ("B".to_string(), "25".to_string()),
        ]
    );
    let zero = allocation(&holdings(), Dec::zero()).unwrap();
    assert!(zero.iter().all(|(_, w)| *w == Dec::zero()));
}

#[test]
fn current_weights_round_to_whole_percents() {
    let rows = priced_weights(&holdings()).unwrap();
    let expect: Vec<(String, String)> =
        vec![("A".into(), "38".into()), ("D".into(), "38".into()), ("B".into(), "25".into())];
    assert_eq!(rows, expect);
    assert!(priced_weights(&vec![position("C", 0, 300)]).unwrap().is_empty());
    assert!(priced_weights(&vec![position("E", 1, 0)]).unwrap().is_empty());
}

#[test]
fn holdings_table_summary() {
    let assets = vec![
        Asset { ticker: "A".into(), quantity: Dec::new(10, 0), cost: Dec::new(100, 0) },
        Asset { ticker: "B".into(), quantity: Dec::new(5, 0), cost: Dec::new(20, 0) },
    ];
    let prices = vec![("A".to_string(), Dec::new(110, 0))];
    let changes = vec![("A".to_string(), Dec::new(2, 0)), ("B".to_string(), Dec::new(9, 0))];
    let (n, cost, value, day, pnl) = portfolio_stats(&assets, &prices, &changes).unwrap();
    assert_eq!(n, 2);
    assert_eq!(val(cost), "1100");
    assert_eq!(val(value), "1100");
    assert_eq!(val(day), "22");
    assert_eq!(val(pnl), "0");
    assert_eq!(val(lookup_or_zero(&prices, &"B".to_string())), "0");
    let (n, cost, ..) = portfolio_stats(&vec![], &prices, &changes).unwrap();
    assert_eq!((n, val(cost)), (0, "0".to_string()));
}

#[test]
fn holdings_table_amounts_keep_the_minus_sign() {
    assert_eq!(fmt_usd(Dec::new(-1, 3), 2).unwrap(), "-$0.00");
    assert_eq!(fmt_usd(Dec::new(1234567891, 3), 2).unwrap(), "$1,234,567.89");
    assert_eq!(fmt_usd(Dec::new(999, 0), 0).unwrap(), "$999");
    assert_eq!(fmt_signed(Dec::new(3, 0), 2).unwrap(), "+$3.00");
    assert_eq!(fmt_signed(Dec::new(-35, 1), 2).unwrap(), "-$3.50");
    assert_eq!(FlashDir::Up.class(), "price-flash-up");
    assert_eq!(FlashDir::Down.class(), "price-flash-down");
    assert_eq!(FlashDir::Steady.class(), "");
}

#[test]
fn realized_gain_uses_average_cost() {
    let txs = vec![
        tx("A", TransactionType::Buy, 10, 100),
        tx("A", TransactionType::Buy, 10, 110),
        tx("A", TransactionType::Sell, 5, 120),
        tx("A", TransactionType::Sell, 20, 1),
        tx("Z", TransactionType::Sell, 1, 50),
        tx("A", TransactionType::Dividend, 0, 7),
    ];
    assert_eq!(val(compute_realized_pnl(&txs).unwrap()), "75");
    let mut more = txs;
    more.push(tx("A", TransactionType::Sell, 15, 100));
    more.push(tx("B", TransactionType::Buy, 2, 10));
    more.push(tx("B", TransactionType::Sell, 2, 13));
    assert_eq!(val(compute_realized_pnl(&more).unwrap()), "6");
}

#[test]
fn realized_gain_without_sales_is_zero() {
    let txs = vec![tx("A", TransactionType::Buy, 3, 10), tx("USD", TransactionType::Deposit, 100, 1)];
    assert_eq!(compute_realized_pnl(&txs).unwrap(), Dec::zero());
    assert_eq!(compute_realized_pnl(&vec![]).unwrap(), Dec::zero());
}

#[test]
fn selling_from_an_empty_position_divides_by_zero() {
    let txs = vec![tx("A", TransactionType::Buy, 0, 10), tx("A", TransactionType::Sell, 0, 10)];
    assert!(compute_realized_pnl(&txs).is_none());
}

#[test]
fn cash_kinds() {
    assert!(is_cash_kind(&TransactionType::Deposit));
    assert!(is_cash_kind(&TransactionType::Withdrawal));
    assert!(!is_cash_kind(&TransactionType::Buy));
}
