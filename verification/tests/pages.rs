use ui::cache::{Cache, MAX_ENTRIES};
use ui::calendar_page::{month_label, month_label_from};
use ui::choices::{edge_state, tone, EdgeState, Grade, Span, Years};
use ui::dashboard::{describe, insights, replace_text};
use ui::decimal::{dec_to_string, normalize, Dec};
use ui::economy::{month_year, year_before};
use ui::editors::{fixed_to_string, num, TxForm};
use ui::i18n::{trf, Lang};
use ui::live_number::{align_right, next_roll, Roll};
use ui::mpt::Position;
use ui::transaction::{Transaction, TransactionType};

fn val(d: Dec) -> String {
    dec_to_string(normalize(d))
}

fn tx(kind: TransactionType, shares: Dec, price: Dec, fee: Dec) -> Transaction {
    Transaction {
        id: 7,
        portfolio_id: 3,
        ticker: "NVDA".to_string(),
        transaction_type: kind,
        shares,
        price,
        date: "2026-05-20".to_string(),
        fee,
        currency: "THB".to_string(),
        fx_to_usd: Dec::new(3, 2),
    }
}

#[test]
fn formats_levels_and_dates() {
    assert_eq!(month_year("2026-08-01"), "Aug 2026");
    assert_eq!(year_before("2026-02-28").as_deref(), Some("2025-02-28"));
}

#[test]
fn odd_dates_pass_through() {
    assert_eq!(month_year("2026-13-01"), "2026-13-01");
    assert_eq!(month_year("2026-8-01"), "2026-8-01");
    assert_eq!(month_year("bad"), "bad");
    assert_eq!(month_year("+999-12-01"), "Dec +999");
    assert_eq!(year_before("ab"), None);
    assert_eq!(year_before("é123-01"), None);
    assert_eq!(year_before("0001-01-01").as_deref(), Some("0-01-01"));
    assert_eq!(year_before("2026").as_deref(), Some("2025"));
}

#[test]
fn stores_by_key_and_type() {
    let mut cache: Cache<usize> = Cache::new();
    cache.put("a".into(), 5);
    assert_eq!(cache.get("a"), Some(&5));
    assert_eq!(cache.get("b"), None);
    for i in 0..MAX_ENTRIES + 5 {
        cache.put(format!("k{i}"), i);
    }
    assert_eq!(cache.get("a"), None, "oldest evicted");
    assert_eq!(cache.get(&format!("k{}", MAX_ENTRIES + 4)), Some(&(MAX_ENTRIES + 4)));
}

#[test]
fn cache_keeps_place_on_rewrite_and_caps_size() {
    let mut cache: Cache<u32> = Cache::new();
    cache.put("x".into(), 1);
    cache.put("y".into(), 2);
    cache.put("x".into(), 3);
    assert_eq!(cache.len(), 2);
    assert_eq!(cache.get("x"), Some(&3));
    for i in 0..MAX_ENTRIES as u32 {
        cache.put(format!("n{i}"), i);
    }
    assert_eq!(cache.len(), MAX_ENTRIES);
    assert_eq!(cache.get("x"), None);
    assert_eq!(cache.get("y"), None);
    assert_eq!(cache.get("n0"), Some(&0));
}

#[test]
fn rolls_only_changed_digits_in_direction_of_change() {
    let first = next_roll(&None, Dec::new(100, 0), &"100".to_string());
    assert!(first.is_none());
    let last = Some((Dec::new(100, 0), "100".to_string()));
    let (old, dir) = next_roll(&last, Dec::new(105, 0), &"105".to_string()).unwrap();
    assert_eq!((old.as_str(), dir), ("100", Roll::Up));
    let cells = align_right(&old.chars().collect(), 3);
    let changed = "105".chars().zip(cells.iter()).filter(|(c, o)| **o != Some(*c)).count();
    assert_eq!(changed, 1);

    let last = Some((Dec::new(105, 0), "105".to_string()));
    let (old, dir) = next_roll(&last, Dec::new(99, 0), &"99".to_string()).unwrap();
    assert_eq!(dir, Roll::Down);
    let cells = align_right(&old.chars().collect(), 2);
    assert_eq!(cells, vec![Some('0'), Some('5')]);

    let last = Some((Dec::new(99, 0), "99".to_string()));
    let (old, dir) = next_roll(&last, Dec::new(100, 0), &"100".to_string()).unwrap();
    assert_eq!(dir, Roll::Up);
    assert_eq!(align_right(&old.chars().collect(), 3), vec![None, Some('9'), Some('9')]);

    let unloaded = Some((Dec::zero(), "0".to_string()));
    assert!(next_roll(&unloaded, Dec::new(5, 0), &"5".to_string()).is_none());
    let same = Some((Dec::new(5, 0), "5".to_string()));
    assert!(next_roll(&same, Dec::new(5, 0), &"5".to_string()).is_none());
}

#[test]
fn fills_templates() {
    let args = vec!["VOO".to_string(), "$5".to_string()];
    assert_eq!(trf("{} would be worth {}", &args), "VOO would be worth $5");
    assert_eq!(trf("{} and {}", &vec!["a".to_string()]), "a and ");
    assert_eq!(trf("{{}}", &vec!["a".to_string()]), "{a}");
    assert_eq!(trf("no values", &args), "no values");
    assert_eq!(Lang::En.label(), "English");
    assert_eq!(Lang::Th.label(), "ไทย");
    assert_eq!(Lang::Th.key(), "th");
}

#[test]
fn describes_each_kind() {
    let d = describe(&tx(TransactionType::Buy, Dec::new(12, 0), Dec::new(35, 1), Dec::new(1, 0)), "$", Dec::one()).unwrap();
    assert_eq!(d.0, "bg-ctp-green/15 text-ctp-green");
    assert_eq!(d.1, "NVDA");
    assert_eq!(d.2, "12 shares @ $3.50 · fee $1.00");
    assert_eq!(d.3, "−$43.00");
    let s = describe(&tx(TransactionType::Sell, Dec::new(12, 0), Dec::new(35, 1), Dec::zero()), "$", Dec::one()).unwrap();
    assert_eq!((s.2.as_str(), s.3.as_str()), ("12 shares @ $3.50", "+$42.00"));
    let v = describe(&tx(TransactionType::Dividend, Dec::zero(), Dec::new(10, 0), Dec::new(15, 1)), "$", Dec::one()).unwrap();
    assert_eq!((v.2.as_str(), v.3.as_str()), ("Dividend received · tax $1.50", "+$8.50"));
    let p = describe(&tx(TransactionType::Split, Dec::new(400, 2), Dec::zero(), Dec::zero()), "$", Dec::one()).unwrap();
    assert_eq!((p.2.as_str(), p.3.as_str()), ("4-for-1 split", "—"));
    let c = describe(&tx(TransactionType::Deposit, Dec::new(1000, 0), Dec::one(), Dec::zero()), "฿", Dec::new(325, 1)).unwrap();
    assert_eq!((c.1.as_str(), c.2.as_str(), c.3.as_str()), ("Cash", "Deposit", "+฿32,500.00"));
    let w = describe(&tx(TransactionType::Withdrawal, Dec::new(10, 0), Dec::one(), Dec::new(2, 0)), "$", Dec::one()).unwrap();
    assert_eq!((w.2.as_str(), w.3.as_str()), ("Withdrawal · fee $2.00", "−$12.00"));
    let t = describe(&tx(TransactionType::Transfer, Dec::one(), Dec::one(), Dec::zero()), "$", Dec::one()).unwrap();
    assert_eq!((t.1.as_str(), t.2.as_str(), t.3.as_str()), ("NVDA", "Transfer", "—"));
}

#[test]
fn replaces_every_match() {
    assert_eq!(replace_text("a fee, fee!", "fee", "tax"), "a tax, tax!");
    assert_eq!(replace_text("aaa", "aa", "b"), "ba");
    assert_eq!(replace_text("", "x", "y"), "");
}

fn live(ticker: &str, value: i64, pnl: i64, pct: i64, day: i64) -> Position {
    Position {
        ticker: ticker.to_string(),
        current_price: Dec::one(),
        market_value: Dec::new(value, 0),
        unrealized_pnl: Dec::new(pnl, 0),
        unrealized_pnl_pct: Dec::new(pct, 0),
        daily_change_pct: Dec::new(day, 0),
    }
}

#[test]
fn insight_tiles() {
    let ps = vec![live("A", 300, 10, 5, 2), live("B", 500, -4, -2, -1), live("C", 200, 0, 5, 2), live("D", 100, 3, 1, -1)];
    let ins = insights(&ps, Dec::new(1100, 0)).unwrap().unwrap();
    assert_eq!(ins.best.0, "C");
    assert_eq!(ins.worst.0, "B");
    assert_eq!(ins.largest.0, "B");
    assert_eq!(val(ins.largest.1).get(..7), Some("45.4545"));
    assert_eq!(ins.largest_color, "text-ctp-yellow");
    assert_eq!(ins.largest_note, "Concentrated — consider trimming");
    assert_eq!((ins.winners, ins.priced), (2, 4));
    assert_eq!(ins.top_return.0, "C");
    let spread = vec![live("A", 20, 0, 0, 0), live("B", 80, 0, 0, 0)];
    let ins = insights(&spread, Dec::new(400, 0)).unwrap().unwrap();
    assert_eq!(val(ins.largest.1), "20");
    assert_eq!(ins.largest_note, "Well spread");
    let tiny = insights(&vec![live("A", 5, 0, 0, 0)], Dec::new(1, 2)).unwrap().unwrap();
    assert_eq!(val(tiny.largest.1), "500");
    assert!(insights(&vec![], Dec::one()).unwrap().is_none());
}

#[test]
fn month_labels() {
    assert_eq!(month_label("2026-10"), "October 2026");
    assert_eq!(month_label("2026-13"), "2026-13");
    assert_eq!(month_label("nope"), "nope");
    assert_eq!(month_label_from("x", Some((-5, 1, 1))), "January -0005");
    assert_eq!(month_label_from("x", Some((12345, 3, 1))), "March +12345");
    assert_eq!(month_label_from("x", Some((987, 2, 28))), "February 0987");
    assert_eq!(month_label_from("x", None), "x");
}

#[test]
fn reads_typed_numbers() {
    assert_eq!(val(num(" 1,000 ").unwrap()), "1000");
    assert_eq!(val(num("2.5").unwrap()), "2.5");
    assert!(num("abc").is_none());
    assert!(num("").is_none());
    assert_eq!(fixed_to_string(Dec::new(1239, 3), 2), "1.23");
    assert_eq!(fixed_to_string(Dec::new(5, 0), 2), "5.00");
    assert_eq!(fixed_to_string(Dec::new(-5, 3), 2), "-0.00");
    assert_eq!(fixed_to_string(Dec::new(7, 0), 0), "7");
}

fn form(kind: TransactionType) -> TxForm {
    TxForm {
        portfolio: Some(0),
        kind,
        ticker: "nvda".into(),
        date: "2026-05-20".into(),
        shares: "1,000".into(),
        price: "2.5".into(),
        fee: "".into(),
        currency: "USD".into(),
        saved_rate: None,
    }
}

const CASH_TICKER: &str = "CASH";

fn nvda() -> Option<String> {
    Some("NVDA".to_string())
}

fn same(a: &Transaction, b: &Transaction) -> bool {
    a.id == b.id
        && a.portfolio_id == b.portfolio_id
        && a.ticker == b.ticker
        && a.transaction_type == b.transaction_type
        && val(a.shares) == val(b.shares)
        && val(a.price) == val(b.price)
        && a.date == b.date
        && val(a.fee) == val(b.fee)
        && a.currency == b.currency
        && val(a.fx_to_usd) == val(b.fx_to_usd)
}

#[test]
fn builds_each_kind() {
    let buy = form(TransactionType::Buy).build(0, nvda()).unwrap();
    assert_eq!(
        (buy.ticker.as_str(), val(buy.shares), val(buy.price), val(buy.fee)),
        ("NVDA", "1000".to_string(), "2.5".to_string(), "0".to_string())
    );
    let div = form(TransactionType::Dividend).build(0, nvda()).unwrap();
    assert_eq!((val(div.shares), val(div.price)), ("0".to_string(), "2.5".to_string()));
    let dep = form(TransactionType::Deposit).build(0, Some(CASH_TICKER.to_string())).unwrap();
    assert_eq!(
        (dep.ticker.as_str(), val(dep.shares), val(dep.price)),
        (CASH_TICKER, "1000".to_string(), "1".to_string())
    );
    let bad = TxForm { price: "abc".into(), ..form(TransactionType::Buy) };
    assert!(bad.build(0, nvda()).is_err());
    let round_trip = TxForm::from_existing(Some(&buy), None);
    assert!(same(&round_trip.build(buy.id, nvda()).unwrap(), &buy));
}

#[test]
fn build_reports_the_first_missing_field() {
    let no_portfolio = TxForm { portfolio: None, ..form(TransactionType::Buy) };
    assert_eq!(no_portfolio.build(0, nvda()).err().as_deref(), Some("Choose a portfolio"));
    assert_eq!(form(TransactionType::Buy).build(0, None).err().as_deref(), Some("Enter a ticker, e.g. NVDA"));
    let no_shares = TxForm { shares: "x".into(), price: "y".into(), ..form(TransactionType::Sell) };
    assert_eq!(no_shares.build(0, nvda()).err().as_deref(), Some("Enter a number for shares"));
    let no_price = TxForm { price: "y".into(), ..form(TransactionType::Sell) };
    assert_eq!(no_price.build(0, nvda()).err().as_deref(), Some("Enter a number for the price"));
    let no_amount = TxForm { price: "".into(), ..form(TransactionType::Dividend) };
    assert_eq!(no_amount.build(0, nvda()).err().as_deref(), Some("Enter a number for the amount"));
    let no_ratio = TxForm { shares: "-".into(), ..form(TransactionType::Split) };
    assert_eq!(no_ratio.build(0, nvda()).err().as_deref(), Some("Enter a number for the ratio"));
    let bad_fee = TxForm { fee: "1.2.3".into(), ..form(TransactionType::Buy) };
    assert_eq!(bad_fee.build(0, nvda()).err().as_deref(), Some("Enter a number for the fee"));
    let fee = TxForm { fee: " 1,5 ".into(), ..form(TransactionType::Buy) };
    assert_eq!(val(fee.build(0, nvda()).unwrap().fee), "15");
    let split = form(TransactionType::Split).build(0, nvda()).unwrap();
    assert_eq!((val(split.shares), val(split.price)), ("1000".to_string(), "0".to_string()));
}

#[test]
fn keeps_a_foreign_rate_until_currency_or_date_changes() {
    let thb = TxForm { currency: "THB".into(), ..form(TransactionType::Buy) };
    assert_eq!(thb.build(0, nvda()).unwrap().fx_to_usd, Dec::zero(), "server looks it up");
    let saved = Transaction { fx_to_usd: Dec::new(3, 2), ..thb.build(0, nvda()).unwrap() };
    let edit = TxForm::from_existing(Some(&saved), None);
    assert_eq!(edit.build(saved.id, nvda()).unwrap().fx_to_usd, Dec::new(3, 2));
    let moved = TxForm { date: "2026-06-01".into(), ..TxForm::from_existing(Some(&saved), None) };
    assert_eq!(moved.build(saved.id, nvda()).unwrap().fx_to_usd, Dec::zero());
    let usd = TxForm { currency: "USD".into(), ..edit };
    assert_eq!(usd.build(saved.id, nvda()).unwrap().fx_to_usd, Dec::one());
}

#[test]
fn reads_the_settings_rates() {
    let (rf, ar) = ui::settings::parse_rates(" 4.25 ", "7").unwrap();
    assert_eq!((val(rf), val(ar)), ("4.25".to_string(), "7".to_string()));
    assert_eq!(ui::settings::parse_rates("4", "seven").err().as_deref(), Some("Enter numbers for the rates"));
    assert_eq!(ui::settings::parse_rates("1,000", "7").err().as_deref(), Some("Enter numbers for the rates"));
}

#[test]
fn reads_and_totals_target_rows() {
    let rows: Vec<(Option<String>, String)> = vec![
        (Some("VOO".into()), " 60 ".into()),
        (None, "10".into()),
        (Some("BND".into()), "abc".into()),
        (Some("VXUS".into()), "25.5".into()),
    ];
    let targets = ui::plan::parse_targets(&rows);
    let shown: Vec<(String, String)> = targets.iter().map(|(t, w)| (t.clone(), val(*w))).collect();
    assert_eq!(shown, vec![("VOO".to_string(), "60".to_string()), ("VXUS".to_string(), "25.5".to_string())]);
    assert_eq!(val(ui::plan::target_total(&targets).unwrap()), "85.5");
    assert_eq!(val(ui::plan::target_total(&vec![]).unwrap()), "0");
}

#[test]
fn form_totals_and_round_trip() {
    assert_eq!(form(TransactionType::Buy).total().unwrap().as_deref(), Some("2500.00 USD"));
    assert_eq!(form(TransactionType::Dividend).total().unwrap(), None);
    let bad = TxForm { price: "abc".into(), ..form(TransactionType::Sell) };
    assert_eq!(bad.total().unwrap(), None);
    let saved = tx(TransactionType::Deposit, Dec::new(100000, 2), Dec::one(), Dec::new(50, 2));
    let f = TxForm::from_existing(Some(&saved), None);
    assert_eq!((f.ticker.as_str(), f.shares.as_str(), f.fee.as_str()), ("", "1000", "0.5"));
    assert_eq!(f.portfolio, Some(3));
    let empty = TxForm::from_existing(None, Some(9));
    assert_eq!((empty.portfolio, empty.kind, empty.currency.as_str()), (Some(9), TransactionType::Buy, "USD"));
}

#[test]
fn fixed_choices() {
    assert_eq!(Span::Y2.label(), "2Y");
    assert_eq!(Span::Y5.days(), 1827);
    assert_eq!(Years::Ten.label(), "10 years");
    assert_eq!(Years::Five.months(), Some(61));
    assert_eq!(Years::Max.months(), None);
    assert_eq!(Grade::Moderate.label(), "Moderate risk");
    assert_eq!(Grade::High.pill(), "bg-ctp-red/15 text-ctp-red");
    assert_eq!(tone(false), "text-ctp-peach");
    assert_eq!(edge_state(None, 1, 2), EdgeState::Normal);
    assert_eq!(edge_state(Some(2), 1, 2), EdgeState::Highlighted);
    assert_eq!(edge_state(Some(0), 1, 2), EdgeState::Dimmed);
}

use ui::dashboard::{holding_color, holding_order, holding_weight, text_less, toggle_sort, SortKey};

#[test]
fn holdings_table_sorts_stably_by_column() {
    let rows = vec![
        live("MSFT", 300, 1, 5, 2),
        live("AAPL", 500, 1, -2, -1),
        live("NVDA", 300, 1, 9, 2),
        live("AMD", 100, 1, 1, -3),
    ];
    assert_eq!(holding_order(&rows, SortKey::Value, true), vec![1, 0, 2, 3]);
    assert_eq!(holding_order(&rows, SortKey::Value, false), vec![3, 0, 2, 1]);
    assert_eq!(holding_order(&rows, SortKey::Ticker, false), vec![1, 3, 0, 2]);
    assert_eq!(holding_order(&rows, SortKey::Ticker, true), vec![2, 0, 3, 1]);
    assert_eq!(holding_order(&rows, SortKey::Day, true), vec![0, 2, 1, 3]);
    assert_eq!(holding_order(&rows, SortKey::Return, true), vec![2, 0, 3, 1]);
    assert!(holding_order(&vec![], SortKey::Price, true).is_empty());
}

#[test]
fn sort_toggles_and_text_order() {
    assert_eq!(toggle_sort((SortKey::Value, true), SortKey::Value), (SortKey::Value, false));
    assert_eq!(toggle_sort((SortKey::Value, true), SortKey::Ticker), (SortKey::Ticker, false));
    assert_eq!(toggle_sort((SortKey::Ticker, false), SortKey::Price), (SortKey::Price, true));
    assert!(text_less(&"AB".to_string(), &"AC".to_string()));
    assert!(text_less(&"A".to_string(), &"AB".to_string()));
    assert!(!text_less(&"b".to_string(), &"B".to_string()));
    assert!(!text_less(&"X".to_string(), &"X".to_string()));
}

#[test]
fn holding_colours_and_weights() {
    let allocation: Vec<(String, Dec)> = (0..13).map(|i| (format!("T{i}"), Dec::one())).collect();
    assert_eq!(holding_color(&allocation, &"T0".to_string()), "bg-ctp-mauve");
    assert_eq!(holding_color(&allocation, &"T3".to_string()), "bg-ctp-peach");
    assert_eq!(holding_color(&allocation, &"T12".to_string()), "bg-ctp-mauve");
    assert_eq!(holding_color(&allocation, &"ZZ".to_string()), "bg-ctp-overlay0");
    assert_eq!(val(holding_weight(Dec::new(250, 0), Dec::new(1000, 0)).unwrap()), "25");
    assert_eq!(val(holding_weight(Dec::new(5, 1), Dec::zero()).unwrap()), "50");
}

#[test]
fn reopened_transaction_reads_back_without_trailing_zeros() {
    let saved = tx(
        TransactionType::Buy,
        Dec { negative: false, magnitude: 1000, scale: 2 },
        Dec { negative: false, magnitude: 12_500, scale: 3 },
        Dec { negative: false, magnitude: 0, scale: 2 },
    );
    let form = TxForm::from_existing(Some(&saved), None);
    assert_eq!((form.shares.as_str(), form.price.as_str(), form.fee.as_str()), ("10", "12.5", "0"));
    let again = form.build(saved.id, Some("NVDA".to_string())).unwrap();
    assert_eq!(again.shares, Dec { negative: false, magnitude: 10, scale: 0 });
    assert_eq!(again.price, Dec { negative: false, magnitude: 125, scale: 1 });
    assert_eq!(again.fee, Dec { negative: false, magnitude: 0, scale: 0 });
    assert_eq!(again.portfolio_id, saved.portfolio_id);
}

#[test]
fn reopened_cash_row_reads_its_amount_at_price_one() {
    let saved = tx(
        TransactionType::Deposit,
        Dec { negative: false, magnitude: 250_000, scale: 2 },
        Dec { negative: false, magnitude: 1, scale: 0 },
        Dec { negative: false, magnitude: 0, scale: 0 },
    );
    let form = TxForm::from_existing(Some(&saved), None);
    let again = form.build(saved.id, Some("CASH".to_string())).unwrap();
    assert_eq!(again.shares, Dec { negative: false, magnitude: 2500, scale: 0 });
    assert_eq!(again.price, Dec { negative: false, magnitude: 1, scale: 0 });
}

#[test]
fn typed_numbers_read_exactly() {
    assert_eq!(num("-0.05"), Some(Dec { negative: true, magnitude: 5, scale: 2 }));
    assert_eq!(num(" 1,234.50 "), Some(Dec { negative: false, magnitude: 123_450, scale: 2 }));
    assert_eq!(num("-0"), Some(Dec { negative: false, magnitude: 0, scale: 0 }));
}

#[test]
fn cache_put_then_get_without_preconditions() {
    let mut cache: Cache<u32> = Cache::new();
    cache.put("x".to_string(), 1);
    cache.put("y".to_string(), 2);
    cache.put("x".to_string(), 3);
    assert_eq!(cache.get("x"), Some(&3));
    assert_eq!(cache.get("y"), Some(&2));
    assert_eq!(cache.len(), 2);
}
