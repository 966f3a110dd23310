use ui::decimal::Dec;
use ui::format::{fmt_shares, fmt_signed, fmt_usd, or_dash, signed_color};

fn usd(value: Dec, decimals: u32) -> String {
    fmt_usd(value, decimals, "$", Dec::one()).unwrap()
}

fn signed(value: Dec, decimals: u32) -> String {
    fmt_signed(value, decimals, "$", Dec::one()).unwrap()
}

#[test]
fn formats_usd() {
    assert_eq!(usd(Dec::new(1234567891, 3), 2), "$1,234,567.89");
    assert_eq!(usd(Dec::new(-125, 1), 2), "-$12.50");
    assert_eq!(usd(Dec::new(999, 0), 0), "$999");
    assert_eq!(usd(Dec::new(-1, 3), 2), "$0.00");
    assert_eq!(signed(Dec::new(3, 0), 2), "+$3.00");
    assert_eq!(or_dash(None::<f64>, |v| v.to_string()), "—");
    assert_eq!(fmt_shares(Dec::new(1405399, 6)), "1.4054");
    assert_eq!(fmt_shares(Dec::new(1500, 0)), "1,500");
    assert_eq!(fmt_shares(Dec::new(5000, 4)), "0.5");
}

#[test]
fn converts_to_display_currency() {
    let baht = Dec::new(325, 1);
    assert_eq!(fmt_usd(Dec::new(10, 0), 2, "฿", baht).unwrap(), "฿325.00");
    assert_eq!(fmt_signed(Dec::new(-2, 0), 2, "฿", baht).unwrap(), "-฿65.00");
    assert_eq!(fmt_usd(Dec::new(10, 0), 2, "$", Dec::one()).unwrap(), "$10.00");
}

#[test]
fn rounds_half_to_even_and_groups() {
    assert_eq!(usd(Dec::new(125, 3), 2), "$0.12");
    assert_eq!(usd(Dec::new(135, 3), 2), "$0.14");
    assert_eq!(usd(Dec::new(-1000000, 0), 0), "-$1,000,000");
    assert_eq!(usd(Dec::new(0, 0), 2), "$0.00");
    assert_eq!(usd(Dec::new(5, 1), 0), "$0");
    assert_eq!(signed(Dec::new(0, 0), 2), "+$0.00");
    assert_eq!(signed(Dec::new(-1, 2), 2), "-$0.01");
    assert_eq!(fmt_shares(Dec::new(-12345678, 3)), "-12,345.678");
    assert_eq!(fmt_shares(Dec::new(-1, 6)), "0");
    assert_eq!(or_dash(Some(2.5), |v| format!("{v}x")), "2.5x");
}

#[test]
fn overflowing_conversion_is_refused() {
    let huge = Dec { negative: false, magnitude: (1u128 << 96) - 1, scale: 0 };
    assert_eq!(fmt_usd(huge, 2, "$", Dec::new(10, 0)), None);
}

#[test]
fn colours_follow_the_sign() {
    assert_eq!(signed_color(Dec::new(0, 0)), "text-ctp-green");
    assert_eq!(signed_color(Dec::new(-1, 3)), "text-ctp-red");
    assert_eq!(signed_color(Dec { negative: true, magnitude: 0, scale: 2 }), "text-ctp-green");
}

#[test]
fn negative_zero_keeps_its_sign_through_arithmetic() {
    let minus_zero = Dec { negative: true, magnitude: 0, scale: 2 };
    let total = ui::decimal::sum(&vec![minus_zero]).unwrap();
    assert_eq!(ui::decimal::dec_to_string(total), "-0.00");
}
