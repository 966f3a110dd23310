//! The transaction form: fields as typed, read back into numbers.

use rust_decimal::Decimal;
use vstd::prelude::*;
use vstd::string::StringExecFns;
use crate::dashboard::replaced;
use crate::decimal::{
    checked_mul, dec_normalize, dec_one, dec_text, dec_to_string, dec_zero, dec_mul,
    normalize, pow10, pow10_u128, Dec, DecimalOverflow,
};
use crate::parse::{chars_of, leading_ws, trailing_ws, trim_bounds, trimmed};
use crate::decimal::dec_digits_text;
use crate::text::{digits_value, is_digit, lemma_nat_text_value, lemma_zero_padded_value, nat_text, push_char, zero_padded};
use crate::transaction::{is_cash_kind, is_cash_kind_spec, Transaction, TransactionType};

verus! {

/// What `rust_decimal`'s `Decimal::from_str` reads from `text`.
pub uninterp spec fn decimal_from_str(text: Seq<char>) -> Option<Dec>;

/// A decimal that `to_string` writes in a form `from_str` reads back as
/// the same decimal: one `Decimal` holds, and not `-0` (which reads as `0`).
pub open spec fn reads_back(d: Dec) -> bool {
    d.is_valid() && !(d.negative && d.magnitude == 0)
}

/// `Decimal::from_str(text).ok()` (str.rs). A text that `to_string` writes
/// for a decimal that [`reads_back`] is read as that decimal: its digits
/// give the mantissa, the digits after the point the scale, a leading `-`
/// the sign. Which other texts it accepts, and how it rounds digits past
/// what fits, is `rust_decimal`'s grammar; that result is named.
#[verifier::external_body]
fn parse_decimal(text: &str) -> (r: Option<Dec>)
    ensures
        r == decimal_from_str(text@),
        forall|d: Dec| reads_back(d) && (#[trigger] dec_text(d)) == text@ ==> r == Some(d),
        r matches Some(d) ==> d.is_valid(),
{
    match text.parse::<Decimal>() {
        Ok(z) => Some(Dec { negative: z.is_sign_negative(), magnitude: z.mantissa().unsigned_abs(), scale: z.scale() }),
        Err(_) => None,
    }
}

/// `s` without its `.` characters.
pub open spec fn without_point(s: Seq<char>) -> Seq<char>
    decreases s.len(),
{
    if s.len() == 0 {
        s
    } else if s.last() == '.' {
        without_point(s.drop_last())
    } else {
        without_point(s.drop_last()).push(s.last())
    }
}

/// How many characters follow the last `.` of `s`.
pub open spec fn after_point(s: Seq<char>) -> nat
    decreases s.len(),
{
    if s.len() == 0 || s.last() == '.' {
        0
    } else {
        1 + after_point(s.drop_last())
    }
}

/// Whether `s` holds a `.`.
pub open spec fn has_point(s: Seq<char>) -> bool {
    exists|i: int| 0 <= i < s.len() && s[i] == '.'
}

/// The decimal a text of the shape `to_string` writes spells: a leading
/// `-` for the sign, the digits for the mantissa, the digits after the
/// point for the scale.
pub open spec fn decoded(t: Seq<char>) -> Dec {
    let negative = t.len() > 0 && t[0] == '-';
    let body = if negative { t.skip(1) } else { t };
    let scale = if has_point(body) { after_point(body) } else { 0 };
    Dec { negative, magnitude: digits_value(without_point(body)) as u128, scale: scale as u32 }
}

/// What `Decimal::from_str` reads from `t`: the decimal itself for the
/// text `to_string` writes for one that [`reads_back`], else the named
/// result.
pub open spec fn read_decimal(t: Seq<char>) -> Option<Dec> {
    if exists|d: Dec| reads_back(d) && (#[trigger] dec_text(d)) == t {
        Some(decoded(t))
    } else {
        decimal_from_str(t)
    }
}

proof fn lemma_digits_plain(s: Seq<char>)
    requires
        forall|i: int| 0 <= i < s.len() ==> is_digit(#[trigger] s[i]),
    ensures
        without_point(s) == s,
        after_point(s) == s.len(),
    decreases s.len(),
{
    if s.len() > 0 {
        lemma_digits_plain(s.drop_last());
        assert(without_point(s.drop_last()).push(s.last()) =~= s);
    }
}

proof fn lemma_point_split(x: Seq<char>, y: Seq<char>)
    requires
        forall|i: int| 0 <= i < x.len() ==> is_digit(#[trigger] x[i]),
        forall|i: int| 0 <= i < y.len() ==> is_digit(#[trigger] y[i]),
    ensures
        without_point(x + seq!['.'] + y) == x + y,
        after_point(x + seq!['.'] + y) == y.len(),
    decreases y.len(),
{
    let t = x + seq!['.'] + y;
    if y.len() == 0 {
        assert(t.drop_last() =~= x);
        assert(t.last() == '.');
        lemma_digits_plain(x);
        assert(x + y =~= x);
    } else {
        lemma_point_split(x, y.drop_last());
        assert(t.drop_last() =~= x + seq!['.'] + y.drop_last());
        assert(t.last() == y.last());
        assert(is_digit(y[y.len() - 1]));
        assert((x + y.drop_last()).push(y.last()) =~= x + y);
    }
}

/// The text `to_string` writes for a decimal that reads back spells it
/// again, and holds only digits, `.` and `-`, starting with a digit or
/// `-` and ending with a digit.
pub proof fn lemma_dec_text_decoded(d: Dec)
    requires
        reads_back(d),
    ensures
        decoded(dec_text(d)) == d,
        dec_text(d).len() >= 1,
        is_digit(dec_text(d)[0]) || dec_text(d)[0] == '-',
        is_digit(dec_text(d).last()),
        forall|i: int| 0 <= i < dec_text(d).len() ==> #[trigger] plain_char(dec_text(d)[i]),
{
    let m = d.magnitude as nat;
    let sc = d.scale as nat;
    let body = dec_digits_text(m, sc);
    let sign: Seq<char> = if d.negative { seq!['-'] } else { Seq::empty() };
    let t = dec_text(d);
    assert(t == sign + body);
    lemma_nat_text_value(m);
    if sc == 0 {
        lemma_digits_plain(body);
        assert(!(exists|i: int| 0 <= i < body.len() && body[i] == '.')) by {
            if exists|i: int| 0 <= i < body.len() && body[i] == '.' {
                let i = choose|i: int| 0 <= i < body.len() && body[i] == '.';
                assert(is_digit(body[i]));
            }
        }
        assert(is_digit(body[0]));
        assert(is_digit(body[body.len() - 1]));
        assert(digits_value(without_point(body)) == m);
    } else {
        lemma_zero_padded_value(m, sc + 1);
        let p = zero_padded(nat_text(m), sc + 1);
        let w = p.len() - sc;
        let x = p.take(w);
        let y = p.skip(w);
        assert forall|i: int| 0 <= i < x.len() implies is_digit(#[trigger] x[i]) by {
            assert(x[i] == p[i]);
        }
        assert forall|i: int| 0 <= i < y.len() implies is_digit(#[trigger] y[i]) by {
            assert(y[i] == p[i + w]);
        }
        lemma_point_split(x, y);
        assert(x + y =~= p);
        assert(body == x + seq!['.'] + y);
        assert(body[w] == '.');
        assert(exists|i: int| 0 <= i < body.len() && body[i] == '.');
        assert(after_point(body) == sc);
        assert(digits_value(without_point(body)) == m);
        assert(x.len() >= 1);
        assert(body[0] == x[0]);
        assert(is_digit(x[0]));
        assert(body[body.len() - 1] == y[y.len() - 1]);
        assert(is_digit(y[y.len() - 1]));
    }
    if d.negative {
        assert(t[0] == '-');
        assert(t.skip(1) =~= body);
        assert(d.magnitude != 0);
    } else {
        assert(t =~= body);
        assert(t[0] != '-');
    }
    assert(t.last() == body.last());
    let b2 = if t.len() > 0 && t[0] == '-' { t.skip(1) } else { t };
    assert(b2 == body);
    if sc > 0 {
        let p = zero_padded(nat_text(m), sc + 1);
        let w = p.len() - sc;
        assert(b2[w] == '.');
        assert(has_point(b2));
        assert(after_point(b2) == sc);
    } else {
        assert(!has_point(b2));
    }
    assert(decoded(t).negative == d.negative);
    assert(decoded(t).magnitude == d.magnitude);
    assert(decoded(t).scale == d.scale);
    assert forall|i: int| 0 <= i < t.len() implies #[trigger] plain_char(t[i]) by {
        if d.negative && i == 0 {
        } else {
            let j = if d.negative { i - 1 } else { i };
            assert(t[i] == body[j]);
            if sc == 0 {
                lemma_nat_text_value(m);
            } else {
                lemma_zero_padded_value(m, sc + 1);
                let p = zero_padded(nat_text(m), sc + 1);
                let w = p.len() - sc;
                if j < w {
                    assert(body[j] == p[j]);
                } else if j > w {
                    assert(body[j] == p[j - 1]);
                }
            }
        }
    }
}

/// A digit, `.` or `-`: what a decimal's text is made of.
pub open spec fn plain_char(c: char) -> bool {
    is_digit(c) || c == '.' || c == '-'
}

proof fn lemma_plain_trimmed(t: Seq<char>)
    requires
        t.len() >= 1,
        forall|i: int| 0 <= i < t.len() ==> #[trigger] plain_char(t[i]),
    ensures
        trimmed(t) == t,
        replaced(t, seq![','], Seq::empty()) == t,
{
    assert(plain_char(t[0]));
    assert(plain_char(t[t.len() - 1]));
    assert(leading_ws(t) == 0);
    assert(t.skip(0) =~= t);
    assert(trailing_ws(t) == 0);
    assert(t.take(t.len() as int) =~= t);
    lemma_plain_no_comma(t);
}

proof fn lemma_plain_no_comma(t: Seq<char>)
    requires
        forall|i: int| 0 <= i < t.len() ==> #[trigger] plain_char(t[i]),
    ensures
        replaced(t, seq![','], Seq::empty()) == t,
    decreases t.len(),
{
    if t.len() > 0 {
        let rest = t.skip(1);
        assert forall|i: int| 0 <= i < rest.len() implies #[trigger] plain_char(rest[i]) by {
            assert(rest[i] == t[i + 1]);
        }
        lemma_plain_no_comma(rest);
        assert(plain_char(t[0]));
        assert(t.take(1)[0] == t[0]);
        assert(t.take(1) != seq![',']);
        assert(seq![t[0]] + rest =~= t);
    }
}

/// The text `to_string` writes for a decimal that reads back, typed in a
/// field, reads as that decimal.
pub proof fn lemma_num_of_text(d: Dec)
    requires
        reads_back(d),
    ensures
        num_of(dec_text(d)) == Some(d),
{
    lemma_dec_text_decoded(d);
    lemma_plain_trimmed(dec_text(d));
    assert(read_decimal(dec_text(d)) == Some(decoded(dec_text(d))));
}

/// `Decimal::from_str`, as [`read_decimal`] describes it.
fn read_text(text: &str) -> (r: Option<Dec>)
    ensures
        r == read_decimal(text@),
        r matches Some(d) ==> d.is_valid(),
{
    let r = parse_decimal(text);
    proof {
        if exists|d: Dec| reads_back(d) && (#[trigger] dec_text(d)) == text@ {
            let d = choose|d: Dec| reads_back(d) && (#[trigger] dec_text(d)) == text@;
            lemma_dec_text_decoded(d);
        }
    }
    r
}

/// The number typed in a field: trimmed, thousands commas removed, then
/// read as a `Decimal`.
pub open spec fn num_of(s: Seq<char>) -> Option<Dec> {
    read_decimal(replaced(trimmed(s), seq![','], Seq::empty()))
}

/// The number typed in a field, if it is one.
pub fn num(s: &str) -> (r: Option<Dec>)
    ensures
        r == num_of(s@),
        r matches Some(d) ==> d.is_valid(),
{
    let t = chars_of(s);
    let (lo, hi) = trim_bounds(&t);
    let ghost comma = seq![','];
    let ghost whole = t@.subrange(lo as int, hi as int);
    let mut out = String::new();
    let mut i = lo;
    proof {
        assert(t@.subrange(lo as int, hi as int) == whole);
    }
    while i < hi
        invariant
            lo <= i <= hi <= t.len(),
            whole == t@.subrange(lo as int, hi as int),
            comma == seq![','],
            out@ + replaced(t@.subrange(i as int, hi as int), comma, Seq::empty()) == replaced(whole, comma, Seq::empty()),
        decreases hi - i,
    {
        let ghost rest = t@.subrange(i as int, hi as int);
        proof {
            assert(rest[0] == t@[i as int]);
            assert(rest.skip(1) == t@.subrange(i + 1, hi as int));
            assert(rest.take(1) == seq![t@[i as int]]);
        }
        if t[i] != ',' {
            proof {
                assert(rest.take(1)[0] != comma[0]);
                assert(replaced(rest, comma, Seq::empty()) == seq![rest[0]] + replaced(rest.skip(1), comma, Seq::empty()));
            }
            push_char(&mut out, t[i]);
            proof {
                assert(out@ + replaced(t@.subrange(i + 1, hi as int), comma, Seq::empty()) == replaced(whole, comma, Seq::empty()));
            }
        } else {
            proof {
                assert(rest.take(1) == comma);
                assert(replaced(rest, comma, Seq::empty()) == Seq::<char>::empty() + replaced(rest.skip(1), comma, Seq::empty()));
                assert(Seq::<char>::empty() + replaced(rest.skip(1), comma, Seq::empty()) == replaced(rest.skip(1), comma, Seq::empty()));
            }
        }
        i = i + 1;
    }
    proof {
        assert(t@.subrange(hi as int, hi as int) =~= Seq::<char>::empty());
        assert(out@ + Seq::<char>::empty() == out@);
    }
    read_text(out.as_str())
}

/// `s` without the white space around it (`str::trim`).
pub fn trim_text(s: &str) -> (r: String)
    ensures
        r@ == trimmed(s@),
{
    let t = chars_of(s);
    let (lo, hi) = trim_bounds(&t);
    let mut out = String::new();
    let mut i = lo;
    while i < hi
        invariant
            lo <= i <= hi <= t.len(),
            out@ == t@.subrange(lo as int, i as int),
        decreases hi - i,
    {
        push_char(&mut out, t[i]);
        i = i + 1;
        proof {
            assert(t@.subrange(lo as int, i as int) == t@.subrange(lo as int, i - 1).push(t@[i - 1]));
        }
    }
    out
}

/// `Decimal::from_str(s.trim())`: the trimmed text read as a `Decimal`.
pub fn parse_trimmed(s: &str) -> (r: Option<Dec>)
    ensures
        r == read_decimal(trimmed(s@)),
        r matches Some(d) ==> d.is_valid(),
{
    let t = trim_text(s);
    read_text(t.as_str())
}

/// `format!("{:.p$}", d)` for a `Decimal`: the digits cut (not rounded)
/// or padded with zeros to `p` decimals, a `-` when the sign bit is set.
pub open spec fn fixed_text(d: Dec, p: nat) -> Seq<char> {
    let m = if d.scale >= p {
        d.magnitude as nat / pow10((d.scale - p) as nat)
    } else {
        d.magnitude as nat * pow10((p - d.scale) as nat)
    };
    dec_text(Dec { negative: d.negative, magnitude: m as u128, scale: p as u32 })
}

/// `format!("{:.p$}", d)` for a `Decimal`.
pub fn fixed_to_string(d: Dec, p: u32) -> (r: String)
    requires
        d.is_valid(),
        p <= 9,
    ensures
        r@ == fixed_text(d, p as nat),
{
    let m: u128 = if d.scale >= p {
        proof {
            crate::decimal::lemma_pow10_positive((d.scale - p) as nat);
        }
        d.magnitude / pow10_u128(d.scale - p)
    } else {
        let k = p - d.scale;
        proof {
            crate::decimal::lemma_pow10_grows(k as nat, 9);
            reveal_with_fuel(pow10, 10);
            assert(d.magnitude * pow10(k as nat) <= 0x1_0000_0000_0000_0000_0000_0000 * 1_000_000_000) by (nonlinear_arith)
                requires
                    d.magnitude < 0x1_0000_0000_0000_0000_0000_0000,
                    pow10(k as nat) <= 1_000_000_000,
            ;
        }
        d.magnitude * pow10_u128(k)
    };
    dec_to_string(Dec { negative: d.negative, magnitude: m, scale: p })
}

/// The transaction form's fields as typed, before they are read.
pub struct TxForm {
    pub portfolio: Option<u128>,
    pub kind: TransactionType,
    pub ticker: String,
    pub date: String,
    pub shares: String,
    pub price: String,
    pub fee: String,
    /// Currency of price and fee.
    pub currency: String,
    /// The edited transaction's (currency, date, rate): the rate is kept
    /// unless the currency or date changes.
    pub saved_rate: Option<(String, String, Dec)>,
}

/// USD per unit for the saved transaction: 1 for US dollars, the saved
/// rate while currency and date are those it was saved with, else zero
/// (which asks the server to look up the trade date's rate).
pub open spec fn fx_rate_of(f: TxForm) -> Dec {
    if f.currency@ == "USD"@ {
        dec_one()
    } else {
        match f.saved_rate {
            Some(s) => if s.0@ == f.currency@ && s.1@ == f.date@ { s.2 } else { dec_zero() },
            None => dec_zero(),
        }
    }
}

/// `12.50 USD`: the value of a buy or sell as typed (shares times price,
/// cut to two decimals, then the currency); nothing when either field is
/// not a number or the kind is another. `Err` where the product overflows.
pub open spec fn total_of(f: TxForm) -> Result<Option<Seq<char>>, DecimalOverflow> {
    match (num_of(f.shares@), num_of(f.price@)) {
        (Some(s), Some(p)) => if f.kind == TransactionType::Buy || f.kind == TransactionType::Sell {
            match dec_mul(s, p) {
                None => Err(DecimalOverflow),
                Some(x) => Ok(Some(fixed_text(x, 2) + seq![' '] + f.currency@)),
            }
        } else {
            Ok(None)
        },
        _ => Ok(None),
    }
}


/// The number typed in `field`, or "Enter a number for {label}".
pub open spec fn need_of(field: Seq<char>, label: Seq<char>) -> Result<Dec, Seq<char>> {
    match num_of(field) {
        Some(x) => Ok(x),
        None => Err("Enter a number for "@ + label),
    }
}

/// (shares, price) of the form by kind: a dividend keeps its amount as
/// the price, a split its ratio as the shares, a cash row its amount as
/// the shares at price 1, a trade both.
pub open spec fn amounts_of(f: TxForm) -> Result<(Dec, Dec), Seq<char>> {
    if f.kind == TransactionType::Dividend {
        match need_of(f.price@, "the amount"@) {
            Ok(p) => Ok((dec_zero(), p)),
            Err(e) => Err(e),
        }
    } else if f.kind == TransactionType::Split {
        match need_of(f.shares@, "the ratio"@) {
            Ok(x) => Ok((x, dec_zero())),
            Err(e) => Err(e),
        }
    } else if is_cash_kind_spec(f.kind) {
        match need_of(f.shares@, "the amount"@) {
            Ok(x) => Ok((x, dec_one())),
            Err(e) => Err(e),
        }
    } else {
        match need_of(f.shares@, "shares"@) {
            Err(e) => Err(e),
            Ok(x) => match need_of(f.price@, "the price"@) {
                Ok(p) => Ok((x, p)),
                Err(e) => Err(e),
            },
        }
    }
}

/// The fee: zero when the field is blank, else the number typed.
pub open spec fn fee_of(fee: Seq<char>) -> Result<Dec, Seq<char>> {
    if trimmed(fee).len() == 0 {
        Ok(dec_zero())
    } else {
        match num_of(fee) {
            Some(x) => Ok(x),
            None => Err("Enter a number for the fee"@),
        }
    }
}

/// The view of an optional text.
pub open spec fn opt_text(t: Option<String>) -> Option<Seq<char>> {
    match t {
        Some(s) => Some(s@),
        None => None,
    }
}

/// What `build` makes of the form, given the ticker as the ticker check
/// gave it (`None` when the check refused it): (portfolio, ticker, shares,
/// price, fee), or the message shown for the first missing field.
pub open spec fn build_of(f: TxForm, ticker: Option<Seq<char>>) -> Result<(u128, Seq<char>, Dec, Dec, Dec), Seq<char>> {
    match f.portfolio {
        None => Err("Choose a portfolio"@),
        Some(p) => match ticker {
            None => Err("Enter a ticker, e.g. NVDA"@),
            Some(t) => match amounts_of(f) {
                Err(e) => Err(e),
                Ok(sp) => match fee_of(f.fee@) {
                    Err(e) => Err(e),
                    Ok(fee) => Ok((p, t, sp.0, sp.1, fee)),
                },
            },
        },
    }
}

/// The fields [`TxForm::from_existing`] shows for the saved transaction
/// `t`: its kind, date, currency and portfolio; its ticker (none for a cash
/// row); its shares, price and fee as `to_string` writes them without
/// trailing zeros; and the (currency, date, rate) it was saved with.
pub open spec fn shows_transaction(f: TxForm, t: Transaction) -> bool {
    &&& f.portfolio == Some(t.portfolio_id)
    &&& f.kind == t.transaction_type
    &&& f.ticker@ == (if is_cash_kind_spec(t.transaction_type) { Seq::empty() } else { t.ticker@ })
    &&& f.date@ == t.date@
    &&& f.shares@ == dec_text(dec_normalize(t.shares))
    &&& f.price@ == dec_text(dec_normalize(t.price))
    &&& f.fee@ == dec_text(dec_normalize(t.fee))
    &&& f.currency@ == t.currency@
    &&& f.saved_rate matches Some(s) && s.0@ == t.currency@ && s.1@ == t.date@ && s.2 == t.fx_to_usd
}

/// The (shares, price) a saved transaction `t` reads back as: a dividend
/// its amount (the price), a split its ratio (the shares), a cash row its
/// amount at price 1, a trade both; each without trailing zeros.
pub open spec fn saved_amounts(t: Transaction) -> (Dec, Dec) {
    if t.transaction_type == TransactionType::Dividend {
        (dec_zero(), dec_normalize(t.price))
    } else if t.transaction_type == TransactionType::Split {
        (dec_normalize(t.shares), dec_zero())
    } else if is_cash_kind_spec(t.transaction_type) {
        (dec_normalize(t.shares), dec_one())
    } else {
        (dec_normalize(t.shares), dec_normalize(t.price))
    }
}

/// A decimal without trailing zeros is one `Decimal` holds and not `-0`.
pub proof fn lemma_normalize_reads_back(d: Dec)
    requires
        d.is_valid(),
    ensures
        reads_back(dec_normalize(d)),
    decreases d.scale,
{
    if d.magnitude != 0 && d.scale > 0 && d.magnitude % 10 == 0 {
        lemma_normalize_reads_back(Dec { negative: d.negative, magnitude: d.magnitude / 10, scale: (d.scale - 1) as u32 });
    }
}

/// Opening a saved transaction in the form and saving it unchanged gives
/// it back: its portfolio, the ticker the check gives, its numbers without
/// trailing zeros (see [`saved_amounts`]) and fee, and the rate it was
/// saved with (1 for US dollars); kind, date and currency are shown as
/// they are (see [`shows_transaction`]).
pub proof fn lemma_edit_round_trip(f: TxForm, t: Transaction, ticker: Seq<char>)
    requires
        t.is_valid(),
        shows_transaction(f, t),
    ensures
        build_of(f, Some(ticker)) == Ok::<(u128, Seq<char>, Dec, Dec, Dec), Seq<char>>((t.portfolio_id, ticker, saved_amounts(t).0, saved_amounts(t).1, dec_normalize(t.fee))),
        fx_rate_of(f) == (if t.currency@ == "USD"@ { dec_one() } else { t.fx_to_usd }),
{
    lemma_normalize_reads_back(t.shares);
    lemma_normalize_reads_back(t.price);
    lemma_normalize_reads_back(t.fee);
    lemma_num_of_text(dec_normalize(t.shares));
    lemma_num_of_text(dec_normalize(t.price));
    lemma_num_of_text(dec_normalize(t.fee));
    lemma_dec_text_decoded(dec_normalize(t.fee));
    lemma_plain_trimmed(dec_text(dec_normalize(t.fee)));
}

fn need(field: &String, label: &str) -> (r: Result<Dec, String>)
    ensures
        match need_of(field@, label@) {
            Ok(x) => r matches Ok(y) && y == x && y.is_valid(),
            Err(e) => r matches Err(m) && m@ == e,
        },
{
    match num(field.as_str()) {
        Some(x) => Ok(x),
        None => {
            let mut m = String::from_str("Enter a number for ");
            m.append(label);
            Err(m)
        },
    }
}

impl TxForm {
    /// The form for editing `tx`, or an empty form (a buy in US dollars)
    /// for `portfolio` when there is no transaction. Cash rows show no
    /// ticker; numbers are shown without trailing zeros.
    pub fn from_existing(tx: Option<&Transaction>, portfolio: Option<u128>) -> (r: TxForm)
        requires
            tx matches Some(t) ==> t.is_valid(),
        ensures
            match tx {
                Some(t) => shows_transaction(r, *t),
                None => {
                    &&& r.portfolio == portfolio
                    &&& r.kind == TransactionType::Buy
                    &&& r.ticker@.len() == 0 && r.date@.len() == 0 && r.shares@.len() == 0
                    &&& r.price@.len() == 0 && r.fee@.len() == 0
                    &&& r.currency@ == "USD"@
                    &&& r.saved_rate is None
                },
            },
    {
        match tx {
            Some(t) => TxForm {
                portfolio: Some(t.portfolio_id),
                kind: t.transaction_type,
                ticker: if is_cash_kind(&t.transaction_type) { String::new() } else { t.ticker.clone() },
                date: t.date.clone(),
                shares: dec_to_string(normalize(t.shares)),
                price: dec_to_string(normalize(t.price)),
                fee: dec_to_string(normalize(t.fee)),
                currency: t.currency.clone(),
                saved_rate: Some((t.currency.clone(), t.date.clone(), t.fx_to_usd)),
            },
            None => TxForm {
                portfolio,
                kind: TransactionType::Buy,
                ticker: String::new(),
                date: String::new(),
                shares: String::new(),
                price: String::new(),
                fee: String::new(),
                currency: String::from_str("USD"),
                saved_rate: None,
            },
        }
    }

    /// USD per unit of the form's currency (see [`fx_rate_of`]).
    pub fn fx_to_usd(&self) -> (r: Dec)
        ensures
            r == fx_rate_of(*self),
    {
        let usd = String::from_str("USD");
        if self.currency == usd {
            return Dec::one();
        }
        match &self.saved_rate {
            Some((currency, date, rate)) => {
                if *currency == self.currency && *date == self.date {
                    *rate
                } else {
                    Dec::zero()
                }
            },
            None => Dec::zero(),
        }
    }

    /// The transaction the form describes, with id `id`. `ticker` is what
    /// the ticker check (`TickerSymbol::new`) made of the cash ticker for
    /// deposits and withdrawals, or of the typed ticker otherwise; `None`
    /// when it refused it. The first missing or unreadable field gives the
    /// message shown (see [`build_of`]).
    pub fn build(&self, id: u128, ticker: Option<String>) -> (r: Result<Transaction, String>)
        ensures
            match build_of(*self, opt_text(ticker)) {
                Err(e) => r matches Err(m) && m@ == e,
                Ok(t) => r matches Ok(x) && {
                    &&& x.id == id
                    &&& x.portfolio_id == t.0
                    &&& x.ticker@ == t.1
                    &&& x.transaction_type == self.kind
                    &&& x.shares == t.2
                    &&& x.price == t.3
                    &&& x.date@ == self.date@
                    &&& x.fee == t.4
                    &&& x.currency@ == self.currency@
                    &&& x.fx_to_usd == fx_rate_of(*self)
                },
            },
    {
        let portfolio_id = match self.portfolio {
            Some(p) => p,
            None => {
                return Err(String::from_str("Choose a portfolio"));
            },
        };
        let symbol = match ticker {
            Some(t) => t,
            None => {
                return Err(String::from_str("Enter a ticker, e.g. NVDA"));
            },
        };
        let (shares, price) = match self.kind {
            TransactionType::Dividend => match need(&self.price, "the amount") {
                Ok(p) => (Dec::zero(), p),
                Err(e) => {
                    return Err(e);
                },
            },
            TransactionType::Split => match need(&self.shares, "the ratio") {
                Ok(x) => (x, Dec::zero()),
                Err(e) => {
                    return Err(e);
                },
            },
            _ => {
                if is_cash_kind(&self.kind) {
                    match need(&self.shares, "the amount") {
                        Ok(x) => (x, Dec::one()),
                        Err(e) => {
                            return Err(e);
                        },
                    }
                } else {
                    let x = match need(&self.shares, "shares") {
                        Ok(x) => x,
                        Err(e) => {
                            return Err(e);
                        },
                    };
                    match need(&self.price, "the price") {
                        Ok(p) => (x, p),
                        Err(e) => {
                            return Err(e);
                        },
                    }
                }
            },
        };
        let blank = trim_text(self.fee.as_str());
        let fee = if blank.as_str().is_empty() {
            Dec::zero()
        } else {
            match num(self.fee.as_str()) {
                Some(x) => x,
                None => {
                    return Err(String::from_str("Enter a number for the fee"));
                },
            }
        };
        Ok(Transaction {
            id,
            portfolio_id,
            ticker: symbol,
            transaction_type: self.kind,
            shares,
            price,
            date: self.date.clone(),
            fee,
            currency: self.currency.clone(),
            fx_to_usd: self.fx_to_usd(),
        })
    }

    /// The value of a buy or sell as typed (see [`total_of`]).
    pub fn total(&self) -> (r: Result<Option<String>, DecimalOverflow>)
        ensures
            match total_of(*self) {
                Ok(Some(t)) => r matches Ok(Some(s)) && s@ == t,
                Ok(None) => r matches Ok(None),
                Err(_) => r is Err,
            },
    {
        let s = match num(self.shares.as_str()) {
            Some(x) => x,
            None => {
                return Ok(None);
            },
        };
        let p = match num(self.price.as_str()) {
            Some(x) => x,
            None => {
                return Ok(None);
            },
        };
        match self.kind {
            TransactionType::Buy | TransactionType::Sell => {
                match checked_mul(s, p) {
                    Some(x) => {
                        let mut out = fixed_to_string(x, 2);
                        push_char(&mut out, ' ');
                        out.append(self.currency.as_str());
                        Ok(Some(out))
                    },
                    None => Err(DecimalOverflow),
                }
            },
            _ => Ok(None),
        }
    }
}

} // verus!
