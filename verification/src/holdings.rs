//! The holdings tables: summary figures and the amounts they show.

use vstd::prelude::*;
use crate::decimal::{
    checked_add, checked_div, checked_mul, checked_sub, dec_lt, dec_zero, dec_sub,
    dec_mul, decimal_quotient, dec_add, difference_value, exact_sum_case, lemma_difference_is_exact, less_than, pow10, Dec,
};
use crate::format::{amount_text, fmt_amount};
use crate::mpt::hundred;
use crate::text::push_char;
use vstd::string::StringExecFns;

verus! {

/// A holding as the holdings tables list it.
pub struct Asset {
    pub ticker: String,
    pub quantity: Dec,
    /// Average cost per share.
    pub cost: Dec,
}

impl Asset {
    pub open spec fn is_valid(&self) -> bool {
        self.quantity.is_valid() && self.cost.is_valid()
    }
}

/// The value given for `ticker` in a ticker → value table (the first entry
/// with that ticker), zero when there is none.
pub open spec fn quote_for(table: Seq<(String, Dec)>, ticker: Seq<char>) -> Dec
    decreases table.len(),
{
    if table.len() == 0 {
        dec_zero()
    } else if table[0].0@ == ticker {
        table[0].1
    } else {
        quote_for(table.drop_first(), ticker)
    }
}

pub open spec fn table_valid(table: Seq<(String, Dec)>) -> bool {
    forall|i: int| 0 <= i < table.len() ==> (#[trigger] table[i]).1.is_valid()
}

/// The value given for `ticker`, else zero.
pub fn lookup_or_zero(table: &Vec<(String, Dec)>, ticker: &String) -> (r: Dec)
    requires
        table_valid(table@),
    ensures
        r == quote_for(table@, ticker@),
        r.is_valid(),
{
    let mut i: usize = 0;
    assert(table@.skip(0) == table@);
    while i < table.len()
        invariant
            i <= table.len(),
            table_valid(table@),
            quote_for(table@, ticker@) == quote_for(table@.skip(i as int), ticker@),
        decreases table.len() - i,
    {
        proof {
            assert(table@.skip(i as int)[0] == table@[i as int]);
            assert(table@.skip(i as int).drop_first() == table@.skip(i + 1));
        }
        if table[i].0 == *ticker {
            return table[i].1;
        }
        i = i + 1;
    }
    Dec::zero()
}

/// `0 + xs[0] + xs[1] + …` left to right; `None` when a term is missing
/// (its own arithmetic failed) or an addition overflows.
pub open spec fn sum_options(xs: Seq<Option<Dec>>) -> Option<Dec>
    decreases xs.len(),
{
    if xs.len() == 0 {
        Some(dec_zero())
    } else {
        match sum_options(xs.drop_last()) {
            None => None,
            Some(s) => match xs.last() {
                None => None,
                Some(x) => dec_add(s, x),
            },
        }
    }
}

proof fn lemma_sum_options_none(xs: Seq<Option<Dec>>, k: int)
    requires
        0 <= k <= xs.len(),
        sum_options(xs.take(k)) is None,
    ensures
        sum_options(xs) is None,
    decreases xs.len() - k,
{
    if k < xs.len() {
        assert(xs.take(k + 1).drop_last() == xs.take(k));
        lemma_sum_options_none(xs, k + 1);
    } else {
        assert(xs.take(k) == xs);
    }
}

/// Cost of a holding: `quantity * cost`.
pub open spec fn cost_terms(assets: Seq<Asset>) -> Seq<Option<Dec>> {
    Seq::new(assets.len(), |i: int| dec_mul(assets[i].quantity, assets[i].cost))
}

/// Market value of a holding: `quantity * price` (price zero when none is
/// known).
pub open spec fn value_terms(assets: Seq<Asset>, prices: Seq<(String, Dec)>) -> Seq<Option<Dec>> {
    Seq::new(assets.len(), |i: int| dec_mul(assets[i].quantity, quote_for(prices, assets[i].ticker@)))
}

/// Today's change of one holding: `quantity * price * change% / 100`.
pub open spec fn day_term(a: Asset, prices: Seq<(String, Dec)>, changes: Seq<(String, Dec)>) -> Option<Dec> {
    match dec_mul(a.quantity, quote_for(prices, a.ticker@)) {
        None => None,
        Some(x) => match dec_mul(x, quote_for(changes, a.ticker@)) {
            None => None,
            Some(y) => decimal_quotient(y, hundred()),
        },
    }
}

pub open spec fn day_terms(assets: Seq<Asset>, prices: Seq<(String, Dec)>, changes: Seq<(String, Dec)>) -> Seq<Option<Dec>> {
    Seq::new(assets.len(), |i: int| day_term(assets[i], prices, changes))
}

/// (number of holdings, total cost, total value, day change, total P&L),
/// `None` where `rust_decimal` overflows.
pub open spec fn portfolio_stats_of(assets: Seq<Asset>, prices: Seq<(String, Dec)>, changes: Seq<(String, Dec)>)
    -> Option<(nat, Dec, Dec, Dec, Dec)> {
    match sum_options(cost_terms(assets)) {
        None => None,
        Some(cost) => match sum_options(value_terms(assets, prices)) {
            None => None,
            Some(value) => match sum_options(day_terms(assets, prices, changes)) {
                None => None,
                Some(day) => match dec_sub(value, cost) {
                    None => None,
                    Some(pnl) => Some((assets.len(), cost, value, day, pnl)),
                },
            },
        },
    }
}

/// Summary of the holdings tables: count, total cost, total value, day
/// change and P&L. `prices` and `changes` map tickers to the latest price
/// and today's change in percent; a missing ticker counts as zero.
pub fn portfolio_stats(assets: &Vec<Asset>, prices: &Vec<(String, Dec)>, changes: &Vec<(String, Dec)>)
    -> (r: Option<(usize, Dec, Dec, Dec, Dec)>)
    requires
        forall|i: int| 0 <= i < assets.len() ==> (#[trigger] assets@[i]).is_valid(),
        table_valid(prices@),
        table_valid(changes@),
    ensures
        match r {
            None => portfolio_stats_of(assets@, prices@, changes@) is None,
            Some(t) => portfolio_stats_of(assets@, prices@, changes@) == Some((t.0 as nat, t.1, t.2, t.3, t.4)),
        },
{
    let ghost costs = cost_terms(assets@);
    let ghost values = value_terms(assets@, prices@);
    let ghost days = day_terms(assets@, prices@, changes@);
    let mut cost = Dec::zero();
    let mut value = Dec::zero();
    let mut day = Dec::zero();
    let mut i: usize = 0;
    proof {
        assert(costs.take(0) =~= Seq::<Option<Dec>>::empty());
        assert(values.take(0) =~= Seq::<Option<Dec>>::empty());
        assert(days.take(0) =~= Seq::<Option<Dec>>::empty());
    }
    while i < assets.len()
        invariant
            i <= assets.len(),
            forall|j: int| 0 <= j < assets.len() ==> (#[trigger] assets@[j]).is_valid(),
            table_valid(prices@),
            table_valid(changes@),
            costs == cost_terms(assets@),
            values == value_terms(assets@, prices@),
            days == day_terms(assets@, prices@, changes@),
            cost.is_valid() && value.is_valid() && day.is_valid(),
            sum_options(costs.take(i as int)) == Some(cost),
            sum_options(values.take(i as int)) == Some(value),
            sum_options(days.take(i as int)) == Some(day),
        decreases assets.len() - i,
    {
        let a = &assets[i];
        proof {
            assert(costs.take(i + 1).drop_last() == costs.take(i as int));
            assert(values.take(i + 1).drop_last() == values.take(i as int));
            assert(days.take(i + 1).drop_last() == days.take(i as int));
            assert(costs.take(i + 1).last() == costs[i as int]);
            assert(values.take(i + 1).last() == values[i as int]);
            assert(days.take(i + 1).last() == days[i as int]);
        }
        let price = lookup_or_zero(prices, &a.ticker);
        let change = lookup_or_zero(changes, &a.ticker);
        let c = match checked_mul(a.quantity, a.cost) {
            Some(x) => x,
            None => {
                proof {
                    lemma_sum_options_none(costs, i + 1);
                }
                return None;
            },
        };
        cost = match checked_add(cost, c) {
            Some(x) => x,
            None => {
                proof {
                    lemma_sum_options_none(costs, i + 1);
                }
                return None;
            },
        };
        let v = match checked_mul(a.quantity, price) {
            Some(x) => x,
            None => {
                proof {
                    lemma_sum_options_none(values, i + 1);
                }
                return None;
            },
        };
        value = match checked_add(value, v) {
            Some(x) => x,
            None => {
                proof {
                    lemma_sum_options_none(values, i + 1);
                }
                return None;
            },
        };
        let d = match checked_mul(v, change) {
            Some(y) => match checked_div(y, Dec { negative: false, magnitude: 100, scale: 0 }) {
                Some(z) => z,
                None => {
                    proof {
                        lemma_sum_options_none(days, i + 1);
                    }
                    return None;
                },
            },
            None => {
                proof {
                    lemma_sum_options_none(days, i + 1);
                }
                return None;
            },
        };
        day = match checked_add(day, d) {
            Some(x) => x,
            None => {
                proof {
                    lemma_sum_options_none(days, i + 1);
                }
                return None;
            },
        };
        i = i + 1;
    }
    proof {
        assert(costs.take(assets.len() as int) == costs);
        assert(values.take(assets.len() as int) == values);
        assert(days.take(assets.len() as int) == days);
    }
    match checked_sub(value, cost) {
        Some(pnl) => Some((assets.len(), cost, value, day, pnl)),
        None => None,
    }
}


/// `$1,234.56` as the holdings tables write it: US dollars, rounded to
/// `decimals` places (ties to even), whole part grouped in thousands, and
/// a `-` whenever the value carries a minus sign, even one that rounds to
/// zero.
pub fn fmt_usd(value: Dec, decimals: u32) -> (r: Option<String>)
    requires
        value.is_valid(),
        decimals <= 19,
    ensures
        match amount_text(value, decimals as nat, "$"@, true) {
            Some(t) => r matches Some(s) && s@ == t,
            None => r is None,
        },
{
    fmt_amount(value, decimals, "$", true)
}

/// `+$1,234.56` / `-$1,234.56`: [`fmt_usd`] with a `+` before values that
/// are not negative.
pub fn fmt_signed(value: Dec, decimals: u32) -> (r: Option<String>)
    requires
        value.is_valid(),
        decimals <= 19,
    ensures
        match amount_text(value, decimals as nat, "$"@, true) {
            Some(t) => r matches Some(s)
                && s@ == (if dec_lt(value, dec_zero()) { t } else { seq!['+'] + t }),
            None => r is None,
        },
{
    let nonnegative = !less_than(value, Dec::zero());
    match fmt_usd(value, decimals) {
        None => None,
        Some(t) => {
            if nonnegative {
                let mut out = String::new();
                push_char(&mut out, '+');
                out.append(t.as_str());
                Some(out)
            } else {
                Some(t)
            }
        },
    }
}


/// Which way a price cell flashes after a tick.
#[derive(Clone, Copy, PartialEq, Eq, Debug, Structural)]
pub enum FlashDir {
    /// No flash.
    Steady,
    Up,
    Down,
}

impl FlashDir {
    /// The animation class of the flash (none when there is no flash).
    pub fn class(&self) -> (r: &'static str)
        ensures
            r@ == (match *self {
                FlashDir::Up => "price-flash-up"@,
                FlashDir::Down => "price-flash-down"@,
                FlashDir::Steady => ""@,
            }),
    {
        match self {
            FlashDir::Up => "price-flash-up",
            FlashDir::Down => "price-flash-down",
            FlashDir::Steady => "",
        }
    }
}

/// The summary's P&L is its total value minus its total cost, wherever
/// `rust_decimal` subtracts them without rounding (a zero total, or
/// [`exact_sum_case`]): over a common denominator the mantissas agree, so
/// the P&L is positive exactly when the value exceeds the cost.
pub proof fn lemma_pnl_is_value_minus_cost(assets: Seq<Asset>, prices: Seq<(String, Dec)>, changes: Seq<(String, Dec)>)
    requires
        portfolio_stats_of(assets, prices, changes) matches Some(t) && (t.2.magnitude == 0 || t.1.magnitude == 0
            || exact_sum_case(t.2, t.1, difference_value(t.2, t.1))),
    ensures
        portfolio_stats_of(assets, prices, changes) matches Some(t) && t.4.signed() * pow10(t.2.scale as nat) * pow10(t.1.scale as nat)
            == (t.2.signed() * pow10(t.1.scale as nat) - t.1.signed() * pow10(t.2.scale as nat)) * pow10(t.4.scale as nat),
{
    let t = portfolio_stats_of(assets, prices, changes)->0;
    lemma_difference_is_exact(t.2, t.1);
}

} // verus!
