//! What the dashboard shows of the transactions and holdings.

use vstd::prelude::*;
use crate::editors::opt_text;
use crate::performance_chart::{name_for, portfolio_name};
use vstd::string::StringExecFns;
use crate::decimal::{
    checked_add, checked_mul, checked_sub, dec_lt, dec_normalize, dec_text, dec_to_string,
    dec_zero, dec_sub, dec_mul, dec_add, less_than, normalize, Dec,
};
use crate::format::{fmt_usd, usd_text};
use crate::parse::chars_of;
use crate::text::push_char;
use crate::transaction::{Transaction, TransactionType};
use crate::decimal::{all_valid, checked_div, dec_one, decimal_quotient, lemma_dec_le_transitive, DecimalOverflow};
use crate::mpt::{
    first_min_index, hundred, last_max_index, live_indices, live_of, max_index, min_index,
    positions_valid, returns_of, Position,
};
use crate::portfolio::values_of;

verus! {

/// `s` with every `from` replaced by `to`, matches taken left to right
/// without overlap (`str::replace`).
pub open spec fn replaced(s: Seq<char>, from: Seq<char>, to: Seq<char>) -> Seq<char>
    decreases s.len(),
{
    if s.len() == 0 {
        Seq::empty()
    } else if from.len() > 0 && from.len() <= s.len() && s.take(from.len() as int) == from {
        to + replaced(s.skip(from.len() as int), from, to)
    } else {
        seq![s[0]] + replaced(s.skip(1), from, to)
    }
}

/// Whether `f` occurs in `s` at `i`.
fn matches_at(s: &Vec<char>, i: usize, f: &Vec<char>) -> (r: bool)
    requires
        i <= s.len(),
    ensures
        r == (f.len() <= s.len() - i && s@.skip(i as int).take(f.len() as int) == f@),
{
    if f.len() > s.len() - i {
        return false;
    }
    let mut j: usize = 0;
    while j < f.len()
        invariant
            j <= f.len() <= s.len() - i,
            forall|m: int| 0 <= m < j ==> s@[i + m] == f@[m],
        decreases f.len() - j,
    {
        if s[i + j] != f[j] {
            proof {
                assert(s@.skip(i as int).take(f.len() as int)[j as int] == s@[i + j]);
            }
            return false;
        }
        j = j + 1;
    }
    proof {
        assert(s@.skip(i as int).take(f.len() as int) =~= f@);
    }
    true
}

/// `str::replace`: every `from` in `s` replaced by `to`.
pub fn replace_text(s: &str, from: &str, to: &str) -> (r: String)
    requires
        from@.len() > 0,
    ensures
        r@ == replaced(s@, from@, to@),
{
    let t = chars_of(s);
    let f = chars_of(from);
    let mut out = String::new();
    let mut i: usize = 0;
    proof {
        assert(t@.skip(0) == t@);
    }
    while i < t.len()
        invariant
            i <= t.len(),
            t@ == s@,
            f@ == from@,
            f@.len() > 0,
            out@ + replaced(t@.skip(i as int), f@, to@) == replaced(t@, f@, to@),
        decreases t.len() - i,
    {
        let ghost rest = t@.skip(i as int);
        if matches_at(&t, i, &f) {
            proof {
                assert(rest.skip(f.len() as int) == t@.skip(i + f.len()));
            }
            out.append(to);
            proof {
                assert(out@ + replaced(t@.skip(i + f.len()), f@, to@) == replaced(t@, f@, to@));
            }
            i = i + f.len();
        } else {
            proof {
                assert(rest[0] == t@[i as int]);
                assert(rest.skip(1) == t@.skip(i + 1));
            }
            push_char(&mut out, t[i]);
            proof {
                assert(out@ + replaced(t@.skip(i + 1), f@, to@) == replaced(t@, f@, to@));
            }
            i = i + 1;
        }
    }
    proof {
        assert(t@.skip(i as int) =~= Seq::<char>::empty());
        assert(out@ + Seq::<char>::empty() == out@);
    }
    out
}

/// ` · fee $1.00` after the detail line when a fee was paid, else nothing.
pub open spec fn fee_note(fee: Dec, symbol: Seq<char>, rate: Dec) -> Option<Seq<char>> {
    if dec_lt(dec_zero(), fee) {
        match usd_text(fee, 2, symbol, rate) {
            None => None,
            Some(t) => Some(" · fee "@ + t),
        }
    } else {
        Some(Seq::empty())
    }
}

/// `sign` and the amount to two decimals.
pub open spec fn money(sign: Seq<char>, v: Option<Dec>, symbol: Seq<char>, rate: Dec) -> Option<Seq<char>> {
    match v {
        None => None,
        Some(x) => match usd_text(x, 2, symbol, rate) {
            None => None,
            Some(t) => Some(sign + t),
        },
    }
}

/// `12 shares @ $3.50` (and the fee note).
pub open spec fn trade_detail(tx: Transaction, fee: Seq<char>, symbol: Seq<char>, rate: Dec) -> Option<Seq<char>> {
    match usd_text(tx.price, 2, symbol, rate) {
        None => None,
        Some(p) => Some(dec_text(dec_normalize(tx.shares)) + " shares @ "@ + p + fee),
    }
}

/// Badge classes, title, detail line and signed cash effect of a
/// transaction row, amounts in the display currency (`symbol`, `rate`
/// units per USD). `None` where `rust_decimal` overflows.
pub open spec fn describe_of(tx: Transaction, symbol: Seq<char>, rate: Dec)
    -> Option<(Seq<char>, Seq<char>, Seq<char>, Seq<char>)> {
    match dec_mul(tx.shares, tx.price) {
        None => None,
        Some(gross) => match fee_note(tx.fee, symbol, rate) {
            None => None,
            Some(fee) => match tx.transaction_type {
                TransactionType::Buy => match (trade_detail(tx, fee, symbol, rate), money("−"@, dec_add(gross, tx.fee), symbol, rate)) {
                    (Some(d), Some(m)) => Some(("bg-ctp-green/15 text-ctp-green"@, tx.ticker@, d, m)),
                    _ => None,
                },
                TransactionType::Sell => match (trade_detail(tx, fee, symbol, rate), money("+"@, dec_sub(gross, tx.fee), symbol, rate)) {
                    (Some(d), Some(m)) => Some(("bg-ctp-red/15 text-ctp-red"@, tx.ticker@, d, m)),
                    _ => None,
                },
                TransactionType::Dividend => match money("+"@, dec_sub(tx.price, tx.fee), symbol, rate) {
                    Some(m) => Some(("bg-ctp-teal/15 text-ctp-teal"@, tx.ticker@,
                        "Dividend received"@ + replaced(fee, "fee"@, "tax"@), m)),
                    None => None,
                },
                TransactionType::Split => Some(("bg-ctp-lavender/15 text-ctp-lavender"@, tx.ticker@,
                    dec_text(dec_normalize(tx.shares)) + "-for-1 split"@, "—"@)),
                TransactionType::Deposit => match money("+"@, dec_sub(gross, tx.fee), symbol, rate) {
                    Some(m) => Some(("bg-ctp-blue/15 text-ctp-blue"@, "Cash"@, "Deposit"@ + fee, m)),
                    None => None,
                },
                TransactionType::Withdrawal => match money("−"@, dec_add(gross, tx.fee), symbol, rate) {
                    Some(m) => Some(("bg-ctp-peach/15 text-ctp-peach"@, "Cash"@, "Withdrawal"@ + fee, m)),
                    None => None,
                },
                TransactionType::Transfer => Some(("bg-ctp-surface1 text-ctp-subtext1"@, tx.ticker@, "Transfer"@, "—"@)),
            },
        },
    }
}

/// Text made of `a` then `b`.
fn join(a: &str, b: &str) -> (r: String)
    ensures
        r@ == a@ + b@,
{
    let mut out = String::from_str(a);
    out.append(b);
    out
}

fn money_text(sign: &str, v: Option<Dec>, symbol: &str, rate: Dec) -> (r: Option<String>)
    requires
        v matches Some(x) ==> x.is_valid(),
        rate.is_valid(),
    ensures
        match money(sign@, v, symbol@, rate) {
            Some(t) => r matches Some(s) && s@ == t,
            None => r is None,
        },
{
    match v {
        None => None,
        Some(x) => match fmt_usd(x, 2, symbol, rate) {
            None => None,
            Some(t) => Some(join(sign, t.as_str())),
        },
    }
}

fn trade_text(tx: &Transaction, fee: &str, symbol: &str, rate: Dec) -> (r: Option<String>)
    requires
        tx.is_valid(),
        rate.is_valid(),
    ensures
        match trade_detail(*tx, fee@, symbol@, rate) {
            Some(t) => r matches Some(s) && s@ == t,
            None => r is None,
        },
{
    match fmt_usd(tx.price, 2, symbol, rate) {
        None => None,
        Some(p) => {
            let mut out = dec_to_string(normalize(tx.shares));
            out.append(" shares @ ");
            out.append(p.as_str());
            out.append(fee);
            Some(out)
        },
    }
}

/// Badge classes, title, detail line and signed cash effect for a
/// transaction row, amounts in the display currency (`symbol`, `rate`
/// units per USD); `None` where `rust_decimal` overflows.
pub fn describe(tx: &Transaction, symbol: &str, rate: Dec) -> (r: Option<(&'static str, String, String, String)>)
    requires
        tx.is_valid(),
        rate.is_valid(),
    ensures
        match describe_of(*tx, symbol@, rate) {
            Some(t) => r matches Some(x) && x.0@ == t.0 && x.1@ == t.1 && x.2@ == t.2 && x.3@ == t.3,
            None => r is None,
        },
{
    let gross = match checked_mul(tx.shares, tx.price) {
        Some(g) => g,
        None => {
            return None;
        },
    };
    let fee = if less_than(Dec::zero(), tx.fee) {
        match fmt_usd(tx.fee, 2, symbol, rate) {
            Some(t) => join(" · fee ", t.as_str()),
            None => {
                return None;
            },
        }
    } else {
        String::new()
    };
    match tx.transaction_type {
        TransactionType::Buy => {
            let detail = trade_text(tx, fee.as_str(), symbol, rate);
            let amount = money_text("−", checked_add(gross, tx.fee), symbol, rate);
            match (detail, amount) {
                (Some(d), Some(m)) => Some(("bg-ctp-green/15 text-ctp-green", tx.ticker.clone(), d, m)),
                _ => None,
            }
        },
        TransactionType::Sell => {
            let detail = trade_text(tx, fee.as_str(), symbol, rate);
            let amount = money_text("+", checked_sub(gross, tx.fee), symbol, rate);
            match (detail, amount) {
                (Some(d), Some(m)) => Some(("bg-ctp-red/15 text-ctp-red", tx.ticker.clone(), d, m)),
                _ => None,
            }
        },
        TransactionType::Dividend => {
            match money_text("+", checked_sub(tx.price, tx.fee), symbol, rate) {
                Some(m) => {
                    proof {
                        reveal_strlit("fee");
                    }
                    let note = replace_text(fee.as_str(), "fee", "tax");
                    Some(("bg-ctp-teal/15 text-ctp-teal", tx.ticker.clone(), join("Dividend received", note.as_str()), m))
                },
                None => None,
            }
        },
        TransactionType::Split => {
            let mut detail = dec_to_string(normalize(tx.shares));
            detail.append("-for-1 split");
            Some(("bg-ctp-lavender/15 text-ctp-lavender", tx.ticker.clone(), detail, String::from_str("—")))
        },
        TransactionType::Deposit => {
            match money_text("+", checked_sub(gross, tx.fee), symbol, rate) {
                Some(m) => Some(("bg-ctp-blue/15 text-ctp-blue", String::from_str("Cash"), join("Deposit", fee.as_str()), m)),
                None => None,
            }
        },
        TransactionType::Withdrawal => {
            match money_text("−", checked_add(gross, tx.fee), symbol, rate) {
                Some(m) => Some(("bg-ctp-peach/15 text-ctp-peach", String::from_str("Cash"), join("Withdrawal", fee.as_str()), m)),
                None => None,
            }
        },
        TransactionType::Transfer => {
            Some(("bg-ctp-surface1 text-ctp-subtext1", tx.ticker.clone(), String::from_str("Transfer"), String::from_str("—")))
        },
    }
}


/// A single holding above this share of the portfolio (in percent) is
/// flagged.
pub open spec fn concentration_warn_pct() -> Dec {
    Dec { negative: false, magnitude: 25, scale: 0 }
}

/// How many positions are in profit (`unrealized_pnl > 0`).
pub open spec fn count_gaining(live: Seq<Position>) -> nat
    decreases live.len(),
{
    if live.len() == 0 {
        0
    } else {
        count_gaining(live.drop_last()) + (if dec_lt(dec_zero(), live.last().unrealized_pnl) { 1nat } else { 0nat })
    }
}

/// Today's moves of the positions.
pub open spec fn changes_of(live: Seq<Position>) -> Seq<Dec> {
    Seq::new(live.len(), |i: int| live[i].daily_change_pct)
}

/// Weight in percent of the largest position (see [`holding_weight_of`]).
pub open spec fn largest_weight_of(live: Seq<Position>, total_value: Dec) -> Option<Dec> {
    holding_weight_of(live[last_max_index(values_of(live))].market_value, total_value)
}

/// The insight tiles above the holdings.
pub struct Insights {
    /// Best move today: ticker and percent.
    pub best: (String, Dec),
    /// Worst move today.
    pub worst: (String, Dec),
    /// Largest holding and its weight in percent.
    pub largest: (String, Dec),
    pub largest_color: &'static str,
    pub largest_note: &'static str,
    /// Positions in profit, out of `priced`.
    pub winners: usize,
    pub priced: usize,
    /// Best unrealized return: ticker and percent.
    pub top_return: (String, Dec),
}

/// `ins` shows the live positions `live` as the tiles do: the best move is
/// the last of the largest daily changes, the worst the first of the
/// smallest, the largest holding and the top return the last of the
/// largest values and returns.
pub open spec fn insights_match(ins: Insights, live: Seq<Position>, total_value: Dec) -> bool {
    let b = last_max_index(changes_of(live));
    let w = first_min_index(changes_of(live));
    let l = last_max_index(values_of(live));
    let t = last_max_index(returns_of(live));
    &&& ins.best.0@ == live[b].ticker@ && ins.best.1 == live[b].daily_change_pct
    &&& ins.worst.0@ == live[w].ticker@ && ins.worst.1 == live[w].daily_change_pct
    &&& ins.largest.0@ == live[l].ticker@ && largest_weight_of(live, total_value) == Some(ins.largest.1)
    &&& ins.largest_color@ == (if dec_lt(concentration_warn_pct(), ins.largest.1) { "text-ctp-yellow"@ } else { "text-ctp-text"@ })
    &&& ins.largest_note@ == (if dec_lt(concentration_warn_pct(), ins.largest.1) { "Concentrated — consider trimming"@ } else { "Well spread"@ })
    &&& ins.winners == count_gaining(live)
    &&& ins.priced == live.len()
    &&& ins.top_return.0@ == live[t].ticker@ && ins.top_return.1 == live[t].unrealized_pnl_pct
}

/// The insight tiles for the positions with a live price: `Ok(None)` when
/// there is none, `Err` where `rust_decimal` overflows.
pub fn insights(positions: &Vec<Position>, total_value: Dec) -> (r: Result<Option<Insights>, DecimalOverflow>)
    requires
        positions_valid(positions@),
        total_value.is_valid(),
    ensures
        live_of(positions@).len() == 0 ==> r is Ok && r->Ok_0 is None,
        live_of(positions@).len() > 0 ==> match r {
            Ok(Some(ins)) => insights_match(ins, live_of(positions@), total_value),
            Ok(None) => false,
            Err(_) => largest_weight_of(live_of(positions@), total_value) is None,
        },
{
    let idx = live_indices(positions);
    let ghost live = live_of(positions@);
    if idx.len() == 0 {
        return Ok(None);
    }
    let mut changes: Vec<Dec> = Vec::new();
    let mut values: Vec<Dec> = Vec::new();
    let mut rets: Vec<Dec> = Vec::new();
    let mut winners: usize = 0;
    let mut k: usize = 0;
    while k < idx.len()
        invariant
            k <= idx.len(),
            positions_valid(positions@),
            forall|j: int| 0 <= j < idx.len() ==> #[trigger] idx@[j] < positions.len(),
            live == idx@.map_values(|i: usize| positions@[i as int]),
            changes@ == changes_of(live).take(k as int),
            values@ == values_of(live).take(k as int),
            rets@ == returns_of(live).take(k as int),
            all_valid(changes@) && all_valid(values@) && all_valid(rets@),
            winners == count_gaining(live.take(k as int)),
            winners <= k,
        decreases idx.len() - k,
    {
        let p = &positions[idx[k]];
        proof {
            assert(live[k as int] == positions@[idx@[k as int] as int]);
            assert(live.take(k + 1).drop_last() == live.take(k as int));
        }
        changes.push(p.daily_change_pct);
        values.push(p.market_value);
        rets.push(p.unrealized_pnl_pct);
        if less_than(Dec::zero(), p.unrealized_pnl) {
            winners = winners + 1;
        }
        k = k + 1;
        proof {
            assert(changes@ == changes_of(live).take(k as int));
            assert(values@ == values_of(live).take(k as int));
            assert(rets@ == returns_of(live).take(k as int));
        }
    }
    proof {
        assert(changes@ == changes_of(live));
        assert(values@ == values_of(live));
        assert(rets@ == returns_of(live));
        assert(live.take(idx.len() as int) == live);
    }
    let b = max_index(&changes);
    let w = min_index(&changes);
    let l = max_index(&values);
    let t = max_index(&rets);
    proof {
        assert(live[b as int] == positions@[idx@[b as int] as int]);
        assert(live[w as int] == positions@[idx@[w as int] as int]);
        assert(live[l as int] == positions@[idx@[l as int] as int]);
        assert(live[t as int] == positions@[idx@[t as int] as int]);
    }
    let big = &positions[idx[l]];
    let weight = match holding_weight(big.market_value, total_value) {
        Some(x) => x,
        None => {
            return Err(DecimalOverflow);
        },
    };
    let concentrated = less_than(Dec { negative: false, magnitude: 25, scale: 0 }, weight);
    let (largest_color, largest_note) = if concentrated {
        ("text-ctp-yellow", "Concentrated — consider trimming")
    } else {
        ("text-ctp-text", "Well spread")
    };
    let best = &positions[idx[b]];
    let worst = &positions[idx[w]];
    let top = &positions[idx[t]];
    Ok(Some(Insights {
        best: (best.ticker.clone(), best.daily_change_pct),
        worst: (worst.ticker.clone(), worst.daily_change_pct),
        largest: (big.ticker.clone(), weight),
        largest_color,
        largest_note,
        winners,
        priced: idx.len(),
        top_return: (top.ticker.clone(), top.unrealized_pnl_pct),
    }))
}


/// `a` before `b` in `str` order (by code point, as UTF-8 bytes compare).
pub open spec fn text_lt(a: Seq<char>, b: Seq<char>) -> bool
    decreases a.len(),
{
    if a.len() == 0 {
        b.len() > 0
    } else if b.len() == 0 {
        false
    } else if a[0] != b[0] {
        (a[0] as int) < (b[0] as int)
    } else {
        text_lt(a.drop_first(), b.drop_first())
    }
}

/// `a < b` for text.
pub fn text_less(a: &String, b: &String) -> (r: bool)
    ensures
        r == text_lt(a@, b@),
{
    let x = chars_of(a.as_str());
    let y = chars_of(b.as_str());
    let mut i: usize = 0;
    proof {
        assert(x@.skip(0) == x@ && y@.skip(0) == y@);
    }
    while i < x.len() && i < y.len()
        invariant
            i <= x.len() && i <= y.len(),
            x@ == a@ && y@ == b@,
            text_lt(a@, b@) == text_lt(x@.skip(i as int), y@.skip(i as int)),
        decreases x.len() - i,
    {
        proof {
            assert(x@.skip(i as int)[0] == x@[i as int]);
            assert(y@.skip(i as int)[0] == y@[i as int]);
            assert(x@.skip(i as int).drop_first() == x@.skip(i + 1));
            assert(y@.skip(i as int).drop_first() == y@.skip(i + 1));
        }
        if x[i] != y[i] {
            return crate::parse::char_code(x[i]) < crate::parse::char_code(y[i]);
        }
        i = i + 1;
    }
    x.len() < y.len()
}

/// The column the holdings table is sorted by.
#[derive(Clone, Copy, PartialEq, Eq, Debug, Structural)]
pub enum SortKey {
    Ticker,
    Price,
    Day,
    Value,
    Return,
}

/// The sort after a click on column `k`: the same column flips direction;
/// another column sorts text A→Z and numbers biggest first.
pub fn toggle_sort(current: (SortKey, bool), k: SortKey) -> (r: (SortKey, bool))
    ensures
        r == (if current.0 == k { (k, !current.1) } else { (k, k != SortKey::Ticker) }),
{
    if current.0 == k {
        (k, !current.1)
    } else {
        (k, k != SortKey::Ticker)
    }
}

/// `p` comes before `q` ascending by `key`.
pub open spec fn key_before(p: Position, q: Position, key: SortKey) -> bool {
    match key {
        SortKey::Ticker => text_lt(p.ticker@, q.ticker@),
        SortKey::Price => dec_lt(p.current_price, q.current_price),
        SortKey::Day => dec_lt(p.daily_change_pct, q.daily_change_pct),
        SortKey::Value => dec_lt(p.market_value, q.market_value),
        SortKey::Return => dec_lt(p.unrealized_pnl_pct, q.unrealized_pnl_pct),
    }
}

/// `p` comes before `q` in the table sorted by `key`, descending if `desc`.
pub open spec fn row_before(p: Position, q: Position, key: SortKey, desc: bool) -> bool {
    if desc { key_before(q, p, key) } else { key_before(p, q, key) }
}

/// `order` with row `i` inserted after every row it does not come before
/// (one step of a stable sort).
pub open spec fn insert_row(order: Seq<int>, i: int, rows: Seq<Position>, key: SortKey, desc: bool) -> Seq<int>
    decreases order.len(),
{
    if order.len() == 0 {
        seq![i]
    } else if row_before(rows[i], rows[order.last()], key, desc) {
        insert_row(order.drop_last(), i, rows, key, desc).push(order.last())
    } else {
        order.push(i)
    }
}

/// The first `n` rows in table order: what a stable `sort_by` on the
/// column's comparison (reversed when descending) gives.
pub open spec fn row_order(rows: Seq<Position>, key: SortKey, desc: bool, n: nat) -> Seq<int>
    decreases n,
{
    if n == 0 {
        Seq::empty()
    } else {
        insert_row(row_order(rows, key, desc, (n - 1) as nat), n - 1, rows, key, desc)
    }
}

fn row_precedes(p: &Position, q: &Position, key: SortKey, desc: bool) -> (r: bool)
    requires
        p.is_valid(),
        q.is_valid(),
    ensures
        r == row_before(*p, *q, key, desc),
{
    let (a, b) = if desc { (q, p) } else { (p, q) };
    match key {
        SortKey::Ticker => text_less(&a.ticker, &b.ticker),
        SortKey::Price => less_than(a.current_price, b.current_price),
        SortKey::Day => less_than(a.daily_change_pct, b.daily_change_pct),
        SortKey::Value => less_than(a.market_value, b.market_value),
        SortKey::Return => less_than(a.unrealized_pnl_pct, b.unrealized_pnl_pct),
    }
}

proof fn lemma_insert_row_at(order: Seq<int>, i: int, rows: Seq<Position>, key: SortKey, desc: bool, j: int)
    requires
        0 <= j <= order.len(),
        forall|m: int| j <= m < order.len() ==> row_before(rows[i], rows[#[trigger] order[m]], key, desc),
        j > 0 ==> !row_before(rows[i], rows[order[j - 1]], key, desc),
    ensures
        insert_row(order, i, rows, key, desc) == order.insert(j, i),
    decreases order.len() - j,
{
    if j < order.len() {
        let o2 = order.drop_last();
        assert(row_before(rows[i], rows[order[order.len() - 1]], key, desc));
        assert forall|m: int| j <= m < o2.len() implies row_before(rows[i], rows[#[trigger] o2[m]], key, desc) by {
            assert(o2[m] == order[m]);
        }
        if j > 0 {
            assert(o2[j - 1] == order[j - 1]);
        }
        lemma_insert_row_at(o2, i, rows, key, desc, j);
        assert(o2.insert(j, i).push(order.last()) == order.insert(j, i));
    } else {
        assert(order.push(i) == order.insert(j, i));
    }
}

/// Row indices of the holdings table sorted by `key` (descending if
/// `desc`), equal rows keeping their order.
pub fn holding_order(rows: &Vec<Position>, key: SortKey, desc: bool) -> (r: Vec<usize>)
    requires
        positions_valid(rows@),
    ensures
        r@.map_values(|i: usize| i as int) == row_order(rows@, key, desc, rows.len() as nat),
        r.len() == rows.len(),
        forall|k: int| 0 <= k < r.len() ==> #[trigger] r@[k] < rows.len(),
{
    let mut out: Vec<usize> = Vec::new();
    let mut i: usize = 0;
    while i < rows.len()
        invariant
            i <= rows.len(),
            positions_valid(rows@),
            out.len() == i,
            forall|k: int| 0 <= k < out.len() ==> #[trigger] out@[k] < i,
            out@.map_values(|x: usize| x as int) == row_order(rows@, key, desc, i as nat),
        decreases rows.len() - i,
    {
        let ghost order = out@.map_values(|x: usize| x as int);
        let mut j = out.len();
        while j > 0 && row_precedes(&rows[i], &rows[out[j - 1]], key, desc)
            invariant
                j <= out.len() == i < rows.len(),
                positions_valid(rows@),
                forall|k: int| 0 <= k < out.len() ==> #[trigger] out@[k] < i,
                order == out@.map_values(|x: usize| x as int),
                forall|m: int| j <= m < order.len() ==> row_before(rows@[i as int], rows@[#[trigger] order[m]], key, desc),
            decreases j,
        {
            j = j - 1;
        }
        proof {
            if j > 0 {
                assert(order[j - 1] == out@[j - 1] as int);
            }
            lemma_insert_row_at(order, i as int, rows@, key, desc, j as int);
        }
        out.insert(j, i);
        proof {
            assert(out@.map_values(|x: usize| x as int) == order.insert(j as int, i as int));
            assert forall|k: int| 0 <= k < out.len() implies #[trigger] out@[k] < i + 1 by {
                if k < j {
                } else if k > j {
                }
            }
        }
        i = i + 1;
    }
    out
}

/// The legend colours of the allocation, in order.
pub open spec fn chart_color(i: int) -> Seq<char> {
    let k = i % 12;
    if k == 0 { "bg-ctp-mauve"@ } else if k == 1 { "bg-ctp-blue"@ } else if k == 2 { "bg-ctp-green"@ }
    else if k == 3 { "bg-ctp-peach"@ } else if k == 4 { "bg-ctp-red"@ } else if k == 5 { "bg-ctp-sky"@ }
    else if k == 6 { "bg-ctp-teal"@ } else if k == 7 { "bg-ctp-yellow"@ } else if k == 8 { "bg-ctp-lavender"@ }
    else if k == 9 { "bg-ctp-pink"@ } else if k == 10 { "bg-ctp-sapphire"@ } else { "bg-ctp-rosewater"@ }
}

/// Where `ticker` first stands in the allocation.
pub open spec fn allocation_index(allocation: Seq<(String, Dec)>, ticker: Seq<char>) -> Option<int>
    decreases allocation.len(),
{
    if allocation.len() == 0 {
        None
    } else if allocation[0].0@ == ticker {
        Some(0)
    } else {
        match allocation_index(allocation.drop_first(), ticker) {
            None => None,
            Some(k) => Some(k + 1),
        }
    }
}

fn color_at(i: usize) -> (r: &'static str)
    ensures
        r@ == chart_color(i as int),
{
    let k = i % 12;
    if k == 0 { "bg-ctp-mauve" } else if k == 1 { "bg-ctp-blue" } else if k == 2 { "bg-ctp-green" }
    else if k == 3 { "bg-ctp-peach" } else if k == 4 { "bg-ctp-red" } else if k == 5 { "bg-ctp-sky" }
    else if k == 6 { "bg-ctp-teal" } else if k == 7 { "bg-ctp-yellow" } else if k == 8 { "bg-ctp-lavender" }
    else if k == 9 { "bg-ctp-pink" } else if k == 10 { "bg-ctp-sapphire" } else { "bg-ctp-rosewater" }
}

/// A holding's colour: the same as in the allocation legend, grey when it
/// is not in the allocation.
pub fn holding_color(allocation: &Vec<(String, Dec)>, ticker: &String) -> (r: &'static str)
    ensures
        r@ == (match allocation_index(allocation@, ticker@) {
            Some(k) => chart_color(k),
            None => "bg-ctp-overlay0"@,
        }),
{
    let mut i: usize = 0;
    assert(allocation@.skip(0) == allocation@);
    while i < allocation.len()
        invariant
            i <= allocation.len(),
            allocation_index(allocation@, ticker@) == (match allocation_index(allocation@.skip(i as int), ticker@) {
                Some(k) => Some(k + i),
                None => None,
            }),
        decreases allocation.len() - i,
    {
        proof {
            assert(allocation@.skip(i as int)[0] == allocation@[i as int]);
            assert(allocation@.skip(i as int).drop_first() == allocation@.skip(i + 1));
        }
        if allocation[i].0 == *ticker {
            return color_at(i);
        }
        i = i + 1;
    }
    "bg-ctp-overlay0"
}

/// A holding's weight in the table: `market_value / max(total_value, 1)
/// * 100`.
pub open spec fn holding_weight_of(market_value: Dec, total_value: Dec) -> Option<Dec> {
    let denom = if dec_lt(dec_one(), total_value) { total_value } else { dec_one() };
    match decimal_quotient(market_value, denom) {
        None => None,
        Some(q) => dec_mul(q, hundred()),
    }
}

/// A holding's weight in percent (`None` where `rust_decimal` overflows).
pub fn holding_weight(market_value: Dec, total_value: Dec) -> (r: Option<Dec>)
    requires
        market_value.is_valid(),
        total_value.is_valid(),
    ensures
        r == holding_weight_of(market_value, total_value),
        r matches Some(x) ==> x.is_valid(),
{
    let denom = if less_than(Dec::one(), total_value) { total_value } else { Dec::one() };
    match checked_div(market_value, denom) {
        None => None,
        Some(q) => checked_mul(q, Dec { negative: false, magnitude: 100, scale: 0 }),
    }
}


proof fn lemma_text_lt_asymmetric(a: Seq<char>, b: Seq<char>)
    ensures
        text_lt(a, b) ==> !text_lt(b, a),
    decreases a.len(),
{
    if a.len() > 0 && b.len() > 0 && a[0] == b[0] {
        lemma_text_lt_asymmetric(a.drop_first(), b.drop_first());
    }
}

proof fn lemma_text_lt_total(a: Seq<char>, b: Seq<char>)
    ensures
        text_lt(a, b) || text_lt(b, a) || a == b,
    decreases a.len(),
{
    if a.len() > 0 && b.len() > 0 && a[0] == b[0] {
        lemma_text_lt_total(a.drop_first(), b.drop_first());
        if a.drop_first() == b.drop_first() {
            assert(a == seq![a[0]] + a.drop_first());
            assert(b == seq![b[0]] + b.drop_first());
        }
    } else if a.len() == 0 && b.len() == 0 {
        assert(a =~= b);
    }
}

proof fn lemma_text_lt_transitive(a: Seq<char>, b: Seq<char>, c: Seq<char>)
    requires
        text_lt(a, b),
        text_lt(b, c),
    ensures
        text_lt(a, c),
    decreases a.len(),
{
    if a.len() > 0 && b.len() > 0 && c.len() > 0 && a[0] == b[0] && b[0] == c[0] {
        lemma_text_lt_transitive(a.drop_first(), b.drop_first(), c.drop_first());
    }
}

/// Column order on rows is a total preorder: no row comes before itself
/// and back, and "not after" chains.
proof fn lemma_key_order(p: Position, q: Position, r: Position, key: SortKey)
    ensures
        key_before(p, q, key) ==> !key_before(q, p, key),
        !key_before(q, p, key) && !key_before(r, q, key) ==> !key_before(r, p, key),
{
    match key {
        SortKey::Ticker => {
            lemma_text_lt_asymmetric(p.ticker@, q.ticker@);
            lemma_text_lt_total(p.ticker@, q.ticker@);
            lemma_text_lt_total(q.ticker@, r.ticker@);
            lemma_text_lt_asymmetric(p.ticker@, r.ticker@);
            lemma_text_lt_asymmetric(r.ticker@, p.ticker@);
            if text_lt(p.ticker@, q.ticker@) && text_lt(q.ticker@, r.ticker@) {
                lemma_text_lt_transitive(p.ticker@, q.ticker@, r.ticker@);
            }
        },
        SortKey::Price => {
            if !dec_lt(q.current_price, p.current_price) && !dec_lt(r.current_price, q.current_price) {
                lemma_dec_le_transitive(p.current_price, q.current_price, r.current_price);
            }
        },
        SortKey::Day => {
            if !dec_lt(q.daily_change_pct, p.daily_change_pct) && !dec_lt(r.daily_change_pct, q.daily_change_pct) {
                lemma_dec_le_transitive(p.daily_change_pct, q.daily_change_pct, r.daily_change_pct);
            }
        },
        SortKey::Value => {
            if !dec_lt(q.market_value, p.market_value) && !dec_lt(r.market_value, q.market_value) {
                lemma_dec_le_transitive(p.market_value, q.market_value, r.market_value);
            }
        },
        SortKey::Return => {
            if !dec_lt(q.unrealized_pnl_pct, p.unrealized_pnl_pct) && !dec_lt(r.unrealized_pnl_pct, q.unrealized_pnl_pct) {
                lemma_dec_le_transitive(p.unrealized_pnl_pct, q.unrealized_pnl_pct, r.unrealized_pnl_pct);
            }
        },
    }
}

proof fn lemma_row_order_facts(p: Position, q: Position, r: Position, key: SortKey, desc: bool)
    ensures
        row_before(p, q, key, desc) ==> !row_before(q, p, key, desc),
        !row_before(q, p, key, desc) && !row_before(r, q, key, desc) ==> !row_before(r, p, key, desc),
{
    lemma_key_order(p, q, r, key);
    lemma_key_order(q, p, r, key);
    lemma_key_order(r, q, p, key);
}

/// The entries of `order` are row indices below `n`, each once, and no row
/// comes before an earlier one in column order.
pub open spec fn is_table_order(order: Seq<int>, rows: Seq<Position>, key: SortKey, desc: bool, n: int) -> bool {
    &&& forall|k: int| 0 <= k < order.len() ==> 0 <= #[trigger] order[k] < n
    &&& forall|a: int, b: int| 0 <= a < b < order.len() ==> order[a] != order[b]
    &&& forall|a: int, b: int| 0 <= a < b < order.len() ==> !row_before(rows[order[b]], rows[order[a]], key, desc)
}

proof fn lemma_insert_row_bound(order: Seq<int>, i: int, rows: Seq<Position>, key: SortKey, desc: bool, last: int)
    requires
        forall|k: int| 0 <= k < order.len() ==> !row_before(rows[last], rows[#[trigger] order[k]], key, desc),
        !row_before(rows[last], rows[i], key, desc),
    ensures
        insert_row(order, i, rows, key, desc).len() == order.len() + 1,
        forall|k: int| 0 <= k < insert_row(order, i, rows, key, desc).len()
            ==> !row_before(rows[last], rows[#[trigger] insert_row(order, i, rows, key, desc)[k]], key, desc),
        forall|k: int| 0 <= k < insert_row(order, i, rows, key, desc).len()
            ==> (#[trigger] insert_row(order, i, rows, key, desc)[k] == i || order.contains(insert_row(order, i, rows, key, desc)[k])),
    decreases order.len(),
{
    if order.len() > 0 && row_before(rows[i], rows[order.last()], key, desc) {
        let dl = order.drop_last();
        assert forall|k: int| 0 <= k < dl.len() implies !row_before(rows[last], rows[#[trigger] dl[k]], key, desc) by {
            assert(dl[k] == order[k]);
        }
        lemma_insert_row_bound(dl, i, rows, key, desc, last);
        let r = insert_row(dl, i, rows, key, desc);
        assert(order[order.len() - 1] == order.last());
        assert forall|k: int| 0 <= k < r.push(order.last()).len()
            implies (#[trigger] r.push(order.last())[k] == i || order.contains(r.push(order.last())[k])) by {
            if k < r.len() {
                if r[k] != i {
                    assert(dl.contains(r[k]));
                    let m = choose|m: int| 0 <= m < dl.len() && dl[m] == r[k];
                    assert(order[m] == r[k]);
                }
            }
        }
    } else if order.len() > 0 {
        assert forall|k: int| 0 <= k < order.push(i).len()
            implies (#[trigger] order.push(i)[k] == i || order.contains(order.push(i)[k])) by {
            if k < order.len() {
                assert(order.push(i)[k] == order[k]);
            }
        }
    }
}

proof fn lemma_insert_row_sorted(order: Seq<int>, i: int, rows: Seq<Position>, key: SortKey, desc: bool)
    requires
        is_table_order(order, rows, key, desc, i),
        0 <= i,
    ensures
        is_table_order(insert_row(order, i, rows, key, desc), rows, key, desc, i + 1),
    decreases order.len(),
{
    let ins = insert_row(order, i, rows, key, desc);
    if order.len() == 0 {
        return;
    }
    let last = order.last();
    assert(order[order.len() - 1] == last);
    if row_before(rows[i], rows[last], key, desc) {
        let dl = order.drop_last();
        assert forall|a: int, b: int| 0 <= a < b < dl.len() implies !row_before(rows[dl[b]], rows[dl[a]], key, desc) by {
            assert(dl[a] == order[a] && dl[b] == order[b]);
        }
        assert forall|a: int, b: int| 0 <= a < b < dl.len() implies dl[a] != dl[b] by {
            assert(dl[a] == order[a] && dl[b] == order[b]);
        }
        assert forall|k: int| 0 <= k < dl.len() implies 0 <= #[trigger] dl[k] < i by {
            assert(dl[k] == order[k]);
        }
        lemma_insert_row_sorted(dl, i, rows, key, desc);
        assert forall|k: int| 0 <= k < dl.len() implies !row_before(rows[last], rows[#[trigger] dl[k]], key, desc) by {
            assert(dl[k] == order[k]);
        }
        lemma_row_order_facts(rows[i], rows[last], rows[i], key, desc);
        lemma_insert_row_bound(dl, i, rows, key, desc, last);
        let r = insert_row(dl, i, rows, key, desc);
        assert(ins == r.push(last));
        assert forall|a: int, b: int| 0 <= a < b < ins.len() implies !row_before(rows[ins[b]], rows[ins[a]], key, desc) by {
            if b < r.len() {
                assert(ins[a] == r[a] && ins[b] == r[b]);
            } else {
                assert(ins[a] == r[a]);
                assert(ins[b] == last);
            }
        }
        assert forall|a: int, b: int| 0 <= a < b < ins.len() implies ins[a] != ins[b] by {
            if b < r.len() {
                assert(ins[a] == r[a] && ins[b] == r[b]);
            } else {
                assert(ins[a] == r[a]);
                if r[a] != i {
                    assert(dl.contains(r[a]));
                    let m = choose|m: int| 0 <= m < dl.len() && dl[m] == r[a];
                    assert(order[m] == r[a]);
                }
            }
        }
        assert forall|k: int| 0 <= k < ins.len() implies 0 <= #[trigger] ins[k] < i + 1 by {
            if k < r.len() {
                assert(ins[k] == r[k]);
            }
        }
    } else {
        assert(ins == order.push(i));
        assert forall|a: int, b: int| 0 <= a < b < ins.len() implies !row_before(rows[ins[b]], rows[ins[a]], key, desc) by {
            if b < order.len() {
                assert(ins[a] == order[a] && ins[b] == order[b]);
            } else {
                assert(ins[a] == order[a]);
                if a < order.len() - 1 {
                    lemma_row_order_facts(rows[order[a]], rows[last], rows[i], key, desc);
                }
            }
        }
        assert forall|a: int, b: int| 0 <= a < b < ins.len() implies ins[a] != ins[b] by {
            assert(ins[a] == order[a]);
            if b < order.len() {
                assert(ins[b] == order[b]);
            }
        }
        assert forall|k: int| 0 <= k < ins.len() implies 0 <= #[trigger] ins[k] < i + 1 by {
            if k < order.len() {
                assert(ins[k] == order[k]);
            }
        }
    }
}

/// The holdings table lists every row exactly once, and no row comes
/// before an earlier one in the order of the sorted column.
pub proof fn lemma_table_order_sorted(rows: Seq<Position>, key: SortKey, desc: bool, n: nat)
    ensures
        is_table_order(row_order(rows, key, desc, n), rows, key, desc, n as int),
        row_order(rows, key, desc, n).len() == n,
    decreases n,
{
    if n > 0 {
        let prev = row_order(rows, key, desc, (n - 1) as nat);
        lemma_table_order_sorted(rows, key, desc, (n - 1) as nat);
        lemma_insert_row_sorted(prev, n - 1, rows, key, desc);
        lemma_insert_row_len(prev, n - 1, rows, key, desc);
    }
}

proof fn lemma_insert_row_len(order: Seq<int>, i: int, rows: Seq<Position>, key: SortKey, desc: bool)
    ensures
        insert_row(order, i, rows, key, desc).len() == order.len() + 1,
    decreases order.len(),
{
    if order.len() > 0 && row_before(rows[i], rows[order.last()], key, desc) {
        lemma_insert_row_len(order.drop_last(), i, rows, key, desc);
    }
}

/// Whether row `p`'s value in column `key` is below row `q`'s: tickers
/// by text, the numeric columns by decimal value.
pub open spec fn column_below(p: Position, q: Position, key: SortKey) -> bool {
    match key {
        SortKey::Ticker => text_lt(p.ticker@, q.ticker@),
        SortKey::Price => dec_lt(p.current_price, q.current_price),
        SortKey::Day => dec_lt(p.daily_change_pct, q.daily_change_pct),
        SortKey::Value => dec_lt(p.market_value, q.market_value),
        SortKey::Return => dec_lt(p.unrealized_pnl_pct, q.unrealized_pnl_pct),
    }
}

/// The holdings table lists each of the first `n` rows once, and by the
/// column's value: descending puts the larger value first (no row stands
/// below a later one), ascending the smaller (no row stands above a later
/// one), whichever the column.
pub proof fn lemma_table_by_column(rows: Seq<Position>, key: SortKey, desc: bool, n: nat)
    ensures
        row_order(rows, key, desc, n).len() == n,
        forall|k: int| 0 <= k < n ==> 0 <= #[trigger] row_order(rows, key, desc, n)[k] < n,
        forall|x: int, y: int| 0 <= x < y < n ==> row_order(rows, key, desc, n)[x] != row_order(rows, key, desc, n)[y],
        desc ==> forall|x: int, y: int| 0 <= x < y < n ==> !column_below(
            rows[row_order(rows, key, desc, n)[x]], rows[row_order(rows, key, desc, n)[y]], key),
        !desc ==> forall|x: int, y: int| 0 <= x < y < n ==> !column_below(
            rows[row_order(rows, key, desc, n)[y]], rows[row_order(rows, key, desc, n)[x]], key),
{
    let o = row_order(rows, key, desc, n);
    lemma_table_order_sorted(rows, key, desc, n);
    assert forall|x: int, y: int| 0 <= x < y < n implies (if desc {
        !column_below(rows[o[x]], rows[o[y]], key)
    } else {
        !column_below(rows[o[y]], rows[o[x]], key)
    }) by {
        assert(!row_before(rows[o[y]], rows[o[x]], key, desc));
    }
}

/// The dashboard's heading: the chosen portfolio's name from `(id, name)`
/// pairs (the first match), or "Your portfolio" for all holdings or an id
/// that is not there.
pub open spec fn title_of(scope: Option<Seq<char>>, portfolios: Seq<(String, String)>) -> Seq<char> {
    match scope {
        Some(id) => match name_for(portfolios, id) {
            Some(n) => n,
            None => "Your portfolio"@,
        },
        None => "Your portfolio"@,
    }
}

/// The dashboard's heading for the portfolio `scope` (see [`title_of`]).
pub fn dashboard_title(scope: Option<String>, portfolios: &Vec<(String, String)>) -> (r: String)
    ensures
        r@ == title_of(opt_text(scope), portfolios@),
{
    match scope {
        Some(id) => match portfolio_name(portfolios, &id) {
            Some(n) => n,
            None => String::from_str("Your portfolio"),
        },
        None => String::from_str("Your portfolio"),
    }
}

} // verus!
