//! Recorded transactions and the realized profit they add up to.

use vstd::prelude::*;
use crate::decimal::{
    checked_add, checked_div, checked_mul, checked_sub, dec_lt, dec_zero, dec_sub,
    dec_mul, decimal_quotient, dec_add, difference_value, exact_product_case, exact_sum_case, less_than, pow10, sum_value, Dec,
};

verus! {

/// What a transaction records.
#[derive(Clone, Copy, Debug, PartialEq, Eq, Structural)]
pub enum TransactionType {
    Buy,
    Sell,
    Dividend,
    Split,
    Deposit,
    Withdrawal,
    Transfer,
}

/// One recorded transaction. Cash rows keep the amount in `shares` with a
/// price of 1; a dividend keeps its amount in `price`; a split keeps its
/// ratio in `shares`.
pub struct Transaction {
    pub id: u128,
    pub portfolio_id: u128,
    pub ticker: String,
    pub transaction_type: TransactionType,
    pub shares: Dec,
    pub price: Dec,
    /// Trade date as typed (`YYYY-MM-DD`).
    pub date: String,
    pub fee: Dec,
    /// Currency of `price` and `fee`.
    pub currency: String,
    /// USD per unit of `currency`; zero asks the server to look it up.
    pub fx_to_usd: Dec,
}

impl Transaction {
    pub open spec fn is_valid(&self) -> bool {
        &&& self.shares.is_valid()
        &&& self.price.is_valid()
        &&& self.fee.is_valid()
        &&& self.fx_to_usd.is_valid()
    }
}

/// Deposits and withdrawals move cash, not shares.
pub open spec fn is_cash_kind_spec(kind: TransactionType) -> bool {
    kind == TransactionType::Deposit || kind == TransactionType::Withdrawal
}

/// Deposits and withdrawals move cash, not shares.
pub fn is_cash_kind(kind: &TransactionType) -> (r: bool)
    ensures
        r == is_cash_kind_spec(*kind),
{
    match kind {
        TransactionType::Deposit | TransactionType::Withdrawal => true,
        _ => false,
    }
}

/// Cost basis and share count held per ticker, with the profit realized
/// so far.
pub type Ledger = (Map<Seq<char>, (Dec, Dec)>, Dec);

/// One transaction applied to the ledger, average-cost method: a buy adds
/// `shares * price` to the ticker's cost and `shares` to its count; a sell
/// of no more than is held realizes `shares * (price - cost / held)` and
/// takes `shares * cost / held` off the cost; a sell of more than is held,
/// or of a ticker never bought, and every other kind change nothing.
/// `None` where a `rust_decimal` operation overflows or divides by zero.
pub open spec fn ledger_step(state: Ledger, tx: Transaction) -> Option<Ledger> {
    let book = state.0;
    let realized = state.1;
    let t = tx.ticker@;
    match tx.transaction_type {
        TransactionType::Buy => {
            let held = if book.contains_key(t) { book[t] } else { (dec_zero(), dec_zero()) };
            match dec_mul(tx.shares, tx.price) {
                None => None,
                Some(c) => match dec_add(held.0, c) {
                    None => None,
                    Some(cost) => match dec_add(held.1, tx.shares) {
                        None => None,
                        Some(shares) => Some((book.insert(t, (cost, shares)), realized)),
                    },
                },
            }
        },
        TransactionType::Sell => {
            if book.contains_key(t) && !dec_lt(book[t].1, tx.shares) {
                let cost = book[t].0;
                let shares = book[t].1;
                match decimal_quotient(cost, shares) {
                    None => None,
                    Some(avg) => match dec_sub(tx.price, avg) {
                        None => None,
                        Some(d) => match dec_mul(tx.shares, d) {
                            None => None,
                            Some(gain) => match dec_add(realized, gain) {
                                None => None,
                                Some(r) => match dec_mul(tx.shares, avg) {
                                    None => None,
                                    Some(c) => match dec_sub(cost, c) {
                                        None => None,
                                        Some(cost2) => match dec_sub(shares, tx.shares) {
                                            None => None,
                                            Some(s2) => Some((book.insert(t, (cost2, s2)), r)),
                                        },
                                    },
                                },
                            },
                        },
                    },
                }
            } else {
                Some((book, realized))
            }
        },
        _ => Some((book, realized)),
    }
}

/// A buy never changes the realized total, and touches no other ticker's
/// holding; it fails only where its arithmetic overflows.
pub proof fn lemma_buy_keeps_realized(state: Ledger, tx: Transaction)
    requires
        tx.transaction_type == TransactionType::Buy,
    ensures
        ledger_step(state, tx) matches Some(next) ==> next.1 == state.1
            && next.0.dom() == state.0.dom().insert(tx.ticker@)
            && forall|k: Seq<char>| k != tx.ticker@ && #[trigger] state.0.contains_key(k) ==> next.0[k] == state.0[k],
{
}

/// A sale of a ticker not held, or of more shares than are held, and every
/// kind other than a buy or a sale, leave the ledger as it is.
pub proof fn lemma_no_trade_no_change(state: Ledger, tx: Transaction)
    requires
        tx.transaction_type != TransactionType::Buy,
        tx.transaction_type == TransactionType::Sell ==> !state.0.contains_key(tx.ticker@)
            || dec_lt(state.0[tx.ticker@].1, tx.shares),
    ensures
        ledger_step(state, tx) == Some(state),
{
}

/// Whether `rust_decimal` adds `a` and `b` without rounding.
pub open spec fn adds_exactly(a: Dec, b: Dec) -> bool {
    a.magnitude == 0 || b.magnitude == 0 || exact_sum_case(a, b, sum_value(a, b))
}

/// Whether `rust_decimal` subtracts `b` from `a` without rounding.
pub open spec fn subtracts_exactly(a: Dec, b: Dec) -> bool {
    a.magnitude == 0 || b.magnitude == 0 || exact_sum_case(a, b, difference_value(a, b))
}

/// Whether `rust_decimal` multiplies `a` and `b` without rounding.
pub open spec fn multiplies_exactly(a: Dec, b: Dec) -> bool {
    a.magnitude == 0 || b.magnitude == 0 || exact_product_case(a, b)
}

proof fn lemma_spread(a: int, b: int, c: int, k: int)
    ensures
        ((a + b) * c) * k == a * c * k + b * c * k,
{
    assert(((a + b) * c) * k == a * c * k + b * c * k) by (nonlinear_arith);
}

proof fn lemma_reorder(a: int, b: int, c: int, k: int)
    ensures
        (a * b) * c * k == a * k * c * b,
{
    assert((a * b) * c * k == a * k * c * b) by (nonlinear_arith);
}

proof fn lemma_cancel(x: int, y: int, c: int)
    requires
        c > 0,
        x * c == y * c,
    ensures
        x == y,
{
    assert(x == y) by (nonlinear_arith)
        requires
            c > 0,
            x * c == y * c,
    ;
}

/// A sale adds its gain to the realized total: the new total is the old
/// one plus the shares sold times (sale price − average cost `avg`, the
/// holding's cost over its shares as `rust_decimal` divides them). Over the
/// common denominator of the scales the mantissas agree. Stated where the
/// subtraction, the multiplication and the addition are exact; where
/// `rust_decimal` rounds one of them, its result is named.
pub proof fn lemma_sale_realizes_gain(state: Ledger, tx: Transaction, avg: Dec)
    requires
        tx.transaction_type == TransactionType::Sell,
        state.0.contains_key(tx.ticker@),
        !dec_lt(state.0[tx.ticker@].1, tx.shares),
        decimal_quotient(state.0[tx.ticker@].0, state.0[tx.ticker@].1) == Some(avg),
        subtracts_exactly(tx.price, avg),
        multiplies_exactly(tx.shares, dec_sub(tx.price, avg)->0),
        adds_exactly(state.1, dec_mul(tx.shares, dec_sub(tx.price, avg)->0)->0),
    ensures
        ledger_step(state, tx) matches Some(next) ==> next.1.signed() * pow10(state.1.scale as nat) * pow10(tx.shares.scale as nat)
            * pow10(tx.price.scale as nat) * pow10(avg.scale as nat)
            == (state.1.signed() * pow10(tx.shares.scale as nat) * pow10(tx.price.scale as nat) * pow10(avg.scale as nat)
                + tx.shares.signed() * (tx.price.signed() * pow10(avg.scale as nat) - avg.signed() * pow10(tx.price.scale as nat))
                * pow10(state.1.scale as nat)) * pow10(next.1.scale as nat),
{
    crate::decimal::lemma_difference_is_exact(tx.price, avg);
    let d = dec_sub(tx.price, avg)->0;
    crate::decimal::lemma_product_is_exact(tx.shares, d);
    let g = dec_mul(tx.shares, d)->0;
    crate::decimal::lemma_sum_is_exact(state.1, g);
    let r = dec_add(state.1, g)->0;
    if let Some(next) = ledger_step(state, tx) {
        assert(next.1 == r);
        let (pr0, ps, pp, pa) = (pow10(state.1.scale as nat) as int, pow10(tx.shares.scale as nat) as int, pow10(tx.price.scale as nat) as int, pow10(avg.scale as nat) as int);
        let (pd, pg, pr) = (pow10(d.scale as nat) as int, pow10(g.scale as nat) as int, pow10(r.scale as nat) as int);
        crate::decimal::lemma_pow10_positive(d.scale as nat);
        crate::decimal::lemma_pow10_positive(g.scale as nat);
        let (rr, s, p, a) = (state.1.signed(), tx.shares.signed(), tx.price.signed(), avg.signed());
        let (ds, gs, rs) = (d.signed(), g.signed(), r.signed());
        let e = p * pa - a * pp;
        // (1) ds * pp * pa == e * pd, (2) gs * ps * pd == s * ds * pg, (3) rs * pr0 * pg == (rr * pg + gs * pr0) * pr
        let q = pp * pa;
        let dq = ds * q;
        assert(dq == e * pd) by (nonlinear_arith)
            requires
                ds * pp * pa == e * pd,
                q == pp * pa,
                dq == ds * q,
        ;
        let lhs2 = gs * ps * pd;
        let rhs2 = s * ds * pg;
        assert(lhs2 * q == rhs2 * q) by (nonlinear_arith)
            requires
                lhs2 == rhs2,
        ;
        assert(rhs2 * q == s * pg * dq) by (nonlinear_arith)
            requires
                rhs2 == s * ds * pg,
                dq == ds * q,
        ;
        assert(s * pg * dq == s * e * pg * pd) by (nonlinear_arith)
            requires
                dq == e * pd,
        ;
        assert(lhs2 * q == gs * ps * pp * pa * pd) by (nonlinear_arith)
            requires
                lhs2 == gs * ps * pd,
                q == pp * pa,
        ;
        assert(gs * ps * pp * pa * pd == s * e * pg * pd);
        lemma_cancel(gs * ps * pp * pa, s * e * pg, pd);
        let k = ps * pp * pa;
        let gk = gs * k;
        assert(gk == s * e * pg) by (nonlinear_arith)
            requires
                gs * ps * pp * pa == s * e * pg,
                k == ps * pp * pa,
                gk == gs * k,
        ;
        let lhs = rs * pr0 * pg;
        let rhs = (rr * pg + gs * pr0) * pr;
        assert(lhs * k == rhs * k) by (nonlinear_arith)
            requires
                lhs == rhs,
        ;
        let t1 = rr * pg;
        let t2 = gs * pr0;
        lemma_spread(t1, t2, pr, k);
        assert(rhs * k == t1 * pr * k + t2 * pr * k);
        lemma_reorder(rr, pg, pr, k);
        lemma_reorder(gs, pr0, pr, k);
        assert(t2 * pr * k == gk * pr0 * pr) by (nonlinear_arith)
            requires
                t2 * pr * k == gs * k * pr * pr0,
                gk == gs * k,
        ;
        assert(rhs * k == rr * k * pr * pg + gk * pr0 * pr) by (nonlinear_arith)
            requires
                rhs * k == t1 * pr * k + t2 * pr * k,
                t1 * pr * k == rr * k * pr * pg,
                t2 * pr * k == gk * pr0 * pr,
        ;
        assert(gk * pr0 * pr == s * e * pr0 * pr * pg) by (nonlinear_arith)
            requires
                gk == s * e * pg,
        ;
        assert(rr * k * pr * pg + s * e * pr0 * pr * pg == ((rr * k + s * e * pr0) * pr) * pg) by (nonlinear_arith);
        assert(lhs * k == (rs * pr0 * k) * pg) by (nonlinear_arith)
            requires
                lhs == rs * pr0 * pg,
        ;
        assert(rs * pr0 * ps * pp * pa == rs * pr0 * k) by (nonlinear_arith)
            requires
                k == ps * pp * pa,
        ;
        assert(rr * ps * pp * pa == rr * k) by (nonlinear_arith)
            requires
                k == ps * pp * pa,
        ;
        lemma_cancel(rs * pr0 * ps * pp * pa, (rr * ps * pp * pa + s * e * pr0) * pr, pg);
    }
}

/// The ledger after every transaction, in order, from an empty book.
pub open spec fn ledger(txs: Seq<Transaction>) -> Option<Ledger>
    decreases txs.len(),
{
    if txs.len() == 0 {
        Some((Map::empty(), dec_zero()))
    } else {
        match ledger(txs.drop_last()) {
            None => None,
            Some(state) => ledger_step(state, txs.last()),
        }
    }
}

/// Realized gain of the transactions (`None` where arithmetic fails).
pub open spec fn realized_pnl_of(txs: Seq<Transaction>) -> Option<Dec> {
    match ledger(txs) {
        None => None,
        Some(state) => Some(state.1),
    }
}

/// The book a list of distinct-ticker entries stands for.
spec fn book_view(entries: Seq<(String, Dec, Dec)>) -> Map<Seq<char>, (Dec, Dec)> {
    Map::new(
        |k: Seq<char>| exists|i: int| 0 <= i < entries.len() && (#[trigger] entries[i]).0@ == k,
        |k: Seq<char>| {
            let i = choose|i: int| 0 <= i < entries.len() && (#[trigger] entries[i]).0@ == k;
            (entries[i].1, entries[i].2)
        },
    )
}

spec fn keys_distinct(entries: Seq<(String, Dec, Dec)>) -> bool {
    forall|i: int, j: int| 0 <= i < j < entries.len() ==> (#[trigger] entries[i]).0@ != (#[trigger] entries[j]).0@
}

spec fn entries_valid(entries: Seq<(String, Dec, Dec)>) -> bool {
    forall|i: int| 0 <= i < entries.len() ==> (#[trigger] entries[i]).1.is_valid() && entries[i].2.is_valid()
}

proof fn lemma_book_lookup(entries: Seq<(String, Dec, Dec)>, i: int)
    requires
        keys_distinct(entries),
        0 <= i < entries.len(),
    ensures
        book_view(entries).contains_key(entries[i].0@),
        book_view(entries)[entries[i].0@] == (entries[i].1, entries[i].2),
{
    let k = entries[i].0@;
    assert(book_view(entries).dom().contains(k));
    let j = choose|j: int| 0 <= j < entries.len() && (#[trigger] entries[j]).0@ == k;
    if j != i {
        if j < i {
            assert(entries[j].0@ != entries[i].0@);
        } else {
            assert(entries[i].0@ != entries[j].0@);
        }
    }
}

proof fn lemma_book_update(entries: Seq<(String, Dec, Dec)>, i: int, a: Dec, b: Dec)
    requires
        keys_distinct(entries),
        0 <= i < entries.len(),
    ensures
        keys_distinct(entries.update(i, (entries[i].0, a, b))),
        book_view(entries.update(i, (entries[i].0, a, b))) == book_view(entries).insert(entries[i].0@, (a, b)),
{
    let e2 = entries.update(i, (entries[i].0, a, b));
    let k = entries[i].0@;
    assert forall|x: int, y: int| 0 <= x < y < e2.len() implies (#[trigger] e2[x]).0@ != (#[trigger] e2[y]).0@ by {
        assert(e2[x].0@ == entries[x].0@);
        assert(e2[y].0@ == entries[y].0@);
        assert(entries[x].0@ != entries[y].0@);
    }
    let m1 = book_view(e2);
    let m2 = book_view(entries).insert(k, (a, b));
    assert forall|key: Seq<char>| m1.dom().contains(key) <==> m2.dom().contains(key) by {
        if m1.dom().contains(key) {
            let j = choose|j: int| 0 <= j < e2.len() && (#[trigger] e2[j]).0@ == key;
            assert(entries[j].0@ == key);
        }
        if m2.dom().contains(key) && key != k {
            let j = choose|j: int| 0 <= j < entries.len() && (#[trigger] entries[j]).0@ == key;
            assert(e2[j].0@ == key);
        }
        if key == k {
            assert(e2[i].0@ == key);
        }
    }
    assert forall|key: Seq<char>| #[trigger] m1.dom().contains(key) implies m1[key] == m2[key] by {
        let j = choose|j: int| 0 <= j < e2.len() && (#[trigger] e2[j]).0@ == key;
        lemma_book_lookup(e2, j);
        if j == i {
        } else {
            assert(entries[j] == e2[j]);
            lemma_book_lookup(entries, j);
        }
    }
    assert(m1 =~= m2);
}

proof fn lemma_book_push(entries: Seq<(String, Dec, Dec)>, e: (String, Dec, Dec))
    requires
        keys_distinct(entries),
        forall|i: int| 0 <= i < entries.len() ==> (#[trigger] entries[i]).0@ != e.0@,
    ensures
        keys_distinct(entries.push(e)),
        book_view(entries.push(e)) == book_view(entries).insert(e.0@, (e.1, e.2)),
{
    let e2 = entries.push(e);
    assert forall|x: int, y: int| 0 <= x < y < e2.len() implies (#[trigger] e2[x]).0@ != (#[trigger] e2[y]).0@ by {
        assert(e2[x] == entries[x]);
        if y < entries.len() {
            assert(e2[y] == entries[y]);
        }
    }
    let m1 = book_view(e2);
    let m2 = book_view(entries).insert(e.0@, (e.1, e.2));
    assert forall|key: Seq<char>| m1.dom().contains(key) <==> m2.dom().contains(key) by {
        if m1.dom().contains(key) && key != e.0@ {
            let j = choose|j: int| 0 <= j < e2.len() && (#[trigger] e2[j]).0@ == key;
            assert(j < entries.len());
            assert(entries[j].0@ == key);
        }
        if m2.dom().contains(key) && key != e.0@ {
            let j = choose|j: int| 0 <= j < entries.len() && (#[trigger] entries[j]).0@ == key;
            assert(e2[j].0@ == key);
        }
        if key == e.0@ {
            assert(e2[entries.len() as int].0@ == key);
        }
    }
    assert forall|key: Seq<char>| #[trigger] m1.dom().contains(key) implies m1[key] == m2[key] by {
        let j = choose|j: int| 0 <= j < e2.len() && (#[trigger] e2[j]).0@ == key;
        lemma_book_lookup(e2, j);
        if j < entries.len() {
            assert(entries[j] == e2[j]);
            lemma_book_lookup(entries, j);
        }
    }
    assert(m1 =~= m2);
}

/// Where `ticker` stands in the book, if it does.
fn find_entry(book: &Vec<(String, Dec, Dec)>, ticker: &String) -> (r: Option<usize>)
    requires
        keys_distinct(book@),
    ensures
        match r {
            Some(i) => i < book.len() && book@[i as int].0@ == ticker@,
            None => forall|i: int| 0 <= i < book.len() ==> (#[trigger] book@[i]).0@ != ticker@,
        },
        r is None <==> !book_view(book@).contains_key(ticker@),
{
    let mut i: usize = 0;
    while i < book.len()
        invariant
            i <= book.len(),
            keys_distinct(book@),
            forall|j: int| 0 <= j < i ==> (#[trigger] book@[j]).0@ != ticker@,
        decreases book.len() - i,
    {
        if book[i].0 == *ticker {
            proof {
                lemma_book_lookup(book@, i as int);
            }
            return Some(i);
        }
        i = i + 1;
    }
    None
}

/// Once the ledger of a prefix fails, the ledger of the whole list does.
proof fn lemma_ledger_none_propagates(txs: Seq<Transaction>, k: int)
    requires
        0 <= k <= txs.len(),
        ledger(txs.take(k)) is None,
    ensures
        ledger(txs) is None,
    decreases txs.len() - k,
{
    if k < txs.len() {
        assert(txs.take(k + 1).drop_last() == txs.take(k));
        lemma_ledger_none_propagates(txs, k + 1);
    } else {
        assert(txs.take(k) == txs);
    }
}


/// Applies one transaction to the book; the new realized total, or `None`
/// where `ledger_step` fails.
fn apply_transaction(book: &mut Vec<(String, Dec, Dec)>, realized: Dec, tx: &Transaction) -> (r: Option<Dec>)
    requires
        keys_distinct(old(book)@),
        entries_valid(old(book)@),
        realized.is_valid(),
        tx.is_valid(),
    ensures
        match r {
            None => ledger_step((book_view(old(book)@), realized), *tx) is None,
            Some(r2) => {
                &&& ledger_step((book_view(old(book)@), realized), *tx) == Some((book_view(final(book)@), r2))
                &&& keys_distinct(final(book)@)
                &&& entries_valid(final(book)@)
                &&& r2.is_valid()
            },
        },
{
    match tx.transaction_type {
        TransactionType::Buy => {
            let found = find_entry(book, &tx.ticker);
            let (cost0, shares0) = match found {
                Some(k) => {
                    proof {
                        lemma_book_lookup(book@, k as int);
                    }
                    (book[k].1, book[k].2)
                },
                None => (Dec::zero(), Dec::zero()),
            };
            let c = match checked_mul(tx.shares, tx.price) {
                Some(c) => c,
                None => {
                    return None;
                },
            };
            let cost = match checked_add(cost0, c) {
                Some(x) => x,
                None => {
                    return None;
                },
            };
            let shares = match checked_add(shares0, tx.shares) {
                Some(x) => x,
                None => {
                    return None;
                },
            };
            match found {
                Some(k) => {
                    let key = book[k].0.clone();
                    proof {
                        lemma_book_update(book@, k as int, cost, shares);
                    }
                    book.set(k, (key, cost, shares));
                },
                None => {
                    let key = tx.ticker.clone();
                    proof {
                        lemma_book_push(book@, (key, cost, shares));
                    }
                    book.push((key, cost, shares));
                },
            }
            Some(realized)
        },
        TransactionType::Sell => {
            let found = find_entry(book, &tx.ticker);
            match found {
                Some(k) => {
                    proof {
                        lemma_book_lookup(book@, k as int);
                    }
                    let cost = book[k].1;
                    let shares = book[k].2;
                    if less_than(shares, tx.shares) {
                        return Some(realized);
                    }
                    let avg = match checked_div(cost, shares) {
                        Some(x) => x,
                        None => {
                            return None;
                        },
                    };
                    let d = match checked_sub(tx.price, avg) {
                        Some(x) => x,
                        None => {
                            return None;
                        },
                    };
                    let gain = match checked_mul(tx.shares, d) {
                        Some(x) => x,
                        None => {
                            return None;
                        },
                    };
                    let r2 = match checked_add(realized, gain) {
                        Some(x) => x,
                        None => {
                            return None;
                        },
                    };
                    let c = match checked_mul(tx.shares, avg) {
                        Some(x) => x,
                        None => {
                            return None;
                        },
                    };
                    let cost2 = match checked_sub(cost, c) {
                        Some(x) => x,
                        None => {
                            return None;
                        },
                    };
                    let s2 = match checked_sub(shares, tx.shares) {
                        Some(x) => x,
                        None => {
                            return None;
                        },
                    };
                    let key = book[k].0.clone();
                    proof {
                        lemma_book_update(book@, k as int, cost2, s2);
                    }
                    book.set(k, (key, cost2, s2));
                    Some(r2)
                },
                None => Some(realized),
            }
        },
        _ => Some(realized),
    }
}

/// Realized gain of the transactions, in order, by the average-cost
/// method (see [`ledger_step`]); `None` where a `rust_decimal` operation
/// would overflow or divide by zero (selling shares of a position whose
/// count has reached zero).
pub fn compute_realized_pnl(transactions: &Vec<Transaction>) -> (r: Option<Dec>)
    requires
        forall|i: int| 0 <= i < transactions.len() ==> (#[trigger] transactions@[i]).is_valid(),
    ensures
        r == realized_pnl_of(transactions@),
        r matches Some(x) ==> x.is_valid(),
{
    let mut book: Vec<(String, Dec, Dec)> = Vec::new();
    let mut realized = Dec::zero();
    let mut i: usize = 0;
    proof {
        assert(book_view(book@) =~= Map::empty());
        assert(transactions@.take(0) =~= Seq::<Transaction>::empty());
    }
    while i < transactions.len()
        invariant
            i <= transactions.len(),
            forall|j: int| 0 <= j < transactions.len() ==> (#[trigger] transactions@[j]).is_valid(),
            keys_distinct(book@),
            entries_valid(book@),
            realized.is_valid(),
            ledger(transactions@.take(i as int)) == Some((book_view(book@), realized)),
        decreases transactions.len() - i,
    {
        proof {
            assert(transactions@.take(i + 1).drop_last() == transactions@.take(i as int));
            assert(transactions@.take(i + 1).last() == transactions@[i as int]);
        }
        match apply_transaction(&mut book, realized, &transactions[i]) {
            Some(r2) => {
                realized = r2;
            },
            None => {
                proof {
                    lemma_ledger_none_propagates(transactions@, i + 1);
                }
                return None;
            },
        }
        i = i + 1;
    }
    proof {
        assert(transactions@.take(transactions.len() as int) == transactions@);
    }
    Some(realized)
}


/// Only sales realize a gain: where no transaction is a sale, the realized
/// total is zero, unless the arithmetic failed.
pub proof fn lemma_no_sale_no_realized_gain(txs: Seq<Transaction>)
    requires
        forall|i: int| 0 <= i < txs.len() ==> (#[trigger] txs[i]).transaction_type != TransactionType::Sell,
    ensures
        realized_pnl_of(txs) is None || realized_pnl_of(txs) == Some(dec_zero()),
    decreases txs.len(),
{
    if txs.len() > 0 {
        let prefix = txs.drop_last();
        assert forall|i: int| 0 <= i < prefix.len() implies (#[trigger] prefix[i]).transaction_type != TransactionType::Sell by {
            assert(prefix[i] == txs[i]);
        }
        lemma_no_sale_no_realized_gain(prefix);
        assert(txs.last() == txs[txs.len() - 1]);
    }
}

} // verus!
