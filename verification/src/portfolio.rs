//! Portfolio totals: day change, allocation and target weights.

use vstd::prelude::*;
use crate::decimal::{
    all_valid, checked_div, checked_mul, checked_sub, dec_lt, dec_round, dec_sum_seq, dec_text,
    dec_to_string, dec_zero, dec_sub, dec_mul, decimal_quotient,
    descending_order, lemma_descending_order_sorted, less_than, round, sort_descending, sum, Dec,
};
use crate::mpt::{hundred, live_indices, live_of, positions_valid, Position};

verus! {

/// Percent move from the previous close to the current price:
/// `(current - previous_close) / previous_close * 100`, zero when there is
/// no previous close.
pub open spec fn day_change_of(current: Dec, previous_close: Dec) -> Option<Dec> {
    if previous_close.magnitude == 0 {
        Some(dec_zero())
    } else {
        match dec_sub(current, previous_close) {
            None => None,
            Some(d) => match decimal_quotient(d, previous_close) {
                None => None,
                Some(q) => dec_mul(q, hundred()),
            },
        }
    }
}

/// Percent move from the previous close to the current price (`None`
/// where `rust_decimal` overflows).
pub fn day_change_pct(current: Dec, previous_close: Dec) -> (r: Option<Dec>)
    requires
        current.is_valid(),
        previous_close.is_valid(),
    ensures
        r == day_change_of(current, previous_close),
        r matches Some(x) ==> x.is_valid(),
{
    if previous_close.is_zero() {
        return Some(Dec::zero());
    }
    match checked_sub(current, previous_close) {
        None => None,
        Some(d) => match checked_div(d, previous_close) {
            None => None,
            Some(q) => checked_mul(q, Dec { negative: false, magnitude: 100, scale: 0 }),
        },
    }
}

/// `part` as a percentage of `whole`: `part / whole * 100`, zero when
/// `whole` is not positive.
pub open spec fn share_pct(part: Dec, whole: Dec) -> Option<Dec> {
    if dec_lt(dec_zero(), whole) {
        match decimal_quotient(part, whole) {
            None => None,
            Some(q) => dec_mul(q, hundred()),
        }
    } else {
        Some(dec_zero())
    }
}

/// `part` as a percentage of `whole` (zero when `whole` is not positive).
pub fn pct(part: Dec, whole: Dec) -> (r: Option<Dec>)
    requires
        part.is_valid(),
        whole.is_valid(),
    ensures
        r == share_pct(part, whole),
        r matches Some(x) ==> x.is_valid(),
{
    if less_than(Dec::zero(), whole) {
        match checked_div(part, whole) {
            None => None,
            Some(q) => checked_mul(q, Dec { negative: false, magnitude: 100, scale: 0 }),
        }
    } else {
        Some(Dec::zero())
    }
}

/// `(ticker, key)` rows ordered largest key first, stable.
pub open spec fn rows_by_key(live: Seq<Position>, keys: Seq<Dec>) -> Seq<(Seq<char>, Dec)> {
    let order = descending_order(keys, keys.len());
    Seq::new(keys.len(), |k: int| (live[order[k]].ticker@, keys[order[k]]))
}

/// `(ticker, weight %)` of every position with a live price, largest
/// first; `None` where a percentage overflows.
pub open spec fn allocation_of(positions: Seq<Position>, total_value: Dec) -> Option<Seq<(Seq<char>, Dec)>> {
    let live = live_of(positions);
    if forall|i: int| 0 <= i < live.len() ==> (#[trigger] share_pct(live[i].market_value, total_value)) is Some {
        Some(rows_by_key(live, Seq::new(live.len(), |i: int| share_pct(live[i].market_value, total_value)->0)))
    } else {
        None
    }
}

/// The rows of `keys`, ordered largest first (stable), with the ticker of
/// the position each key belongs to.
fn ordered_rows(ps: &Vec<Position>, idx: &Vec<usize>, keys: &Vec<Dec>) -> (r: Vec<(String, Dec)>)
    requires
        keys.len() == idx.len(),
        all_valid(keys@),
        forall|k: int| 0 <= k < idx.len() ==> #[trigger] idx@[k] < ps.len(),
    ensures
        r@.map_values(|e: (String, Dec)| (e.0@, e.1))
            == rows_by_key(idx@.map_values(|i: usize| ps@[i as int]), keys@),
        forall|q: int| 0 <= q < r.len() ==> (#[trigger] r@[q]).1.is_valid(),
{
    let order = sort_descending(keys);
    let ghost ord = order@.map_values(|x: usize| x as int);
    let ghost live = idx@.map_values(|i: usize| ps@[i as int]);
    let mut out: Vec<(String, Dec)> = Vec::new();
    let mut m: usize = 0;
    while m < order.len()
        invariant
            m <= order.len() == keys.len() == idx.len(),
            forall|k: int| 0 <= k < idx.len() ==> #[trigger] idx@[k] < ps.len(),
            forall|k: int| 0 <= k < order.len() ==> #[trigger] order@[k] < keys.len(),
            ord == order@.map_values(|x: usize| x as int),
            ord == descending_order(keys@, keys.len() as nat),
            live == idx@.map_values(|i: usize| ps@[i as int]),
            out.len() == m,
            all_valid(keys@),
            forall|q: int| 0 <= q < m ==> (#[trigger] out@[q]).0@ == live[ord[q]].ticker@ && out@[q].1 == keys@[ord[q]],
            forall|q: int| 0 <= q < m ==> (#[trigger] out@[q]).1.is_valid(),
        decreases order.len() - m,
    {
        let j = order[m];
        proof {
            assert(live[j as int] == ps@[idx@[j as int] as int]);
        }
        out.push((ps[idx[j]].ticker.clone(), keys[j]));
        m = m + 1;
    }
    proof {
        assert(out@.map_values(|e: (String, Dec)| (e.0@, e.1)) =~= rows_by_key(live, keys@));
    }
    out
}

/// Allocation of the live positions: `(ticker, weight %)` largest first
/// (`None` where `rust_decimal` overflows).
pub fn allocation(positions: &Vec<Position>, total_value: Dec) -> (r: Option<Vec<(String, Dec)>>)
    requires
        positions_valid(positions@),
        total_value.is_valid(),
    ensures
        match r {
            None => allocation_of(positions@, total_value) is None,
            Some(v) => allocation_of(positions@, total_value) == Some(v@.map_values(|e: (String, Dec)| (e.0@, e.1))),
        },
{
    let idx = live_indices(positions);
    let ghost live = live_of(positions@);
    let mut keys: Vec<Dec> = Vec::new();
    let mut k: usize = 0;
    while k < idx.len()
        invariant
            k <= idx.len(),
            positions_valid(positions@),
            total_value.is_valid(),
            forall|j: int| 0 <= j < idx.len() ==> #[trigger] idx@[j] < positions.len(),
            live == idx@.map_values(|i: usize| positions@[i as int]),
            live == live_of(positions@),
            keys.len() == k,
            all_valid(keys@),
            forall|j: int| 0 <= j < k ==> #[trigger] share_pct(live[j].market_value, total_value) == Some(keys@[j]),
        decreases idx.len() - k,
    {
        proof {
            assert(live[k as int] == positions@[idx@[k as int] as int]);
        }
        match pct(positions[idx[k]].market_value, total_value) {
            Some(x) => {
                keys.push(x);
            },
            None => {
                assert(!(forall|i: int| 0 <= i < live.len() ==> (#[trigger] share_pct(live[i].market_value, total_value)) is Some));
                return None;
            },
        }
        k = k + 1;
    }
    assert(keys@ == Seq::new(live.len(), |i: int| share_pct(live[i].market_value, total_value)->0));
    Some(ordered_rows(positions, &idx, &keys))
}

/// The market values of the positions.
pub open spec fn values_of(live: Seq<Position>) -> Seq<Dec> {
    Seq::new(live.len(), |i: int| live[i].market_value)
}

/// Each position's whole-percent weight: `market_value / total * 100`,
/// rounded.
pub open spec fn whole_pct(value: Dec, total: Dec) -> Option<Dec> {
    match decimal_quotient(value, total) {
        None => None,
        Some(q) => match dec_mul(q, hundred()) {
            None => None,
            Some(x) => Some(dec_round(x)),
        },
    }
}

/// Current weights of the live positions as editable target rows:
/// `(ticker, weight % rounded to a whole number, as text)`, largest first;
/// no rows when the live positions are worth nothing. `None` where
/// `rust_decimal` overflows.
pub open spec fn priced_weights_of(positions: Seq<Position>) -> Option<Seq<(Seq<char>, Seq<char>)>> {
    let live = live_of(positions);
    match dec_sum_seq(values_of(live)) {
        None => None,
        Some(total) => if !dec_lt(dec_zero(), total) {
            Some(Seq::empty())
        } else if forall|i: int| 0 <= i < live.len() ==> (#[trigger] whole_pct(live[i].market_value, total)) is Some {
            let rows = rows_by_key(live, Seq::new(live.len(), |i: int| whole_pct(live[i].market_value, total)->0));
            Some(Seq::new(rows.len(), |k: int| (rows[k].0, dec_text(rows[k].1))))
        } else {
            None
        },
    }
}

/// Current weights, rounded to whole percents, as editable rows.
pub fn priced_weights(positions: &Vec<Position>) -> (r: Option<Vec<(String, String)>>)
    requires
        positions_valid(positions@),
    ensures
        match r {
            None => priced_weights_of(positions@) is None,
            Some(v) => priced_weights_of(positions@) == Some(v@.map_values(|e: (String, String)| (e.0@, e.1@))),
        },
{
    let idx = live_indices(positions);
    let ghost live = live_of(positions@);
    let mut values: Vec<Dec> = Vec::new();
    let mut k: usize = 0;
    while k < idx.len()
        invariant
            k <= idx.len(),
            positions_valid(positions@),
            forall|j: int| 0 <= j < idx.len() ==> #[trigger] idx@[j] < positions.len(),
            live == idx@.map_values(|i: usize| positions@[i as int]),
            values@ == values_of(live).take(k as int),
            all_valid(values@),
        decreases idx.len() - k,
    {
        proof {
            assert(live[k as int] == positions@[idx@[k as int] as int]);
        }
        values.push(positions[idx[k]].market_value);
        k = k + 1;
        proof {
            assert(values@ == values_of(live).take(k as int));
        }
    }
    proof {
        assert(values@ == values_of(live));
    }
    let total = match sum(&values) {
        Some(t) => t,
        None => {
            return None;
        },
    };
    if !less_than(Dec::zero(), total) {
        let empty: Vec<(String, String)> = Vec::new();
        proof {
            assert(empty@.map_values(|e: (String, String)| (e.0@, e.1@)) =~= Seq::<(Seq<char>, Seq<char>)>::empty());
        }
        return Some(empty);
    }
    let mut keys: Vec<Dec> = Vec::new();
    let mut k: usize = 0;
    while k < idx.len()
        invariant
            k <= idx.len(),
            positions_valid(positions@),
            total.is_valid(),
            dec_sum_seq(values_of(live)) == Some(total),
            dec_lt(dec_zero(), total),
            forall|j: int| 0 <= j < idx.len() ==> #[trigger] idx@[j] < positions.len(),
            live == idx@.map_values(|i: usize| positions@[i as int]),
            live == live_of(positions@),
            keys.len() == k,
            all_valid(keys@),
            forall|j: int| 0 <= j < k ==> #[trigger] whole_pct(live[j].market_value, total) == Some(keys@[j]),
        decreases idx.len() - k,
    {
        proof {
            assert(live[k as int] == positions@[idx@[k as int] as int]);
        }
        let w = match checked_div(positions[idx[k]].market_value, total) {
            Some(q) => match checked_mul(q, Dec { negative: false, magnitude: 100, scale: 0 }) {
                Some(x) => round(x),
                None => {
                    assert(whole_pct(live[k as int].market_value, total) is None);
                    assert(!(forall|i: int| 0 <= i < live.len() ==> (#[trigger] whole_pct(live[i].market_value, total)) is Some));
                    return None;
                },
            },
            None => {
                assert(whole_pct(live[k as int].market_value, total) is None);
                assert(!(forall|i: int| 0 <= i < live.len() ==> (#[trigger] whole_pct(live[i].market_value, total)) is Some));
                return None;
            },
        };
        keys.push(w);
        k = k + 1;
    }
    assert(keys@ == Seq::new(live.len(), |i: int| whole_pct(live[i].market_value, total)->0));
    let rows = ordered_rows(positions, &idx, &keys);
    let ghost spec_rows = rows_by_key(live, keys@);
    let mut out: Vec<(String, String)> = Vec::new();
    let mut m: usize = 0;
    while m < rows.len()
        invariant
            m <= rows.len(),
            rows@.map_values(|e: (String, Dec)| (e.0@, e.1)) == spec_rows,
            spec_rows.len() == keys.len(),
            all_valid(keys@),
            forall|q: int| 0 <= q < rows.len() ==> (#[trigger] rows@[q]).1.is_valid(),
            out.len() == m,
            forall|q: int| 0 <= q < m ==> (#[trigger] out@[q]).0@ == spec_rows[q].0 && out@[q].1@ == dec_text(spec_rows[q].1),
        decreases rows.len() - m,
    {
        proof {
            assert(rows@[m as int].1 == spec_rows[m as int].1);
            assert(rows@[m as int].0@ == spec_rows[m as int].0);
        }
        let text = dec_to_string(rows[m].1);
        out.push((rows[m].0.clone(), text));
        m = m + 1;
    }
    proof {
        assert(out@.map_values(|e: (String, String)| (e.0@, e.1@))
            =~= Seq::new(spec_rows.len(), |k: int| (spec_rows[k].0, dec_text(spec_rows[k].1))));
    }
    Some(out)
}



/// Rows ordered by key list every position once, largest key first.
pub proof fn lemma_rows_largest_first(live: Seq<Position>, keys: Seq<Dec>)
    requires
        keys.len() == live.len(),
    ensures
        rows_by_key(live, keys).len() == live.len(),
        forall|a: int, b: int| 0 <= a < b < live.len()
            ==> !dec_lt((#[trigger] rows_by_key(live, keys)[a]).1, (#[trigger] rows_by_key(live, keys)[b]).1),
{
    lemma_descending_order_sorted(keys, keys.len());
}

/// The allocation lists every live position once, largest weight first.
pub proof fn lemma_allocation_largest_first(positions: Seq<Position>, total_value: Dec)
    requires
        allocation_of(positions, total_value) is Some,
    ensures
        ({
            let rows = allocation_of(positions, total_value)->0;
            &&& rows.len() == live_of(positions).len()
            &&& forall|a: int, b: int| 0 <= a < b < rows.len() ==> !dec_lt((#[trigger] rows[a]).1, (#[trigger] rows[b]).1)
        }),
{
    let live = live_of(positions);
    lemma_rows_largest_first(live, Seq::new(live.len(), |i: int| share_pct(live[i].market_value, total_value)->0));
}

} // verus!
