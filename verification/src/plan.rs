//! Rebalancing targets typed on the plan tab.

use vstd::prelude::*;
use crate::decimal::{all_valid, dec_sum_seq, sum, Dec};
use crate::editors::{read_decimal, opt_text, parse_trimmed};
use crate::parse::trimmed;

verus! {

/// The target rows that read: `(ticker, weight %)` for every row whose
/// ticker the ticker check accepted (`Some`) and whose weight, trimmed,
/// is a `Decimal`; the others are left out, in order.
pub open spec fn targets_of(rows: Seq<(Option<Seq<char>>, Seq<char>)>) -> Seq<(Seq<char>, Dec)>
    decreases rows.len(),
{
    if rows.len() == 0 {
        Seq::empty()
    } else {
        let rest = targets_of(rows.drop_last());
        let row = rows.last();
        match (row.0, read_decimal(trimmed(row.1))) {
            (Some(t), Some(w)) => rest.push((t, w)),
            _ => rest,
        }
    }
}

pub open spec fn rows_view(rows: Seq<(Option<String>, String)>) -> Seq<(Option<Seq<char>>, Seq<char>)> {
    rows.map_values(|r: (Option<String>, String)| (opt_text(r.0), r.1@))
}

/// The target rows as typed: each row's ticker as the ticker check gave
/// it (`None` when refused) and its weight text.
pub fn parse_targets(rows: &Vec<(Option<String>, String)>) -> (r: Vec<(String, Dec)>)
    ensures
        r@.map_values(|t: (String, Dec)| (t.0@, t.1)) == targets_of(rows_view(rows@)),
        forall|i: int| 0 <= i < r.len() ==> (#[trigger] r@[i]).1.is_valid(),
{
    let ghost v = rows_view(rows@);
    let mut out: Vec<(String, Dec)> = Vec::new();
    let mut i: usize = 0;
    proof {
        assert(v.take(0) =~= Seq::<(Option<Seq<char>>, Seq<char>)>::empty());
        assert(out@.map_values(|t: (String, Dec)| (t.0@, t.1)) =~= Seq::<(Seq<char>, Dec)>::empty());
    }
    while i < rows.len()
        invariant
            i <= rows.len(),
            v == rows_view(rows@),
            out@.map_values(|t: (String, Dec)| (t.0@, t.1)) == targets_of(v.take(i as int)),
            forall|k: int| 0 <= k < out.len() ==> (#[trigger] out@[k]).1.is_valid(),
        decreases rows.len() - i,
    {
        proof {
            assert(v.take(i + 1).drop_last() == v.take(i as int));
            assert(v.take(i + 1).last() == v[i as int]);
        }
        let ghost before = out@;
        match &rows[i].0 {
            Some(t) => match parse_trimmed(rows[i].1.as_str()) {
                Some(w) => {
                    out.push((t.clone(), w));
                    proof {
                        assert(out@.map_values(|t: (String, Dec)| (t.0@, t.1))
                            =~= before.map_values(|t: (String, Dec)| (t.0@, t.1)).push((v[i as int].0->0, w)));
                    }
                },
                None => {},
            },
            None => {},
        }
        i = i + 1;
    }
    proof {
        assert(v.take(rows.len() as int) == v);
    }
    out
}

/// The weights of the targets.
pub open spec fn weights_of_targets(targets: Seq<(Seq<char>, Dec)>) -> Seq<Dec> {
    Seq::new(targets.len(), |i: int| targets[i].1)
}

/// Sum of the target weights, shown next to the rows (`None` where the
/// sum overflows).
pub fn target_total(targets: &Vec<(String, Dec)>) -> (r: Option<Dec>)
    requires
        forall|i: int| 0 <= i < targets.len() ==> (#[trigger] targets@[i]).1.is_valid(),
    ensures
        r == dec_sum_seq(weights_of_targets(targets@.map_values(|t: (String, Dec)| (t.0@, t.1)))),
{
    let mut ws: Vec<Dec> = Vec::new();
    let mut i: usize = 0;
    while i < targets.len()
        invariant
            i <= targets.len(),
            forall|k: int| 0 <= k < targets.len() ==> (#[trigger] targets@[k]).1.is_valid(),
            ws@ == weights_of_targets(targets@.map_values(|t: (String, Dec)| (t.0@, t.1))).take(i as int),
            all_valid(ws@),
        decreases targets.len() - i,
    {
        ws.push(targets[i].1);
        i = i + 1;
        proof {
            assert(ws@ == weights_of_targets(targets@.map_values(|t: (String, Dec)| (t.0@, t.1))).take(i as int));
        }
    }
    proof {
        assert(ws@ == weights_of_targets(targets@.map_values(|t: (String, Dec)| (t.0@, t.1))));
    }
    sum(&ws)
}

} // verus!
