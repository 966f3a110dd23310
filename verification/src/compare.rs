//! Side-by-side comparison of stocks: measures grouped by section, and
//! quarters labelled from their end dates.

use vstd::prelude::*;
use vstd::string::StringExecFns;
use crate::parse::{char_code, char_index_at_byte, chars_in_bytes, chars_of, parse_int, parse_u32, utf8_width};
use crate::text::{nat_text, push_char, push_nat};

verus! {

/// Which direction is good for a measure.
#[derive(Clone, Copy, Debug, PartialEq, Eq, Structural)]
pub enum Better {
    Higher,
    Lower,
    /// Neither (market cap, say): no best or worst is marked.
    Neutral,
}

/// How a measure's values are written.
#[derive(Clone, Copy, Debug, PartialEq, Eq, Structural)]
pub enum Unit {
    /// Compact money, `$4.2B`.
    Money,
    /// A fraction shown as a percent, `0.42` → `42%`.
    Percent,
    /// A plain number, `1.23`.
    Number,
}

/// Every comparable measure, in display order: (group, label, unit, which
/// direction is good).
pub open spec fn measure_rows() -> Seq<(Seq<char>, Seq<char>, Unit, Better)> {
    seq![
        ("Valuation"@, "Market cap"@, Unit::Money, Better::Neutral),
        ("Valuation"@, "Trailing P/E"@, Unit::Number, Better::Lower),
        ("Valuation"@, "Forward P/E"@, Unit::Number, Better::Lower),
        ("Valuation"@, "Price / sales"@, Unit::Number, Better::Lower),
        ("Valuation"@, "Price / book"@, Unit::Number, Better::Lower),
        ("Valuation"@, "EV / revenue"@, Unit::Number, Better::Lower),
        ("Profitability"@, "Gross margin"@, Unit::Percent, Better::Higher),
        ("Profitability"@, "Operating margin"@, Unit::Percent, Better::Higher),
        ("Profitability"@, "Net margin"@, Unit::Percent, Better::Higher),
        ("Profitability"@, "Return on equity"@, Unit::Percent, Better::Higher),
        ("Growth"@, "Revenue growth (YoY)"@, Unit::Percent, Better::Higher),
        ("Growth"@, "Earnings growth (YoY)"@, Unit::Percent, Better::Higher),
        ("Financial health"@, "Debt / equity"@, Unit::Number, Better::Lower),
        ("Financial health"@, "Current ratio"@, Unit::Number, Better::Higher),
        ("Financial health"@, "Free cash flow margin"@, Unit::Percent, Better::Higher),
        ("Income"@, "Dividend yield"@, Unit::Percent, Better::Higher),
        ("Analysts"@, "Upside to target"@, Unit::Percent, Better::Higher),
        ("Analysts"@, "Rating (1 buy – 5 sell)"@, Unit::Number, Better::Lower),
    ]
}

pub open spec fn measure_table_view(rows: Seq<(String, String, Unit, Better)>) -> Seq<(Seq<char>, Seq<char>, Unit, Better)> {
    rows.map_values(|m: (String, String, Unit, Better)| (m.0@, m.1@, m.2, m.3))
}

fn row(group: &str, label: &str, unit: Unit, better: Better) -> (r: (String, String, Unit, Better))
    ensures
        r.0@ == group@,
        r.1@ == label@,
        r.2 == unit,
        r.3 == better,
{
    (String::from_str(group), String::from_str(label), unit, better)
}

/// The comparable measures (group, label, unit, better), in display order
/// (see [`measure_rows`]); the values each one reads come with the data.
pub fn measure_table() -> (r: Vec<(String, String, Unit, Better)>)
    ensures
        measure_table_view(r@) == measure_rows(),
{
    let mut v: Vec<(String, String, Unit, Better)> = Vec::new();
    v.push(row("Valuation", "Market cap", Unit::Money, Better::Neutral));
    v.push(row("Valuation", "Trailing P/E", Unit::Number, Better::Lower));
    v.push(row("Valuation", "Forward P/E", Unit::Number, Better::Lower));
    v.push(row("Valuation", "Price / sales", Unit::Number, Better::Lower));
    v.push(row("Valuation", "Price / book", Unit::Number, Better::Lower));
    v.push(row("Valuation", "EV / revenue", Unit::Number, Better::Lower));
    v.push(row("Profitability", "Gross margin", Unit::Percent, Better::Higher));
    v.push(row("Profitability", "Operating margin", Unit::Percent, Better::Higher));
    v.push(row("Profitability", "Net margin", Unit::Percent, Better::Higher));
    v.push(row("Profitability", "Return on equity", Unit::Percent, Better::Higher));
    v.push(row("Growth", "Revenue growth (YoY)", Unit::Percent, Better::Higher));
    v.push(row("Growth", "Earnings growth (YoY)", Unit::Percent, Better::Higher));
    v.push(row("Financial health", "Debt / equity", Unit::Number, Better::Lower));
    v.push(row("Financial health", "Current ratio", Unit::Number, Better::Higher));
    v.push(row("Financial health", "Free cash flow margin", Unit::Percent, Better::Higher));
    v.push(row("Income", "Dividend yield", Unit::Percent, Better::Higher));
    v.push(row("Analysts", "Upside to target", Unit::Percent, Better::Higher));
    v.push(row("Analysts", "Rating (1 buy – 5 sell)", Unit::Number, Better::Lower));
    assert(measure_table_view(v@) =~= measure_rows());
    v
}

/// `(index, label)` of each measure, grouped under the section of a run of
/// consecutive measures of one section, in order.
pub open spec fn grouped_of(ms: Seq<(Seq<char>, Seq<char>)>) -> Seq<(Seq<char>, Seq<(int, Seq<char>)>)>
    decreases ms.len(),
{
    if ms.len() == 0 {
        Seq::empty()
    } else {
        let g = grouped_of(ms.drop_last());
        let i = ms.len() - 1;
        let m = ms.last();
        if g.len() > 0 && g.last().0 == m.0 {
            g.update(g.len() - 1, (m.0, g.last().1.push((i, m.1))))
        } else {
            g.push((m.0, seq![(i, m.1)]))
        }
    }
}

pub open spec fn measures_view(ms: Seq<(String, String)>) -> Seq<(Seq<char>, Seq<char>)> {
    ms.map_values(|m: (String, String)| (m.0@, m.1@))
}

pub open spec fn item_view(items: Seq<(usize, String)>) -> Seq<(int, Seq<char>)> {
    items.map_values(|x: (usize, String)| (x.0 as int, x.1@))
}

pub open spec fn groups_view(gs: Seq<(String, Vec<(usize, String)>)>) -> Seq<(Seq<char>, Seq<(int, Seq<char>)>)> {
    gs.map_values(|g: (String, Vec<(usize, String)>)| (g.0@, item_view(g.1@)))
}

/// Measures grouped by section, keeping each measure's index.
pub fn group_measures(measures: &Vec<(String, String)>) -> (r: Vec<(String, Vec<(usize, String)>)>)
    ensures
        groups_view(r@) == grouped_of(measures_view(measures@)),
{
    let ghost ms = measures_view(measures@);
    let mut groups: Vec<(String, Vec<(usize, String)>)> = Vec::new();
    let mut i: usize = 0;
    proof {
        assert(ms.take(0) =~= Seq::<(Seq<char>, Seq<char>)>::empty());
        assert(groups_view(groups@) =~= Seq::<(Seq<char>, Seq<(int, Seq<char>)>)>::empty());
    }
    while i < measures.len()
        invariant
            i <= measures.len(),
            ms == measures_view(measures@),
            groups_view(groups@) == grouped_of(ms.take(i as int)),
        decreases measures.len() - i,
    {
        let ghost g = grouped_of(ms.take(i as int));
        proof {
            assert(ms.take(i + 1).drop_last() == ms.take(i as int));
            assert(ms.take(i + 1).last() == ms[i as int]);
            assert(ms[i as int] == (measures@[i as int].0@, measures@[i as int].1@));
        }
        let n = groups.len();
        let same = n > 0 && groups[n - 1].0 == measures[i].0;
        proof {
            if n > 0 {
                assert(g.last() == (groups@[n - 1].0@, item_view(groups@[n - 1].1@)));
            }
        }
        if same {
            let (name, mut items) = groups.pop().unwrap();
            let ghost items_before = items@;
            items.push((i, measures[i].1.clone()));
            proof {
                assert(item_view(items@) =~= item_view(items_before).push((i as int, measures@[i as int].1@)));
            }
            groups.push((name, items));
            proof {
                assert(groups_view(groups@) =~= g.update(g.len() - 1, (ms[i as int].0, g.last().1.push((i as int, ms[i as int].1)))));
            }
        } else {
            let mut items: Vec<(usize, String)> = Vec::new();
            items.push((i, measures[i].1.clone()));
            proof {
                assert(item_view(items@) =~= seq![(i as int, measures@[i as int].1@)]);
            }
            groups.push((measures[i].0.clone(), items));
            proof {
                assert(groups_view(groups@) =~= g.push((ms[i as int].0, seq![(i as int, ms[i as int].1)])));
            }
        }
        i = i + 1;
    }
    proof {
        assert(ms.take(measures.len() as int) == ms);
    }
    groups
}

/// Bytes `s` takes in UTF-8 (`str::len`).
pub open spec fn utf8_len(s: Seq<char>) -> nat
    decreases s.len(),
{
    if s.len() == 0 { 0 } else { utf8_len(s.drop_last()) + utf8_width(s.last()) }
}

/// Bytes the text takes in UTF-8.
pub fn byte_len(s: &Vec<char>) -> (r: usize)
    requires
        s.len() <= usize::MAX / 4,
    ensures
        r == utf8_len(s@),
{
    let mut n: usize = 0;
    let mut i: usize = 0;
    while i < s.len()
        invariant
            i <= s.len() <= usize::MAX / 4,
            n == utf8_len(s@.take(i as int)),
            n <= 4 * i,
        decreases s.len() - i,
    {
        proof {
            assert(s@.take(i + 1).drop_last() == s@.take(i as int));
        }
        let code = char_code(s[i]);
        let w: usize = if code < 0x80 { 1 } else if code < 0x800 { 2 } else if code < 0x10000 { 3 } else { 4 };
        n = n + w;
        i = i + 1;
    }
    proof {
        assert(s@.take(s.len() as int) == s@);
    }
    n
}

/// A quarter's figures as the comparison reads them.
pub struct PeriodFinancials {
    /// `YYYY-MM-DD` of the quarter's last day, when known.
    pub end_date: Option<String>,
    /// The period's own name, shown when there is no usable end date.
    pub period: String,
}

/// The slicing `quarter_label` does of an end date of seven bytes or more
/// is at character boundaries.
pub open spec fn slices_at_boundaries(d: Seq<char>) -> bool {
    utf8_len(d) >= 7 ==> {
        &&& chars_in_bytes(d, 2) is Some
        &&& chars_in_bytes(d, 4) is Some
        &&& chars_in_bytes(d, 5) is Some
        &&& chars_in_bytes(d, 7) is Some
    }
}

/// `Q3 '26` for a quarter ending `2026-09-30`: the quarter of the month
/// (bytes 5–7 read as a `u32`, 12 when they are not one), and bytes 2–4 of
/// the year; the period's name when there is no end date of at least
/// seven bytes.
pub open spec fn quarter_label_of(q: PeriodFinancials) -> Seq<char> {
    match q.end_date {
        Some(d) => if utf8_len(d@) >= 7 {
            let a = chars_in_bytes(d@, 5)->0;
            let b = chars_in_bytes(d@, 7)->0;
            let month = match parse_int(d@.subrange(a, b), false, 0, u32::MAX as int) {
                Some(m) => m,
                None => 12,
            };
            seq!['Q'] + nat_text(((month + 2) / 3) as nat) + seq![' ', '\'']
                + d@.subrange(chars_in_bytes(d@, 2)->0, chars_in_bytes(d@, 4)->0)
        } else {
            q.period@
        },
        None => q.period@,
    }
}

proof fn lemma_chars_in_bytes_monotone(s: Seq<char>, m: int, n: int)
    requires
        0 <= m <= n,
        chars_in_bytes(s, m) is Some,
        chars_in_bytes(s, n) is Some,
    ensures
        0 <= chars_in_bytes(s, m)->0 <= chars_in_bytes(s, n)->0 <= s.len(),
    decreases s.len(),
{
    if m != 0 {
        lemma_chars_in_bytes_monotone(s.drop_first(), m - utf8_width(s[0]), n - utf8_width(s[0]));
    } else if n != 0 {
        lemma_chars_in_bytes_monotone(s.drop_first(), 0, n - utf8_width(s[0]));
    }
}

/// A quarter's short label (see [`quarter_label_of`]).
pub fn quarter_label(q: &PeriodFinancials) -> (r: String)
    requires
        q.end_date matches Some(d) ==> slices_at_boundaries(d@) && d@.len() <= usize::MAX / 4,
    ensures
        r@ == quarter_label_of(*q),
{
    match &q.end_date {
        Some(d) => {
            let t = chars_of(d.as_str());
            if byte_len(&t) >= 7 {
                let i2 = char_index_at_byte(&t, 2).unwrap();
                let i4 = char_index_at_byte(&t, 4).unwrap();
                let i5 = char_index_at_byte(&t, 5).unwrap();
                let i7 = char_index_at_byte(&t, 7).unwrap();
                proof {
                    lemma_chars_in_bytes_monotone(t@, 2, 4);
                    lemma_chars_in_bytes_monotone(t@, 5, 7);
                }
                let month: u32 = match parse_u32(&t, i5, i7) {
                    Some(m) => m,
                    None => 12,
                };
                let quarter: u32 = month / 3 + if month % 3 != 0 { 1 } else { 0 };
                proof {
                    assert(quarter == (month + 2) / 3);
                }
                let mut out = String::new();
                push_char(&mut out, 'Q');
                push_nat(&mut out, quarter as u128);
                push_char(&mut out, ' ');
                push_char(&mut out, '\'');
                let mut k = i2;
                while k < i4
                    invariant
                        i2 <= k <= i4 <= t.len(),
                        out@ == seq!['Q'] + nat_text(quarter as nat) + seq![' ', '\''] + t@.subrange(i2 as int, k as int),
                    decreases i4 - k,
                {
                    push_char(&mut out, t[k]);
                    k = k + 1;
                    proof {
                        assert(t@.subrange(i2 as int, k as int) == t@.subrange(i2 as int, k - 1).push(t@[k - 1]));
                    }
                }
                out
            } else {
                q.period.clone()
            }
        },
        None => q.period.clone(),
    }
}

} // verus!
