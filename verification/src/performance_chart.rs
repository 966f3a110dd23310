//! What the lines of the performance chart show, and their names.

use vstd::prelude::*;
use vstd::string::StringExecFns;

verus! {

/// What a chart line shows.
pub enum Pick {
    AllHoldings,
    /// Portfolio id.
    Portfolio(String),
    Ticker(String),
}

/// The line for all holdings, or for the portfolio with id `portfolio`.
pub fn holdings_pick(portfolio: Option<String>) -> (r: Pick)
    ensures
        match portfolio {
            Some(id) => r matches Pick::Portfolio(x) && x@ == id@,
            None => r is AllHoldings,
        },
{
    match portfolio {
        Some(id) => Pick::Portfolio(id),
        None => Pick::AllHoldings,
    }
}

/// The market indexes a line can follow: symbol and name.
pub open spec fn index_name(symbol: Seq<char>) -> Option<Seq<char>> {
    if symbol == "^GSPC"@ {
        Some("S&P 500"@)
    } else if symbol == "^NDX"@ {
        Some("Nasdaq 100"@)
    } else if symbol == "^DJI"@ {
        Some("Dow Jones"@)
    } else {
        None
    }
}

/// The name given to `id` in `(id, name)` pairs (the first match).
pub open spec fn name_for(portfolios: Seq<(String, String)>, id: Seq<char>) -> Option<Seq<char>>
    decreases portfolios.len(),
{
    if portfolios.len() == 0 {
        None
    } else if portfolios[0].0@ == id {
        Some(portfolios[0].1@)
    } else {
        name_for(portfolios.drop_first(), id)
    }
}

/// A line's name: "All holdings", the portfolio's name ("Portfolio" when
/// it is not among `portfolios`), or the index's name (the ticker itself
/// for a stock).
pub open spec fn pick_name_of(pick: Pick, portfolios: Seq<(String, String)>) -> Seq<char> {
    match pick {
        Pick::AllHoldings => "All holdings"@,
        Pick::Portfolio(id) => match name_for(portfolios, id@) {
            Some(n) => n,
            None => "Portfolio"@,
        },
        Pick::Ticker(t) => match index_name(t@) {
            Some(n) => n,
            None => t@,
        },
    }
}

fn index_name_of(symbol: &String) -> (r: Option<&'static str>)
    ensures
        match index_name(symbol@) {
            Some(n) => r matches Some(x) && x@ == n,
            None => r is None,
        },
{
    if *symbol == String::from_str("^GSPC") {
        Some("S&P 500")
    } else if *symbol == String::from_str("^NDX") {
        Some("Nasdaq 100")
    } else if *symbol == String::from_str("^DJI") {
        Some("Dow Jones")
    } else {
        None
    }
}

/// The name given to the portfolio `id` in `(id, name)` pairs (the first
/// match), if any.
pub fn portfolio_name(portfolios: &Vec<(String, String)>, id: &String) -> (r: Option<String>)
    ensures
        match name_for(portfolios@, id@) {
            Some(n) => r matches Some(x) && x@ == n,
            None => r is None,
        },
{
    let mut i: usize = 0;
    assert(portfolios@.skip(0) == portfolios@);
    while i < portfolios.len()
        invariant
            i <= portfolios.len(),
            name_for(portfolios@, id@) == name_for(portfolios@.skip(i as int), id@),
        decreases portfolios.len() - i,
    {
        proof {
            assert(portfolios@.skip(i as int)[0] == portfolios@[i as int]);
            assert(portfolios@.skip(i as int).drop_first() == portfolios@.skip(i + 1));
        }
        if portfolios[i].0 == *id {
            assert(portfolios@.skip(i as int).len() > 0);
            assert(name_for(portfolios@.skip(i as int), id@) == Some(portfolios@[i as int].1@));
            return Some(portfolios[i].1.clone());
        }
        i = i + 1;
    }
    None
}

/// A line's name (see [`pick_name_of`]).
pub fn pick_name(pick: &Pick, portfolios: &Vec<(String, String)>) -> (r: String)
    ensures
        r@ == pick_name_of(*pick, portfolios@),
{
    match pick {
        Pick::AllHoldings => String::from_str("All holdings"),
        Pick::Portfolio(id) => match portfolio_name(portfolios, id) {
            Some(n) => n,
            None => String::from_str("Portfolio"),
        },
        Pick::Ticker(t) => match index_name_of(t) {
            Some(n) => String::from_str(n),
            None => t.clone(),
        },
    }
}

/// A line as plain values: its kind (0 all holdings, 1 a portfolio, 2 a
/// ticker) and its id or symbol.
pub open spec fn pick_key(p: Pick) -> (int, Seq<char>) {
    match p {
        Pick::AllHoldings => (0, Seq::empty()),
        Pick::Portfolio(id) => (1, id@),
        Pick::Ticker(t) => (2, t@),
    }
}

pub open spec fn picks_view(picks: Seq<Pick>) -> Seq<(int, Seq<char>)> {
    picks.map_values(|p: Pick| pick_key(p))
}

/// The place of the first line that shows holdings (all of them or a
/// portfolio's), if there is one.
pub open spec fn first_holdings_line(lines: Seq<(int, Seq<char>)>) -> Option<int>
    decreases lines.len(),
{
    if lines.len() == 0 {
        None
    } else if lines[0].0 != 2 {
        Some(0)
    } else {
        match first_holdings_line(lines.drop_first()) {
            Some(i) => Some(i + 1),
            None => None,
        }
    }
}

/// The lines after the chosen portfolio changes to the line `mine`: the
/// first holdings line becomes `mine` in its place, or `mine` is added
/// last when no line shows holdings; every other line stays.
pub open spec fn followed(lines: Seq<(int, Seq<char>)>, mine: (int, Seq<char>)) -> Seq<(int, Seq<char>)> {
    match first_holdings_line(lines) {
        Some(i) => lines.update(i, mine),
        None => lines.push(mine),
    }
}

proof fn lemma_first_holdings_line(lines: Seq<(int, Seq<char>)>, i: int)
    requires
        0 <= i <= lines.len(),
        forall|j: int| 0 <= j < i ==> (#[trigger] lines[j]).0 == 2,
    ensures
        i < lines.len() && lines[i].0 != 2 ==> first_holdings_line(lines) == Some(i),
        i == lines.len() ==> first_holdings_line(lines) is None,
    decreases i,
{
    if i > 0 {
        let rest = lines.drop_first();
        assert forall|j: int| 0 <= j < i - 1 implies (#[trigger] rest[j]).0 == 2 by {
            assert(rest[j] == lines[j + 1]);
        }
        lemma_first_holdings_line(rest, i - 1);
        assert(lines[0].0 == 2);
        if i < lines.len() {
            assert(rest[i - 1] == lines[i]);
        }
    } else if lines.len() > 0 {
    }
}

/// The holdings line for `portfolio` (all holdings when `None`), as plain
/// values.
pub open spec fn holdings_key(portfolio: Option<String>) -> (int, Seq<char>) {
    match portfolio {
        Some(id) => (1, id@),
        None => (0, Seq::empty()),
    }
}

/// The chart keeps following the chosen portfolio (all holdings when
/// `None`): the first line that shows holdings is replaced by that
/// portfolio's line, or the line is added when none shows holdings; the
/// other lines stay (see [`followed`]).
pub fn follow_portfolio(picks: &mut Vec<Pick>, portfolio: Option<String>)
    ensures
        picks_view(final(picks)@) == followed(picks_view(old(picks)@), holdings_key(portfolio)),
{
    let ghost before = picks_view(picks@);
    let ghost key = holdings_key(portfolio);
    let mine = holdings_pick(portfolio);
    assert(pick_key(mine) == key);
    let mut i: usize = 0;
    while i < picks.len()
        invariant
            i <= picks.len(),
            before == picks_view(picks@),
            before == picks_view(old(picks)@),
            pick_key(mine) == key,
            key == holdings_key(portfolio),
            forall|j: int| 0 <= j < i ==> (#[trigger] before[j]).0 == 2,
        decreases picks.len() - i,
    {
        let line = match &picks[i] {
            Pick::Ticker(_) => false,
            _ => true,
        };
        if line {
            proof {
                assert(before[i as int] == pick_key(picks@[i as int]));
                assert(before[i as int].0 != 2);
                lemma_first_holdings_line(before, i as int);
                assert(followed(before, key) == before.update(i as int, key));
            }
            picks.set(i, mine);
            proof {
                assert(picks_view(picks@) =~= before.update(i as int, key));
            }
            return;
        }
        i = i + 1;
    }
    proof {
        lemma_first_holdings_line(before, i as int);
    }
    picks.push(mine);
    proof {
        assert(picks_view(picks@) =~= before.push(key));
    }
}

} // verus!
