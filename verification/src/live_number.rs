//! The decisions of a number that rolls like an odometer when its value
//! changes: which way it rolls, and which old character each new one
//! replaces.

use vstd::prelude::*;
use crate::decimal::{dec_lt, less_than, Dec};

verus! {

/// Which way the changed characters scroll.
#[derive(Clone, Copy, PartialEq, Eq, Debug, Structural)]
pub enum Roll {
    Up,
    Down,
}

/// The roll a new value starts, given the last value and text shown:
/// none for the first value, for a change from an unloaded zero, or when
/// the text is the same; otherwise the old text, rolling down when the
/// value fell and up otherwise.
pub fn next_roll(last: &Option<(Dec, String)>, now: Dec, now_text: &String) -> (r: Option<(String, Roll)>)
    requires
        last matches Some(l) ==> l.0.is_valid(),
        now.is_valid(),
    ensures
        match last {
            Some(l) => if l.0.magnitude != 0 && l.1@ != now_text@ {
                r matches Some(x) && x.0@ == l.1@ && x.1 == (if dec_lt(now, l.0) { Roll::Down } else { Roll::Up })
            } else {
                r is None
            },
            None => r is None,
        },
{
    match last {
        Some((prev, prev_text)) => {
            if !prev.is_zero() && !(*prev_text == *now_text) {
                let dir = if less_than(now, *prev) { Roll::Down } else { Roll::Up };
                Some((prev_text.clone(), dir))
            } else {
                None
            }
        },
        None => None,
    }
}

/// The old character right-aligned with position `i` of a new text of
/// `new_len` characters, if the old text reaches that far left.
pub open spec fn aligned_char(old: Seq<char>, new_len: int, i: int) -> Option<char> {
    let j = i + old.len() - new_len;
    if 0 <= j < old.len() { Some(old[j]) } else { None }
}

/// For each position of the new text, the old character at the same
/// place counted from the right (`99.50` → `100.25` compares the right
/// digits).
pub fn align_right(old: &Vec<char>, new_len: usize) -> (r: Vec<Option<char>>)
    ensures
        r.len() == new_len,
        forall|i: int| 0 <= i < new_len ==> #[trigger] r@[i] == aligned_char(old@, new_len as int, i),
{
    let mut out: Vec<Option<char>> = Vec::new();
    let mut i: usize = 0;
    while i < new_len
        invariant
            i <= new_len,
            out.len() == i,
            forall|q: int| 0 <= q < i ==> #[trigger] out@[q] == aligned_char(old@, new_len as int, q),
        decreases new_len - i,
    {
        let c = if old.len() >= new_len {
            Some(old[i + (old.len() - new_len)])
        } else if i >= new_len - old.len() {
            Some(old[i - (new_len - old.len())])
        } else {
            None
        };
        out.push(c);
        i = i + 1;
    }
    out
}

} // verus!
