//! Reading numbers and fields out of text, as `str::trim`, `str::splitn`
//! and integer `FromStr` do.

use vstd::prelude::*;

verus! {

/// The characters of `s` (`s.chars()` collected).
pub fn chars_of(s: &str) -> (r: Vec<char>)
    ensures
        r@ == s@,
{
    broadcast use vstd::string::group_string_axioms;

    let mut out: Vec<char> = Vec::new();
    for c in it: s.chars()
        invariant
            it.seq() == s@,
            out@ == s@.take(it.index() as int),
    {
        proof {
            assert(s@.take(it.index() + 1) == s@.take(it.index() as int).push(c));
        }
        out.push(c);
    }
    proof {
        assert(s@.take(s@.len() as int) == s@);
    }
    out
}

/// Unicode `White_Space`, which `char::is_whitespace` and `str::trim` use.
pub open spec fn is_whitespace(c: char) -> bool {
    let n = c as int;
    ||| 0x09 <= n <= 0x0D
    ||| n == 0x20 || n == 0x85 || n == 0xA0 || n == 0x1680
    ||| 0x2000 <= n <= 0x200A
    ||| n == 0x2028 || n == 0x2029 || n == 0x202F || n == 0x205F || n == 0x3000
}

pub fn is_whitespace_char(c: char) -> (r: bool)
    ensures
        r == is_whitespace(c),
{
    let n = c as u32;
    (0x09 <= n && n <= 0x0D) || n == 0x20 || n == 0x85 || n == 0xA0 || n == 0x1680 || (0x2000
        <= n && n <= 0x200A) || n == 0x2028 || n == 0x2029 || n == 0x202F || n == 0x205F || n
        == 0x3000
}

/// Number of white-space characters at the start of `s`.
pub open spec fn leading_ws(s: Seq<char>) -> nat
    decreases s.len(),
{
    if s.len() > 0 && is_whitespace(s[0]) {
        1 + leading_ws(s.drop_first())
    } else {
        0
    }
}

/// Number of white-space characters at the end of `s`.
pub open spec fn trailing_ws(s: Seq<char>) -> nat
    decreases s.len(),
{
    if s.len() > 0 && is_whitespace(s.last()) {
        1 + trailing_ws(s.drop_last())
    } else {
        0
    }
}

/// `s` without leading and trailing white space (`str::trim`).
pub open spec fn trimmed(s: Seq<char>) -> Seq<char> {
    let rest = s.skip(leading_ws(s) as int);
    rest.take(rest.len() - trailing_ws(rest))
}

proof fn lemma_leading_ws(s: Seq<char>, k: int)
    requires
        0 <= k <= s.len(),
        forall|i: int| 0 <= i < k ==> is_whitespace(#[trigger] s[i]),
        k == s.len() || !is_whitespace(s[k]),
    ensures
        leading_ws(s) == k,
    decreases k,
{
    if k > 0 {
        lemma_leading_ws(s.drop_first(), k - 1);
    }
}

proof fn lemma_trailing_ws(s: Seq<char>, k: int)
    requires
        0 <= k <= s.len(),
        forall|i: int| s.len() - k <= i < s.len() ==> is_whitespace(#[trigger] s[i]),
        k == s.len() || !is_whitespace(s[s.len() - k - 1]),
    ensures
        trailing_ws(s) == k,
    decreases k,
{
    if k > 0 {
        lemma_trailing_ws(s.drop_last(), k - 1);
    }
}

/// Bounds `[lo, hi)` of `s` trimmed of white space.
pub fn trim_bounds(s: &Vec<char>) -> (r: (usize, usize))
    ensures
        r.0 <= r.1 <= s.len(),
        s@.subrange(r.0 as int, r.1 as int) == trimmed(s@),
{
    let mut lo: usize = 0;
    while lo < s.len() && is_whitespace_char(s[lo])
        invariant
            lo <= s.len(),
            forall|i: int| 0 <= i < lo ==> is_whitespace(#[trigger] s@[i]),
        decreases s.len() - lo,
    {
        lo = lo + 1;
    }
    proof {
        lemma_leading_ws(s@, lo as int);
    }
    let ghost rest = s@.skip(lo as int);
    let mut hi: usize = s.len();
    while hi > lo && is_whitespace_char(s[hi - 1])
        invariant
            lo <= hi <= s.len(),
            forall|i: int| hi <= i < s.len() ==> is_whitespace(#[trigger] s@[i]),
        decreases hi,
    {
        hi = hi - 1;
    }
    proof {
        let k = s.len() - hi;
        assert forall|i: int| rest.len() - k <= i < rest.len() implies is_whitespace(
            #[trigger] rest[i],
        ) by {
            assert(rest[i] == s@[lo + i]);
        }
        if k < rest.len() {
            assert(rest[rest.len() - k - 1] == s@[hi - 1]);
        }
        lemma_trailing_ws(rest, k);
        assert(s@.subrange(lo as int, hi as int) == rest.take(rest.len() - k));
    }
    (lo, hi)
}

/// The code point of `c`.
pub fn char_code(c: char) -> (n: u32)
    ensures
        n as int == c as int,
{
    c as u32
}

pub open spec fn is_digit(c: char) -> bool {
    48 <= c as int <= 57
}

/// Value of a string of decimal digits.
pub open spec fn digits_value(s: Seq<char>) -> int
    decreases s.len(),
{
    if s.len() == 0 {
        0
    } else {
        digits_value(s.drop_last()) * 10 + (s.last() as int - 48)
    }
}

pub open spec fn all_digits(s: Seq<char>) -> bool {
    s.len() > 0 && forall|i: int| 0 <= i < s.len() ==> is_digit(#[trigger] s[i])
}

/// What integer `FromStr` reads from `s` for a type with range
/// `[min, max]`: an optional `+` (or `-` for signed types) and then at least
/// one decimal digit, nothing else; `None` when the text is malformed or the
/// value out of range.
pub open spec fn parse_int(s: Seq<char>, signed: bool, min: int, max: int) -> Option<int> {
    let neg = signed && s.len() > 0 && s[0] == '-';
    let digits = if s.len() > 0 && (s[0] == '+' || neg) { s.drop_first() } else { s };
    let v = if neg { -digits_value(digits) } else { digits_value(digits) };
    if all_digits(digits) && min <= v <= max {
        Some(v)
    } else {
        None
    }
}

proof fn lemma_digits_value_take(s: Seq<char>, k: int)
    requires
        0 <= k <= s.len(),
        forall|i: int| 0 <= i < s.len() ==> is_digit(#[trigger] s[i]),
    ensures
        0 <= digits_value(s.take(k)) <= digits_value(s),
    decreases s.len() - k,
{
    if k < s.len() {
        lemma_digits_value_take(s, k + 1);
        assert(s.take(k + 1).drop_last() == s.take(k));
    } else {
        assert(s.take(k) == s);
    }
    if k > 0 {
        lemma_digits_value_nonneg(s.take(k));
    }
}

proof fn lemma_digits_value_nonneg(s: Seq<char>)
    requires
        forall|i: int| 0 <= i < s.len() ==> is_digit(#[trigger] s[i]),
    ensures
        0 <= digits_value(s),
    decreases s.len(),
{
    if s.len() > 0 {
        lemma_digits_value_nonneg(s.drop_last());
    }
}

/// Value of the digits `s[lo..hi]` when they are all digits and the value
/// is at most `limit`.
fn digits_at_most(s: &Vec<char>, lo: usize, hi: usize, limit: u64) -> (r: Option<u64>)
    requires
        lo <= hi <= s.len(),
    ensures
        ({
            let t = s@.subrange(lo as int, hi as int);
            match r {
                Some(v) => all_digits(t) && v == digits_value(t) && v <= limit,
                None => !(all_digits(t) && digits_value(t) <= limit),
            }
        }),
{
    if lo == hi {
        return None;
    }
    let ghost t = s@.subrange(lo as int, hi as int);
    let mut v: u64 = 0;
    let mut i = lo;
    while i < hi
        invariant
            lo <= i <= hi <= s.len(),
            t == s@.subrange(lo as int, hi as int),
            forall|j: int| 0 <= j < i - lo ==> is_digit(#[trigger] t[j]),
            v == digits_value(t.take(i - lo)),
            v <= limit,
        decreases hi - i,
    {
        let c = s[i];
        let n = char_code(c);
        if n < 48 || n > 57 {
            assert(t[i - lo] == c);
            return None;
        }
        let d = (n - 48) as u64;
        assert(is_digit(c));
        proof {
            assert(t.take(i - lo + 1).drop_last() == t.take(i - lo));
            assert(t.take(i - lo + 1).last() == c);
        }
        assert(t[i - lo] == c);
        if d > limit || v > (limit - d) / 10 {
            proof {
                assert(forall|j: int| 0 <= j < i - lo + 1 ==> is_digit(#[trigger] t[j]));
                if all_digits(t) {
                    lemma_digits_value_take(t, i - lo + 1);
                }
            }
            return None;
        }
        v = v * 10 + d;
        i = i + 1;
    }
    proof {
        assert(t.take(hi - lo) == t);
    }
    Some(v)
}


/// Parses `s[lo..hi]` as integer `FromStr` does for a type with range
/// `[-neg_limit, pos_limit]` (signed exactly when `neg_limit > 0`).
fn parse_range(s: &Vec<char>, lo: usize, hi: usize, neg_limit: u64, pos_limit: u64) -> (r: Option<i128>)
    requires
        lo <= hi <= s.len(),
    ensures
        ({
            let p = parse_int(s@.subrange(lo as int, hi as int), neg_limit > 0, -neg_limit, pos_limit as int);
            match r {
                Some(v) => p == Some(v as int),
                None => p is None,
            }
        }),
{
    let ghost t = s@.subrange(lo as int, hi as int);
    let neg = neg_limit > 0 && lo < hi && s[lo] == '-';
    let start = if lo < hi && (s[lo] == '+' || neg) { lo + 1 } else { lo };
    proof {
        if start == lo + 1 {
            assert(s@.subrange(start as int, hi as int) == t.drop_first());
        }
    }
    let limit = if neg { neg_limit } else { pos_limit };
    match digits_at_most(s, start, hi, limit) {
        Some(v) => {
            if neg {
                Some(-(v as i128))
            } else {
                Some(v as i128)
            }
        },
        None => None,
    }
}

/// `s[lo..hi]` parsed as an `i64`.
pub fn parse_i64(s: &Vec<char>, lo: usize, hi: usize) -> (r: Option<i64>)
    requires
        lo <= hi <= s.len(),
    ensures
        ({
            let p = parse_int(s@.subrange(lo as int, hi as int), true, i64::MIN as int, i64::MAX as int);
            match r {
                Some(v) => p == Some(v as int),
                None => p is None,
            }
        }),
{
    match parse_range(s, lo, hi, 9_223_372_036_854_775_808u64, 9_223_372_036_854_775_807u64) {
        Some(v) => Some(v as i64),
        None => None,
    }
}

/// `s[lo..hi]` parsed as a `u32`.
pub fn parse_u32(s: &Vec<char>, lo: usize, hi: usize) -> (r: Option<u32>)
    requires
        lo <= hi <= s.len(),
    ensures
        ({
            let p = parse_int(s@.subrange(lo as int, hi as int), false, 0, u32::MAX as int);
            match r {
                Some(v) => p == Some(v as int),
                None => p is None,
            }
        }),
{
    match parse_range(s, lo, hi, 0, 4_294_967_295u64) {
        Some(v) => Some(v as u32),
        None => None,
    }
}

/// Index of the first `c` in `s`.
pub open spec fn index_of(s: Seq<char>, c: char) -> Option<int>
    decreases s.len(),
{
    if s.len() == 0 {
        None
    } else if s[0] == c {
        Some(0)
    } else {
        match index_of(s.drop_first(), c) {
            Some(i) => Some(i + 1),
            None => None,
        }
    }
}

proof fn lemma_index_of(s: Seq<char>, c: char, k: int)
    requires
        0 <= k <= s.len(),
        forall|i: int| 0 <= i < k ==> #[trigger] s[i] != c,
    ensures
        k == s.len() ==> index_of(s, c) is None,
        k < s.len() && s[k] == c ==> index_of(s, c) == Some(k),
    decreases k,
{
    if k > 0 {
        lemma_index_of(s.drop_first(), c, k - 1);
    }
}

/// First index of `c` in `s[lo..hi]`, counted from `lo`.
pub fn find_char(s: &Vec<char>, lo: usize, hi: usize, c: char) -> (r: Option<usize>)
    requires
        lo <= hi <= s.len(),
    ensures
        match r {
            Some(i) => i < hi - lo && index_of(s@.subrange(lo as int, hi as int), c) == Some(i as int),
            None => index_of(s@.subrange(lo as int, hi as int), c) is None,
        },
{
    let ghost t = s@.subrange(lo as int, hi as int);
    let mut i = lo;
    while i < hi
        invariant
            lo <= i <= hi <= s.len(),
            t == s@.subrange(lo as int, hi as int),
            forall|j: int| 0 <= j < i - lo ==> #[trigger] t[j] != c,
        decreases hi - i,
    {
        if s[i] == c {
            proof {
                lemma_index_of(t, c, i - lo);
            }
            return Some(i - lo);
        }
        i = i + 1;
    }
    proof {
        lemma_index_of(t, c, i - lo);
    }
    None
}

/// The first three pieces of `s` split at `c` (`str::splitn(3, c)`), when
/// there are three.
pub open spec fn split3(s: Seq<char>, c: char) -> Option<(Seq<char>, Seq<char>, Seq<char>)> {
    match index_of(s, c) {
        None => None,
        Some(i) => {
            let rest = s.skip(i + 1);
            match index_of(rest, c) {
                None => None,
                Some(j) => Some((s.take(i), rest.take(j), rest.skip(j + 1))),
            }
        },
    }
}


/// `s[lo..hi]` parsed as an `i32`.
pub fn parse_i32(s: &Vec<char>, lo: usize, hi: usize) -> (r: Option<i32>)
    requires
        lo <= hi <= s.len(),
    ensures
        ({
            let p = parse_int(s@.subrange(lo as int, hi as int), true, i32::MIN as int, i32::MAX as int);
            match r {
                Some(v) => p == Some(v as int),
                None => p is None,
            }
        }),
{
    match parse_range(s, lo, hi, 2_147_483_648u64, 2_147_483_647u64) {
        Some(v) => Some(v as i32),
        None => None,
    }
}

/// `s[lo..hi]` parsed as a `usize`.
pub fn parse_usize(s: &Vec<char>, lo: usize, hi: usize) -> (r: Option<usize>)
    requires
        lo <= hi <= s.len(),
    ensures
        ({
            let p = parse_int(s@.subrange(lo as int, hi as int), false, 0, usize::MAX as int);
            match r {
                Some(v) => p == Some(v as int),
                None => p is None,
            }
        }),
{
    match parse_range(s, lo, hi, 0, usize::MAX as u64) {
        Some(v) => Some(v as usize),
        None => None,
    }
}

/// Bytes `c` takes in UTF-8.
pub open spec fn utf8_width(c: char) -> nat {
    if (c as int) < 0x80 { 1 } else if (c as int) < 0x800 { 2 } else if (c as int) < 0x10000 { 3 } else { 4 }
}

/// How many characters of `s` make up exactly its first `n` bytes in
/// UTF-8; `None` when byte `n` falls inside a character or past the end
/// (where `str::get` with that index fails).
pub open spec fn chars_in_bytes(s: Seq<char>, n: int) -> Option<int>
    decreases s.len(),
{
    if n == 0 {
        Some(0)
    } else if s.len() == 0 || n < utf8_width(s[0]) {
        None
    } else {
        match chars_in_bytes(s.drop_first(), n - utf8_width(s[0])) {
            None => None,
            Some(k) => Some(k + 1),
        }
    }
}

spec fn shifted(o: Option<int>, i: int) -> Option<int> {
    match o {
        None => None,
        Some(k) => Some(k + i),
    }
}

/// The character index at byte `n` of the text `s` (see [`chars_in_bytes`]).
pub fn char_index_at_byte(s: &Vec<char>, n: usize) -> (r: Option<usize>)
    ensures
        match r {
            Some(k) => chars_in_bytes(s@, n as int) == Some(k as int) && k <= s.len(),
            None => chars_in_bytes(s@, n as int) is None,
        },
{
    let mut i: usize = 0;
    let mut b: usize = 0;
    proof {
        assert(s@.skip(0) == s@);
    }
    while b < n
        invariant
            i <= s.len(),
            b <= n,
            chars_in_bytes(s@, n as int) == shifted(chars_in_bytes(s@.skip(i as int), n - b), i as int),
        decreases n - b,
    {
        if i == s.len() {
            return None;
        }
        let code = char_code(s[i]);
        let w: usize = if code < 0x80 { 1 } else if code < 0x800 { 2 } else if code < 0x10000 { 3 } else { 4 };
        proof {
            assert(s@.skip(i as int)[0] == s@[i as int]);
            assert(w == utf8_width(s@[i as int]));
        }
        if n - b < w {
            return None;
        }
        proof {
            assert(s@.skip(i as int).drop_first() == s@.skip(i + 1));
        }
        b = b + w;
        i = i + 1;
    }
    Some(i)
}

} // verus!
