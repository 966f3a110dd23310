//! Decimal amounts as `rust_decimal::Decimal` stores them (sign, 96-bit
//! magnitude, scale up to 28), with the operations the analytics use.
//! Arithmetic is `rust_decimal`'s own; rounding, truncation and text are
//! written here against `rust_decimal`'s documented behaviour.

use rust_decimal::Decimal;
use vstd::prelude::*;
use crate::text::{nat_chars, nat_text, pad_zeros, push_char, push_slice, zero_padded};

verus! {

/// A decimal number `±magnitude / 10^scale`. The sign is kept even for a
/// zero magnitude, as `rust_decimal` does (`-0.00` exists).
#[derive(Clone, Copy, Debug, PartialEq, Eq, Structural)]
pub struct Dec {
    pub negative: bool,
    pub magnitude: u128,
    pub scale: u32,
}

/// `10^n`.
pub open spec fn pow10(n: nat) -> nat
    decreases n,
{
    if n == 0 { 1 } else { 10 * pow10((n - 1) as nat) }
}

/// 2^96: magnitudes stay below it.
pub open spec fn magnitude_bound() -> nat {
    0x1_0000_0000_0000_0000_0000_0000
}

impl Dec {
    /// A value `rust_decimal` can hold.
    pub open spec fn is_valid(self) -> bool {
        self.magnitude < magnitude_bound() && self.scale <= 28
    }

    /// The signed integer `m` of the value `m / 10^scale`.
    pub open spec fn signed(self) -> int {
        if self.negative { -(self.magnitude as int) } else { self.magnitude as int }
    }

    /// `Decimal::ZERO`.
    pub fn zero() -> (r: Dec)
        ensures
            r == (Dec { negative: false, magnitude: 0, scale: 0 }),
    {
        Dec { negative: false, magnitude: 0, scale: 0 }
    }

    /// `Decimal::ONE`.
    pub fn one() -> (r: Dec)
        ensures
            r == (Dec { negative: false, magnitude: 1, scale: 0 }),
    {
        Dec { negative: false, magnitude: 1, scale: 0 }
    }

    /// `Decimal::new(mantissa, scale)`: `mantissa / 10^scale`.
    pub fn new(mantissa: i64, scale: u32) -> (r: Dec)
        requires
            scale <= 28,
        ensures
            r.is_valid(),
            r.signed() == mantissa,
            r.scale == scale,
            r.negative == (mantissa < 0),
    {
        let magnitude: u128 = if mantissa < 0 {
            (-(mantissa as i128)) as u128
        } else {
            mantissa as u128
        };
        Dec { negative: mantissa < 0, magnitude, scale }
    }

    /// `Decimal::from(n)`: the whole number `n`.
    pub fn from_u64(n: u64) -> (r: Dec)
        ensures
            r == (Dec { negative: false, magnitude: n as u128, scale: 0 }),
            r.is_valid(),
    {
        Dec { negative: false, magnitude: n as u128, scale: 0 }
    }

    /// The mantissa `Decimal::mantissa` reports.
    pub fn mantissa(&self) -> (r: i128)
        requires
            self.is_valid(),
        ensures
            r == self.signed(),
    {
        if self.negative {
            -(self.magnitude as i128)
        } else {
            self.magnitude as i128
        }
    }

    /// `Decimal::is_zero`.
    pub fn is_zero(&self) -> (r: bool)
        ensures
            r == (self.magnitude == 0),
    {
        self.magnitude == 0
    }

    /// `Decimal::is_sign_negative`: the sign bit, set for `-0` too.
    pub fn is_sign_negative(&self) -> (r: bool)
        ensures
            r == self.negative,
    {
        self.negative
    }
}

/// The value order of decimals (`-0` equals `0`).
pub open spec fn dec_lt(a: Dec, b: Dec) -> bool {
    a.signed() * pow10(b.scale as nat) < b.signed() * pow10(a.scale as nat)
}

/// What `rust_decimal`'s `checked_add` returns.
pub uninterp spec fn decimal_sum(a: Dec, b: Dec) -> Option<Dec>;

/// What `rust_decimal`'s `checked_sub` returns.
pub uninterp spec fn decimal_difference(a: Dec, b: Dec) -> Option<Dec>;

/// What `rust_decimal`'s `checked_mul` returns.
pub uninterp spec fn decimal_product(a: Dec, b: Dec) -> Option<Dec>;

/// What `rust_decimal`'s `checked_div` returns.
pub uninterp spec fn decimal_quotient(a: Dec, b: Dec) -> Option<Dec>;

/// 2^64.
pub open spec fn word_bound() -> nat {
    0x1_0000_0000_0000_0000
}

/// The larger of the two scales.
pub open spec fn max_scale(a: Dec, b: Dec) -> nat {
    if a.scale >= b.scale { a.scale as nat } else { b.scale as nat }
}

/// The signed mantissa of `d` written with `scale >= d.scale` decimals.
pub open spec fn aligned(d: Dec, scale: nat) -> int {
    d.signed() * pow10((scale - d.scale) as nat)
}

/// The decimal with signed mantissa `s` at `scale`; a zero is positive.
pub open spec fn dec_of(s: int, scale: nat) -> Dec {
    Dec { negative: s < 0, magnitude: (if s < 0 { -s } else { s }) as u128, scale: scale as u32 }
}

/// `a + b` as a mantissa at the larger scale.
pub open spec fn sum_value(a: Dec, b: Dec) -> int {
    aligned(a, max_scale(a, b)) + aligned(b, max_scale(a, b))
}

/// `a - b` as a mantissa at the larger scale.
pub open spec fn difference_value(a: Dec, b: Dec) -> int {
    aligned(a, max_scale(a, b)) - aligned(b, max_scale(a, b))
}

/// Where `rust_decimal` adds or subtracts two nonzero operands without
/// rounding: both at one scale, or both below 2^64 with scales at most 19
/// apart; and the exact result `s` (at the larger scale) fits in 96 bits.
pub open spec fn exact_sum_case(a: Dec, b: Dec, s: int) -> bool {
    &&& a.magnitude != 0 && b.magnitude != 0
    &&& a.scale == b.scale || (a.magnitude < word_bound() && b.magnitude < word_bound() && a.scale - b.scale <= 19 && b.scale - a.scale <= 19)
    &&& -(magnitude_bound() as int) < s < magnitude_bound()
}

/// Where `rust_decimal` multiplies two nonzero operands without rounding:
/// the scales add up to at most 28 and the mantissas' product fits in 96
/// bits.
pub open spec fn exact_product_case(a: Dec, b: Dec) -> bool {
    &&& a.magnitude != 0 && b.magnitude != 0
    &&& a.scale + b.scale <= 28
    &&& a.magnitude * b.magnitude < magnitude_bound()
}

/// `Decimal::checked_add`: a zero operand gives the other one back as it
/// is; otherwise the exact sum where [`exact_sum_case`] holds; the rounded
/// or overflowing cases are named.
pub open spec fn dec_add(a: Dec, b: Dec) -> Option<Dec> {
    if a.magnitude == 0 {
        Some(b)
    } else if b.magnitude == 0 {
        Some(a)
    } else if exact_sum_case(a, b, sum_value(a, b)) {
        Some(dec_of(sum_value(a, b), max_scale(a, b)))
    } else {
        decimal_sum(a, b)
    }
}

/// `b` with its sign flipped, unless it is zero.
pub open spec fn dec_neg_nonzero(b: Dec) -> Dec {
    if b.magnitude == 0 { b } else { Dec { negative: !b.negative, ..b } }
}

/// `Decimal::checked_sub`, as [`dec_add`]: `0 - b` is `b` with its sign
/// flipped (unless `b` is zero), `a - 0` is `a`.
pub open spec fn dec_sub(a: Dec, b: Dec) -> Option<Dec> {
    if a.magnitude == 0 {
        Some(dec_neg_nonzero(b))
    } else if b.magnitude == 0 {
        Some(a)
    } else if exact_sum_case(a, b, difference_value(a, b)) {
        Some(dec_of(difference_value(a, b), max_scale(a, b)))
    } else {
        decimal_difference(a, b)
    }
}

/// `Decimal::checked_mul`: `0` (scale 0) when either operand is zero, the
/// exact product where [`exact_product_case`] holds; the rounded or
/// overflowing cases are named.
pub open spec fn dec_mul(a: Dec, b: Dec) -> Option<Dec> {
    if a.magnitude == 0 || b.magnitude == 0 {
        Some(Dec { negative: false, magnitude: 0, scale: 0 })
    } else if exact_product_case(a, b) {
        Some(Dec { negative: a.negative != b.negative, magnitude: (a.magnitude * b.magnitude) as u128, scale: (a.scale + b.scale) as u32 })
    } else {
        decimal_product(a, b)
    }
}

/// `Decimal::checked_add` (ops/add.rs): `a + b`. A zero operand hands the
/// other back unchanged (sign of zero included). Two nonzero operands at one
/// scale, or both below 2^64 with scales at most 19 apart, are aligned to
/// the larger scale and added exactly when the result fits in 96 bits; a
/// zero result is positive. Other sums are rounded to fit or overflow
/// (`None`); that result is named, not stated.
#[verifier::external_body]
pub(crate) fn checked_add(a: Dec, b: Dec) -> (r: Option<Dec>)
    requires
        a.is_valid(),
        b.is_valid(),
    ensures
        r == decimal_sum(a, b),
        a.magnitude == 0 ==> r == Some(b),
        a.magnitude != 0 && b.magnitude == 0 ==> r == Some(a),
        exact_sum_case(a, b, sum_value(a, b)) ==> r == Some(dec_of(sum_value(a, b), max_scale(a, b))),
        r matches Some(x) ==> x.is_valid(),
{
    let mut x = Decimal::from_i128_with_scale(a.magnitude as i128, a.scale);
    x.set_sign_negative(a.negative);
    let mut y = Decimal::from_i128_with_scale(b.magnitude as i128, b.scale);
    y.set_sign_negative(b.negative);
    match x.checked_add(y) {
        Some(z) => Some(Dec { negative: z.is_sign_negative(), magnitude: z.mantissa().unsigned_abs(), scale: z.scale() }),
        None => None,
    }
}

/// `Decimal::checked_sub` (ops/add.rs, the same code as `checked_add`):
/// `a - b`. `0 - b` is `b` with its sign flipped unless `b` is zero, `a - 0`
/// is `a`; the exact cases are those of [`checked_add`]; other differences
/// are named.
#[verifier::external_body]
pub(crate) fn checked_sub(a: Dec, b: Dec) -> (r: Option<Dec>)
    requires
        a.is_valid(),
        b.is_valid(),
    ensures
        r == decimal_difference(a, b),
        a.magnitude == 0 ==> r == Some(dec_neg_nonzero(b)),
        a.magnitude != 0 && b.magnitude == 0 ==> r == Some(a),
        exact_sum_case(a, b, difference_value(a, b)) ==> r == Some(dec_of(difference_value(a, b), max_scale(a, b))),
        r matches Some(x) ==> x.is_valid(),
{
    let mut x = Decimal::from_i128_with_scale(a.magnitude as i128, a.scale);
    x.set_sign_negative(a.negative);
    let mut y = Decimal::from_i128_with_scale(b.magnitude as i128, b.scale);
    y.set_sign_negative(b.negative);
    match x.checked_sub(y) {
        Some(z) => Some(Dec { negative: z.is_sign_negative(), magnitude: z.mantissa().unsigned_abs(), scale: z.scale() }),
        None => None,
    }
}

/// `Decimal::checked_mul` (ops/mul.rs): `a * b`. A zero operand gives `0`
/// at scale 0; two nonzero operands whose scales add up to at most 28 and
/// whose mantissas' product fits in 96 bits give that product exactly, at
/// the summed scale, negative when the signs differ. Other products are
/// rounded to fit or overflow (`None`); that result is named.
#[verifier::external_body]
pub(crate) fn checked_mul(a: Dec, b: Dec) -> (r: Option<Dec>)
    requires
        a.is_valid(),
        b.is_valid(),
    ensures
        r == decimal_product(a, b),
        a.magnitude == 0 || b.magnitude == 0 ==> r == Some(Dec { negative: false, magnitude: 0, scale: 0 }),
        exact_product_case(a, b) ==> r == Some(Dec { negative: a.negative != b.negative, magnitude: (a.magnitude * b.magnitude) as u128, scale: (a.scale + b.scale) as u32 }),
        r matches Some(x) ==> x.is_valid(),
{
    let mut x = Decimal::from_i128_with_scale(a.magnitude as i128, a.scale);
    x.set_sign_negative(a.negative);
    let mut y = Decimal::from_i128_with_scale(b.magnitude as i128, b.scale);
    y.set_sign_negative(b.negative);
    match x.checked_mul(y) {
        Some(z) => Some(Dec { negative: z.is_sign_negative(), magnitude: z.mantissa().unsigned_abs(), scale: z.scale() }),
        None => None,
    }
}

/// `Decimal::checked_div`: `a / b` to as many digits as fit, `None` when
/// `b` is zero or the quotient overflows. Only the zero case is stated; the
/// quotient is named.
#[verifier::external_body]
pub(crate) fn checked_div(a: Dec, b: Dec) -> (r: Option<Dec>)
    requires
        a.is_valid(),
        b.is_valid(),
    ensures
        r == decimal_quotient(a, b),
        r matches Some(x) ==> x.is_valid(),
        b.magnitude == 0 ==> r is None,
{
    let mut x = Decimal::from_i128_with_scale(a.magnitude as i128, a.scale);
    x.set_sign_negative(a.negative);
    let mut y = Decimal::from_i128_with_scale(b.magnitude as i128, b.scale);
    y.set_sign_negative(b.negative);
    match x.checked_div(y) {
        Some(z) => Some(Dec { negative: z.is_sign_negative(), magnitude: z.mantissa().unsigned_abs(), scale: z.scale() }),
        None => None,
    }
}

/// `a < b` on `Decimal` (`Ord`, which compares values).
#[verifier::external_body]
pub(crate) fn less_than(a: Dec, b: Dec) -> (r: bool)
    requires
        a.is_valid(),
        b.is_valid(),
    ensures
        r == dec_lt(a, b),
{
    let mut x = Decimal::from_i128_with_scale(a.magnitude as i128, a.scale);
    x.set_sign_negative(a.negative);
    let mut y = Decimal::from_i128_with_scale(b.magnitude as i128, b.scale);
    y.set_sign_negative(b.negative);
    x < y
}


/// `Decimal::abs`: the same digits without the sign.
pub open spec fn dec_abs(d: Dec) -> Dec {
    Dec { negative: false, ..d }
}

/// `Decimal::trunc`: the whole part, dropping the fraction without
/// rounding; the sign bit is kept (so `-0.5` truncates to `-0`).
pub open spec fn dec_trunc(d: Dec) -> Dec {
    Dec { negative: d.negative, magnitude: ((d.magnitude as nat) / pow10(d.scale as nat)) as u128, scale: 0 }
}

/// `Decimal::round_dp(dp)`: at most `dp` decimals, ties to even
/// ("banker's rounding"). A nonzero value that rounds to zero loses its
/// sign; an input zero keeps it.
pub open spec fn dec_round_dp(d: Dec, dp: nat) -> Dec {
    if d.scale <= dp {
        d
    } else if d.magnitude == 0 {
        Dec { negative: d.negative, magnitude: 0, scale: dp as u32 }
    } else {
        let k = (d.scale - dp) as nat;
        let m = d.magnitude as nat;
        let q = m / pow10(k);
        let r = m % pow10(k);
        let half = 5 * pow10((k - 1) as nat);
        let q2: nat = if r > half || (r == half && q % 2 == 1) { q + 1 } else { q };
        Dec { negative: d.negative && q2 != 0, magnitude: q2 as u128, scale: dp as u32 }
    }
}

/// `Decimal::round`: `round_dp(0)`.
pub open spec fn dec_round(d: Dec) -> Dec {
    dec_round_dp(d, 0)
}

/// How `Decimal`'s `Display` (and `to_string`) writes the digits: the
/// magnitude with a decimal point `scale` digits from the right, at least
/// one digit before it.
pub open spec fn dec_digits_text(magnitude: nat, scale: nat) -> Seq<char> {
    if scale == 0 {
        nat_text(magnitude)
    } else {
        let p = zero_padded(nat_text(magnitude), scale + 1);
        let w = p.len() - scale;
        p.take(w) + seq!['.'] + p.skip(w)
    }
}

/// `Decimal::to_string`: a `-` when the sign bit is set, then the digits.
pub open spec fn dec_text(d: Dec) -> Seq<char> {
    (if d.negative { seq!['-'] } else { Seq::empty() }) + dec_digits_text(
        d.magnitude as nat,
        d.scale as nat,
    )
}

pub proof fn lemma_pow10_positive(n: nat)
    ensures
        pow10(n) >= 1,
    decreases n,
{
    if n > 0 {
        lemma_pow10_positive((n - 1) as nat);
    }
}

pub proof fn lemma_pow10_grows(a: nat, b: nat)
    requires
        a <= b,
    ensures
        pow10(a) <= pow10(b),
    decreases b,
{
    if a < b {
        lemma_pow10_grows(a, (b - 1) as nat);
    }
}

/// `10^(a + b) = 10^a * 10^b`.
pub proof fn lemma_pow10_add(a: nat, b: nat)
    ensures
        pow10(a + b) == pow10(a) * pow10(b),
    decreases b,
{
    if b > 0 {
        lemma_pow10_add(a, (b - 1) as nat);
        assert(pow10(a + b) == 10 * pow10((a + b - 1) as nat));
        assert(pow10(a) * pow10(b) == pow10(a) * (10 * pow10((b - 1) as nat)));
        assert(pow10(a) * (10 * pow10((b - 1) as nat)) == 10 * (pow10(a) * pow10((b - 1) as nat))) by (nonlinear_arith);
        assert((a + b - 1) as nat == a + (b - 1) as nat);
    } else {
        assert(pow10(0) == 1);
        assert(a + b == a);
    }
}

/// Where `rust_decimal` subtracts without rounding (a zero operand, or
/// [`exact_sum_case`]), the difference `d` has the value `a - b`: over the
/// common denominator `10^a.scale * 10^b.scale * 10^d.scale`, the mantissas
/// agree.
pub proof fn lemma_difference_is_exact(a: Dec, b: Dec)
    requires
        a.magnitude == 0 || b.magnitude == 0 || exact_sum_case(a, b, difference_value(a, b)),
    ensures
        dec_sub(a, b) matches Some(d) && d.signed() * pow10(a.scale as nat) * pow10(b.scale as nat)
            == (a.signed() * pow10(b.scale as nat) - b.signed() * pow10(a.scale as nat)) * pow10(d.scale as nat),
{
    let pa = pow10(a.scale as nat);
    let pb = pow10(b.scale as nat);
    let d = dec_sub(a, b)->0;
    let (x, y) = (a.signed(), b.signed());
    if a.magnitude == 0 {
        assert(x == 0);
        assert(d.signed() == -y && d.scale == b.scale);
        assert((-y) * pa * pb == (0 * pb - y * pa) * pb) by (nonlinear_arith);
    } else if b.magnitude == 0 {
        assert(y == 0);
        assert(d == a);
        assert(x * pa * pb == (x * pb - 0 * pa) * pa) by (nonlinear_arith);
    } else {
        let m = max_scale(a, b);
        let ka = (m - a.scale) as nat;
        let kb = (m - b.scale) as nat;
        lemma_pow10_add(a.scale as nat, ka);
        lemma_pow10_add(b.scale as nat, kb);
        let diff = difference_value(a, b);
        assert(diff == x * pow10(ka) - y * pow10(kb));
        assert(d.signed() == diff);
        assert(d.scale == m);
        let pm = pow10(m);
        assert(pm == pa * pow10(ka));
        assert(pm == pb * pow10(kb));
        assert((x * pow10(ka) - y * pow10(kb)) * pa * pb == (x * pb - y * pa) * pm) by (nonlinear_arith)
            requires
                pm == pa * pow10(ka),
                pm == pb * pow10(kb),
        ;
    }
}

/// Where `rust_decimal` adds without rounding (a zero operand, or
/// [`exact_sum_case`]), the sum `r` has the value `a + b`: over the common
/// denominator the mantissas agree.
pub proof fn lemma_sum_is_exact(a: Dec, b: Dec)
    requires
        a.magnitude == 0 || b.magnitude == 0 || exact_sum_case(a, b, sum_value(a, b)),
    ensures
        dec_add(a, b) matches Some(r) && r.signed() * pow10(a.scale as nat) * pow10(b.scale as nat)
            == (a.signed() * pow10(b.scale as nat) + b.signed() * pow10(a.scale as nat)) * pow10(r.scale as nat),
{
    let pa = pow10(a.scale as nat);
    let pb = pow10(b.scale as nat);
    let r = dec_add(a, b)->0;
    let (x, y) = (a.signed(), b.signed());
    if a.magnitude == 0 {
        assert(x == 0);
        assert(r == b);
        assert(y * pa * pb == (0 * pb + y * pa) * pb) by (nonlinear_arith);
    } else if b.magnitude == 0 {
        assert(y == 0);
        assert(r == a);
        assert(x * pa * pb == (x * pb + 0 * pa) * pa) by (nonlinear_arith);
    } else {
        let m = max_scale(a, b);
        let ka = (m - a.scale) as nat;
        let kb = (m - b.scale) as nat;
        lemma_pow10_add(a.scale as nat, ka);
        lemma_pow10_add(b.scale as nat, kb);
        assert(r.signed() == x * pow10(ka) + y * pow10(kb));
        let pm = pow10(m);
        assert(pm == pa * pow10(ka));
        assert(pm == pb * pow10(kb));
        assert((x * pow10(ka) + y * pow10(kb)) * pa * pb == (x * pb + y * pa) * pm) by (nonlinear_arith)
            requires
                pm == pa * pow10(ka),
                pm == pb * pow10(kb),
        ;
    }
}

/// Where `rust_decimal` multiplies without rounding (a zero operand, or
/// [`exact_product_case`]), the product `p` has the value `a * b`.
pub proof fn lemma_product_is_exact(a: Dec, b: Dec)
    requires
        a.magnitude == 0 || b.magnitude == 0 || exact_product_case(a, b),
    ensures
        dec_mul(a, b) matches Some(p) && p.signed() * pow10(a.scale as nat) * pow10(b.scale as nat)
            == a.signed() * b.signed() * pow10(p.scale as nat),
{
    let p = dec_mul(a, b)->0;
    let pa = pow10(a.scale as nat);
    let pb = pow10(b.scale as nat);
    if a.magnitude == 0 || b.magnitude == 0 {
        assert(a.signed() * b.signed() == 0) by (nonlinear_arith)
            requires
                a.signed() == 0 || b.signed() == 0,
        ;
        assert(p.signed() == 0);
        assert(0 * pa * pb == 0) by (nonlinear_arith);
    } else {
        lemma_pow10_add(a.scale as nat, b.scale as nat);
        assert(p.magnitude == a.magnitude * b.magnitude);
        assert(p.signed() == a.signed() * b.signed()) by (nonlinear_arith)
            requires
                p.magnitude == a.magnitude * b.magnitude,
                p.negative == (a.negative != b.negative),
                p.signed() == (if p.negative { -(p.magnitude as int) } else { p.magnitude as int }),
                a.signed() == (if a.negative { -(a.magnitude as int) } else { a.magnitude as int }),
                b.signed() == (if b.negative { -(b.magnitude as int) } else { b.magnitude as int }),
        ;
        assert(pow10(p.scale as nat) == pa * pb);
        let ps = p.signed();
        let z = a.signed() * b.signed();
        assert(ps * pa * pb == z * (pa * pb)) by (nonlinear_arith)
            requires
                ps == z,
        ;
    }
}

proof fn lemma_pow10_38()
    ensures
        pow10(38) == 100000000000000000000000000000000000000,
{
    reveal_with_fuel(pow10, 39);
}

/// `10^n` for `n <= 38`.
pub fn pow10_u128(n: u32) -> (r: u128)
    requires
        n <= 38,
    ensures
        r == pow10(n as nat),
{
    let mut r: u128 = 1;
    let mut i: u32 = 0;
    while i < n
        invariant
            i <= n <= 38,
            r == pow10(i as nat),
        decreases n - i,
    {
        proof {
            lemma_pow10_grows((i + 1) as nat, 38);
            lemma_pow10_38();
        }
        r = r * 10;
        i = i + 1;
    }
    r
}


/// `Decimal::normalize`: trailing fractional zeros removed and `-0` made
/// `0`.
pub open spec fn dec_normalize(d: Dec) -> Dec
    decreases d.scale,
{
    if d.magnitude == 0 {
        Dec { negative: false, magnitude: 0, scale: 0 }
    } else if d.scale > 0 && d.magnitude % 10 == 0 {
        dec_normalize(Dec { negative: d.negative, magnitude: d.magnitude / 10, scale: (d.scale - 1) as u32 })
    } else {
        d
    }
}

/// `Decimal::abs`.
pub fn abs(d: Dec) -> (r: Dec)
    ensures
        r == dec_abs(d),
{
    Dec { negative: false, ..d }
}

/// `Decimal::trunc`.
pub fn trunc(d: Dec) -> (r: Dec)
    requires
        d.is_valid(),
    ensures
        r == dec_trunc(d),
        r.is_valid(),
{
    proof {
        lemma_pow10_positive(d.scale as nat);
    }
    let p = pow10_u128(d.scale);
    Dec { negative: d.negative, magnitude: d.magnitude / p, scale: 0 }
}

/// `Decimal::round_dp`.
pub fn round_dp(d: Dec, dp: u32) -> (r: Dec)
    requires
        d.is_valid(),
    ensures
        r == dec_round_dp(d, dp as nat),
        r.is_valid(),
{
    if d.scale <= dp {
        return d;
    }
    if d.magnitude == 0 {
        return Dec { negative: d.negative, magnitude: 0, scale: dp };
    }
    let k = d.scale - dp;
    let p = pow10_u128(k);
    proof {
        lemma_pow10_positive(k as nat);
    }
    let q = d.magnitude / p;
    let r = d.magnitude % p;
    proof {
        lemma_pow10_grows(1, k as nat);
        reveal_with_fuel(pow10, 2);
        assert(q <= d.magnitude / 10) by {
            vstd::arithmetic::div_mod::lemma_div_is_ordered_by_denominator(d.magnitude as int, 10, p as int);
        }
        lemma_pow10_grows((k - 1) as nat, 27);
        lemma_pow10_grows(27, 38);
    }
    let half = 5 * pow10_u128(k - 1);
    let q2 = if r > half || (r == half && q % 2 == 1) { q + 1 } else { q };
    Dec { negative: d.negative && q2 != 0, magnitude: q2, scale: dp }
}

/// `Decimal::round`.
pub fn round(d: Dec) -> (r: Dec)
    requires
        d.is_valid(),
    ensures
        r == dec_round(d),
        r.is_valid(),
{
    round_dp(d, 0)
}

/// `Decimal::normalize`.
pub fn normalize(d: Dec) -> (r: Dec)
    requires
        d.is_valid(),
    ensures
        r == dec_normalize(d),
        r.is_valid(),
    decreases d.scale,
{
    if d.magnitude == 0 {
        Dec { negative: false, magnitude: 0, scale: 0 }
    } else if d.scale > 0 && d.magnitude % 10 == 0 {
        normalize(Dec { negative: d.negative, magnitude: d.magnitude / 10, scale: d.scale - 1 })
    } else {
        d
    }
}

/// Appends `d` as `Decimal`'s `to_string` writes it.
pub fn push_dec(s: &mut String, d: Dec)
    requires
        d.scale <= 28,
    ensures
        final(s)@ == old(s)@ + dec_text(d),
{
    if d.negative {
        push_char(s, '-');
    }
    let digits = nat_chars(d.magnitude);
    if d.scale == 0 {
        push_slice(s, &digits, 0, digits.len());
        proof {
            assert(digits@.subrange(0, digits@.len() as int) == digits@);
        }
    } else {
        let p = pad_zeros(&digits, d.scale as usize + 1);
        let w = p.len() - d.scale as usize;
        push_slice(s, &p, 0, w);
        push_char(s, '.');
        push_slice(s, &p, w, p.len());
        proof {
            assert(p@.subrange(0, w as int) == p@.take(w as int));
            assert(p@.subrange(w as int, p@.len() as int) == p@.skip(w as int));
        }
    }
}

/// `Decimal::to_string`.
pub fn dec_to_string(d: Dec) -> (r: String)
    requires
        d.scale <= 28,
    ensures
        r@ == dec_text(d),
{
    let mut s = String::new();
    push_dec(&mut s, d);
    s
}


/// `Decimal::ZERO`.
pub open spec fn dec_zero() -> Dec {
    Dec { negative: false, magnitude: 0, scale: 0 }
}

/// `Decimal::ONE`.
pub open spec fn dec_one() -> Dec {
    Dec { negative: false, magnitude: 1, scale: 0 }
}

/// `Decimal::from(n)` for a count.
pub open spec fn dec_of_nat(n: nat) -> Dec {
    Dec { negative: false, magnitude: n as u128, scale: 0 }
}

/// `xs.iter().sum::<Decimal>()`: `0 + xs[0] + xs[1] + …` left to right,
/// `None` when an addition overflows.
pub open spec fn dec_sum_seq(xs: Seq<Dec>) -> Option<Dec>
    decreases xs.len(),
{
    if xs.len() == 0 {
        Some(dec_zero())
    } else {
        match dec_sum_seq(xs.drop_last()) {
            None => None,
            Some(s) => dec_add(s, xs.last()),
        }
    }
}

/// All entries can be given to `rust_decimal`.
pub open spec fn all_valid(xs: Seq<Dec>) -> bool {
    forall|i: int| 0 <= i < xs.len() ==> (#[trigger] xs[i]).is_valid()
}

/// `xs.iter().sum()`, `None` on overflow.
pub fn sum(xs: &Vec<Dec>) -> (r: Option<Dec>)
    requires
        all_valid(xs@),
    ensures
        r == dec_sum_seq(xs@),
        r matches Some(x) ==> x.is_valid(),
{
    let mut acc = Dec::zero();
    let mut i: usize = 0;
    while i < xs.len()
        invariant
            i <= xs.len(),
            all_valid(xs@),
            acc.is_valid(),
            dec_sum_seq(xs@.take(i as int)) == Some(acc),
        decreases xs.len() - i,
    {
        proof {
            assert(xs@.take(i + 1).drop_last() == xs@.take(i as int));
        }
        acc = match checked_add(acc, xs[i]) {
            Some(a) => a,
            None => {
                proof {
                    lemma_sum_none_propagates(xs@, i as int + 1);
                }
                return None;
            },
        };
        i = i + 1;
    }
    proof {
        assert(xs@.take(xs.len() as int) == xs@);
    }
    Some(acc)
}

/// Once a prefix sum overflows, the whole sum does.
pub proof fn lemma_sum_none_propagates(xs: Seq<Dec>, k: int)
    requires
        0 <= k <= xs.len(),
        dec_sum_seq(xs.take(k)) is None,
    ensures
        dec_sum_seq(xs) is None,
    decreases xs.len() - k,
{
    if k < xs.len() {
        assert(xs.take(k + 1).drop_last() == xs.take(k));
        lemma_sum_none_propagates(xs, k + 1);
    } else {
        assert(xs.take(k) == xs);
    }
}


/// `order` with index `i` inserted after every index whose key is at least
/// `keys[i]` (one step of a stable sort, largest key first).
pub open spec fn insert_by_key(order: Seq<int>, i: int, keys: Seq<Dec>) -> Seq<int>
    decreases order.len(),
{
    if order.len() == 0 {
        seq![i]
    } else if dec_lt(keys[order.last()], keys[i]) {
        insert_by_key(order.drop_last(), i, keys).push(order.last())
    } else {
        order.push(i)
    }
}

/// The indices `0..n` ordered by `keys`, largest first, keeping the given
/// order among equal keys (what a stable `sort_by(|a, b| b.cmp(a))` gives).
pub open spec fn descending_order(keys: Seq<Dec>, n: nat) -> Seq<int>
    decreases n,
{
    if n == 0 {
        Seq::empty()
    } else {
        insert_by_key(descending_order(keys, (n - 1) as nat), n - 1, keys)
    }
}

proof fn lemma_insert_at(order: Seq<int>, i: int, keys: Seq<Dec>, j: int)
    requires
        0 <= j <= order.len(),
        forall|m: int| j <= m < order.len() ==> dec_lt(keys[#[trigger] order[m]], keys[i]),
        j > 0 ==> !dec_lt(keys[order[j - 1]], keys[i]),
    ensures
        insert_by_key(order, i, keys) == order.insert(j, i),
    decreases order.len() - j,
{
    if j < order.len() {
        let o2 = order.drop_last();
        assert(dec_lt(keys[order[order.len() - 1]], keys[i]));
        assert forall|m: int| j <= m < o2.len() implies dec_lt(keys[#[trigger] o2[m]], keys[i]) by {
            assert(o2[m] == order[m]);
        }
        if j > 0 {
            assert(o2[j - 1] == order[j - 1]);
        }
        lemma_insert_at(o2, i, keys, j);
        assert(o2.insert(j, i).push(order.last()) == order.insert(j, i));
    } else {
        assert(order.push(i) == order.insert(j, i));
    }
}

/// `a <= b <= c` in value gives `a <= c`.
pub proof fn lemma_dec_le_transitive(a: Dec, b: Dec, c: Dec)
    requires
        !dec_lt(b, a),
        !dec_lt(c, b),
    ensures
        !dec_lt(c, a),
{
    let pa = pow10(a.scale as nat) as int;
    let pb = pow10(b.scale as nat) as int;
    let pc = pow10(c.scale as nat) as int;
    lemma_pow10_positive(a.scale as nat);
    lemma_pow10_positive(b.scale as nat);
    lemma_pow10_positive(c.scale as nat);
    let (x, y, z) = (a.signed(), b.signed(), c.signed());
    assert(x * pc <= z * pa) by (nonlinear_arith)
        requires
            x * pb <= y * pa,
            y * pc <= z * pb,
            pa > 0,
            pb > 0,
            pc > 0,
    {
        assert(x * pb * pc <= y * pa * pc);
        assert(y * pc * pa <= z * pb * pa);
        assert(x * pc * pb <= z * pa * pb);
    }
}

/// The entries of `order` are indices below `n`, each once, ordered
/// largest key first.
pub open spec fn is_descending_order(order: Seq<int>, keys: Seq<Dec>, n: int) -> bool {
    &&& forall|k: int| 0 <= k < order.len() ==> 0 <= #[trigger] order[k] < n
    &&& forall|a: int, b: int| 0 <= a < b < order.len() ==> order[a] != order[b]
    &&& forall|a: int, b: int| 0 <= a < b < order.len() ==> !dec_lt(keys[order[a]], keys[order[b]])
}

proof fn lemma_insert_keeps_bound(order: Seq<int>, i: int, keys: Seq<Dec>, bound: Dec)
    requires
        forall|k: int| 0 <= k < order.len() ==> !dec_lt(#[trigger] keys[order[k]], bound),
        !dec_lt(keys[i], bound),
    ensures
        forall|k: int| 0 <= k < insert_by_key(order, i, keys).len()
            ==> !dec_lt(#[trigger] keys[insert_by_key(order, i, keys)[k]], bound),
        insert_by_key(order, i, keys).len() == order.len() + 1,
        forall|k: int| 0 <= k < insert_by_key(order, i, keys).len()
            ==> (#[trigger] insert_by_key(order, i, keys)[k] == i || order.contains(insert_by_key(order, i, keys)[k])),
    decreases order.len(),
{
    if order.len() > 0 && dec_lt(keys[order.last()], keys[i]) {
        let dl = order.drop_last();
        assert forall|k: int| 0 <= k < dl.len() implies !dec_lt(#[trigger] keys[dl[k]], bound) by {
            assert(dl[k] == order[k]);
        }
        lemma_insert_keeps_bound(dl, i, keys, bound);
        let r = insert_by_key(dl, i, keys);
        assert(insert_by_key(order, i, keys) == r.push(order.last()));
        assert forall|k: int| 0 <= k < r.push(order.last()).len()
            implies (#[trigger] r.push(order.last())[k] == i || order.contains(r.push(order.last())[k])) by {
            if k < r.len() {
                if r[k] != i {
                    assert(dl.contains(r[k]));
                    let m = choose|m: int| 0 <= m < dl.len() && dl[m] == r[k];
                    assert(order[m] == r[k]);
                }
            } else {
                assert(order[order.len() - 1] == order.last());
            }
        }
        assert(keys[order[order.len() - 1]] == keys[order.last()]);
    } else if order.len() > 0 {
        assert forall|k: int| 0 <= k < order.push(i).len()
            implies (#[trigger] order.push(i)[k] == i || order.contains(order.push(i)[k])) by {
            if k < order.len() {
                assert(order.push(i)[k] == order[k]);
            }
        }
    }
}

proof fn lemma_insert_sorted(order: Seq<int>, i: int, keys: Seq<Dec>)
    requires
        is_descending_order(order, keys, i),
        0 <= i,
    ensures
        is_descending_order(insert_by_key(order, i, keys), keys, i + 1),
    decreases order.len(),
{
    let ins = insert_by_key(order, i, keys);
    if order.len() == 0 {
        return;
    }
    if dec_lt(keys[order.last()], keys[i]) {
        let dl = order.drop_last();
        let last = order.last();
        assert forall|a: int, b: int| 0 <= a < b < dl.len() implies !dec_lt(keys[dl[a]], keys[dl[b]]) by {
            assert(dl[a] == order[a] && dl[b] == order[b]);
        }
        assert forall|a: int, b: int| 0 <= a < b < dl.len() implies dl[a] != dl[b] by {
            assert(dl[a] == order[a] && dl[b] == order[b]);
        }
        assert forall|k: int| 0 <= k < dl.len() implies 0 <= #[trigger] dl[k] < i by {
            assert(dl[k] == order[k]);
        }
        lemma_insert_sorted(dl, i, keys);
        assert forall|k: int| 0 <= k < dl.len() implies !dec_lt(#[trigger] keys[dl[k]], keys[last]) by {
            assert(dl[k] == order[k]);
            assert(order[order.len() - 1] == last);
        }
        lemma_insert_keeps_bound(dl, i, keys, keys[last]);
        let r = insert_by_key(dl, i, keys);
        assert(ins == r.push(last));
        assert(order[order.len() - 1] == last);
        assert forall|a: int, b: int| 0 <= a < b < ins.len() implies !dec_lt(keys[ins[a]], keys[ins[b]]) by {
            if b < r.len() {
                assert(ins[a] == r[a] && ins[b] == r[b]);
            } else {
                assert(ins[a] == r[a]);
                assert(ins[b] == last);
            }
        }
        assert forall|a: int, b: int| 0 <= a < b < ins.len() implies ins[a] != ins[b] by {
            if b < r.len() {
                assert(ins[a] == r[a] && ins[b] == r[b]);
            } else {
                assert(ins[a] == r[a]);
                if r[a] != i {
                    assert(dl.contains(r[a]));
                    let m = choose|m: int| 0 <= m < dl.len() && dl[m] == r[a];
                    assert(order[m] == r[a]);
                }
            }
        }
        assert forall|k: int| 0 <= k < ins.len() implies 0 <= #[trigger] ins[k] < i + 1 by {
            if k < r.len() {
                assert(ins[k] == r[k]);
            }
        }
    } else {
        assert(ins == order.push(i));
        assert(order[order.len() - 1] == order.last());
        assert forall|a: int, b: int| 0 <= a < b < ins.len() implies !dec_lt(keys[ins[a]], keys[ins[b]]) by {
            if b < order.len() {
                assert(ins[a] == order[a] && ins[b] == order[b]);
            } else {
                assert(ins[a] == order[a]);
                if a < order.len() - 1 {
                    lemma_dec_le_transitive(keys[i], keys[order.last()], keys[order[a]]);
                }
            }
        }
        assert forall|a: int, b: int| 0 <= a < b < ins.len() implies ins[a] != ins[b] by {
            assert(ins[a] == order[a]);
            if b < order.len() {
                assert(ins[b] == order[b]);
            }
        }
        assert forall|k: int| 0 <= k < ins.len() implies 0 <= #[trigger] ins[k] < i + 1 by {
            if k < order.len() {
                assert(ins[k] == order[k]);
            }
        }
    }
}

/// The descending order of the first `n` keys lists every index below `n`
/// exactly once, largest key first: no row is lost or repeated, and no
/// row comes before one with a larger key.
pub proof fn lemma_descending_order_sorted(keys: Seq<Dec>, n: nat)
    ensures
        is_descending_order(descending_order(keys, n), keys, n as int),
        descending_order(keys, n).len() == n,
    decreases n,
{
    if n > 0 {
        lemma_descending_order_sorted(keys, (n - 1) as nat);
        lemma_insert_sorted(descending_order(keys, (n - 1) as nat), n - 1, keys);
        lemma_insert_len(descending_order(keys, (n - 1) as nat), n - 1, keys);
    }
}

proof fn lemma_insert_len(order: Seq<int>, i: int, keys: Seq<Dec>)
    ensures
        insert_by_key(order, i, keys).len() == order.len() + 1,
    decreases order.len(),
{
    if order.len() > 0 && dec_lt(keys[order.last()], keys[i]) {
        lemma_insert_len(order.drop_last(), i, keys);
    }
}

/// Indices of `keys` ordered largest key first, stable among equal keys.
pub fn sort_descending(keys: &Vec<Dec>) -> (r: Vec<usize>)
    requires
        all_valid(keys@),
    ensures
        r@.map_values(|i: usize| i as int) == descending_order(keys@, keys.len() as nat),
        r.len() == keys.len(),
        forall|k: int| 0 <= k < r.len() ==> #[trigger] r@[k] < keys.len(),
{
    let mut out: Vec<usize> = Vec::new();
    let mut i: usize = 0;
    while i < keys.len()
        invariant
            i <= keys.len(),
            all_valid(keys@),
            out.len() == i,
            forall|k: int| 0 <= k < out.len() ==> #[trigger] out@[k] < i,
            out@.map_values(|x: usize| x as int) == descending_order(keys@, i as nat),
        decreases keys.len() - i,
    {
        let ghost order = out@.map_values(|x: usize| x as int);
        let mut j = out.len();
        while j > 0 && less_than(keys[out[j - 1]], keys[i])
            invariant
                j <= out.len() == i < keys.len(),
                all_valid(keys@),
                forall|k: int| 0 <= k < out.len() ==> #[trigger] out@[k] < i,
                order == out@.map_values(|x: usize| x as int),
                forall|m: int| j <= m < order.len() ==> dec_lt(keys@[#[trigger] order[m]], keys@[i as int]),
            decreases j,
        {
            j = j - 1;
        }
        proof {
            if j > 0 {
                assert(order[j - 1] == out@[j - 1] as int);
            }
            lemma_insert_at(order, i as int, keys@, j as int);
        }
        out.insert(j, i);
        proof {
            assert(out@.map_values(|x: usize| x as int) == order.insert(j as int, i as int));
            assert forall|k: int| 0 <= k < out.len() implies #[trigger] out@[k] < i + 1 by {
                if k < j {
                } else if k > j {
                }
            }
        }
        i = i + 1;
    }
    out
}


/// A `rust_decimal` operator would have overflowed (or divided by zero)
/// here; the computation stops instead of panicking.
#[derive(Clone, Copy, Debug, PartialEq, Eq, Structural)]
pub struct DecimalOverflow;

} // verus!
