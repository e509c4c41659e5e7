//! Exact decimal quantities.
//!
//! A `Dec` is `mantissa / 10^scale`, with the limits of `rust_decimal::Decimal`
//! (a 96-bit mantissa and a scale of at most 28). Every such number is a whole
//! multiple of `10^-28`, so its value is stated as an integer in that unit.
//! Arithmetic is done by `rust_decimal`.
use rust_decimal::Decimal;
use rust_decimal::RoundingStrategy;
use vstd::prelude::*;

verus! {

/// The largest scale a decimal may have.
pub const MAX_SCALE: u32 = 28;

/// `10^n`.
pub open spec fn pow10(n: nat) -> int
    decreases n,
{
    if n == 0 {
        1
    } else {
        10 * pow10((n - 1) as nat)
    }
}

/// `2^96`: a mantissa's magnitude stays below it.
pub open spec fn mantissa_limit() -> int {
    0x1_0000_0000_0000_0000_0000_0000
}

pub open spec fn abs(x: int) -> int {
    if x < 0 {
        -x
    } else {
        x
    }
}

pub open spec fn max_scale_of(a: u32, b: u32) -> u32 {
    if a < b {
        b
    } else {
        a
    }
}

/// Whether a (mantissa, scale) pair is within the limits of the decimal type.
pub open spec fn fits(p: (int, int)) -> bool {
    abs(p.0) < mantissa_limit()
}

/// The decimal that a (mantissa, scale) pair stands for.
pub open spec fn dec_of(p: (int, int)) -> Dec {
    Dec { mantissa: p.0 as i128, scale: p.1 as u32 }
}

/// `a + b` computed without rounding: a zero operand gives the other one
/// unchanged; else both are brought to the larger scale and added.
pub open spec fn exact_sum(a: Dec, b: Dec) -> (int, int) {
    let s = max_scale_of(a.scale, b.scale);
    if a.mantissa == 0 {
        (b.mantissa as int, b.scale as int)
    } else if b.mantissa == 0 {
        (a.mantissa as int, a.scale as int)
    } else {
        (
            a.mantissa * pow10((s - a.scale) as nat) + b.mantissa * pow10((s - b.scale) as nat),
            s as int,
        )
    }
}

/// `a - b` computed without rounding, in the manner of `exact_sum`.
pub open spec fn exact_difference(a: Dec, b: Dec) -> (int, int) {
    let s = max_scale_of(a.scale, b.scale);
    if a.mantissa == 0 {
        (-b.mantissa, b.scale as int)
    } else if b.mantissa == 0 {
        (a.mantissa as int, a.scale as int)
    } else {
        (
            a.mantissa * pow10((s - a.scale) as nat) - b.mantissa * pow10((s - b.scale) as nat),
            s as int,
        )
    }
}

/// `v` rounded to `dp` decimal places, halves away from zero (`v` and the
/// result are in units of `10^-28`, `dp < 28`).
pub open spec fn round_half_up(v: int, dp: u32) -> int {
    let unit = pow10((MAX_SCALE - dp) as nat);
    if v >= 0 {
        ((v + unit / 2) / unit) * unit
    } else {
        -(((-v + unit / 2) / unit) * unit)
    }
}

/// `a / b` is the quotient of the mantissas at the difference of the scales,
/// without remainder (both non-zero).
pub open spec fn exact_quotient_exists(a: Dec, b: Dec) -> bool {
    &&& a.mantissa != 0
    &&& b.mantissa != 0
    &&& a.scale >= b.scale
    &&& a.mantissa % b.mantissa == 0
}

/// What `Decimal::checked_add` returns on two decimals given as
/// (mantissa, scale): `None` or the sum as (mantissa, scale).
pub uninterp spec fn decimal_sum(a: (int, int), b: (int, int)) -> Option<(int, int)>;

/// What `Decimal::checked_sub` returns on two decimals given as
/// (mantissa, scale): `None` or the difference as (mantissa, scale).
pub uninterp spec fn decimal_difference(a: (int, int), b: (int, int)) -> Option<(int, int)>;

/// What `Decimal::checked_mul` returns on two decimals given as
/// (mantissa, scale): `None` or the product as (mantissa, scale).
pub uninterp spec fn decimal_product(a: (int, int), b: (int, int)) -> Option<(int, int)>;

/// What `Decimal::checked_div` returns on two decimals given as
/// (mantissa, scale): `None` or the quotient as (mantissa, scale).
pub uninterp spec fn decimal_quotient(a: (int, int), b: (int, int)) -> Option<(int, int)>;

/// A decimal number `mantissa / 10^scale`.
#[derive(Clone, Copy, Debug)]
pub struct Dec {
    pub mantissa: i128,
    pub scale: u32,
}

impl Dec {
    /// Within the limits of `rust_decimal::Decimal`.
    pub open spec fn wf(self) -> bool {
        &&& self.scale <= MAX_SCALE
        &&& -mantissa_limit() < self.mantissa < mantissa_limit()
    }

    /// The value in units of `10^-28`.
    pub open spec fn val(self) -> int {
        self.mantissa * pow10((MAX_SCALE - self.scale) as nat)
    }

    /// The (mantissa, scale) pair.
    pub open spec fn parts(self) -> (int, int) {
        (self.mantissa as int, self.scale as int)
    }

    /// `mantissa / 10^scale`.
    pub fn new(mantissa: i64, scale: u32) -> (r: Dec)
        requires
            scale <= MAX_SCALE,
        ensures
            r.wf(),
            r.mantissa == mantissa,
            r.scale == scale,
    {
        Dec { mantissa: mantissa as i128, scale }
    }

    pub fn zero() -> (r: Dec)
        ensures
            r.wf(),
            r.mantissa == 0,
            r.val() == 0,
            r.scale == 0,
    {
        Dec { mantissa: 0, scale: 0 }
    }

    pub fn one() -> (r: Dec)
        ensures
            r.wf(),
            r.mantissa == 1,
            r.scale == 0,
            r.val() == pow10(MAX_SCALE as nat),
    {
        Dec { mantissa: 1, scale: 0 }
    }

    pub fn is_zero(&self) -> (r: bool)
        ensures
            r == (self.val() == 0),
    {
        proof {
            lemma_val_zero(*self);
        }
        self.mantissa == 0
    }

    pub fn is_positive(&self) -> (r: bool)
        ensures
            r == (self.val() > 0),
    {
        proof {
            lemma_val_sign(*self);
        }
        self.mantissa > 0
    }

    pub fn neg(&self) -> (r: Dec)
        requires
            self.wf(),
        ensures
            r.wf(),
            r.mantissa == -self.mantissa,
            r.val() == -self.val(),
            r.scale == self.scale,
    {
        proof {
            lemma_pow10_positive((MAX_SCALE - self.scale) as nat);
            vstd::arithmetic::mul::lemma_mul_unary_negation(
                self.mantissa as int,
                pow10((MAX_SCALE - self.scale) as nat),
            );
        }
        Dec { mantissa: -self.mantissa, scale: self.scale }
    }
}

pub proof fn lemma_pow10_positive(n: nat)
    ensures
        pow10(n) > 0,
    decreases n,
{
    if n > 0 {
        lemma_pow10_positive((n - 1) as nat);
    }
}

pub proof fn lemma_val_zero(d: Dec)
    ensures
        (d.val() == 0) == (d.mantissa == 0),
{
    lemma_pow10_positive((MAX_SCALE - d.scale) as nat);
    let p = pow10((MAX_SCALE - d.scale) as nat);
    if d.mantissa != 0 {
        assert(d.mantissa as int * p != 0) by (nonlinear_arith)
            requires
                d.mantissa != 0,
                p > 0,
        ;
    }
}

pub proof fn lemma_val_sign(d: Dec)
    ensures
        (d.val() > 0) == (d.mantissa > 0),
{
    lemma_pow10_positive((MAX_SCALE - d.scale) as nat);
    let p = pow10((MAX_SCALE - d.scale) as nat);
    assert((d.mantissa as int * p > 0) == (d.mantissa > 0)) by (nonlinear_arith)
        requires
            p > 0,
    ;
}

/// Relies on `Decimal::checked_add`: `None` on overflow, else the sum; it
/// is `exact_sum(a, b)` whenever that mantissa fits in 96 bits.
#[verifier::external_body]
pub(crate) fn checked_add(a: Dec, b: Dec) -> (r: Option<Dec>)
    requires
        a.wf(),
        b.wf(),
    ensures
        r matches Some(d) ==> d.wf(),
        r matches Some(d) ==> decimal_sum(a.parts(), b.parts()) == Some(d.parts()),
        r is None ==> decimal_sum(a.parts(), b.parts()) is None,
        r matches Some(d) ==> (fits(exact_sum(a, b)) ==> d.parts() == exact_sum(a, b)),
        r is None ==> !fits(exact_sum(a, b)),
{
    let x = Decimal::from_i128_with_scale(a.mantissa, a.scale);
    let y = Decimal::from_i128_with_scale(b.mantissa, b.scale);
    x.checked_add(y).map(|d| Dec { mantissa: d.mantissa(), scale: d.scale() })
}

/// Relies on `Decimal::checked_sub`: `None` on overflow, else the difference;
/// it is `exact_difference(a, b)` whenever that mantissa fits in 96 bits.
#[verifier::external_body]
pub(crate) fn checked_sub(a: Dec, b: Dec) -> (r: Option<Dec>)
    requires
        a.wf(),
        b.wf(),
    ensures
        r matches Some(d) ==> d.wf(),
        r matches Some(d) ==> decimal_difference(a.parts(), b.parts()) == Some(d.parts()),
        r is None ==> decimal_difference(a.parts(), b.parts()) is None,
        r matches Some(d) ==> (fits(exact_difference(a, b)) ==> d.parts() == exact_difference(a, b)),
        r is None ==> !fits(exact_difference(a, b)),
{
    let x = Decimal::from_i128_with_scale(a.mantissa, a.scale);
    let y = Decimal::from_i128_with_scale(b.mantissa, b.scale);
    x.checked_sub(y).map(|d| Dec { mantissa: d.mantissa(), scale: d.scale() })
}

/// Relies on `Decimal::checked_mul`: `None` on overflow, else the product,
/// rounded only where the operands' scales add up to more than 28 or the
/// mantissas' product does not fit in 96 bits.
#[verifier::external_body]
pub(crate) fn checked_mul(a: Dec, b: Dec) -> (r: Option<Dec>)
    requires
        a.wf(),
        b.wf(),
    ensures
        r matches Some(d) ==> d.wf(),
        r matches Some(d) ==> decimal_product(a.parts(), b.parts()) == Some(d.parts()),
        r is None ==> decimal_product(a.parts(), b.parts()) is None,
        r matches Some(d) ==> (a.scale + b.scale <= MAX_SCALE && abs(a.mantissa * b.mantissa)
            < mantissa_limit() ==> d.val() * pow10(MAX_SCALE as nat) == a.val() * b.val()),
        r is None ==> !(a.scale + b.scale <= MAX_SCALE && abs(a.mantissa * b.mantissa)
            < mantissa_limit()),
{
    let x = Decimal::from_i128_with_scale(a.mantissa, a.scale);
    let y = Decimal::from_i128_with_scale(b.mantissa, b.scale);
    x.checked_mul(y).map(|d| Dec { mantissa: d.mantissa(), scale: d.scale() })
}

/// Relies on `Decimal::checked_div`: `None` on a zero divisor or on overflow,
/// else the quotient. The reciprocal of a non-zero decimal never overflows:
/// its magnitude is at most `10^28`. Where the divisor's mantissa divides the
/// dividend's and the dividend has at least the divisor's scale, the quotient
/// is that of the mantissas, at the difference of the scales.
#[verifier::external_body]
pub(crate) fn checked_div(a: Dec, b: Dec) -> (r: Option<Dec>)
    requires
        a.wf(),
        b.wf(),
    ensures
        r matches Some(d) ==> d.wf(),
        r matches Some(d) ==> decimal_quotient(a.parts(), b.parts()) == Some(d.parts()),
        r is None ==> decimal_quotient(a.parts(), b.parts()) is None,
        b.mantissa == 0 ==> r is None,
        r is None ==> !(a.mantissa == 1 && a.scale == 0 && b.mantissa != 0),
        r is None ==> !exact_quotient_exists(a, b),
        r matches Some(d) ==> (exact_quotient_exists(a, b) ==> d.mantissa == a.mantissa / b.mantissa
            && d.scale == a.scale - b.scale),
{
    let x = Decimal::from_i128_with_scale(a.mantissa, a.scale);
    let y = Decimal::from_i128_with_scale(b.mantissa, b.scale);
    x.checked_div(y).map(|d| Dec { mantissa: d.mantissa(), scale: d.scale() })
}

/// Relies on `Decimal::round_dp_with_strategy` with `MidpointAwayFromZero`
/// (the strategy once named `RoundHalfUp`): unchanged where the scale is at
/// most `dp`, else rounded to `dp` places, halves away from zero.
#[verifier::external_body]
pub(crate) fn round_dp_half_up(a: Dec, dp: u32) -> (r: Dec)
    requires
        a.wf(),
    ensures
        r.wf(),
        a.scale <= dp ==> r == a,
        a.scale > dp ==> r.scale == dp && r.val() == round_half_up(a.val(), dp),
{
    let x = Decimal::from_i128_with_scale(a.mantissa, a.scale);
    let d = x.round_dp_with_strategy(dp, RoundingStrategy::MidpointAwayFromZero);
    Dec { mantissa: d.mantissa(), scale: d.scale() }
}

/// Relies on `PartialEq for Decimal`, which compares numeric values.
#[verifier::external_body]
pub(crate) fn value_eq(a: Dec, b: Dec) -> (r: bool)
    requires
        a.wf(),
        b.wf(),
    ensures
        r == (a.val() == b.val()),
{
    Decimal::from_i128_with_scale(a.mantissa, a.scale) == Decimal::from_i128_with_scale(
        b.mantissa,
        b.scale,
    )
}

} // verus!
