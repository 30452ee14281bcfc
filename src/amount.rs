//! Exact decimal amounts, held as a signed mantissa and a number of fractional
//! digits; the arithmetic on them is carried out by `rust_decimal`.

use rust_decimal::{Decimal, RoundingStrategy};
use vstd::prelude::*;

verus! {

/// The largest mantissa magnitude a decimal can hold: 2^96 - 1.
pub const MAX_MANTISSA: i128 = 0xFFFF_FFFF_FFFF_FFFF_FFFF_FFFF;

/// The largest number of fractional digits a decimal can hold.
pub const MAX_SCALE: u32 = 28;

pub open spec fn pow10(n: nat) -> int
    decreases n,
{
    if n == 0 {
        1
    } else {
        10 * pow10((n - 1) as nat)
    }
}

/// `v`, counted in units of 10^-28, can be written with a mantissa of at most
/// 96 bits at `scale` fractional digits.
pub open spec fn fits(v: int, scale: nat) -> bool {
    &&& scale <= MAX_SCALE
    &&& -(MAX_MANTISSA * pow10((MAX_SCALE - scale) as nat)) <= v
    &&& v <= MAX_MANTISSA * pow10((MAX_SCALE - scale) as nat)
}

/// `v` rounded to a multiple of `unit`, halves rounded away from zero.
pub open spec fn round_half_away(v: int, unit: int) -> int {
    if v >= 0 {
        ((v + unit / 2) / unit) * unit
    } else {
        -(((-v + unit / 2) / unit) * unit)
    }
}

pub open spec fn max_nat(a: nat, b: nat) -> nat {
    if a >= b {
        a
    } else {
        b
    }
}

pub proof fn lemma_pow10_positive(n: nat)
    ensures
        pow10(n) > 0,
    decreases n,
{
    if n > 0 {
        lemma_pow10_positive((n - 1) as nat);
    }
}

pub proof fn lemma_pow10_monotone(a: nat, b: nat)
    requires
        a <= b,
    ensures
        pow10(a) <= pow10(b),
    decreases b,
{
    if a < b {
        lemma_pow10_monotone(a, (b - 1) as nat);
        lemma_pow10_positive((b - 1) as nat);
    }
}

/// A value that fits at some scale also fits at every coarser one.
pub proof fn lemma_fits_coarser(v: int, coarse: nat, fine: nat)
    requires
        coarse <= fine,
        fits(v, fine),
    ensures
        fits(v, coarse),
{
    let pc = pow10((MAX_SCALE - coarse) as nat);
    let pf = pow10((MAX_SCALE - fine) as nat);
    lemma_pow10_monotone((MAX_SCALE - fine) as nat, (MAX_SCALE - coarse) as nat);
    assert(MAX_MANTISSA * pf <= MAX_MANTISSA * pc) by (nonlinear_arith)
        requires
            pf <= pc,
            MAX_MANTISSA > 0,
    ;
}

/// A decimal number: `mantissa / 10^scale`.
#[derive(Clone, Copy, Debug)]
pub struct Amount {
    mantissa: i128,
    scale: u32,
}

impl Amount {
    #[verifier::type_invariant]
    spec fn inv(self) -> bool {
        &&& self.scale <= MAX_SCALE
        &&& -MAX_MANTISSA <= self.mantissa <= MAX_MANTISSA
    }

    /// The value, counted in units of 10^-28 (the finest step a decimal has).
    pub closed spec fn val(self) -> int {
        self.mantissa * pow10((MAX_SCALE - self.scale) as nat)
    }

    /// The number of fractional digits the value is written with.
    pub closed spec fn scale_spec(self) -> nat {
        self.scale as nat
    }

    /// The mantissa the value is written with.
    pub closed spec fn mantissa_spec(self) -> int {
        self.mantissa as int
    }

    /// The decimal `num / 10^scale`.
    pub fn new(num: i64, scale: u32) -> (r: Amount)
        requires
            scale <= MAX_SCALE,
        ensures
            r.mantissa_spec() == num,
            r.scale_spec() == scale,
            r.val() == num * pow10((MAX_SCALE - scale) as nat),
    {
        Amount { mantissa: num as i128, scale }
    }

    /// The decimal `mantissa / 10^scale`, if a decimal can hold it.
    pub fn from_parts(mantissa: i128, scale: u32) -> (r: Option<Amount>)
        ensures
            r is Some <==> (scale <= MAX_SCALE && -MAX_MANTISSA <= mantissa <= MAX_MANTISSA),
            r matches Some(a) ==> a.mantissa_spec() == mantissa && a.scale_spec() == scale,
    {
        if scale <= MAX_SCALE && -MAX_MANTISSA <= mantissa && mantissa <= MAX_MANTISSA {
            Some(Amount { mantissa, scale })
        } else {
            None
        }
    }

    pub fn zero() -> (r: Amount)
        ensures
            r.val() == 0,
            r.scale_spec() == 0,
    {
        Amount { mantissa: 0, scale: 0 }
    }

    pub fn mantissa(&self) -> (r: i128)
        ensures
            r == self.mantissa_spec(),
    {
        self.mantissa
    }

    pub fn scale(&self) -> (r: u32)
        ensures
            r == self.scale_spec(),
    {
        self.scale
    }

    pub fn neg(&self) -> (r: Amount)
        ensures
            r.val() == -self.val(),
            r.scale_spec() == self.scale_spec(),
    {
        proof {
            use_type_invariant(self);
        }
        let r = Amount { mantissa: -self.mantissa, scale: self.scale };
        assert(r.val() == -self.val()) by (nonlinear_arith)
            requires
                r.val() == r.mantissa * pow10((MAX_SCALE - r.scale) as nat),
                self.val() == self.mantissa * pow10((MAX_SCALE - self.scale) as nat),
                r.mantissa == -self.mantissa,
                r.scale == self.scale,
        ;
        r
    }

    pub fn is_negative(&self) -> (r: bool)
        ensures
            r == (self.val() < 0),
    {
        proof {
            use_type_invariant(self);
            let p = pow10((MAX_SCALE - self.scale) as nat);
            lemma_pow10_positive((MAX_SCALE - self.scale) as nat);
            let m = self.mantissa as int;
            assert((m < 0) == (m * p < 0)) by (nonlinear_arith)
                requires
                    p > 0,
            ;
        }
        self.mantissa < 0
    }
}

impl Amount {
    pub fn is_zero(&self) -> (r: bool)
        ensures
            r == (self.val() == 0),
    {
        proof {
            use_type_invariant(self);
            let p = pow10((MAX_SCALE - self.scale) as nat);
            lemma_pow10_positive((MAX_SCALE - self.scale) as nat);
            let m = self.mantissa as int;
            assert((m == 0) == (m * p == 0)) by (nonlinear_arith)
                requires
                    p > 0,
            ;
        }
        self.mantissa == 0
    }

    /// `self + other` when a decimal holds it exactly, with no more fractional
    /// digits than the finer operand; `None` otherwise.
    pub fn exact_add(&self, other: &Amount) -> (r: Option<Amount>)
        ensures
            r is Some ==> r->0.val() == self.val() + other.val() && r->0.scale_spec() <= max_nat(
                self.scale_spec(),
                other.scale_spec(),
            ),
            fits(self.val() + other.val(), max_nat(self.scale_spec(), other.scale_spec()))
                ==> r is Some,
    {
        let sum = checked_add(*self, *other);
        match sum {
            Some(c) => {
                if self.is_zero() || other.is_zero() || c.scale == max_u32(self.scale, other.scale) {
                    Some(c)
                } else {
                    None
                }
            },
            None => None,
        }
    }

    /// `self - other` when a decimal holds it exactly, with no more fractional
    /// digits than the finer operand; `None` otherwise.
    pub fn exact_sub(&self, other: &Amount) -> (r: Option<Amount>)
        ensures
            r is Some ==> r->0.val() == self.val() - other.val() && r->0.scale_spec() <= max_nat(
                self.scale_spec(),
                other.scale_spec(),
            ),
            fits(self.val() - other.val(), max_nat(self.scale_spec(), other.scale_spec()))
                ==> r is Some,
    {
        let difference = checked_sub(*self, *other);
        match difference {
            Some(c) => {
                if self.is_zero() || other.is_zero() || c.scale == max_u32(self.scale, other.scale) {
                    Some(c)
                } else {
                    None
                }
            },
            None => None,
        }
    }
}

fn max_u32(a: u32, b: u32) -> (r: u32)
    ensures
        r as nat == max_nat(a as nat, b as nat),
{
    if a >= b {
        a
    } else {
        b
    }
}

impl PartialEq for Amount {
    fn eq(&self, other: &Amount) -> (r: bool)
        ensures
            r == (self.val() == other.val()),
    {
        decimal_eq(self, other)
    }
}

impl vstd::std_specs::cmp::PartialEqSpecImpl for Amount {
    open spec fn obeys_eq_spec() -> bool {
        true
    }

    open spec fn eq_spec(&self, other: &Amount) -> bool {
        self.val() == other.val()
    }
}

impl Eq for Amount {

}

/// Relies on `PartialEq for Decimal`: two decimals are equal when their values
/// are, whatever scale each is written with.
#[verifier::external_body]
fn decimal_eq(a: &Amount, b: &Amount) -> (r: bool)
    ensures
        r == (a.val() == b.val()),
{
    Decimal::from_i128_with_scale(a.mantissa, a.scale) == Decimal::from_i128_with_scale(
        b.mantissa,
        b.scale,
    )
}

/// Relies on `Decimal::checked_add`: a zero operand gives the exact result; otherwise
/// the sum is computed exactly at the larger of the two scales, and only
/// when its mantissa there does not fit in 96 bits is it rounded to fewer
/// fractional digits (or refused).
#[verifier::external_body]
fn checked_add(a: Amount, b: Amount) -> (r: Option<Amount>)
    ensures
        r is Some ==> r->0.scale_spec() <= max_nat(a.scale_spec(), b.scale_spec()),
        r is Some && r->0.scale_spec() == max_nat(a.scale_spec(), b.scale_spec()) ==> r->0.val()
            == a.val() + b.val(),
        a.val() == 0 || b.val() == 0 ==> r is Some && r->0.val() == a.val() + b.val(),
        fits(a.val() + b.val(), max_nat(a.scale_spec(), b.scale_spec())) ==> r is Some
            && (r->0.scale_spec() == max_nat(a.scale_spec(), b.scale_spec()) || a.val() == 0
            || b.val() == 0),
{
    Decimal::from_i128_with_scale(a.mantissa, a.scale).checked_add(
        Decimal::from_i128_with_scale(b.mantissa, b.scale),
    ).map(|d| Amount { mantissa: d.mantissa(), scale: d.scale() })
}

/// Relies on `Decimal::checked_sub`: a zero operand gives the exact result; otherwise
/// the difference is computed exactly at the larger of the two scales, and only
/// when its mantissa there does not fit in 96 bits is it rounded to fewer
/// fractional digits (or refused).
#[verifier::external_body]
fn checked_sub(a: Amount, b: Amount) -> (r: Option<Amount>)
    ensures
        r is Some ==> r->0.scale_spec() <= max_nat(a.scale_spec(), b.scale_spec()),
        r is Some && r->0.scale_spec() == max_nat(a.scale_spec(), b.scale_spec()) ==> r->0.val()
            == a.val() - b.val(),
        a.val() == 0 || b.val() == 0 ==> r is Some && r->0.val() == a.val() - b.val(),
        fits(a.val() - b.val(), max_nat(a.scale_spec(), b.scale_spec())) ==> r is Some
            && (r->0.scale_spec() == max_nat(a.scale_spec(), b.scale_spec()) || a.val() == 0
            || b.val() == 0),
{
    Decimal::from_i128_with_scale(a.mantissa, a.scale).checked_sub(
        Decimal::from_i128_with_scale(b.mantissa, b.scale),
    ).map(|d| Amount { mantissa: d.mantissa(), scale: d.scale() })
}

/// Relies on `Decimal::saturating_add`: the same result as `checked_add` where
/// that one gives a result, and the bound of the result's sign otherwise.
#[verifier::external_body]
pub(crate) fn saturating_add(a: Amount, b: Amount) -> (r: Amount)
    ensures
        fits(a.val() + b.val(), max_nat(a.scale_spec(), b.scale_spec())) ==> r.val() == a.val()
            + b.val(),
{
    let d = Decimal::from_i128_with_scale(a.mantissa, a.scale).saturating_add(
        Decimal::from_i128_with_scale(b.mantissa, b.scale),
    );
    Amount { mantissa: d.mantissa(), scale: d.scale() }
}

/// Relies on `Decimal::round_dp_with_strategy` with `MidpointAwayFromZero`:
/// the value rounded to `dp` fractional digits, halves away from zero.
#[verifier::external_body]
pub(crate) fn round_dp(a: Amount, dp: u32) -> (r: Amount)
    requires
        dp <= MAX_SCALE,
    ensures
        r.val() == round_half_away(a.val(), pow10((MAX_SCALE - dp) as nat)),
        r.scale_spec() <= dp,
{
    let d = Decimal::from_i128_with_scale(a.mantissa, a.scale).round_dp_with_strategy(
        dp,
        RoundingStrategy::MidpointAwayFromZero,
    );
    Amount { mantissa: d.mantissa(), scale: d.scale() }
}

} // verus!
