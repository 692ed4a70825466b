//! Exact decimal numbers.
//!
//! A [`Decimal`] is the plain-data image of a `rust_decimal::Decimal`: a signed
//! 96-bit mantissa and a scale between 0 and 28, standing for
//! `mantissa / 10^scale`. Comparison and arithmetic are done by `rust_decimal`;
//! the functions here hand the two integers over and take two integers back.

use std::cmp::Ordering;
use std::str::FromStr;
use vstd::arithmetic::power::pow;
use vstd::prelude::*;

verus! {

/// The largest magnitude a mantissa can have: `2^96 - 1`.
pub const MAX_MANTISSA: i128 = 0xFFFF_FFFF_FFFF_FFFF_FFFF_FFFF;

/// The largest scale: 28 digits after the decimal point.
pub const MAX_SCALE: u32 = 28;

/// An exact decimal number `mantissa / 10^scale`.
///
/// `==` on two decimals compares mantissa and scale, so `1.0` and `1.00` are
/// different representations; [`Decimal::compare`] compares the numbers.
#[derive(Clone, Copy, Debug, PartialEq, Eq, Structural)]
pub struct Decimal {
    pub mantissa: i128,
    pub scale: u32,
}

/// The declaration of the error type of `rust_decimal`.
#[verifier::external_type_specification]
#[verifier::external_body]
pub struct ExDecimalError(rust_decimal::Error);

/// `10^n`.
pub open spec fn pow10(n: nat) -> int {
    pow(10, n)
}

/// -1, 0 or 1 as `x` is negative, zero or positive.
pub open spec fn signum(x: int) -> int {
    if x < 0 {
        -1
    } else if x == 0 {
        0
    } else {
        1
    }
}

/// What `rust_decimal::Decimal::from_str` makes of a text, `None` where it
/// rejects the text.
pub uninterp spec fn parsed_decimal(text: Seq<char>) -> Option<Decimal>;

/// What `rust_decimal::Decimal::checked_add` returns for two decimals.
pub uninterp spec fn decimal_sum(a: Decimal, b: Decimal) -> Option<Decimal>;

/// What `rust_decimal::Decimal::checked_sub` returns for two decimals.
pub uninterp spec fn decimal_difference(a: Decimal, b: Decimal) -> Option<Decimal>;

/// What `rust_decimal::Decimal::checked_mul` returns for two decimals.
pub uninterp spec fn decimal_product(a: Decimal, b: Decimal) -> Option<Decimal>;

/// What `rust_decimal::Decimal::checked_div` returns for two decimals.
pub uninterp spec fn decimal_quotient(a: Decimal, b: Decimal) -> Option<Decimal>;

impl Decimal {
    /// A mantissa of at most 96 bits and a scale of at most 28.
    pub open spec fn wf(self) -> bool {
        &&& -MAX_MANTISSA <= self.mantissa <= MAX_MANTISSA
        &&& self.scale <= MAX_SCALE
    }

    /// The number in units of `10^-28`. Two well-formed decimals stand for the
    /// same number exactly when their units are equal.
    pub open spec fn units(self) -> int {
        self.mantissa * pow10((MAX_SCALE - self.scale) as nat)
    }

    /// The number rounded to two decimal places, a tie going away from zero.
    pub open spec fn rounded_to_cents(self) -> Decimal {
        if self.scale <= 2 {
            self
        } else {
            let unit = pow10((self.scale - 2) as nat);
            let magnitude = if self.mantissa < 0 {
                -self.mantissa
            } else {
                self.mantissa as int
            };
            let cents = magnitude / unit + if 2 * (magnitude % unit) >= unit {
                1int
            } else {
                0int
            };
            Decimal {
                mantissa: (if self.mantissa < 0 {
                    -cents
                } else {
                    cents
                }) as i128,
                scale: 2,
            }
        }
    }

    /// The whole number `value`.
    pub fn from_i64(value: i64) -> (r: Decimal)
        ensures
            r == (Decimal { mantissa: value as i128, scale: 0 }),
            r.wf(),
    {
        Decimal { mantissa: value as i128, scale: 0 }
    }

    /// Zero.
    pub fn zero() -> (r: Decimal)
        ensures
            r == (Decimal { mantissa: 0, scale: 0 }),
            r.wf(),
    {
        Decimal { mantissa: 0, scale: 0 }
    }

    /// The decimal `mantissa / 10^scale`, if the two fit.
    pub fn from_parts(mantissa: i128, scale: u32) -> (r: Option<Decimal>)
        ensures
            r == if (Decimal { mantissa, scale }).wf() {
                Some(Decimal { mantissa, scale })
            } else {
                None
            },
    {
        if -MAX_MANTISSA <= mantissa && mantissa <= MAX_MANTISSA && scale <= MAX_SCALE {
            Some(Decimal { mantissa, scale })
        } else {
            None
        }
    }

    /// Whether the fields are in range.
    pub fn is_wf(&self) -> (r: bool)
        ensures
            r == self.wf(),
    {
        -MAX_MANTISSA <= self.mantissa && self.mantissa <= MAX_MANTISSA && self.scale <= MAX_SCALE
    }

    /// Compares two decimals as numbers: -1, 0 or 1 as `self` is less than,
    /// equal to or greater than `other`.
    pub fn compare(&self, other: &Decimal) -> (r: i8)
        requires
            self.wf(),
            other.wf(),
        ensures
            r == signum(self.units() - other.units()),
    {
        compare_decimals(*self, *other)
    }

    /// Reads a decimal from text such as `"12.50"`; `None` where the text is
    /// not a decimal number.
    pub fn parse(text: &str) -> (r: Option<Decimal>)
        ensures
            r == parsed_decimal(text@),
            r matches Some(d) ==> d.wf(),
    {
        match parse_decimal(text) {
            Ok(d) => Some(d),
            Err(_) => None,
        }
    }

    /// Whether two decimals stand for the same number.
    pub fn same_value(&self, other: &Decimal) -> (r: bool)
        requires
            self.wf(),
            other.wf(),
        ensures
            r == (self.units() == other.units()),
    {
        self.compare(other) == 0
    }
}

/// Compares two decimals as numbers: -1, 0 or 1 as `a` is less than, equal to
/// or greater than `b`.
///
/// Trusted: calls `rust_decimal::Decimal::cmp`, which orders decimals by their
/// numeric value whatever their scales.
#[verifier::external_body]
pub(crate) fn compare_decimals(a: Decimal, b: Decimal) -> (r: i8)
    requires
        a.wf(),
        b.wf(),
    ensures
        r == signum(a.units() - b.units()),
{
    let x = rust_decimal::Decimal::from_i128_with_scale(a.mantissa, a.scale);
    let y = rust_decimal::Decimal::from_i128_with_scale(b.mantissa, b.scale);
    match x.cmp(&y) {
        Ordering::Less => -1,
        Ordering::Equal => 0,
        Ordering::Greater => 1,
    }
}

/// Reads a decimal from text.
///
/// Trusted: calls `rust_decimal::Decimal::from_str`; the result is a function
/// of the text alone, and a decimal it returns has a mantissa of at most 96
/// bits and a scale of at most 28.
#[verifier::external_body]
pub(crate) fn parse_decimal(text: &str) -> (r: Result<Decimal, rust_decimal::Error>)
    ensures
        match r {
            Ok(d) => parsed_decimal(text@) == Some(d) && d.wf(),
            Err(_) => parsed_decimal(text@) is None,
        },
{
    match rust_decimal::Decimal::from_str(text) {
        Ok(d) => Ok(Decimal { mantissa: d.mantissa(), scale: d.scale() }),
        Err(e) => Err(e),
    }
}

/// Adds two decimals, `None` on overflow.
///
/// Trusted: calls `rust_decimal::Decimal::checked_add`.
#[verifier::external_body]
pub(crate) fn checked_add(a: Decimal, b: Decimal) -> (r: Option<Decimal>)
    requires
        a.wf(),
        b.wf(),
    ensures
        r == decimal_sum(a, b),
        r matches Some(d) ==> d.wf(),
{
    let x = rust_decimal::Decimal::from_i128_with_scale(a.mantissa, a.scale);
    let y = rust_decimal::Decimal::from_i128_with_scale(b.mantissa, b.scale);
    match x.checked_add(y) {
        Some(d) => Some(Decimal { mantissa: d.mantissa(), scale: d.scale() }),
        None => None,
    }
}

/// Subtracts `b` from `a`, `None` on overflow.
///
/// Trusted: calls `rust_decimal::Decimal::checked_sub`.
#[verifier::external_body]
pub(crate) fn checked_sub(a: Decimal, b: Decimal) -> (r: Option<Decimal>)
    requires
        a.wf(),
        b.wf(),
    ensures
        r == decimal_difference(a, b),
        r matches Some(d) ==> d.wf(),
{
    let x = rust_decimal::Decimal::from_i128_with_scale(a.mantissa, a.scale);
    let y = rust_decimal::Decimal::from_i128_with_scale(b.mantissa, b.scale);
    match x.checked_sub(y) {
        Some(d) => Some(Decimal { mantissa: d.mantissa(), scale: d.scale() }),
        None => None,
    }
}

/// Multiplies two decimals, `None` on overflow.
///
/// Trusted: calls `rust_decimal::Decimal::checked_mul`.
#[verifier::external_body]
pub(crate) fn checked_mul(a: Decimal, b: Decimal) -> (r: Option<Decimal>)
    requires
        a.wf(),
        b.wf(),
    ensures
        r == decimal_product(a, b),
        r matches Some(d) ==> d.wf(),
{
    let x = rust_decimal::Decimal::from_i128_with_scale(a.mantissa, a.scale);
    let y = rust_decimal::Decimal::from_i128_with_scale(b.mantissa, b.scale);
    match x.checked_mul(y) {
        Some(d) => Some(Decimal { mantissa: d.mantissa(), scale: d.scale() }),
        None => None,
    }
}

/// Divides `a` by `b`, `None` on overflow or where `b` is zero.
///
/// Trusted: calls `rust_decimal::Decimal::checked_div`.
#[verifier::external_body]
pub(crate) fn checked_div(a: Decimal, b: Decimal) -> (r: Option<Decimal>)
    requires
        a.wf(),
        b.wf(),
    ensures
        r == decimal_quotient(a, b),
        r matches Some(d) ==> d.wf(),
{
    let x = rust_decimal::Decimal::from_i128_with_scale(a.mantissa, a.scale);
    let y = rust_decimal::Decimal::from_i128_with_scale(b.mantissa, b.scale);
    match x.checked_div(y) {
        Some(d) => Some(Decimal { mantissa: d.mantissa(), scale: d.scale() }),
        None => None,
    }
}

/// Rounds to two decimal places, a tie going away from zero.
///
/// Trusted: calls `rust_decimal::Decimal::round_dp_with_strategy` with two
/// places and `RoundingStrategy::MidpointAwayFromZero`. A decimal of scale two
/// or less comes back unchanged; any other comes back at scale two.
#[verifier::external_body]
pub(crate) fn round_to_cents(a: Decimal) -> (r: Decimal)
    requires
        a.wf(),
    ensures
        r == a.rounded_to_cents(),
        r.wf(),
{
    let x = rust_decimal::Decimal::from_i128_with_scale(a.mantissa, a.scale);
    let y = x.round_dp_with_strategy(2, rust_decimal::RoundingStrategy::MidpointAwayFromZero);
    Decimal { mantissa: y.mantissa(), scale: y.scale() }
}

} // verus!
