//! Exact signed rational numbers over 64-bit numerators and denominators.
//!
//! The arithmetic on magnitudes is done by the `fraction` crate on
//! arbitrary-precision fractions; the handling of signs is done here.

use fraction::{BigFraction, Decimal, Fraction, GenericFraction, ToPrimitive};
use std::str::FromStr;
use vstd::prelude::*;

verus! {

/// The value of the fraction `numer / denom`.
pub open spec fn ratio(numer: u64, denom: u64) -> real {
    numer as real / denom as real
}

/// Whether a non-negative value is the quotient of two 64-bit integers.
pub open spec fn fits(value: real) -> bool {
    exists|numer: u64, denom: u64| denom > 0 && #[trigger] ratio(numer, denom) == value
}

/// The absolute value of `value`.
pub open spec fn magnitude(value: real) -> real {
    if value < 0real {
        -value
    } else {
        value
    }
}

/// Whether a `Rational` can hold `value`.
pub open spec fn representable(value: real) -> bool {
    fits(magnitude(value))
}

/// The sign of a rational number.
#[derive(Clone, Copy, Debug, PartialEq, Eq, Structural)]
pub enum Sign {
    Plus,
    Minus,
}

/// `value` taken with `sign`.
pub open spec fn signed(sign: Sign, value: real) -> real {
    match sign {
        Sign::Plus => value,
        Sign::Minus => -value,
    }
}

/// The value of a fraction given by whether it has the minus sign, its
/// numerator and its denominator.
pub open spec fn value_of(plain: (bool, u64, u64)) -> real {
    if plain.0 {
        -ratio(plain.1, plain.2)
    } else {
        ratio(plain.1, plain.2)
    }
}

/// Orders two non-negative fractions.
///
/// Trusted: builds both with `fraction::BigFraction::new` and compares them
/// with `<=`, which is `cmp` of `fraction::GenericFraction` and orders finite
/// fractions by their exact value.
#[verifier::external_body]
fn ratio_le(an: u64, ad: u64, bn: u64, bd: u64) -> (r: bool)
    requires
        ad > 0,
        bd > 0,
    ensures
        r == (ratio(an, ad) <= ratio(bn, bd)),
{
    BigFraction::new(an, ad) <= BigFraction::new(bn, bd)
}

/// Adds two non-negative fractions.
///
/// Trusted: builds both with `fraction::BigFraction::new` and adds them with
/// `+`, which is `add` of `fraction::GenericFraction`. On integers without a
/// limit it is exact and gives the sum in lowest terms. The numerator and
/// the denominator are handed on if both are within `u64`, which they are
/// exactly when any two 64-bit integers have the sum as their quotient.
#[verifier::external_body]
fn ratio_add(an: u64, ad: u64, bn: u64, bd: u64) -> (r: Option<(u64, u64)>)
    requires
        ad > 0,
        bd > 0,
    ensures
        r is Some <==> fits(ratio(an, ad) + ratio(bn, bd)),
        r matches Some((n, d)) ==> d > 0 && ratio(n, d) == ratio(an, ad) + ratio(bn, bd),
{
    let sum = BigFraction::new(an, ad) + BigFraction::new(bn, bd);
    Some((sum.numer()?.to_u64()?, sum.denom()?.to_u64()?))
}

/// The distance between two non-negative fractions.
///
/// Trusted: builds both with `fraction::BigFraction::new` and subtracts them
/// with `-`, which is `sub` of `fraction::GenericFraction`. On integers
/// without a limit it is exact, and it keeps the sign apart from a magnitude
/// in lowest terms. The numerator and the denominator of the magnitude are
/// handed on if both are within `u64`.
#[verifier::external_body]
fn ratio_distance(an: u64, ad: u64, bn: u64, bd: u64) -> (r: Option<(u64, u64)>)
    requires
        ad > 0,
        bd > 0,
    ensures
        r is Some <==> fits(magnitude(ratio(an, ad) - ratio(bn, bd))),
        r matches Some((n, d)) ==> d > 0 && ratio(n, d) == magnitude(ratio(an, ad) - ratio(bn, bd)),
{
    let difference = BigFraction::new(an, ad) - BigFraction::new(bn, bd);
    Some((difference.numer()?.to_u64()?, difference.denom()?.to_u64()?))
}

/// Multiplies two non-negative fractions.
///
/// Trusted: builds both with `fraction::BigFraction::new` and multiplies
/// them with `*`, which is `mul` of `fraction::GenericFraction`. On integers
/// without a limit it is exact and gives the product in lowest terms. The
/// numerator and the denominator are handed on if both are within `u64`.
#[verifier::external_body]
fn ratio_mul(an: u64, ad: u64, bn: u64, bd: u64) -> (r: Option<(u64, u64)>)
    requires
        ad > 0,
        bd > 0,
    ensures
        r is Some <==> fits(ratio(an, ad) * ratio(bn, bd)),
        r matches Some((n, d)) ==> d > 0 && ratio(n, d) == ratio(an, ad) * ratio(bn, bd),
{
    let product = BigFraction::new(an, ad) * BigFraction::new(bn, bd);
    Some((product.numer()?.to_u64()?, product.denom()?.to_u64()?))
}

/// What `fraction::Fraction::from_str` reads from a text, where it reads a
/// finite fraction: whether the fraction has the minus sign, its numerator
/// and its denominator.
pub uninterp spec fn fraction_from_text(text: Seq<char>) -> Option<(bool, u64, u64)>;

/// What `fraction::Decimal::from_str` reads from a text, where it reads a
/// finite number: whether the number has the minus sign, and the numerator
/// and the denominator of the fraction that it is.
pub uninterp spec fn decimal_from_text(text: Seq<char>) -> Option<(bool, u64, u64)>;

/// What `fraction::Fraction` writes for a fraction with `{}`.
pub uninterp spec fn fraction_to_text(minus: bool, numer: u64, denom: u64) -> Seq<char>;

/// Reads a fraction from a text.
///
/// Trusted: calls `from_str` of `fraction::Fraction` and hands on the sign,
/// numerator and denominator of the fraction read; the denominator of a
/// fraction read is not zero. `None` where the call fails or reads infinity
/// or no number.
#[verifier::external_body]
fn fraction_from_str(text: &str) -> (r: Option<Rational>)
    ensures
        match r {
            Some(value) => fraction_from_text(text@) == Some(value.plain()),
            None => fraction_from_text(text@) is None,
        },
        r matches Some(value) ==> value.plain().2 > 0,
{
    match Fraction::from_str(text) {
        Ok(GenericFraction::Rational(fraction::Sign::Plus, ratio)) => Some(
            Rational { sign: Sign::Plus, numer: *ratio.numer(), denom: *ratio.denom() },
        ),
        Ok(GenericFraction::Rational(fraction::Sign::Minus, ratio)) => Some(
            Rational { sign: Sign::Minus, numer: *ratio.numer(), denom: *ratio.denom() },
        ),
        _ => None,
    }
}

/// Reads a decimal number from a text.
///
/// Trusted: calls `from_str` of `fraction::Decimal` and hands on the sign,
/// numerator and denominator of the fraction that the number read is; the
/// denominator of such a fraction is not zero. `None` where the call fails
/// or reads infinity or no number.
#[allow(deprecated)]
#[verifier::external_body]
fn decimal_from_str(text: &str) -> (r: Option<Rational>)
    ensures
        match r {
            Some(value) => decimal_from_text(text@) == Some(value.plain()),
            None => decimal_from_text(text@) is None,
        },
        r matches Some(value) ==> value.plain().2 > 0,
{
    match Decimal::from_str(text).ok()?.apply_ref(|fraction, _| *fraction) {
        GenericFraction::Rational(fraction::Sign::Plus, ratio) => Some(
            Rational { sign: Sign::Plus, numer: *ratio.numer(), denom: *ratio.denom() },
        ),
        GenericFraction::Rational(fraction::Sign::Minus, ratio) => Some(
            Rational { sign: Sign::Minus, numer: *ratio.numer(), denom: *ratio.denom() },
        ),
        _ => None,
    }
}

/// Writes a fraction as text.
///
/// Trusted: builds the fraction with `new` or `new_neg` of
/// `fraction::Fraction` and writes it with `{}`.
#[verifier::external_body]
fn fraction_to_string(value: &Rational) -> (r: String)
    ensures
        r@ == fraction_to_text(value.plain().0, value.plain().1, value.plain().2),
{
    match value.sign {
        Sign::Plus => format!("{}", Fraction::new(value.numer, value.denom)),
        Sign::Minus => format!("{}", Fraction::new_neg(value.numer, value.denom)),
    }
}

/// A fraction of 64-bit integers is never negative, and is zero exactly when
/// its numerator is.
pub proof fn lemma_ratio_sign(numer: u64, denom: u64)
    requires
        denom > 0,
    ensures
        ratio(numer, denom) >= 0real,
        ratio(numer, denom) == 0real <==> numer == 0,
{
    let n = numer as real;
    let d = denom as real;
    assert(d > 0real);
    assert(n >= 0real);
    assert(n / d >= 0real) by (nonlinear_arith)
        requires
            n >= 0real,
            d > 0real,
    ;
    assert(n / d == 0real <==> n == 0real) by (nonlinear_arith)
        requires
            n >= 0real,
            d > 0real,
    ;
}

/// An exact rational number: a sign and a fraction of two 64-bit integers.
#[derive(Clone, Copy, Debug)]
pub struct Rational {
    sign: Sign,
    numer: u64,
    denom: u64,
}

impl View for Rational {
    type V = real;

    closed spec fn view(&self) -> real {
        signed(self.sign, ratio(self.numer, self.denom))
    }
}

impl Rational {
    #[verifier::type_invariant]
    spec fn well_formed(&self) -> bool {
        self.denom > 0
    }

    /// Whether the minus sign is held, and the numerator and denominator
    /// held.
    pub closed spec fn plain(&self) -> (bool, u64, u64) {
        (self.sign == Sign::Minus, self.numer, self.denom)
    }

    /// The value is that of the sign, numerator and denominator held.
    pub proof fn lemma_plain(value: Rational)
        ensures
            value@ == value_of(value.plain()),
    {
    }

    /// The fraction `numer / denom`, if `denom` is not zero.
    pub fn new(numer: u64, denom: u64) -> (r: Option<Rational>)
        ensures
            r is None <==> denom == 0,
            r matches Some(v) ==> v@ == ratio(numer, denom) && v.plain() == (false, numer, denom),
    {
        if denom == 0 {
            None
        } else {
            Some(Rational { sign: Sign::Plus, numer, denom })
        }
    }

    /// The fraction with the given sign, numerator and denominator, if the
    /// denominator is not zero.
    pub fn from_parts(sign: Sign, numer: u64, denom: u64) -> (r: Option<Rational>)
        ensures
            r is None <==> denom == 0,
            r matches Some(v) ==> v@ == signed(sign, ratio(numer, denom)) && v.plain() == (
                sign == Sign::Minus,
                numer,
                denom,
            ),
    {
        if denom == 0 {
            None
        } else {
            Some(Rational { sign, numer, denom })
        }
    }

    /// The integer `value`.
    pub fn from_integer(value: u64) -> (r: Rational)
        ensures
            r@ == value as real,
    {
        proof {
            let v = value as real;
            assert(v / 1real == v) by (nonlinear_arith);
        }
        Rational { sign: Sign::Plus, numer: value, denom: 1 }
    }

    /// Zero.
    pub fn zero() -> (r: Rational)
        ensures
            r@ == 0real,
    {
        Rational::from_integer(0)
    }

    /// The same magnitude with the opposite sign.
    pub fn neg(&self) -> (r: Rational)
        ensures
            r@ == -self@,
    {
        proof {
            use_type_invariant(self);
        }
        let sign = match self.sign {
            Sign::Plus => Sign::Minus,
            Sign::Minus => Sign::Plus,
        };
        Rational { sign, numer: self.numer, denom: self.denom }
    }

    /// The sign, numerator and denominator held. The fraction need not be in
    /// lowest terms, and zero may carry either sign.
    pub fn parts(&self) -> (r: (Sign, u64, u64))
        ensures
            r.2 > 0,
            self@ == signed(r.0, ratio(r.1, r.2)),
            self.plain() == (r.0 == Sign::Minus, r.1, r.2),
    {
        proof {
            use_type_invariant(self);
        }
        (self.sign, self.numer, self.denom)
    }

    /// The fraction that a text stands for: digits, or two numbers with a
    /// slash between them, or a number with a decimal point, with or without
    /// a sign in front.
    pub fn parse(text: &str) -> (r: Option<Rational>)
        ensures
            match r {
                Some(value) => fraction_from_text(text@) == Some(value.plain()),
                None => fraction_from_text(text@) is None,
            },
            r matches Some(value) ==> value.plain().2 > 0 && value@ == value_of(value.plain()),
    {
        fraction_from_str(text)
    }

    /// The number that a text stands for as a decimal number.
    pub fn parse_decimal(text: &str) -> (r: Option<Rational>)
        ensures
            match r {
                Some(value) => decimal_from_text(text@) == Some(value.plain()),
                None => decimal_from_text(text@) is None,
            },
            r matches Some(value) ==> value.plain().2 > 0 && value@ == value_of(value.plain()),
    {
        decimal_from_str(text)
    }

    /// The fraction as text.
    pub fn to_text(&self) -> (r: String)
        ensures
            r@ == fraction_to_text(self.plain().0, self.plain().1, self.plain().2),
    {
        fraction_to_string(self)
    }

    /// Whether `self <= other`.
    pub fn le(&self, other: &Rational) -> (r: bool)
        ensures
            r == (self@ <= other@),
    {
        proof {
            use_type_invariant(self);
            use_type_invariant(other);
            lemma_ratio_sign(self.numer, self.denom);
            lemma_ratio_sign(other.numer, other.denom);
        }
        match (self.sign, other.sign) {
            (Sign::Plus, Sign::Plus) => ratio_le(self.numer, self.denom, other.numer, other.denom),
            (Sign::Minus, Sign::Minus) => ratio_le(
                other.numer,
                other.denom,
                self.numer,
                self.denom,
            ),
            (Sign::Minus, Sign::Plus) => true,
            (Sign::Plus, Sign::Minus) => self.numer == 0 && other.numer == 0,
        }
    }

    /// Whether `self < other`.
    pub fn lt(&self, other: &Rational) -> (r: bool)
        ensures
            r == (self@ < other@),
    {
        !other.le(self)
    }

    /// The exact sum, or `None` when no `Rational` can hold it.
    pub fn checked_add(&self, other: &Rational) -> (r: Option<Rational>)
        ensures
            r is Some <==> representable(self@ + other@),
            r matches Some(v) ==> v@ == self@ + other@,
    {
        proof {
            use_type_invariant(self);
            use_type_invariant(other);
            lemma_ratio_sign(self.numer, self.denom);
            lemma_ratio_sign(other.numer, other.denom);
        }
        if self.sign == other.sign {
            match ratio_add(self.numer, self.denom, other.numer, other.denom) {
                Some((numer, denom)) => Some(Rational { sign: self.sign, numer, denom }),
                None => None,
            }
        } else {
            let sign = if ratio_le(other.numer, other.denom, self.numer, self.denom) {
                self.sign
            } else {
                other.sign
            };
            match ratio_distance(self.numer, self.denom, other.numer, other.denom) {
                Some((numer, denom)) => Some(Rational { sign, numer, denom }),
                None => None,
            }
        }
    }

    /// The exact difference, or `None` when no `Rational` can hold it.
    pub fn checked_sub(&self, other: &Rational) -> (r: Option<Rational>)
        ensures
            r is Some <==> representable(self@ - other@),
            r matches Some(v) ==> v@ == self@ - other@,
    {
        let negated = other.neg();
        self.checked_add(&negated)
    }

    /// The exact product, or `None` when no `Rational` can hold it.
    pub fn checked_mul(&self, other: &Rational) -> (r: Option<Rational>)
        ensures
            r is Some <==> representable(self@ * other@),
            r matches Some(v) ==> v@ == self@ * other@,
    {
        proof {
            use_type_invariant(self);
            use_type_invariant(other);
            lemma_ratio_sign(self.numer, self.denom);
            lemma_ratio_sign(other.numer, other.denom);
            let a = ratio(self.numer, self.denom);
            let b = ratio(other.numer, other.denom);
            assert(a * b >= 0real) by (nonlinear_arith)
                requires
                    a >= 0real,
                    b >= 0real,
            ;
            assert((-a) * b == -(a * b)) by (nonlinear_arith);
            assert(a * (-b) == -(a * b)) by (nonlinear_arith);
            assert((-a) * (-b) == a * b) by (nonlinear_arith);
        }
        let sign = if self.sign == other.sign {
            Sign::Plus
        } else {
            Sign::Minus
        };
        match ratio_mul(self.numer, self.denom, other.numer, other.denom) {
            Some((numer, denom)) => Some(Rational { sign, numer, denom }),
            None => None,
        }
    }
}

impl PartialEq for Rational {
    /// Whether both have the same value.
    fn eq(&self, other: &Self) -> (r: bool) {
        self.le(other) && other.le(self)
    }
}

impl vstd::std_specs::cmp::PartialEqSpecImpl for Rational {
    open spec fn obeys_eq_spec() -> bool {
        true
    }

    open spec fn eq_spec(&self, other: &Self) -> bool {
        self@ == other@
    }
}

impl Eq for Rational {

}

} // verus!
