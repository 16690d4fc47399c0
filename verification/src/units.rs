//! Units of length and their conversion to meters.

use crate::rational::{representable, Rational};
use crate::size::{lemma_hundredth, meters_per_foot};
use vstd::prelude::*;

verus! {

/// The unit of a length.
#[derive(Clone, Copy, Debug, PartialEq, Eq, Structural)]
pub enum LengthUnit {
    FeetInches,
    Inches,
    Centimeters,
    Meters,
}

impl LengthUnit {
    /// Whether a length in this unit has a second, smaller part.
    pub fn has_subunit(&self) -> (r: bool)
        ensures
            r == (*self == LengthUnit::FeetInches),
    {
        match *self {
            Self::FeetInches => true,
            _ => false,
        }
    }

    /// The symbol of the unit.
    pub fn main_symbol(&self) -> (r: &'static str)
        ensures
            r@ == match *self {
                LengthUnit::FeetInches => "ft"@,
                LengthUnit::Inches => "in"@,
                LengthUnit::Centimeters => "cm"@,
                LengthUnit::Meters => "m"@,
            },
    {
        match *self {
            Self::FeetInches => "ft",
            Self::Inches => "in",
            Self::Centimeters => "cm",
            Self::Meters => "m",
        }
    }

    /// The symbol of the smaller part; empty where there is none.
    pub fn subunit_symbol(&self) -> (r: &'static str)
        ensures
            r@ == match *self {
                LengthUnit::FeetInches => "in"@,
                _ => ""@,
            },
    {
        match *self {
            Self::FeetInches => "in",
            _ => "",
        }
    }
}

/// What `to_meters` makes of a length and a smaller part in a unit. The
/// smaller part counts twelve times; `Size::to_meters` is the conversion that
/// takes it as twelfths.
pub open spec fn in_meters(length: real, sublength: real, unit: LengthUnit) -> real {
    match unit {
        LengthUnit::FeetInches => meters_per_foot() * (length + sublength * 12real),
        LengthUnit::Inches => meters_per_foot() * sublength * 12real,
        LengthUnit::Meters => length,
        LengthUnit::Centimeters => length / 100real,
    }
}

/// Whether `to_meters` can compute its result: the result and the values on
/// the way to it are representable.
pub open spec fn has_meters(length: real, sublength: real, unit: LengthUnit) -> bool {
    match unit {
        LengthUnit::FeetInches => {
            &&& representable(sublength * 12real)
            &&& representable(length + sublength * 12real)
            &&& representable(in_meters(length, sublength, unit))
        },
        LengthUnit::Inches => {
            &&& representable(meters_per_foot() * sublength)
            &&& representable(in_meters(length, sublength, unit))
        },
        LengthUnit::Meters => true,
        LengthUnit::Centimeters => representable(in_meters(length, sublength, unit)),
    }
}

/// A length and a smaller part in a unit as meters, where that can be
/// computed.
pub fn to_meters(length: Rational, sublength: Rational, unit: LengthUnit) -> (r: Option<Rational>)
    ensures
        r is Some <==> has_meters(length@, sublength@, unit),
        r matches Some(meters) ==> meters@ == in_meters(length@, sublength@, unit),
{
    proof {
        lemma_hundredth(length@);
    }
    match unit {
        LengthUnit::FeetInches => {
            let foot = Rational::new(3048, 10000).unwrap();
            let twelve = Rational::from_integer(12);
            let feet = match sublength.checked_mul(&twelve) {
                Some(scaled) => length.checked_add(&scaled),
                None => None,
            };
            match feet {
                Some(feet) => foot.checked_mul(&feet),
                None => None,
            }
        },
        LengthUnit::Inches => {
            let foot = Rational::new(3048, 10000).unwrap();
            let twelve = Rational::from_integer(12);
            match foot.checked_mul(&sublength) {
                Some(scaled) => scaled.checked_mul(&twelve),
                None => None,
            }
        },
        LengthUnit::Meters => Some(length),
        LengthUnit::Centimeters => {
            let hundredth = Rational::new(1, 100).unwrap();
            length.checked_mul(&hundredth)
        },
    }
}

} // verus!
