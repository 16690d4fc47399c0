//! Lengths as people enter them: a unit, and one or two numbers.

use crate::entry::{length_from_text, parse_positive_fraction};
use crate::rational::{fraction_to_text, ratio, representable, Rational};
use vstd::prelude::*;

verus! {

/// How a fraction is written out.
#[derive(Clone, Copy, Debug, PartialEq, Eq)]
pub enum FractionFormat {
    /// As a decimal number with at most this many digits behind the point.
    Decimal(usize),
    /// As numerator and denominator.
    Fraction,
    /// As a whole number followed by a proper fraction.
    Mixed,
}

/// A text without the characters `c` at its end.
pub open spec fn without_trailing(text: Seq<char>, c: char) -> Seq<char>
    decreases text.len(),
{
    if text.len() > 0 && text.last() == c {
        without_trailing(text.drop_last(), c)
    } else {
        text
    }
}

/// A decimal number without the zeros at the end of what stands behind its
/// point, and without the point where nothing is left behind it. A text
/// without a point is left as it is.
pub open spec fn tidy(text: Seq<char>) -> Seq<char> {
    if text.contains('.') {
        without_trailing(without_trailing(text, '0'), '.')
    } else {
        text
    }
}

/// The number of characters that are left of the first `end` characters of a
/// text without the characters `c` at their end.
fn trailing_start(text: &str, end: usize, c: char) -> (r: usize)
    requires
        end <= text@.len(),
    ensures
        r <= end,
        text@.take(r as int) == without_trailing(text@.take(end as int), c),
{
    let mut kept = end;
    while kept > 0 && text.get_char(kept - 1) == c
        invariant
            kept <= end <= text@.len(),
            without_trailing(text@.take(kept as int), c) == without_trailing(
                text@.take(end as int),
                c,
            ),
        decreases kept,
    {
        assert(text@.take(kept as int).drop_last() =~= text@.take(kept - 1));
        kept -= 1;
    }
    kept
}

/// Whether a text has a point.
fn has_point(text: &str) -> (r: bool)
    ensures
        r == text@.contains('.'),
{
    let len = text.unicode_len();
    let mut i: usize = 0;
    while i < len
        invariant
            i <= len,
            len == text@.len(),
            forall|k: int| 0 <= k < i ==> text@[k] != '.',
        decreases len - i,
    {
        if text.get_char(i) == '.' {
            return true;
        }
        i += 1;
    }
    false
}

/// A decimal number without the zeros at the end of what stands behind its
/// point, and without the point where nothing is left behind it.
pub fn tidy_decimal(text: &str) -> (r: String)
    ensures
        r@ == tidy(text@),
{
    if has_point(text) {
        let len = text.unicode_len();
        assert(text@.take(len as int) =~= text@);
        let digits = trailing_start(text, len, '0');
        let kept = trailing_start(text, digits, '.');
        String::from_str(text.substring_char(0, kept))
    } else {
        String::from_str(text)
    }
}

/// A fraction as a whole number and a proper fraction: `0` for zero, else
/// the whole part where there is one, then the rest where there is one, with
/// a space between the two. Both carry the sign of the fraction.
pub open spec fn mixed_text(plain: (bool, u64, u64)) -> Seq<char> {
    let whole = (plain.1 / plain.2) as u64;
    let rest = (plain.1 % plain.2) as u64;
    if plain.1 == 0 {
        "0"@
    } else if whole == 0 {
        fraction_to_text(plain.0, rest, plain.2)
    } else if rest == 0 {
        fraction_to_text(plain.0, whole, 1)
    } else {
        fraction_to_text(plain.0, whole, 1) + " "@ + fraction_to_text(plain.0, rest, plain.2)
    }
}

impl FractionFormat {
    /// A fraction as a whole number and a proper fraction.
    pub fn format_mixed(fraction: Rational) -> (r: String)
        ensures
            r@ == mixed_text(fraction.plain()),
    {
        let (sign, numer, denom) = fraction.parts();
        let whole: u64 = numer / denom;
        let rest: u64 = numer % denom;
        if numer == 0 {
            String::from_str("0")
        } else if whole == 0 {
            Rational::from_parts(sign, rest, denom).unwrap().to_text()
        } else if rest == 0 {
            Rational::from_parts(sign, whole, 1).unwrap().to_text()
        } else {
            let mut text = Rational::from_parts(sign, whole, 1).unwrap().to_text();
            text.append(" ");
            let behind = Rational::from_parts(sign, rest, denom).unwrap().to_text();
            text.append(behind.as_str());
            text
        }
    }

    /// A fraction in this format, where the format is exact.
    pub open spec fn format_spec(&self, fraction: Rational) -> Option<Seq<char>> {
        match *self {
            FractionFormat::Decimal(_) => None,
            FractionFormat::Mixed => Some(mixed_text(fraction.plain())),
            FractionFormat::Fraction => Some(
                fraction_to_text(fraction.plain().0, fraction.plain().1, fraction.plain().2),
            ),
        }
    }

    /// A fraction in this format, where the format is exact. The decimal
    /// format rounds, which is left to floating point: there the result is
    /// `None`.
    pub fn format(&self, fraction: Rational) -> (r: Option<String>)
        ensures
            match r {
                Some(text) => self.format_spec(fraction) == Some(text@),
                None => self.format_spec(fraction) is None,
            },
    {
        match *self {
            Self::Decimal(_) => None,
            Self::Mixed => Some(Self::format_mixed(fraction)),
            Self::Fraction => Some(fraction.to_text()),
        }
    }

    /// The format with the given number in a list of choices, which is below
    /// three: decimal with `precision` digits, mixed, or fraction.
    pub fn from(selection: u32, precision: u32) -> (r: Self)
        requires
            selection < 3,
        ensures
            r == match selection {
                0 => FractionFormat::Decimal(precision as usize),
                1 => FractionFormat::Mixed,
                _ => FractionFormat::Fraction,
            },
    {
        match selection {
            0 => Self::Decimal(precision as usize),
            1 => Self::Mixed,
            _ => Self::Fraction,
        }
    }
}

/// The unit of a length.
#[derive(Clone, Copy, Debug, PartialEq, Eq, Structural)]
pub enum SizeUnit {
    FeetInches,
    Inches,
    Centimeters,
    Meters,
}

impl Default for SizeUnit {
    fn default() -> (r: Self)
        ensures
            r == SizeUnit::Meters,
    {
        SizeUnit::Meters
    }
}

impl SizeUnit {
    /// The unit with the given number in a list of choices: feet and inches,
    /// inches, meters, or centimeters.
    pub open spec fn from_spec(selection: u32) -> SizeUnit {
        match selection {
            0 => SizeUnit::FeetInches,
            1 => SizeUnit::Inches,
            2 => SizeUnit::Meters,
            _ => SizeUnit::Centimeters,
        }
    }

    /// The unit with the given number in a list of choices, which is below
    /// four: feet and inches, inches, meters, or centimeters.
    pub fn from(selection: u32) -> (r: Self)
        requires
            selection < 4,
        ensures
            r == SizeUnit::from_spec(selection),
    {
        match selection {
            0 => Self::FeetInches,
            1 => Self::Inches,
            2 => Self::Meters,
            _ => Self::Centimeters,
        }
    }

    /// Whether a length in this unit has a second, smaller part.
    pub fn has_minor(&self) -> (r: bool)
        ensures
            r == (*self == SizeUnit::FeetInches),
    {
        match *self {
            Self::FeetInches => true,
            _ => false,
        }
    }

    /// The name of the unit of the first number.
    pub fn major_name(&self) -> (r: &'static str)
        ensures
            r@ == match *self {
                SizeUnit::FeetInches => "Feet"@,
                SizeUnit::Inches => "Inches"@,
                SizeUnit::Centimeters => "Centimeters"@,
                SizeUnit::Meters => "Meters"@,
            },
    {
        match *self {
            Self::FeetInches => "Feet",
            Self::Inches => "Inches",
            Self::Centimeters => "Centimeters",
            Self::Meters => "Meters",
        }
    }

    /// The symbol of the unit of the first number.
    pub open spec fn major_symbol_spec(&self) -> Seq<char> {
        match *self {
            SizeUnit::FeetInches => "ft"@,
            SizeUnit::Inches => "in"@,
            SizeUnit::Centimeters => "cm"@,
            SizeUnit::Meters => "m"@,
        }
    }

    /// The symbol of the unit of the first number.
    pub fn major_symbol(&self) -> (r: &'static str)
        ensures
            r@ == self.major_symbol_spec(),
    {
        match *self {
            Self::FeetInches => "ft",
            Self::Inches => "in",
            Self::Centimeters => "cm",
            Self::Meters => "m",
        }
    }

    /// The name of the unit of the second number; empty where there is none.
    pub fn minor_name(&self) -> (r: &'static str)
        ensures
            r@ == match *self {
                SizeUnit::FeetInches => "Inches"@,
                _ => ""@,
            },
    {
        match *self {
            Self::FeetInches => "Inches",
            _ => "",
        }
    }

    /// The symbol of the unit of the second number; empty where there is
    /// none.
    pub open spec fn minor_symbol_spec(&self) -> Seq<char> {
        match *self {
            SizeUnit::FeetInches => "in"@,
            _ => ""@,
        }
    }

    /// The symbol of the unit of the second number; empty where there is
    /// none.
    pub fn minor_symbol(&self) -> (r: &'static str)
        ensures
            r@ == self.minor_symbol_spec(),
    {
        match *self {
            Self::FeetInches => "in",
            _ => "",
        }
    }
}

/// The length of a foot in meters.
pub open spec fn meters_per_foot() -> real {
    3048real / 10000real
}

/// Taking a twelfth of a value divides it by twelve.
pub proof fn lemma_twelfth(value: real)
    ensures
        value * ratio(1, 12) == value / 12real,
{
    assert(value * (1real / 12real) == value / 12real) by (nonlinear_arith);
}

/// Taking a hundredth of a value divides it by a hundred.
pub proof fn lemma_hundredth(value: real)
    ensures
        value * ratio(1, 100) == value / 100real,
{
    assert(value * (1real / 100real) == value / 100real) by (nonlinear_arith);
}

/// A length in some unit. The smaller part counts only where the unit has
/// one: the inches beside the feet.
#[derive(Clone, Copy, Debug)]
pub struct Size {
    pub unit: SizeUnit,
    pub major: Rational,
    pub minor: Rational,
}

impl Default for Size {
    fn default() -> (r: Self)
        ensures
            r.unit == SizeUnit::Meters,
            r.major@ == 0real,
            r.minor@ == 0real,
    {
        Size { unit: SizeUnit::Meters, major: Rational::zero(), minor: Rational::zero() }
    }
}

/// A length of `major` in a unit, with `minor` of its smaller part where the
/// unit has one, in meters.
pub open spec fn meters_of(unit: SizeUnit, major: real, minor: real) -> real {
    match unit {
        SizeUnit::FeetInches => meters_per_foot() * (major + minor / 12real),
        SizeUnit::Inches => meters_per_foot() * (major / 12real),
        SizeUnit::Meters => major,
        SizeUnit::Centimeters => major / 100real,
    }
}

/// Whether a length in meters and the values on the way to it are
/// representable.
pub open spec fn convertible_of(unit: SizeUnit, major: real, minor: real) -> bool {
    match unit {
        SizeUnit::FeetInches => {
            &&& representable(minor / 12real)
            &&& representable(major + minor / 12real)
            &&& representable(meters_of(unit, major, minor))
        },
        SizeUnit::Inches => representable(major / 12real) && representable(
            meters_of(unit, major, minor),
        ),
        SizeUnit::Meters => true,
        SizeUnit::Centimeters => representable(meters_of(unit, major, minor)),
    }
}

impl Size {
    /// The length in meters.
    pub open spec fn meters(&self) -> real {
        meters_of(self.unit, self.major@, self.minor@)
    }

    /// Whether the length in meters and the values on the way to it are
    /// representable.
    pub open spec fn convertible(&self) -> bool {
        convertible_of(self.unit, self.major@, self.minor@)
    }

    /// The length as text in the given format, where the format is exact:
    /// the number and the symbol of the unit, and behind a comma the same for
    /// the smaller part where the unit has one.
    pub open spec fn format_spec(&self, fraction_format: FractionFormat) -> Option<Seq<char>> {
        match (fraction_format.format_spec(self.major), fraction_format.format_spec(self.minor)) {
            (Some(major), Some(minor)) => Some(
                if self.unit == SizeUnit::FeetInches {
                    major + " "@ + self.unit.major_symbol_spec() + ", "@ + minor + " "@
                        + self.unit.minor_symbol_spec()
                } else {
                    major + " "@ + self.unit.major_symbol_spec()
                },
            ),
            _ => None,
        }
    }

    /// The length as text in the given format, where the format is exact:
    /// the number and the symbol of the unit, and behind a comma the same for
    /// the smaller part where the unit has one. `None` for the decimal
    /// format.
    pub fn format(&self, fraction_format: &FractionFormat) -> (r: Option<String>)
        ensures
            match r {
                Some(text) => self.format_spec(*fraction_format) == Some(text@),
                None => self.format_spec(*fraction_format) is None,
            },
    {
        let major = match fraction_format.format(self.major) {
            Some(text) => text,
            None => {
                return None;
            },
        };
        let minor = match fraction_format.format(self.minor) {
            Some(text) => text,
            None => {
                return None;
            },
        };
        let mut output = major;
        output.append(" ");
        output.append(self.unit.major_symbol());
        if self.unit.has_minor() {
            output.append(", ");
            output.append(minor.as_str());
            output.append(" ");
            output.append(self.unit.minor_symbol());
        }
        Some(output)
    }

    /// The length in the unit with the given number in the list of choices,
    /// which is below four, and with the numbers that the two texts stand
    /// for; an empty text stands for zero.
    pub fn from(selection: u32, major: &str, minor: &str) -> (r: Result<Self, ()>)
        requires
            selection < 4,
        ensures
            match r {
                Ok(size) => {
                    &&& size.unit == SizeUnit::from_spec(selection)
                    &&& length_from_text(major@, true) == Some(size.major@)
                    &&& length_from_text(minor@, true) == Some(size.minor@)
                },
                Err(_) => length_from_text(major@, true) is None || length_from_text(minor@, true)
                    is None,
            },
    {
        let major = match parse_positive_fraction(major, true) {
            Ok(value) => value,
            Err(_) => {
                return Err(());
            },
        };
        let minor = match parse_positive_fraction(minor, true) {
            Ok(value) => value,
            Err(_) => {
                return Err(());
            },
        };
        Ok(Size { unit: SizeUnit::from(selection), major, minor })
    }

    /// A length of so many meters.
    pub fn from_meters(meters: Rational) -> (r: Self)
        ensures
            r.unit == SizeUnit::Meters,
            r.major == meters,
            r.minor@ == 0real,
            r.meters() == meters@,
    {
        Size { unit: SizeUnit::Meters, major: meters, minor: Rational::zero() }
    }

    /// The length in meters, where it can be computed.
    pub fn to_meters(&self) -> (r: Option<Rational>)
        ensures
            r is Some <==> self.convertible(),
            r matches Some(meters) ==> meters@ == self.meters(),
    {
        proof {
            lemma_twelfth(self.major@);
            lemma_twelfth(self.minor@);
            lemma_hundredth(self.major@);
        }
        match self.unit {
            SizeUnit::FeetInches => {
                let foot = Rational::new(3048, 10000).unwrap();
                let twelfth = Rational::new(1, 12).unwrap();
                let feet = match self.minor.checked_mul(&twelfth) {
                    Some(inches_in_feet) => self.major.checked_add(&inches_in_feet),
                    None => None,
                };
                match feet {
                    Some(feet) => foot.checked_mul(&feet),
                    None => None,
                }
            },
            SizeUnit::Inches => {
                let foot = Rational::new(3048, 10000).unwrap();
                let twelfth = Rational::new(1, 12).unwrap();
                match self.major.checked_mul(&twelfth) {
                    Some(feet) => foot.checked_mul(&feet),
                    None => None,
                }
            },
            SizeUnit::Meters => Some(self.major),
            SizeUnit::Centimeters => {
                let hundredth = Rational::new(1, 100).unwrap();
                self.major.checked_mul(&hundredth)
            },
        }
    }
}

} // verus!
