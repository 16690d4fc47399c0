use chop_chop::modeling::{Dimension, Material, MaterialMap, Part, Supply};
use chop_chop::rational::Rational;
use chop_chop::size::{FractionFormat, Size, SizeUnit};
use chop_chop::units::{to_meters, LengthUnit};

fn ratio(numer: u64, denom: u64) -> Rational {
    Rational::new(numer, denom).unwrap()
}

fn material(name: &str, dimension: Dimension) -> Material {
    Material {
        name: String::from(name),
        dimension,
    }
}

#[test]
fn materials_differ_by_name_or_dimension() {
    let pine = material("Pine", Dimension::OneD);
    assert!(pine.same_as(&material("Pine", Dimension::OneD)));
    assert!(!pine.same_as(&material("Pine", Dimension::TwoD)));
    assert!(!pine.same_as(&material("Oak", Dimension::OneD)));
    assert_eq!(pine.clone(), pine);
}

#[test]
fn map_keeps_one_value_per_material_in_order() {
    let mut map: MaterialMap<u32> = MaterialMap::new();
    assert!(map.is_empty());
    assert_eq!(map.insert(material("Pine", Dimension::OneD), 1), None);
    assert_eq!(map.insert(material("Oak", Dimension::OneD), 2), None);
    assert_eq!(map.insert(material("Pine", Dimension::TwoD), 3), None);
    assert_eq!(map.insert(material("Pine", Dimension::OneD), 4), Some(1));
    assert_eq!(map.len(), 3);
    assert!(!map.is_empty());
    assert_eq!(map.get(&material("Pine", Dimension::OneD)), Some(&4));
    assert_eq!(map.get(&material("Oak", Dimension::OneD)), Some(&2));
    assert_eq!(map.get(&material("Ash", Dimension::OneD)), None);
    assert_eq!(map.position(&material("Pine", Dimension::TwoD)), Some(2));
    assert_eq!(map.position(&material("Ash", Dimension::TwoD)), None);
    let names: Vec<&str> = map.entries().iter().map(|e| e.0.name.as_str()).collect();
    assert_eq!(names, vec!["Pine", "Oak", "Pine"]);
    let copy = map.clone();
    assert_eq!(copy.entries(), map.entries());
    let entries = map.into_entries();
    assert_eq!(entries[0].1, 4);
    assert_eq!(entries[2].1, 3);
}

#[test]
fn supplies_and_parts_are_cloned_field_by_field() {
    let supply = Supply {
        name: String::from("8 ft"),
        length: ratio(8, 1),
        price: ratio(7, 2),
        max_quantity: 5,
    };
    let copy = supply.clone();
    assert_eq!(copy.name, "8 ft");
    assert_eq!(copy.length, ratio(8, 1));
    assert_eq!(copy.price, ratio(7, 2));
    assert_eq!(copy.max_quantity, 5);
    let part = Part {
        name: String::from("leg"),
        length: ratio(3, 4),
        quantity: 4,
    };
    let copy = part.clone();
    assert_eq!(copy.name, "leg");
    assert_eq!(copy.length, ratio(3, 4));
    assert_eq!(copy.quantity, 4);
}

#[test]
fn choices_are_numbered() {
    assert_eq!(Dimension::from(0), Dimension::OneD);
    assert_eq!(Dimension::from(1), Dimension::TwoD);
    assert_eq!(FractionFormat::from(0, 3), FractionFormat::Decimal(3));
    assert_eq!(FractionFormat::from(1, 3), FractionFormat::Mixed);
    assert_eq!(FractionFormat::from(2, 3), FractionFormat::Fraction);
    assert_eq!(SizeUnit::from(0), SizeUnit::FeetInches);
    assert_eq!(SizeUnit::from(1), SizeUnit::Inches);
    assert_eq!(SizeUnit::from(2), SizeUnit::Meters);
    assert_eq!(SizeUnit::from(3), SizeUnit::Centimeters);
    assert_eq!(SizeUnit::default(), SizeUnit::Meters);
}

#[test]
fn size_units_have_names_and_symbols() {
    assert!(SizeUnit::FeetInches.has_minor());
    assert!(!SizeUnit::Inches.has_minor());
    assert!(!SizeUnit::Centimeters.has_minor());
    assert!(!SizeUnit::Meters.has_minor());
    assert_eq!(SizeUnit::FeetInches.major_name(), "Feet");
    assert_eq!(SizeUnit::Inches.major_name(), "Inches");
    assert_eq!(SizeUnit::Centimeters.major_name(), "Centimeters");
    assert_eq!(SizeUnit::Meters.major_name(), "Meters");
    assert_eq!(SizeUnit::FeetInches.major_symbol(), "ft");
    assert_eq!(SizeUnit::Inches.major_symbol(), "in");
    assert_eq!(SizeUnit::Centimeters.major_symbol(), "cm");
    assert_eq!(SizeUnit::Meters.major_symbol(), "m");
    assert_eq!(SizeUnit::FeetInches.minor_name(), "Inches");
    assert_eq!(SizeUnit::Meters.minor_name(), "");
    assert_eq!(SizeUnit::FeetInches.minor_symbol(), "in");
    assert_eq!(SizeUnit::Centimeters.minor_symbol(), "");
}

#[test]
fn length_units_have_symbols() {
    assert!(LengthUnit::FeetInches.has_subunit());
    assert!(!LengthUnit::Inches.has_subunit());
    assert!(!LengthUnit::Centimeters.has_subunit());
    assert!(!LengthUnit::Meters.has_subunit());
    assert_eq!(LengthUnit::FeetInches.main_symbol(), "ft");
    assert_eq!(LengthUnit::Inches.main_symbol(), "in");
    assert_eq!(LengthUnit::Centimeters.main_symbol(), "cm");
    assert_eq!(LengthUnit::Meters.main_symbol(), "m");
    assert_eq!(LengthUnit::FeetInches.subunit_symbol(), "in");
    assert_eq!(LengthUnit::Inches.subunit_symbol(), "");
}

#[test]
fn sizes_convert_to_meters() {
    let size = Size {
        unit: SizeUnit::FeetInches,
        major: ratio(1, 1),
        minor: ratio(6, 1),
    };
    assert_eq!(size.to_meters(), Some(ratio(4572, 10000)));
    let size = Size {
        unit: SizeUnit::Inches,
        major: ratio(24, 1),
        minor: ratio(5, 1),
    };
    assert_eq!(size.to_meters(), Some(ratio(6096, 10000)));
    let size = Size {
        unit: SizeUnit::Centimeters,
        major: ratio(250, 1),
        minor: ratio(5, 1),
    };
    assert_eq!(size.to_meters(), Some(ratio(5, 2)));
    let size = Size {
        unit: SizeUnit::Meters,
        major: ratio(7, 3),
        minor: ratio(5, 1),
    };
    assert_eq!(size.to_meters(), Some(ratio(7, 3)));
    let size = Size::from_meters(ratio(8, 1));
    assert_eq!(size.unit, SizeUnit::Meters);
    assert_eq!(size.major, ratio(8, 1));
    assert_eq!(size.minor, Rational::zero());
    assert_eq!(size.to_meters(), Some(ratio(8, 1)));
    let size = Size::default();
    assert_eq!(size.unit, SizeUnit::Meters);
    assert_eq!(size.to_meters(), Some(Rational::zero()));
}

#[test]
fn sizes_beyond_the_limit_do_not_convert() {
    let size = Size {
        unit: SizeUnit::Centimeters,
        major: ratio(1, u64::MAX),
        minor: Rational::zero(),
    };
    assert_eq!(size.to_meters(), None);
    let size = Size {
        unit: SizeUnit::FeetInches,
        major: ratio(u64::MAX, 1),
        minor: ratio(12, 1),
    };
    assert_eq!(size.to_meters(), None);
    let size = Size {
        unit: SizeUnit::Meters,
        major: ratio(1, u64::MAX),
        minor: Rational::zero(),
    };
    assert_eq!(size.to_meters(), Some(ratio(1, u64::MAX)));
}

#[test]
fn lengths_with_subunits_convert_to_meters() {
    assert_eq!(
        to_meters(ratio(1, 1), ratio(1, 2), LengthUnit::FeetInches),
        Some(ratio(7 * 3048, 10000))
    );
    assert_eq!(
        to_meters(ratio(1, 1), ratio(1, 2), LengthUnit::Inches),
        Some(ratio(6 * 3048, 10000))
    );
    assert_eq!(
        to_meters(ratio(5, 2), ratio(1, 2), LengthUnit::Meters),
        Some(ratio(5, 2))
    );
    assert_eq!(
        to_meters(ratio(5, 2), ratio(1, 2), LengthUnit::Centimeters),
        Some(ratio(1, 40))
    );
    assert_eq!(
        to_meters(ratio(u64::MAX, 1), ratio(1, 1), LengthUnit::FeetInches),
        None
    );
}
