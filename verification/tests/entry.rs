use chop_chop::entry::{
    add_word, format_quantity, generate_problem, parse_positive_fraction, parse_price,
    parse_quantity, price_from, quantity_from, read_part, read_supply, split_words, EntryData,
};
use chop_chop::modeling::{
    CutList, Dimension, Material, Part, Solution, SubSolution, Supply,
};
use chop_chop::rational::{Rational, Sign};
use chop_chop::size::{tidy_decimal, FractionFormat, Size, SizeUnit};
use chop_chop::solvers::SolveError;
use chop_chop::utils::{flatten_results, unflatten_results};

fn ratio(numer: u64, denom: u64) -> Rational {
    Rational::new(numer, denom).unwrap()
}

fn material(name: &str) -> Material {
    Material {
        name: String::from(name),
        dimension: Dimension::OneD,
    }
}

fn supply(name: &str, length: u64) -> Supply {
    Supply {
        name: String::from(name),
        length: Rational::from_integer(length),
        price: ratio(1, 2),
        max_quantity: -1,
    }
}

fn part(name: &str, length: u64) -> Part {
    Part {
        name: String::from(name),
        length: Rational::from_integer(length),
        quantity: 1,
    }
}

#[test]
fn quantities_are_whole_and_not_negative() {
    assert_eq!(parse_quantity("12", false), Ok(12));
    assert_eq!(parse_quantity("  12 \t", false), Ok(12));
    assert_eq!(parse_quantity("0", false), Ok(0));
    assert_eq!(parse_quantity("+7", true), Ok(7));
    assert_eq!(parse_quantity("-1", true), Err(()));
    assert_eq!(parse_quantity("1.5", true), Err(()));
    assert_eq!(parse_quantity("1 2", true), Err(()));
    assert_eq!(parse_quantity("twelve", true), Err(()));
    assert_eq!(parse_quantity("9223372036854775807", true), Ok(i64::MAX));
    assert_eq!(parse_quantity("9223372036854775808", true), Err(()));
}

#[test]
fn empty_quantity_means_unlimited_where_allowed() {
    assert_eq!(parse_quantity("", true), Ok(-1));
    assert_eq!(parse_quantity("   ", true), Ok(-1));
    assert_eq!(parse_quantity("", false), Err(()));
    assert_eq!(parse_quantity(" \n ", false), Err(()));
}

#[test]
fn quantity_from_a_number_read() {
    assert_eq!(quantity_from(Some(3)), Ok(3));
    assert_eq!(quantity_from(Some(0)), Ok(0));
    assert_eq!(quantity_from(Some(-1)), Err(()));
    assert_eq!(quantity_from(None), Err(()));
}

#[test]
fn quantities_are_written_out() {
    assert_eq!(format_quantity(-1), "Unlimited");
    assert_eq!(format_quantity(0), "0");
    assert_eq!(format_quantity(42), "42");
    assert_eq!(format_quantity(-2), "-2");
}

#[test]
fn prices_are_decimal_numbers_not_below_zero() {
    assert_eq!(parse_price("3.50", false), Ok(ratio(7, 2)));
    assert_eq!(parse_price(" 12 ", false), Ok(ratio(12, 1)));
    assert_eq!(parse_price("1/4", false), Ok(ratio(1, 4)));
    assert_eq!(parse_price("0", false), Ok(Rational::zero()));
    assert_eq!(parse_price("-0", false), Ok(Rational::zero()));
    assert_eq!(parse_price("-3.5", false), Err(()));
    assert_eq!(parse_price("three", false), Err(()));
    assert_eq!(parse_price("NaN", false), Err(()));
    assert_eq!(parse_price("inf", false), Err(()));
    assert_eq!(parse_price("1/0", false), Err(()));
}

#[test]
fn empty_price_means_free_where_allowed() {
    assert_eq!(parse_price("", true), Ok(Rational::zero()));
    assert_eq!(parse_price("  ", true), Ok(Rational::zero()));
    assert_eq!(parse_price("", false), Err(()));
}

#[test]
fn price_from_a_number_read() {
    assert_eq!(price_from(Some(ratio(7, 2))), Ok(ratio(7, 2)));
    assert_eq!(price_from(Some(Rational::zero().neg())), Ok(Rational::zero()));
    assert_eq!(price_from(Some(ratio(7, 2).neg())), Err(()));
    assert_eq!(price_from(None), Err(()));
}

#[test]
fn texts_are_split_at_spaces() {
    assert_eq!(split_words("1 1/2"), vec!["1", "1/2"]);
    assert_eq!(split_words("  a   bc d "), vec!["a", "bc", "d"]);
    assert_eq!(split_words("a\tb"), vec!["a\tb"]);
    assert_eq!(split_words("é ü"), vec!["é", "ü"]);
    assert!(split_words("").is_empty());
    assert!(split_words("    ").is_empty());
}

#[test]
fn lengths_are_sums_of_at_most_two_fractions() {
    assert_eq!(parse_positive_fraction("1 1/2", false), Ok(ratio(3, 2)));
    assert_eq!(parse_positive_fraction("  3/4 ", false), Ok(ratio(3, 4)));
    assert_eq!(parse_positive_fraction("2.5", false), Ok(ratio(5, 2)));
    assert_eq!(parse_positive_fraction("1   1/2", false), Ok(ratio(3, 2)));
    assert_eq!(parse_positive_fraction("0", false), Ok(Rational::zero()));
    assert_eq!(parse_positive_fraction("1 1 1", false), Err(()));
    assert_eq!(parse_positive_fraction("-1", false), Err(()));
    assert_eq!(parse_positive_fraction("1 -1/2", false), Err(()));
    assert_eq!(parse_positive_fraction("-0", false), Err(()));
    assert_eq!(parse_positive_fraction("one", false), Err(()));
    assert_eq!(parse_positive_fraction("1/0", false), Err(()));
    assert_eq!(
        parse_positive_fraction("18446744073709551615 1", false),
        Err(())
    );
}

#[test]
fn empty_length_is_zero_where_allowed() {
    assert_eq!(parse_positive_fraction("", true), Ok(Rational::zero()));
    assert_eq!(parse_positive_fraction("   ", true), Ok(Rational::zero()));
    assert_eq!(parse_positive_fraction("", false), Err(()));
    assert_eq!(parse_positive_fraction("  ", false), Err(()));
}

#[test]
fn word_is_added_to_a_total() {
    assert_eq!(add_word(ratio(1, 1), Some(ratio(1, 2))), Ok(ratio(3, 2)));
    assert_eq!(add_word(ratio(1, 1), Some(ratio(1, 2).neg())), Err(()));
    assert_eq!(add_word(ratio(1, 1), Some(Rational::zero().neg())), Err(()));
    assert_eq!(add_word(ratio(1, 1), None), Err(()));
    assert_eq!(
        add_word(Rational::from_integer(u64::MAX), Some(ratio(1, 1))),
        Err(())
    );
}

#[test]
fn fractions_are_read_from_text() {
    assert_eq!(Rational::parse("3/6").unwrap().parts(), (Sign::Plus, 1, 2));
    assert_eq!(Rational::parse("-3/6").unwrap().parts(), (Sign::Minus, 1, 2));
    assert_eq!(Rational::parse("0.25").unwrap().parts(), (Sign::Plus, 1, 4));
    assert_eq!(Rational::parse("7").unwrap().parts(), (Sign::Plus, 7, 1));
    assert!(Rational::parse("1/0").is_none());
    assert!(Rational::parse("0/0").is_none());
    assert!(Rational::parse("").is_none());
    assert!(Rational::parse("1/2/3").is_none());
    assert_eq!(
        Rational::parse_decimal("2.50").unwrap().parts(),
        (Sign::Plus, 5, 2)
    );
    assert!(Rational::parse_decimal("inf").is_none());
    assert!(Rational::parse_decimal("NaN").is_none());
    assert!(Rational::parse_decimal("x").is_none());
}

#[test]
fn fractions_are_written_as_text() {
    assert_eq!(ratio(1, 2).to_text(), "1/2");
    assert_eq!(ratio(2, 4).to_text(), "1/2");
    assert_eq!(ratio(6, 3).to_text(), "2");
    assert_eq!(ratio(0, 3).to_text(), "0");
    assert_eq!(ratio(1, 2).neg().to_text(), "-1/2");
    assert_eq!(
        Rational::from_parts(Sign::Minus, 5, 1).unwrap().to_text(),
        "-5"
    );
    assert!(Rational::from_parts(Sign::Plus, 5, 0).is_none());
}

#[test]
fn mixed_format_splits_whole_and_rest() {
    assert_eq!(FractionFormat::format_mixed(ratio(0, 4)), "0");
    assert_eq!(FractionFormat::format_mixed(ratio(3, 4)), "3/4");
    assert_eq!(FractionFormat::format_mixed(ratio(8, 4)), "2");
    assert_eq!(FractionFormat::format_mixed(ratio(7, 4)), "1 3/4");
    assert_eq!(FractionFormat::format_mixed(ratio(10, 4)), "2 1/2");
    assert_eq!(FractionFormat::format_mixed(ratio(7, 4).neg()), "-1 -3/4");
    assert_eq!(FractionFormat::format_mixed(ratio(3, 4).neg()), "-3/4");
}

#[test]
fn exact_formats_give_text_and_the_decimal_format_none() {
    assert_eq!(
        FractionFormat::Mixed.format(ratio(7, 4)),
        Some(String::from("1 3/4"))
    );
    assert_eq!(
        FractionFormat::Fraction.format(ratio(14, 8)),
        Some(String::from("7/4"))
    );
    assert_eq!(FractionFormat::Decimal(2).format(ratio(7, 4)), None);
}

#[test]
fn sizes_are_written_with_their_units() {
    let size = Size {
        unit: SizeUnit::FeetInches,
        major: ratio(6, 1),
        minor: ratio(7, 2),
    };
    assert_eq!(
        size.format(&FractionFormat::Mixed),
        Some(String::from("6 ft, 3 1/2 in"))
    );
    assert_eq!(
        size.format(&FractionFormat::Fraction),
        Some(String::from("6 ft, 7/2 in"))
    );
    assert_eq!(size.format(&FractionFormat::Decimal(1)), None);
    let size = Size {
        unit: SizeUnit::Centimeters,
        major: ratio(5, 2),
        minor: ratio(7, 2),
    };
    assert_eq!(
        size.format(&FractionFormat::Mixed),
        Some(String::from("2 1/2 cm"))
    );
    let size = Size::from_meters(ratio(3, 1));
    assert_eq!(
        size.format(&FractionFormat::Fraction),
        Some(String::from("3 m"))
    );
}

#[test]
fn decimal_text_loses_its_trailing_zeros() {
    assert_eq!(tidy_decimal("1.500"), "1.5");
    assert_eq!(tidy_decimal("2.000"), "2");
    assert_eq!(tidy_decimal("100.0"), "100");
    assert_eq!(tidy_decimal("0.050"), "0.05");
    assert_eq!(tidy_decimal("0.000"), "0");
    assert_eq!(tidy_decimal("1.25"), "1.25");
    assert_eq!(tidy_decimal("100"), "100");
    assert_eq!(tidy_decimal("-3.10"), "-3.1");
    assert_eq!(tidy_decimal(""), "");
}

#[test]
fn problem_has_one_sub_problem_per_material() {
    let supplies = vec![
        (material("Pine"), supply("a", 8)),
        (material("Oak"), supply("b", 10)),
        (material("Pine"), supply("c", 12)),
    ];
    let parts = vec![
        (material("Oak"), part("x", 1)),
        (material("Ash"), part("y", 2)),
        (material("Pine"), part("z", 3)),
        (material("Oak"), part("w", 4)),
    ];
    let problem = generate_problem(supplies, parts, ratio(1, 8));
    let entries = problem.entries();
    let names: Vec<&str> = entries.iter().map(|e| e.0.name.as_str()).collect();
    assert_eq!(names, vec!["Pine", "Oak", "Ash"]);
    let of = |i: usize| -> (Vec<&str>, Vec<&str>) {
        (
            entries[i].1.supplies.iter().map(|s| s.name.as_str()).collect(),
            entries[i].1.parts.iter().map(|p| p.name.as_str()).collect(),
        )
    };
    assert_eq!(of(0), (vec!["a", "c"], vec!["z"]));
    assert_eq!(of(1), (vec!["b"], vec!["x", "w"]));
    assert_eq!(of(2), (vec![], vec!["y"]));
    for entry in entries.iter() {
        assert_eq!(entry.1.blade_width, ratio(1, 8));
    }
    assert_eq!(entries[0].1.supplies[1].length, Rational::from_integer(12));
    assert_eq!(entries[1].1.parts[1].length, Rational::from_integer(4));
}

#[test]
fn problem_of_nothing_is_empty() {
    let problem = generate_problem(Vec::new(), Vec::new(), Rational::zero());
    assert!(problem.is_empty());
}

#[test]
fn materials_of_both_dimensions_are_kept_apart() {
    let flat = Material {
        name: String::from("Pine"),
        dimension: Dimension::TwoD,
    };
    let supplies = vec![(material("Pine"), supply("a", 8)), (flat, supply("b", 8))];
    let problem = generate_problem(supplies, Vec::new(), Rational::zero());
    assert_eq!(problem.len(), 2);
}

#[test]
fn results_are_taken_apart_and_put_together() {
    let sub_solution = |quantity: usize| SubSolution {
        cut_lists: vec![CutList {
            supply_index: 0,
            part_indices: vec![0],
            quantity,
        }],
        supplies: vec![supply("a", 8)],
        parts: vec![part("x", 1)],
    };
    let mut solution = Solution::new();
    solution.insert(material("Pine"), sub_solution(1));
    solution.insert(material("Oak"), sub_solution(2));
    let flat = flatten_results(Some(Ok(solution))).unwrap().unwrap();
    assert_eq!(flat.len(), 2);
    assert_eq!(flat[0].0, material("Pine"));
    assert_eq!(flat[1].0, material("Oak"));
    let back = unflatten_results(Some(Ok(flat))).unwrap().unwrap();
    assert_eq!(back.len(), 2);
    assert_eq!(back.entries()[0].0, material("Pine"));
    assert_eq!(back.entries()[1].1.cut_lists[0].quantity, 2);

    let doubled = vec![
        (material("Pine"), sub_solution(1)),
        (material("Oak"), sub_solution(2)),
        (material("Pine"), sub_solution(3)),
    ];
    let merged = unflatten_results(Some(Ok(doubled))).unwrap().unwrap();
    assert_eq!(merged.len(), 2);
    assert_eq!(merged.entries()[0].0, material("Pine"));
    assert_eq!(merged.entries()[0].1.cut_lists[0].quantity, 3);

    assert!(flatten_results(None).is_none());
    assert!(unflatten_results(None).is_none());
    assert_eq!(
        flatten_results(Some(Err(SolveError::ChannelClosed))).unwrap().unwrap_err(),
        SolveError::ChannelClosed
    );
    assert_eq!(
        unflatten_results(Some(Err(SolveError::ChannelClosed))).unwrap().unwrap_err(),
        SolveError::ChannelClosed
    );
}

#[test]
fn size_is_read_from_a_choice_and_two_texts() {
    let size = Size::from(0, "6", "3 1/2").unwrap();
    assert_eq!(size.unit, SizeUnit::FeetInches);
    assert_eq!(size.major, ratio(6, 1));
    assert_eq!(size.minor, ratio(7, 2));
    let size = Size::from(3, " 2.5 ", "").unwrap();
    assert_eq!(size.unit, SizeUnit::Centimeters);
    assert_eq!(size.major, ratio(5, 2));
    assert_eq!(size.minor, Rational::zero());
    let size = Size::from(2, "", "").unwrap();
    assert_eq!(size.unit, SizeUnit::Meters);
    assert_eq!(size.major, Rational::zero());
    assert!(Size::from(1, "-1", "").is_err());
    assert!(Size::from(1, "1", "x").is_err());
    assert!(Size::from(1, "1 2 3", "").is_err());
}

fn row(material: &str, name: &str, unit: u32, major: &str, minor: &str) -> EntryData {
    EntryData {
        dimension: 0,
        name: String::from(name),
        material: String::from(material),
        price: String::from("3.50"),
        quantity: String::from(" 4 "),
        length_unit: unit,
        major_length: String::from(major),
        minor_length: String::from(minor),
        width_unit: 0,
        major_width: String::new(),
        minor_width: String::new(),
    }
}

#[test]
fn supply_is_read_from_a_row() {
    let (material, supply) = read_supply(&row("Pine", "8 ft", 0, "8", "6")).unwrap();
    assert_eq!(material.name, "Pine");
    assert_eq!(material.dimension, Dimension::OneD);
    assert_eq!(supply.name, "8 ft");
    assert_eq!(supply.length, ratio(25908, 10000));
    assert_eq!(supply.price, ratio(7, 2));
    assert_eq!(supply.max_quantity, 4);

    let mut free = row("Pine", "", 2, "2 1/2", "");
    free.price = String::new();
    free.quantity = String::new();
    free.dimension = 1;
    let (material, supply) = read_supply(&free).unwrap();
    assert_eq!(material.dimension, Dimension::TwoD);
    assert_eq!(supply.length, ratio(5, 2));
    assert_eq!(supply.price, Rational::zero());
    assert_eq!(supply.max_quantity, -1);
}

#[test]
fn part_is_read_from_a_row() {
    let (material, part) = read_part(&row("Oak", "leg", 3, "75", "")).unwrap();
    assert_eq!(material.name, "Oak");
    assert_eq!(part.name, "leg");
    assert_eq!(part.length, ratio(3, 4));
    assert_eq!(part.quantity, 4);
    let (_, part) = read_part(&row("Oak", "leg", 1, "18", "5")).unwrap();
    assert_eq!(part.length, ratio(4572, 10000));
}

#[test]
fn row_that_cannot_be_read_gives_no_supply_and_no_part() {
    assert!(read_supply(&row("Pine", "a", 2, "-1", "")).is_err());
    assert!(read_supply(&row("Pine", "a", 2, "1", "x")).is_err());
    assert!(read_part(&row("Pine", "a", 2, "1 2 3", "")).is_err());
    let mut bad = row("Pine", "a", 2, "1", "");
    bad.price = String::from("-1");
    assert!(read_supply(&bad).is_err());
    assert!(read_part(&bad).is_ok());
    bad.price = String::from("1");
    bad.quantity = String::from("many");
    assert!(read_supply(&bad).is_err());
    assert!(read_part(&bad).is_err());
    assert!(read_part(&row("Pine", "a", 3, "1/18446744073709551615", "")).is_err());
}

#[test]
fn whole_numbers_are_read_with_at_most_one_sign() {
    assert_eq!(parse_quantity("007", false), Ok(7));
    assert_eq!(parse_quantity("+0", false), Ok(0));
    assert_eq!(parse_quantity("-0", false), Ok(0));
    assert_eq!(parse_quantity("+", false), Err(()));
    assert_eq!(parse_quantity("-", false), Err(()));
    assert_eq!(parse_quantity("+-1", false), Err(()));
    assert_eq!(parse_quantity("1_000", false), Err(()));
    assert_eq!(parse_quantity("٣", false), Err(()));
    assert_eq!(parse_quantity("-9223372036854775809", false), Err(()));
}

#[test]
fn lengths_and_prices_read_are_not_below_zero() {
    let zero = Rational::zero();
    for text in ["0", "1 1/2", "3/4", "", "2.5 1/8"] {
        assert!(zero.le(&parse_positive_fraction(text, true).unwrap()));
    }
    for text in ["0", "3.50", "1/4", "", "-0"] {
        assert!(zero.le(&parse_price(text, true).unwrap()));
    }
}
