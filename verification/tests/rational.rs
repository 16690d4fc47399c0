use chop_chop::rational::{Rational, Sign};

fn ratio(numer: u64, denom: u64) -> Rational {
    Rational::new(numer, denom).unwrap()
}

#[test]
fn new_rejects_zero_denominator() {
    assert!(Rational::new(1, 0).is_none());
    assert!(Rational::new(0, 0).is_none());
    assert!(Rational::new(0, 1).is_some());
}

#[test]
fn equality_is_by_value() {
    assert_eq!(ratio(2, 4), ratio(1, 2));
    assert_eq!(ratio(0, 5), Rational::zero());
    assert_eq!(Rational::zero().neg(), Rational::zero());
    assert_ne!(ratio(1, 2), ratio(1, 3));
    assert_ne!(ratio(1, 2), ratio(1, 2).neg());
    assert_eq!(Rational::from_integer(7), ratio(14, 2));
}

#[test]
fn parts_are_as_given() {
    assert_eq!(ratio(2, 4).parts(), (Sign::Plus, 2, 4));
    assert_eq!(ratio(2, 4).neg().parts(), (Sign::Minus, 2, 4));
    assert_eq!(Rational::from_integer(9).parts(), (Sign::Plus, 9, 1));
}

#[test]
fn order_of_positive_and_negative_values() {
    assert!(ratio(1, 3).le(&ratio(1, 2)));
    assert!(!ratio(1, 2).le(&ratio(1, 3)));
    assert!(ratio(1, 2).le(&ratio(2, 4)));
    assert!(ratio(1, 2).neg().le(&ratio(1, 3).neg()));
    assert!(!ratio(1, 3).neg().le(&ratio(1, 2).neg()));
    assert!(ratio(5, 1).neg().le(&ratio(1, 100)));
    assert!(!ratio(1, 100).le(&ratio(5, 1).neg()));
    assert!(Rational::zero().le(&Rational::zero().neg()));
    assert!(Rational::zero().neg().le(&Rational::zero()));
    assert!(ratio(1, 3).lt(&ratio(1, 2)));
    assert!(!ratio(1, 2).lt(&ratio(2, 4)));
    assert!(ratio(1, 2).neg().lt(&Rational::zero()));
}

#[test]
fn order_of_values_near_the_limit() {
    let big = ratio(u64::MAX, u64::MAX - 1);
    let bigger = ratio(u64::MAX - 1, u64::MAX - 2);
    assert!(big.lt(&bigger));
    assert!(!bigger.le(&big));
}

#[test]
fn sum_of_fractions() {
    assert_eq!(ratio(1, 2).checked_add(&ratio(1, 3)), Some(ratio(5, 6)));
    assert_eq!(ratio(1, 2).checked_add(&ratio(1, 2)), Some(ratio(1, 1)));
    assert_eq!(
        ratio(1, 2).checked_add(&ratio(1, 3)).unwrap().parts(),
        (Sign::Plus, 5, 6)
    );
    assert_eq!(
        ratio(1, 4).checked_add(&ratio(1, 4)).unwrap().parts(),
        (Sign::Plus, 1, 2)
    );
}

#[test]
fn sum_with_mixed_signs() {
    assert_eq!(
        ratio(1, 2).checked_add(&ratio(1, 3).neg()),
        Some(ratio(1, 6))
    );
    assert_eq!(
        ratio(1, 3).checked_add(&ratio(1, 2).neg()),
        Some(ratio(1, 6).neg())
    );
    assert_eq!(
        ratio(1, 2).neg().checked_add(&ratio(1, 3).neg()),
        Some(ratio(5, 6).neg())
    );
    assert_eq!(
        ratio(1, 2).neg().checked_add(&ratio(1, 2)),
        Some(Rational::zero())
    );
}

#[test]
fn difference_of_fractions() {
    assert_eq!(ratio(1, 2).checked_sub(&ratio(1, 3)), Some(ratio(1, 6)));
    assert_eq!(
        ratio(1, 3).checked_sub(&ratio(1, 2)),
        Some(ratio(1, 6).neg())
    );
    assert_eq!(
        ratio(1, 3).checked_sub(&ratio(1, 2).neg()),
        Some(ratio(5, 6))
    );
    assert_eq!(ratio(8, 1).checked_sub(&ratio(3, 1)), Some(ratio(5, 1)));
}

#[test]
fn product_of_fractions() {
    assert_eq!(ratio(2, 3).checked_mul(&ratio(3, 4)), Some(ratio(1, 2)));
    assert_eq!(
        ratio(2, 3).checked_mul(&ratio(3, 4)).unwrap().parts(),
        (Sign::Plus, 1, 2)
    );
    assert_eq!(
        ratio(2, 3).neg().checked_mul(&ratio(3, 4)),
        Some(ratio(1, 2).neg())
    );
    assert_eq!(
        ratio(2, 3).neg().checked_mul(&ratio(3, 4).neg()),
        Some(ratio(1, 2))
    );
    assert_eq!(
        ratio(7, 2).checked_mul(&Rational::from_integer(2)),
        Some(ratio(7, 1))
    );
    assert_eq!(
        ratio(7, 2).checked_mul(&Rational::zero()),
        Some(Rational::zero())
    );
}

#[test]
fn results_beyond_the_limit_are_refused() {
    let max = Rational::from_integer(u64::MAX);
    assert_eq!(max.checked_add(&Rational::from_integer(1)), None);
    assert_eq!(max.neg().checked_sub(&Rational::from_integer(1)), None);
    assert_eq!(max.checked_mul(&Rational::from_integer(2)), None);
    assert_eq!(ratio(1, u64::MAX).checked_mul(&ratio(1, 2)), None);
    assert_eq!(ratio(1, u64::MAX).checked_add(&ratio(1, u64::MAX - 1)), None);
}

#[test]
fn results_at_the_limit_are_kept() {
    let max = Rational::from_integer(u64::MAX);
    assert_eq!(
        Rational::from_integer(u64::MAX - 1).checked_add(&Rational::from_integer(1)),
        Some(max)
    );
    assert_eq!(max.checked_sub(&max), Some(Rational::zero()));
    // The value is representable although the common denominator of the
    // operands is not.
    let a = ratio(1, u64::MAX);
    let b = ratio(1, u64::MAX - 1);
    assert_eq!(a.checked_sub(&a), Some(Rational::zero()));
    assert_eq!(
        ratio(u64::MAX, 2).checked_mul(&ratio(2, u64::MAX)),
        Some(Rational::from_integer(1))
    );
    assert!(b.lt(&a) || a.lt(&b));
}
