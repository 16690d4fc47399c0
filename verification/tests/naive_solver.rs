use chop_chop::modeling::{Dimension, Material, Part, Problem, SubProblem, Supply};
use chop_chop::rational::Rational;
use chop_chop::solvers::naive_solver::NaiveSolver;
use chop_chop::solvers::{Reporter, Solver};
use chop_chop::utils::{compute_supply_consumption, compute_total_price};
use fraction::{Decimal, Fraction, Zero};

fn from_fraction(fraction: Fraction) -> Rational {
    let value = Rational::new(*fraction.numer().unwrap(), *fraction.denom().unwrap()).unwrap();
    if fraction.is_sign_negative() {
        value.neg()
    } else {
        value
    }
}

#[allow(deprecated)]
fn from_decimal(decimal: Decimal) -> Rational {
    from_fraction(decimal.apply_ref(|fraction, _| *fraction))
}

fn from_meters(meters: f64) -> Rational {
    from_fraction(Fraction::from(meters))
}

#[test]
fn test_naive_solver() {
    let material = Material {
        name: String::from("Pine 2x4"),
        dimension: Dimension::OneD,
    };
    let supplies = vec![
        Supply {
            name: String::new(),
            length: from_meters(8.0),
            price: from_decimal(Decimal::zero()),
            max_quantity: 1,
        },
        Supply {
            name: String::new(),
            length: from_meters(8.0),
            price: from_decimal(Decimal::from(3.5)),
            max_quantity: -1,
        },
    ];
    let parts = vec![
        Part {
            name: String::new(),
            length: from_meters(3.0),
            quantity: 3,
        },
        Part {
            name: String::new(),
            length: from_meters(1.5),
            quantity: 1,
        },
    ];
    let blade_width = from_meters(0.0);
    let mut problem = Problem::new();
    problem.insert(
        material.clone(),
        SubProblem {
            supplies,
            parts,
            blade_width,
        },
    );
    let solution = NaiveSolver {}
        .solve(problem, &mut Reporter::new(None))
        .unwrap();
    assert_eq!(
        compute_total_price(&solution),
        Some(from_decimal(Decimal::from(3.5)))
    );
    let consumption = compute_supply_consumption(&solution);
    assert_eq!(consumption.get(&material), Some(&vec![1, 1]));
}
