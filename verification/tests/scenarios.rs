use chop_chop::modeling::{
    CutList, Dimension, Material, Part, Problem, Solution, SubProblem, SubSolution, Supply,
};
use chop_chop::rational::Rational;
use chop_chop::solvers::grouping::group;
use chop_chop::solvers::naive_solver::NaiveSolver;
use chop_chop::solvers::{Reporter, SolveError, Solver, SubProblemError};
use chop_chop::utils::{compute_supply_consumption, compute_total_price};

fn ratio(numer: u64, denom: u64) -> Rational {
    Rational::new(numer, denom).unwrap()
}

fn whole(value: u64) -> Rational {
    Rational::from_integer(value)
}

fn material(name: &str) -> Material {
    Material {
        name: String::from(name),
        dimension: Dimension::OneD,
    }
}

fn supply(length: Rational, price: Rational, max_quantity: i64) -> Supply {
    Supply {
        name: String::new(),
        length,
        price,
        max_quantity,
    }
}

fn part(length: Rational, quantity: i64) -> Part {
    Part {
        name: String::new(),
        length,
        quantity,
    }
}

fn single(name: &str, supplies: Vec<Supply>, parts: Vec<Part>, blade_width: Rational) -> Problem {
    let mut problem = Problem::new();
    problem.insert(
        material(name),
        SubProblem {
            supplies,
            parts,
            blade_width,
        },
    );
    problem
}

fn cut_list(supply_index: usize, part_indices: Vec<usize>, quantity: usize) -> CutList {
    CutList {
        supply_index,
        part_indices,
        quantity,
    }
}

fn only(solution: &Solution) -> &SubSolution {
    assert_eq!(solution.len(), 1);
    &solution.entries()[0].1
}

fn units_cut(sub_solution: &SubSolution, part: usize) -> usize {
    let mut units = 0;
    for cut_list in sub_solution.cut_lists.iter() {
        let occurrences = cut_list.part_indices.iter().filter(|p| **p == part).count();
        units += occurrences * cut_list.quantity;
    }
    units
}

fn pattern_length(sub_solution: &SubSolution, blade_width: &Rational, cut_list: &CutList) -> Rational {
    let mut total = Rational::zero();
    for (k, p) in cut_list.part_indices.iter().enumerate() {
        if k > 0 {
            total = total.checked_add(blade_width).unwrap();
        }
        total = total.checked_add(&sub_solution.parts[*p].length).unwrap();
    }
    total
}

#[test]
fn on_hand_stock_is_used_before_purchased_stock() {
    let problem = single(
        "Pine 2x4",
        vec![
            supply(whole(8), whole(0), 1),
            supply(whole(8), ratio(7, 2), -1),
        ],
        vec![part(whole(3), 3), part(ratio(3, 2), 1)],
        whole(0),
    );
    let solution = NaiveSolver {}.solve(problem, &mut Reporter::new(None)).unwrap();
    assert_eq!(compute_total_price(&solution), Some(ratio(7, 2)));
    let consumption = compute_supply_consumption(&solution);
    assert_eq!(consumption.len(), 1);
    assert_eq!(consumption.entries()[0].0, material("Pine 2x4"));
    assert_eq!(consumption.entries()[0].1, vec![1, 1]);
    assert_eq!(
        only(&solution).cut_lists,
        vec![cut_list(0, vec![0, 0, 1], 1), cut_list(1, vec![0], 1)]
    );
}

#[test]
fn part_longer_than_every_supply_is_infeasible() {
    let problem = single(
        "Oak",
        vec![supply(whole(8), whole(0), -1), supply(whole(10), whole(2), -1)],
        vec![part(whole(11), 1)],
        whole(0),
    );
    let result = NaiveSolver {}.solve(problem, &mut Reporter::new(None));
    let error = result.unwrap_err();
    assert_eq!(
        error,
        SolveError::Material {
            name: String::from("Oak"),
            reason: SubProblemError::InsufficientSize,
        }
    );
    assert_eq!(
        error.message(),
        "Error for material \"Oak\": No materials available with sufficient size"
    );
}

#[test]
fn zero_quantity_part_gives_an_empty_plan() {
    let problem = single(
        "Oak",
        vec![supply(whole(8), whole(1), 0), supply(whole(8), whole(1), -1)],
        vec![part(whole(3), 0)],
        whole(0),
    );
    let solution = NaiveSolver {}.solve(problem, &mut Reporter::new(None)).unwrap();
    assert!(only(&solution).cut_lists.is_empty());
    assert_eq!(compute_total_price(&solution), Some(Rational::zero()));
    assert_eq!(compute_supply_consumption(&solution).entries()[0].1, vec![0, 0]);
}

#[test]
fn zero_quantity_part_too_long_for_any_supply_is_no_error() {
    let problem = single(
        "Oak",
        vec![supply(whole(8), whole(1), 0)],
        vec![part(whole(30), 0), part(whole(30), -4)],
        whole(0),
    );
    let solution = NaiveSolver {}.solve(problem, &mut Reporter::new(None)).unwrap();
    assert!(only(&solution).cut_lists.is_empty());
}

#[test]
fn two_parts_that_fill_one_piece_with_the_blade_between() {
    let problem = single(
        "Oak",
        vec![supply(whole(10), whole(4), -1)],
        vec![part(ratio(9, 2), 1), part(ratio(9, 2), 1)],
        whole(1),
    );
    let solution = NaiveSolver {}.solve(problem, &mut Reporter::new(None)).unwrap();
    assert_eq!(only(&solution).cut_lists, vec![cut_list(0, vec![0, 1], 1)]);
    assert_eq!(only(&solution).cut_lists[0].quantity, 1);
    assert_eq!(only(&solution).cut_lists[0].part_indices.len(), 2);
}

#[test]
fn blade_width_that_does_not_fit_opens_a_new_piece() {
    let problem = single(
        "Oak",
        vec![supply(whole(10), whole(4), -1)],
        vec![part(ratio(9, 2), 2)],
        ratio(11, 10),
    );
    let solution = NaiveSolver {}.solve(problem, &mut Reporter::new(None)).unwrap();
    assert_eq!(only(&solution).cut_lists, vec![cut_list(0, vec![0], 2)]);
    assert_eq!(compute_total_price(&solution), Some(whole(8)));
}

#[test]
fn last_part_may_end_flush_with_the_piece() {
    // The blade after the last part may run past the end of the piece.
    let problem = single(
        "Oak",
        vec![supply(whole(10), whole(4), 1)],
        vec![part(whole(10), 1)],
        whole(3),
    );
    let solution = NaiveSolver {}.solve(problem, &mut Reporter::new(None)).unwrap();
    assert_eq!(only(&solution).cut_lists, vec![cut_list(0, vec![0], 1)]);
}

#[test]
fn first_open_piece_with_room_is_reused() {
    // The second piece has the tighter fit, the first one is taken.
    let problem = single(
        "Oak",
        vec![supply(whole(10), whole(1), -1)],
        vec![part(whole(6), 1), part(whole(8), 1), part(whole(2), 1)],
        whole(0),
    );
    let solution = NaiveSolver {}.solve(problem, &mut Reporter::new(None)).unwrap();
    assert_eq!(
        only(&solution).cut_lists,
        vec![cut_list(0, vec![0, 2], 1), cut_list(0, vec![1], 1)]
    );
}

#[test]
fn cheapest_eligible_supply_is_opened_and_ties_go_to_the_first() {
    let problem = single(
        "Oak",
        vec![
            supply(whole(4), whole(1), -1),
            supply(whole(10), whole(5), -1),
            supply(whole(10), whole(3), -1),
            supply(whole(12), whole(3), -1),
        ],
        vec![part(whole(6), 1)],
        whole(0),
    );
    let solution = NaiveSolver {}.solve(problem, &mut Reporter::new(None)).unwrap();
    assert_eq!(only(&solution).cut_lists, vec![cut_list(2, vec![0], 1)]);
}

#[test]
fn exhausted_supply_is_passed_over() {
    let problem = single(
        "Oak",
        vec![supply(whole(10), whole(1), 2), supply(whole(10), whole(9), -1)],
        vec![part(whole(10), 5)],
        whole(0),
    );
    let solution = NaiveSolver {}.solve(problem, &mut Reporter::new(None)).unwrap();
    assert_eq!(
        only(&solution).cut_lists,
        vec![cut_list(0, vec![0], 2), cut_list(1, vec![0], 3)]
    );
    assert_eq!(compute_supply_consumption(&solution).entries()[0].1, vec![2, 3]);
    assert_eq!(compute_total_price(&solution), Some(whole(29)));
}

#[test]
fn limit_of_zero_or_below_minus_one_allows_no_piece() {
    let problem = single(
        "Oak",
        vec![supply(whole(10), whole(1), 0), supply(whole(10), whole(1), -2)],
        vec![part(whole(1), 1)],
        whole(0),
    );
    let error = NaiveSolver {}.solve(problem, &mut Reporter::new(None)).unwrap_err();
    assert_eq!(
        error,
        SolveError::Material {
            name: String::from("Oak"),
            reason: SubProblemError::InsufficientSize,
        }
    );
}

#[test]
fn greedy_order_may_fail_although_a_plan_exists() {
    // Two pieces of 3 + 7 would do; first fit puts both 3s on the first piece.
    let problem = single(
        "Oak",
        vec![supply(whole(10), whole(1), 2)],
        vec![part(whole(3), 2), part(whole(7), 2)],
        whole(0),
    );
    let error = NaiveSolver {}.solve(problem, &mut Reporter::new(None)).unwrap_err();
    assert_eq!(
        error,
        SolveError::Material {
            name: String::from("Oak"),
            reason: SubProblemError::InsufficientSize,
        }
    );
}

#[test]
fn length_that_cannot_be_held_is_reported() {
    let problem = single(
        "Oak",
        vec![supply(whole(u64::MAX), whole(1), -1)],
        vec![part(ratio(1, 2), 1)],
        whole(0),
    );
    let error = NaiveSolver {}.solve(problem, &mut Reporter::new(None)).unwrap_err();
    assert_eq!(
        error,
        SolveError::Material {
            name: String::from("Oak"),
            reason: SubProblemError::Unrepresentable,
        }
    );
    assert_eq!(
        error.message(),
        "Error for material \"Oak\": A length is too fine or too large to compute with"
    );
}

#[test]
fn first_failing_material_is_named() {
    let mut problem = Problem::new();
    problem.insert(
        material("Pine"),
        SubProblem {
            supplies: vec![supply(whole(8), whole(1), -1)],
            parts: vec![part(whole(3), 2)],
            blade_width: whole(0),
        },
    );
    problem.insert(
        material("Oak"),
        SubProblem {
            supplies: vec![supply(whole(8), whole(1), -1)],
            parts: vec![part(whole(9), 1)],
            blade_width: whole(0),
        },
    );
    problem.insert(
        material("Ash"),
        SubProblem {
            supplies: vec![],
            parts: vec![part(whole(9), 1)],
            blade_width: whole(0),
        },
    );
    let error = NaiveSolver {}.solve(problem, &mut Reporter::new(None)).unwrap_err();
    assert_eq!(
        error,
        SolveError::Material {
            name: String::from("Oak"),
            reason: SubProblemError::InsufficientSize,
        }
    );
}

#[test]
fn materials_are_solved_apart_and_kept_in_order() {
    let mut problem = Problem::new();
    problem.insert(
        material("Pine"),
        SubProblem {
            supplies: vec![supply(whole(8), whole(2), -1)],
            parts: vec![part(whole(3), 2)],
            blade_width: whole(0),
        },
    );
    problem.insert(
        material("Oak"),
        SubProblem {
            supplies: vec![supply(whole(5), ratio(1, 2), -1)],
            parts: vec![part(whole(3), 2)],
            blade_width: whole(0),
        },
    );
    let solution = NaiveSolver {}.solve(problem, &mut Reporter::new(None)).unwrap();
    assert_eq!(solution.len(), 2);
    assert_eq!(solution.entries()[0].0, material("Pine"));
    assert_eq!(solution.entries()[1].0, material("Oak"));
    assert_eq!(solution.entries()[0].1.cut_lists, vec![cut_list(0, vec![0, 0], 1)]);
    assert_eq!(solution.entries()[1].1.cut_lists, vec![cut_list(0, vec![0], 2)]);
    assert_eq!(compute_total_price(&solution), Some(whole(3)));
    assert_eq!(solution.get(&material("Oak")).unwrap().supplies.len(), 1);
    assert!(solution.get(&material("Ash")).is_none());
}

#[test]
fn demand_capacity_and_limits_hold_of_a_larger_plan() {
    let supplies = vec![
        supply(whole(8), whole(0), 3),
        supply(whole(12), whole(5), -1),
        supply(whole(20), whole(7), 2),
    ];
    let parts = vec![
        part(ratio(7, 2), 5),
        part(ratio(11, 4), 7),
        part(whole(9), 2),
        part(ratio(1, 3), 11),
    ];
    let blade_width = ratio(1, 8);
    let problem = single("Oak", supplies, parts, blade_width);
    let solution = NaiveSolver {}.solve(problem, &mut Reporter::new(None)).unwrap();
    let sub_solution = only(&solution);
    for (p, wanted) in [5usize, 7, 2, 11].iter().enumerate() {
        assert_eq!(units_cut(sub_solution, p), *wanted);
    }
    for cut_list in sub_solution.cut_lists.iter() {
        let used = pattern_length(sub_solution, &blade_width, cut_list);
        assert!(used.le(&sub_solution.supplies[cut_list.supply_index].length));
    }
    let consumption = compute_supply_consumption(&solution);
    let counts = &consumption.entries()[0].1;
    assert!(counts[0] <= 3);
    assert!(counts[2] <= 2);
    assert_eq!(
        counts.iter().sum::<usize>(),
        sub_solution.cut_lists.iter().map(|c| c.quantity).sum::<usize>()
    );
}

#[test]
fn same_problem_gives_the_same_solution() {
    let build = || {
        single(
            "Oak",
            vec![supply(whole(8), whole(0), 2), supply(whole(12), whole(5), -1)],
            vec![part(ratio(7, 2), 5), part(ratio(11, 4), 7), part(whole(9), 2)],
            ratio(1, 8),
        )
    };
    let first = NaiveSolver {}.solve(build(), &mut Reporter::new(None)).unwrap();
    let second = NaiveSolver {}.solve(build(), &mut Reporter::new(None)).unwrap();
    assert_eq!(only(&first).cut_lists, only(&second).cut_lists);
    assert_eq!(compute_total_price(&first), compute_total_price(&second));
}

#[test]
fn equal_patterns_are_merged_in_order_of_first_occurrence() {
    let cut_lists = vec![
        cut_list(0, vec![0, 0], 1),
        cut_list(1, vec![0, 0], 1),
        cut_list(0, vec![0, 0], 1),
        cut_list(0, vec![0, 1], 2),
        cut_list(1, vec![0, 0], 3),
        cut_list(0, vec![1, 0], 1),
        cut_list(0, vec![0, 0], 0),
    ];
    let groups = group(&cut_lists);
    assert_eq!(
        groups,
        vec![
            cut_list(0, vec![0, 0], 2),
            cut_list(1, vec![0, 0], 4),
            cut_list(0, vec![0, 1], 2),
            cut_list(0, vec![1, 0], 1),
        ]
    );
}

#[test]
fn grouping_twice_changes_nothing() {
    let cut_lists = vec![
        cut_list(2, vec![1], 1),
        cut_list(0, vec![0, 0], 1),
        cut_list(2, vec![1], 1),
        cut_list(0, vec![0, 0], 1),
        cut_list(0, vec![0], 1),
    ];
    let once = group(&cut_lists);
    let twice = group(&once);
    assert_eq!(once, twice);
    assert_eq!(once.len(), 3);
    assert!(group(&Vec::new()).is_empty());
}

#[test]
fn solver_groups_the_pieces_of_one_pattern() {
    let problem = single(
        "Oak",
        vec![supply(whole(10), ratio(7, 2), -1)],
        vec![part(whole(5), 4)],
        whole(0),
    );
    let solver = NaiveSolver {};
    let solution = solver.solve(problem, &mut Reporter::new(None)).unwrap();
    assert_eq!(only(&solution).cut_lists, vec![cut_list(0, vec![0, 0], 2)]);
    assert_eq!(compute_total_price(&solution), Some(whole(7)));
    let again = solver.group_cut_lists(only(&solution).clone());
    assert_eq!(again.cut_lists, only(&solution).cut_lists);
}

#[test]
fn sub_problem_is_solved_without_grouping() {
    let sub_problem = SubProblem {
        supplies: vec![supply(whole(10), ratio(7, 2), -1)],
        parts: vec![part(whole(5), 4)],
        blade_width: whole(0),
    };
    let sub_solution = NaiveSolver {}.solve_sub_problem(sub_problem, &mut Reporter::new(None)).unwrap();
    assert_eq!(
        sub_solution.cut_lists,
        vec![cut_list(0, vec![0, 0], 1), cut_list(0, vec![0, 0], 1)]
    );
    assert_eq!(sub_solution.supplies.len(), 1);
    assert_eq!(sub_solution.parts.len(), 1);
    assert_eq!(sub_solution.parts[0].quantity, 4);
}

#[test]
fn total_price_that_cannot_be_held_is_refused() {
    let mut solution = Solution::new();
    solution.insert(
        material("Oak"),
        SubSolution {
            cut_lists: vec![cut_list(0, vec![0], 3)],
            supplies: vec![supply(whole(10), whole(u64::MAX / 2), -1)],
            parts: vec![part(whole(5), 3)],
        },
    );
    assert_eq!(compute_total_price(&solution), None);
    let mut smaller = Solution::new();
    smaller.insert(
        material("Oak"),
        SubSolution {
            cut_lists: vec![cut_list(0, vec![0], 2)],
            supplies: vec![supply(whole(10), whole(u64::MAX / 2), -1)],
            parts: vec![part(whole(5), 2)],
        },
    );
    assert_eq!(compute_total_price(&smaller), Some(whole(u64::MAX - 1)));
}

#[test]
fn pieces_are_counted_by_pattern_and_by_supply() {
    let cut_lists = vec![
        cut_list(0, vec![0], usize::MAX),
        cut_list(1, vec![0], usize::MAX),
        cut_list(0, vec![0], 0),
        cut_list(1, vec![0, 0], 0),
    ];
    let groups = group(&cut_lists);
    assert_eq!(
        groups,
        vec![
            cut_list(0, vec![0], usize::MAX),
            cut_list(1, vec![0], usize::MAX),
            cut_list(1, vec![0, 0], 0),
        ]
    );
    let mut solution = Solution::new();
    solution.insert(
        material("Oak"),
        SubSolution {
            cut_lists: groups,
            supplies: vec![supply(whole(10), whole(0), -1), supply(whole(10), whole(0), -1)],
            parts: vec![part(whole(5), 1)],
        },
    );
    assert_eq!(
        compute_supply_consumption(&solution).entries()[0].1,
        vec![usize::MAX, usize::MAX]
    );
    assert_eq!(compute_total_price(&solution), Some(Rational::zero()));
}

#[test]
fn total_price_reads_no_part() {
    let mut solution = Solution::new();
    solution.insert(
        material("Oak"),
        SubSolution {
            cut_lists: vec![cut_list(0, vec![7, 9], 2)],
            supplies: vec![supply(whole(10), ratio(3, 2), -1)],
            parts: vec![],
        },
    );
    assert_eq!(compute_total_price(&solution), Some(whole(3)));
}
