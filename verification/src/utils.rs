//! What a solution costs, and how many pieces of each supply it takes.

use crate::modeling::{
    collected, distinct_materials, lemma_collected_of_distinct,
    lemma_pieces_used_prefix, pieces_used, supplies_in_range, CutListView,
    Material, MaterialMap, Solution, SubSolution, Supply,
};
use crate::rational::{representable, Rational};
use crate::solvers::SolveError;
use vstd::prelude::*;

verus! {

/// Whether `counts` holds, for each supply of a sub-solution, the number of
/// pieces that its cut lists take of that supply.
pub open spec fn counts_pieces(sub_solution: SubSolution, counts: Seq<usize>) -> bool {
    &&& counts.len() == sub_solution.supplies@.len()
    &&& forall|s: usize|
        s < counts.len() ==> (#[trigger] counts[s as int]) == pieces_used(
            sub_solution.patterns(),
            s,
        )
}

/// The number of pieces that a sub-solution takes of each of its supplies.
fn count_pieces(sub_solution: &SubSolution) -> (counts: Vec<usize>)
    requires
        sub_solution.consistent(),
    ensures
        counts_pieces(*sub_solution, counts@),
{
    let ghost patterns = sub_solution.patterns();
    let mut counts: Vec<usize> = Vec::new();
    let mut s: usize = 0;
    while s < sub_solution.supplies.len()
        invariant
            s <= sub_solution.supplies@.len(),
            counts@.len() == s,
            forall|t: int| 0 <= t < s ==> (#[trigger] counts@[t]) == 0,
        decreases sub_solution.supplies@.len() - s,
    {
        counts.push(0);
        s += 1;
    }
    let mut j: usize = 0;
    assert(patterns.take(0) =~= Seq::<CutListView>::empty());
    while j < sub_solution.cut_lists.len()
        invariant
            j <= sub_solution.cut_lists@.len(),
            patterns == sub_solution.patterns(),
            sub_solution.consistent(),
            counts@.len() == sub_solution.supplies@.len(),
            forall|t: usize|
                t < counts@.len() ==> (#[trigger] counts@[t as int]) == pieces_used(
                    patterns.take(j as int),
                    t,
                ),
        decreases sub_solution.cut_lists@.len() - j,
    {
        let cut_list = &sub_solution.cut_lists[j];
        let ghost before = counts@;
        proof {
            assert(patterns[j as int] == cut_list@);
            assert(patterns.take(j + 1).drop_last() =~= patterns.take(j as int));
            lemma_pieces_used_prefix(patterns, j + 1, cut_list.supply_index);
            assert(pieces_used(patterns, cut_list.supply_index) <= usize::MAX);
        }
        counts[cut_list.supply_index] += cut_list.quantity;
        proof {
            assert forall|t: usize| t < counts@.len() implies (#[trigger] counts@[t as int])
                == pieces_used(patterns.take(j + 1), t) by {
                assert(before[t as int] == pieces_used(patterns.take(j as int), t));
            }
        }
        j += 1;
    }
    assert(patterns.take(sub_solution.cut_lists@.len() as int) =~= patterns);
    counts
}

/// For each material of a solution, in its order, the number of pieces that
/// the cut lists take of each supply.
pub fn compute_supply_consumption(solution: &Solution) -> (consumption: MaterialMap<Vec<usize>>)
    requires
        forall|i: int| 0 <= i < solution@.len() ==> (#[trigger] solution@[i]).1.consistent(),
    ensures
        consumption@.len() == solution@.len(),
        forall|i: int|
            0 <= i < solution@.len() ==> {
                &&& (#[trigger] consumption@[i]).0 == solution@[i].0
                &&& counts_pieces(solution@[i].1, consumption@[i].1@)
            },
{
    let entries = solution.entries();
    let mut consumption: MaterialMap<Vec<usize>> = MaterialMap::new();
    let mut i: usize = 0;
    while i < entries.len()
        invariant
            i <= entries@.len(),
            entries@ == solution@,
            distinct_materials(entries@),
            forall|k: int| 0 <= k < entries@.len() ==> (#[trigger] entries@[k]).1.consistent(),
            consumption@.len() == i,
            forall|k: int|
                0 <= k < i ==> {
                    &&& (#[trigger] consumption@[k]).0 == entries@[k].0
                    &&& counts_pieces(entries@[k].1, consumption@[k].1@)
                },
        decreases entries@.len() - i,
    {
        let material = entries[i].0.clone();
        let counts = count_pieces(&entries[i].1);
        let ghost before = consumption@;
        proof {
            assert forall|k: int| 0 <= k < before.len() implies (#[trigger] before[k]).0.key()
                != material.key() by {
                assert(entries@[k].0.key() != entries@[i as int].0.key());
            }
        }
        consumption.insert(material, counts);
        i += 1;
    }
    consumption
}

/// The cost of the pieces of some cut lists on top of `start`: each cut list
/// adds the price of its supply times its number of pieces. `None` where one
/// of these products, or the total after one of these additions, is not
/// representable.
pub open spec fn running_price(
    supplies: Seq<Supply>,
    cut_lists: Seq<CutListView>,
    start: Option<real>,
) -> Option<real>
    decreases cut_lists.len(),
{
    if cut_lists.len() == 0 {
        start
    } else {
        match running_price(supplies, cut_lists.drop_last(), start) {
            None => None,
            Some(total) => {
                let cost = supplies[cut_lists.last().supply_index as int].price@
                    * cut_lists.last().quantity as real;
                if representable(cost) && representable(total + cost) {
                    Some(total + cost)
                } else {
                    None
                }
            },
        }
    }
}

/// The price of all pieces of a solution, added up cut list after cut list
/// and material after material. `None` where a product or a running total
/// on the way is not representable.
pub open spec fn total_price(solution: Seq<(Material, SubSolution)>) -> Option<real>
    decreases solution.len(),
{
    if solution.len() == 0 {
        Some(0real)
    } else {
        running_price(
            solution.last().1.supplies@,
            solution.last().1.patterns(),
            total_price(solution.drop_last()),
        )
    }
}

/// The price of all pieces of some cut lists.
pub open spec fn pieces_price(supplies: Seq<Supply>, cut_lists: Seq<CutListView>) -> real
    decreases cut_lists.len(),
{
    if cut_lists.len() == 0 {
        0real
    } else {
        pieces_price(supplies, cut_lists.drop_last()) + supplies[cut_lists.last().supply_index as int].price@
            * cut_lists.last().quantity as real
    }
}

/// The price of all pieces of a solution.
pub open spec fn solution_price(solution: Seq<(Material, SubSolution)>) -> real
    decreases solution.len(),
{
    if solution.len() == 0 {
        0real
    } else {
        solution_price(solution.drop_last()) + pieces_price(
            solution.last().1.supplies@,
            solution.last().1.patterns(),
        )
    }
}

/// A running price that is representable all the way is the start plus the
/// price of the pieces.
pub proof fn lemma_running_price(supplies: Seq<Supply>, cut_lists: Seq<CutListView>, start: real)
    ensures
        running_price(supplies, cut_lists, Some(start)) matches Some(total) ==> total == start
            + pieces_price(supplies, cut_lists),
    decreases cut_lists.len(),
{
    if cut_lists.len() > 0 {
        lemma_running_price(supplies, cut_lists.drop_last(), start);
    }
}

/// A total price that is representable all the way is the price of all
/// pieces of the solution.
pub proof fn lemma_total_price(solution: Seq<(Material, SubSolution)>)
    ensures
        total_price(solution) matches Some(total) ==> total == solution_price(solution),
    decreases solution.len(),
{
    if solution.len() > 0 {
        lemma_total_price(solution.drop_last());
        match total_price(solution.drop_last()) {
            Some(start) => {
                lemma_running_price(
                    solution.last().1.supplies@,
                    solution.last().1.patterns(),
                    start,
                );
            },
            None => {
                lemma_running_price_none(solution.last().1.supplies@, solution.last().1.patterns());
            },
        }
    }
}

proof fn lemma_running_price_none(supplies: Seq<Supply>, cut_lists: Seq<CutListView>)
    ensures
        running_price(supplies, cut_lists, None) is None,
    decreases cut_lists.len(),
{
    if cut_lists.len() > 0 {
        lemma_running_price_none(supplies, cut_lists.drop_last());
    }
}

/// The price of the pieces of a sub-solution on top of `start`.
fn add_prices(sub_solution: &SubSolution, start: Rational) -> (r: Option<Rational>)
    requires
        supplies_in_range(sub_solution.patterns(), sub_solution.supplies@.len()),
    ensures
        match r {
            Some(total) => running_price(
                sub_solution.supplies@,
                sub_solution.patterns(),
                Some(start@),
            ) == Some(total@),
            None => running_price(sub_solution.supplies@, sub_solution.patterns(), Some(start@))
                is None,
        },
{
    let ghost patterns = sub_solution.patterns();
    let ghost supplies = sub_solution.supplies@;
    let mut total = start;
    let mut j: usize = 0;
    assert(patterns.take(0) =~= Seq::<CutListView>::empty());
    while j < sub_solution.cut_lists.len()
        invariant
            j <= sub_solution.cut_lists@.len(),
            patterns == sub_solution.patterns(),
            supplies == sub_solution.supplies@,
            supplies_in_range(patterns, supplies.len()),
            running_price(supplies, patterns.take(j as int), Some(start@)) == Some(total@),
        decreases sub_solution.cut_lists@.len() - j,
    {
        let cut_list = &sub_solution.cut_lists[j];
        proof {
            assert(patterns[j as int] == cut_list@);
            assert(patterns.take(j + 1).drop_last() =~= patterns.take(j as int));
            assert(patterns.take(j + 1).last() == patterns[j as int]);
            lemma_running_price_prefix(supplies, patterns, j + 1, Some(start@));
        }
        let pieces = Rational::from_integer(cut_list.quantity as u64);
        let cost = match sub_solution.supplies[cut_list.supply_index].price.checked_mul(&pieces) {
            Some(cost) => cost,
            None => {
                return None;
            },
        };
        total = match total.checked_add(&cost) {
            Some(sum) => sum,
            None => {
                return None;
            },
        };
        j += 1;
    }
    assert(patterns.take(sub_solution.cut_lists@.len() as int) =~= patterns);
    Some(total)
}

proof fn lemma_running_price_prefix(
    supplies: Seq<Supply>,
    cut_lists: Seq<CutListView>,
    n: int,
    start: Option<real>,
)
    requires
        0 <= n <= cut_lists.len(),
    ensures
        running_price(supplies, cut_lists.take(n), start) is None ==> running_price(
            supplies,
            cut_lists,
            start,
        ) is None,
    decreases cut_lists.len(),
{
    if n == cut_lists.len() {
        assert(cut_lists.take(n) =~= cut_lists);
    } else {
        assert(cut_lists.drop_last().take(n) =~= cut_lists.take(n));
        lemma_running_price_prefix(supplies, cut_lists.drop_last(), n, start);
    }
}

proof fn lemma_total_price_prefix(solution: Seq<(Material, SubSolution)>, n: int)
    requires
        0 <= n <= solution.len(),
    ensures
        total_price(solution.take(n)) is None ==> total_price(solution) is None,
    decreases solution.len(),
{
    if n == solution.len() {
        assert(solution.take(n) =~= solution);
    } else {
        assert(solution.drop_last().take(n) =~= solution.take(n));
        lemma_total_price_prefix(solution.drop_last(), n);
        if total_price(solution.drop_last()) is None {
            lemma_running_price_none(solution.last().1.supplies@, solution.last().1.patterns());
        }
    }
}

/// The price of all pieces of a solution: for each cut list the price of its
/// supply times its number of pieces. `None` where a product or a running
/// total on the way is not representable.
pub fn compute_total_price(solution: &Solution) -> (r: Option<Rational>)
    requires
        forall|i: int|
            0 <= i < solution@.len() ==> supplies_in_range(
                (#[trigger] solution@[i]).1.patterns(),
                solution@[i].1.supplies@.len(),
            ),
    ensures
        match r {
            Some(total) => total_price(solution@) == Some(total@),
            None => total_price(solution@) is None,
        },
{
    let entries = solution.entries();
    let mut total = Rational::zero();
    let mut i: usize = 0;
    assert(entries@.take(0) =~= Seq::<(Material, SubSolution)>::empty());
    while i < entries.len()
        invariant
            i <= entries@.len(),
            entries@ == solution@,
            forall|k: int|
                0 <= k < entries@.len() ==> supplies_in_range(
                    (#[trigger] entries@[k]).1.patterns(),
                    entries@[k].1.supplies@.len(),
                ),
            total_price(entries@.take(i as int)) == Some(total@),
        decreases entries@.len() - i,
    {
        proof {
            assert(entries@.take(i + 1).drop_last() =~= entries@.take(i as int));
            assert(entries@.take(i + 1).last() == entries@[i as int]);
            lemma_total_price_prefix(entries@, i + 1);
        }
        total = match add_prices(&entries[i].1, total) {
            Some(sum) => sum,
            None => {
                return None;
            },
        };
        i += 1;
    }
    assert(entries@.take(entries@.len() as int) =~= entries@);
    Some(total)
}

/// The outcome of a run with the solution as a plain list of entries.
pub fn flatten_results(results: Option<Result<Solution, SolveError>>) -> (r: Option<
    Result<Vec<(Material, SubSolution)>, SolveError>,
>)
    ensures
        match results {
            Some(Ok(solution)) => r matches Some(Ok(entries)) && entries@ == solution@,
            Some(Err(error)) => r matches Some(Err(kept)) && kept == error,
            None => r is None,
        },
{
    match results {
        Some(Ok(solution)) => Some(Ok(solution.into_entries())),
        Some(Err(error)) => Some(Err(error)),
        None => None,
    }
}

/// The outcome of a run with the solution put together from a plain list of
/// entries: for each material its last entry, in the place of its first.
pub fn unflatten_results(results: Option<Result<Vec<(Material, SubSolution)>, SolveError>>) -> (r:
    Option<Result<Solution, SolveError>>)
    ensures
        match results {
            Some(Ok(entries)) => r matches Some(Ok(solution)) && solution@ == collected(entries@),
            Some(Err(error)) => r matches Some(Err(kept)) && kept == error,
            None => r is None,
        },
{
    match results {
        Some(Ok(entries)) => Some(Ok(MaterialMap::from_entries(entries))),
        Some(Err(error)) => Some(Err(error)),
        None => None,
    }
}

/// A solution taken apart and put together again is the same.
pub proof fn lemma_flatten_round_trip(solution: Seq<(Material, SubSolution)>)
    requires
        distinct_materials(solution),
    ensures
        collected(solution) == solution,
{
    lemma_collected_of_distinct(solution);
}

} // verus!
