//! The greedy solver: each unit goes onto the first open piece with room
//! for it, else onto a new piece of the cheapest supply that can take it.

use crate::modeling::{
    cut_cost, cut_list_views, demand_met, indices_in_range, lemma_cut_cost_push,
    lemma_occurrences_push, lemma_pieces_used_bounded, lemma_pieces_used_push,
    lemma_pieces_used_update, lemma_units_cut_push, lemma_units_cut_update, occurrences,
    pattern_length, pieces_used, total_pieces, units_cut, within_capacity, within_stock, CutList,
    CutListView, Material, Part, Solution, SubProblem, SubSolution, Supply,
};
use crate::rational::{representable, Rational};
use crate::solvers::grouping::{
    lemma_grouped_demand_met, lemma_grouped_within_capacity, lemma_grouped_within_stock,
};
use crate::solvers::{
    is_report, solves, solves_entry, sub_reported, Progress, Reporter, Solver, SubProblemError,
};
use vstd::prelude::*;

verus! {

/// The length that is left on the piece of a cut list once the blade has cut
/// behind each of its parts.
pub open spec fn remaining_length(sub_problem: SubProblem, cut_list: CutListView) -> real {
    sub_problem.supplies@[cut_list.supply_index as int].length@ - cut_cost(
        sub_problem.parts@,
        sub_problem.blade_width@,
        cut_list.part_indices,
    )
}

/// Whether what is left on the piece of a cut list is long enough for a part.
pub open spec fn has_room(sub_problem: SubProblem, cut_list: CutListView, part: usize) -> bool {
    sub_problem.parts@[part as int].length@ <= remaining_length(sub_problem, cut_list)
}

/// `j` is the first cut list with room for the part.
pub open spec fn is_first_fit(
    sub_problem: SubProblem,
    cut_lists: Seq<CutListView>,
    part: usize,
    j: int,
) -> bool {
    &&& 0 <= j < cut_lists.len()
    &&& has_room(sub_problem, cut_lists[j], part)
    &&& forall|k: int| 0 <= k < j ==> !has_room(sub_problem, #[trigger] cut_lists[k], part)
}

/// Whether a new piece of a supply can take a part of the given length: the
/// piece is long enough, and of `used` pieces so far one more is allowed.
pub open spec fn can_supply(supply: Supply, used: nat, length: real) -> bool {
    &&& length <= supply.length@
    &&& (used < supply.max_quantity || supply.max_quantity == -1)
}

/// Whether a new piece of supply `s` can take the part.
pub open spec fn eligible(
    sub_problem: SubProblem,
    cut_lists: Seq<CutListView>,
    part: usize,
    s: usize,
) -> bool {
    &&& s < sub_problem.supplies@.len()
    &&& can_supply(
        sub_problem.supplies@[s as int],
        pieces_used(cut_lists, s),
        sub_problem.parts@[part as int].length@,
    )
}

/// `s` is the supply to open for the part: of the eligible supplies the
/// cheapest, and of several that cheap the first.
pub open spec fn is_cheapest(
    sub_problem: SubProblem,
    cut_lists: Seq<CutListView>,
    part: usize,
    s: usize,
) -> bool {
    &&& eligible(sub_problem, cut_lists, part, s)
    &&& forall|t: usize| #[trigger]
        eligible(sub_problem, cut_lists, part, t) ==> {
            ||| sub_problem.supplies@[s as int].price@ < sub_problem.supplies@[t as int].price@
            ||| (sub_problem.supplies@[s as int].price@ == sub_problem.supplies@[t as int].price@
                && s <= t)
        }
}

/// Where a unit goes.
pub enum Target {
    /// Onto the piece of the cut list with this index.
    Reuse(int),
    /// Onto a new piece of the supply with this index.
    Open(usize),
}

/// Where the next unit of a part goes: onto the first cut list with room,
/// else onto a new piece of the cheapest eligible supply, else nowhere.
pub open spec fn target(sub_problem: SubProblem, cut_lists: Seq<CutListView>, part: usize) -> Option<
    Target,
> {
    if exists|j: int| is_first_fit(sub_problem, cut_lists, part, j) {
        Some(Target::Reuse(choose|j: int| is_first_fit(sub_problem, cut_lists, part, j)))
    } else if exists|s: usize| is_cheapest(sub_problem, cut_lists, part, s) {
        Some(Target::Open(choose|s: usize| is_cheapest(sub_problem, cut_lists, part, s)))
    } else {
        None
    }
}

/// The cut lists after a unit of `part` has gone to `target`.
pub open spec fn with_unit(cut_lists: Seq<CutListView>, target: Target, part: usize) -> Seq<
    CutListView,
> {
    match target {
        Target::Reuse(j) => cut_lists.update(
            j,
            CutListView {
                supply_index: cut_lists[j].supply_index,
                part_indices: cut_lists[j].part_indices.push(part),
                quantity: cut_lists[j].quantity,
            },
        ),
        Target::Open(s) => cut_lists.push(
            CutListView { supply_index: s, part_indices: seq![part], quantity: 1 },
        ),
    }
}

/// The index of the cut list that a unit going to `target` ends up in.
pub open spec fn landing(cut_lists: Seq<CutListView>, target: Target) -> int {
    match target {
        Target::Reuse(j) => j,
        Target::Open(_) => cut_lists.len() as int,
    }
}

/// Places one unit of a part. Fails where the unit has no target, and where
/// the length that the unit takes with one blade width, or the length that
/// it leaves on its piece, is not representable.
pub open spec fn place_unit(
    sub_problem: SubProblem,
    cut_lists: Seq<CutListView>,
    part: usize,
) -> Result<Seq<CutListView>, SubProblemError> {
    match target(sub_problem, cut_lists, part) {
        None => Err(SubProblemError::InsufficientSize),
        Some(target) => {
            let next = with_unit(cut_lists, target, part);
            if representable(sub_problem.parts@[part as int].length@ + sub_problem.blade_width@)
                && representable(remaining_length(sub_problem, next[landing(cut_lists, target)])) {
                Ok(next)
            } else {
                Err(SubProblemError::Unrepresentable)
            }
        },
    }
}

/// Places `units` units of a part, one after the other.
pub open spec fn place_units(
    sub_problem: SubProblem,
    cut_lists: Seq<CutListView>,
    part: usize,
    units: nat,
) -> Result<Seq<CutListView>, SubProblemError>
    decreases units,
{
    if units == 0 {
        Ok(cut_lists)
    } else {
        match place_unit(sub_problem, cut_lists, part) {
            Ok(next) => place_units(sub_problem, next, part, (units - 1) as nat),
            Err(reason) => Err(reason),
        }
    }
}

/// Places all units of the parts from index `from` on, part after part.
pub open spec fn place_parts(
    sub_problem: SubProblem,
    cut_lists: Seq<CutListView>,
    from: int,
) -> Result<Seq<CutListView>, SubProblemError>
    decreases sub_problem.parts@.len() - from,
{
    if from < 0 || from >= sub_problem.parts@.len() {
        Ok(cut_lists)
    } else {
        match place_units(sub_problem, cut_lists, from as usize, sub_problem.parts@[from].demand()) {
            Ok(next) => place_parts(sub_problem, next, from + 1),
            Err(reason) => Err(reason),
        }
    }
}

/// The greedy plan for a sub-problem: all units of all parts placed in
/// order, starting with no cut list.
pub open spec fn greedy_plan(sub_problem: SubProblem) -> Result<Seq<CutListView>, SubProblemError> {
    place_parts(sub_problem, Seq::empty(), 0)
}

/// What holds of the cut lists at every moment of a greedy run: each is for
/// one piece and names a supply and parts that exist, no pattern is longer
/// than its piece, and no supply is used beyond its limit.
pub open spec fn sound(sub_problem: SubProblem, cut_lists: Seq<CutListView>) -> bool {
    &&& forall|j: int| 0 <= j < cut_lists.len() ==> (#[trigger] cut_lists[j]).quantity == 1
    &&& indices_in_range(cut_lists, sub_problem.supplies@.len(), sub_problem.parts@.len())
    &&& within_capacity(
        sub_problem.supplies@,
        sub_problem.parts@,
        sub_problem.blade_width@,
        cut_lists,
    )
    &&& within_stock(sub_problem.supplies@, cut_lists)
}

proof fn lemma_times_one(count: nat, quantity: nat)
    requires
        quantity == 1,
    ensures
        count * quantity == count,
{
    assert(count * 1 == count) by (nonlinear_arith);
}

/// Placing a unit of `part` is one more unit of that part, and of no other.
pub proof fn lemma_place_unit_units(
    sub_problem: SubProblem,
    cut_lists: Seq<CutListView>,
    part: usize,
    other: usize,
)
    requires
        forall|j: int| 0 <= j < cut_lists.len() ==> (#[trigger] cut_lists[j]).quantity == 1,
    ensures
        place_unit(sub_problem, cut_lists, part) matches Ok(next) ==> {
            &&& forall|j: int| 0 <= j < next.len() ==> (#[trigger] next[j]).quantity == 1
            &&& units_cut(next, other) == units_cut(cut_lists, other) + if other == part {
                1nat
            } else {
                0nat
            }
        },
{
    match target(sub_problem, cut_lists, part) {
        Some(Target::Reuse(j)) => {
            let next = with_unit(cut_lists, Target::Reuse(j), part);
            assert(is_first_fit(sub_problem, cut_lists, part, j));
            assert(cut_lists[j].quantity == 1);
            lemma_units_cut_update(cut_lists, j, next[j], other);
            lemma_occurrences_push(cut_lists[j].part_indices, part, other);
            assert forall|k: int| 0 <= k < next.len() implies (#[trigger] next[k]).quantity == 1 by {
                assert(cut_lists[k].quantity == 1);
            }
            assert(next[j].quantity == 1);
            lemma_times_one(occurrences(cut_lists[j].part_indices, other), cut_lists[j].quantity);
            lemma_times_one(occurrences(next[j].part_indices, other), next[j].quantity);
            assert(units_cut(next, other) == units_cut(cut_lists, other) + if other == part {
                1nat
            } else {
                0nat
            });
        },
        Some(Target::Open(s)) => {
            let next = with_unit(cut_lists, Target::Open(s), part);
            lemma_units_cut_push(cut_lists, next[cut_lists.len() as int], other);
            lemma_occurrences_push(Seq::<usize>::empty(), part, other);
            assert(Seq::<usize>::empty().push(part) =~= seq![part]);
            assert(occurrences(Seq::<usize>::empty(), other) == 0);
            assert forall|k: int| 0 <= k < next.len() implies (#[trigger] next[k]).quantity == 1 by {
                if k < cut_lists.len() {
                    assert(cut_lists[k].quantity == 1);
                }
            }
            let added = next[cut_lists.len() as int];
            lemma_times_one(occurrences(added.part_indices, other), added.quantity);
            assert(units_cut(next, other) == units_cut(cut_lists, other) + if other == part {
                1nat
            } else {
                0nat
            });
        },
        None => {},
    }
}

/// Placing a unit keeps the cut lists sound.
pub proof fn lemma_place_unit_sound(
    sub_problem: SubProblem,
    cut_lists: Seq<CutListView>,
    part: usize,
)
    requires
        sound(sub_problem, cut_lists),
        part < sub_problem.parts@.len(),
    ensures
        place_unit(sub_problem, cut_lists, part) matches Ok(next) ==> sound(sub_problem, next),
{
    let supplies = sub_problem.supplies@;
    let parts = sub_problem.parts@;
    let blade_width = sub_problem.blade_width@;
    match target(sub_problem, cut_lists, part) {
        Some(Target::Reuse(j)) => {
            let next = with_unit(cut_lists, Target::Reuse(j), part);
            assert(is_first_fit(sub_problem, cut_lists, part, j));
            lemma_cut_cost_push(parts, blade_width, cut_lists[j].part_indices, part);
            assert forall|k: int| 0 <= k < next.len() implies {
                &&& (#[trigger] next[k]).quantity == 1
                &&& next[k].supply_index < supplies.len()
                &&& forall|m: int|
                    0 <= m < next[k].part_indices.len() ==> #[trigger] next[k].part_indices[m]
                        < parts.len()
                &&& pattern_length(parts, blade_width, next[k].part_indices)
                    <= supplies[next[k].supply_index as int].length@
            } by {
                assert(cut_lists[k].quantity == 1);
                assert(pattern_length(parts, blade_width, cut_lists[k].part_indices)
                    <= supplies[cut_lists[k].supply_index as int].length@);
                assert forall|m: int| 0 <= m < next[k].part_indices.len() implies #[trigger] next[k].part_indices[m]
                    < parts.len() by {
                    if m < cut_lists[k].part_indices.len() {
                        assert(cut_lists[k].part_indices[m] < parts.len());
                    }
                }
            }
            assert forall|s: usize| s < supplies.len() implies (supplies[s as int].limit() matches Some(
                limit,
            ) ==> #[trigger] pieces_used(next, s) <= limit) by {
                lemma_pieces_used_update(cut_lists, j, next[j], s);
                assert(supplies[s as int].limit() matches Some(limit) ==> pieces_used(cut_lists, s)
                    <= limit);
            }
        },
        Some(Target::Open(opened)) => {
            let next = with_unit(cut_lists, Target::Open(opened), part);
            assert(is_cheapest(sub_problem, cut_lists, part, opened));
            lemma_cut_cost_push(parts, blade_width, Seq::<usize>::empty(), part);
            assert(Seq::<usize>::empty().push(part) =~= seq![part]);
            assert(cut_cost(parts, blade_width, Seq::<usize>::empty()) == 0real);
            assert forall|k: int| 0 <= k < next.len() implies {
                &&& (#[trigger] next[k]).quantity == 1
                &&& next[k].supply_index < supplies.len()
                &&& forall|m: int|
                    0 <= m < next[k].part_indices.len() ==> #[trigger] next[k].part_indices[m]
                        < parts.len()
                &&& pattern_length(parts, blade_width, next[k].part_indices)
                    <= supplies[next[k].supply_index as int].length@
            } by {
                if k < cut_lists.len() {
                    assert(next[k] == cut_lists[k]);
                    assert(cut_lists[k].quantity == 1);
                    assert(pattern_length(parts, blade_width, cut_lists[k].part_indices)
                        <= supplies[cut_lists[k].supply_index as int].length@);
                }
            }
            assert forall|s: usize| s < supplies.len() implies (supplies[s as int].limit() matches Some(
                limit,
            ) ==> #[trigger] pieces_used(next, s) <= limit) by {
                lemma_pieces_used_push(cut_lists, next[cut_lists.len() as int], s);
                assert(supplies[s as int].limit() matches Some(limit) ==> pieces_used(cut_lists, s)
                    <= limit);
            }
        },
        None => {},
    }
}

proof fn lemma_place_units_sound(
    sub_problem: SubProblem,
    cut_lists: Seq<CutListView>,
    part: usize,
    units: nat,
)
    requires
        sound(sub_problem, cut_lists),
        part < sub_problem.parts@.len(),
    ensures
        place_units(sub_problem, cut_lists, part, units) matches Ok(next) ==> sound(
            sub_problem,
            next,
        ),
    decreases units,
{
    if units > 0 {
        lemma_place_unit_sound(sub_problem, cut_lists, part);
        match place_unit(sub_problem, cut_lists, part) {
            Ok(next) => lemma_place_units_sound(sub_problem, next, part, (units - 1) as nat),
            Err(_) => {},
        }
    }
}

proof fn lemma_place_parts_sound(sub_problem: SubProblem, cut_lists: Seq<CutListView>, from: int)
    requires
        sound(sub_problem, cut_lists),
        0 <= from,
    ensures
        place_parts(sub_problem, cut_lists, from) matches Ok(next) ==> sound(sub_problem, next),
    decreases sub_problem.parts@.len() - from,
{
    if from < sub_problem.parts@.len() {
        let units = sub_problem.parts@[from].demand();
        assert(sub_problem.parts@.len() == sub_problem.parts.len());
        lemma_place_units_sound(sub_problem, cut_lists, from as usize, units);
        match place_units(sub_problem, cut_lists, from as usize, units) {
            Ok(next) => lemma_place_parts_sound(sub_problem, next, from + 1),
            Err(_) => {},
        }
    }
}

proof fn lemma_place_units_units(
    sub_problem: SubProblem,
    cut_lists: Seq<CutListView>,
    part: usize,
    units: nat,
    other: usize,
)
    requires
        forall|j: int| 0 <= j < cut_lists.len() ==> (#[trigger] cut_lists[j]).quantity == 1,
    ensures
        place_units(sub_problem, cut_lists, part, units) matches Ok(next) ==> {
            &&& forall|j: int| 0 <= j < next.len() ==> (#[trigger] next[j]).quantity == 1
            &&& units_cut(next, other) == units_cut(cut_lists, other) + if other == part {
                units
            } else {
                0nat
            }
        },
    decreases units,
{
    if units > 0 {
        lemma_place_unit_units(sub_problem, cut_lists, part, other);
        match place_unit(sub_problem, cut_lists, part) {
            Ok(next) => lemma_place_units_units(
                sub_problem,
                next,
                part,
                (units - 1) as nat,
                other,
            ),
            Err(_) => {},
        }
    }
}

proof fn lemma_place_parts_units(
    sub_problem: SubProblem,
    cut_lists: Seq<CutListView>,
    from: int,
    other: usize,
)
    requires
        forall|j: int| 0 <= j < cut_lists.len() ==> (#[trigger] cut_lists[j]).quantity == 1,
        0 <= from,
        other < sub_problem.parts@.len(),
    ensures
        place_parts(sub_problem, cut_lists, from) matches Ok(next) ==> units_cut(next, other)
            == units_cut(cut_lists, other) + if from <= other {
            sub_problem.parts@[other as int].demand()
        } else {
            0nat
        },
    decreases sub_problem.parts@.len() - from,
{
    if from < sub_problem.parts@.len() {
        let units = sub_problem.parts@[from].demand();
        assert(sub_problem.parts@.len() == sub_problem.parts.len());
        lemma_place_units_units(sub_problem, cut_lists, from as usize, units, other);
        match place_units(sub_problem, cut_lists, from as usize, units) {
            Ok(next) => lemma_place_parts_units(sub_problem, next, from + 1, other),
            Err(_) => {},
        }
    }
}

/// A greedy plan cuts every part exactly as often as it is wanted.
pub proof fn lemma_greedy_meets_demand(sub_problem: SubProblem)
    ensures
        greedy_plan(sub_problem) matches Ok(cut_lists) ==> demand_met(
            sub_problem.parts@,
            cut_lists,
        ),
{
    if greedy_plan(sub_problem) is Ok {
        let cut_lists = greedy_plan(sub_problem)->Ok_0;
        assert forall|p: usize| p < sub_problem.parts@.len() implies #[trigger] units_cut(
            cut_lists,
            p,
        ) == sub_problem.parts@[p as int].demand() by {
            lemma_place_parts_units(sub_problem, Seq::empty(), 0, p);
        }
    }
}

/// A greedy plan has a cut list for each piece, names only supplies and
/// parts that exist, makes no pattern longer than its piece, and uses no
/// supply beyond its limit.
pub proof fn lemma_greedy_sound(sub_problem: SubProblem)
    ensures
        greedy_plan(sub_problem) matches Ok(cut_lists) ==> sound(sub_problem, cut_lists),
{
    assert(sound(sub_problem, Seq::empty())) by {
        assert forall|s: usize| s < sub_problem.supplies@.len() implies #[trigger] pieces_used(
            Seq::<CutListView>::empty(),
            s,
        ) == 0 by {}
    }
    lemma_place_parts_sound(sub_problem, Seq::empty(), 0);
}

/// The number of units of a part that are placed before one fails, out of
/// `units` units to be placed.
pub open spec fn units_placed_of_part(
    sub_problem: SubProblem,
    cut_lists: Seq<CutListView>,
    part: usize,
    units: nat,
) -> nat
    decreases units,
{
    if units == 0 {
        0
    } else {
        match place_unit(sub_problem, cut_lists, part) {
            Ok(next) => 1 + units_placed_of_part(sub_problem, next, part, (units - 1) as nat),
            Err(_) => 0,
        }
    }
}

/// The number of units of the parts from index `from` on that are placed
/// before one fails.
pub open spec fn units_placed_from(
    sub_problem: SubProblem,
    cut_lists: Seq<CutListView>,
    from: int,
) -> nat
    decreases sub_problem.parts@.len() - from,
{
    if from < 0 || from >= sub_problem.parts@.len() {
        0
    } else {
        match place_units(sub_problem, cut_lists, from as usize, sub_problem.parts@[from].demand()) {
            Ok(next) => sub_problem.parts@[from].demand() + units_placed_from(
                sub_problem,
                next,
                from + 1,
            ),
            Err(_) => units_placed_of_part(
                sub_problem,
                cut_lists,
                from as usize,
                sub_problem.parts@[from].demand(),
            ),
        }
    }
}

/// The number of units that the greedy plan places before one fails: all
/// units where none fails.
pub open spec fn units_placed(sub_problem: SubProblem) -> nat {
    units_placed_from(sub_problem, Seq::empty(), 0)
}

/// What the greedy solver reports for a sub-problem: after each unit that it
/// places, how many units are placed of all that the parts ask for.
pub open spec fn greedy_reports(sub_problem: SubProblem) -> Seq<(nat, nat)> {
    Seq::new(
        units_placed(sub_problem),
        |k: int|
            ((k + 1) as nat, demand_before(sub_problem.parts@, sub_problem.parts@.len() as int)),
    )
}

/// Where placing some units of a part succeeds, all of them are placed.
proof fn lemma_units_placed_of_part(
    sub_problem: SubProblem,
    cut_lists: Seq<CutListView>,
    part: usize,
    units: nat,
)
    ensures
        place_units(sub_problem, cut_lists, part, units) is Ok ==> units_placed_of_part(
            sub_problem,
            cut_lists,
            part,
            units,
        ) == units,
    decreases units,
{
    if units > 0 {
        match place_unit(sub_problem, cut_lists, part) {
            Ok(next) => lemma_units_placed_of_part(sub_problem, next, part, (units - 1) as nat),
            Err(_) => {},
        }
    }
}

proof fn lemma_units_placed_of_part_bounded(
    sub_problem: SubProblem,
    cut_lists: Seq<CutListView>,
    part: usize,
    units: nat,
)
    ensures
        units_placed_of_part(sub_problem, cut_lists, part, units) <= units,
    decreases units,
{
    if units > 0 {
        match place_unit(sub_problem, cut_lists, part) {
            Ok(next) => lemma_units_placed_of_part_bounded(
                sub_problem,
                next,
                part,
                (units - 1) as nat,
            ),
            Err(_) => {},
        }
    }
}

proof fn lemma_units_placed_from_bounded(
    sub_problem: SubProblem,
    cut_lists: Seq<CutListView>,
    from: int,
)
    requires
        0 <= from <= sub_problem.parts@.len(),
    ensures
        demand_before(sub_problem.parts@, from) + units_placed_from(sub_problem, cut_lists, from)
            <= demand_before(sub_problem.parts@, sub_problem.parts@.len() as int),
    decreases sub_problem.parts@.len() - from,
{
    if from < sub_problem.parts@.len() {
        let units = sub_problem.parts@[from].demand();
        match place_units(sub_problem, cut_lists, from as usize, units) {
            Ok(next) => lemma_units_placed_from_bounded(sub_problem, next, from + 1),
            Err(_) => {
                lemma_units_placed_of_part_bounded(sub_problem, cut_lists, from as usize, units);
                lemma_demand_before_bounds(
                    sub_problem.parts@,
                    from + 1,
                    sub_problem.parts@.len() as int,
                );
            },
        }
    }
}

/// The greedy solver reports after each unit that it places, and every
/// report says that one more unit is placed, of all units that the parts
/// ask for, and never more than all of them.
pub proof fn lemma_greedy_reports(sub_problem: SubProblem, k: int)
    requires
        0 <= k < greedy_reports(sub_problem).len(),
    ensures
        greedy_reports(sub_problem).len() == units_placed(sub_problem),
        greedy_reports(sub_problem)[k].0 == k + 1,
        greedy_reports(sub_problem)[k].1 == demand_before(
            sub_problem.parts@,
            sub_problem.parts@.len() as int,
        ),
        greedy_reports(sub_problem)[k].0 <= greedy_reports(sub_problem)[k].1,
{
    lemma_units_placed_from_bounded(sub_problem, Seq::empty(), 0);
}

/// Where the greedy plan succeeds, it places all units that the parts ask
/// for.
pub proof fn lemma_units_placed_all(sub_problem: SubProblem)
    ensures
        greedy_plan(sub_problem) is Ok ==> units_placed(sub_problem) == demand_before(
            sub_problem.parts@,
            sub_problem.parts@.len() as int,
        ),
{
    lemma_units_placed_from(sub_problem, Seq::empty(), 0);
}

proof fn lemma_units_placed_from(sub_problem: SubProblem, cut_lists: Seq<CutListView>, from: int)
    requires
        0 <= from <= sub_problem.parts@.len(),
    ensures
        place_parts(sub_problem, cut_lists, from) is Ok ==> demand_before(sub_problem.parts@, from)
            + units_placed_from(sub_problem, cut_lists, from) == demand_before(
            sub_problem.parts@,
            sub_problem.parts@.len() as int,
        ),
    decreases sub_problem.parts@.len() - from,
{
    if from < sub_problem.parts@.len() {
        let units = sub_problem.parts@[from].demand();
        match place_units(sub_problem, cut_lists, from as usize, units) {
            Ok(next) => lemma_units_placed_from(sub_problem, next, from + 1),
            Err(_) => {},
        }
    }
}

/// The number of units that the first `n` parts ask for.
pub open spec fn demand_before(parts: Seq<Part>, n: int) -> nat
    decreases n,
{
    if n <= 0 {
        0
    } else {
        demand_before(parts, n - 1) + parts[n - 1].demand()
    }
}

proof fn lemma_demand_before_bounds(parts: Seq<Part>, n: int, m: int)
    requires
        0 <= n <= m,
    ensures
        demand_before(parts, n) <= demand_before(parts, m),
        demand_before(parts, n) <= n * 0x7fff_ffff_ffff_ffff,
    decreases m,
{
    if n > 0 {
        lemma_demand_before_bounds(parts, n - 1, n - 1);
    }
    if n < m {
        lemma_demand_before_bounds(parts, n, m - 1);
    }
}

proof fn lemma_first_fit_unique(
    sub_problem: SubProblem,
    cut_lists: Seq<CutListView>,
    part: usize,
    i: int,
    j: int,
)
    requires
        is_first_fit(sub_problem, cut_lists, part, i),
        is_first_fit(sub_problem, cut_lists, part, j),
    ensures
        i == j,
{
    if i < j {
        assert(!has_room(sub_problem, cut_lists[i], part));
    } else if j < i {
        assert(!has_room(sub_problem, cut_lists[j], part));
    }
}

proof fn lemma_cheapest_unique(
    sub_problem: SubProblem,
    cut_lists: Seq<CutListView>,
    part: usize,
    s: usize,
    t: usize,
)
    requires
        is_cheapest(sub_problem, cut_lists, part, s),
        is_cheapest(sub_problem, cut_lists, part, t),
    ensures
        s == t,
{
}

proof fn lemma_single_pieces(cut_lists: Seq<CutListView>)
    requires
        forall|j: int| 0 <= j < cut_lists.len() ==> (#[trigger] cut_lists[j]).quantity == 1,
    ensures
        total_pieces(cut_lists) == cut_lists.len(),
    decreases cut_lists.len(),
{
    if cut_lists.len() > 0 {
        let init = cut_lists.drop_last();
        assert forall|j: int| 0 <= j < init.len() implies (#[trigger] init[j]).quantity == 1 by {
            assert(init[j] == cut_lists[j]);
        }
        lemma_single_pieces(init);
    }
}

/// The index of the first of `remaining` that is at least `length`.
fn first_fit(remaining: &Vec<Rational>, length: &Rational) -> (r: Option<usize>)
    ensures
        match r {
            Some(j) => {
                &&& j < remaining@.len()
                &&& length@ <= remaining@[j as int]@
                &&& forall|k: int| 0 <= k < j ==> !(length@ <= (#[trigger] remaining@[k])@)
            },
            None => forall|k: int|
                0 <= k < remaining@.len() ==> !(length@ <= (#[trigger] remaining@[k])@),
        },
{
    let mut j: usize = 0;
    while j < remaining.len()
        invariant
            j <= remaining@.len(),
            forall|k: int| 0 <= k < j ==> !(length@ <= (#[trigger] remaining@[k])@),
        decreases remaining@.len() - j,
    {
        if length.le(&remaining[j]) {
            return Some(j);
        }
        j += 1;
    }
    None
}

/// Whether a new piece of `supply` can take a part of the given length when
/// `used` pieces of it are taken.
fn supply_allows(supply: &Supply, used: usize, length: &Rational) -> (r: bool)
    ensures
        r == can_supply(*supply, used as nat, length@),
{
    let limit: i64 = supply.max_quantity;
    length.le(&supply.length) && (limit == -1 || (limit >= 0 && (used as u64) < (limit as u64)))
}

/// The index of the supply to open for a part of the given length: of the
/// supplies that can take it the cheapest, and of several that cheap the
/// first.
fn cheapest_supply(supplies: &Vec<Supply>, consumption: &Vec<usize>, length: &Rational) -> (r:
    Option<usize>)
    requires
        consumption@.len() == supplies@.len(),
    ensures
        match r {
            Some(s) => {
                &&& s < supplies@.len()
                &&& can_supply(supplies@[s as int], consumption@[s as int] as nat, length@)
                &&& forall|t: int|
                    0 <= t < supplies@.len() && can_supply(
                        #[trigger] supplies@[t],
                        consumption@[t] as nat,
                        length@,
                    ) ==> {
                        ||| supplies@[s as int].price@ < supplies@[t].price@
                        ||| (supplies@[s as int].price@ == supplies@[t].price@ && s <= t)
                    }
            },
            None => forall|t: int|
                0 <= t < supplies@.len() ==> !can_supply(
                    #[trigger] supplies@[t],
                    consumption@[t] as nat,
                    length@,
                ),
        },
{
    let mut best: Option<usize> = None;
    let mut t: usize = 0;
    while t < supplies.len()
        invariant
            t <= supplies@.len(),
            consumption@.len() == supplies@.len(),
            match best {
                Some(s) => {
                    &&& s < t
                    &&& can_supply(supplies@[s as int], consumption@[s as int] as nat, length@)
                    &&& forall|u: int|
                        0 <= u < t && can_supply(
                            #[trigger] supplies@[u],
                            consumption@[u] as nat,
                            length@,
                        ) ==> {
                            ||| supplies@[s as int].price@ < supplies@[u].price@
                            ||| (supplies@[s as int].price@ == supplies@[u].price@ && s <= u)
                        }
                },
                None => forall|u: int|
                    0 <= u < t ==> !can_supply(
                        #[trigger] supplies@[u],
                        consumption@[u] as nat,
                        length@,
                    ),
            },
        decreases supplies@.len() - t,
    {
        if supply_allows(&supplies[t], consumption[t], length) {
            match best {
                Some(s) => {
                    if supplies[t].price.lt(&supplies[s].price) {
                        best = Some(t);
                    }
                },
                None => {
                    best = Some(t);
                },
            }
        }
        t += 1;
    }
    best
}

/// The number of units that all parts ask for.
fn total_demand(parts: &Vec<Part>) -> (r: u128)
    ensures
        r == demand_before(parts@, parts@.len() as int),
{
    let mut total: u128 = 0;
    let mut i: usize = 0;
    while i < parts.len()
        invariant
            i <= parts@.len(),
            total == demand_before(parts@, i as int),
        decreases parts@.len() - i,
    {
        proof {
            lemma_demand_before_bounds(parts@, i as int, i as int);
        }
        if parts[i].quantity > 0 {
            total += parts[i].quantity as u128;
        }
        i += 1;
    }
    total
}

/// The pieces opened so far in a run of the greedy solver, with the length
/// left on each and the number of pieces taken of each supply.
struct Workbench {
    cut_lists: Vec<CutList>,
    remaining: Vec<Rational>,
    consumption: Vec<usize>,
}

impl Workbench {
    spec fn views(&self) -> Seq<CutListView> {
        cut_list_views(self.cut_lists@)
    }

    /// The books are right: every cut list is for one piece and names
    /// supplies and parts that exist, and the lengths left and the pieces
    /// taken are those of the cut lists.
    spec fn tracks(&self, sub_problem: SubProblem) -> bool {
        &&& self.remaining@.len() == self.cut_lists@.len()
        &&& self.consumption@.len() == sub_problem.supplies@.len()
        &&& indices_in_range(self.views(), sub_problem.supplies@.len(), sub_problem.parts@.len())
        &&& forall|j: int| 0 <= j < self.views().len() ==> (#[trigger] self.views()[j]).quantity == 1
        &&& forall|j: int|
            0 <= j < self.remaining@.len() ==> (#[trigger] self.remaining@[j])@ == remaining_length(
                sub_problem,
                self.views()[j],
            )
        &&& forall|s: usize|
            s < self.consumption@.len() ==> (#[trigger] self.consumption@[s as int]) == pieces_used(
                self.views(),
                s,
            )
    }

    /// A workbench without pieces.
    fn new(sub_problem: &SubProblem) -> (r: Workbench)
        ensures
            r.tracks(*sub_problem),
            r.views() == Seq::<CutListView>::empty(),
    {
        let mut consumption: Vec<usize> = Vec::new();
        let mut s: usize = 0;
        while s < sub_problem.supplies.len()
            invariant
                s <= sub_problem.supplies@.len(),
                consumption@.len() == s,
                forall|t: int| 0 <= t < s ==> (#[trigger] consumption@[t]) == 0,
            decreases sub_problem.supplies@.len() - s,
        {
            consumption.push(0);
            s += 1;
        }
        let bench = Workbench { cut_lists: Vec::new(), remaining: Vec::new(), consumption };
        assert(bench.views() =~= Seq::<CutListView>::empty());
        bench
    }

    /// Places one unit of `part` as `place_unit` says.
    fn place(&mut self, sub_problem: &SubProblem, part: usize) -> (r: Result<(), SubProblemError>)
        requires
            old(self).tracks(*sub_problem),
            part < sub_problem.parts@.len(),
        ensures
            match r {
                Ok(()) => {
                    &&& final(self).tracks(*sub_problem)
                    &&& place_unit(*sub_problem, old(self).views(), part) == Ok::<
                        Seq<CutListView>,
                        SubProblemError,
                    >(final(self).views())
                },
                Err(reason) => place_unit(*sub_problem, old(self).views(), part) == Err::<
                    Seq<CutListView>,
                    SubProblemError,
                >(reason),
            },
    {
        let ghost sp = *sub_problem;
        let ghost before = self.views();
        let length = &sub_problem.parts[part].length;
        match first_fit(&self.remaining, length) {
            Some(j) => {
                proof {
                    assert(is_first_fit(sp, before, part, j as int)) by {
                        assert(self.remaining@[j as int]@ == remaining_length(sp, before[j as int]));
                        assert forall|k: int| 0 <= k < j implies !has_room(
                            sp,
                            #[trigger] before[k],
                            part,
                        ) by {
                            assert(self.remaining@[k]@ == remaining_length(sp, before[k]));
                        }
                    }
                    let chosen = choose|c: int| is_first_fit(sp, before, part, c);
                    lemma_first_fit_unique(sp, before, part, chosen, j as int);
                    assert(target(sp, before, part) == Some(Target::Reuse(j as int)));
                    lemma_cut_cost_push(
                        sp.parts@,
                        sp.blade_width@,
                        before[j as int].part_indices,
                        part,
                    );
                }
                let step = match length.checked_add(&sub_problem.blade_width) {
                    Some(step) => step,
                    None => {
                        return Err(SubProblemError::Unrepresentable);
                    },
                };
                let left = match self.remaining[j].checked_sub(&step) {
                    Some(left) => left,
                    None => {
                        return Err(SubProblemError::Unrepresentable);
                    },
                };
                self.cut_lists[j].part_indices.push(part);
                self.remaining[j] = left;
                proof {
                    let after = self.views();
                    assert(after =~= with_unit(before, Target::Reuse(j as int), part));
                    assert forall|s: usize| s < self.consumption@.len() implies (
                    #[trigger] self.consumption@[s as int]) == pieces_used(after, s) by {
                        lemma_pieces_used_update(before, j as int, after[j as int], s);
                    }
                    assert forall|k: int| 0 <= k < self.remaining@.len() implies (
                    #[trigger] self.remaining@[k])@ == remaining_length(sp, after[k]) by {
                        if k != j {
                            assert(after[k] == before[k]);
                        }
                    }
                    assert(indices_in_range(after, sp.supplies@.len(), sp.parts@.len())) by {
                        assert forall|k: int| 0 <= k < after.len() implies {
                            &&& (#[trigger] after[k]).supply_index < sp.supplies@.len()
                            &&& forall|m: int|
                                0 <= m < after[k].part_indices.len()
                                    ==> #[trigger] after[k].part_indices[m] < sp.parts@.len()
                        } by {
                            assert(before[k].supply_index < sp.supplies@.len());
                            assert forall|m: int|
                                0 <= m < after[k].part_indices.len() implies #[trigger] after[k].part_indices[m]
                                < sp.parts@.len() by {
                                if m < before[k].part_indices.len() {
                                    assert(before[k].part_indices[m] < sp.parts@.len());
                                }
                            }
                        }
                    }
                }
                Ok(())
            },
            None => {
                proof {
                    assert forall|j: int| !is_first_fit(sp, before, part, j) by {
                        if 0 <= j < before.len() {
                            assert(self.remaining@[j]@ == remaining_length(sp, before[j]));
                        }
                    }
                }
                match cheapest_supply(&sub_problem.supplies, &self.consumption, length) {
                    None => {
                        proof {
                            assert forall|s: usize| !is_cheapest(sp, before, part, s) by {
                                if s < sp.supplies@.len() {
                                    assert(self.consumption@[s as int] == pieces_used(before, s));
                                    assert(!can_supply(
                                        sp.supplies@[s as int],
                                        self.consumption@[s as int] as nat,
                                        length@,
                                    ));
                                }
                            }
                        }
                        Err(SubProblemError::InsufficientSize)
                    },
                    Some(s) => {
                        proof {
                            assert(self.consumption@[s as int] == pieces_used(before, s));
                            assert(is_cheapest(sp, before, part, s)) by {
                                assert forall|t: usize| #[trigger]
                                    eligible(sp, before, part, t) implies {
                                    ||| sp.supplies@[s as int].price@ < sp.supplies@[t as int].price@
                                    ||| (sp.supplies@[s as int].price@ == sp.supplies@[t as int].price@
                                        && s <= t)
                                } by {
                                    assert(self.consumption@[t as int] == pieces_used(before, t));
                                    assert(can_supply(
                                        sp.supplies@[t as int],
                                        self.consumption@[t as int] as nat,
                                        length@,
                                    ));
                                }
                            }
                            let chosen = choose|c: usize| is_cheapest(sp, before, part, c);
                            lemma_cheapest_unique(sp, before, part, chosen, s);
                            assert(target(sp, before, part) == Some(Target::Open(s)));
                            assert(cut_cost(sp.parts@, sp.blade_width@, Seq::<usize>::empty())
                                == 0real);
                            lemma_cut_cost_push(
                                sp.parts@,
                                sp.blade_width@,
                                Seq::<usize>::empty(),
                                part,
                            );
                            assert(Seq::<usize>::empty().push(part) =~= seq![part]);
                        }
                        let step = match length.checked_add(&sub_problem.blade_width) {
                            Some(step) => step,
                            None => {
                                return Err(SubProblemError::Unrepresentable);
                            },
                        };
                        let left = match sub_problem.supplies[s].length.checked_sub(&step) {
                            Some(left) => left,
                            None => {
                                return Err(SubProblemError::Unrepresentable);
                            },
                        };
                        let mut part_indices: Vec<usize> = Vec::new();
                        part_indices.push(part);
                        self.cut_lists.push(CutList { supply_index: s, part_indices, quantity: 1 });
                        self.remaining.push(left);
                        proof {
                            let after = self.views();
                            assert(after =~= with_unit(before, Target::Open(s), part));
                            assert(after.len() == self.cut_lists.len());
                            lemma_single_pieces(after);
                            lemma_pieces_used_bounded(after, s);
                            lemma_pieces_used_push(before, after[before.len() as int], s);
                        }
                        self.consumption[s] += 1;
                        proof {
                            let after = self.views();
                            assert forall|t: usize| t < self.consumption@.len() implies (
                            #[trigger] self.consumption@[t as int]) == pieces_used(after, t) by {
                                assert(old(self).consumption@[t as int] == pieces_used(before, t));
                                lemma_pieces_used_push(before, after[before.len() as int], t);
                            }
                            assert forall|k: int| 0 <= k < self.remaining@.len() implies (
                            #[trigger] self.remaining@[k])@ == remaining_length(sp, after[k]) by {
                                if k < before.len() {
                                    assert(after[k] == before[k]);
                                }
                            }
                            assert(indices_in_range(after, sp.supplies@.len(), sp.parts@.len())) by {
                                assert forall|k: int| 0 <= k < after.len() implies {
                                    &&& (#[trigger] after[k]).supply_index < sp.supplies@.len()
                                    &&& forall|m: int|
                                        0 <= m < after[k].part_indices.len()
                                            ==> #[trigger] after[k].part_indices[m]
                                            < sp.parts@.len()
                                } by {
                                    if k < before.len() {
                                        assert(after[k] == before[k]);
                                        assert(before[k].supply_index < sp.supplies@.len());
                                    }
                                }
                            }
                        }
                        Ok(())
                    },
                }
            },
        }
    }
}

/// The greedy solver.
pub struct NaiveSolver {}

impl Solver for NaiveSolver {
    open spec fn plan(&self, sub_problem: SubProblem) -> Result<Seq<CutListView>, SubProblemError> {
        greedy_plan(sub_problem)
    }

    open spec fn reports(&self, sub_problem: SubProblem) -> Seq<(nat, nat)> {
        greedy_reports(sub_problem)
    }

    /// Places the units in order, and after each one reports how many of
    /// all units are placed.
    fn solve_sub_problem(&self, sub_problem: SubProblem, reporter: &mut Reporter) -> (r: Result<
        SubSolution,
        SubProblemError,
    >) {
        let ghost before = reporter.sent();
        let ghost reports = greedy_reports(sub_problem);
        let mut bench = Workbench::new(&sub_problem);
        let total: u128 = total_demand(&sub_problem.parts);
        let mut placed: u128 = 0;
        let mut i: usize = 0;
        assert(before.take(before.len() as int) =~= before);
        while i < sub_problem.parts.len()
            invariant
                i <= sub_problem.parts@.len(),
                bench.tracks(sub_problem),
                greedy_plan(sub_problem) == place_parts(sub_problem, bench.views(), i as int),
                units_placed(sub_problem) == placed + units_placed_from(
                    sub_problem,
                    bench.views(),
                    i as int,
                ),
                total == demand_before(sub_problem.parts@, sub_problem.parts@.len() as int),
                placed == demand_before(sub_problem.parts@, i as int),
                reports == greedy_reports(sub_problem),
                before == old(reporter).sent(),
                reporter.has_sender() == old(reporter).has_sender(),
                reporter.refused() == old(reporter).refused(),
                reporter.sent().len() == before.len() + placed,
                sub_reported(before, reporter.sent(), reports),
            decreases sub_problem.parts@.len() - i,
        {
            let quantity: i64 = sub_problem.parts[i].quantity;
            let mut unit: i64 = 0;
            while unit < quantity
                invariant
                    i < sub_problem.parts@.len(),
                    quantity == sub_problem.parts@[i as int].quantity,
                    0 <= unit,
                    unit <= sub_problem.parts@[i as int].demand(),
                    bench.tracks(sub_problem),
                    greedy_plan(sub_problem) == match place_units(
                        sub_problem,
                        bench.views(),
                        i,
                        (sub_problem.parts@[i as int].demand() - unit) as nat,
                    ) {
                        Ok(next) => place_parts(sub_problem, next, i + 1),
                        Err(reason) => Err(reason),
                    },
                    units_placed(sub_problem) == placed + match place_units(
                        sub_problem,
                        bench.views(),
                        i,
                        (sub_problem.parts@[i as int].demand() - unit) as nat,
                    ) {
                        Ok(next) => sub_problem.parts@[i as int].demand() - unit + units_placed_from(
                            sub_problem,
                            next,
                            i + 1,
                        ),
                        Err(_) => units_placed_of_part(
                            sub_problem,
                            bench.views(),
                            i,
                            (sub_problem.parts@[i as int].demand() - unit) as nat,
                        ) as int,
                    },
                    total == demand_before(sub_problem.parts@, sub_problem.parts@.len() as int),
                    placed == demand_before(sub_problem.parts@, i as int) + unit,
                    reports == greedy_reports(sub_problem),
                    before == old(reporter).sent(),
                    reporter.has_sender() == old(reporter).has_sender(),
                    reporter.refused() == old(reporter).refused(),
                    reporter.sent().len() == before.len() + placed,
                    sub_reported(before, reporter.sent(), reports),
                decreases quantity - unit,
            {
                let ghost views = bench.views();
                let ghost left = (sub_problem.parts@[i as int].demand() - unit) as nat;
                match bench.place(&sub_problem, i) {
                    Ok(()) => {},
                    Err(reason) => {
                        return Err(reason);
                    },
                }
                proof {
                    lemma_demand_before_bounds(
                        sub_problem.parts@,
                        i + 1,
                        sub_problem.parts@.len() as int,
                    );
                    lemma_units_placed_of_part(sub_problem, views, i, left);
                }
                placed += 1;
                unit += 1;
                let ghost so_far = reporter.sent();
                let progress = Progress::new(placed, total).unwrap();
                assert(units_placed(sub_problem) >= placed);
                if !self.send_sub_progress(reporter, progress) {
                    proof {
                        assert(reporter.refused().drop_last() =~= old(reporter).refused());
                    }
                    return Err(SubProblemError::ChannelClosed);
                }
                proof {
                    assert(reporter.sent().take(before.len() as int) =~= so_far.take(
                        before.len() as int,
                    ));
                    assert forall|k: int|
                        before.len() <= k < reporter.sent().len() implies is_report(
                        #[trigger] reporter.sent()[k],
                        reports[k - before.len()],
                    ) by {
                        if k < so_far.len() {
                            assert(is_report(so_far[k], reports[k - before.len()]));
                        }
                    }
                }
            }
            i += 1;
        }
        proof {
            lemma_single_pieces(bench.views());
            assert(bench.views().len() == bench.cut_lists.len());
            assert forall|s: usize| s < sub_problem.supplies@.len() implies #[trigger] pieces_used(
                bench.views(),
                s,
            ) <= usize::MAX by {
                lemma_pieces_used_bounded(bench.views(), s);
            }
        }
        Ok(
            SubSolution {
                cut_lists: bench.cut_lists,
                supplies: sub_problem.supplies,
                parts: sub_problem.parts,
            },
        )
    }
}

/// In a solution of the greedy solver every part of every material is cut
/// exactly as often as it is wanted: its occurrences in the patterns, each
/// counted as often as the pattern is cut, add up to its demand.
pub proof fn lemma_solution_meets_demand(
    solver: NaiveSolver,
    problem: Seq<(Material, SubProblem)>,
    solution: Solution,
    i: int,
)
    requires
        solves(|sub_problem: SubProblem| solver.plan(sub_problem), problem, solution@),
        0 <= i < solution@.len(),
    ensures
        demand_met(solution@[i].1.parts@, solution@[i].1.patterns()),
{
    let plan = |sub_problem: SubProblem| solver.plan(sub_problem);
    assert(solves_entry(plan, problem[i], solution@[i]));
    lemma_greedy_meets_demand(problem[i].1);
    lemma_grouped_demand_met(problem[i].1.parts@, greedy_plan(problem[i].1)->Ok_0);
}

/// In a solution of the greedy solver no pattern is longer than the piece it
/// is cut from: its parts and the blade width between each two of them fit
/// into the length of its supply.
pub proof fn lemma_solution_within_capacity(
    solver: NaiveSolver,
    problem: Seq<(Material, SubProblem)>,
    solution: Solution,
    i: int,
)
    requires
        solves(|sub_problem: SubProblem| solver.plan(sub_problem), problem, solution@),
        0 <= i < solution@.len(),
    ensures
        within_capacity(
            solution@[i].1.supplies@,
            solution@[i].1.parts@,
            problem[i].1.blade_width@,
            solution@[i].1.patterns(),
        ),
{
    let plan = |sub_problem: SubProblem| solver.plan(sub_problem);
    assert(solves_entry(plan, problem[i], solution@[i]));
    lemma_greedy_sound(problem[i].1);
    lemma_grouped_within_capacity(
        problem[i].1.supplies@,
        problem[i].1.parts@,
        problem[i].1.blade_width@,
        greedy_plan(problem[i].1)->Ok_0,
    );
}

/// In a solution of the greedy solver no supply with a limit is used for
/// more pieces than the limit: the pieces of the cut lists that refer to
/// it, each counted as often as its pattern is cut, stay within it.
pub proof fn lemma_solution_within_stock(
    solver: NaiveSolver,
    problem: Seq<(Material, SubProblem)>,
    solution: Solution,
    i: int,
)
    requires
        solves(|sub_problem: SubProblem| solver.plan(sub_problem), problem, solution@),
        0 <= i < solution@.len(),
    ensures
        within_stock(solution@[i].1.supplies@, solution@[i].1.patterns()),
{
    let plan = |sub_problem: SubProblem| solver.plan(sub_problem);
    assert(solves_entry(plan, problem[i], solution@[i]));
    lemma_greedy_sound(problem[i].1);
    lemma_grouped_within_stock(problem[i].1.supplies@, greedy_plan(problem[i].1)->Ok_0);
}

} // verus!
