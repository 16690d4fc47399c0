//! Merging cut lists that share a pattern.

use crate::modeling::{
    countable_by_pattern, countable_by_supply, cut_list_views, demand_met, indices_in_range,
    lemma_pattern_pieces_absent, lemma_pattern_pieces_prefix, lemma_pattern_pieces_push,
    lemma_pattern_pieces_update, lemma_pieces_used_push, lemma_pieces_used_update,
    lemma_total_pieces_push, lemma_total_pieces_update, lemma_units_cut_push,
    lemma_units_cut_update, occurrences, pattern_length, pattern_pieces, pieces_used,
    total_pieces, units_cut, within_capacity, within_stock, CutList, CutListView, Part, Supply,
};
use vstd::prelude::*;

verus! {

/// `j` is the first of `groups` that has the pattern `key`.
pub open spec fn is_first_with_pattern(
    groups: Seq<CutListView>,
    key: (usize, Seq<usize>),
    j: int,
) -> bool {
    &&& 0 <= j < groups.len()
    &&& groups[j].key() == key
    &&& forall|k: int| 0 <= k < j ==> (#[trigger] groups[k]).key() != key
}

/// The index of the first of `groups` that has the pattern `key`.
pub open spec fn index_of_pattern(groups: Seq<CutListView>, key: (usize, Seq<usize>)) -> Option<
    int,
> {
    if exists|j: int| is_first_with_pattern(groups, key, j) {
        Some(choose|j: int| is_first_with_pattern(groups, key, j))
    } else {
        None
    }
}

/// `groups` after one more cut list: its pieces are added to the group of
/// its pattern, or it starts a group of its own behind the others.
pub open spec fn absorb(groups: Seq<CutListView>, cut_list: CutListView) -> Seq<CutListView> {
    match index_of_pattern(groups, cut_list.key()) {
        Some(j) => groups.update(
            j,
            CutListView {
                supply_index: groups[j].supply_index,
                part_indices: groups[j].part_indices,
                quantity: groups[j].quantity + cut_list.quantity,
            },
        ),
        None => groups.push(cut_list),
    }
}

/// One cut list for each pattern among `cut_lists`, in the order in which
/// the patterns first occur, each with the pieces of all cut lists of its
/// pattern.
pub open spec fn grouped(cut_lists: Seq<CutListView>) -> Seq<CutListView>
    decreases cut_lists.len(),
{
    if cut_lists.len() == 0 {
        Seq::empty()
    } else {
        absorb(grouped(cut_lists.drop_last()), cut_lists.last())
    }
}

/// No two cut lists have the same pattern.
pub open spec fn distinct_patterns(cut_lists: Seq<CutListView>) -> bool {
    forall|i: int, j: int|
        0 <= i < j < cut_lists.len() ==> (#[trigger] cut_lists[i]).key() != (
        #[trigger] cut_lists[j]).key()
}

/// Every pattern of `groups` is the pattern of one of `cut_lists`.
pub open spec fn patterns_from(groups: Seq<CutListView>, cut_lists: Seq<CutListView>) -> bool {
    forall|j: int|
        0 <= j < groups.len() ==> exists|k: int|
            0 <= k < cut_lists.len() && (#[trigger] cut_lists[k]).key() == (#[trigger] groups[j]).key()
}

proof fn lemma_first_with_pattern_unique(
    groups: Seq<CutListView>,
    key: (usize, Seq<usize>),
    i: int,
    j: int,
)
    requires
        is_first_with_pattern(groups, key, i),
        is_first_with_pattern(groups, key, j),
    ensures
        i == j,
{
    if i < j {
        assert(groups[i].key() != key);
    } else if j < i {
        assert(groups[j].key() != key);
    }
}

/// The index that `index_of_pattern` gives, where some cut list has the
/// pattern, and that none has it where it gives none.
pub proof fn lemma_index_of_pattern(groups: Seq<CutListView>, key: (usize, Seq<usize>))
    ensures
        match index_of_pattern(groups, key) {
            Some(j) => is_first_with_pattern(groups, key, j),
            None => forall|k: int| 0 <= k < groups.len() ==> (#[trigger] groups[k]).key() != key,
        },
    decreases groups.len(),
{
    if index_of_pattern(groups, key) is None {
        assert forall|k: int| 0 <= k < groups.len() implies (#[trigger] groups[k]).key() != key by {
            if groups[k].key() == key {
                lemma_some_first_with_pattern(groups, key, k);
            }
        }
    }
}

proof fn lemma_some_first_with_pattern(groups: Seq<CutListView>, key: (usize, Seq<usize>), k: int)
    requires
        0 <= k < groups.len(),
        groups[k].key() == key,
    ensures
        exists|j: int| is_first_with_pattern(groups, key, j),
    decreases k,
{
    if exists|i: int| 0 <= i < k && (#[trigger] groups[i]).key() == key {
        let i = choose|i: int| 0 <= i < k && (#[trigger] groups[i]).key() == key;
        lemma_some_first_with_pattern(groups, key, i);
    } else {
        assert(is_first_with_pattern(groups, key, k));
    }
}

/// Absorbing a cut list adds its units to the units cut.
pub proof fn lemma_absorb_units_cut(groups: Seq<CutListView>, cut_list: CutListView, part: usize)
    ensures
        units_cut(absorb(groups, cut_list), part) == units_cut(groups, part) + occurrences(
            cut_list.part_indices,
            part,
        ) * cut_list.quantity,
{
    lemma_index_of_pattern(groups, cut_list.key());
    match index_of_pattern(groups, cut_list.key()) {
        Some(j) => {
            let merged = absorb(groups, cut_list)[j];
            lemma_units_cut_update(groups, j, merged, part);
            let n = occurrences(cut_list.part_indices, part);
            let a = groups[j].quantity;
            let b = cut_list.quantity;
            assert(n * (a + b) == n * a + n * b) by (nonlinear_arith);
        },
        None => {
            lemma_units_cut_push(groups, cut_list, part);
        },
    }
}

/// Absorbing a cut list adds its pieces to the pieces used of its supply.
pub proof fn lemma_absorb_pieces_used(
    groups: Seq<CutListView>,
    cut_list: CutListView,
    supply: usize,
)
    ensures
        pieces_used(absorb(groups, cut_list), supply) == pieces_used(groups, supply) + if cut_list.supply_index
            == supply {
            cut_list.quantity
        } else {
            0nat
        },
{
    lemma_index_of_pattern(groups, cut_list.key());
    match index_of_pattern(groups, cut_list.key()) {
        Some(j) => {
            lemma_pieces_used_update(groups, j, absorb(groups, cut_list)[j], supply);
        },
        None => {
            lemma_pieces_used_push(groups, cut_list, supply);
        },
    }
}

/// Absorbing a cut list adds its pieces to the total.
pub proof fn lemma_absorb_total_pieces(groups: Seq<CutListView>, cut_list: CutListView)
    ensures
        total_pieces(absorb(groups, cut_list)) == total_pieces(groups) + cut_list.quantity,
{
    lemma_index_of_pattern(groups, cut_list.key());
    match index_of_pattern(groups, cut_list.key()) {
        Some(j) => {
            lemma_total_pieces_update(groups, j, absorb(groups, cut_list)[j]);
        },
        None => {
            lemma_total_pieces_push(groups, cut_list);
        },
    }
}

/// Absorbing a cut list into groups of distinct patterns leaves the patterns
/// distinct.
pub proof fn lemma_absorb_distinct(groups: Seq<CutListView>, cut_list: CutListView)
    requires
        distinct_patterns(groups),
    ensures
        distinct_patterns(absorb(groups, cut_list)),
{
    lemma_index_of_pattern(groups, cut_list.key());
    let after = absorb(groups, cut_list);
    assert forall|i: int, j: int| 0 <= i < j < after.len() implies (#[trigger] after[i]).key() != (
    #[trigger] after[j]).key() by {
        if j < groups.len() {
            assert(after[i].key() == groups[i].key());
            assert(after[j].key() == groups[j].key());
        } else {
            assert(after[i].key() == groups[i].key());
        }
    }
}

/// Grouping keeps the units cut of every part.
pub proof fn lemma_grouped_units_cut(cut_lists: Seq<CutListView>, part: usize)
    ensures
        units_cut(grouped(cut_lists), part) == units_cut(cut_lists, part),
    decreases cut_lists.len(),
{
    if cut_lists.len() > 0 {
        lemma_grouped_units_cut(cut_lists.drop_last(), part);
        lemma_absorb_units_cut(grouped(cut_lists.drop_last()), cut_lists.last(), part);
    }
}

/// Grouping keeps the pieces used of every supply.
pub proof fn lemma_grouped_pieces_used(cut_lists: Seq<CutListView>, supply: usize)
    ensures
        pieces_used(grouped(cut_lists), supply) == pieces_used(cut_lists, supply),
    decreases cut_lists.len(),
{
    if cut_lists.len() > 0 {
        lemma_grouped_pieces_used(cut_lists.drop_last(), supply);
        lemma_absorb_pieces_used(grouped(cut_lists.drop_last()), cut_lists.last(), supply);
    }
}

/// Grouping keeps the total of pieces.
pub proof fn lemma_grouped_total_pieces(cut_lists: Seq<CutListView>)
    ensures
        total_pieces(grouped(cut_lists)) == total_pieces(cut_lists),
    decreases cut_lists.len(),
{
    if cut_lists.len() > 0 {
        lemma_grouped_total_pieces(cut_lists.drop_last());
        lemma_absorb_total_pieces(grouped(cut_lists.drop_last()), cut_lists.last());
    }
}

/// After grouping no two cut lists have the same pattern.
pub proof fn lemma_grouped_distinct(cut_lists: Seq<CutListView>)
    ensures
        distinct_patterns(grouped(cut_lists)),
    decreases cut_lists.len(),
{
    if cut_lists.len() > 0 {
        lemma_grouped_distinct(cut_lists.drop_last());
        lemma_absorb_distinct(grouped(cut_lists.drop_last()), cut_lists.last());
    }
}

/// Grouping invents no pattern: each group has the pattern of a cut list
/// that went in.
pub proof fn lemma_grouped_patterns(cut_lists: Seq<CutListView>)
    ensures
        patterns_from(grouped(cut_lists), cut_lists),
    decreases cut_lists.len(),
{
    if cut_lists.len() > 0 {
        let init = cut_lists.drop_last();
        let last = cut_lists.last();
        lemma_grouped_patterns(init);
        lemma_index_of_pattern(grouped(init), last.key());
        let groups = grouped(cut_lists);
        assert forall|j: int| 0 <= j < groups.len() implies exists|k: int|
            0 <= k < cut_lists.len() && (#[trigger] cut_lists[k]).key() == (#[trigger] groups[j]).key() by {
            if j < grouped(init).len() {
                assert(groups[j].key() == grouped(init)[j].key());
                let k = choose|k: int|
                    0 <= k < init.len() && (#[trigger] init[k]).key() == grouped(init)[j].key();
                assert(cut_lists[k].key() == groups[j].key());
            } else {
                assert(cut_lists[cut_lists.len() - 1].key() == groups[j].key());
            }
        }
    }
}

/// Cut lists of distinct patterns are their own grouping.
pub proof fn lemma_grouped_of_distinct(cut_lists: Seq<CutListView>)
    requires
        distinct_patterns(cut_lists),
    ensures
        grouped(cut_lists) == cut_lists,
    decreases cut_lists.len(),
{
    if cut_lists.len() > 0 {
        let init = cut_lists.drop_last();
        let last = cut_lists.last();
        assert(distinct_patterns(init)) by {
            assert forall|i: int, j: int| 0 <= i < j < init.len() implies (#[trigger] init[i]).key()
                != (#[trigger] init[j]).key() by {
                assert(init[i] == cut_lists[i]);
                assert(init[j] == cut_lists[j]);
            }
        }
        lemma_grouped_of_distinct(init);
        lemma_index_of_pattern(init, last.key());
        if index_of_pattern(init, last.key()) is Some {
            let j = index_of_pattern(init, last.key())->Some_0;
            assert(init[j] == cut_lists[j]);
            assert(cut_lists[j].key() != cut_lists[cut_lists.len() - 1].key());
        }
        assert(init.push(last) =~= cut_lists);
    }
}

/// Grouping twice gives what grouping once gives.
pub proof fn lemma_grouping_idempotent(cut_lists: Seq<CutListView>)
    ensures
        grouped(grouped(cut_lists)) == grouped(cut_lists),
{
    lemma_grouped_distinct(cut_lists);
    lemma_grouped_of_distinct(grouped(cut_lists));
}

/// Grouping keeps the indices within the supplies and parts.
pub proof fn lemma_grouped_indices_in_range(cut_lists: Seq<CutListView>, supplies: nat, parts: nat)
    requires
        indices_in_range(cut_lists, supplies, parts),
    ensures
        indices_in_range(grouped(cut_lists), supplies, parts),
{
    lemma_grouped_patterns(cut_lists);
    let groups = grouped(cut_lists);
    assert forall|j: int| 0 <= j < groups.len() implies {
        &&& (#[trigger] groups[j]).supply_index < supplies
        &&& forall|k: int|
            0 <= k < groups[j].part_indices.len() ==> #[trigger] groups[j].part_indices[k] < parts
    } by {
        let i = choose|i: int|
            0 <= i < cut_lists.len() && (#[trigger] cut_lists[i]).key() == groups[j].key();
        assert(cut_lists[i].supply_index == groups[j].supply_index);
        assert(cut_lists[i].part_indices == groups[j].part_indices);
    }
}

/// Grouping leaves every part cut as often as it is wanted.
pub proof fn lemma_grouped_demand_met(parts: Seq<Part>, cut_lists: Seq<CutListView>)
    requires
        demand_met(parts, cut_lists),
    ensures
        demand_met(parts, grouped(cut_lists)),
{
    assert forall|p: usize| p < parts.len() implies #[trigger] units_cut(grouped(cut_lists), p)
        == parts[p as int].demand() by {
        lemma_grouped_units_cut(cut_lists, p);
        assert(units_cut(cut_lists, p) == parts[p as int].demand());
    }
}

/// Grouping leaves every pattern within the length of its piece.
pub proof fn lemma_grouped_within_capacity(
    supplies: Seq<Supply>,
    parts: Seq<Part>,
    blade_width: real,
    cut_lists: Seq<CutListView>,
)
    requires
        within_capacity(supplies, parts, blade_width, cut_lists),
    ensures
        within_capacity(supplies, parts, blade_width, grouped(cut_lists)),
{
    lemma_grouped_patterns(cut_lists);
    let groups = grouped(cut_lists);
    assert forall|j: int| 0 <= j < groups.len() implies pattern_length(
        parts,
        blade_width,
        (#[trigger] groups[j]).part_indices,
    ) <= supplies[groups[j].supply_index as int].length@ by {
        let i = choose|i: int|
            0 <= i < cut_lists.len() && (#[trigger] cut_lists[i]).key() == groups[j].key();
        assert(cut_lists[i].supply_index == groups[j].supply_index);
        assert(cut_lists[i].part_indices == groups[j].part_indices);
    }
}

/// Grouping leaves every supply within its limit.
pub proof fn lemma_grouped_within_stock(supplies: Seq<Supply>, cut_lists: Seq<CutListView>)
    requires
        within_stock(supplies, cut_lists),
    ensures
        within_stock(supplies, grouped(cut_lists)),
{
    assert forall|s: usize| s < supplies.len() implies (supplies[s as int].limit() matches Some(
        limit,
    ) ==> #[trigger] pieces_used(grouped(cut_lists), s) <= limit) by {
        lemma_grouped_pieces_used(cut_lists, s);
        assert(supplies[s as int].limit() matches Some(limit) ==> pieces_used(cut_lists, s)
            <= limit);
    }
}

/// Absorbing a cut list adds its pieces to the pieces of its pattern.
pub proof fn lemma_absorb_pattern_pieces(
    groups: Seq<CutListView>,
    cut_list: CutListView,
    key: (usize, Seq<usize>),
)
    ensures
        pattern_pieces(absorb(groups, cut_list), key) == pattern_pieces(groups, key) + if cut_list.key()
            == key {
            cut_list.quantity
        } else {
            0nat
        },
{
    lemma_index_of_pattern(groups, cut_list.key());
    match index_of_pattern(groups, cut_list.key()) {
        Some(j) => {
            lemma_pattern_pieces_update(groups, j, absorb(groups, cut_list)[j], key);
        },
        None => {
            lemma_pattern_pieces_push(groups, cut_list, key);
        },
    }
}

/// Grouping keeps the pieces of every pattern.
pub proof fn lemma_grouped_pattern_pieces(cut_lists: Seq<CutListView>, key: (usize, Seq<usize>))
    ensures
        pattern_pieces(grouped(cut_lists), key) == pattern_pieces(cut_lists, key),
    decreases cut_lists.len(),
{
    if cut_lists.len() > 0 {
        lemma_grouped_pattern_pieces(cut_lists.drop_last(), key);
        lemma_absorb_pattern_pieces(grouped(cut_lists.drop_last()), cut_lists.last(), key);
    }
}

/// Among cut lists of distinct patterns each holds all pieces of its
/// pattern.
pub proof fn lemma_distinct_pattern_pieces(cut_lists: Seq<CutListView>, j: int)
    requires
        distinct_patterns(cut_lists),
        0 <= j < cut_lists.len(),
    ensures
        pattern_pieces(cut_lists, cut_lists[j].key()) == cut_lists[j].quantity,
    decreases cut_lists.len(),
{
    let init = cut_lists.drop_last();
    let key = cut_lists[j].key();
    if j == cut_lists.len() - 1 {
        assert forall|k: int| 0 <= k < init.len() implies (#[trigger] init[k]).key() != key by {
            assert(init[k] == cut_lists[k]);
            assert(cut_lists[k].key() != cut_lists[j].key());
        }
        lemma_pattern_pieces_absent(init, key);
    } else {
        assert(distinct_patterns(init)) by {
            assert forall|a: int, b: int| 0 <= a < b < init.len() implies (#[trigger] init[a]).key()
                != (#[trigger] init[b]).key() by {
                assert(init[a] == cut_lists[a]);
                assert(init[b] == cut_lists[b]);
            }
        }
        assert(init[j] == cut_lists[j]);
        assert(cut_lists[j].key() != cut_lists[cut_lists.len() - 1].key());
        lemma_distinct_pattern_pieces(init, j);
    }
}

/// Grouping keeps the pieces of every pattern countable, and so those of
/// every supply.
pub proof fn lemma_grouped_countable(cut_lists: Seq<CutListView>, supplies: nat)
    requires
        countable_by_supply(cut_lists, supplies),
    ensures
        countable_by_supply(grouped(cut_lists), supplies),
{
    assert forall|s: usize| s < supplies implies #[trigger] pieces_used(grouped(cut_lists), s)
        <= usize::MAX by {
        lemma_grouped_pieces_used(cut_lists, s);
        assert(pieces_used(cut_lists, s) <= usize::MAX);
    }
}

/// Whether two patterns hold the same parts in the same order.
fn same_parts(a: &Vec<usize>, b: &Vec<usize>) -> (r: bool)
    ensures
        r == (a@ == b@),
{
    if a.len() != b.len() {
        return false;
    }
    let mut i: usize = 0;
    while i < a.len()
        invariant
            i <= a@.len(),
            a@.len() == b@.len(),
            forall|k: int| 0 <= k < i ==> a@[k] == b@[k],
        decreases a@.len() - i,
    {
        if a[i] != b[i] {
            return false;
        }
        i += 1;
    }
    assert(a@ =~= b@);
    true
}

/// The index of the first group that has the pattern of `cut_list`.
fn find_group(groups: &Vec<CutList>, cut_list: &CutList) -> (r: Option<usize>)
    ensures
        match r {
            Some(j) => index_of_pattern(cut_list_views(groups@), cut_list@.key()) == Some(j as int),
            None => index_of_pattern(cut_list_views(groups@), cut_list@.key()) is None,
        },
{
    let ghost views = cut_list_views(groups@);
    let ghost key = cut_list@.key();
    let mut j: usize = 0;
    while j < groups.len()
        invariant
            j <= groups@.len(),
            views == cut_list_views(groups@),
            key == cut_list@.key(),
            forall|k: int| 0 <= k < j ==> (#[trigger] views[k]).key() != key,
        decreases groups@.len() - j,
    {
        if groups[j].supply_index == cut_list.supply_index && same_parts(
            &groups[j].part_indices,
            &cut_list.part_indices,
        ) {
            proof {
                assert(views[j as int].key() == key);
                assert(is_first_with_pattern(views, key, j as int));
                lemma_index_of_pattern(views, key);
                lemma_first_with_pattern_unique(
                    views,
                    key,
                    j as int,
                    index_of_pattern(views, key)->Some_0,
                );
            }
            return Some(j);
        }
        assert(views[j as int].key() != key);
        j += 1;
    }
    proof {
        lemma_index_of_pattern(views, key);
        if index_of_pattern(views, key) is Some {
            let j = index_of_pattern(views, key)->Some_0;
            assert(views[j].key() == key);
        }
    }
    None
}

/// Merges the cut lists that share a pattern: one cut list for each pattern,
/// in the order in which the patterns first occur, with the pieces of all
/// cut lists of that pattern.
pub fn group(cut_lists: &Vec<CutList>) -> (groups: Vec<CutList>)
    requires
        countable_by_pattern(cut_list_views(cut_lists@)),
    ensures
        cut_list_views(groups@) == grouped(cut_list_views(cut_lists@)),
{
    let ghost all = cut_list_views(cut_lists@);
    let mut groups: Vec<CutList> = Vec::new();
    let mut i: usize = 0;
    assert(cut_list_views(groups@) =~= grouped(all.take(0)));
    while i < cut_lists.len()
        invariant
            i <= cut_lists@.len(),
            all == cut_list_views(cut_lists@),
            countable_by_pattern(all),
            cut_list_views(groups@) == grouped(all.take(i as int)),
        decreases cut_lists@.len() - i,
    {
        let cut_list = &cut_lists[i];
        let ghost before = cut_list_views(groups@);
        proof {
            assert(all.take(i + 1).drop_last() =~= all.take(i as int));
            assert(all.take(i + 1).last() == cut_list@);
            lemma_index_of_pattern(before, cut_list@.key());
        }
        match find_group(&groups, cut_list) {
            Some(j) => {
                proof {
                    let key = cut_list@.key();
                    lemma_grouped_distinct(all.take(i as int));
                    lemma_distinct_pattern_pieces(before, j as int);
                    lemma_grouped_pattern_pieces(all.take(i as int), key);
                    lemma_pattern_pieces_prefix(all, i + 1, key);
                    assert(pattern_pieces(all, key) <= usize::MAX);
                }
                groups[j].quantity += cut_list.quantity;
                assert(cut_list_views(groups@) =~= absorb(before, cut_list@));
            },
            None => {
                groups.push(cut_list.clone());
                assert(cut_list_views(groups@) =~= absorb(before, cut_list@));
            },
        }
        i += 1;
    }
    assert(all.take(cut_lists@.len() as int) =~= all);
    groups
}

} // verus!
