//! The vocabulary of a cutting problem: materials, supplies, parts, cut
//! lists, and what it means for cut lists to answer a problem.

use crate::rational::Rational;
use vstd::prelude::*;

verus! {

/// Whether a material is cut along one axis or two.
#[derive(Clone, Copy, Debug, PartialEq, Eq, Hash, Structural)]
pub enum Dimension {
    OneD,
    TwoD,
}

impl Dimension {
    /// The dimension with the given number in a list of choices: one, or
    /// two.
    pub open spec fn from_spec(selection: u32) -> Dimension {
        if selection == 0 {
            Dimension::OneD
        } else {
            Dimension::TwoD
        }
    }

    /// The dimension with the given number in a list of choices, which is
    /// below two: one, or two.
    pub fn from(selection: u32) -> (r: Self)
        requires
            selection < 2,
        ensures
            r == Dimension::from_spec(selection),
    {
        match selection {
            0 => Self::OneD,
            _ => Self::TwoD,
        }
    }
}

/// A class of stock. Supplies and parts of different materials never meet.
#[derive(Debug, PartialEq, Eq, Hash)]
pub struct Material {
    pub name: String,
    pub dimension: Dimension,
}

impl Material {
    /// What tells one material from another: its name and its dimension.
    pub open spec fn key(&self) -> (Seq<char>, Dimension) {
        (self.name@, self.dimension)
    }

    /// Whether both stand for the same material.
    pub fn same_as(&self, other: &Material) -> (r: bool)
        ensures
            r == (self.key() == other.key()),
    {
        self.name == other.name && self.dimension == other.dimension
    }
}

impl Clone for Material {
    fn clone(&self) -> (r: Self)
        ensures
            r == *self,
    {
        Material { name: self.name.clone(), dimension: self.dimension }
    }
}

/// A purchasable or on-hand piece of stock.
#[derive(Debug)]
pub struct Supply {
    pub name: String,
    pub length: Rational,
    /// Zero for stock that is on hand.
    pub price: Rational,
    /// How many pieces can be had; `-1` for any number.
    pub max_quantity: i64,
}

impl Clone for Supply {
    fn clone(&self) -> (r: Self)
        ensures
            r == *self,
    {
        Supply {
            name: self.name.clone(),
            length: self.length,
            price: self.price,
            max_quantity: self.max_quantity,
        }
    }
}

/// A demanded part.
#[derive(Debug)]
pub struct Part {
    pub name: String,
    pub length: Rational,
    /// How many are wanted; a negative number counts as none.
    pub quantity: i64,
}

impl Clone for Part {
    fn clone(&self) -> (r: Self)
        ensures
            r == *self,
    {
        Part { name: self.name.clone(), length: self.length, quantity: self.quantity }
    }
}

impl Part {
    /// The number of units to cut.
    pub open spec fn demand(&self) -> nat {
        if self.quantity > 0 {
            self.quantity as nat
        } else {
            0
        }
    }
}

/// Everything about one material: its supplies, its parts, and the width
/// that the blade takes away between two cuts.
#[derive(Debug)]
pub struct SubProblem {
    pub supplies: Vec<Supply>,
    pub parts: Vec<Part>,
    pub blade_width: Rational,
}

/// One cutting pattern: the parts cut, in order, from one piece of a supply,
/// and the number of pieces cut that way.
#[derive(Debug, PartialEq, Eq)]
pub struct CutList {
    pub supply_index: usize,
    pub part_indices: Vec<usize>,
    pub quantity: usize,
}

/// A cut list as a mathematical value.
pub struct CutListView {
    pub supply_index: usize,
    pub part_indices: Seq<usize>,
    pub quantity: nat,
}

impl CutListView {
    /// The pattern: which supply is cut, and into which parts in which order.
    pub open spec fn key(&self) -> (usize, Seq<usize>) {
        (self.supply_index, self.part_indices)
    }
}

impl View for CutList {
    type V = CutListView;

    open spec fn view(&self) -> CutListView {
        CutListView {
            supply_index: self.supply_index,
            part_indices: self.part_indices@,
            quantity: self.quantity as nat,
        }
    }
}

impl Clone for CutList {
    fn clone(&self) -> (r: Self)
        ensures
            r@ == self@,
    {
        let mut part_indices: Vec<usize> = Vec::new();
        let mut i: usize = 0;
        while i < self.part_indices.len()
            invariant
                i <= self.part_indices@.len(),
                part_indices@ == self.part_indices@.take(i as int),
            decreases self.part_indices@.len() - i,
        {
            part_indices.push(self.part_indices[i]);
            assert(self.part_indices@.take(i + 1) =~= self.part_indices@.take(i as int).push(
                self.part_indices@[i as int],
            ));
            i += 1;
        }
        assert(self.part_indices@.take(self.part_indices@.len() as int) =~= self.part_indices@);
        CutList { supply_index: self.supply_index, part_indices, quantity: self.quantity }
    }
}

/// The views of a sequence of cut lists.
pub open spec fn cut_list_views(cut_lists: Seq<CutList>) -> Seq<CutListView> {
    Seq::new(cut_lists.len(), |i: int| cut_lists[i]@)
}

/// The cut lists for one material, with the supplies and parts they refer to.
#[derive(Debug)]
pub struct SubSolution {
    pub cut_lists: Vec<CutList>,
    pub supplies: Vec<Supply>,
    pub parts: Vec<Part>,
}

/// A copy of some supplies.
fn clone_supplies(supplies: &Vec<Supply>) -> (r: Vec<Supply>)
    ensures
        r@ == supplies@,
{
    let mut copy: Vec<Supply> = Vec::new();
    let mut i: usize = 0;
    while i < supplies.len()
        invariant
            i <= supplies@.len(),
            copy@ == supplies@.take(i as int),
        decreases supplies@.len() - i,
    {
        copy.push(supplies[i].clone());
        assert(supplies@.take(i + 1) =~= supplies@.take(i as int).push(supplies@[i as int]));
        i += 1;
    }
    assert(supplies@.take(supplies@.len() as int) =~= supplies@);
    copy
}

/// A copy of some parts.
fn clone_parts(parts: &Vec<Part>) -> (r: Vec<Part>)
    ensures
        r@ == parts@,
{
    let mut copy: Vec<Part> = Vec::new();
    let mut i: usize = 0;
    while i < parts.len()
        invariant
            i <= parts@.len(),
            copy@ == parts@.take(i as int),
        decreases parts@.len() - i,
    {
        copy.push(parts[i].clone());
        assert(parts@.take(i + 1) =~= parts@.take(i as int).push(parts@[i as int]));
        i += 1;
    }
    assert(parts@.take(parts@.len() as int) =~= parts@);
    copy
}

impl Clone for SubProblem {
    fn clone(&self) -> (r: Self)
        ensures
            r.supplies@ == self.supplies@,
            r.parts@ == self.parts@,
            r.blade_width == self.blade_width,
    {
        SubProblem {
            supplies: clone_supplies(&self.supplies),
            parts: clone_parts(&self.parts),
            blade_width: self.blade_width,
        }
    }
}

impl Clone for SubSolution {
    fn clone(&self) -> (r: Self)
        ensures
            r.same_as(*self),
    {
        let mut cut_lists: Vec<CutList> = Vec::new();
        let mut i: usize = 0;
        while i < self.cut_lists.len()
            invariant
                i <= self.cut_lists@.len(),
                cut_lists@.len() == i,
                forall|k: int| 0 <= k < i ==> (#[trigger] cut_lists@[k])@ == self.cut_lists@[k]@,
            decreases self.cut_lists@.len() - i,
        {
            cut_lists.push(self.cut_lists[i].clone());
            i += 1;
        }
        assert(cut_list_views(cut_lists@) =~= cut_list_views(self.cut_lists@));
        SubSolution {
            cut_lists,
            supplies: clone_supplies(&self.supplies),
            parts: clone_parts(&self.parts),
        }
    }
}

/// How often `part` occurs in a pattern.
pub open spec fn occurrences(pattern: Seq<usize>, part: usize) -> nat
    decreases pattern.len(),
{
    if pattern.len() == 0 {
        0
    } else {
        occurrences(pattern.drop_last(), part) + if pattern.last() == part {
            1nat
        } else {
            0nat
        }
    }
}

/// The number of units of `part` that the cut lists yield: its occurrences
/// in each pattern, times the number of pieces cut by that pattern.
pub open spec fn units_cut(cut_lists: Seq<CutListView>, part: usize) -> nat
    decreases cut_lists.len(),
{
    if cut_lists.len() == 0 {
        0
    } else {
        units_cut(cut_lists.drop_last(), part) + occurrences(cut_lists.last().part_indices, part)
            * cut_lists.last().quantity
    }
}

/// The number of pieces of `supply` that the cut lists consume.
pub open spec fn pieces_used(cut_lists: Seq<CutListView>, supply: usize) -> nat
    decreases cut_lists.len(),
{
    if cut_lists.len() == 0 {
        0
    } else {
        pieces_used(cut_lists.drop_last(), supply) + if cut_lists.last().supply_index == supply {
            cut_lists.last().quantity
        } else {
            0nat
        }
    }
}

/// The number of pieces that the cut lists of the pattern `key` consume.
pub open spec fn pattern_pieces(cut_lists: Seq<CutListView>, key: (usize, Seq<usize>)) -> nat
    decreases cut_lists.len(),
{
    if cut_lists.len() == 0 {
        0
    } else {
        pattern_pieces(cut_lists.drop_last(), key) + if cut_lists.last().key() == key {
            cut_lists.last().quantity
        } else {
            0nat
        }
    }
}

/// The pieces of each pattern can be counted in a `usize`.
pub open spec fn countable_by_pattern(cut_lists: Seq<CutListView>) -> bool {
    forall|key: (usize, Seq<usize>)| #[trigger] pattern_pieces(cut_lists, key) <= usize::MAX
}

/// The pieces used of each supply can be counted in a `usize`.
pub open spec fn countable_by_supply(cut_lists: Seq<CutListView>, supplies: nat) -> bool {
    forall|s: usize| s < supplies ==> #[trigger] pieces_used(cut_lists, s) <= usize::MAX
}

/// Every cut list names a supply that exists.
pub open spec fn supplies_in_range(cut_lists: Seq<CutListView>, supplies: nat) -> bool {
    forall|j: int| 0 <= j < cut_lists.len() ==> (#[trigger] cut_lists[j]).supply_index < supplies
}

/// The number of pieces that the cut lists consume of all supplies together.
pub open spec fn total_pieces(cut_lists: Seq<CutListView>) -> nat
    decreases cut_lists.len(),
{
    if cut_lists.len() == 0 {
        0
    } else {
        total_pieces(cut_lists.drop_last()) + cut_lists.last().quantity
    }
}

/// The length that a pattern takes if the blade cuts behind every part, the
/// last one too.
pub open spec fn cut_cost(parts: Seq<Part>, blade_width: real, pattern: Seq<usize>) -> real
    decreases pattern.len(),
{
    if pattern.len() == 0 {
        0real
    } else {
        cut_cost(parts, blade_width, pattern.drop_last()) + parts[pattern.last() as int].length@
            + blade_width
    }
}

/// The length that a pattern takes from its piece: the parts, and the blade
/// width between each two of them.
pub open spec fn pattern_length(parts: Seq<Part>, blade_width: real, pattern: Seq<usize>) -> real {
    if pattern.len() == 0 {
        0real
    } else {
        cut_cost(parts, blade_width, pattern) - blade_width
    }
}

/// Every cut list names a supply and parts that exist.
pub open spec fn indices_in_range(
    cut_lists: Seq<CutListView>,
    supplies: nat,
    parts: nat,
) -> bool {
    forall|j: int|
        0 <= j < cut_lists.len() ==> {
            &&& (#[trigger] cut_lists[j]).supply_index < supplies
            &&& forall|k: int|
                0 <= k < cut_lists[j].part_indices.len() ==> #[trigger] cut_lists[j].part_indices[k]
                    < parts
        }
}

/// Every part is cut exactly as often as it is wanted.
pub open spec fn demand_met(parts: Seq<Part>, cut_lists: Seq<CutListView>) -> bool {
    forall|p: usize| p < parts.len() ==> #[trigger] units_cut(cut_lists, p) == parts[p as int].demand()
}

/// No pattern is longer than the piece it is cut from.
pub open spec fn within_capacity(
    supplies: Seq<Supply>,
    parts: Seq<Part>,
    blade_width: real,
    cut_lists: Seq<CutListView>,
) -> bool {
    forall|j: int|
        0 <= j < cut_lists.len() ==> pattern_length(
            parts,
            blade_width,
            (#[trigger] cut_lists[j]).part_indices,
        ) <= supplies[cut_lists[j].supply_index as int].length@
}

impl Supply {
    /// The number of pieces that can be had at most, where there is a limit:
    /// the quantity given, and none for a quantity below zero that is not
    /// `-1`.
    pub open spec fn limit(&self) -> Option<nat> {
        if self.max_quantity == -1 {
            None
        } else if self.max_quantity > 0 {
            Some(self.max_quantity as nat)
        } else {
            Some(0)
        }
    }
}

/// No supply with a limit is used for more pieces than the limit allows.
pub open spec fn within_stock(supplies: Seq<Supply>, cut_lists: Seq<CutListView>) -> bool {
    forall|s: usize|
        s < supplies.len() ==> (supplies[s as int].limit() matches Some(limit)
            ==> #[trigger] pieces_used(cut_lists, s) <= limit)
}

/// One more cut list adds its units to the units cut.
pub proof fn lemma_units_cut_push(cut_lists: Seq<CutListView>, added: CutListView, part: usize)
    ensures
        units_cut(cut_lists.push(added), part) == units_cut(cut_lists, part) + occurrences(
            added.part_indices,
            part,
        ) * added.quantity,
{
    assert(cut_lists.push(added).drop_last() =~= cut_lists);
}

/// Replacing a cut list replaces its units among the units cut.
pub proof fn lemma_units_cut_update(
    cut_lists: Seq<CutListView>,
    j: int,
    replacement: CutListView,
    part: usize,
)
    requires
        0 <= j < cut_lists.len(),
    ensures
        units_cut(cut_lists.update(j, replacement), part) + occurrences(
            cut_lists[j].part_indices,
            part,
        ) * cut_lists[j].quantity == units_cut(cut_lists, part) + occurrences(
            replacement.part_indices,
            part,
        ) * replacement.quantity,
    decreases cut_lists.len(),
{
    let updated = cut_lists.update(j, replacement);
    if j == cut_lists.len() - 1 {
        assert(updated.drop_last() =~= cut_lists.drop_last());
    } else {
        assert(updated.drop_last() =~= cut_lists.drop_last().update(j, replacement));
        lemma_units_cut_update(cut_lists.drop_last(), j, replacement, part);
    }
}

/// One more cut list adds its pieces to the pieces used of its supply.
pub proof fn lemma_pieces_used_push(cut_lists: Seq<CutListView>, added: CutListView, supply: usize)
    ensures
        pieces_used(cut_lists.push(added), supply) == pieces_used(cut_lists, supply) + if added.supply_index
            == supply {
            added.quantity
        } else {
            0nat
        },
{
    assert(cut_lists.push(added).drop_last() =~= cut_lists);
}

/// Replacing a cut list by one of the same supply replaces its pieces among
/// the pieces used.
pub proof fn lemma_pieces_used_update(
    cut_lists: Seq<CutListView>,
    j: int,
    replacement: CutListView,
    supply: usize,
)
    requires
        0 <= j < cut_lists.len(),
        replacement.supply_index == cut_lists[j].supply_index,
    ensures
        pieces_used(cut_lists.update(j, replacement), supply) + (if cut_lists[j].supply_index
            == supply {
            cut_lists[j].quantity
        } else {
            0nat
        }) == pieces_used(cut_lists, supply) + (if cut_lists[j].supply_index == supply {
            replacement.quantity
        } else {
            0nat
        }),
    decreases cut_lists.len(),
{
    let updated = cut_lists.update(j, replacement);
    if j == cut_lists.len() - 1 {
        assert(updated.drop_last() =~= cut_lists.drop_last());
    } else {
        assert(updated.drop_last() =~= cut_lists.drop_last().update(j, replacement));
        lemma_pieces_used_update(cut_lists.drop_last(), j, replacement, supply);
    }
}

/// One more cut list adds its pieces to the total.
pub proof fn lemma_total_pieces_push(cut_lists: Seq<CutListView>, added: CutListView)
    ensures
        total_pieces(cut_lists.push(added)) == total_pieces(cut_lists) + added.quantity,
{
    assert(cut_lists.push(added).drop_last() =~= cut_lists);
}

/// Replacing a cut list replaces its pieces in the total.
pub proof fn lemma_total_pieces_update(cut_lists: Seq<CutListView>, j: int, replacement: CutListView)
    requires
        0 <= j < cut_lists.len(),
    ensures
        total_pieces(cut_lists.update(j, replacement)) + cut_lists[j].quantity == total_pieces(
            cut_lists,
        ) + replacement.quantity,
    decreases cut_lists.len(),
{
    let updated = cut_lists.update(j, replacement);
    if j == cut_lists.len() - 1 {
        assert(updated.drop_last() =~= cut_lists.drop_last());
    } else {
        assert(updated.drop_last() =~= cut_lists.drop_last().update(j, replacement));
        lemma_total_pieces_update(cut_lists.drop_last(), j, replacement);
    }
}

/// No supply is used for more pieces than there are in total.
pub proof fn lemma_pieces_used_bounded(cut_lists: Seq<CutListView>, supply: usize)
    ensures
        pieces_used(cut_lists, supply) <= total_pieces(cut_lists),
    decreases cut_lists.len(),
{
    if cut_lists.len() > 0 {
        lemma_pieces_used_bounded(cut_lists.drop_last(), supply);
    }
}

/// The first cut lists use no more pieces of a supply than all of them.
pub proof fn lemma_pieces_used_prefix(cut_lists: Seq<CutListView>, n: int, supply: usize)
    requires
        0 <= n <= cut_lists.len(),
    ensures
        pieces_used(cut_lists.take(n), supply) <= pieces_used(cut_lists, supply),
    decreases cut_lists.len(),
{
    if n == cut_lists.len() {
        assert(cut_lists.take(n) =~= cut_lists);
    } else {
        assert(cut_lists.drop_last().take(n) =~= cut_lists.take(n));
        lemma_pieces_used_prefix(cut_lists.drop_last(), n, supply);
    }
}

/// The first cut lists have no more pieces of a pattern than all of them.
pub proof fn lemma_pattern_pieces_prefix(
    cut_lists: Seq<CutListView>,
    n: int,
    key: (usize, Seq<usize>),
)
    requires
        0 <= n <= cut_lists.len(),
    ensures
        pattern_pieces(cut_lists.take(n), key) <= pattern_pieces(cut_lists, key),
    decreases cut_lists.len(),
{
    if n == cut_lists.len() {
        assert(cut_lists.take(n) =~= cut_lists);
    } else {
        assert(cut_lists.drop_last().take(n) =~= cut_lists.take(n));
        lemma_pattern_pieces_prefix(cut_lists.drop_last(), n, key);
    }
}

/// One more cut list adds its pieces to the pieces of its pattern.
pub proof fn lemma_pattern_pieces_push(
    cut_lists: Seq<CutListView>,
    added: CutListView,
    key: (usize, Seq<usize>),
)
    ensures
        pattern_pieces(cut_lists.push(added), key) == pattern_pieces(cut_lists, key) + if added.key()
            == key {
            added.quantity
        } else {
            0nat
        },
{
    assert(cut_lists.push(added).drop_last() =~= cut_lists);
}

/// Replacing a cut list by one of the same pattern replaces its pieces among
/// the pieces of the pattern.
pub proof fn lemma_pattern_pieces_update(
    cut_lists: Seq<CutListView>,
    j: int,
    replacement: CutListView,
    key: (usize, Seq<usize>),
)
    requires
        0 <= j < cut_lists.len(),
        replacement.key() == cut_lists[j].key(),
    ensures
        pattern_pieces(cut_lists.update(j, replacement), key) + (if cut_lists[j].key() == key {
            cut_lists[j].quantity
        } else {
            0nat
        }) == pattern_pieces(cut_lists, key) + (if cut_lists[j].key() == key {
            replacement.quantity
        } else {
            0nat
        }),
    decreases cut_lists.len(),
{
    let updated = cut_lists.update(j, replacement);
    if j == cut_lists.len() - 1 {
        assert(updated.drop_last() =~= cut_lists.drop_last());
    } else {
        assert(updated.drop_last() =~= cut_lists.drop_last().update(j, replacement));
        lemma_pattern_pieces_update(cut_lists.drop_last(), j, replacement, key);
    }
}

/// A pattern that no cut list has has no pieces.
pub proof fn lemma_pattern_pieces_absent(cut_lists: Seq<CutListView>, key: (usize, Seq<usize>))
    requires
        forall|k: int| 0 <= k < cut_lists.len() ==> (#[trigger] cut_lists[k]).key() != key,
    ensures
        pattern_pieces(cut_lists, key) == 0,
    decreases cut_lists.len(),
{
    if cut_lists.len() > 0 {
        let init = cut_lists.drop_last();
        assert(cut_lists[cut_lists.len() - 1].key() != key);
        assert forall|k: int| 0 <= k < init.len() implies (#[trigger] init[k]).key() != key by {
            assert(init[k] == cut_lists[k]);
        }
        lemma_pattern_pieces_absent(init, key);
    }
}

/// A pattern has no more pieces than are used of its supply.
pub proof fn lemma_pattern_pieces_bounded(cut_lists: Seq<CutListView>, key: (usize, Seq<usize>))
    ensures
        pattern_pieces(cut_lists, key) <= pieces_used(cut_lists, key.0),
    decreases cut_lists.len(),
{
    if cut_lists.len() > 0 {
        lemma_pattern_pieces_bounded(cut_lists.drop_last(), key);
    }
}

/// Of a supply that no cut list names no piece is used.
pub proof fn lemma_pieces_used_absent(cut_lists: Seq<CutListView>, supply: usize)
    requires
        forall|k: int| 0 <= k < cut_lists.len() ==> (#[trigger] cut_lists[k]).supply_index != supply,
    ensures
        pieces_used(cut_lists, supply) == 0,
    decreases cut_lists.len(),
{
    if cut_lists.len() > 0 {
        let init = cut_lists.drop_last();
        assert(cut_lists[cut_lists.len() - 1].supply_index != supply);
        assert forall|k: int| 0 <= k < init.len() implies (#[trigger] init[k]).supply_index
            != supply by {
            assert(init[k] == cut_lists[k]);
        }
        lemma_pieces_used_absent(init, supply);
    }
}

/// Where the pieces used of each supply can be counted, and every cut list
/// names a supply that exists, the pieces of each pattern can be counted.
pub proof fn lemma_countable(cut_lists: Seq<CutListView>, supplies: nat)
    requires
        supplies_in_range(cut_lists, supplies),
        countable_by_supply(cut_lists, supplies),
    ensures
        countable_by_pattern(cut_lists),
{
    assert forall|key: (usize, Seq<usize>)| #[trigger]
        pattern_pieces(cut_lists, key) <= usize::MAX by {
        lemma_pattern_pieces_bounded(cut_lists, key);
        if key.0 >= supplies {
            lemma_pieces_used_absent(cut_lists, key.0);
        }
    }
}

/// One more part in a pattern adds its length and one blade width to the
/// cost of the pattern.
pub proof fn lemma_cut_cost_push(
    parts: Seq<Part>,
    blade_width: real,
    pattern: Seq<usize>,
    part: usize,
)
    ensures
        cut_cost(parts, blade_width, pattern.push(part)) == cut_cost(parts, blade_width, pattern)
            + parts[part as int].length@ + blade_width,
{
    assert(pattern.push(part).drop_last() =~= pattern);
}

/// One more part in a pattern is one more occurrence of that part, and of
/// no other.
pub proof fn lemma_occurrences_push(pattern: Seq<usize>, added: usize, part: usize)
    ensures
        occurrences(pattern.push(added), part) == occurrences(pattern, part) + if added == part {
            1nat
        } else {
            0nat
        },
{
    assert(pattern.push(added).drop_last() =~= pattern);
}

/// No two entries are for the same material.
pub open spec fn distinct_materials<V>(entries: Seq<(Material, V)>) -> bool {
    forall|i: int, j: int|
        0 <= i < j < entries.len() ==> (#[trigger] entries[i]).0.key() != (#[trigger] entries[j]).0.key()
}

/// Where `material` stands among `entries`, if anywhere.
pub open spec fn position_of<V>(entries: Seq<(Material, V)>, material: Material) -> Option<int> {
    if exists|i: int| 0 <= i < entries.len() && (#[trigger] entries[i]).0.key() == material.key() {
        Some(
            choose|i: int| 0 <= i < entries.len() && (#[trigger] entries[i]).0.key() == material.key(),
        )
    } else {
        None
    }
}

/// `entries` after a value is set for a material: in the place of the old
/// value for that material, else behind the others.
pub open spec fn inserted<V>(entries: Seq<(Material, V)>, material: Material, value: V) -> Seq<
    (Material, V),
> {
    match position_of(entries, material) {
        Some(i) => entries.update(i, (entries[i].0, value)),
        None => entries.push((material, value)),
    }
}

/// What is left of `entries` when they are inserted one after the other: for
/// each material its last value, in the place where the material first
/// stands.
pub open spec fn collected<V>(entries: Seq<(Material, V)>) -> Seq<(Material, V)>
    decreases entries.len(),
{
    if entries.len() == 0 {
        Seq::empty()
    } else {
        inserted(collected(entries.drop_last()), entries.last().0, entries.last().1)
    }
}

/// Entries of distinct materials are left as they are when collected.
pub proof fn lemma_collected_of_distinct<V>(entries: Seq<(Material, V)>)
    requires
        distinct_materials(entries),
    ensures
        collected(entries) == entries,
    decreases entries.len(),
{
    if entries.len() > 0 {
        let init = entries.drop_last();
        assert(distinct_materials(init)) by {
            assert forall|i: int, j: int| 0 <= i < j < init.len() implies (#[trigger] init[i]).0.key()
                != (#[trigger] init[j]).0.key() by {
                assert(init[i] == entries[i]);
                assert(init[j] == entries[j]);
            }
        }
        lemma_collected_of_distinct(init);
        if position_of(init, entries.last().0) is Some {
            let i = position_of(init, entries.last().0)->Some_0;
            assert(init[i] == entries[i]);
            assert(entries[i].0.key() != entries[entries.len() - 1].0.key());
        }
        assert(init.push(entries.last()) =~= entries);
    }
}

/// One value per material, kept in the order in which the materials were
/// first inserted.
#[derive(Debug)]
pub struct MaterialMap<V> {
    entries: Vec<(Material, V)>,
}

/// What is to be solved: one sub-problem per material.
pub type Problem = MaterialMap<SubProblem>;

/// What was solved: one sub-solution per material.
pub type Solution = MaterialMap<SubSolution>;

impl<V> View for MaterialMap<V> {
    type V = Seq<(Material, V)>;

    closed spec fn view(&self) -> Seq<(Material, V)> {
        self.entries@
    }
}

impl<V: Clone> Clone for MaterialMap<V> {
    fn clone(&self) -> (r: Self)
        ensures
            r@.len() == self@.len(),
            forall|i: int|
                0 <= i < self@.len() ==> (#[trigger] r@[i]).0 == self@[i].0 && cloned(
                    self@[i].1,
                    r@[i].1,
                ),
    {
        proof {
            use_type_invariant(self);
        }
        let mut entries: Vec<(Material, V)> = Vec::new();
        let mut i: usize = 0;
        while i < self.entries.len()
            invariant
                i <= self.entries@.len(),
                entries@.len() == i,
                forall|k: int|
                    0 <= k < i ==> (#[trigger] entries@[k]).0 == self.entries@[k].0 && cloned(
                        self.entries@[k].1,
                        entries@[k].1,
                    ),
            decreases self.entries@.len() - i,
        {
            let material = self.entries[i].0.clone();
            let value = self.entries[i].1.clone();
            entries.push((material, value));
            i += 1;
        }
        assert(distinct_materials(entries@)) by {
            assert forall|a: int, b: int| 0 <= a < b < entries@.len() implies (
            #[trigger] entries@[a]).0.key() != (#[trigger] entries@[b]).0.key() by {
                assert(self.entries@[a].0.key() != self.entries@[b].0.key());
            }
        }
        MaterialMap { entries }
    }
}

impl<V> MaterialMap<V> {
    #[verifier::type_invariant]
    spec fn well_formed(&self) -> bool {
        distinct_materials(self.entries@)
    }

    /// A map without entries.
    pub fn new() -> (r: Self)
        ensures
            r@ == Seq::<(Material, V)>::empty(),
    {
        MaterialMap { entries: Vec::new() }
    }

    /// The map of `entries`, which are for distinct materials.
    pub fn from_distinct(entries: Vec<(Material, V)>) -> (r: Self)
        requires
            distinct_materials(entries@),
        ensures
            r@ == entries@,
    {
        MaterialMap { entries }
    }

    /// The map that inserting `entries` one after the other gives.
    pub fn from_entries(entries: Vec<(Material, V)>) -> (r: Self)
        ensures
            r@ == collected(entries@),
            distinct_materials(r@),
    {
        let ghost all = entries@;
        let mut rest = entries;
        let mut map: MaterialMap<V> = MaterialMap::new();
        let ghost mut done: int = 0;
        assert(all.take(0) =~= Seq::<(Material, V)>::empty());
        while rest.len() > 0
            invariant
                0 <= done <= all.len(),
                rest@ == all.skip(done),
                map@ == collected(all.take(done)),
                distinct_materials(map@),
            decreases rest@.len(),
        {
            let (material, value) = rest.remove(0);
            proof {
                assert(rest@ =~= all.skip(done + 1));
                assert(all.take(done + 1).drop_last() =~= all.take(done));
                assert(all.take(done + 1).last() == (material, value));
                done = done + 1;
            }
            map.insert(material, value);
        }
        assert(all.take(done) =~= all);
        map
    }

    /// The number of materials.
    pub fn len(&self) -> (r: usize)
        ensures
            r == self@.len(),
    {
        self.entries.len()
    }

    /// Whether there is no material.
    pub fn is_empty(&self) -> (r: bool)
        ensures
            r == (self@.len() == 0),
    {
        self.entries.len() == 0
    }

    /// The entries in order. No two are for the same material.
    pub fn entries(&self) -> (r: &Vec<(Material, V)>)
        ensures
            r@ == self@,
            distinct_materials(self@),
    {
        proof {
            use_type_invariant(self);
        }
        &self.entries
    }

    /// Gives up the entries in order. No two are for the same material.
    pub fn into_entries(self) -> (r: Vec<(Material, V)>)
        ensures
            r@ == self@,
            distinct_materials(self@),
    {
        proof {
            use_type_invariant(&self);
        }
        self.entries
    }

    /// The index of the entry for `material`.
    pub fn position(&self, material: &Material) -> (r: Option<usize>)
        ensures
            distinct_materials(self@),
            match r {
                Some(i) => position_of(self@, *material) == Some(i as int),
                None => position_of(self@, *material) is None,
            },
    {
        proof {
            use_type_invariant(self);
        }
        let mut i: usize = 0;
        while i < self.entries.len()
            invariant
                i <= self.entries@.len(),
                distinct_materials(self.entries@),
                forall|k: int| 0 <= k < i ==> (#[trigger] self.entries@[k]).0.key() != material.key(),
            decreases self.entries@.len() - i,
        {
            if self.entries[i].0.same_as(material) {
                return Some(i);
            }
            i += 1;
        }
        None
    }

    /// The value for `material`.
    pub fn get(&self, material: &Material) -> (r: Option<&V>)
        ensures
            match position_of(self@, *material) {
                Some(i) => 0 <= i < self@.len() && r == Some(&self@[i].1),
                None => r is None,
            },
    {
        match self.position(material) {
            Some(i) => Some(&self.entries[i].1),
            None => None,
        }
    }

    /// Sets the value for `material`. Where the material had a value, the
    /// entry keeps its place and its key, and the old value is returned;
    /// otherwise a new entry goes to the end.
    pub fn insert(&mut self, material: Material, value: V) -> (r: Option<V>)
        ensures
            distinct_materials(final(self)@),
            final(self)@ == inserted(old(self)@, material, value),
            match position_of(old(self)@, material) {
                Some(i) => 0 <= i < old(self)@.len() && r == Some(old(self)@[i].1),
                None => r is None,
            },
    {
        let found = self.position(&material);
        let mut taken: MaterialMap<V> = MaterialMap::new();
        core::mem::swap(self, &mut taken);
        let mut entries = taken.into_entries();
        let previous = match found {
            Some(i) => {
                let (key, previous) = entries.remove(i);
                entries.insert(i, (key, value));
                assert(entries@ == old(self)@.update(i as int, (old(self)@[i as int].0, value)));
                Some(previous)
            },
            None => {
                entries.push((material, value));
                None
            },
        };
        *self = MaterialMap { entries };
        previous
    }
}

impl SubSolution {
    /// The cut lists as mathematical values.
    pub open spec fn patterns(&self) -> Seq<CutListView> {
        cut_list_views(self.cut_lists@)
    }

    /// Whether both hold the same cut lists, supplies and parts.
    pub open spec fn same_as(&self, other: SubSolution) -> bool {
        &&& self.patterns() == other.patterns()
        &&& self.supplies@ == other.supplies@
        &&& self.parts@ == other.parts@
    }

    /// The cut lists name supplies and parts that exist, and the pieces they
    /// consume of each supply can be counted in a `usize`.
    pub open spec fn consistent(&self) -> bool {
        &&& indices_in_range(self.patterns(), self.supplies@.len(), self.parts@.len())
        &&& countable_by_supply(self.patterns(), self.supplies@.len())
    }
}

} // verus!
