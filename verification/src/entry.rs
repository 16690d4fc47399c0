//! From what a user has entered to a problem.

use crate::modeling::{
    distinct_materials, Dimension, Material, MaterialMap, Part, Problem, SubProblem, Supply,
};
use crate::rational::{
    decimal_from_text, fraction_from_text, lemma_ratio_sign, representable, value_of, Rational,
    Sign,
};
use crate::size::{convertible_of, meters_of, Size, SizeUnit};
use vstd::prelude::*;
use vstd::string::to_string_from_display_ensures;

verus! {

/// Whether one of `materials` has the given key.
pub open spec fn has_material(materials: Seq<Material>, key: (Seq<char>, Dimension)) -> bool {
    exists|i: int| 0 <= i < materials.len() && (#[trigger] materials[i]).key() == key
}

/// `materials`, and behind them the materials of `entries` that are not yet
/// among them, each once and in the order in which they first occur.
pub open spec fn noted<T>(materials: Seq<Material>, entries: Seq<(Material, T)>) -> Seq<Material>
    decreases entries.len(),
{
    if entries.len() == 0 {
        materials
    } else {
        let before = noted(materials, entries.drop_last());
        if has_material(before, entries.last().0.key()) {
            before
        } else {
            before.push(entries.last().0)
        }
    }
}

/// The values of those of `entries` that are for the material with the given
/// key, in their order.
pub open spec fn values_of<T>(entries: Seq<(Material, T)>, key: (Seq<char>, Dimension)) -> Seq<T>
    decreases entries.len(),
{
    if entries.len() == 0 {
        Seq::empty()
    } else {
        let before = values_of(entries.drop_last(), key);
        if entries.last().0.key() == key {
            before.push(entries.last().1)
        } else {
            before
        }
    }
}

/// Whether `problem` is the problem of the given supplies and parts: one
/// sub-problem for each material, in the order in which the materials first
/// occur among the supplies and then among the parts, with the supplies and
/// the parts of the material in their order, and with the given blade width.
pub open spec fn states(
    problem: Seq<(Material, SubProblem)>,
    supplies: Seq<(Material, Supply)>,
    parts: Seq<(Material, Part)>,
    blade_width: Rational,
) -> bool {
    let materials = noted(noted(Seq::empty(), supplies), parts);
    &&& problem.len() == materials.len()
    &&& forall|i: int|
        0 <= i < problem.len() ==> {
            &&& (#[trigger] problem[i]).0 == materials[i]
            &&& problem[i].1.supplies@ == values_of(supplies, materials[i].key())
            &&& problem[i].1.parts@ == values_of(parts, materials[i].key())
            &&& problem[i].1.blade_width == blade_width
        }
}

/// Where no entry is for a material, the material has no values.
proof fn lemma_values_of_absent<T>(entries: Seq<(Material, T)>, key: (Seq<char>, Dimension))
    requires
        forall|k: int| 0 <= k < entries.len() ==> (#[trigger] entries[k]).0.key() != key,
    ensures
        values_of(entries, key) == Seq::<T>::empty(),
    decreases entries.len(),
{
    if entries.len() > 0 {
        let init = entries.drop_last();
        assert(entries[entries.len() - 1].0.key() != key);
        assert forall|k: int| 0 <= k < init.len() implies (#[trigger] init[k]).0.key() != key by {
            assert(init[k] == entries[k]);
        }
        lemma_values_of_absent(init, key);
    }
}

/// Noting the materials of some entries keeps the materials that were there,
/// in their places, and has the material of each entry among its result.
proof fn lemma_noted<T>(materials: Seq<Material>, entries: Seq<(Material, T)>)
    ensures
        materials.len() <= noted(materials, entries).len(),
        forall|i: int| 0 <= i < materials.len() ==> noted(materials, entries)[i] == materials[i],
        forall|k: int|
            0 <= k < entries.len() ==> has_material(
                noted(materials, entries),
                (#[trigger] entries[k]).0.key(),
            ),
    decreases entries.len(),
{
    if entries.len() > 0 {
        let init = entries.drop_last();
        let before = noted(materials, init);
        let after = noted(materials, entries);
        lemma_noted(materials, init);
        assert forall|k: int| 0 <= k < entries.len() implies has_material(
            after,
            (#[trigger] entries[k]).0.key(),
        ) by {
            let key = entries[k].0.key();
            if k < init.len() {
                assert(init[k] == entries[k]);
                let i = choose|i: int| 0 <= i < before.len() && (#[trigger] before[i]).key() == key;
                assert(after[i].key() == key);
            } else if has_material(before, key) {
                let i = choose|i: int| 0 <= i < before.len() && (#[trigger] before[i]).key() == key;
                assert(after[i].key() == key);
            } else {
                assert(after[after.len() - 1].key() == key);
            }
        }
    }
}

/// A material that is not among those noted has no values among the entries
/// whose materials were noted, and was not among the materials before.
proof fn lemma_not_noted<T>(
    materials: Seq<Material>,
    entries: Seq<(Material, T)>,
    key: (Seq<char>, Dimension),
)
    requires
        !has_material(noted(materials, entries), key),
    ensures
        values_of(entries, key) == Seq::<T>::empty(),
        !has_material(materials, key),
{
    lemma_noted(materials, entries);
    lemma_values_of_absent(entries, key);
    if has_material(materials, key) {
        let i = choose|i: int| 0 <= i < materials.len() && (#[trigger] materials[i]).key() == key;
        assert(noted(materials, entries)[i].key() == key);
    }
}

/// The sub-problems while the supplies and parts are taken in: one for each
/// material noted, in that order and no material twice, with the supplies
/// and parts of the material among those taken in.
spec fn gathered(
    entries: Seq<(Material, SubProblem)>,
    supplies: Seq<(Material, Supply)>,
    parts: Seq<(Material, Part)>,
    blade_width: Rational,
) -> bool {
    &&& distinct_materials(entries)
    &&& states(entries, supplies, parts, blade_width)
}

/// The index of the sub-problem of a material, which is put behind the
/// others, without supplies and parts, where the material has none yet.
fn slot(
    entries: &mut Vec<(Material, SubProblem)>,
    material: Material,
    blade_width: Rational,
) -> (r: usize)
    requires
        distinct_materials(old(entries)@),
    ensures
        distinct_materials(final(entries)@),
        r < final(entries)@.len(),
        final(entries)@[r as int].0.key() == material.key(),
        if r < old(entries)@.len() {
            final(entries)@ == old(entries)@
        } else {
            &&& r == old(entries)@.len()
            &&& final(entries)@.len() == r + 1
            &&& final(entries)@.drop_last() == old(entries)@
            &&& final(entries)@[r as int].0 == material
            &&& final(entries)@[r as int].1.supplies@ == Seq::<Supply>::empty()
            &&& final(entries)@[r as int].1.parts@ == Seq::<Part>::empty()
            &&& final(entries)@[r as int].1.blade_width == blade_width
            &&& forall|k: int|
                0 <= k < r ==> (#[trigger] old(entries)@[k]).0.key() != material.key()
        },
{
    let mut i: usize = 0;
    while i < entries.len()
        invariant
            i <= entries@.len(),
            entries@ == old(entries)@,
            distinct_materials(entries@),
            forall|k: int| 0 <= k < i ==> (#[trigger] entries@[k]).0.key() != material.key(),
        decreases entries@.len() - i,
    {
        if entries[i].0.same_as(&material) {
            return i;
        }
        i += 1;
    }
    entries.push((material, SubProblem { supplies: Vec::new(), parts: Vec::new(), blade_width }));
    proof {
        assert(entries@.drop_last() =~= old(entries)@);
        assert forall|a: int, b: int| 0 <= a < b < entries@.len() implies (
        #[trigger] entries@[a]).0.key() != (#[trigger] entries@[b]).0.key() by {
            if b < i {
                assert(old(entries)@[a].0.key() != old(entries)@[b].0.key());
            } else {
                assert(old(entries)@[a].0.key() != material.key());
            }
        }
    }
    i
}

/// One more value for the material of a sub-problem: where the sub-problems
/// were those of the materials noted, they are again, with the value among
/// those of its material.
proof fn lemma_taken_in<T>(
    materials: Seq<Material>,
    seen: Seq<(Material, T)>,
    entry: (Material, T),
    before: Seq<(Material, SubProblem)>,
    after: Seq<(Material, SubProblem)>,
    r: int,
)
    requires
        before.len() == noted(materials, seen).len(),
        forall|i: int| 0 <= i < before.len() ==> (#[trigger] before[i]).0 == noted(materials, seen)[i],
        distinct_materials(after),
        0 <= r < after.len(),
        after[r].0.key() == entry.0.key(),
        after.len() == before.len() || (after.len() == before.len() + 1 && r == before.len()
            && after[r].0 == entry.0),
        forall|i: int| 0 <= i < before.len() ==> (#[trigger] after[i]).0 == before[i].0,
        r == before.len() ==> forall|k: int|
            0 <= k < r ==> (#[trigger] before[k]).0.key() != entry.0.key(),
    ensures
        after.len() == noted(materials, seen.push(entry)).len(),
        forall|i: int|
            0 <= i < after.len() ==> (#[trigger] after[i]).0 == noted(
                materials,
                seen.push(entry),
            )[i],
        forall|i: int|
            0 <= i < after.len() ==> values_of(seen.push(entry), (#[trigger] after[i]).0.key())
                == if i == r {
                values_of(seen, after[i].0.key()).push(entry.1)
            } else {
                values_of(seen, after[i].0.key())
            },
        r == before.len() ==> values_of(seen, entry.0.key()) == Seq::<T>::empty() && !has_material(
            materials,
            entry.0.key(),
        ),
{
    let next = seen.push(entry);
    let noted_before = noted(materials, seen);
    assert(next.drop_last() =~= seen);
    if r < before.len() {
        assert(before[r].0 == noted_before[r]);
        assert(has_material(noted_before, entry.0.key()));
    } else {
        if has_material(noted_before, entry.0.key()) {
            let i = choose|i: int|
                0 <= i < noted_before.len() && (#[trigger] noted_before[i]).key() == entry.0.key();
            assert(before[i].0 == noted_before[i]);
        }
        lemma_not_noted(materials, seen, entry.0.key());
    }
    assert forall|i: int| 0 <= i < after.len() implies values_of(
        next,
        (#[trigger] after[i]).0.key(),
    ) == if i == r {
        values_of(seen, after[i].0.key()).push(entry.1)
    } else {
        values_of(seen, after[i].0.key())
    } by {
        if i != r {
            if i < r {
                assert(after[i].0.key() != after[r].0.key());
            } else {
                assert(after[r].0.key() != after[i].0.key());
            }
        }
    }
}

/// The problem of the given supplies and parts: one sub-problem for each
/// material, in the order in which the materials first occur among the
/// supplies and then among the parts.
pub fn generate_problem(
    supplies: Vec<(Material, Supply)>,
    parts: Vec<(Material, Part)>,
    blade_width: Rational,
) -> (problem: Problem)
    ensures
        states(problem@, supplies@, parts@, blade_width),
{
    let mut entries: Vec<(Material, SubProblem)> = Vec::new();
    let ghost none = Seq::<(Material, Part)>::empty();
    let ghost nothing = Seq::<Material>::empty();
    let mut n: usize = 0;
    assert(supplies@.take(0) =~= Seq::<(Material, Supply)>::empty());
    while n < supplies.len()
        invariant
            n <= supplies@.len(),
            none == Seq::<(Material, Part)>::empty(),
            nothing == Seq::<Material>::empty(),
            gathered(entries@, supplies@.take(n as int), none, blade_width),
        decreases supplies@.len() - n,
    {
        let ghost seen = supplies@.take(n as int);
        let ghost before = entries@;
        let material = supplies[n].0.clone();
        let supply = supplies[n].1.clone();
        let i = slot(&mut entries, material, blade_width);
        let ghost found = entries@;
        entries[i].1.supplies.push(supply);
        proof {
            assert(supplies@.take(n + 1) =~= seen.push((material, supply)));
            let next = supplies@.take(n + 1);
            let grown = noted(nothing, next);
            assert(noted(nothing, seen) == noted(noted(nothing, seen), none));
            assert(grown == noted(grown, none));
            assert forall|k: int| 0 <= k < before.len() implies (#[trigger] found[k]).0
                == before[k].0 by {
                if i < before.len() {
                } else {
                    assert(found.drop_last()[k] == found[k]);
                }
            }
            lemma_taken_in(nothing, seen, (material, supply), before, found, i as int);
            assert forall|k: int| 0 <= k < entries@.len() implies {
                &&& (#[trigger] entries@[k]).0 == grown[k]
                &&& entries@[k].1.supplies@ == values_of(next, grown[k].key())
                &&& entries@[k].1.parts@ == values_of(none, grown[k].key())
                &&& entries@[k].1.blade_width == blade_width
            } by {
                assert(found[k].0 == grown[k]);
                if k < before.len() {
                    assert(found.len() > before.len() ==> found.drop_last()[k] == found[k]);
                    assert(found[k] == before[k]);
                }
            }
            assert(distinct_materials(entries@)) by {
                assert forall|a: int, b: int| 0 <= a < b < entries@.len() implies (
                #[trigger] entries@[a]).0.key() != (#[trigger] entries@[b]).0.key() by {
                    assert(found[a].0.key() != found[b].0.key());
                }
            }
        }
        n += 1;
    }
    assert(supplies@.take(supplies@.len() as int) =~= supplies@);
    let ghost noted_supplies = noted(nothing, supplies@);
    let mut m: usize = 0;
    assert(parts@.take(0) =~= Seq::<(Material, Part)>::empty());
    while m < parts.len()
        invariant
            m <= parts@.len(),
            nothing == Seq::<Material>::empty(),
            noted_supplies == noted(nothing, supplies@),
            gathered(entries@, supplies@, parts@.take(m as int), blade_width),
        decreases parts@.len() - m,
    {
        let ghost seen = parts@.take(m as int);
        let ghost before = entries@;
        let material = parts[m].0.clone();
        let part = parts[m].1.clone();
        let i = slot(&mut entries, material, blade_width);
        let ghost found = entries@;
        entries[i].1.parts.push(part);
        proof {
            assert(parts@.take(m + 1) =~= seen.push((material, part)));
            let next = parts@.take(m + 1);
            let grown = noted(noted_supplies, next);
            assert forall|k: int| 0 <= k < before.len() implies (#[trigger] found[k]).0
                == before[k].0 by {
                if i < before.len() {
                } else {
                    assert(found.drop_last()[k] == found[k]);
                }
            }
            lemma_taken_in(noted_supplies, seen, (material, part), before, found, i as int);
            if i == before.len() {
                lemma_not_noted(nothing, supplies@, material.key());
            }
            assert forall|k: int| 0 <= k < entries@.len() implies {
                &&& (#[trigger] entries@[k]).0 == grown[k]
                &&& entries@[k].1.supplies@ == values_of(supplies@, grown[k].key())
                &&& entries@[k].1.parts@ == values_of(next, grown[k].key())
                &&& entries@[k].1.blade_width == blade_width
            } by {
                assert(found[k].0 == grown[k]);
                if k < before.len() {
                    assert(found.len() > before.len() ==> found.drop_last()[k] == found[k]);
                    assert(found[k] == before[k]);
                }
            }
            assert(distinct_materials(entries@)) by {
                assert forall|a: int, b: int| 0 <= a < b < entries@.len() implies (
                #[trigger] entries@[a]).0.key() != (#[trigger] entries@[b]).0.key() by {
                    assert(found[a].0.key() != found[b].0.key());
                }
            }
        }
        m += 1;
    }
    assert(parts@.take(parts@.len() as int) =~= parts@);
    MaterialMap::from_distinct(entries)
}

/// What `str::trim` leaves of a text: the text without the white space at
/// its ends.
pub uninterp spec fn trimmed(text: Seq<char>) -> Seq<char>;

/// The number that decimal digits stand for.
pub open spec fn digits_value(digits: Seq<char>) -> int
    decreases digits.len(),
{
    if digits.len() == 0 {
        0
    } else {
        digits_value(digits.drop_last()) * 10 + (digits.last() as int - '0' as int)
    }
}

/// Whether a text is made of decimal digits, and of one at least.
pub open spec fn is_digits(text: Seq<char>) -> bool {
    text.len() > 0 && forall|i: int| 0 <= i < text.len() ==> '0' <= #[trigger] text[i] <= '9'
}

/// The number that a text stands for: decimal digits, with or without one
/// sign in front, for a number within `i64`.
pub open spec fn integer_from_text(text: Seq<char>) -> Option<i64> {
    let signed = text.len() > 0 && (text[0] == '+' || text[0] == '-');
    let digits = if signed {
        text.skip(1)
    } else {
        text
    };
    let value = if signed && text[0] == '-' {
        -digits_value(digits)
    } else {
        digits_value(digits)
    };
    if is_digits(digits) && i64::MIN <= value <= i64::MAX {
        Some(value as i64)
    } else {
        None
    }
}

/// Whether `part` is a stretch of `whole`: some of its characters, one
/// behind the other as in `whole`.
pub open spec fn stretch_of(part: Seq<char>, whole: Seq<char>) -> bool {
    exists|from: int, to: int|
        0 <= from <= to <= whole.len() && part == #[trigger] whole.subrange(from, to)
}

/// A text without the white space at its ends.
///
/// Trusted: calls `str::trim`, which returns a slice of the text.
#[verifier::external_body]
fn trim(text: &str) -> (r: &str)
    ensures
        r@ == trimmed(text@),
        stretch_of(r@, text@),
{
    text.trim()
}

/// The number that a text stands for.
///
/// Trusted: calls `str::parse::<i64>` and hands on the number read, `None`
/// where the call fails. The call reads decimal digits behind at most one
/// sign, and fails on an empty text, on any other character and on a number
/// beyond `i64`.
#[verifier::external_body]
fn integer_from_str(text: &str) -> (r: Option<i64>)
    ensures
        r == integer_from_text(text@),
{
    text.parse::<i64>().ok()
}

/// The number of characters of a text before its first space.
pub open spec fn word_len(text: Seq<char>) -> int
    decreases text.len(),
{
    if text.len() == 0 || text[0] == ' ' {
        0
    } else {
        1 + word_len(text.skip(1))
    }
}

/// The words of a text: what stands between its spaces, where anything does.
pub open spec fn words(text: Seq<char>) -> Seq<Seq<char>>
    decreases text.len(),
{
    if text.len() == 0 {
        Seq::empty()
    } else if text[0] == ' ' {
        words(text.skip(1))
    } else if 0 < word_len(text) <= text.len() {
        seq![text.take(word_len(text))] + words(text.skip(word_len(text)))
    } else {
        Seq::empty()
    }
}

proof fn lemma_word_len(text: Seq<char>)
    ensures
        0 <= word_len(text) <= text.len(),
        text.len() > 0 && text[0] != ' ' ==> word_len(text) > 0,
    decreases text.len(),
{
    if text.len() > 0 && text[0] != ' ' {
        lemma_word_len(text.skip(1));
    }
}

/// The views of some texts.
pub open spec fn views_of(texts: Seq<&str>) -> Seq<Seq<char>> {
    Seq::new(texts.len(), |i: int| texts[i]@)
}

/// The words of a text: what stands between its spaces, where anything does.
pub fn split_words(text: &str) -> (r: Vec<&str>)
    ensures
        views_of(r@) == words(text@),
{
    let mut found: Vec<&str> = Vec::new();
    let len = text.unicode_len();
    let mut i: usize = 0;
    assert(text@.skip(0) =~= text@);
    assert(views_of(found@) =~= Seq::<Seq<char>>::empty());
    while i < len
        invariant
            i <= len,
            len == text@.len(),
            words(text@) == views_of(found@) + words(text@.skip(i as int)),
        decreases len - i,
    {
        let ghost rest = text@.skip(i as int);
        if text.get_char(i) == ' ' {
            proof {
                assert(rest[0] == ' ');
                assert(rest.skip(1) =~= text@.skip(i + 1));
            }
            i += 1;
        } else {
            let start = i;
            let mut j: usize = i + 1;
            proof {
                assert(rest.skip(1) =~= text@.skip(i + 1));
                lemma_word_len(text@.skip(i + 1));
            }
            while j < len && text.get_char(j) != ' '
                invariant
                    start < j <= len,
                    len == text@.len(),
                    rest == text@.skip(start as int),
                    word_len(rest) == (j - start) + word_len(text@.skip(j as int)),
                decreases len - j,
            {
                proof {
                    assert(text@.skip(j as int).skip(1) =~= text@.skip(j + 1));
                }
                j += 1;
            }
            let word = text.substring_char(start, j);
            proof {
                lemma_word_len(rest);
                assert(word_len(text@.skip(j as int)) == 0);
                assert(word@ =~= rest.take(word_len(rest)));
                assert(rest.skip(word_len(rest)) =~= text@.skip(j as int));
                assert(views_of(found@.push(word)) =~= views_of(found@) + seq![word@]);
            }
            found.push(word);
            i = j;
        }
    }
    assert(words(text@.skip(len as int)) =~= Seq::<Seq<char>>::empty());
    found
}

/// The quantity that a number read stands for: the number, unless it is
/// missing or negative.
pub open spec fn quantity_of(number: Option<i64>) -> Result<i64, ()> {
    match number {
        Some(value) => if value >= 0 {
            Ok(value)
        } else {
            Err(())
        },
        None => Err(()),
    }
}

/// The quantity that a number read stands for: the number, unless it is
/// missing or negative.
pub fn quantity_from(number: Option<i64>) -> (r: Result<i64, ()>)
    ensures
        r == quantity_of(number),
{
    match number {
        Some(value) => if value >= 0 {
            Ok(value)
        } else {
            Err(())
        },
        None => Err(()),
    }
}

/// The quantity that a text stands for once the white space at its ends is
/// off: `-1`, which is to say any number, for an empty text that may be
/// empty; else the number in the text, which is not negative.
pub open spec fn quantity_from_text(text: Seq<char>, allow_empty: bool) -> Result<i64, ()> {
    if trimmed(text).len() > 0 {
        quantity_of(integer_from_text(trimmed(text)))
    } else if allow_empty {
        Ok(-1i64)
    } else {
        Err(())
    }
}

/// The quantity that a text stands for once the white space at its ends is
/// off: `-1`, which is to say any number, for an empty text that may be
/// empty; else the number in the text, which is not negative.
pub fn parse_quantity(text: &str, allow_empty: bool) -> (r: Result<i64, ()>)
    ensures
        stretch_of(trimmed(text@), text@),
        r == quantity_from_text(text@, allow_empty),
{
    let text = trim(text);
    if text.is_empty() && !allow_empty {
        Err(())
    } else if text.is_empty() {
        Ok(-1)
    } else {
        quantity_from(integer_from_str(text))
    }
}

/// The price that a number read stands for: its value, unless it is missing
/// or below zero.
pub open spec fn price_of(number: Option<(bool, u64, u64)>) -> Option<real> {
    match number {
        Some(plain) => if value_of(plain) >= 0real {
            Some(value_of(plain))
        } else {
            None
        },
        None => None,
    }
}

/// The price that a number read stands for: the number, unless it is missing
/// or below zero.
pub fn price_from(number: Option<Rational>) -> (r: Result<Rational, ()>)
    ensures
        match number {
            Some(value) => if value@ >= 0real {
                r == Ok::<Rational, ()>(value)
            } else {
                r is Err
            },
            None => r is Err,
        },
{
    match number {
        Some(value) => {
            let zero = Rational::zero();
            if zero.le(&value) {
                Ok(value)
            } else {
                Err(())
            }
        },
        None => Err(()),
    }
}

/// The price that a text stands for once the white space at its ends is
/// off: zero for an empty text that may be empty; else the decimal number in
/// the text, which is not below zero.
pub open spec fn price_from_text(text: Seq<char>, allow_empty: bool) -> Option<real> {
    if trimmed(text).len() > 0 {
        price_of(decimal_from_text(trimmed(text)))
    } else if allow_empty {
        Some(0real)
    } else {
        None
    }
}

/// The price that a text stands for once the white space at its ends is
/// off: zero for an empty text that may be empty; else the decimal number in
/// the text, which is not below zero.
pub fn parse_price(text: &str, allow_empty: bool) -> (r: Result<Rational, ()>)
    ensures
        stretch_of(trimmed(text@), text@),
        match r {
            Ok(price) => price_from_text(text@, allow_empty) == Some(price@) && price@ >= 0real,
            Err(_) => price_from_text(text@, allow_empty) is None,
        },
        r matches Ok(price) ==> trimmed(text@).len() > 0 ==> decimal_from_text(trimmed(text@))
            == Some(price.plain()),
{
    let text = trim(text);
    if text.is_empty() && !allow_empty {
        Err(())
    } else if text.is_empty() {
        Ok(Rational::zero())
    } else {
        let number = Rational::parse_decimal(text);
        proof {
            if number is Some {
                Rational::lemma_plain(number->Some_0);
            }
        }
        price_from(number)
    }
}

/// The sum of the fractions that the first `n` words stand for. `None` where
/// a word stands for no fraction or for one with the minus sign, and where
/// the sum up to a word is not representable.
pub open spec fn length_of(words: Seq<Seq<char>>, n: int) -> Option<real>
    decreases n,
{
    if n <= 0 {
        Some(0real)
    } else {
        match (length_of(words, n - 1), fraction_from_text(words[n - 1])) {
            (Some(total), Some(plain)) => if !plain.0 && representable(total + value_of(plain)) {
                Some(total + value_of(plain))
            } else {
                None
            },
            _ => None,
        }
    }
}

/// A total with one more word of a length added: the fraction read from the
/// word, unless it is missing or has the minus sign or the new total is not
/// representable.
pub fn add_word(total: Rational, number: Option<Rational>) -> (r: Result<Rational, ()>)
    ensures
        match number {
            Some(value) => if !value.plain().0 && representable(total@ + value@) {
                r matches Ok(sum) && sum@ == total@ + value@
            } else {
                r is Err
            },
            None => r is Err,
        },
        r matches Ok(sum) ==> sum@ >= total@,
{
    match number {
        Some(value) => {
            let (sign, numer, denom) = value.parts();
            proof {
                lemma_ratio_sign(numer, denom);
            }
            if sign == Sign::Minus {
                Err(())
            } else {
                match total.checked_add(&value) {
                    Some(sum) => Ok(sum),
                    None => Err(()),
                }
            }
        },
        None => Err(()),
    }
}

/// The length that a text stands for once the white space at its ends is
/// off: the sum of the fractions that its words stand for, as in `1 1/2`.
/// There are at most two words, and none only where the text may be empty;
/// no fraction has the minus sign.
pub open spec fn length_from_text(text: Seq<char>, allow_empty: bool) -> Option<real> {
    let found = words(trimmed(text));
    if found.len() > 2 || (found.len() == 0 && !allow_empty) {
        None
    } else {
        length_of(found, found.len() as int)
    }
}

/// The length that a text stands for once the white space at its ends is
/// off: the sum of the fractions that its words stand for, as in `1 1/2`.
/// There are at most two words, and none only where the text may be empty;
/// no fraction has the minus sign.
pub fn parse_positive_fraction(text: &str, allow_empty: bool) -> (r: Result<Rational, ()>)
    ensures
        stretch_of(trimmed(text@), text@),
        r matches Ok(size) ==> size@ >= 0real,
        match r {
            Ok(size) => length_from_text(text@, allow_empty) == Some(size@),
            Err(_) => length_from_text(text@, allow_empty) is None,
        },
{
    let tokens = split_words(trim(text));
    let ghost found = words(trimmed(text@));
    assert(tokens@.len() == views_of(tokens@).len());
    if (tokens.len() == 0 && !allow_empty) || tokens.len() > 2 {
        Err(())
    } else {
        let mut size = Rational::zero();
        let mut k: usize = 0;
        while k < tokens.len()
            invariant
                k <= tokens@.len(),
                found == views_of(tokens@),
                found == words(trimmed(text@)),
                found.len() == tokens@.len(),
                stretch_of(trimmed(text@), text@),
                length_of(found, k as int) == Some(size@),
                size@ >= 0real,
            decreases tokens@.len() - k,
        {
            let number = Rational::parse(tokens[k]);
            proof {
                assert(found[k as int] == tokens@[k as int]@);
                if number is Some {
                    Rational::lemma_plain(number->Some_0);
                }
                lemma_length_of_fails(found, k + 1, found.len() as int);
            }
            size = match add_word(size, number) {
                Ok(sum) => sum,
                Err(_) => {
                    return Err(());
                },
            };
            k += 1;
        }
        Ok(size)
    }
}

proof fn lemma_length_of_fails(words: Seq<Seq<char>>, n: int, m: int)
    requires
        n <= m,
    ensures
        length_of(words, n) is None ==> length_of(words, m) is None,
    decreases m - n,
{
    if n < m {
        lemma_length_of_fails(words, n + 1, m);
    }
}

/// A quantity as text: `Unlimited` for `-1`, else the number.
pub fn format_quantity(quantity: i64) -> (r: String)
    ensures
        quantity == -1 ==> r@ == "Unlimited"@,
        quantity != -1 ==> to_string_from_display_ensures::<i64>(&quantity, r),
{
    if quantity == -1 {
        String::from_str("Unlimited")
    } else {
        quantity.to_string()
    }
}

/// One row as it was entered: the choices by their numbers, everything
/// else as text.
#[derive(Clone, Debug, Default)]
pub struct EntryData {
    pub dimension: u32,
    pub name: String,
    pub material: String,
    pub price: String,
    pub quantity: String,
    pub length_unit: u32,
    pub major_length: String,
    pub minor_length: String,
    pub width_unit: u32,
    pub major_width: String,
    pub minor_width: String,
}

impl EntryData {
    /// The length of the row in meters: what its two texts stand for, in its
    /// unit. `None` where a text stands for no length, and where the length
    /// in meters cannot be computed.
    pub open spec fn length(&self) -> Option<real> {
        match (
            length_from_text(self.major_length@, true),
            length_from_text(self.minor_length@, true),
        ) {
            (Some(major), Some(minor)) => {
                let unit = SizeUnit::from_spec(self.length_unit);
                if convertible_of(unit, major, minor) {
                    Some(meters_of(unit, major, minor))
                } else {
                    None
                }
            },
            _ => None,
        }
    }

    /// The material that the row is for.
    pub open spec fn is_for(&self, material: Material) -> bool {
        material.name@ == self.material@ && material.dimension == Dimension::from_spec(
            self.dimension,
        )
    }

    /// The length of the row in meters.
    fn read_length(&self) -> (r: Option<Rational>)
        requires
            self.length_unit < 4,
        ensures
            match r {
                Some(length) => self.length() == Some(length@),
                None => self.length() is None,
            },
    {
        match Size::from(self.length_unit, self.major_length.as_str(), self.minor_length.as_str()) {
            Ok(size) => size.to_meters(),
            Err(_) => None,
        }
    }

    /// The material that the row is for.
    fn read_material(&self) -> (r: Material)
        requires
            self.dimension < 2,
        ensures
            self.is_for(r),
    {
        Material { name: self.material.clone(), dimension: Dimension::from(self.dimension) }
    }
}

/// The supply that a row stands for, with its material: an empty price is
/// zero, an empty quantity is any number. No supply where the length, the
/// price or the quantity cannot be read.
pub fn read_supply(row: &EntryData) -> (r: Result<(Material, Supply), ()>)
    requires
        row.dimension < 2,
        row.length_unit < 4,
    ensures
        match r {
            Ok((material, supply)) => {
                &&& row.is_for(material)
                &&& supply.name@ == row.name@
                &&& row.length() == Some(supply.length@)
                &&& price_from_text(row.price@, true) == Some(supply.price@)
                &&& quantity_from_text(row.quantity@, true) == Ok::<i64, ()>(supply.max_quantity)
            },
            Err(_) => {
                ||| row.length() is None
                ||| price_from_text(row.price@, true) is None
                ||| quantity_from_text(row.quantity@, true) is Err
            },
        },
{
    let length = match row.read_length() {
        Some(length) => length,
        None => {
            return Err(());
        },
    };
    let price = match parse_price(row.price.as_str(), true) {
        Ok(price) => price,
        Err(_) => {
            return Err(());
        },
    };
    let max_quantity = match parse_quantity(row.quantity.as_str(), true) {
        Ok(quantity) => quantity,
        Err(_) => {
            return Err(());
        },
    };
    Ok((row.read_material(), Supply { name: row.name.clone(), length, price, max_quantity }))
}

/// The part that a row stands for, with its material: an empty quantity is
/// any number. No part where the length or the quantity cannot be read.
pub fn read_part(row: &EntryData) -> (r: Result<(Material, Part), ()>)
    requires
        row.dimension < 2,
        row.length_unit < 4,
    ensures
        match r {
            Ok((material, part)) => {
                &&& row.is_for(material)
                &&& part.name@ == row.name@
                &&& row.length() == Some(part.length@)
                &&& quantity_from_text(row.quantity@, true) == Ok::<i64, ()>(part.quantity)
            },
            Err(_) => row.length() is None || quantity_from_text(row.quantity@, true) is Err,
        },
{
    let length = match row.read_length() {
        Some(length) => length,
        None => {
            return Err(());
        },
    };
    let quantity = match parse_quantity(row.quantity.as_str(), true) {
        Ok(quantity) => quantity,
        Err(_) => {
            return Err(());
        },
    };
    Ok((row.read_material(), Part { name: row.name.clone(), length, quantity }))
}

} // verus!
