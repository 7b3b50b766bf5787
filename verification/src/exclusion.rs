//! Rules that exclude values from positions, and what a rule keeps of a
//! sequence of arrangements.

use crate::fast_permutations::rest;
use std::collections::HashMap;
use vstd::prelude::*;
use vstd::std_specs::hash::*;

verus! {

/// A rule that says which value may not stand at which position.
pub enum Exclusion {
    /// No value stands at the position that is its own number.
    OwnPosition,
    /// The value at a position is not the one listed for that position.
    Listed(Seq<usize>),
    /// Each position in the map has the listed values excluded from it.
    ByPosition(Map<usize, Seq<usize>>),
    /// Each value in the map is excluded from the listed positions.
    ByValue(Map<usize, Seq<usize>>),
}

impl Exclusion {
    /// The rule excludes `value` from `position`.
    pub open spec fn excludes(self, position: int, value: usize) -> bool {
        match self {
            Exclusion::OwnPosition => value == position,
            Exclusion::Listed(listed) => position < listed.len() && listed[position] == value,
            Exclusion::ByPosition(values_at) => values_at.contains_key(position as usize)
                && values_at[position as usize].contains(value),
            Exclusion::ByValue(positions_of) => positions_of.contains_key(value)
                && positions_of[value].contains(position as usize),
        }
    }

    /// No value of the arrangement stands at a position that the rule
    /// excludes it from.
    pub open spec fn accepts(self, arrangement: Seq<usize>) -> bool {
        forall|i: int|
            0 <= i < arrangement.len() ==> !self.excludes(i, #[trigger] arrangement[i])
    }
}

/// The arrangements of `all` that `rule` accepts, in their order.
pub open spec fn kept(all: Seq<Seq<usize>>, rule: Exclusion) -> Seq<Seq<usize>>
    decreases all.len(),
{
    if all.len() == 0 {
        Seq::empty()
    } else if rule.accepts(all[0]) {
        seq![all[0]] + kept(all.skip(1), rule)
    } else {
        kept(all.skip(1), rule)
    }
}

/// After an accepted arrangement has been handed out, the kept ones are those
/// of the remaining arrangements; a rejected one changes nothing.
pub proof fn lemma_kept_first(all: Seq<Seq<usize>>, rule: Exclusion)
    requires
        all.len() > 0,
    ensures
        rule.accepts(all[0]) ==> kept(all, rule).len() > 0 && kept(all, rule)[0] == all[0] && rest(
            kept(all, rule),
        ) == kept(rest(all), rule),
        !rule.accepts(all[0]) ==> kept(all, rule) == kept(rest(all), rule),
{
    if rule.accepts(all[0]) {
        assert(rest(kept(all, rule)) =~= kept(rest(all), rule));
    }
}

/// The excluded values or positions of a map, as sequences.
pub open spec fn listed(map: Map<usize, Vec<usize>>) -> Map<usize, Seq<usize>> {
    map.map_values(|v: Vec<usize>| v@)
}

/// Whether `needle` is among `items`.
pub fn contains_item(items: &Vec<usize>, needle: usize) -> (found: bool)
    ensures
        found == items@.contains(needle),
{
    let mut i: usize = 0;
    while i < items.len()
        invariant
            i <= items.len(),
            forall|j: int| 0 <= j < i ==> items[j] != needle,
        decreases items.len() - i,
    {
        if items[i] == needle {
            return true;
        }
        i += 1;
    }
    false
}

/// Whether no value of the arrangement is the number of its own position.
pub fn accepts_own_position(arrangement: &Vec<usize>) -> (accepted: bool)
    ensures
        accepted == Exclusion::OwnPosition.accepts(arrangement@),
{
    let mut i: usize = 0;
    while i < arrangement.len()
        invariant
            i <= arrangement.len(),
            forall|j: int| 0 <= j < i ==> !Exclusion::OwnPosition.excludes(j, arrangement[j]),
        decreases arrangement.len() - i,
    {
        if arrangement[i] == i {
            assert(Exclusion::OwnPosition.excludes(i as int, arrangement@[i as int]));
            return false;
        }
        i += 1;
    }
    true
}

/// Whether no value of the arrangement is the one listed for its position.
pub fn accepts_listed(arrangement: &Vec<usize>, excluded: &Vec<usize>) -> (accepted: bool)
    requires
        arrangement.len() <= excluded.len(),
    ensures
        accepted == Exclusion::Listed(excluded@).accepts(arrangement@),
{
    let ghost rule = Exclusion::Listed(excluded@);
    let mut i: usize = 0;
    while i < arrangement.len()
        invariant
            i <= arrangement.len() <= excluded.len(),
            rule == Exclusion::Listed(excluded@),
            forall|j: int| 0 <= j < i ==> !rule.excludes(j, arrangement[j]),
        decreases arrangement.len() - i,
    {
        if excluded[i] == arrangement[i] {
            assert(rule.excludes(i as int, arrangement@[i as int]));
            return false;
        }
        i += 1;
    }
    true
}

/// Whether no value of the arrangement is among those that the map excludes
/// from its position.
pub fn accepts_by_position(
    arrangement: &Vec<usize>,
    values_at: &HashMap<usize, Vec<usize>>,
) -> (accepted: bool)
    ensures
        accepted == Exclusion::ByPosition(listed(values_at@)).accepts(arrangement@),
{
    broadcast use group_hash_axioms;

    let ghost rule = Exclusion::ByPosition(listed(values_at@));
    let mut i: usize = 0;
    while i < arrangement.len()
        invariant
            i <= arrangement.len(),
            rule == Exclusion::ByPosition(listed(values_at@)),
            forall|j: int| 0 <= j < i ==> !rule.excludes(j, arrangement[j]),
        decreases arrangement.len() - i,
    {
        match values_at.get(&i) {
            Some(values) => {
                if contains_item(values, arrangement[i]) {
                    assert(rule.excludes(i as int, arrangement@[i as int]));
                    return false;
                }
            },
            None => {},
        }
        i += 1;
    }
    true
}

/// Whether no value of the arrangement stands at a position that the map
/// excludes it from.
pub fn accepts_by_value(
    arrangement: &Vec<usize>,
    positions_of: &HashMap<usize, Vec<usize>>,
) -> (accepted: bool)
    ensures
        accepted == Exclusion::ByValue(listed(positions_of@)).accepts(arrangement@),
{
    broadcast use group_hash_axioms;

    let ghost rule = Exclusion::ByValue(listed(positions_of@));
    let mut i: usize = 0;
    while i < arrangement.len()
        invariant
            i <= arrangement.len(),
            rule == Exclusion::ByValue(listed(positions_of@)),
            forall|j: int| 0 <= j < i ==> !rule.excludes(j, arrangement[j]),
        decreases arrangement.len() - i,
    {
        match positions_of.get(&arrangement[i]) {
            Some(positions) => {
                if contains_item(positions, i) {
                    assert(rule.excludes(i as int, arrangement@[i as int]));
                    return false;
                }
            },
            None => {},
        }
        i += 1;
    }
    true
}

} // verus!
