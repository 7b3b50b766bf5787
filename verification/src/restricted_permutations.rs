//! Permutations of a multiset under a rule that excludes values from
//! positions: by a list with one excluded value for each position, by a map
//! from positions to excluded values, or by a map from values to excluded
//! positions.

use crate::exclusion::{
    accepts_by_position, accepts_by_value, accepts_listed, kept, lemma_kept_first, listed,
    Exclusion,
};
use crate::fast_permutations::{fast_permutations, rest, FastPermutations, ShiftState};
use std::collections::HashMap;
use vstd::prelude::*;

verus! {

/// The generator of the `k`-prefixes of the permutations of a multiset in
/// which no position holds the value listed for it.
#[must_use]
#[derive(Debug, Clone)]
pub struct RestrictedPermutations {
    permutations: FastPermutations,
    restrict: Vec<usize>,
}

/// The generator of those `k`-prefixes of the permutations of `items` in which
/// no position `i` holds the value `restrict[i]`.
pub fn restricted_permutations(items: Vec<usize>, k: usize, restrict: Vec<usize>) -> (generator:
    RestrictedPermutations)
    requires
        k <= items.len(),
        k <= restrict.len(),
    ensures
        generator.wf(),
        generator.source() == ShiftState::by_position(items@, k as nat),
        generator.rule() == Exclusion::Listed(restrict@),
{
    RestrictedPermutations { permutations: fast_permutations(items, k), restrict }
}

/// The generator of those `k`-prefixes of the permutations of `items` in which
/// no position holds the value that `items` has there.
pub fn restricted_permutations_by_self(items: Vec<usize>, k: usize) -> (generator:
    RestrictedPermutations)
    requires
        k <= items.len(),
    ensures
        generator.wf(),
        generator.source() == ShiftState::by_position(items@, k as nat),
        generator.rule() == Exclusion::Listed(items@),
{
    let permutations = fast_permutations(items.clone(), k);
    RestrictedPermutations { permutations, restrict: items }
}

impl RestrictedPermutations {
    /// The generator underneath is well-formed, and the list has a value for
    /// each position of an arrangement.
    pub closed spec fn wf(&self) -> bool {
        self.permutations.wf() && self.permutations@.k <= self.restrict@.len()
    }

    /// The state of the generator whose arrangements are filtered.
    pub closed spec fn source(&self) -> ShiftState {
        self.permutations@
    }

    /// The rule by which they are filtered.
    pub closed spec fn rule(&self) -> Exclusion {
        Exclusion::Listed(self.restrict@)
    }

    /// The arrangements that are still to come, in the order in which they come.
    pub open spec fn pending(&self) -> Seq<Seq<usize>> {
        kept(self.source().pending(), self.rule())
    }

    /// The next arrangement that the rule accepts, or `None` when all have come.
    pub fn next(&mut self) -> (arrangement: Option<Vec<usize>>)
        requires
            old(self).wf(),
        ensures
            final(self).wf(),
            final(self).rule() == old(self).rule(),
            arrangement is None <==> old(self).pending().len() == 0,
            arrangement matches Some(a) ==> a@ == old(self).pending()[0],
            final(self).pending() == rest(old(self).pending()),
    {
        loop
            invariant
                self.wf(),
                self.rule() == old(self).rule(),
                self.pending() == old(self).pending(),
            decreases self.source().pending().len(),
        {
            let ghost before = self.source().pending();
            match self.permutations.next() {
                None => {
                    return None;
                },
                Some(candidate) => {
                    proof {
                        lemma_kept_first(before, self.rule());
                    }
                    if accepts_listed(&candidate, &self.restrict) {
                        return Some(candidate);
                    }
                },
            }
        }
    }
}

/// The generator of the `k`-prefixes of the permutations of a multiset in
/// which no position holds one of the values that a map excludes from it.
#[must_use]
#[derive(Debug, Clone)]
pub struct RestrictedPermutationsByMapIndex {
    permutations: FastPermutations,
    restrict: HashMap<usize, Vec<usize>>,
}

/// The generator of those `k`-prefixes of the permutations of `items` in which
/// no position that is a key of `restrict` holds one of the values listed
/// under it.
pub fn restricted_permutations_by_map_index(
    items: Vec<usize>,
    k: usize,
    restrict: HashMap<usize, Vec<usize>>,
) -> (generator: RestrictedPermutationsByMapIndex)
    requires
        k <= items.len(),
    ensures
        generator.wf(),
        generator.source() == ShiftState::by_position(items@, k as nat),
        generator.rule() == Exclusion::ByPosition(listed(restrict@)),
{
    RestrictedPermutationsByMapIndex { permutations: fast_permutations(items, k), restrict }
}

impl RestrictedPermutationsByMapIndex {
    /// The generator underneath is well-formed.
    pub closed spec fn wf(&self) -> bool {
        self.permutations.wf()
    }

    /// The state of the generator whose arrangements are filtered.
    pub closed spec fn source(&self) -> ShiftState {
        self.permutations@
    }

    /// The rule by which they are filtered.
    pub closed spec fn rule(&self) -> Exclusion {
        Exclusion::ByPosition(listed(self.restrict@))
    }

    /// The arrangements that are still to come, in the order in which they come.
    pub open spec fn pending(&self) -> Seq<Seq<usize>> {
        kept(self.source().pending(), self.rule())
    }

    /// The next arrangement that the rule accepts, or `None` when all have come.
    pub fn next(&mut self) -> (arrangement: Option<Vec<usize>>)
        requires
            old(self).wf(),
        ensures
            final(self).wf(),
            final(self).rule() == old(self).rule(),
            arrangement is None <==> old(self).pending().len() == 0,
            arrangement matches Some(a) ==> a@ == old(self).pending()[0],
            final(self).pending() == rest(old(self).pending()),
    {
        loop
            invariant
                self.wf(),
                self.rule() == old(self).rule(),
                self.pending() == old(self).pending(),
            decreases self.source().pending().len(),
        {
            let ghost before = self.source().pending();
            match self.permutations.next() {
                None => {
                    return None;
                },
                Some(candidate) => {
                    proof {
                        lemma_kept_first(before, self.rule());
                    }
                    if accepts_by_position(&candidate, &self.restrict) {
                        return Some(candidate);
                    }
                },
            }
        }
    }
}

/// The generator of the `k`-prefixes of the permutations of a multiset in
/// which no value stands at one of the positions that a map excludes it from.
#[must_use]
#[derive(Debug, Clone)]
pub struct RestrictedPermutationsByMapValue {
    permutations: FastPermutations,
    restrict: HashMap<usize, Vec<usize>>,
}

/// The generator of those `k`-prefixes of the permutations of `items` in which
/// no value that is a key of `restrict` stands at one of the positions listed
/// under it.
pub fn restricted_permutations_by_map_value(
    items: Vec<usize>,
    k: usize,
    restrict: HashMap<usize, Vec<usize>>,
) -> (generator: RestrictedPermutationsByMapValue)
    requires
        k <= items.len(),
    ensures
        generator.wf(),
        generator.source() == ShiftState::by_position(items@, k as nat),
        generator.rule() == Exclusion::ByValue(listed(restrict@)),
{
    RestrictedPermutationsByMapValue { permutations: fast_permutations(items, k), restrict }
}

impl RestrictedPermutationsByMapValue {
    /// The generator underneath is well-formed.
    pub closed spec fn wf(&self) -> bool {
        self.permutations.wf()
    }

    /// The state of the generator whose arrangements are filtered.
    pub closed spec fn source(&self) -> ShiftState {
        self.permutations@
    }

    /// The rule by which they are filtered.
    pub closed spec fn rule(&self) -> Exclusion {
        Exclusion::ByValue(listed(self.restrict@))
    }

    /// The arrangements that are still to come, in the order in which they come.
    pub open spec fn pending(&self) -> Seq<Seq<usize>> {
        kept(self.source().pending(), self.rule())
    }

    /// The next arrangement that the rule accepts, or `None` when all have come.
    pub fn next(&mut self) -> (arrangement: Option<Vec<usize>>)
        requires
            old(self).wf(),
        ensures
            final(self).wf(),
            final(self).rule() == old(self).rule(),
            arrangement is None <==> old(self).pending().len() == 0,
            arrangement matches Some(a) ==> a@ == old(self).pending()[0],
            final(self).pending() == rest(old(self).pending()),
    {
        loop
            invariant
                self.wf(),
                self.rule() == old(self).rule(),
                self.pending() == old(self).pending(),
            decreases self.source().pending().len(),
        {
            let ghost before = self.source().pending();
            match self.permutations.next() {
                None => {
                    return None;
                },
                Some(candidate) => {
                    proof {
                        lemma_kept_first(before, self.rule());
                    }
                    if accepts_by_value(&candidate, &self.restrict) {
                        return Some(candidate);
                    }
                },
            }
        }
    }
}

} // verus!
