//! Derangements by position among the permutations that `itertools` yields,
//! and the generator of the permutations of a multiset.

use crate::exclusion::{accepts_own_position, kept, lemma_kept_first, Exclusion};
use crate::fast_permutations::{lemma_cursor_of_non_increasing, rest, ShiftState};
use crate::outside::{k_permutations, next_permutation, permutations_left, permutations_of};
use crate::shift_order::{cursor, shift_next};
use crate::sorted::{lemma_descending, sorted_descending};
use itertools::Permutations;
use std::vec::IntoIter;
use vstd::prelude::*;

pub use crate::derangements::{distinct_derangements, DistinctDerangements};

verus! {

/// The generator of the derangements among the `k`-permutations that
/// `itertools` yields.
#[must_use]
pub struct Derangements {
    permutations: Permutations<IntoIter<usize>>,
}

/// The generator of those `k`-permutations of `items`, in the order in which
/// `itertools` yields them, in which no value stands at the position that is
/// its own number.
pub fn derangements_iter(items: Vec<usize>, k: usize) -> (generator: Derangements)
    ensures
        generator.pending() == kept(k_permutations(items@, k as nat), Exclusion::OwnPosition),
{
    Derangements { permutations: permutations_of(items, k) }
}

impl Derangements {
    /// The derangements that are still to come, in the order in which they come.
    pub closed spec fn pending(&self) -> Seq<Seq<usize>> {
        kept(permutations_left(self.permutations), Exclusion::OwnPosition)
    }

    /// The next derangement, or `None` when all have come.
    pub fn next(&mut self) -> (arrangement: Option<Vec<usize>>)
        ensures
            arrangement is None <==> old(self).pending().len() == 0,
            arrangement matches Some(a) ==> a@ == old(self).pending()[0],
            final(self).pending() == rest(old(self).pending()),
    {
        loop
            invariant
                self.pending() == old(self).pending(),
            decreases permutations_left(self.permutations).len(),
        {
            let ghost before = permutations_left(self.permutations);
            match next_permutation(&mut self.permutations) {
                None => {
                    return None;
                },
                Some(candidate) => {
                    proof {
                        lemma_kept_first(before, Exclusion::OwnPosition);
                    }
                    if accepts_own_position(&candidate) {
                        return Some(candidate);
                    }
                },
            }
        }
    }
}

/// The generator of the permutations of a multiset: those of
/// `DistinctPermutations`, in the same order.
#[derive(Debug, Clone)]
pub struct MultisetPermutations {
    buffer: Vec<usize>,
    start: bool,
    index: usize,
}

impl View for MultisetPermutations {
    type V = ShiftState;

    /// The state, as far as the results go.
    closed spec fn view(&self) -> ShiftState {
        ShiftState {
            labels: self.buffer@,
            values: self.buffer@,
            fresh: self.start,
            k: self.buffer@.len(),
        }
    }
}

/// The generator of the permutations of the multiset `items`, each of them
/// once, beginning with the non-increasing one.
pub fn multiset_permutations(items: Vec<usize>) -> (generator: MultisetPermutations)
    ensures
        generator.wf(),
        generator@ == ShiftState::by_value(items@),
{
    let buffer = sorted_descending(items);
    let length: usize = buffer.len();
    let index: usize = if length >= 2 {
        length - 2
    } else {
        0
    };
    proof {
        lemma_descending(items@);
        lemma_cursor_of_non_increasing(buffer@);
    }
    MultisetPermutations { buffer, start: true, index }
}

impl MultisetPermutations {
    /// The arrangements that are still to come, in the order in which they come.
    pub open spec fn pending(&self) -> Seq<Seq<usize>> {
        self@.pending()
    }

    /// The cursor is the one that belongs to the buffer.
    pub closed spec fn wf(&self) -> bool {
        self.index == cursor(self.buffer@)
    }

    /// The next permutation, or `None` when all have come.
    pub fn next(&mut self) -> (arrangement: Option<Vec<usize>>)
        requires
            old(self).wf(),
        ensures
            final(self).wf(),
            final(self)@ == old(self)@.after_next(),
            arrangement is None <==> old(self).pending().len() == 0,
            arrangement matches Some(a) ==> a@ == old(self).pending()[0],
            final(self).pending() == rest(old(self).pending()),
    {
        proof {
            self@.lemma_pending_unfolds();
            crate::shift_order::lemma_successor_rearranges(self.buffer@);
        }
        if self.start {
            self.start = false;
            assert(self.buffer@.take(self.buffer@.len() as int) =~= self.buffer@);
            return Some(self.buffer.clone());
        }
        match shift_next(&mut self.buffer, self.index) {
            None => None,
            Some((_, next_index)) => {
                self.index = next_index;
                assert(self.buffer@.take(self.buffer@.len() as int) =~= self.buffer@);
                Some(self.buffer.clone())
            },
        }
    }
}

} // verus!
