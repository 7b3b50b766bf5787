//! Derangements of a multiset of position numbers: the arrangements in which
//! no value stands at the position that is its own number.

use crate::exclusion::{accepts_own_position, kept, lemma_kept_first, Exclusion};
use crate::fast_permutations::{fast_permutations, rest, FastPermutations, ShiftState};
use crate::shift_order::{cursor, shift_next};
use crate::sorted::{lemma_descending, sorted_descending};
use vstd::prelude::*;

verus! {

/// The generator of the derangements among the `k`-prefixes of the
/// permutations of a multiset, by position.
#[must_use]
#[derive(Debug, Clone)]
pub struct Derangements {
    permutations: FastPermutations,
}

/// The generator of those `k`-prefixes of the permutations of `items` in which
/// no value stands at the position that is its own number.  A value that is
/// the number of no position is excluded nowhere.
pub fn derangements(items: Vec<usize>, k: usize) -> (generator: Derangements)
    requires
        k <= items.len(),
    ensures
        generator.wf(),
        generator.source() == ShiftState::by_position(items@, k as nat),
{
    Derangements { permutations: fast_permutations(items, k) }
}

impl Derangements {
    /// The generator underneath is well-formed.
    pub closed spec fn wf(&self) -> bool {
        self.permutations.wf()
    }

    /// The state of the generator whose arrangements are filtered.
    pub closed spec fn source(&self) -> ShiftState {
        self.permutations@
    }

    /// The derangements that are still to come, in the order in which they come.
    pub open spec fn pending(&self) -> Seq<Seq<usize>> {
        kept(self.source().pending(), Exclusion::OwnPosition)
    }

    /// The next derangement, or `None` when all have come.
    pub fn next(&mut self) -> (arrangement: Option<Vec<usize>>)
        requires
            old(self).wf(),
        ensures
            final(self).wf(),
            arrangement is None <==> old(self).pending().len() == 0,
            arrangement matches Some(a) ==> a@ == old(self).pending()[0],
            final(self).pending() == rest(old(self).pending()),
    {
        loop
            invariant
                self.wf(),
                self.pending() == old(self).pending(),
            decreases self.source().pending().len(),
        {
            let ghost before = self.source().pending();
            match self.permutations.next() {
                None => {
                    return None;
                },
                Some(candidate) => {
                    proof {
                        lemma_kept_first(before, Exclusion::OwnPosition);
                    }
                    if accepts_own_position(&candidate) {
                        return Some(candidate);
                    }
                },
            }
        }
    }
}

/// The generator of the distinct derangements of a multiset.
#[derive(Debug, Clone)]
pub struct DistinctDerangements {
    buffer: Vec<usize>,
    start: bool,
    index: usize,
}

/// The generator of the distinct permutations of `items` in which no value
/// stands at the position that is its own number, each of them once.
pub fn distinct_derangements(items: Vec<usize>) -> (generator: DistinctDerangements)
    ensures
        generator.wf(),
        generator.source() == ShiftState::by_value(items@),
{
    let buffer = sorted_descending(items);
    let length: usize = buffer.len();
    let index: usize = if length >= 2 {
        length - 2
    } else {
        0
    };
    proof {
        lemma_descending(items@);
        crate::fast_permutations::lemma_cursor_of_non_increasing(buffer@);
    }
    DistinctDerangements { buffer, start: true, index }
}

impl DistinctDerangements {
    /// The cursor is the one that belongs to the buffer.
    pub closed spec fn wf(&self) -> bool {
        self.index == cursor(self.buffer@)
    }

    /// The state of the generator of distinct permutations that runs inside.
    pub closed spec fn source(&self) -> ShiftState {
        ShiftState {
            labels: self.buffer@,
            values: self.buffer@,
            fresh: self.start,
            k: self.buffer@.len(),
        }
    }

    /// The derangements that are still to come, in the order in which they come.
    pub open spec fn pending(&self) -> Seq<Seq<usize>> {
        kept(self.source().pending(), Exclusion::OwnPosition)
    }

    /// The next derangement, or `None` when all have come.
    pub fn next(&mut self) -> (arrangement: Option<Vec<usize>>)
        requires
            old(self).wf(),
        ensures
            final(self).wf(),
            arrangement is None <==> old(self).pending().len() == 0,
            arrangement matches Some(a) ==> a@ == old(self).pending()[0],
            final(self).pending() == rest(old(self).pending()),
    {
        loop
            invariant
                self.wf(),
                self.pending() == old(self).pending(),
            decreases self.source().pending().len(),
        {
            let ghost before = self.source();
            proof {
                before.lemma_pending_unfolds();
                crate::shift_order::lemma_successor_rearranges(self.buffer@);
                if before.pending().len() > 0 {
                    lemma_kept_first(before.pending(), Exclusion::OwnPosition);
                }
            }
            if self.start {
                self.start = false;
            } else {
                match shift_next(&mut self.buffer, self.index) {
                    None => {
                        return None;
                    },
                    Some((_, next_index)) => {
                        self.index = next_index;
                    },
                }
            }
            assert(self.buffer@.take(self.buffer@.len() as int) =~= self.buffer@);
            assert(self.source() == before.after_next());
            if accepts_own_position(&self.buffer) {
                return Some(self.buffer.clone());
            }
        }
    }
}

} // verus!
