//! Generators of the permutations of a multiset by prefix shifts.
//!
//! `FastPermutations` permutes the items by position, so equal items give
//! equal arrangements more than once, and hands out the first `k` items of
//! each arrangement.  `DistinctPermutations` permutes by value: each distinct
//! arrangement comes once.

use crate::shift_order::{
    advance, cursor, exhausted, is_cursor, lemma_cursor_unique, lemma_exhausted_iff,
    lemma_remaining_step, prefix_shift, remaining_after, rotate_to_front, shift_next,
    shift_position, successor,
};
use crate::sorted::{
    ascending, descending, lemma_ascending, lemma_descending, sorted_ascending,
    sorted_descending,
};
use vstd::prelude::*;

verus! {

/// What a generator is, as far as its results go: the labels that the order
/// runs on, the values that move with them, whether the first arrangement is
/// still to come, and the length of what is handed out.
pub struct ShiftState {
    pub labels: Seq<usize>,
    pub values: Seq<usize>,
    pub fresh: bool,
    pub k: nat,
}

/// `values` after the shift that takes `labels` to its successor.
pub open spec fn carried(labels: Seq<usize>, values: Seq<usize>) -> Seq<usize> {
    if labels.len() < 2 {
        values
    } else {
        prefix_shift(values, shift_position(labels, cursor(labels)))
    }
}

/// `values` after as many shifts as take `labels` on by `steps`.
pub open spec fn carried_along(labels: Seq<usize>, values: Seq<usize>, steps: nat) -> Seq<usize>
    decreases steps,
{
    if steps == 0 {
        values
    } else {
        carried_along(successor(labels), carried(labels, values), (steps - 1) as nat)
    }
}

/// The items of `source` in the arrangement that `labels` stands for: the
/// label `source.len() - 1` is the first item, the label `0` the last.
pub open spec fn arranged(source: Seq<usize>, labels: Seq<usize>) -> Seq<usize> {
    Seq::new(labels.len(), |j: int| source[source.len() - 1 - labels[j]])
}

/// Values that are arranged as their labels say stay so when they move with
/// the labels.
pub proof fn lemma_carried_along_arranged(source: Seq<usize>, labels: Seq<usize>, steps: nat)
    ensures
        carried_along(labels, arranged(source, labels), steps) == arranged(
            source,
            advance(labels, steps),
        ),
    decreases steps,
{
    if steps > 0 {
        if labels.len() >= 2 {
            crate::shift_order::lemma_shift_position_in_range(labels);
        }
        assert(carried(labels, arranged(source, labels)) =~= arranged(source, successor(labels)));
        lemma_carried_along_arranged(source, successor(labels), (steps - 1) as nat);
    }
}

/// Values that are their own labels move as the order says.
pub proof fn lemma_carried_along_self(labels: Seq<usize>, steps: nat)
    ensures
        carried_along(labels, labels, steps) == advance(labels, steps),
    decreases steps,
{
    if steps > 0 {
        lemma_carried_along_self(successor(labels), (steps - 1) as nat);
    }
}

/// The numbers `n - 1` down to `0`.
pub open spec fn countdown(n: nat) -> Seq<usize> {
    Seq::new(n, |i: int| (n - 1 - i) as usize)
}

/// A sequence without its first element; the empty sequence stays empty.
pub open spec fn rest<A>(s: Seq<A>) -> Seq<A> {
    if s.len() == 0 {
        s
    } else {
        s.skip(1)
    }
}

impl ShiftState {
    /// The values are as many as the labels, and `k` of them can be handed out.
    pub open spec fn wf(self) -> bool {
        self.labels.len() == self.values.len() && self.k <= self.values.len()
    }

    /// The state of a new generator of the `k`-prefixes of the permutations of
    /// `items` by position.
    pub open spec fn by_position(items: Seq<usize>, k: nat) -> ShiftState {
        ShiftState { labels: countdown(items.len()), values: ascending(items), fresh: true, k }
    }

    /// The state of a new generator of the distinct permutations of `items`.
    pub open spec fn by_value(items: Seq<usize>) -> ShiftState {
        ShiftState {
            labels: descending(items),
            values: descending(items),
            fresh: true,
            k: items.len(),
        }
    }

    /// The arrangement that is handed out in this state.
    pub open spec fn current(self) -> Seq<usize> {
        self.values.take(self.k as int)
    }

    /// Nothing more comes: the first arrangement is out, and either the order
    /// is exhausted or the arrangements are empty, of which there is one.
    pub open spec fn done(self) -> bool {
        !self.fresh && (self.k == 0 || exhausted(self.labels))
    }

    /// The state after one more request.
    pub open spec fn after_next(self) -> ShiftState {
        if self.fresh {
            ShiftState { fresh: false, ..self }
        } else if self.done() {
            self
        } else {
            ShiftState {
                labels: successor(self.labels),
                values: carried(self.labels, self.values),
                ..self
            }
        }
    }

    /// What one more request returns.
    pub open spec fn next_output(self) -> Option<Seq<usize>> {
        if self.done() {
            None
        } else {
            Some(self.after_next().current())
        }
    }

    /// The state after `requests` more requests.
    pub open spec fn after(self, requests: nat) -> ShiftState
        decreases requests,
    {
        if requests == 0 {
            self
        } else {
            self.after_next().after((requests - 1) as nat)
        }
    }

    /// How many arrangements are still to come.
    pub open spec fn remaining(self) -> nat {
        (if self.fresh {
            1nat
        } else {
            0nat
        }) + (if self.k == 0 {
            0nat
        } else {
            remaining_after(self.labels)
        })
    }

    /// The arrangements that are still to come, in the order in which they come.
    pub open spec fn pending(self) -> Seq<Seq<usize>> {
        Seq::new(self.remaining(), |i: int| self.after((i + 1) as nat).current())
    }

    /// Where requests lead from a state whose first arrangement is out, as
    /// long as the order is not exhausted.
    pub proof fn lemma_after(self, requests: nat)
        requires
            !self.fresh,
            self.k > 0,
            requests <= remaining_after(self.labels),
        ensures
            self.after(requests) == (ShiftState {
                labels: advance(self.labels, requests),
                values: carried_along(self.labels, self.values, requests),
                fresh: false,
                k: self.k,
            }),
        decreases requests,
    {
        if requests > 0 {
            lemma_exhausted_iff(self.labels);
            lemma_remaining_step(self.labels);
            self.after_next().lemma_after((requests - 1) as nat);
        }
    }

    /// The arrangements that a new generator of arrangements that are not
    /// empty has to give: one for each rearrangement of the labels, in their
    /// order.
    pub proof fn lemma_pending_of_fresh(self, i: int)
        requires
            self.fresh,
            self.k > 0,
            0 <= i <= remaining_after(self.labels),
        ensures
            self.pending().len() == remaining_after(self.labels) + 1,
            self.pending()[i] == carried_along(self.labels, self.values, i as nat).take(
                self.k as int,
            ),
    {
        let out = self.after_next();
        out.lemma_after(i as nat);
        assert(self.after((i + 1) as nat) == out.after(i as nat));
    }

    /// A request keeps the state well-formed.
    pub proof fn lemma_after_next_wf(self)
        requires
            self.wf(),
        ensures
            self.after_next().wf(),
    {
        crate::shift_order::lemma_successor_rearranges(self.labels);
    }

    /// Nothing is pending exactly when nothing more comes; otherwise the next
    /// result is the first of the pending arrangements, and the others are
    /// pending after it.
    pub proof fn lemma_pending_unfolds(self)
        ensures
            self.done() <==> self.pending().len() == 0,
            self.done() ==> self.after_next() == self,
            !self.done() ==> self.next_output() == Some(self.pending()[0]),
            self.after_next().pending() == rest(self.pending()),
    {
        lemma_exhausted_iff(self.labels);
        let then = self.after_next();
        if self.done() {
            assert(then.pending() =~= rest(self.pending()));
        } else {
            if !self.fresh {
                lemma_remaining_step(self.labels);
            }
            assert(then.remaining() + 1 == self.remaining());
            assert(self.after(1) == then) by {
                reveal_with_fuel(ShiftState::after, 2);
            }
            assert forall|i: int| 0 <= i < then.remaining() implies then.pending()[i] == rest(
                self.pending(),
            )[i] by {
                assert(self.after((i + 2) as nat) == then.after((i + 1) as nat));
            }
            assert(then.pending() =~= rest(self.pending()));
        }
    }
}

/// The first `k` items of `v`.
fn prefix_of(v: &Vec<usize>, k: usize) -> (head: Vec<usize>)
    requires
        k <= v.len(),
    ensures
        head@ == v@.take(k as int),
{
    let mut head: Vec<usize> = Vec::new();
    let mut i: usize = 0;
    while i < k
        invariant
            i <= k <= v.len(),
            head@ == v@.take(i as int),
        decreases k - i,
    {
        head.push(v[i]);
        i += 1;
        assert(head@ =~= v@.take(i as int));
    }
    head
}

/// The vector of `n - 1` down to `0`.
fn countdown_from(n: usize) -> (labels: Vec<usize>)
    ensures
        labels@ == countdown(n as nat),
{
    let mut labels: Vec<usize> = Vec::new();
    let mut i: usize = n;
    while i > 0
        invariant
            i <= n,
            labels.len() == n - i,
            forall|j: int| 0 <= j < labels.len() ==> labels[j] == n - 1 - j,
        decreases i,
    {
        i -= 1;
        labels.push(i);
    }
    assert(labels@ =~= countdown(n as nat));
    labels
}

/// The cursor of a non-increasing sequence.
pub proof fn lemma_cursor_of_non_increasing(s: Seq<usize>)
    requires
        crate::shift_order::non_increasing(s),
    ensures
        cursor(s) == if s.len() >= 2 {
            s.len() - 2
        } else {
            0
        },
{
    let c: int = if s.len() >= 2 {
        s.len() - 2
    } else {
        0
    };
    assert(is_cursor(s, c));
    lemma_cursor_unique(s, c);
}

/// The generator of the `k`-prefixes of the permutations of a multiset, by
/// position.
#[derive(Debug, Clone)]
pub struct FastPermutations {
    buffer: Vec<usize>,
    values: Vec<usize>,
    start: bool,
    index: usize,
    k: usize,
}

impl View for FastPermutations {
    type V = ShiftState;

    /// The state, as far as the results go.
    closed spec fn view(&self) -> ShiftState {
        ShiftState {
            labels: self.buffer@,
            values: self.values@,
            fresh: self.start,
            k: self.k as nat,
        }
    }
}

/// The generator of the `k`-prefixes of the permutations of `items`.  Items
/// that are equal are permuted among themselves too, so a multiset with equal
/// items gives equal arrangements more than once.
pub fn fast_permutations(items: Vec<usize>, k: usize) -> (generator: FastPermutations)
    requires
        k <= items.len(),
    ensures
        generator.wf(),
        generator@ == ShiftState::by_position(items@, k as nat),
{
    let values = sorted_ascending(items);
    let length: usize = values.len();
    let buffer = countdown_from(length);
    let index: usize = if length >= 2 {
        length - 2
    } else {
        0
    };
    proof {
        lemma_ascending(items@);
        lemma_cursor_of_non_increasing(buffer@);
    }
    FastPermutations { buffer, values, start: true, index, k }
}

impl FastPermutations {
    /// The arrangements that are still to come, in the order in which they come.
    pub open spec fn pending(&self) -> Seq<Seq<usize>> {
        self@.pending()
    }

    /// The state is well-formed and the cursor is the one that belongs to the
    /// labels.
    pub closed spec fn wf(&self) -> bool {
        self@.wf() && self.index == cursor(self.buffer@)
    }

    /// All the values, in their present arrangement.
    pub fn get_values(&self) -> (values: Vec<usize>)
        ensures
            values@ == self@.values,
    {
        self.values.clone()
    }

    /// The next arrangement, or `None` when all have come.
    pub fn next(&mut self) -> (arrangement: Option<Vec<usize>>)
        requires
            old(self).wf(),
        ensures
            final(self).wf(),
            final(self)@ == old(self)@.after_next(),
            arrangement is None <==> old(self).pending().len() == 0,
            arrangement matches Some(a) ==> a@ == old(self).pending()[0] && a@.len() == old(
                self,
            )@.k,
            final(self).pending() == rest(old(self).pending()),
    {
        proof {
            self@.lemma_pending_unfolds();
            self@.lemma_after_next_wf();
        }
        if self.start {
            self.start = false;
            return Some(prefix_of(&self.values, self.k));
        }
        if self.k == 0 {
            return None;
        }
        match shift_next(&mut self.buffer, self.index) {
            None => None,
            Some((from, next_index)) => {
                rotate_to_front(&mut self.values, from);
                self.index = next_index;
                Some(prefix_of(&self.values, self.k))
            },
        }
    }
}

/// The generator of the distinct permutations of a multiset.
#[derive(Debug, Clone)]
pub struct DistinctPermutations {
    buffer: Vec<usize>,
    start: bool,
    index: usize,
}

impl View for DistinctPermutations {
    type V = ShiftState;

    /// The state, as far as the results go.
    closed spec fn view(&self) -> ShiftState {
        ShiftState {
            labels: self.buffer@,
            values: self.buffer@,
            fresh: self.start,
            k: self.buffer@.len(),
        }
    }
}

/// The generator of the distinct permutations of `items`, each of them once,
/// beginning with the non-increasing one.
pub fn distinct_permutations(items: Vec<usize>) -> (generator: DistinctPermutations)
    ensures
        generator.wf(),
        generator@ == ShiftState::by_value(items@),
{
    let buffer = sorted_descending(items);
    let length: usize = buffer.len();
    let index: usize = if length >= 2 {
        length - 2
    } else {
        0
    };
    proof {
        lemma_descending(items@);
        lemma_cursor_of_non_increasing(buffer@);
    }
    DistinctPermutations { buffer, start: true, index }
}

impl DistinctPermutations {
    /// The arrangements that are still to come, in the order in which they come.
    pub open spec fn pending(&self) -> Seq<Seq<usize>> {
        self@.pending()
    }

    /// The cursor is the one that belongs to the buffer.
    pub closed spec fn wf(&self) -> bool {
        self.index == cursor(self.buffer@)
    }

    /// The next permutation, or `None` when all have come.
    pub fn next(&mut self) -> (arrangement: Option<Vec<usize>>)
        requires
            old(self).wf(),
        ensures
            final(self).wf(),
            final(self)@ == old(self)@.after_next(),
            arrangement is None <==> old(self).pending().len() == 0,
            arrangement matches Some(a) ==> a@ == old(self).pending()[0],
            final(self).pending() == rest(old(self).pending()),
    {
        proof {
            self@.lemma_pending_unfolds();
            crate::shift_order::lemma_successor_rearranges(self.buffer@);
        }
        if self.start {
            self.start = false;
            assert(self.buffer@.take(self.buffer@.len() as int) =~= self.buffer@);
            return Some(self.buffer.clone());
        }
        match shift_next(&mut self.buffer, self.index) {
            None => None,
            Some((_, next_index)) => {
                self.index = next_index;
                assert(self.buffer@.take(self.buffer@.len() as int) =~= self.buffer@);
                Some(self.buffer.clone())
            },
        }
    }
}

} // verus!
