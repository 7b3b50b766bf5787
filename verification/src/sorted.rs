//! The two sorted rearrangements of a sequence.

use crate::outside::sort_ascending;
use crate::shift_order::{lemma_non_increasing_unique, non_increasing};
use vstd::prelude::*;
use vstd::relations::{sorted_by, total_ordering};
use vstd::seq_lib::lemma_sorted_unique;

verus! {

/// No element is followed, anywhere later, by a smaller one.
pub open spec fn non_decreasing(s: Seq<usize>) -> bool {
    forall|i: int, j: int| 0 <= i <= j < s.len() ==> s[i] <= s[j]
}

/// The rearrangement of `s` that is non-decreasing.
pub open spec fn ascending(s: Seq<usize>) -> Seq<usize> {
    s.sort_by(|a: usize, b: usize| a <= b)
}

/// The rearrangement of `s` that is non-increasing.
pub open spec fn descending(s: Seq<usize>) -> Seq<usize> {
    s.sort_by(|a: usize, b: usize| a >= b)
}

/// `ascending(s)` is a non-decreasing rearrangement of `s`.
pub proof fn lemma_ascending(s: Seq<usize>)
    ensures
        non_decreasing(ascending(s)),
        ascending(s).to_multiset() == s.to_multiset(),
        ascending(s).len() == s.len(),
{
    let leq = |a: usize, b: usize| a <= b;
    assert(total_ordering(leq));
    s.lemma_sort_by_ensures(leq);
    s.to_multiset_ensures();
    ascending(s).to_multiset_ensures();
    let t = ascending(s);
    assert forall|i: int, j: int| 0 <= i <= j < t.len() implies t[i] <= t[j] by {
        if i < j {
            assert(leq(t[i], t[j]));
        }
    }
}

/// `descending(s)` is a non-increasing rearrangement of `s`.
pub proof fn lemma_descending(s: Seq<usize>)
    ensures
        non_increasing(descending(s)),
        descending(s).to_multiset() == s.to_multiset(),
        descending(s).len() == s.len(),
{
    let geq = |a: usize, b: usize| a >= b;
    assert(total_ordering(geq));
    s.lemma_sort_by_ensures(geq);
    s.to_multiset_ensures();
    descending(s).to_multiset_ensures();
    let t = descending(s);
    assert forall|i: int, j: int| 0 <= i <= j < t.len() implies t[i] >= t[j] by {
        if i < j {
            assert(geq(t[i], t[j]));
        }
    }
}

/// `ascending(s)` is the only non-decreasing rearrangement of `s`.
pub proof fn lemma_ascending_unique(s: Seq<usize>, t: Seq<usize>)
    requires
        non_decreasing(t),
        t.to_multiset() == s.to_multiset(),
    ensures
        t == ascending(s),
{
    let leq = |a: usize, b: usize| a <= b;
    lemma_ascending(s);
    assert(total_ordering(leq));
    assert(sorted_by(t, leq));
    assert(sorted_by(ascending(s), leq));
    lemma_sorted_unique(t, ascending(s), leq);
}

/// `descending(s)` is the only non-increasing rearrangement of `s`.
pub proof fn lemma_descending_unique(s: Seq<usize>, t: Seq<usize>)
    requires
        non_increasing(t),
        t.to_multiset() == s.to_multiset(),
    ensures
        t == descending(s),
{
    lemma_descending(s);
    lemma_non_increasing_unique(t, descending(s));
}

/// Rearrangements of one another have the same sorted rearrangements.
pub proof fn lemma_sorted_of_rearrangement(s: Seq<usize>, t: Seq<usize>)
    requires
        s.to_multiset() == t.to_multiset(),
    ensures
        ascending(s) == ascending(t),
        descending(s) == descending(t),
{
    lemma_ascending(s);
    lemma_ascending_unique(t, ascending(s));
    lemma_descending(s);
    lemma_descending_unique(t, descending(s));
}

/// The items in ascending order.
pub fn sorted_ascending(items: Vec<usize>) -> (sorted: Vec<usize>)
    ensures
        sorted@ == ascending(items@),
{
    let mut sorted = items;
    sort_ascending(&mut sorted);
    proof {
        lemma_ascending_unique(items@, sorted@);
    }
    sorted
}

/// The items in descending order.
pub fn sorted_descending(items: Vec<usize>) -> (sorted: Vec<usize>)
    ensures
        sorted@ == descending(items@),
{
    let mut sorted = items;
    sort_ascending(&mut sorted);
    let ghost up = sorted@;
    let n: usize = sorted.len();
    let mut i: usize = 0;
    while i < n / 2
        invariant
            n == sorted.len(),
            n == up.len(),
            i <= n / 2,
            forall|j: int| 0 <= j < i ==> sorted[j] == up[n - 1 - j],
            forall|j: int| n - i <= j < n ==> sorted[j] == up[n - 1 - j],
            forall|j: int| i <= j < n - i ==> sorted[j] == up[j],
        decreases n / 2 - i,
    {
        let front = sorted[i];
        let back = sorted[n - 1 - i];
        sorted.set(i, back);
        sorted.set(n - 1 - i, front);
        i += 1;
    }
    proof {
        assert(sorted@ =~= up.reverse());
        up.lemma_reverse_to_multiset();
        assert(non_increasing(sorted@)) by {
            assert forall|a: int, b: int| 0 <= a <= b < sorted@.len() implies sorted@[a]
                >= sorted@[b] by {
                assert(up[n - 1 - b] <= up[n - 1 - a]);
            }
        }
        lemma_descending_unique(items@, sorted@);
    }
    sorted
}

} // verus!
