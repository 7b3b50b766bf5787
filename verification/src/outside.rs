//! The calls that leave the verified code.  What each contract says is taken
//! on trust from the documentation or the source of the function it calls.

use crate::fast_permutations::rest;
use itertools::{Itertools, Permutations};
use std::vec::IntoIter;
use vstd::prelude::*;

verus! {

/// The iterator of `itertools` over the `k`-permutations of the items of an
/// iterator.
#[verifier::external_type_specification]
#[verifier::external_body]
#[verifier::reject_recursive_types(I)]
pub struct ExPermutations<I: Iterator>(Permutations<I>);

/// What `Itertools::permutations` yields in all, for the items and the length
/// that it is called with.
pub uninterp spec fn k_permutations(items: Seq<usize>, k: nat) -> Seq<Seq<usize>>;

/// What an iterator of `itertools` over permutations has still to yield.
pub uninterp spec fn permutations_left(permutations: Permutations<IntoIter<usize>>) -> Seq<
    Seq<usize>,
>;

/// `Itertools::permutations`, on the items of a vector.  The contract gives
/// what the new iterator has to yield its name; it claims nothing of what
/// that is.
#[verifier::external_body]
pub(crate) fn permutations_of(items: Vec<usize>, k: usize) -> (permutations: Permutations<
    IntoIter<usize>,
>)
    ensures
        permutations_left(permutations) == k_permutations(items@, k as nat),
{
    items.into_iter().permutations(k)
}

/// `next` of the iterator of `itertools` over permutations.  The contract
/// claims that the iterator yields what it has to yield, one at a time and in
/// order, and `None` from then on, as its source shows: the state `End`, once
/// reached, is never left.
#[verifier::external_body]
pub(crate) fn next_permutation(permutations: &mut Permutations<IntoIter<usize>>) -> (yielded:
    Option<Vec<usize>>)
    ensures
        yielded is None <==> permutations_left(*old(permutations)).len() == 0,
        yielded matches Some(a) ==> a@ == permutations_left(*old(permutations))[0],
        permutations_left(*final(permutations)) == rest(permutations_left(*old(permutations))),
{
    permutations.next()
}

/// `sort_unstable` of `std`, on a slice of `usize`.  The contract claims what
/// its documentation says: afterwards the slice holds the elements it held
/// before, in ascending order.
#[verifier::external_body]
pub(crate) fn sort_ascending(v: &mut Vec<usize>)
    ensures
        final(v)@.to_multiset() == old(v)@.to_multiset(),
        forall|i: int, j: int| 0 <= i <= j < final(v)@.len() ==> final(v)@[i] <= final(v)@[j],
{
    v.sort_unstable();
}

/// Whether `item` is `needle`.
pub fn is_item(item: usize, needle: usize) -> (same: bool)
    ensures
        same == (item == needle),
{
    item == needle
}

/// `find_position` of `itertools`, over the items of a vector and with the
/// test for being `needle`.  The contract claims what its documentation says:
/// the result is the position of the first item that passes the test, and
/// `None` where no item passes it.
#[verifier::external_body]
pub(crate) fn first_position_of(items: &Vec<usize>, needle: usize) -> (found: Option<usize>)
    ensures
        match found {
            Some(j) => j < items@.len() && items@[j as int] == needle && forall|i: int|
                0 <= i < j ==> items@[i] != needle,
            None => forall|i: int| 0 <= i < items@.len() ==> items@[i] != needle,
        },
{
    items.iter().find_position(|item| is_item(**item, needle)).map(|found| found.0)
}

} // verus!
