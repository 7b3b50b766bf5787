//! Lazy generation of permutations, derangements and restricted permutations
//! of a multiset of `usize` values, in the order produced by prefix shifts.
//!
//! * `shift_order` defines the order and proves that it ends, that it holds
//!   every rearrangement and none twice; `counting` proves how many it holds.
//! * `fast_permutations` holds the generators; `derangements`,
//!   `restricted_permutations` and `derangements_iter` filter what a generator
//!   gives by a rule of `exclusion`.
//! * `derangements_range` builds the derangements of `0..n` from those of the
//!   smaller ranges, at once or one by one.
//! * `laws` states what holds of the generators as a whole.
//!
//! Every generator hands out its arrangements through a method `next` and says
//! in `pending` what it has still to give.

pub mod counting;
mod derangements;
pub mod derangements_iter;
pub mod derangements_range;
pub mod exclusion;
pub mod fast_permutations;
pub mod labelling;
pub mod laws;
pub mod outside;
pub mod restricted_permutations;
pub mod shift_order;
pub mod sorted;

pub use derangements::{derangements, distinct_derangements, Derangements, DistinctDerangements};
pub use derangements_range::{derangements_by_range, derangements_range, derangements_range_fast};
pub use fast_permutations::{distinct_permutations, fast_permutations};
pub use restricted_permutations::{
    restricted_permutations, restricted_permutations_by_map_index,
    restricted_permutations_by_map_value, restricted_permutations_by_self,
};
