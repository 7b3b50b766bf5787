use derangements::Derangements;
use derangements::restricted_permutations::{
    RestrictedPermutations, RestrictedPermutationsByMapIndex, RestrictedPermutationsByMapValue,
};
use derangements::{
    derangements, restricted_permutations, restricted_permutations_by_map_index,
    restricted_permutations_by_map_value, restricted_permutations_by_self,
};
use itertools::{assert_equal, Itertools};
use std::collections::HashMap;

fn all_of(mut generator: RestrictedPermutations) -> Vec<Vec<usize>> {
    let mut all = Vec::new();
    while let Some(arrangement) = generator.next() {
        all.push(arrangement);
    }
    all
}

fn all_by_index(mut generator: RestrictedPermutationsByMapIndex) -> Vec<Vec<usize>> {
    let mut all = Vec::new();
    while let Some(arrangement) = generator.next() {
        all.push(arrangement);
    }
    all
}

fn all_by_value(mut generator: RestrictedPermutationsByMapValue) -> Vec<Vec<usize>> {
    let mut all = Vec::new();
    while let Some(arrangement) = generator.next() {
        all.push(arrangement);
    }
    all
}

fn all_deranged(mut generator: Derangements) -> Vec<Vec<usize>> {
    let mut all = Vec::new();
    while let Some(arrangement) = generator.next() {
        all.push(arrangement);
    }
    all
}

#[test]
fn test_self_restricted_manual() {
    assert_equal(
        all_of(restricted_permutations_by_self(vec![1, 0], 2)),
        [[0, 1]],
    );
    assert_equal(
        all_of(restricted_permutations_by_self(vec![1, 0, 2], 3)),
        [[0, 2, 1], [2, 1, 0]],
    );
    assert_equal(
        all_of(restricted_permutations_by_self(vec![1, 0, 2], 2)),
        [[0, 1], [0, 2], [2, 1]],
    );
}

#[test]
fn test_restricted() {
    assert_equal(
        all_of(restricted_permutations(vec![1usize, 0], 2, vec![1, 0])),
        [[0, 1]],
    );
    assert_equal(
        all_of(restricted_permutations_by_self(vec![1, 0, 2], 3)),
        [[0, 2, 1], [2, 1, 0]],
    );
    assert_equal(
        all_of(restricted_permutations_by_self(vec![1, 0, 2], 2)),
        [[0, 1], [0, 2], [2, 1]],
    );
}

#[test]
fn restricted_by_a_list() {
    assert_equal(
        all_of(restricted_permutations(vec![1, 0, 2], 3, vec![1, 0, 2])),
        all_of(restricted_permutations_by_self(vec![1, 0, 2], 3)),
    );
    assert_equal(
        all_of(restricted_permutations(vec![1, 0, 2, 2], 3, vec![1, 0, 2])),
        [
            [0, 2, 1],
            [2, 1, 0],
            [0, 2, 1],
            [2, 2, 0],
            [2, 2, 0],
            [2, 1, 0],
            [2, 2, 1],
            [2, 2, 1],
        ],
    );
}

#[test]
fn restricted_by_maps() {
    let restrict = HashMap::from([(0, vec![0, 1]), (1, vec![1, 2])]);
    assert_equal(
        all_by_index(restricted_permutations_by_map_index(vec![0, 1, 2, 3], 3, restrict.clone()))
            .into_iter()
            .sorted(),
        [[2, 0, 1], [2, 0, 3], [2, 3, 0], [2, 3, 1], [3, 0, 1], [3, 0, 2]],
    );
    assert_equal(
        all_by_value(restricted_permutations_by_map_value(vec![0, 1, 2, 3], 3, restrict))
            .into_iter()
            .sorted(),
        [[1, 2, 0], [1, 2, 3], [1, 3, 0], [1, 3, 2], [2, 3, 0], [3, 2, 0]],
    );
}

#[test]
fn a_map_by_value_and_its_map_by_position_give_the_same() {
    let by_value = HashMap::from([(0usize, vec![0usize, 1]), (1, vec![1, 2]), (3, vec![0])]);
    let mut by_position: HashMap<usize, Vec<usize>> = HashMap::new();
    for (value, positions) in &by_value {
        for position in positions {
            by_position.entry(*position).or_default().push(*value);
        }
    }
    for k in 0..5usize {
        assert_eq!(
            all_by_value(restricted_permutations_by_map_value(
                vec![0, 1, 2, 3],
                k.min(4),
                by_value.clone()
            )),
            all_by_index(restricted_permutations_by_map_index(
                vec![0, 1, 2, 3],
                k.min(4),
                by_position.clone()
            )),
        );
    }
}

#[test]
fn self_restriction_of_a_range_gives_its_derangements() {
    let known = [1usize, 0, 1, 2, 9, 44, 265, 1854, 14833];
    for (n, count) in known.iter().enumerate() {
        let restricted = all_of(restricted_permutations_by_self((0..n).collect_vec(), n));
        assert_eq!(restricted.len(), *count);
        assert_eq!(restricted, all_deranged(derangements((0..n).collect_vec(), n)));
        for arrangement in &restricted {
            assert_equal(arrangement.iter().copied().sorted(), 0..n);
            assert!(arrangement.iter().enumerate().all(|(i, v)| i != *v));
        }
    }
}

#[test]
fn empty_maps_restrict_nothing() {
    assert_eq!(
        all_by_index(restricted_permutations_by_map_index(vec![2, 1, 1], 2, HashMap::new())).len(),
        6
    );
    assert_eq!(
        all_by_value(restricted_permutations_by_map_value(vec![2, 1, 1], 2, HashMap::new())).len(),
        6
    );
}

#[test]
fn restricted_arrangements_of_length_zero() {
    let mut listed = restricted_permutations(vec![1usize, 2], 0, Vec::new());
    assert_eq!(listed.next(), Some(vec![]));
    assert_eq!(listed.next(), None);
    let mut by_index = restricted_permutations_by_map_index(Vec::new(), 0, HashMap::new());
    assert_eq!(by_index.next(), Some(vec![]));
    assert_eq!(by_index.next(), None);
}

#[test]
fn a_rule_that_rejects_all_leaves_nothing() {
    let mut generator = restricted_permutations(vec![5usize, 5], 2, vec![5, 5]);
    assert_eq!(generator.next(), None);
    assert_eq!(generator.next(), None);
    let restrict = HashMap::from([(7usize, vec![0usize, 1])]);
    let mut by_value = restricted_permutations_by_map_value(vec![7, 7], 1, restrict);
    assert_eq!(by_value.next(), None);
}
