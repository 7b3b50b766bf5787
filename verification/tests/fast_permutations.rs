use derangements::fast_permutations::{DistinctPermutations, FastPermutations};
use derangements::{distinct_permutations, fast_permutations};
use itertools::{assert_equal, Itertools};

fn all_of(mut generator: FastPermutations) -> Vec<Vec<usize>> {
    let mut all = Vec::new();
    while let Some(arrangement) = generator.next() {
        all.push(arrangement);
    }
    all
}

fn all_distinct(mut generator: DistinctPermutations) -> Vec<Vec<usize>> {
    let mut all = Vec::new();
    while let Some(arrangement) = generator.next() {
        all.push(arrangement);
    }
    all
}

fn factorial(n: usize) -> usize {
    (1..=n).product()
}

#[test]
fn test_permutations_range() {
    for k in 0..8 {
        assert_equal(
            all_of(fast_permutations((0..k).collect_vec(), k)).into_iter().sorted(),
            Itertools::permutations(0..k, k).sorted(),
        );
    }
}

#[test]
fn test_permutations_manual() {
    assert_equal(
        all_of(fast_permutations(vec![0usize, 2], 2)),
        [[0, 2], [2, 0]],
    );
    assert_equal(
        all_of(fast_permutations(vec![0, 1, 3], 3)),
        [
            [0, 1, 3],
            [3, 0, 1],
            [0, 3, 1],
            [1, 0, 3],
            [3, 1, 0],
            [1, 3, 0],
        ],
    );
    assert_equal(
        all_of(fast_permutations(vec![0usize, 1, 3], 2)),
        [[0, 1], [3, 0], [0, 3], [1, 0], [3, 1], [1, 3]],
    );
    assert_equal(
        all_of(fast_permutations(vec![0, 1, 1], 3)),
        [
            [0, 1, 1],
            [1, 0, 1],
            [0, 1, 1],
            [1, 0, 1],
            [1, 1, 0],
            [1, 1, 0],
        ],
    );
    assert_equal(
        all_of(fast_permutations(vec![0usize, 1, 1], 2)),
        [[0, 1], [1, 0], [0, 1], [1, 0], [1, 1], [1, 1]],
    );
}

#[test]
fn test_distinct_permutations() {
    assert_equal(
        all_distinct(distinct_permutations(vec![0, 1, 3])),
        [
            [3, 1, 0],
            [0, 3, 1],
            [3, 0, 1],
            [1, 3, 0],
            [0, 1, 3],
            [1, 0, 3],
        ],
    );
    assert_equal(
        all_distinct(distinct_permutations(vec![0, 1, 1])),
        [[1, 1, 0], [0, 1, 1], [1, 0, 1]],
    );
}

#[test]
fn permutations_of_three_in_order() {
    assert_equal(
        all_of(fast_permutations(vec![0usize, 1, 2], 3)),
        [[0, 1, 2], [2, 0, 1], [0, 2, 1], [1, 0, 2], [2, 1, 0], [1, 2, 0]],
    );
    assert_equal(
        all_of(fast_permutations(vec![0usize, 1, 2], 2)),
        [[0, 1], [2, 0], [0, 2], [1, 0], [2, 1], [1, 2]],
    );
}

#[test]
fn unsorted_input_is_sorted_first() {
    assert_equal(
        all_of(fast_permutations(vec![3usize, 0, 1], 3)),
        all_of(fast_permutations(vec![0usize, 1, 3], 3)),
    );
    let generator = fast_permutations(vec![5usize, 2, 9, 2], 4);
    assert_eq!(generator.get_values(), vec![2, 2, 5, 9]);
    assert_equal(
        all_distinct(distinct_permutations(vec![1usize, 3, 0])),
        all_distinct(distinct_permutations(vec![0usize, 1, 3])),
    );
}

#[test]
fn get_values_follows_the_arrangement() {
    let mut generator = fast_permutations(vec![0usize, 1, 3], 2);
    assert_eq!(generator.get_values(), vec![0, 1, 3]);
    assert_eq!(generator.next(), Some(vec![0, 1]));
    assert_eq!(generator.get_values(), vec![0, 1, 3]);
    assert_eq!(generator.next(), Some(vec![3, 0]));
    assert_eq!(generator.get_values(), vec![3, 0, 1]);
}

#[test]
fn full_length_emits_each_ordering_of_the_positions() {
    for n in 0..8usize {
        let all = all_of(fast_permutations((0..n).collect_vec(), n));
        assert_eq!(all.len(), factorial(n));
        assert_eq!(all.iter().unique().count(), factorial(n));
        for arrangement in &all {
            assert_equal(arrangement.iter().copied().sorted(), 0..n);
        }
    }
}

#[test]
fn equal_items_come_as_often_as_their_orderings() {
    let all = all_of(fast_permutations(vec![4usize, 4, 7, 7, 7], 5));
    assert_eq!(all.len(), 120);
    let counts = all.iter().counts();
    assert_eq!(counts.len(), 10);
    for (_, count) in counts {
        assert_eq!(count, 12);
    }
}

#[test]
fn distinct_permutations_come_once_each() {
    let all = all_distinct(distinct_permutations(vec![4usize, 4, 7, 7, 7, 1]));
    assert_eq!(all.len(), 60);
    assert_eq!(all.iter().unique().count(), 60);
    assert_eq!(all[0], vec![7, 7, 7, 4, 4, 1]);
    for arrangement in &all {
        assert_equal(arrangement.iter().copied().sorted(), [1, 4, 4, 7, 7, 7]);
    }
    assert_equal(
        all.into_iter().sorted(),
        Itertools::permutations([1usize, 4, 4, 7, 7, 7].into_iter(), 6).unique().sorted(),
    );
}

#[test]
fn prefixes_are_those_of_the_full_permutations() {
    let items = vec![2usize, 0, 5, 5, 1];
    let full = all_of(fast_permutations(items.clone(), 5));
    for k in 1..5usize {
        let short = all_of(fast_permutations(items.clone(), k));
        assert_eq!(short.len(), full.len());
        for (prefix, arrangement) in short.iter().zip(full.iter()) {
            assert_eq!(prefix[..], arrangement[..k]);
        }
    }
}

#[test]
fn two_generators_of_one_input_agree() {
    let first = all_of(fast_permutations(vec![3usize, 1, 1, 2], 3));
    let second = all_of(fast_permutations(vec![3usize, 1, 1, 2], 3));
    assert_eq!(first, second);
}

#[test]
fn length_zero_gives_one_empty_arrangement() {
    let mut generator = fast_permutations(vec![1usize, 2, 3], 0);
    assert_eq!(generator.next(), Some(vec![]));
    assert_eq!(generator.next(), None);
    assert_eq!(generator.next(), None);
    let mut empty = fast_permutations(Vec::new(), 0);
    assert_eq!(empty.next(), Some(vec![]));
    assert_eq!(empty.next(), None);
    let mut distinct = distinct_permutations(Vec::new());
    assert_eq!(distinct.next(), Some(vec![]));
    assert_eq!(distinct.next(), None);
}

#[test]
fn exhausted_generators_stay_exhausted() {
    let mut generator = fast_permutations(vec![0usize, 1], 2);
    assert_eq!(generator.next(), Some(vec![0, 1]));
    assert_eq!(generator.next(), Some(vec![1, 0]));
    for _ in 0..4 {
        assert_eq!(generator.next(), None);
    }
    let mut single = distinct_permutations(vec![6usize, 6, 6]);
    assert_eq!(single.next(), Some(vec![6, 6, 6]));
    for _ in 0..4 {
        assert_eq!(single.next(), None);
    }
}
