use derangements::{Derangements, DistinctDerangements};
use derangements::{derangements, derangements_range, distinct_derangements};
use itertools::{assert_equal, Itertools};

fn all_of(mut generator: Derangements) -> Vec<Vec<usize>> {
    let mut all = Vec::new();
    while let Some(arrangement) = generator.next() {
        all.push(arrangement);
    }
    all
}

fn all_distinct(mut generator: DistinctDerangements) -> Vec<Vec<usize>> {
    let mut all = Vec::new();
    while let Some(arrangement) = generator.next() {
        all.push(arrangement);
    }
    all
}

#[test]
fn derangements_test_nonrange_range() {
    for k in 0..8 {
        assert_equal(
            derangements_range(k).into_iter().sorted(),
            all_of(derangements((0..k).collect_vec(), k)).into_iter().sorted(),
        );
    }
}

#[test]
fn test_nonrange_manual() {
    assert_equal(all_of(derangements(vec![0usize, 2], 2)), [[2, 0]]);
    assert_equal(
        all_of(derangements(vec![0, 1, 3], 3)),
        [[3, 0, 1], [1, 0, 3], [1, 3, 0]],
    );
    assert_equal(
        all_of(derangements(vec![0usize, 1, 3], 2)),
        [[3, 0], [1, 0], [1, 3]],
    );
    assert_equal(
        all_of(derangements(vec![0, 1, 1], 3)),
        [[1, 0, 1], [1, 0, 1]],
    );
    assert_equal(
        all_of(derangements(vec![0usize, 1, 1], 2)),
        [[1, 0], [1, 0]],
    );
}

#[test]
fn test_nonrange_distinct() {
    assert_equal(
        all_distinct(distinct_derangements(vec![0, 1, 3])),
        [[3, 0, 1], [1, 3, 0], [1, 0, 3]],
    );
    assert_equal(
        all_distinct(distinct_derangements(vec![0, 1, 1])),
        [[1, 0, 1]],
    );
}

#[test]
fn derangements_of_three() {
    assert_equal(
        all_of(derangements(vec![0usize, 1, 2], 3)),
        [[2, 0, 1], [1, 2, 0]],
    );
    assert_equal(
        all_of(derangements(vec![0usize, 1, 2], 2)),
        [[2, 0], [1, 0], [1, 2]],
    );
    assert_equal(
        all_of(derangements(vec![0usize, 1, 7], 3)),
        [[7, 0, 1], [1, 0, 7], [1, 7, 0]],
    );
    assert_equal(
        all_distinct(distinct_derangements(vec![0usize, 1, 2])),
        [[2, 0, 1], [1, 2, 0]],
    );
    assert_equal(
        all_distinct(distinct_derangements(vec![0usize, 1, 7])),
        [[7, 0, 1], [1, 7, 0], [1, 0, 7]],
    );
}

#[test]
fn derangement_counts() {
    let known = [1usize, 0, 1, 2, 9, 44, 265, 1854, 14833];
    for (n, count) in known.iter().enumerate() {
        assert_eq!(all_of(derangements((0..n).collect_vec(), n)).len(), *count);
        assert_eq!(all_distinct(distinct_derangements((0..n).collect_vec())).len(), *count);
    }
}

#[test]
fn distinct_derangements_are_those_of_the_filter() {
    for n in 0..7usize {
        assert_equal(
            all_distinct(distinct_derangements((0..n).collect_vec())).into_iter().sorted(),
            all_of(derangements((0..n).collect_vec(), n)).into_iter().sorted(),
        );
    }
    assert_equal(
        all_distinct(distinct_derangements(vec![0usize, 0, 1, 2, 2])).into_iter().sorted(),
        all_of(derangements(vec![0usize, 0, 1, 2, 2], 5)).into_iter().unique().sorted(),
    );
}

#[test]
fn a_filter_that_rejects_all_is_exhausted_at_once() {
    let mut generator = derangements(vec![0usize], 1);
    assert_eq!(generator.next(), None);
    assert_eq!(generator.next(), None);
    let mut distinct = distinct_derangements(vec![0usize]);
    assert_eq!(distinct.next(), None);
    assert_eq!(distinct.next(), None);
    let mut zeros = distinct_derangements(vec![0usize, 0, 0]);
    assert_eq!(zeros.next(), None);
}

#[test]
fn empty_derangements() {
    let mut generator = derangements(vec![3usize, 4], 0);
    assert_eq!(generator.next(), Some(vec![]));
    assert_eq!(generator.next(), None);
    let mut distinct = distinct_derangements(Vec::new());
    assert_eq!(distinct.next(), Some(vec![]));
    assert_eq!(distinct.next(), None);
}
