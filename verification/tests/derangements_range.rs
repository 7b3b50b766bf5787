use derangements::Derangements;
use derangements::derangements_range::DerangementsRangeIterator;
use derangements::{derangements, derangements_by_range, derangements_range, derangements_range_fast};
use itertools::{assert_equal, Itertools};

fn all_of(mut generator: Derangements) -> Vec<Vec<usize>> {
    let mut all = Vec::new();
    while let Some(arrangement) = generator.next() {
        all.push(arrangement);
    }
    all
}

fn all_streamed(mut generator: DerangementsRangeIterator) -> Vec<Vec<usize>> {
    let mut all = Vec::new();
    while let Some(arrangement) = generator.next() {
        all.push(arrangement);
    }
    all
}

#[test]
fn test_range_manual() {
    assert_equal(derangements_range(2), [[1, 0]]);
    assert_equal(derangements_range(3), [[2, 0, 1], [1, 2, 0]]);
    assert_equal(
        derangements_range(4),
        [
            [3, 0, 1, 2],
            [2, 3, 1, 0],
            [2, 0, 3, 1],
            [3, 2, 0, 1],
            [1, 3, 0, 2],
            [1, 2, 3, 0],
            [1, 0, 3, 2],
            [2, 3, 0, 1],
            [3, 2, 1, 0],
        ],
    );
    assert_eq!(derangements_range(8).len(), 14833);
}

#[test]
fn test_range_fast_manual() {
    assert_equal(derangements_range_fast(2), [[1, 0]]);
    assert_equal(derangements_range_fast(3), [[2, 0, 1], [1, 2, 0]]);
    assert_equal(
        derangements_range_fast(4),
        [
            [3, 0, 1, 2],
            [2, 3, 1, 0],
            [2, 0, 3, 1],
            [3, 2, 0, 1],
            [1, 3, 0, 2],
            [1, 2, 3, 0],
            [1, 0, 3, 2],
            [2, 3, 0, 1],
            [3, 2, 1, 0],
        ],
    );
    assert_eq!(derangements_range_fast(8).len(), 14833);
}

#[test]
fn derangements_range_test_nonrange_range() {
    for k in 0..8 {
        assert_equal(
            derangements_range(k).into_iter().sorted(),
            all_of(derangements((0..k).collect_vec(), k)).into_iter().sorted(),
        );
    }
}

#[test]
fn range_of_eight_is_the_filtered_permutations() {
    let built = derangements_range(8);
    assert_eq!(built.len(), 14833);
    assert_equal(
        built.into_iter().sorted(),
        all_of(derangements((0..8).collect_vec(), 8)).into_iter().sorted(),
    );
}

#[test]
fn small_ranges() {
    assert_eq!(derangements_range(0), vec![Vec::<usize>::new()]);
    assert_eq!(derangements_range(1), Vec::<Vec<usize>>::new());
    assert_eq!(derangements_range_fast(0), vec![Vec::<usize>::new()]);
    assert_eq!(derangements_range_fast(1), Vec::<Vec<usize>>::new());
    let mut none = derangements_by_range(1);
    assert_eq!(none.next(), None);
    assert_eq!(none.next(), None);
    let mut one = derangements_by_range(0);
    assert_eq!(one.next(), Some(vec![]));
    assert_eq!(one.next(), None);
    assert_eq!(one.next(), None);
}

#[test]
fn the_three_constructions_agree() {
    for n in 0..9usize {
        let built = derangements_range(n);
        assert_eq!(derangements_range_fast(n), built);
        assert_eq!(all_streamed(derangements_by_range(n)), built);
    }
}

#[test]
fn each_built_arrangement_is_a_derangement_and_comes_once() {
    for n in 0..8usize {
        let built = derangements_range(n);
        assert_eq!(built.iter().unique().count(), built.len());
        for arrangement in &built {
            assert_equal(arrangement.iter().copied().sorted(), 0..n);
            assert!(arrangement.iter().enumerate().all(|(i, v)| i != *v));
        }
    }
}

#[test]
fn a_streamed_range_stays_exhausted() {
    for n in 0..6usize {
        let mut generator = derangements_by_range(n);
        while generator.next().is_some() {}
        for _ in 0..5 {
            assert_eq!(generator.next(), None);
        }
    }
}

#[test]
fn a_copy_of_a_streamed_range_goes_on_from_the_same_place() {
    let mut generator = derangements_by_range(5);
    for _ in 0..17 {
        generator.next();
    }
    let copy = generator.clone();
    assert_eq!(all_streamed(copy), all_streamed(generator));
}
