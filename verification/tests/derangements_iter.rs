use derangements::Derangements as ShiftedDerangements;
use derangements::derangements_iter::{
    derangements_iter, distinct_derangements, multiset_permutations, Derangements,
    DistinctDerangements, MultisetPermutations,
};
use derangements::{derangements, derangements_range, derangements_range_fast};
use itertools::{assert_equal, Itertools};
use std::time::Instant;

fn all_of(mut generator: Derangements) -> Vec<Vec<usize>> {
    let mut all = Vec::new();
    while let Some(arrangement) = generator.next() {
        all.push(arrangement);
    }
    all
}

fn all_shifted(mut generator: ShiftedDerangements) -> Vec<Vec<usize>> {
    let mut all = Vec::new();
    while let Some(arrangement) = generator.next() {
        all.push(arrangement);
    }
    all
}

fn all_distinct(mut generator: DistinctDerangements) -> Vec<Vec<usize>> {
    let mut all = Vec::new();
    while let Some(arrangement) = generator.next() {
        all.push(arrangement);
    }
    all
}

fn all_permutations(mut generator: MultisetPermutations) -> Vec<Vec<usize>> {
    let mut all = Vec::new();
    while let Some(arrangement) = generator.next() {
        all.push(arrangement);
    }
    all
}

#[test]
fn derangements_manual() {
    assert_equal(all_of(derangements_iter((0..1).collect_vec(), 1)), Vec::<Vec<usize>>::new());
    assert_equal(all_of(derangements_iter((0..2).collect_vec(), 2)), vec![[1, 0]]);
    assert_equal(
        all_of(derangements_iter((0..3).collect_vec(), 3)),
        vec![[1, 2, 0], [2, 0, 1]],
    );
    assert_equal(
        all_of(derangements_iter((0..3).collect_vec(), 2)),
        vec![[1, 0], [1, 2], [2, 0]],
    );
    assert_equal(
        all_of(derangements_iter(vec![0, 0, 1], 3)),
        vec![[1, 0, 0], [1, 0, 0]],
    );
    for k in 8..10 {
        println!("{:?}", (0..k).permutations(k).collect_vec().len());
        println!("{:?}", all_permutations(multiset_permutations((0..k).collect_vec())).len());
        println!("{:?}", all_distinct(distinct_derangements((0..k).collect_vec())).len());
        println!("{:?}", all_of(derangements_iter((0..k).collect_vec(), k)).len());
    }
}

#[test]
fn test_time() {
    for k in 0..10 {
        let before = Instant::now();
        _ = derangements_range(k).len();
        let between = Instant::now();
        _ = derangements_range_fast(k).len();
        let between2 = Instant::now();
        _ = all_shifted(derangements((0..k).collect_vec(), k)).len();
        let after = Instant::now();
        _ = all_of(derangements_iter((0..k).collect_vec(), k)).len();
        let after2 = Instant::now();
        _ = all_distinct(distinct_derangements((0..k).collect_vec())).len();
        let after3 = Instant::now();
        println!(
            "{:?}, range old {:?}, range new {:?}, non-range {:?}, iter: {:?}, distinct_iter: {:?}",
            k,
            between - before,
            between2 - between,
            after - between2,
            after2 - after,
            after3 - after2
        )
    }
}

#[test]
fn multiset_permutations_come_once_each() {
    assert_equal(
        all_permutations(multiset_permutations(vec![0usize, 1, 1])),
        [[1, 1, 0], [0, 1, 1], [1, 0, 1]],
    );
    let all = all_permutations(multiset_permutations(vec![2usize, 0, 2, 1, 0]));
    assert_eq!(all.len(), 30);
    assert_eq!(all.iter().unique().count(), 30);
    assert_eq!(all[0], vec![2, 2, 1, 0, 0]);
    let mut empty = multiset_permutations(Vec::new());
    assert_eq!(empty.next(), Some(vec![]));
    assert_eq!(empty.next(), None);
}

#[test]
fn derangements_by_either_order_are_the_same_set() {
    for n in 0..7usize {
        assert_equal(
            all_of(derangements_iter((0..n).collect_vec(), n)).into_iter().sorted(),
            all_shifted(derangements((0..n).collect_vec(), n)).into_iter().sorted(),
        );
    }
}

#[test]
fn derangements_longer_than_the_items_are_none() {
    let mut generator = derangements_iter(vec![1usize, 0], 3);
    assert_eq!(generator.next(), None);
    assert_eq!(generator.next(), None);
    let mut empty = derangements_iter(vec![1usize, 0], 0);
    assert_eq!(empty.next(), Some(vec![]));
    assert_eq!(empty.next(), None);
}
