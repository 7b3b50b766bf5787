use derangements::exclusion::{
    accepts_by_position, accepts_by_value, accepts_listed, accepts_own_position, contains_item,
};
use derangements::shift_order::{rotate_to_front, shift_next};
use derangements::sorted::{sorted_ascending, sorted_descending};
use std::collections::HashMap;

#[test]
fn rotating_moves_one_item_to_the_front() {
    let mut items = vec![4usize, 5, 6, 7, 8];
    rotate_to_front(&mut items, 3);
    assert_eq!(items, vec![7, 4, 5, 6, 8]);
    rotate_to_front(&mut items, 0);
    assert_eq!(items, vec![7, 4, 5, 6, 8]);
    rotate_to_front(&mut items, 4);
    assert_eq!(items, vec![8, 7, 4, 5, 6]);
}

#[test]
fn shifting_goes_through_the_order_and_stops() {
    let mut buffer = vec![2usize, 1, 0];
    let mut index = 1;
    let mut seen = vec![buffer.clone()];
    let mut moved_from = Vec::new();
    while let Some((from, next_index)) = shift_next(&mut buffer, index) {
        index = next_index;
        moved_from.push(from);
        seen.push(buffer.clone());
    }
    assert_eq!(
        seen,
        vec![
            vec![2, 1, 0],
            vec![0, 2, 1],
            vec![2, 0, 1],
            vec![1, 2, 0],
            vec![0, 1, 2],
            vec![1, 0, 2],
        ]
    );
    assert_eq!(moved_from, vec![2, 1, 2, 2, 1]);
    assert_eq!(shift_next(&mut buffer, index), None);
    assert_eq!(buffer, vec![1, 0, 2]);
}

#[test]
fn short_buffers_have_no_successor() {
    let mut none: Vec<usize> = Vec::new();
    assert_eq!(shift_next(&mut none, 0), None);
    let mut one = vec![9usize];
    assert_eq!(shift_next(&mut one, 0), None);
    assert_eq!(one, vec![9]);
    let mut same = vec![3usize, 3];
    assert_eq!(shift_next(&mut same, 0), None);
    let mut two = vec![3usize, 1];
    assert_eq!(shift_next(&mut two, 0), Some((1, 0)));
    assert_eq!(two, vec![1, 3]);
    assert_eq!(shift_next(&mut two, 0), None);
}

#[test]
fn sorting_both_ways() {
    assert_eq!(sorted_ascending(vec![3, 1, 2, 1, 9, 0]), vec![0, 1, 1, 2, 3, 9]);
    assert_eq!(sorted_descending(vec![3, 1, 2, 1, 9, 0]), vec![9, 3, 2, 1, 1, 0]);
    assert_eq!(sorted_descending(vec![3, 1, 2, 1, 9]), vec![9, 3, 2, 1, 1]);
    assert_eq!(sorted_ascending(Vec::new()), Vec::<usize>::new());
    assert_eq!(sorted_descending(Vec::new()), Vec::<usize>::new());
    assert_eq!(sorted_descending(vec![7]), vec![7]);
}

#[test]
fn finding_items() {
    assert!(contains_item(&vec![4, 2, 8], 8));
    assert!(contains_item(&vec![4, 2, 8], 4));
    assert!(!contains_item(&vec![4, 2, 8], 5));
    assert!(!contains_item(&Vec::new(), 0));
}

#[test]
fn rules_accept_and_reject() {
    assert!(accepts_own_position(&vec![1, 0, 3, 2]));
    assert!(!accepts_own_position(&vec![1, 0, 2]));
    assert!(accepts_own_position(&vec![7, 9]));
    assert!(accepts_own_position(&Vec::new()));

    assert!(accepts_listed(&vec![1, 2], &vec![2, 1, 1]));
    assert!(!accepts_listed(&vec![1, 2], &vec![0, 2, 1]));
    assert!(accepts_listed(&Vec::new(), &Vec::new()));

    let by_position = HashMap::from([(0usize, vec![0usize, 1]), (2, vec![5])]);
    assert!(accepts_by_position(&vec![2, 0, 4], &by_position));
    assert!(!accepts_by_position(&vec![1, 0, 4], &by_position));
    assert!(!accepts_by_position(&vec![2, 0, 5], &by_position));
    assert!(accepts_by_position(&vec![5, 1], &by_position));

    let by_value = HashMap::from([(0usize, vec![0usize, 1]), (2, vec![5])]);
    assert!(accepts_by_value(&vec![2, 1, 0], &by_value));
    assert!(!accepts_by_value(&vec![2, 0, 1], &by_value));
    assert!(!accepts_by_value(&vec![0, 2], &by_value));
    assert!(!accepts_by_value(&vec![1, 1, 1, 1, 1, 2], &by_value));
}
