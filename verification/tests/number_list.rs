use countdown::number_list::NumberList;
use countdown::operation::{Operation, OperationType};
use countdown::pairs::NumberListPairIterator;

#[test]
fn build_paris() {
    let numbers = NumberList::new(vec![50, 25, 10, 6, 5, 10]);
    // 5, 6, 10, 10, 25, 50

    let expected = vec![
        (6, 5),
        (10, 5),
        (25, 5),
        (50, 5),
        (10, 6),
        (25, 6),
        (50, 6),
        (10, 10),
        (25, 10),
        (50, 10),
        (50, 25),
    ];

    assert_eq!(expected, numbers.build_pairs());
}

#[test]
fn build_paris_2() {
    let numbers = NumberList::new(vec![1, 1, 1]);

    assert_eq!(vec![(1, 1)], numbers.build_pairs());

    let numbers = NumberList::new(vec![1, 1, 1, 2]);

    assert_eq!(vec![(1, 1), (2, 1)], numbers.build_pairs());
}

#[test]
fn new_sorts_ascending() {
    let numbers = NumberList::new(vec![50, 25, 10, 6, 5, 10]);
    assert_eq!(numbers.as_slice(), &[5, 6, 10, 10, 25, 50]);
    assert_eq!(numbers.len(), 6);
}

#[test]
fn lists_with_the_same_numbers_are_equal() {
    let a = NumberList::new(vec![3, 1, 2, 1]);
    let b = NumberList::new(vec![1, 1, 2, 3]);
    let c = NumberList::new(vec![1, 2, 3]);
    let d = NumberList::new(vec![1, 2, 2, 3]);
    assert!(a == b);
    assert!(a != c);
    assert!(a != d);
    assert!(a.clone() == a);
}

#[test]
fn pairs_of_short_lists() {
    assert_eq!(NumberList::new(vec![]).build_pairs(), vec![]);
    assert_eq!(NumberList::new(vec![7]).build_pairs(), vec![]);
    assert_eq!(NumberList::new(vec![7, 3]).build_pairs(), vec![(7, 3)]);
    assert_eq!(NumberList::new(vec![4, 4]).build_pairs(), vec![(4, 4)]);
}

#[test]
fn pairs_cover_every_two_positions_once() {
    let numbers = NumberList::new(vec![2, 9, 2, 7, 9, 9, 1]);
    let sorted = numbers.as_slice().to_vec();
    let pairs = numbers.build_pairs();
    for i in 0..sorted.len() {
        for j in (i + 1)..sorted.len() {
            let wanted = (sorted[j], sorted[i]);
            assert_eq!(pairs.iter().filter(|p| **p == wanted).count(), 1);
        }
    }
    for pair in &pairs {
        assert!(pair.0 >= pair.1);
    }
    assert_eq!(
        pairs,
        vec![(2, 1), (7, 1), (9, 1), (2, 2), (7, 2), (9, 2), (9, 7), (9, 9)]
    );
}

#[test]
fn cursor_hands_out_pairs_one_by_one() {
    let numbers = vec![1, 1, 1, 2];
    let mut cursor = NumberListPairIterator::new(&numbers);
    assert_eq!(cursor.next(), Some((1, 1)));
    assert_eq!(cursor.next(), Some((2, 1)));
    assert_eq!(cursor.next(), None);
    assert_eq!(cursor.next(), None);

    let empty: Vec<u32> = vec![];
    let mut cursor = NumberListPairIterator::new(&empty);
    assert_eq!(cursor.next(), None);
}

#[test]
fn substitute_replaces_operands_by_result() {
    let numbers = NumberList::new(vec![6, 1, 7, 8, 9]);
    let next = numbers.substitute_operation(&Operation::new(7, 8, OperationType::Multiplication));
    assert_eq!(next.as_slice(), &[1, 6, 9, 56]);
    assert_eq!(next.len(), numbers.len() - 1);
    assert_eq!(numbers.as_slice(), &[1, 6, 7, 8, 9]);
}

#[test]
fn substitute_takes_one_occurrence_of_each_operand() {
    let numbers = NumberList::new(vec![10, 10, 10, 5]);
    let doubled = numbers.substitute_operation(&Operation::new(10, 10, OperationType::Addition));
    assert_eq!(doubled.as_slice(), &[5, 10, 20]);

    let divided = numbers.substitute_operation(&Operation::new(10, 10, OperationType::Division));
    assert_eq!(divided.as_slice(), &[1, 5, 10]);

    let lessened = numbers.substitute_operation(&Operation::new(5, 10, OperationType::Subtraction));
    assert_eq!(lessened.as_slice(), &[5, 10, 10]);
}

#[test]
fn substitute_down_to_one_number() {
    let numbers = NumberList::new(vec![3, 4]);
    let next = numbers.substitute_operation(&Operation::new(3, 4, OperationType::Addition));
    assert_eq!(next.as_slice(), &[7]);
    assert_eq!(next.len(), 1);
}
