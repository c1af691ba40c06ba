use countdown::number_list::NumberList;
use countdown::visited::VisitedSet;

#[test]
fn new_set_is_empty() {
    let set = VisitedSet::new();
    assert!(!set.contains(&NumberList::new(vec![])));
    assert!(!set.contains(&NumberList::new(vec![1, 2, 3])));
}

#[test]
fn insert_then_contains() {
    let mut set = VisitedSet::new();
    set.insert(NumberList::new(vec![3, 1, 2]));
    assert!(set.contains(&NumberList::new(vec![1, 2, 3])));
    assert!(set.contains(&NumberList::new(vec![2, 3, 1])));
    assert!(!set.contains(&NumberList::new(vec![1, 2])));
    assert!(!set.contains(&NumberList::new(vec![1, 2, 3, 3])));
    assert!(!set.contains(&NumberList::new(vec![1, 2, 4])));
    set.insert(NumberList::new(vec![1, 2]));
    set.insert(NumberList::new(vec![1, 2]));
    assert!(set.contains(&NumberList::new(vec![2, 1])));
    assert!(set.contains(&NumberList::new(vec![1, 2, 3])));
}

#[test]
fn many_members() {
    let mut set = VisitedSet::new();
    for a in 0..300u32 {
        for b in 0..20u32 {
            if (a + b) % 3 != 0 {
                set.insert(NumberList::new(vec![a, b * 1000, 7]));
            }
        }
    }
    for a in 0..300u32 {
        for b in 0..20u32 {
            assert_eq!(
                set.contains(&NumberList::new(vec![7, b * 1000, a])),
                (a + b) % 3 != 0
            );
        }
    }
}
