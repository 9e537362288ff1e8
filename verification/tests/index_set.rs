use cargo_dep::index_set::IndexSet;

#[test]
fn new_set_is_empty() {
    let set = IndexSet::new(5);
    assert_eq!(set.bound(), 5);
    for i in 0..8 {
        assert!(!set.contains(i));
    }
    assert_eq!(set.indices(), Vec::<usize>::new());
}

#[test]
fn set_of_no_capacity() {
    let set = IndexSet::new(0);
    assert_eq!(set.bound(), 0);
    assert!(!set.contains(0));
    assert!(set.indices().is_empty());
}

#[test]
fn insert_adds_one_member() {
    let mut set = IndexSet::new(4);
    set.insert(2);
    assert!(set.contains(2));
    assert!(!set.contains(0));
    assert!(!set.contains(1));
    assert!(!set.contains(3));
    assert_eq!(set.bound(), 4);
}

#[test]
fn insert_twice_is_insert_once() {
    let mut set = IndexSet::new(3);
    set.insert(1);
    set.insert(1);
    assert_eq!(set.indices(), vec![1]);
}

#[test]
fn positions_beyond_the_capacity_are_no_members() {
    let mut set = IndexSet::new(2);
    set.insert(0);
    set.insert(1);
    assert!(!set.contains(2));
    assert!(!set.contains(usize::MAX));
}

#[test]
fn indices_come_in_increasing_order() {
    let mut set = IndexSet::new(10);
    for i in [7, 0, 9, 3, 3, 4] {
        set.insert(i);
    }
    assert_eq!(set.indices(), vec![0, 3, 4, 7, 9]);
}
