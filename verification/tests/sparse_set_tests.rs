use mosaic::sparse_set::SparseSet;

#[test]
fn test_sparse_set_addition() {
    let mut s = SparseSet::new();

    s.add(7);
    assert_eq!(s.order_array, [7]);
    assert_eq!(*s.index_array.get(&7).unwrap(), 1);

    s.add(5);
    assert_eq!(s.order_array, [7, 5]);
    assert_eq!(*s.index_array.get(&7).unwrap(), 1);
    assert_eq!(*s.index_array.get(&5).unwrap(), 2);

    s.add(9);
    assert_eq!(s.order_array, [7, 5, 9]);
    assert_eq!(*s.index_array.get(&7).unwrap(), 1);
    assert_eq!(*s.index_array.get(&5).unwrap(), 2);
    assert_eq!(*s.index_array.get(&9).unwrap(), 3);
}

#[test]
fn test_sparse_set_is_member_works_around_one_offset() {
    let mut s = SparseSet::new();
    s.add(7);
    assert!(s.is_member(7));

    s.add(0);
    assert!(s.is_member(0));
}

#[test]
fn test_sparse_set_swap() {
    let mut s = SparseSet::new();
    s.add(7);
    s.add(8);
    s.add(6);
    s.add(9);
    assert_eq!(s.order_max, 4);
    assert_eq!(s.order_array, [7, 8, 6, 9]);
    assert_eq!(*s.index_array.get(&6).unwrap(), 3);
    assert_eq!(*s.index_array.get(&7).unwrap(), 1);
    assert_eq!(*s.index_array.get(&8).unwrap(), 2);
    assert_eq!(*s.index_array.get(&9).unwrap(), 4);

    let p2 = s.get_pair_by_pos(2);
    let p3 = s.get_pair_by_index(3);

    if let (Some(p2), Some(p3)) = (p2, p3) {
        s.swap(&p2, &p3);
        assert_eq!(s.order_array, [7, 8, 9, 6]);
        assert_eq!(*s.index_array.get(&6).unwrap(), 4);
        assert_eq!(*s.index_array.get(&7).unwrap(), 1);
        assert_eq!(*s.index_array.get(&8).unwrap(), 2);
        assert_eq!(*s.index_array.get(&9).unwrap(), 3);
    }
}

#[test]
fn test_sparse_set_removal() {
    let mut s = SparseSet::new();
    s.add(7);
    s.add(8);
    s.add(6);
    s.add(9);
    assert_eq!(s.order_max, 4);
    assert_eq!(s.order_array, [7, 8, 6, 9]);
    assert_eq!(*s.index_array.get(&6).unwrap(), 3);
    assert_eq!(*s.index_array.get(&7).unwrap(), 1);
    assert_eq!(*s.index_array.get(&8).unwrap(), 2);
    assert_eq!(*s.index_array.get(&9).unwrap(), 4);

    s.remove(8);
    assert_eq!(s.order_max, 3);
    assert_eq!(s.order_array, [7, 9, 6]);
    assert_eq!(*s.index_array.get(&6).unwrap(), 3);
    assert_eq!(*s.index_array.get(&7).unwrap(), 1);
    assert_eq!(*s.index_array.get(&8).unwrap(), 0);
    assert_eq!(*s.index_array.get(&9).unwrap(), 2);
}

#[test]
fn sparse_set_swap_moves_both_slots() {
    let mut s = SparseSet::new();
    s.add(7);
    s.add(8);
    s.add(6);
    let a = s.get_pair_by_index(7).unwrap();
    let b = s.get_pair_by_pos(2).unwrap();
    s.swap(&a, &b);
    assert_eq!(s.order_array, [6, 8, 7]);
    assert_eq!(*s.index_array.get(&7).unwrap(), 3);
    assert_eq!(*s.index_array.get(&6).unwrap(), 1);
    assert!(s.is_member(6));
    assert!(s.is_member(7));
}

#[test]
fn sparse_set_get_index_and_len() {
    let mut s = SparseSet::default();
    assert_eq!(s.len(), 0);
    assert_eq!(s.get_index(3), None);
    s.add(3);
    s.add(11);
    assert_eq!(s.len(), 2);
    assert_eq!(s.get_index(3), Some(0));
    assert_eq!(s.get_index(11), Some(1));
    assert_eq!(s.get_index(4), None);
    s.remove(3);
    assert_eq!(s.len(), 1);
    assert_eq!(s.get_index(3), None);
    assert_eq!(s.get_index(11), Some(0));
}

#[test]
fn sparse_set_remove_of_non_member_changes_nothing() {
    let mut s = SparseSet::new();
    s.add(1);
    s.add(2);
    s.remove(5);
    assert_eq!(s.order_max, 2);
    assert_eq!(s.order_array, [1, 2]);
    assert!(s.is_member(1) && s.is_member(2));
}

#[test]
fn sparse_set_clear_keeps_the_arrays() {
    let mut s = SparseSet::new();
    s.add(4);
    s.add(5);
    s.clear();
    assert_eq!(s.len(), 0);
    assert!(!s.is_member(4));
    assert!(!s.is_member(5));
    assert_eq!(s.elements(), &vec![4, 5]);
    s.add(9);
    assert_eq!(s.elements(), &vec![9, 4, 5]);
    assert!(s.is_member(9));
    assert!(!s.is_member(4));
    s.remove(9);
    assert!(!s.is_member(9));
    assert_eq!(s.len(), 0);
}

#[test]
fn sparse_set_add_then_remove_every_member() {
    let mut s = SparseSet::new();
    for i in [5usize, 1, 9, 3] {
        s.add(i);
    }
    for i in [9usize, 5, 3, 1] {
        assert!(s.is_member(i));
        s.remove(i);
        assert!(!s.is_member(i));
    }
    assert_eq!(s.len(), 0);
}

#[test]
fn elements_are_the_members_after_adds_and_removes() {
    let mut s = SparseSet::new();
    for x in [4usize, 9, 2, 7] {
        s.add(x);
    }
    s.remove(9);
    s.remove(4);
    s.add(11);
    let mut e = s.elements().clone();
    assert_eq!(e.len(), s.len());
    e.sort();
    assert_eq!(e, vec![2, 7, 11]);
    for x in 0..13usize {
        assert_eq!(s.elements().contains(&x), s.is_member(x));
    }
}
