use std::sync::Arc;

use mosaic::query_iterator::{Engine, QueryIterator};

struct Store;

impl Engine for Store {
    type Item = usize;
}

fn query(ids: Vec<usize>) -> QueryIterator<Store> {
    QueryIterator::new(Arc::new(Store), ids)
}

#[test]
fn query_len_and_emptiness() {
    assert_eq!(query(vec![3, 1, 2]).len(), 3);
    assert!(!query(vec![3]).is_empty());
    assert!(query(vec![]).is_empty());
}

#[test]
fn query_sort_orders_the_identifiers() {
    let mut q = query(vec![3, 1, 2, 1]);
    q.sort();
    assert_eq!(q.as_vec(), vec![1, 1, 2, 3]);
    assert_eq!(q.as_slice(), &[1, 1, 2, 3]);
}

#[test]
fn query_union_keeps_first_occurrences() {
    let u = query(vec![3, 1, 3]).union(query(vec![2, 1]));
    assert_eq!(u.as_vec(), vec![3, 1, 2]);
}

#[test]
fn query_intersect_keeps_shared_identifiers_once() {
    let i = query(vec![3, 1, 3, 2]).intersect(query(vec![2, 3]));
    assert_eq!(i.as_vec(), vec![3, 2]);
    let none = query(vec![1, 2]).intersect(query(vec![]));
    assert!(none.is_empty());
}

#[test]
fn query_contains() {
    let q = query(vec![4, 5]);
    assert!(q.contains(&5));
    assert!(!q.contains(&6));
}
