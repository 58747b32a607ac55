use mosaic::freelist::Freelist;

#[test]
fn freelist_test() {
    let mut freelist = Freelist::default();
    assert_eq!(0, freelist.reserve());
    assert_eq!(1, freelist.reserve());
    assert_eq!(2, freelist.reserve());
    assert_eq!(3, freelist.reserve());
    assert!(freelist.is_valid(2));
    freelist.free(2);
    assert!(!freelist.is_valid(2));
    assert_eq!(2, freelist.reserve());
    assert!(freelist.is_valid(2));
    assert_eq!(4, freelist.reserve());
    freelist.free(1);
    freelist.free(4);
    assert_eq!(1, freelist.reserve());
    assert_eq!(4, freelist.reserve());
    assert_eq!(5, freelist.reserve());
    assert!(!freelist.is_valid(6));
}

#[test]
fn freelist_len_counts_released_ones() {
    let mut f = Freelist::new();
    assert_eq!(f.len(), 0);
    f.reserve();
    f.reserve();
    f.reserve();
    f.free(1);
    assert_eq!(f.len(), 3);
    assert_eq!(f.free, vec![1]);
    f.free(1);
    assert_eq!(f.free, vec![1]);
    assert_eq!(f.len(), 3);
}

#[test]
fn freelist_aliases() {
    let mut f = Freelist::new();
    assert_eq!(f.reserve_alias(100), Some(100));
    assert!(f.is_alias_valid(100));
    assert_eq!(f.alias.get(&100), Some(&0));
    assert_eq!(f.reserve_alias(100), None);
    assert_eq!(f.reserve_alias(7), Some(7));
    assert_eq!(f.alias.get(&7), Some(&1));
    f.free_alias(100);
    assert!(!f.is_alias_valid(100));
    assert!(!f.used.is_member(0));
    assert_eq!(f.free, vec![0]);
    f.safe_free(7);
    assert!(!f.is_alias_valid(7));
    assert!(!f.used.is_member(1));
}

#[test]
fn freelist_safe_free_of_plain_identifier() {
    let mut f = Freelist::new();
    f.reserve();
    f.reserve();
    f.safe_free(1);
    assert!(!f.is_valid(1));
    assert!(f.is_valid(0));
    f.safe_free(1);
    assert_eq!(f.free, vec![1]);
}

#[test]
fn safe_free_of_an_alias_releases_its_slot_behind_the_free_ones() {
    let mut f = Freelist::default();
    assert_eq!(f.reserve(), 0);
    assert_eq!(f.reserve_alias(9), Some(9));
    for k in 2..6 {
        assert_eq!(f.reserve(), k);
    }
    f.free(5);
    assert_eq!(f.free, vec![5]);
    assert!(f.used.is_member(1));
    f.safe_free(9);
    assert!(!f.is_alias_valid(9));
    assert!(!f.used.is_member(1));
    assert_eq!(f.free, vec![5, 1]);
    assert_eq!(f.reserve(), 5);
    assert_eq!(f.reserve(), 1);
}

#[test]
fn safe_free_prefers_the_alias_over_the_plain_index() {
    let mut f = Freelist::default();
    assert_eq!(f.reserve(), 0);
    assert_eq!(f.reserve_alias(0), Some(0));
    f.safe_free(0);
    assert!(!f.is_alias_valid(0));
    assert!(f.used.is_member(0));
    assert!(!f.used.is_member(1));
    assert_eq!(f.free, vec![1]);
}

#[test]
fn freeing_a_slot_not_in_use_changes_nothing() {
    let mut f = Freelist::default();
    f.reserve();
    f.reserve();
    f.free(1);
    let elements = f.used.elements().clone();
    f.free(1);
    f.free(7);
    assert_eq!(f.free, vec![1]);
    assert_eq!(f.used.elements(), &elements);
    assert_eq!(f.used.get_index(0), Some(0));
}
