use read_holds::grouping::group_by_key;
use read_holds::id_bundle::{map_keys, set_items, CollectionId, CollectionIdBundle};
use std::collections::{BTreeMap, BTreeSet};

fn bundle(storage: &[u64], compute: &[(u64, u64)]) -> CollectionIdBundle {
    let mut b = CollectionIdBundle::new();
    for id in storage {
        b.insert_storage(*id);
    }
    for (instance, id) in compute {
        b.insert_compute(*instance, *id);
    }
    b
}

#[test]
fn new_bundle_is_empty() {
    let b = CollectionIdBundle::new();
    assert!(b.is_empty());
    assert_eq!(b.storage_list(), Vec::<u64>::new());
    assert_eq!(b.compute_list(), Vec::<(u64, u64)>::new());
}

#[test]
fn bundle_with_an_instance_without_ids_is_empty() {
    let mut b = CollectionIdBundle::new();
    b.compute_ids.insert(3, BTreeSet::new());
    assert!(b.is_empty());
    b.insert_compute(4, 1);
    assert!(!b.is_empty());
}

#[test]
fn insert_and_contains() {
    let b = bundle(&[1, 2], &[(7, 3), (7, 4), (8, 3)]);
    assert!(b.contains_storage(1));
    assert!(!b.contains_storage(3));
    assert!(b.contains_compute(7, 3));
    assert!(b.contains_compute(8, 3));
    assert!(!b.contains_compute(8, 4));
    assert!(!b.contains_compute(9, 3));
    assert!(!b.is_empty());
}

#[test]
fn lists_name_each_id_once() {
    let b = bundle(&[2, 1, 2], &[(7, 4), (7, 3), (8, 3), (7, 4)]);
    assert_eq!(b.storage_list(), vec![1, 2]);
    assert_eq!(b.compute_list(), vec![(7, 3), (7, 4), (8, 3)]);
}

#[test]
fn remove_forgets_an_instance_without_ids() {
    let mut b = bundle(&[1], &[(7, 3), (7, 4)]);
    b.remove_compute(7, 3);
    assert!(b.contains_compute(7, 4));
    b.remove_compute(7, 4);
    assert!(!b.compute_ids.contains_key(&7));
    b.remove_compute(7, 4);
    b.remove_storage(1);
    b.remove_storage(1);
    assert!(b.is_empty());
}

#[test]
fn remove_by_collection_id() {
    let mut b = bundle(&[1, 2], &[(7, 2)]);
    b.remove(CollectionId::Storage(2));
    assert_eq!(b, bundle(&[1], &[(7, 2)]));
    b.remove(CollectionId::Compute(7, 2));
    assert_eq!(b, bundle(&[1], &[]));
    b.remove(CollectionId::Compute(7, 2));
    assert_eq!(b, bundle(&[1], &[]));
}

#[test]
fn extend_is_the_union() {
    let mut a = bundle(&[1, 2], &[(7, 3)]);
    let b = bundle(&[2, 5], &[(7, 4), (8, 1)]);
    a.extend(&b);
    assert_eq!(a, bundle(&[1, 2, 5], &[(7, 3), (7, 4), (8, 1)]));
}

#[test]
fn intersection_keeps_the_common_ids() {
    let a = bundle(&[1, 2, 3], &[(7, 3), (7, 4), (8, 1)]);
    let b = bundle(&[2, 3, 5], &[(7, 4), (8, 2), (9, 1)]);
    let common = a.intersection(&b);
    assert_eq!(common.storage_list(), vec![2, 3]);
    assert_eq!(common.compute_list(), vec![(7, 4)]);
    assert!(a.intersection(&bundle(&[9], &[(7, 9)])).is_empty());
}

#[test]
fn bundle_clone_is_equal() {
    let a = bundle(&[1, 2, 3], &[(7, 3), (7, 4), (8, 1)]);
    assert_eq!(a.clone(), a);
}

#[test]
fn bundles_from_ids() {
    assert_eq!(CollectionIdBundle::from_storage_ids(&vec![3, 1, 3]), bundle(&[1, 3], &[]));
    assert_eq!(
        CollectionIdBundle::from_compute_ids(5, &vec![3, 1, 3]),
        bundle(&[], &[(5, 1), (5, 3)])
    );
    assert!(CollectionIdBundle::from_compute_ids(5, &vec![]).is_empty());
}

#[test]
fn items_and_keys() {
    let mut s = BTreeSet::new();
    s.insert(5u64);
    s.insert(2u64);
    assert_eq!(set_items(&s), vec![2, 5]);
    let mut m: BTreeMap<u64, bool> = BTreeMap::new();
    m.insert(9, true);
    m.insert(4, false);
    assert_eq!(map_keys(&m), vec![4, 9]);
}

#[test]
fn groups_come_in_ascending_order_with_items_in_order() {
    let flat = vec![(5u64, 'a'), (2, 'b'), (5, 'c'), (9, 'd'), (2, 'e'), (5, 'f')];
    let groups = group_by_key(flat);
    assert_eq!(
        groups,
        vec![(2, vec!['b', 'e']), (5, vec!['a', 'c', 'f']), (9, vec!['d'])]
    );
    assert_eq!(group_by_key(Vec::<(u64, u8)>::new()), vec![]);
}

#[test]
fn a_bundle_is_well_formed_where_each_instance_has_ids() {
    let mut b = bundle(&[1], &[(7, 3), (8, 4)]);
    assert!(b.is_well_formed());
    assert!(CollectionIdBundle::new().is_well_formed());
    b.compute_ids.insert(9, BTreeSet::new());
    assert!(!b.is_well_formed());
    // What is made from it names no instance without ids.
    assert!(b.intersection(&b).is_well_formed());
    let mut fresh = CollectionIdBundle::new();
    fresh.extend(&b);
    assert!(fresh.is_well_formed());
    assert_eq!(fresh, bundle(&[1], &[(7, 3), (8, 4)]));
    // A copy is what the original is.
    assert!(!b.clone().is_well_formed());
}

#[test]
fn changes_keep_a_bundle_well_formed() {
    let mut b = bundle(&[1], &[(7, 3), (7, 4), (8, 4)]);
    b.remove(CollectionId::Compute(8, 4));
    assert!(b.is_well_formed());
    assert_eq!(map_keys(&b.compute_ids), vec![7]);
    b.remove_compute(7, 3);
    b.remove(CollectionId::Compute(7, 4));
    assert!(b.is_well_formed());
    assert!(b.compute_ids.is_empty());
    b.extend(&bundle(&[], &[(9, 1)]));
    b.insert_compute(9, 2);
    b.remove_storage(1);
    assert!(b.is_well_formed());
    assert_eq!(b, bundle(&[], &[(9, 1), (9, 2)]));
}
