use read_holds::frontier::Frontier;
use read_holds::holds::HoldsMap;
use read_holds::id_bundle::{CollectionId, CollectionIdBundle};
use read_holds::read_holds::{ReadHoldsInner, TimelineReadHolds};

fn at(t: u64) -> Frontier {
    Frontier::from_elem(t)
}

fn bundle(storage: &[u64], compute: &[(u64, u64)]) -> CollectionIdBundle {
    let mut b = CollectionIdBundle::new();
    for id in storage {
        b.insert_storage(*id);
    }
    for (instance, id) in compute {
        b.insert_compute(*instance, *id);
    }
    b
}

fn timeline(entries: Vec<(u64, CollectionIdBundle)>) -> TimelineReadHolds {
    let mut holds = HoldsMap::new();
    for (t, b) in entries {
        holds.extend_at(&at(t), &b);
    }
    TimelineReadHolds { holds }
}

#[test]
fn new_holds_are_empty() {
    let holds = TimelineReadHolds::new();
    assert!(holds.is_empty());
    assert!(holds.times().is_empty());
    assert!(holds.id_bundle().is_empty());
    assert!(holds.storage_ids().is_empty());
    assert!(holds.compute_ids().is_empty());
    let inner = ReadHoldsInner::new();
    assert!(inner.id_bundle().is_empty());
    assert_eq!(inner, ReadHoldsInner::default());
}

#[test]
fn extend_at_merges_into_the_entry_of_the_time() {
    let mut holds = HoldsMap::new();
    holds.extend_at(&at(5), &bundle(&[1], &[]));
    holds.extend_at(&at(7), &bundle(&[2], &[(9, 3)]));
    holds.extend_at(&at(5), &bundle(&[4], &[(9, 5)]));
    assert_eq!(holds.entries.len(), 2);
    assert_eq!(holds.entries[0], (at(5), bundle(&[1, 4], &[(9, 5)])));
    assert_eq!(holds.entries[1], (at(7), bundle(&[2], &[(9, 3)])));
    assert_eq!(holds.find(&at(7)), Some(1));
    assert_eq!(holds.find(&at(6)), None);
    assert_eq!(holds.clone(), holds);
}

#[test]
fn times_and_ids() {
    let holds = timeline(vec![
        (5, bundle(&[1, 2], &[(9, 3)])),
        (7, bundle(&[4], &[(8, 6), (9, 5)])),
    ]);
    assert!(!holds.is_empty());
    assert_eq!(holds.times(), vec![at(5), at(7)]);
    assert_eq!(holds.id_bundle(), bundle(&[1, 2, 4], &[(9, 3), (8, 6), (9, 5)]));
    assert_eq!(holds.storage_ids(), vec![(at(5), 1), (at(5), 2), (at(7), 4)]);
    assert_eq!(
        holds.compute_ids(),
        vec![(8, vec![(at(7), 6)]), (9, vec![(at(5), 3), (at(7), 5)])]
    );
    assert_eq!(
        holds.holds.compute_id_list(),
        vec![(at(5), (9, 3)), (at(7), (8, 6)), (at(7), (9, 5))]
    );
    let inner = ReadHoldsInner { holds: holds.holds.clone() };
    assert_eq!(inner.storage_ids(), holds.storage_ids());
    assert_eq!(inner.compute_ids(), holds.compute_ids());
    assert_eq!(inner.id_bundle(), holds.id_bundle());
}

#[test]
fn extend_with_new_adds_the_other_holds() {
    let mut holds = timeline(vec![(5, bundle(&[1], &[])), (7, bundle(&[2], &[(9, 3)]))]);
    let other = timeline(vec![(7, bundle(&[4], &[])), (8, bundle(&[], &[(9, 6)]))]);
    assert!(holds.is_disjoint_from(&other));
    holds.extend_with_new(other);
    assert_eq!(
        holds,
        timeline(vec![
            (5, bundle(&[1], &[])),
            (7, bundle(&[2, 4], &[(9, 3)])),
            (8, bundle(&[], &[(9, 6)])),
        ])
    );
}

#[test]
fn holds_on_a_collection_held_at_another_time_are_not_new() {
    let holds = timeline(vec![(5, bundle(&[1], &[(9, 3)]))]);
    // The same storage collection at a different time.
    assert!(!holds.is_disjoint_from(&timeline(vec![(7, bundle(&[1], &[]))])));
    // The same compute collection at a different time.
    assert!(!holds.is_disjoint_from(&timeline(vec![(7, bundle(&[], &[(9, 3)]))])));
    // The same collection at the same time.
    assert!(!holds.is_disjoint_from(&timeline(vec![(5, bundle(&[1], &[]))])));
    // Another collection, and the same id in another instance.
    assert!(holds.is_disjoint_from(&timeline(vec![(5, bundle(&[2], &[(8, 3)]))])));
    assert!(holds.is_disjoint_from(&TimelineReadHolds::new()));
}

#[test]
fn remove_storage_id_prunes_empty_entries() {
    let mut holds = timeline(vec![(5, bundle(&[1], &[])), (7, bundle(&[2], &[(9, 3)]))]);
    holds.remove_storage_id(1);
    assert_eq!(holds, timeline(vec![(7, bundle(&[2], &[(9, 3)]))]));
    holds.remove_storage_id(1);
    assert_eq!(holds, timeline(vec![(7, bundle(&[2], &[(9, 3)]))]));
    holds.remove_storage_id(2);
    assert_eq!(holds, timeline(vec![(7, bundle(&[], &[(9, 3)]))]));
}

#[test]
fn remove_compute_id_prunes_empty_entries() {
    let mut holds = timeline(vec![(5, bundle(&[1], &[(9, 3)])), (7, bundle(&[], &[(9, 4)]))]);
    // Another instance with the same id is another collection.
    holds.remove_compute_id(8, 4);
    assert_eq!(holds.times(), vec![at(5), at(7)]);
    holds.remove_compute_id(9, 4);
    assert_eq!(holds, timeline(vec![(5, bundle(&[1], &[(9, 3)]))]));
    holds.remove_compute_id(9, 3);
    assert_eq!(holds, timeline(vec![(5, bundle(&[1], &[]))]));
    holds.holds.remove_id(CollectionId::Storage(1));
    assert!(holds.is_empty());
}

#[test]
fn holds_from_elsewhere_can_be_tested() {
    assert!(HoldsMap::new().is_well_formed());
    let good = timeline(vec![(5, bundle(&[1], &[(9, 3)])), (7, bundle(&[2], &[(9, 4)]))]);
    assert!(good.holds.is_well_formed());
    // A time twice.
    let twice = HoldsMap { entries: vec![(at(5), bundle(&[1], &[])), (at(5), bundle(&[2], &[]))] };
    assert!(!twice.is_well_formed());
    // A collection at two times.
    let split = HoldsMap { entries: vec![(at(5), bundle(&[1], &[])), (at(6), bundle(&[1], &[]))] };
    assert!(!split.is_well_formed());
    let split = HoldsMap {
        entries: vec![(at(5), bundle(&[], &[(9, 3)])), (at(6), bundle(&[2], &[(9, 3)]))],
    };
    assert!(!split.is_well_formed());
    // An entry without collections.
    let empty = HoldsMap { entries: vec![(at(5), bundle(&[], &[]))] };
    assert!(!empty.is_well_formed());
    // A time that is no frontier.
    let wide = HoldsMap {
        entries: vec![(Frontier { elements: vec![1, 2] }, bundle(&[1], &[]))],
    };
    assert!(!wide.is_well_formed());
}

#[test]
fn remove_compute_id_forgets_an_instance_without_ids() {
    let mut holds = timeline(vec![(5, bundle(&[1], &[(9, 3), (8, 3)])), (7, bundle(&[], &[(9, 4)]))]);
    holds.remove_compute_id(9, 3);
    assert!(holds.holds.is_well_formed());
    assert_eq!(holds.holds.entries.len(), 2);
    for (time, ids) in holds.holds.entries.iter() {
        if *time == at(5) {
            assert!(!ids.compute_ids.contains_key(&9));
            assert!(ids.compute_ids.contains_key(&8));
        } else {
            assert!(ids.compute_ids.contains_key(&9));
        }
    }
    assert!(!holds.id_bundle().compute_ids.is_empty());
    holds.remove_compute_id(8, 3);
    holds.remove_compute_id(9, 4);
    assert_eq!(holds.holds.entries.len(), 1);
    assert!(holds.holds.entries[0].1.compute_ids.is_empty());
    assert!(holds.id_bundle().compute_ids.is_empty());
    assert_eq!(holds, timeline(vec![(5, bundle(&[1], &[]))]));
}

#[test]
fn remove_storage_id_leaves_the_instances() {
    let mut holds = timeline(vec![(5, bundle(&[1], &[(9, 3)]))]);
    holds.remove_storage_id(1);
    assert!(holds.holds.is_well_formed());
    assert_eq!(holds.holds.entries[0].1, bundle(&[], &[(9, 3)]));
}

#[test]
fn holds_that_name_an_instance_without_ids_are_not_well_formed() {
    let mut holds = timeline(vec![(5, bundle(&[1], &[(9, 3)]))]);
    assert!(holds.holds.is_well_formed());
    holds.holds.entries[0].1.compute_ids.insert(4, std::collections::BTreeSet::new());
    assert!(!holds.holds.is_well_formed());
}

#[test]
fn extend_at_takes_the_ids_of_a_bundle_only() {
    let mut given = bundle(&[1], &[(9, 3)]);
    given.compute_ids.insert(4, std::collections::BTreeSet::new());
    let mut holds = HoldsMap::new();
    holds.extend_at(&at(5), &given);
    assert!(holds.is_well_formed());
    assert_eq!(holds.entries[0].1, bundle(&[1], &[(9, 3)]));
    holds.extend_at(&at(5), &given);
    holds.extend_at(&at(6), &bundle(&[2], &[]));
    assert!(holds.is_well_formed());
    assert_eq!(holds.id_bundle(), bundle(&[1, 2], &[(9, 3)]));
}
