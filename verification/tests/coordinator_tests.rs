use read_holds::collections::CollectionFrontiers;
use read_holds::coordinator::{ids_are_global, plan_read_holds, Coordinator, UpdateMode};
use read_holds::frontier::Frontier;
use read_holds::holds::HoldsMap;
use read_holds::id_bundle::CollectionIdBundle;
use read_holds::policy::{CompactionWindow, ReadPolicy};
use read_holds::read_holds::{ReadHoldsInner, TimelineReadHolds};
use read_holds::updates::PolicyUpdates;

fn at(t: u64) -> Frontier {
    Frontier::from_elem(t)
}

fn bundle(storage: &[u64], compute: &[(u64, u64)]) -> CollectionIdBundle {
    let mut b = CollectionIdBundle::new();
    for id in storage {
        b.insert_storage(*id);
    }
    for (instance, id) in compute {
        b.insert_compute(*instance, *id);
    }
    b
}

fn holds_of(entries: Vec<(u64, CollectionIdBundle)>) -> HoldsMap {
    let mut holds = HoldsMap::new();
    for (t, b) in entries {
        holds.extend_at(&at(t), &b);
    }
    holds
}

fn frontiers(storage: &[(u64, u64)], compute: &[((u64, u64), u64)]) -> CollectionFrontiers {
    let mut f = CollectionFrontiers::new();
    for (id, since) in storage {
        f.insert_storage(*id, at(*since));
    }
    for ((instance, id), since) in compute {
        f.insert_compute(*instance, *id, at(*since));
    }
    f
}

fn policy(held: Option<u64>, base: ReadPolicy) -> ReadPolicy {
    let held = match held {
        Some(t) => at(t),
        None => Frontier::new(),
    };
    ReadPolicy::Multiple(vec![ReadPolicy::ValidFrom(held), base])
}

#[test]
fn frontiers_look_up_collections() {
    let f = frontiers(&[(1, 8)], &[((7, 2), 3)]);
    assert_eq!(f.storage_since(1), Some(&at(8)));
    assert_eq!(f.storage_since(2), None);
    assert_eq!(f.compute_since(7, 2), Some(&at(3)));
    assert_eq!(f.compute_since(7, 1), None);
    assert_eq!(f.compute_since(8, 2), None);
}

#[test]
fn plan_holds_each_collection_at_its_effective_time() {
    let f = frontiers(&[(1, 8), (2, 3), (3, 5)], &[((7, 4), 9), ((7, 5), 0)]);
    let holds = plan_read_holds(5, &bundle(&[1, 2, 3], &[(7, 4), (7, 5)]), &f);
    assert_eq!(
        holds,
        holds_of(vec![
            (8, bundle(&[1], &[])),
            (5, bundle(&[2, 3], &[(7, 5)])),
            (9, bundle(&[], &[(7, 4)])),
        ])
    );
}

#[test]
fn plan_holds_a_closed_collection_at_the_empty_frontier() {
    let mut f = CollectionFrontiers::new();
    f.insert_storage(1, Frontier::new());
    let holds = plan_read_holds(5, &bundle(&[1], &[]), &f);
    assert_eq!(holds.entries, vec![(Frontier::new(), bundle(&[1], &[]))]);
}

#[test]
fn precise_acquisition_fails_when_the_collection_has_moved_on() {
    let mut coord = Coordinator::new();
    let f = frontiers(&[(1, 8)], &[]);
    let r = coord.acquire_read_holds(5, &bundle(&[1], &[]), true, &f);
    match r {
        Err(late) => assert_eq!(late, vec![(at(8), bundle(&[1], &[]))]),
        Ok(_) => panic!("the hold cannot be precise"),
    }
    // Nothing was changed.
    assert!(!coord.storage_read_capabilities.contains(1));
    assert_eq!(coord.storage_read_capabilities.hold_count(1, 8), 0);
}

#[test]
fn precise_acquisition_fails_on_a_closed_collection() {
    let mut coord = Coordinator::new();
    let mut f = frontiers(&[(2, 5)], &[]);
    f.insert_storage(1, Frontier::new());
    f.insert_compute(7, 3, Frontier::new());
    let r = coord.acquire_read_holds(5, &bundle(&[1, 2], &[(7, 3)]), true, &f);
    match r {
        Err(late) => assert_eq!(late, vec![(Frontier::new(), bundle(&[1], &[(7, 3)]))]),
        Ok(_) => panic!("a closed collection cannot be held at any time"),
    }
    assert!(!coord.storage_read_capabilities.contains(1));
    assert!(!coord.storage_read_capabilities.contains(2));
    assert!(!coord.compute_read_capabilities.contains(3));
    // Without precision the hold is taken at the empty frontier, and counts
    // nothing.
    let (holds, updates) = coord.acquire_read_holds(5, &bundle(&[1], &[]), false, &f).unwrap();
    assert_eq!(holds.holds.entries, vec![(Frontier::new(), bundle(&[1], &[]))]);
    assert_eq!(coord.storage_read_capabilities.hold_count(1, 5), 0);
    assert_eq!(updates.storage, vec![(1, policy(None, ReadPolicy::ValidFrom(Frontier::new())))]);
}

#[test]
fn imprecise_acquisition_holds_at_the_lower_frontier() {
    let mut coord = Coordinator::new();
    let f = frontiers(&[(1, 8)], &[]);
    let (holds, updates) = match coord.acquire_read_holds(5, &bundle(&[1], &[]), false, &f) {
        Ok(r) => r,
        Err(_) => panic!("an imprecise hold cannot fail"),
    };
    assert_eq!(holds, ReadHoldsInner { holds: holds_of(vec![(8, bundle(&[1], &[]))]) });
    assert_eq!(coord.storage_read_capabilities.hold_count(1, 8), 1);
    assert_eq!(coord.storage_read_capabilities.hold_count(1, 5), 0);
    assert_eq!(updates.storage, vec![(1, policy(Some(8), ReadPolicy::ValidFrom(at(8))))]);
    assert!(updates.compute.is_empty());
}

#[test]
fn precise_acquisition_succeeds_at_a_time_not_yet_passed() {
    let mut coord = Coordinator::new();
    let f = frontiers(&[(1, 3)], &[((7, 2), 5)]);
    let r = coord.acquire_read_holds(5, &bundle(&[1], &[(7, 2)]), true, &f);
    let (holds, updates) = match r {
        Ok(r) => r,
        Err(_) => panic!("both collections can be held at 5"),
    };
    assert_eq!(holds.holds, holds_of(vec![(5, bundle(&[1], &[(7, 2)]))]));
    assert_eq!(updates.storage, vec![(1, policy(Some(5), ReadPolicy::ValidFrom(at(3))))]);
    assert_eq!(
        updates.compute,
        vec![(7, vec![(2, policy(Some(5), ReadPolicy::ValidFrom(at(5))))])]
    );
    assert_eq!(coord.compute_read_capabilities.hold_count(2, 5), 1);
}

#[test]
fn precise_acquisition_reports_only_the_late_collections() {
    let mut coord = Coordinator::new();
    let f = frontiers(&[(1, 3), (2, 8), (3, 9)], &[((7, 4), 8)]);
    let r = coord.acquire_read_holds(5, &bundle(&[1, 2, 3], &[(7, 4)]), true, &f);
    match r {
        Err(late) => assert_eq!(
            late,
            vec![(at(8), bundle(&[2], &[(7, 4)])), (at(9), bundle(&[3], &[]))]
        ),
        Ok(_) => panic!("the hold cannot be precise"),
    }
    assert!(!coord.storage_read_capabilities.contains(1));
}

#[test]
fn acquisition_keeps_an_existing_base_policy() {
    let mut coord = Coordinator::new();
    let f = frontiers(&[(1, 3)], &[]);
    coord.ensure_storage_capability(1, Some(CompactionWindow::Duration(50)), &f);
    let (_, updates) = coord.acquire_read_holds(5, &bundle(&[1], &[]), false, &f).unwrap();
    assert_eq!(
        updates.storage,
        vec![(1, policy(Some(5), ReadPolicy::LagWriteFrontier { lag: 50, max_granularity: 1000 }))]
    );
}

#[test]
fn acquire_batches_compute_policies_by_instance() {
    let mut coord = Coordinator::new();
    let f = frontiers(&[], &[((9, 1), 0), ((7, 2), 0), ((9, 3), 0)]);
    let (_, updates) =
        coord.acquire_read_holds(4, &bundle(&[], &[(9, 1), (7, 2), (9, 3)]), false, &f).unwrap();
    let base = ReadPolicy::ValidFrom(at(0));
    assert_eq!(
        updates.compute,
        vec![
            (7, vec![(2, policy(Some(4), base.clone()))]),
            (9, vec![(1, policy(Some(4), base.clone())), (3, policy(Some(4), base.clone()))]),
        ]
    );
}

#[test]
fn acquire_then_release_restores_the_policy() {
    let mut coord = Coordinator::new();
    let f = frontiers(&[(1, 3)], &[((7, 2), 3)]);
    coord.ensure_storage_capability(1, Some(CompactionWindow::Default), &f);
    coord.ensure_compute_capability(7, 2, None, &f);
    coord.acquire_read_holds(20, &bundle(&[1], &[(7, 2)]), false, &f).unwrap();
    let storage_before = coord.storage_read_capabilities.policy(1);
    let compute_before = coord.compute_read_capabilities.policy(2);
    let (holds, held) = coord.acquire_read_holds(10, &bundle(&[1], &[(7, 2)]), false, &f).unwrap();
    assert_eq!(
        held.storage,
        vec![(1, policy(Some(10), ReadPolicy::LagWriteFrontier { lag: 1000, max_granularity: 1000 }))]
    );
    let released = coord.release_read_holds(vec![holds]);
    assert_eq!(coord.storage_read_capabilities.policy(1), storage_before);
    assert_eq!(coord.compute_read_capabilities.policy(2), compute_before);
    assert_eq!(released.len(), 1);
    assert_eq!(released[0].storage, vec![(1, storage_before.unwrap())]);
    assert_eq!(released[0].compute, vec![(7, vec![(2, compute_before.unwrap())])]);
}

#[test]
fn two_holds_count_twice() {
    let mut coord = Coordinator::new();
    let f = frontiers(&[(1, 0)], &[]);
    let (first, _) = coord.acquire_read_holds(10, &bundle(&[1], &[]), false, &f).unwrap();
    let (second, _) = coord.acquire_read_holds(10, &bundle(&[1], &[]), false, &f).unwrap();
    assert_eq!(coord.storage_read_capabilities.hold_count(1, 10), 2);
    let base = ReadPolicy::ValidFrom(at(0));
    let updates = coord.release_read_holds(vec![first]);
    assert_eq!(coord.storage_read_capabilities.hold_count(1, 10), 1);
    assert_eq!(updates[0].storage, vec![(1, policy(Some(10), base.clone()))]);
    let updates = coord.release_read_holds(vec![second]);
    assert_eq!(coord.storage_read_capabilities.hold_count(1, 10), 0);
    assert_eq!(updates[0].storage, vec![(1, policy(None, base.clone()))]);
    assert_eq!(updates[0].storage[0].1.frontier(&at(100)), base.frontier(&at(100)));
}

#[test]
fn release_of_several_holds_on_a_collection_subtracts_each() {
    let mut coord = Coordinator::new();
    let f = frontiers(&[(1, 0), (2, 0)], &[]);
    let (a, _) = coord.acquire_read_holds(10, &bundle(&[1, 2], &[]), false, &f).unwrap();
    let (b, _) = coord.acquire_read_holds(10, &bundle(&[1], &[]), false, &f).unwrap();
    let (c, _) = coord.acquire_read_holds(12, &bundle(&[1], &[]), false, &f).unwrap();
    assert_eq!(coord.storage_read_capabilities.hold_count(1, 10), 2);
    let updates = coord.release_read_holds(vec![a, b]);
    assert_eq!(coord.storage_read_capabilities.hold_count(1, 10), 0);
    assert_eq!(coord.storage_read_capabilities.hold_count(1, 12), 1);
    assert_eq!(coord.storage_read_capabilities.hold_count(2, 10), 0);
    let base = ReadPolicy::ValidFrom(at(0));
    // One set of policies for each hold, each as it was right after the
    // release of that hold.
    assert_eq!(updates.len(), 2);
    assert_eq!(
        updates[0].storage,
        vec![(1, policy(Some(10), base.clone())), (2, policy(None, base.clone()))]
    );
    assert_eq!(updates[1].storage, vec![(1, policy(Some(12), base.clone()))]);
    let mut push = PolicyUpdates::new();
    for after_one in updates {
        push.merge(after_one);
    }
    assert_eq!(
        push.storage,
        vec![
            (1, policy(Some(10), base.clone())),
            (2, policy(None, base.clone())),
            (1, policy(Some(12), base.clone())),
        ]
    );
    coord.release_read_holds(vec![c]);
    assert_eq!(coord.storage_read_capabilities.hold_count(1, 12), 0);
}

#[test]
fn release_passes_over_a_dropped_collection() {
    let mut coord = Coordinator::new();
    let f = frontiers(&[(1, 0), (2, 0)], &[((7, 3), 0)]);
    let (holds, _) = coord.acquire_read_holds(10, &bundle(&[1, 2], &[(7, 3)]), false, &f).unwrap();
    assert!(coord.drop_storage_read_policy(1));
    assert!(!coord.drop_storage_read_policy(1));
    assert!(coord.drop_compute_read_policy(3));
    assert!(!coord.drop_compute_read_policy(3));
    let updates = coord.release_read_holds(vec![holds]);
    assert_eq!(updates[0].storage, vec![(2, policy(None, ReadPolicy::ValidFrom(at(0))))]);
    assert!(updates[0].compute.is_empty());
    assert!(!coord.storage_read_capabilities.contains(1));
    assert!(!coord.compute_read_capabilities.contains(3));
}

#[test]
fn release_of_nothing_changes_nothing() {
    let mut coord = Coordinator::new();
    let updates = coord.release_read_holds(vec![]);
    assert!(updates.is_empty());
    let updates = coord.release_read_holds(vec![ReadHoldsInner::new()]);
    assert_eq!(updates.len(), 1);
    assert!(updates[0].is_empty());
}

#[test]
fn downgrade_moves_the_hold_forward() {
    let mut coord = Coordinator::new();
    let mut timeline = TimelineReadHolds::new();
    let early = frontiers(&[(1, 0)], &[((7, 2), 0)]);
    coord.initialize_read_policies(
        &mut timeline,
        Some(5),
        &bundle(&[1], &[(7, 2)]),
        CompactionWindow::DisableCompaction,
        &early,
    );
    assert_eq!(timeline.holds, holds_of(vec![(5, bundle(&[1], &[(7, 2)]))]));
    // The collections have moved to [7] meanwhile.
    let live = frontiers(&[(1, 7)], &[((7, 2), 7)]);
    assert!(coord.can_update_read_holds(&timeline, 10, &live));
    let (timeline, updates) = coord.update_read_holds(timeline, 10, &live);
    assert_eq!(timeline.holds, holds_of(vec![(10, bundle(&[1], &[(7, 2)]))]));
    assert_eq!(coord.storage_read_capabilities.hold_count(1, 5), 0);
    assert_eq!(coord.storage_read_capabilities.hold_count(1, 10), 1);
    assert_eq!(coord.compute_read_capabilities.hold_count(2, 5), 0);
    assert_eq!(coord.compute_read_capabilities.hold_count(2, 10), 1);
    let base = ReadPolicy::ValidFrom(at(0));
    assert_eq!(updates.storage, vec![(1, policy(Some(10), base.clone()))]);
    assert_eq!(updates.compute, vec![(7, vec![(2, policy(Some(10), base.clone()))])]);
}

#[test]
fn downgrade_below_the_live_frontier_is_not_allowed() {
    let mut coord = Coordinator::new();
    let mut timeline = TimelineReadHolds::new();
    let early = frontiers(&[(1, 0)], &[]);
    coord.initialize_read_policies(
        &mut timeline,
        Some(5),
        &bundle(&[1], &[]),
        CompactionWindow::Default,
        &early,
    );
    let live = frontiers(&[(1, 7)], &[]);
    assert!(!coord.can_update_read_holds(&timeline, 6, &live));
    assert!(coord.can_update_read_holds(&timeline, 7, &live));
    // A hold that stays where it is asks nothing of the collection.
    assert!(coord.can_update_read_holds(&timeline, 5, &live));
    assert!(coord.can_update_read_holds(&timeline, 3, &live));
    // A collection that the controller does not know, or that has no
    // capability, cannot have its hold moved.
    assert!(!coord.can_update_read_holds(&timeline, 10, &frontiers(&[], &[])));
    coord.drop_storage_read_policy(1);
    assert!(!coord.can_update_read_holds(&timeline, 10, &live));
}

#[test]
fn downgrade_leaves_later_holds_and_merges_entries() {
    let mut coord = Coordinator::new();
    let f = frontiers(&[(1, 0), (2, 0), (3, 0)], &[]);
    for id in [1, 2, 3] {
        coord.ensure_storage_capability(id, None, &f);
    }
    let holds = holds_of(vec![
        (5, bundle(&[1], &[])),
        (8, bundle(&[2], &[])),
        (12, bundle(&[3], &[])),
    ]);
    coord.apply_holds(&holds, &UpdateMode::Hold, &f);
    let timeline = TimelineReadHolds { holds };
    assert!(coord.can_update_read_holds(&timeline, 10, &f));
    let (timeline, updates) = coord.update_read_holds(timeline, 10, &f);
    assert_eq!(
        timeline.holds,
        holds_of(vec![(10, bundle(&[1, 2], &[])), (12, bundle(&[3], &[]))])
    );
    let ids: Vec<u64> = updates.storage.iter().map(|u| u.0).collect();
    assert_eq!(ids, vec![1, 2]);
    assert_eq!(coord.storage_read_capabilities.hold_count(1, 10), 1);
    assert_eq!(coord.storage_read_capabilities.hold_count(2, 10), 1);
    assert_eq!(coord.storage_read_capabilities.hold_count(2, 8), 0);
    assert_eq!(coord.storage_read_capabilities.hold_count(3, 12), 1);
    assert_eq!(coord.storage_read_capabilities.hold_count(3, 10), 0);
}

#[test]
fn initialize_in_a_timeline_holds_at_the_read_timestamp() {
    let mut coord = Coordinator::new();
    let mut timeline = TimelineReadHolds::new();
    let f = frontiers(&[(1, 0), (2, 30)], &[((7, 3), 0)]);
    let updates = coord.initialize_read_policies(
        &mut timeline,
        Some(20),
        &bundle(&[1, 2], &[(7, 3)]),
        CompactionWindow::Duration(5),
        &f,
    );
    assert_eq!(
        timeline.holds,
        holds_of(vec![(20, bundle(&[1], &[(7, 3)])), (30, bundle(&[2], &[]))])
    );
    let base = ReadPolicy::LagWriteFrontier { lag: 5, max_granularity: 1000 };
    assert_eq!(
        updates.storage,
        vec![(1, policy(Some(20), base.clone())), (2, policy(Some(30), base.clone()))]
    );
    assert_eq!(updates.compute, vec![(7, vec![(3, policy(Some(20), base.clone()))])]);
    assert_eq!(coord.storage_read_capabilities.hold_count(2, 30), 1);
    // More collections join the timeline later.
    let f = frontiers(&[(4, 0)], &[]);
    coord.initialize_read_policies(
        &mut timeline,
        Some(20),
        &bundle(&[4], &[]),
        CompactionWindow::Default,
        &f,
    );
    assert_eq!(
        timeline.holds,
        holds_of(vec![(20, bundle(&[1, 4], &[(7, 3)])), (30, bundle(&[2], &[]))])
    );
}

#[test]
fn initialize_without_a_timeline_holds_nothing() {
    let mut coord = Coordinator::new();
    let mut timeline = TimelineReadHolds::new();
    let f = CollectionFrontiers::new();
    let updates = coord.initialize_read_policies(
        &mut timeline,
        None,
        &bundle(&[1], &[(7, 3)]),
        CompactionWindow::DisableCompaction,
        &f,
    );
    assert!(timeline.is_empty());
    let base = ReadPolicy::ValidFrom(at(0));
    assert_eq!(updates.storage, vec![(1, policy(None, base.clone()))]);
    assert_eq!(updates.compute, vec![(7, vec![(3, policy(None, base.clone()))])]);
    assert!(coord.storage_read_capabilities.contains(1));
    assert!(coord.compute_read_capabilities.contains(3));
    let updates = coord.initialize_read_policies(
        &mut timeline,
        None,
        &CollectionIdBundle::new(),
        CompactionWindow::Default,
        &f,
    );
    assert!(updates.is_empty());
}

#[test]
fn initialize_overrides_an_existing_base_policy() {
    let mut coord = Coordinator::new();
    let mut timeline = TimelineReadHolds::new();
    let f = frontiers(&[(1, 4)], &[]);
    coord.acquire_read_holds(6, &bundle(&[1], &[]), false, &f).unwrap();
    let updates = coord.initialize_read_policies(
        &mut timeline,
        None,
        &bundle(&[1], &[]),
        CompactionWindow::Duration(9),
        &f,
    );
    assert_eq!(
        updates.storage,
        vec![(1, policy(Some(6), ReadPolicy::LagWriteFrontier { lag: 9, max_granularity: 1000 }))]
    );
}

#[test]
fn initialize_storage_and_compute_separately() {
    let mut coord = Coordinator::new();
    let mut timeline = TimelineReadHolds::new();
    let f = frontiers(&[(1, 0), (2, 0)], &[((7, 3), 0)]);
    let updates = coord.initialize_storage_read_policies(
        &mut timeline,
        Some(4),
        vec![2, 1],
        CompactionWindow::Default,
        &f,
    );
    let ids: Vec<u64> = updates.storage.iter().map(|u| u.0).collect();
    assert_eq!(ids, vec![1, 2]);
    assert!(updates.compute.is_empty());
    let updates = coord.initialize_compute_read_policies(
        &mut timeline,
        Some(4),
        vec![3],
        7,
        CompactionWindow::Default,
        &f,
    );
    assert!(updates.storage.is_empty());
    assert_eq!(updates.compute.len(), 1);
    assert_eq!(updates.compute[0].0, 7);
    assert_eq!(timeline.holds, holds_of(vec![(4, bundle(&[1, 2], &[(7, 3)]))]));
}

#[test]
fn ensure_capability_defaults_to_the_lower_frontier() {
    let mut coord = Coordinator::new();
    let f = frontiers(&[(1, 8)], &[((7, 2), 9)]);
    coord.ensure_storage_capability(1, None, &f);
    coord.ensure_compute_capability(7, 2, None, &f);
    assert_eq!(
        coord.storage_read_capabilities.policy(1),
        Some(policy(None, ReadPolicy::ValidFrom(at(8))))
    );
    assert_eq!(
        coord.compute_read_capabilities.policy(2),
        Some(policy(None, ReadPolicy::ValidFrom(at(9))))
    );
    // An existing capability is left alone, and needs no lookup.
    coord.ensure_storage_capability(1, None, &CollectionFrontiers::new());
    assert_eq!(
        coord.storage_read_capabilities.policy(1),
        Some(policy(None, ReadPolicy::ValidFrom(at(8))))
    );
    coord.ensure_compute_capability(7, 2, Some(CompactionWindow::DisableCompaction), &f);
    assert_eq!(
        coord.compute_read_capabilities.policy(2),
        Some(policy(None, ReadPolicy::ValidFrom(at(0))))
    );
}

#[test]
fn base_policies_are_installed_in_order() {
    let mut coord = Coordinator::new();
    let f = frontiers(&[(1, 0), (2, 0)], &[((7, 3), 0), ((6, 4), 0)]);
    coord.acquire_read_holds(5, &bundle(&[1, 2], &[(7, 3), (6, 4)]), false, &f).unwrap();
    // One pair for each policy given, in the order given, each with the
    // policy in force right after its change.
    let updates = coord.update_storage_base_read_policies(vec![
        (2, ReadPolicy::ValidFrom(at(1))),
        (1, ReadPolicy::ValidFrom(at(2))),
        (2, ReadPolicy::ValidFrom(at(3))),
    ]);
    assert_eq!(
        updates,
        vec![
            (2, policy(Some(5), ReadPolicy::ValidFrom(at(1)))),
            (1, policy(Some(5), ReadPolicy::ValidFrom(at(2)))),
            (2, policy(Some(5), ReadPolicy::ValidFrom(at(3)))),
        ]
    );
    // The last policy given for a collection stays.
    assert_eq!(
        coord.storage_read_capabilities.policy(2),
        Some(policy(Some(5), ReadPolicy::ValidFrom(at(3))))
    );
    assert_eq!(coord.update_storage_base_read_policies(vec![]), vec![]);
    let updates = coord.update_compute_base_read_policies(vec![
        (7, 3, ReadPolicy::ValidFrom(at(1))),
        (6, 4, ReadPolicy::ValidFrom(at(2))),
        (7, 3, ReadPolicy::ValidFrom(at(8))),
        (6, 4, ReadPolicy::ValidFrom(at(9))),
    ]);
    assert_eq!(
        updates,
        vec![
            (
                6,
                vec![
                    (4, policy(Some(5), ReadPolicy::ValidFrom(at(2)))),
                    (4, policy(Some(5), ReadPolicy::ValidFrom(at(9)))),
                ]
            ),
            (
                7,
                vec![
                    (3, policy(Some(5), ReadPolicy::ValidFrom(at(1)))),
                    (3, policy(Some(5), ReadPolicy::ValidFrom(at(8)))),
                ]
            ),
        ]
    );
    assert_eq!(
        coord.compute_read_capabilities.policy(3),
        Some(policy(Some(5), ReadPolicy::ValidFrom(at(8))))
    );
    let updates = coord.update_compute_base_read_policy(7, 3, ReadPolicy::lag_writes_by(1, 1));
    assert_eq!(
        updates,
        vec![(
            7,
            vec![(3, policy(Some(5), ReadPolicy::LagWriteFrontier { lag: 1, max_granularity: 1 }))]
        )]
    );
    assert_eq!(coord.compute_read_capabilities.hold_count(3, 5), 1);
}

#[test]
fn what_an_operation_asks_can_be_tested() {
    let mut coord = Coordinator::new();
    let f = frontiers(&[(1, 0)], &[((7, 3), 0), ((8, 3), 0)]);
    assert!(coord.can_acquire_read_holds(5, &bundle(&[1], &[(7, 3)]), &f));
    // A collection that the controllers do not know.
    assert!(!coord.can_acquire_read_holds(5, &bundle(&[2], &[]), &f));
    assert!(!coord.can_acquire_read_holds(5, &bundle(&[], &[(7, 4)]), &f));
    // An id under two instances.
    assert!(!coord.can_acquire_read_holds(5, &bundle(&[], &[(7, 3), (8, 3)]), &f));
    assert!(ids_are_global(&bundle(&[3], &[(7, 3), (7, 4), (8, 5)])));
    assert!(!ids_are_global(&bundle(&[], &[(7, 3), (8, 3)])));
    // A count that has no room.
    coord.ensure_storage_capability(1, None, &f);
    coord.storage_read_capabilities.adjust(1, &at(5), i64::MAX);
    assert!(!coord.can_acquire_read_holds(5, &bundle(&[1], &[]), &f));
    assert!(coord.can_acquire_read_holds(6, &bundle(&[1], &[]), &f));
    assert!(!coord.has_room_for(&holds_of(vec![(5, bundle(&[1], &[]))])));
    assert!(coord.can_drop(&holds_of(vec![(5, bundle(&[1], &[]))])));

    let mut timeline = TimelineReadHolds::new();
    assert!(coord.can_initialize_read_policies(&timeline, Some(6), &bundle(&[1], &[]), &f));
    assert!(!coord.can_initialize_read_policies(&timeline, Some(5), &bundle(&[1], &[]), &f));
    assert!(!coord.can_initialize_read_policies(&timeline, Some(6), &bundle(&[2], &[]), &f));
    // Without a timeline nothing is held and nothing is looked up.
    assert!(coord.can_initialize_read_policies(&timeline, None, &bundle(&[1, 2], &[]), &f));
    assert!(!coord.can_initialize_read_policies(&timeline, None, &bundle(&[], &[(7, 3), (8, 3)]), &f));
    coord.initialize_read_policies(
        &mut timeline,
        Some(6),
        &bundle(&[1], &[]),
        CompactionWindow::Default,
        &f,
    );
    // The timeline holds the collection already.
    assert!(!coord.can_initialize_read_policies(&timeline, Some(6), &bundle(&[1], &[]), &f));
    // Moving the hold to a time whose count is full.
    coord.storage_read_capabilities.adjust(1, &at(9), i64::MAX);
    assert!(coord.update_is_allowed(&timeline, 9, &f));
    assert!(!coord.can_update_read_holds(&timeline, 9, &f));
    assert!(coord.can_update_read_holds(&timeline, 8, &f));
}

#[test]
fn releases_are_counted_before_they_are_made() {
    let mut coord = Coordinator::new();
    let f = frontiers(&[(1, 0)], &[((7, 3), 0)]);
    coord.ensure_storage_capability(1, None, &f);
    coord.ensure_compute_capability(7, 3, None, &f);
    let hold = || ReadHoldsInner { holds: holds_of(vec![(5, bundle(&[1], &[(7, 3)]))]) };
    assert!(coord.can_release_read_holds(&vec![hold(), hold()]));
    coord.storage_read_capabilities.adjust(1, &at(5), i64::MIN + 1);
    assert!(coord.can_release_read_holds(&vec![hold()]));
    assert!(!coord.can_release_read_holds(&vec![hold(), hold()]));
    // Holds on other collections or at other times do not count.
    let other = ReadHoldsInner { holds: holds_of(vec![(6, bundle(&[1, 2], &[]))]) };
    assert!(coord.can_release_read_holds(&vec![hold(), other]));
    let twice = ReadHoldsInner { holds: holds_of(vec![(5, bundle(&[], &[(7, 3), (8, 3)]))]) };
    assert!(!coord.can_release_read_holds(&vec![twice]));
    assert!(coord.can_release_read_holds(&vec![]));
}

#[test]
fn policy_updates_merge_into_one_push() {
    let p = |t: u64| ReadPolicy::ValidFrom(at(t));
    let mut updates = PolicyUpdates {
        storage: vec![(1, p(1))],
        compute: vec![(7, vec![(3, p(2))]), (9, vec![(4, p(3))])],
    };
    updates.merge(PolicyUpdates {
        storage: vec![(2, p(4)), (1, p(5))],
        compute: vec![(6, vec![(5, p(6))]), (7, vec![(8, p(7)), (3, p(8))])],
    });
    assert_eq!(updates.storage, vec![(1, p(1)), (2, p(4)), (1, p(5))]);
    assert_eq!(
        updates.compute,
        vec![
            (6, vec![(5, p(6))]),
            (7, vec![(3, p(2)), (8, p(7)), (3, p(8))]),
            (9, vec![(4, p(3))]),
        ]
    );
    updates.merge(PolicyUpdates::new());
    assert_eq!(updates.storage.len(), 3);
    assert_eq!(updates.compute.len(), 3);
    let mut empty = PolicyUpdates::new();
    empty.merge(PolicyUpdates::new());
    assert!(empty.is_empty());
}

#[test]
fn current_policies_pass_over_collections_without_capability() {
    let mut coord = Coordinator::new();
    let f = frontiers(&[(1, 0)], &[((7, 3), 0)]);
    coord.acquire_read_holds(5, &bundle(&[1], &[(7, 3)]), false, &f).unwrap();
    let updates = coord.current_policies(&bundle(&[1, 2], &[(7, 3), (7, 4), (8, 9)]));
    let base = ReadPolicy::ValidFrom(at(0));
    assert_eq!(updates.storage, vec![(1, policy(Some(5), base.clone()))]);
    assert_eq!(updates.compute, vec![(7, vec![(3, policy(Some(5), base.clone()))])]);
}

#[test]
fn holds_kept_for_a_connection_are_handed_out_once() {
    let mut coord = Coordinator::new();
    let f = frontiers(&[(1, 0), (2, 9)], &[]);
    assert!(coord.acquire_read_holds_auto_cleanup(3, 5, &bundle(&[1], &[]), true, &f).is_ok());
    assert!(coord.acquire_read_holds_auto_cleanup(3, 6, &bundle(&[1], &[]), true, &f).is_ok());
    assert!(coord.acquire_read_holds_auto_cleanup(4, 7, &bundle(&[1], &[]), true, &f).is_ok());
    match coord.acquire_read_holds_auto_cleanup(3, 5, &bundle(&[2], &[]), true, &f) {
        Err(late) => assert_eq!(late, vec![(at(9), bundle(&[2], &[]))]),
        Ok(_) => panic!("the hold cannot be precise"),
    }
    let kept = coord.take_txn_read_holds(3);
    assert_eq!(
        kept,
        vec![
            ReadHoldsInner { holds: holds_of(vec![(5, bundle(&[1], &[]))]) },
            ReadHoldsInner { holds: holds_of(vec![(6, bundle(&[1], &[]))]) },
        ]
    );
    assert!(coord.take_txn_read_holds(3).is_empty());
    assert_eq!(coord.storage_read_capabilities.hold_count(1, 5), 1);
    coord.release_read_holds(kept);
    assert_eq!(coord.storage_read_capabilities.hold_count(1, 5), 0);
    assert_eq!(coord.storage_read_capabilities.hold_count(1, 6), 0);
    assert_eq!(coord.storage_read_capabilities.hold_count(1, 7), 1);
    assert_eq!(coord.take_txn_read_holds(4).len(), 1);
}
