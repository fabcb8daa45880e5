use read_holds::capability::{
    CapabilityTable, CapabilityUpdate, HoldChange, Provision, ReadCapability,
};
use read_holds::frontier::Frontier;
use read_holds::policy::ReadPolicy;

fn at(t: u64) -> Frontier {
    Frontier::from_elem(t)
}

fn held_part(policy: &ReadPolicy) -> Vec<u64> {
    match policy {
        ReadPolicy::Multiple(parts) => match &parts[0] {
            ReadPolicy::ValidFrom(f) => f.elements.clone(),
            other => panic!("unexpected part {:?}", other),
        },
        other => panic!("unexpected policy {:?}", other),
    }
}

#[test]
fn new_capability_has_no_holds() {
    let capability = ReadCapability::from_policy(ReadPolicy::ValidFrom(at(3)));
    assert_eq!(capability.hold_count(0), 0);
    assert_eq!(capability.hold_count(10), 0);
    assert_eq!(
        capability.policy(),
        ReadPolicy::Multiple(vec![
            ReadPolicy::ValidFrom(Frontier::new()),
            ReadPolicy::ValidFrom(at(3)),
        ])
    );
}

#[test]
fn adjust_adds_to_the_count_at_the_time() {
    let mut capability = ReadCapability::from_policy(ReadPolicy::ValidFrom(at(0)));
    capability.adjust(&at(10), 1);
    assert_eq!(capability.hold_count(10), 1);
    assert_eq!(capability.hold_count(9), 0);
    capability.adjust(&at(10), 1);
    assert_eq!(capability.hold_count(10), 2);
    capability.adjust(&at(10), -1);
    assert_eq!(capability.hold_count(10), 1);
}

#[test]
fn adjust_at_the_empty_frontier_changes_nothing() {
    let mut capability = ReadCapability::from_policy(ReadPolicy::ValidFrom(at(0)));
    capability.adjust(&Frontier::new(), 1);
    assert_eq!(capability.hold_count(0), 0);
    assert_eq!(held_part(&capability.policy()), Vec::<u64>::new());
}

#[test]
fn two_holds_at_ten_survive_one_release() {
    let base = ReadPolicy::ValidFrom(at(3));
    let mut capability = ReadCapability::from_policy(base.clone());
    capability.adjust(&at(10), 1);
    capability.adjust(&at(10), 1);
    assert_eq!(capability.hold_count(10), 2);
    capability.adjust(&at(10), -1);
    assert_eq!(capability.hold_count(10), 1);
    assert_eq!(held_part(&capability.policy()), vec![10]);
    // The floor is the least of the hold and the base policy.
    assert_eq!(capability.policy().frontier(&at(100)).elements, vec![3]);
    capability.adjust(&at(10), -1);
    assert_eq!(capability.hold_count(10), 0);
    // Without holds the base policy alone gives the floor.
    assert_eq!(held_part(&capability.policy()), Vec::<u64>::new());
    assert_eq!(
        capability.policy().frontier(&at(100)).elements,
        base.frontier(&at(100)).elements
    );
}

#[test]
fn the_held_part_is_the_least_held_time() {
    let mut capability = ReadCapability::from_policy(ReadPolicy::ValidFrom(at(100)));
    capability.adjust(&at(20), 1);
    capability.adjust(&at(10), 1);
    capability.adjust(&at(30), 1);
    assert_eq!(held_part(&capability.policy()), vec![10]);
    assert_eq!(capability.policy().frontier(&at(1000)).elements, vec![10]);
    capability.adjust(&at(10), -1);
    assert_eq!(held_part(&capability.policy()), vec![20]);
    capability.adjust(&at(20), -1);
    assert_eq!(held_part(&capability.policy()), vec![30]);
}

#[test]
fn a_negative_count_holds_nothing() {
    let mut capability = ReadCapability::from_policy(ReadPolicy::ValidFrom(at(0)));
    capability.adjust(&at(5), -1);
    assert_eq!(capability.hold_count(5), -1);
    assert_eq!(held_part(&capability.policy()), Vec::<u64>::new());
    capability.adjust(&at(5), 1);
    assert_eq!(capability.hold_count(5), 0);
    assert_eq!(held_part(&capability.policy()), Vec::<u64>::new());
}

#[test]
fn set_base_policy_keeps_the_holds() {
    let mut capability = ReadCapability::from_policy(ReadPolicy::ValidFrom(at(0)));
    capability.adjust(&at(7), 1);
    capability.set_base_policy(ReadPolicy::ValidFrom(at(50)));
    assert_eq!(capability.hold_count(7), 1);
    assert_eq!(
        capability.policy(),
        ReadPolicy::Multiple(vec![ReadPolicy::ValidFrom(at(7)), ReadPolicy::ValidFrom(at(50))])
    );
}

#[test]
fn ensure_makes_a_default_capability() {
    let mut table = CapabilityTable::new();
    assert!(!table.contains(1));
    table.ensure(1, None, &at(8));
    assert!(table.contains(1));
    assert_eq!(
        table.policy(1),
        Some(ReadPolicy::Multiple(vec![
            ReadPolicy::ValidFrom(Frontier::new()),
            ReadPolicy::ValidFrom(at(8)),
        ]))
    );
    assert_eq!(table.policy(2), None);
}

#[test]
fn ensure_with_a_policy_overwrites_the_base_policy_only() {
    let mut table = CapabilityTable::new();
    table.ensure(1, None, &at(8));
    table.adjust(1, &at(9), 1);
    table.ensure(1, Some(ReadPolicy::lag_writes_by(10, 10)), &at(8));
    assert_eq!(table.hold_count(1, 9), 1);
    assert_eq!(
        table.policy(1),
        Some(ReadPolicy::Multiple(vec![
            ReadPolicy::ValidFrom(at(9)),
            ReadPolicy::LagWriteFrontier { lag: 10, max_granularity: 10 },
        ]))
    );
    // Without a policy the existing one stays.
    table.ensure(1, None, &at(100));
    assert_eq!(
        table.policy(1),
        Some(ReadPolicy::Multiple(vec![
            ReadPolicy::ValidFrom(at(9)),
            ReadPolicy::LagWriteFrontier { lag: 10, max_granularity: 10 },
        ]))
    );
}

#[test]
fn table_adjust_returns_the_policy_in_force() {
    let mut table = CapabilityTable::new();
    table.ensure(4, None, &at(2));
    let policy = table.adjust(4, &at(6), 1);
    assert_eq!(
        policy,
        ReadPolicy::Multiple(vec![ReadPolicy::ValidFrom(at(6)), ReadPolicy::ValidFrom(at(2))])
    );
    assert_eq!(table.hold_count(4, 6), 1);
    assert_eq!(table.hold_count(5, 6), 0);
}

#[test]
fn table_set_base_policy_and_remove() {
    let mut table = CapabilityTable::new();
    table.ensure(4, None, &at(2));
    let policy = table.set_base_policy(4, ReadPolicy::ValidFrom(at(3)));
    assert_eq!(
        policy,
        ReadPolicy::Multiple(vec![
            ReadPolicy::ValidFrom(Frontier::new()),
            ReadPolicy::ValidFrom(at(3)),
        ])
    );
    assert!(table.remove(4));
    assert!(!table.remove(4));
    assert!(!table.contains(4));
}

#[test]
fn replay_gives_the_sum_of_the_deltas() {
    let mut table = CapabilityTable::new();
    table.ensure(1, None, &at(0));
    table.ensure(2, None, &at(0));
    let changes = vec![
        HoldChange { id: 1, time: at(10), delta: 1 },
        HoldChange { id: 1, time: at(10), delta: 1 },
        HoldChange { id: 2, time: at(10), delta: 1 },
        HoldChange { id: 1, time: at(20), delta: 1 },
        HoldChange { id: 1, time: at(10), delta: -1 },
        HoldChange { id: 1, time: at(10), delta: 1 },
        HoldChange { id: 1, time: at(20), delta: -1 },
    ];
    let policies = table.apply(&changes);
    assert_eq!(table.hold_count(1, 10), 2);
    assert_eq!(table.hold_count(1, 20), 0);
    assert_eq!(table.hold_count(2, 10), 1);
    assert_eq!(policies.len(), 7);
    let ids: Vec<u64> = policies.iter().map(|p| p.0).collect();
    assert_eq!(ids, vec![1, 1, 2, 1, 1, 1, 1]);
    // The last policy for each collection is the one in force.
    assert_eq!(Some(policies[6].1.clone()), table.policy(1));
    assert_eq!(Some(policies[2].1.clone()), table.policy(2));
    // In between, the policy follows the holds.
    assert_eq!(held_part(&policies[0].1), vec![10]);
    assert_eq!(held_part(&policies[3].1), vec![10]);
}

#[test]
fn replay_that_cancels_restores_the_policy() {
    let mut table = CapabilityTable::new();
    table.ensure(1, None, &at(4));
    table.adjust(1, &at(6), 1);
    let before = table.policy(1);
    let changes = vec![
        HoldChange { id: 1, time: at(5), delta: 1 },
        HoldChange { id: 1, time: at(5), delta: -1 },
    ];
    table.apply(&changes);
    assert_eq!(table.policy(1), before);
}

#[test]
fn update_keep_skips_a_missing_capability() {
    let mut table = CapabilityTable::new();
    let policy = table.update(CapabilityUpdate {
        id: 9,
        provision: Provision::Keep,
        acquire: Frontier::new(),
        release: at(3),
    });
    assert_eq!(policy, None);
    assert!(!table.contains(9));
}

#[test]
fn update_default_and_install() {
    let mut table = CapabilityTable::new();
    let policy = table.update(CapabilityUpdate {
        id: 9,
        provision: Provision::Default(at(8)),
        acquire: at(8),
        release: Frontier::new(),
    });
    assert_eq!(
        policy,
        Some(ReadPolicy::Multiple(vec![
            ReadPolicy::ValidFrom(at(8)),
            ReadPolicy::ValidFrom(at(8)),
        ]))
    );
    let policy = table.update(CapabilityUpdate {
        id: 9,
        provision: Provision::Install(ReadPolicy::ValidFrom(at(1))),
        acquire: at(12),
        release: at(8),
    });
    assert_eq!(
        policy,
        Some(ReadPolicy::Multiple(vec![
            ReadPolicy::ValidFrom(at(12)),
            ReadPolicy::ValidFrom(at(1)),
        ]))
    );
    assert_eq!(table.hold_count(9, 8), 0);
    assert_eq!(table.hold_count(9, 12), 1);
}

#[test]
fn update_all_reports_each_update() {
    let mut table = CapabilityTable::new();
    table.ensure(1, None, &at(0));
    let policies = table.update_all(vec![
        CapabilityUpdate {
            id: 1,
            provision: Provision::Keep,
            acquire: at(5),
            release: Frontier::new(),
        },
        CapabilityUpdate {
            id: 2,
            provision: Provision::Keep,
            acquire: at(5),
            release: Frontier::new(),
        },
    ]);
    assert_eq!(policies.len(), 2);
    assert_eq!(policies[0], table.policy(1));
    assert_eq!(policies[1], None);
    assert_eq!(table.hold_count(1, 5), 1);
}

#[test]
fn dropping_a_hold_never_moves_the_floor_backward() {
    let mut capability = ReadCapability::from_policy(ReadPolicy::ValidFrom(at(15)));
    capability.adjust(&at(10), 1);
    capability.adjust(&at(20), 1);
    let before = capability.policy().frontier(&at(100));
    assert_eq!(before.elements, vec![10]);
    capability.adjust(&at(10), -1);
    let after = capability.policy().frontier(&at(100));
    assert_eq!(after.elements, vec![15]);
    assert!(before.le(&after));
    capability.adjust(&at(20), -1);
    let last = capability.policy().frontier(&at(100));
    assert_eq!(last.elements, vec![15]);
    assert!(after.le(&last));
}

#[test]
fn a_hold_moves_the_floor_backward_only_from_below() {
    let mut capability = ReadCapability::from_policy(ReadPolicy::ValidFrom(at(5)));
    let floor = capability.policy().frontier(&at(100));
    assert_eq!(floor.elements, vec![5]);
    capability.adjust(&at(8), 1);
    assert_eq!(capability.policy().frontier(&at(100)), floor);
    capability.adjust(&at(5), 1);
    assert_eq!(capability.policy().frontier(&at(100)), floor);
    capability.adjust(&at(3), 1);
    assert_eq!(capability.policy().frontier(&at(100)).elements, vec![3]);
}

#[test]
fn changes_commute() {
    let first = vec![
        HoldChange { id: 1, time: at(10), delta: 1 },
        HoldChange { id: 2, time: at(11), delta: 1 },
    ];
    let second = vec![
        HoldChange { id: 1, time: at(10), delta: -1 },
        HoldChange { id: 1, time: at(12), delta: 1 },
    ];
    let mut one = CapabilityTable::new();
    let mut other = CapabilityTable::new();
    for table in [&mut one, &mut other] {
        table.ensure(1, None, &at(0));
        table.ensure(2, None, &at(0));
        table.adjust(1, &at(10), 1);
    }
    one.apply(&first);
    one.apply(&second);
    other.apply(&second);
    other.apply(&first);
    for (id, t) in [(1, 10), (1, 11), (1, 12), (2, 10), (2, 11), (2, 12)] {
        assert_eq!(one.hold_count(id, t), other.hold_count(id, t));
    }
    assert_eq!(one.hold_count(1, 10), 1);
    assert_eq!(one.hold_count(1, 12), 1);
    assert_eq!(one.hold_count(2, 11), 1);
    assert_eq!(one.policy(1), other.policy(1));
    assert_eq!(one.policy(2), other.policy(2));
}
