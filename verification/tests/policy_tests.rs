use read_holds::frontier::Frontier;
use read_holds::policy::{
    CompactionWindow, ReadPolicy, DEFAULT_LOGICAL_COMPACTION_WINDOW, SINCE_GRANULARITY,
};

fn at(t: u64) -> Frontier {
    Frontier::from_elem(t)
}

#[test]
fn valid_from_names_its_frontier() {
    let policy = ReadPolicy::ValidFrom(at(42));
    assert_eq!(policy.frontier(&at(100)).elements, vec![42]);
    assert_eq!(policy.frontier(&Frontier::new()).elements, vec![42]);
}

#[test]
fn lag_floor_rounds_down_to_the_granularity() {
    let policy = ReadPolicy::lag_writes_by(1000, 1000);
    assert_eq!(policy.frontier(&at(10_000)).elements, vec![9000]);
    assert_eq!(policy.frontier(&at(10_500)).elements, vec![9000]);
    assert_eq!(policy.frontier(&at(10_999)).elements, vec![9000]);
    assert_eq!(policy.frontier(&at(11_000)).elements, vec![10_000]);
}

#[test]
fn lag_floor_uses_the_lag_as_granularity_when_it_is_smaller() {
    let policy = ReadPolicy::lag_writes_by(300, 1000);
    // 10_250 - 300 = 9950, rounded down to a multiple of 300: 9900.
    assert_eq!(policy.frontier(&at(10_250)).elements, vec![9900]);
}

#[test]
fn lag_floor_saturates_at_zero() {
    let policy = ReadPolicy::lag_writes_by(1000, 1000);
    assert_eq!(policy.frontier(&at(500)).elements, vec![0]);
    assert_eq!(policy.frontier(&at(0)).elements, vec![0]);
}

#[test]
fn lag_floor_without_lag_is_the_upper() {
    let policy = ReadPolicy::lag_writes_by(0, 1000);
    assert_eq!(policy.frontier(&at(1234)).elements, vec![1234]);
}

#[test]
fn lag_floor_without_granularity_is_not_rounded() {
    let policy = ReadPolicy::lag_writes_by(7, 0);
    assert_eq!(policy.frontier(&at(1234)).elements, vec![1227]);
}

#[test]
fn lag_floor_of_an_empty_upper_is_time_zero() {
    let policy = ReadPolicy::lag_writes_by(1000, 1000);
    assert_eq!(policy.frontier(&Frontier::new()).elements, vec![0]);
}

#[test]
fn multiple_takes_the_least_floor() {
    let policy = ReadPolicy::Multiple(vec![
        ReadPolicy::ValidFrom(at(50)),
        ReadPolicy::ValidFrom(at(20)),
        ReadPolicy::ValidFrom(at(70)),
    ]);
    assert_eq!(policy.frontier(&at(100)).elements, vec![20]);
}

#[test]
fn multiple_passes_over_empty_floors() {
    let policy = ReadPolicy::Multiple(vec![
        ReadPolicy::ValidFrom(Frontier::new()),
        ReadPolicy::ValidFrom(at(20)),
    ]);
    assert_eq!(policy.frontier(&at(100)).elements, vec![20]);
    let nothing = ReadPolicy::Multiple(vec![]);
    assert_eq!(nothing.frontier(&at(100)).elements, Vec::<u64>::new());
}

#[test]
fn multiple_nests() {
    let policy = ReadPolicy::Multiple(vec![
        ReadPolicy::Multiple(vec![ReadPolicy::ValidFrom(at(9)), ReadPolicy::lag_writes_by(10, 10)]),
        ReadPolicy::ValidFrom(at(40)),
    ]);
    // The lagging part gives 100 - 10 = 90; the least of 9, 90 and 40 is 9.
    assert_eq!(policy.frontier(&at(100)).elements, vec![9]);
}

#[test]
fn policy_clone_is_equal() {
    let policy = ReadPolicy::Multiple(vec![
        ReadPolicy::ValidFrom(at(9)),
        ReadPolicy::lag_writes_by(10, 10),
        ReadPolicy::Multiple(vec![ReadPolicy::ValidFrom(Frontier::new())]),
    ]);
    assert_eq!(policy.clone(), policy);
}

#[test]
fn compaction_windows_give_their_policies() {
    assert_eq!(DEFAULT_LOGICAL_COMPACTION_WINDOW, 1000);
    assert_eq!(SINCE_GRANULARITY, 1000);
    assert_eq!(
        CompactionWindow::Default.to_policy(),
        ReadPolicy::LagWriteFrontier { lag: 1000, max_granularity: 1000 }
    );
    assert_eq!(
        CompactionWindow::Duration(250).to_policy(),
        ReadPolicy::LagWriteFrontier { lag: 250, max_granularity: 1000 }
    );
    assert_eq!(CompactionWindow::DisableCompaction.to_policy(), ReadPolicy::ValidFrom(at(0)));
}

#[test]
fn policies_from_elsewhere_can_be_tested() {
    assert!(at(3).is_well_formed());
    assert!(Frontier::new().is_well_formed());
    assert!(!Frontier { elements: vec![3, 4] }.is_well_formed());
    assert!(!Frontier { elements: vec![3, 3] }.is_well_formed());
    assert!(ReadPolicy::ValidFrom(at(3)).is_well_formed());
    assert!(ReadPolicy::lag_writes_by(1, 2).is_well_formed());
    assert!(ReadPolicy::Multiple(vec![]).is_well_formed());
    let wide = ReadPolicy::ValidFrom(Frontier { elements: vec![1, 2] });
    assert!(!wide.is_well_formed());
    assert!(ReadPolicy::Multiple(vec![ReadPolicy::ValidFrom(at(1)), ReadPolicy::Multiple(vec![])])
        .is_well_formed());
    assert!(!ReadPolicy::Multiple(vec![
        ReadPolicy::ValidFrom(at(1)),
        ReadPolicy::Multiple(vec![ReadPolicy::lag_writes_by(1, 1), wide]),
    ])
    .is_well_formed());
}
