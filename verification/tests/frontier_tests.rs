use read_holds::frontier::Frontier;

fn at(t: u64) -> Frontier {
    Frontier::from_elem(t)
}

#[test]
fn from_elem_holds_one_element() {
    assert_eq!(at(7).elements, vec![7]);
    assert!(!at(7).is_empty());
    assert!(Frontier::new().is_empty());
    assert_eq!(Frontier::new().elements, Vec::<u64>::new());
}

#[test]
fn join_takes_the_later_time() {
    assert_eq!(at(5).join(&at(8)).elements, vec![8]);
    assert_eq!(at(8).join(&at(5)).elements, vec![8]);
    assert_eq!(at(8).join(&at(8)).elements, vec![8]);
}

#[test]
fn join_with_the_empty_frontier_is_empty() {
    assert_eq!(at(5).join(&Frontier::new()).elements, Vec::<u64>::new());
    assert_eq!(Frontier::new().join(&at(5)).elements, Vec::<u64>::new());
    assert_eq!(Frontier::new().join(&Frontier::new()).elements, Vec::<u64>::new());
}

#[test]
fn meet_takes_the_earlier_time() {
    assert_eq!(at(5).meet(&at(8)).elements, vec![5]);
    assert_eq!(at(8).meet(&at(5)).elements, vec![5]);
    assert_eq!(at(5).meet(&Frontier::new()).elements, vec![5]);
    assert_eq!(Frontier::new().meet(&at(5)).elements, vec![5]);
    assert_eq!(Frontier::new().meet(&Frontier::new()).elements, Vec::<u64>::new());
}

#[test]
fn le_orders_frontiers() {
    assert!(at(5).le(&at(8)));
    assert!(at(5).le(&at(5)));
    assert!(!at(8).le(&at(5)));
    // The empty frontier is the greatest: no time is beyond it.
    assert!(at(5).le(&Frontier::new()));
    assert!(!Frontier::new().le(&at(5)));
    assert!(Frontier::new().le(&Frontier::new()));
}

#[test]
fn le_of_live_frontier_and_new_time() {
    // A collection at [7] can have its hold moved to [10], not to [6].
    assert!(at(7).le(&at(10)));
    assert!(!at(7).le(&at(6)));
}

#[test]
fn join_is_an_upper_bound_of_both() {
    let a = at(3);
    let b = at(9);
    let j = a.join(&b);
    assert!(a.le(&j));
    assert!(b.le(&j));
}

#[test]
fn same_as_compares_elements() {
    assert!(at(4).same_as(&at(4)));
    assert!(!at(4).same_as(&at(5)));
    assert!(!at(4).same_as(&Frontier::new()));
    assert!(Frontier::new().same_as(&Frontier::new()));
}

#[test]
fn clone_keeps_the_elements() {
    assert_eq!(at(11).clone(), at(11));
}

#[test]
fn from_times_keeps_the_least_time() {
    assert_eq!(Frontier::from_times(&vec![]), Frontier::new());
    assert_eq!(Frontier::from_times(&vec![7]), at(7));
    assert_eq!(Frontier::from_times(&vec![7, 3, 9, 3]), at(3));
    assert_eq!(Frontier::from_times(&vec![0, u64::MAX]), at(0));
    assert_eq!(Frontier::from_times(&vec![u64::MAX, 5]), at(5));
    let given = Frontier { elements: vec![8, 2] };
    assert!(!given.is_well_formed());
    assert!(Frontier::from_times(&given.elements).is_well_formed());
}
