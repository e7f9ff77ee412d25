use bus_simulator::counter::PaxCounter;
use bus_simulator::error::SimError;

#[test]
fn new_counter_holds_nobody() {
    let counter = PaxCounter::new();
    assert_eq!(counter.total(), 0);
    assert_eq!(counter.len(), 0);
    assert_eq!(counter.count(5), 0);
}

#[test]
fn add_grows_group_in_place_and_appends_new_destinations() {
    let mut counter = PaxCounter::new();
    counter.add(4, 2);
    counter.add(9, 1);
    counter.add(4, 3);
    assert_eq!(counter.len(), 2);
    assert_eq!(counter.group(0), (4, 5));
    assert_eq!(counter.group(1), (9, 1));
    assert_eq!(counter.total(), 6);
    assert_eq!(counter.count(4), 5);
    assert_eq!(counter.count(9), 1);
    assert_eq!(counter.count(7), 0);
}

#[test]
fn adding_nobody_keeps_no_empty_group() {
    let mut counter = PaxCounter::new();
    counter.add(4, 0);
    assert_eq!(counter.len(), 0);
    assert_eq!(counter.total(), 0);
}

#[test]
fn remove_shrinks_group_and_drops_it_when_empty() {
    let mut counter = PaxCounter::new();
    counter.add(1, 3);
    counter.add(2, 4);
    counter.add(3, 5);
    assert!(counter.remove(2, 1));
    assert_eq!(counter.group(1), (2, 3));
    assert_eq!(counter.total(), 11);
    assert!(counter.remove(2, 3));
    assert_eq!(counter.len(), 2);
    assert_eq!(counter.group(0), (1, 3));
    assert_eq!(counter.group(1), (3, 5));
    assert_eq!(counter.total(), 8);
    assert_eq!(counter.count(2), 0);
}

#[test]
fn remove_refuses_to_go_below_zero() {
    let mut counter = PaxCounter::new();
    counter.add(1, 3);
    assert!(!counter.remove(1, 4));
    assert!(!counter.remove(2, 1));
    assert_eq!(counter.count(1), 3);
    assert_eq!(counter.total(), 3);
    assert!(counter.remove(2, 0));
    assert_eq!(counter.total(), 3);
}

#[test]
fn remove_all_reports_how_many_left() {
    let mut counter = PaxCounter::new();
    counter.add(1, 3);
    counter.add(2, 4);
    assert_eq!(counter.remove_all(1), 3);
    assert_eq!(counter.count(1), 0);
    assert_eq!(counter.total(), 4);
    assert_eq!(counter.remove_all(1), 0);
    assert_eq!(counter.total(), 4);
}

#[test]
fn add_within_reports_capacity_exceeded_and_changes_nothing() {
    let mut counter = PaxCounter::new();
    assert_eq!(counter.add_within(1, 3, 5), Ok(()));
    assert_eq!(counter.add_within(2, 3, 5), Err(SimError::CapacityExceeded));
    assert_eq!(counter.total(), 3);
    assert_eq!(counter.count(2), 0);
    assert_eq!(counter.add_within(2, 2, 5), Ok(()));
    assert_eq!(counter.total(), 5);
    assert_eq!(counter.add_within(2, 1, 5), Err(SimError::CapacityExceeded));
    assert_eq!(counter.add_within(2, 0, 5), Ok(()));
    assert_eq!(counter.add_within(2, 0, 4), Err(SimError::CapacityExceeded));
}

#[test]
fn add_within_handles_the_largest_counts() {
    let mut counter = PaxCounter::new();
    assert_eq!(counter.add_within(1, u64::MAX, u64::MAX), Ok(()));
    assert_eq!(counter.add_within(1, 1, u64::MAX), Err(SimError::CapacityExceeded));
    assert_eq!(counter.total(), u64::MAX);
}
