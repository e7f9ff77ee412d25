use bus_simulator::route::Route;

#[test]
fn route_needs_a_stop() {
    assert!(Route::new(1, vec![], 2, 10).is_none());
}

#[test]
fn route_names_no_stop_twice() {
    assert!(Route::new(1, vec![3, 4, 3], 2, 10).is_none());
    assert!(Route::new(1, vec![3, 3], 2, 10).is_none());
    assert!(Route::new(1, vec![3, 4, 5], 2, 10).is_some());
}

#[test]
fn route_keeps_what_it_was_built_with() {
    let route = Route::new(9, vec![10, 20, 30], 4, 50).unwrap();
    assert_eq!(route.route_id(), 9);
    assert_eq!(route.stop_count(), 3);
    assert_eq!(route.bus_count(), 4);
    assert_eq!(route.capacity(), 50);
    assert_eq!(route.travel_time(), 1);
    let slow = route.with_travel_time(5);
    assert_eq!(slow.travel_time(), 5);
    assert_eq!(slow.route_id(), 9);
    assert_eq!(slow.stop_count(), 3);
}

#[test]
fn get_stop_wraps_round_the_circle() {
    let route = Route::new(9, vec![10, 20, 30], 1, 5).unwrap();
    assert_eq!(route.get_stop(0), 10);
    assert_eq!(route.get_stop(2), 30);
    assert_eq!(route.get_stop(3), 10);
    assert_eq!(route.get_stop(7), 20);
    assert_eq!(route.get_stop(usize::MAX), [10, 20, 30][usize::MAX % 3]);
}

#[test]
fn next_index_wraps_round_the_circle() {
    let route = Route::new(9, vec![10, 20, 30], 1, 5).unwrap();
    assert_eq!(route.next_index(0), 1);
    assert_eq!(route.next_index(1), 2);
    assert_eq!(route.next_index(2), 0);
    assert_eq!(route.next_index(5), 0);
    assert_eq!(route.next_index(usize::MAX), (usize::MAX % 3 + 1) % 3);
    let single = Route::new(1, vec![8], 1, 5).unwrap();
    assert_eq!(single.next_index(0), 0);
    assert_eq!(single.next_index(17), 0);
}

#[test]
fn visits_and_position_of_agree_with_the_stop_list() {
    let route = Route::new(9, vec![10, 20, 30], 1, 5).unwrap();
    assert!(route.visits(10));
    assert!(route.visits(30));
    assert!(!route.visits(0));
    assert!(!route.visits(25));
    assert_eq!(route.position_of(10), Some(0));
    assert_eq!(route.position_of(30), Some(2));
    assert_eq!(route.position_of(25), None);
}

#[test]
fn clone_copies_the_route() {
    let route = Route::new(9, vec![10, 20, 30], 4, 50).unwrap().with_travel_time(3);
    let copy = route.clone();
    assert_eq!(copy.route_id(), 9);
    assert_eq!(copy.stop_count(), 3);
    assert_eq!(copy.get_stop(1), 20);
    assert_eq!(copy.bus_count(), 4);
    assert_eq!(copy.capacity(), 50);
    assert_eq!(copy.travel_time(), 3);
}
