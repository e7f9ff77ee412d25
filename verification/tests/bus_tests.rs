use bus_simulator::bus::Bus;
use bus_simulator::bus::Motion;
use bus_simulator::error::SimError;
use bus_simulator::route::Route;
use bus_simulator::stop::Stop;

fn route(capacity: u64) -> Route {
    Route::new(1, vec![10, 20, 30], 2, capacity).unwrap()
}

fn bus_at(stop: &mut Stop, route: Route, bus_id: u64) -> Bus {
    let bus = Bus::new(route, bus_id);
    stop.enqueue(bus_id);
    bus
}

#[test]
fn new_bus_stands_empty_at_its_number_modulo_the_stops() {
    let bus = Bus::new(route(5), 7);
    assert_eq!(bus.bus_id(), 7);
    assert_eq!(bus.cur_stop(), 1);
    assert_eq!(bus.motion(), Motion::Stopped);
    assert!(!bus.in_motion());
    assert_eq!(bus.pax_count(), 0);
    assert_eq!(bus.stop(), Ok(20));
    assert_eq!(bus.next_stop(), 2);
    assert_eq!(bus.route().route_id(), 1);
    assert_eq!(Bus::new(route(5), 0).cur_stop(), 0);
    assert_eq!(Bus::new(route(5), 2).next_stop(), 0);
    assert_eq!(Bus::new(route(5), u64::MAX).cur_stop(), (u64::MAX % 3) as usize);
}

#[test]
fn buses_are_equal_by_identifier() {
    let mut stop = Stop::new(10);
    stop.add_waiting(20, 2);
    let mut loaded = bus_at(&mut stop, route(5), 3);
    assert_eq!(loaded.board(&mut stop), Ok(()));
    assert_eq!(loaded.pax_count(), 2);
    let empty = Bus::new(route(9), 3);
    let other = Bus::new(route(5), 4);
    assert!(loaded == empty);
    assert!(loaded != other);
}

#[test]
fn satisfies_means_the_route_calls_there() {
    let bus = Bus::new(route(5), 0);
    assert!(bus.satisfies(10));
    assert!(bus.satisfies(20));
    assert!(bus.satisfies(30));
    assert!(!bus.satisfies(40));
    assert!(!bus.satisfies(0));
}

#[test]
fn full_compares_count_plus_offset_with_capacity() {
    let mut stop = Stop::new(10);
    stop.add_waiting(20, 3);
    let mut bus = bus_at(&mut stop, route(5), 0);
    assert!(!bus.full(0));
    assert!(!bus.full(4));
    assert!(bus.full(5));
    assert!(bus.full(u64::MAX));
    assert_eq!(bus.board(&mut stop), Ok(()));
    assert_eq!(bus.pax_count(), 3);
    assert!(!bus.full(1));
    assert!(bus.full(2));
    let none = Bus::new(route(0), 0);
    assert!(none.full(0));
}

#[test]
fn boards_filters_by_route_and_caps_at_the_free_seats() {
    let mut stop = Stop::new(10);
    stop.add_waiting(99, 4);
    stop.add_waiting(30, 2);
    stop.add_waiting(20, 5);
    stop.add_waiting(10, 1);
    let bus = bus_at(&mut stop, route(4), 0);
    assert_eq!(bus.boards(&stop), Ok(vec![(30, 2), (20, 2)]));
    let roomy = Bus::new(route(100), 0);
    assert_eq!(roomy.boards(&stop), Ok(vec![(30, 2), (20, 5), (10, 1)]));
    let tight = Bus::new(route(1), 0);
    assert_eq!(tight.boards(&stop), Ok(vec![(30, 1)]));
}

#[test]
fn boards_is_empty_when_full_or_nobody_is_served() {
    let mut stop = Stop::new(10);
    stop.add_waiting(99, 4);
    let bus = bus_at(&mut stop, route(4), 0);
    assert_eq!(bus.boards(&stop), Ok(vec![]));
    stop.add_waiting(20, 1);
    assert_eq!(bus.boards(&stop), Ok(vec![(20, 1)]));
    let no_seats = Bus::new(route(0), 0);
    assert_eq!(no_seats.boards(&stop), Ok(vec![]));
    let empty_stop = Stop::new(10);
    assert_eq!(bus.boards(&empty_stop), Ok(vec![]));
}

#[test]
fn board_moves_the_boarding_groups_from_stop_to_bus() {
    let mut stop = Stop::new(10);
    stop.add_waiting(99, 4);
    stop.add_waiting(30, 2);
    stop.add_waiting(20, 5);
    let mut bus = bus_at(&mut stop, route(4), 0);
    assert_eq!(bus.board(&mut stop), Ok(()));
    assert_eq!(bus.pax_count(), 4);
    assert_eq!(bus.pax_for(30), 2);
    assert_eq!(bus.pax_for(20), 2);
    assert_eq!(bus.pax_for(99), 0);
    assert_eq!(stop.pax_count(), 7);
    assert_eq!(stop.waiting_for(99), 4);
    assert_eq!(stop.waiting_for(30), 0);
    assert_eq!(stop.waiting_for(20), 3);
    assert!(bus.full(0));
    // A second call finds no free seat and changes nothing.
    assert_eq!(bus.boards(&stop), Ok(vec![]));
    assert_eq!(bus.board(&mut stop), Ok(()));
    assert_eq!(bus.pax_count(), 4);
    assert_eq!(stop.pax_count(), 7);
}

#[test]
fn board_with_nobody_to_take_is_a_no_op() {
    let mut stop = Stop::new(10);
    let mut bus = bus_at(&mut stop, route(4), 0);
    assert_eq!(bus.board(&mut stop), Ok(()));
    assert_eq!(bus.pax_count(), 0);
    assert_eq!(stop.pax_count(), 0);
}

#[test]
fn disembark_lets_off_those_bound_for_the_stop() {
    let mut first = Stop::new(10);
    first.add_waiting(20, 2);
    first.add_waiting(30, 1);
    let mut bus = bus_at(&mut first, route(5), 0);
    assert_eq!(bus.board(&mut first), Ok(()));
    assert_eq!(bus.disembarks(), Ok(0));
    assert_eq!(bus.depart(&mut first), Ok(()));
    let mut second = Stop::new(20);
    second.add_waiting(30, 7);
    assert_eq!(bus.arrive(&mut second), Ok(()));
    assert_eq!(bus.disembarks(), Ok(2));
    assert_eq!(bus.disembark(&second), Ok(()));
    assert_eq!(bus.pax_count(), 1);
    assert_eq!(bus.pax_for(20), 0);
    assert_eq!(bus.pax_for(30), 1);
    // Those who got off do not join the passengers waiting at the stop.
    assert_eq!(second.pax_count(), 7);
    // A second call finds nobody to let off.
    assert_eq!(bus.disembarks(), Ok(0));
    assert_eq!(bus.disembark(&second), Ok(()));
    assert_eq!(bus.pax_count(), 1);
}

#[test]
fn round_trip_returns_the_count_to_what_it_was() {
    let mut first = Stop::new(10);
    first.add_waiting(30, 3);
    first.add_waiting(20, 1);
    let mut bus = bus_at(&mut first, route(10), 0);
    assert_eq!(bus.board(&mut first), Ok(()));
    assert_eq!(bus.pax_for(30), 3);
    let after_boarding = bus.pax_count();
    assert_eq!(after_boarding, 4);
    assert_eq!(bus.depart(&mut first), Ok(()));
    let mut second = Stop::new(20);
    assert_eq!(bus.arrive(&mut second), Ok(()));
    assert_eq!(bus.disembark(&second), Ok(()));
    assert_eq!(bus.depart(&mut second), Ok(()));
    let mut third = Stop::new(30);
    assert_eq!(bus.arrive(&mut third), Ok(()));
    let before = bus.pax_count();
    assert_eq!(bus.disembark(&third), Ok(()));
    assert_eq!(bus.pax_for(30), 0);
    assert_eq!(bus.pax_count(), before - 3);
    assert_eq!(bus.pax_count(), 0);
}

#[test]
fn departure_ready_follows_its_formula() {
    // Nobody aboard, nobody waiting: ready.
    let mut stop = Stop::new(10);
    let mut bus = bus_at(&mut stop, route(2), 0);
    assert_eq!(bus.departure_ready(&stop), Ok(true));
    // Somebody served is waiting and a seat is free: not ready.
    stop.add_waiting(20, 3);
    assert_eq!(bus.departure_ready(&stop), Ok(false));
    // Full bus, passengers still waiting: ready.
    assert_eq!(bus.board(&mut stop), Ok(()));
    assert!(bus.full(0));
    assert_eq!(stop.waiting_for(20), 1);
    assert_eq!(bus.departure_ready(&stop), Ok(true));
    // Only passengers for stops off the route wait: ready.
    let mut other = Stop::new(10);
    other.add_waiting(99, 3);
    let idle = bus_at(&mut other, route(2), 3);
    assert_eq!(idle.departure_ready(&other), Ok(true));
}

#[test]
fn departure_ready_waits_for_those_who_want_off() {
    let mut first = Stop::new(10);
    first.add_waiting(20, 2);
    let mut bus = bus_at(&mut first, route(2), 0);
    assert_eq!(bus.board(&mut first), Ok(()));
    assert_eq!(bus.depart(&mut first), Ok(()));
    let mut second = Stop::new(20);
    assert_eq!(bus.arrive(&mut second), Ok(()));
    // Full, but two passengers want off here.
    assert!(bus.full(0));
    assert_eq!(bus.disembarks(), Ok(2));
    assert_eq!(bus.departure_ready(&second), Ok(false));
    assert_eq!(bus.depart(&mut second), Err(SimError::InvalidState));
    assert_eq!(bus.disembark(&second), Ok(()));
    assert_eq!(bus.departure_ready(&second), Ok(true));
}

#[test]
fn operations_at_a_stop_fail_on_the_road() {
    let mut stop = Stop::new(10);
    stop.add_waiting(20, 1);
    let mut bus = bus_at(&mut stop, route(0), 0);
    assert_eq!(bus.depart(&mut stop), Ok(()));
    assert!(bus.in_motion());
    assert_eq!(bus.motion(), Motion::Transiting { remaining: 1 });
    assert_eq!(bus.stop(), Err(SimError::InvalidState));
    assert_eq!(bus.disembarks(), Err(SimError::InvalidState));
    assert_eq!(bus.boards(&stop), Err(SimError::InvalidState));
    assert_eq!(bus.board(&mut stop), Err(SimError::InvalidState));
    assert_eq!(bus.disembark(&stop), Err(SimError::InvalidState));
    assert_eq!(bus.departure_ready(&stop), Err(SimError::InvalidState));
    assert_eq!(bus.depart(&mut stop), Err(SimError::InvalidState));
    assert_eq!(bus.settle(&mut stop), Err(SimError::InvalidState));
    assert!(!bus.is_head(&stop));
    assert!(!bus.is_at(&stop));
    assert_eq!(stop.pax_count(), 1);
    assert_eq!(stop.queue_length(), 0);
}

#[test]
fn operations_fail_at_a_stop_where_the_bus_is_not() {
    let mut elsewhere = Stop::new(30);
    elsewhere.add_waiting(20, 1);
    elsewhere.enqueue(0);
    let mut bus = Bus::new(route(5), 0);
    assert!(!bus.is_at(&elsewhere));
    assert!(!bus.is_head(&elsewhere));
    assert_eq!(bus.boards(&elsewhere), Err(SimError::InvalidState));
    assert_eq!(bus.board(&mut elsewhere), Err(SimError::InvalidState));
    assert_eq!(bus.disembark(&elsewhere), Err(SimError::InvalidState));
    assert_eq!(bus.departure_ready(&elsewhere), Err(SimError::InvalidState));
    assert_eq!(bus.depart(&mut elsewhere), Err(SimError::InvalidState));
    assert_eq!(elsewhere.pax_count(), 1);
    assert_eq!(elsewhere.queue_length(), 1);
    assert_eq!(bus.pax_count(), 0);
}

#[test]
fn arrive_needs_a_bus_on_the_road_and_its_next_stop() {
    let mut first = Stop::new(10);
    let mut second = Stop::new(20);
    let mut third = Stop::new(30);
    let mut bus = bus_at(&mut first, route(5), 0);
    // Standing buses do not arrive.
    assert_eq!(bus.arrive(&mut second), Err(SimError::InvalidState));
    assert_eq!(second.queue_length(), 0);
    assert_eq!(bus.depart(&mut first), Ok(()));
    // The bus is bound for the second stop, not the third or the first.
    assert_eq!(bus.arrive(&mut third), Err(SimError::InvalidState));
    assert_eq!(bus.arrive(&mut first), Err(SimError::InvalidState));
    assert!(bus.in_motion());
    assert_eq!(bus.cur_stop(), 0);
    assert_eq!(third.queue_length(), 0);
    assert_eq!(bus.arrive(&mut second), Ok(()));
    assert!(!bus.in_motion());
    assert_eq!(bus.cur_stop(), 1);
    assert_eq!(second.get_head(), Ok(0));
    assert_eq!(bus.stop(), Ok(20));
}

#[test]
fn arrival_wraps_from_the_last_stop_to_the_first() {
    let mut last = Stop::new(30);
    let mut first = Stop::new(10);
    let mut bus = bus_at(&mut last, route(5), 2);
    assert_eq!(bus.cur_stop(), 2);
    assert_eq!(bus.next_stop(), 0);
    assert_eq!(bus.depart(&mut last), Ok(()));
    assert_eq!(bus.arrive(&mut first), Ok(()));
    assert_eq!(bus.cur_stop(), 0);
    assert_eq!(first.get_head(), Ok(2));
}

#[test]
fn joins_the_tail_of_the_queue_on_arrival() {
    let mut first = Stop::new(10);
    let mut second = Stop::new(20);
    second.enqueue(1);
    let mut bus = bus_at(&mut first, route(5), 0);
    assert_eq!(bus.depart(&mut first), Ok(()));
    assert_eq!(bus.arrive(&mut second), Ok(()));
    assert_eq!(second.queue_length(), 2);
    assert_eq!(second.get_head(), Ok(1));
    assert!(!bus.is_head(&second));
    assert!(bus.is_at(&second));
}

#[test]
fn only_the_head_departs() {
    let mut stop = Stop::new(10);
    stop.enqueue(3);
    let mut bus = bus_at(&mut stop, route(5), 0);
    assert!(!bus.is_head(&stop));
    assert_eq!(bus.departure_ready(&stop), Ok(true));
    assert_eq!(bus.depart(&mut stop), Err(SimError::InvalidState));
    assert!(!bus.in_motion());
    assert_eq!(stop.queue_length(), 2);
    assert_eq!(stop.dequeue_head(), Ok(3));
    assert!(bus.is_head(&stop));
    assert_eq!(bus.depart(&mut stop), Ok(()));
    assert_eq!(stop.queue_length(), 0);
}

#[test]
fn depart_sets_the_travel_time_of_the_route() {
    let mut stop = Stop::new(10);
    let mut bus = bus_at(&mut stop, route(5).with_travel_time(4), 0);
    assert_eq!(bus.depart(&mut stop), Ok(()));
    assert_eq!(bus.motion(), Motion::Transiting { remaining: 4 });
}

#[test]
fn tick_counts_down_until_the_bus_is_due() {
    let mut stop = Stop::new(10);
    let mut bus = bus_at(&mut stop, route(5).with_travel_time(3), 0);
    assert!(!bus.tick());
    assert_eq!(bus.motion(), Motion::Stopped);
    assert_eq!(bus.depart(&mut stop), Ok(()));
    assert!(!bus.tick());
    assert_eq!(bus.motion(), Motion::Transiting { remaining: 2 });
    assert!(!bus.tick());
    assert_eq!(bus.motion(), Motion::Transiting { remaining: 1 });
    assert!(bus.tick());
    assert_eq!(bus.motion(), Motion::Transiting { remaining: 1 });
    assert!(bus.tick());
}

#[test]
fn a_route_without_travel_time_is_due_at_once() {
    let mut stop = Stop::new(10);
    let mut bus = bus_at(&mut stop, route(5).with_travel_time(0), 0);
    assert_eq!(bus.depart(&mut stop), Ok(()));
    assert_eq!(bus.motion(), Motion::Transiting { remaining: 0 });
    assert!(bus.tick());
    assert_eq!(bus.motion(), Motion::Transiting { remaining: 0 });
}

#[test]
fn second_bus_is_inert_until_it_becomes_head() {
    // Buses 1 and 4 both start at position 1 of a three-stop route.
    let mut stop = Stop::new(20);
    stop.add_waiting(30, 1);
    let mut head = bus_at(&mut stop, route(3), 1);
    let mut follower = bus_at(&mut stop, route(3), 4);
    assert!(head.is_head(&stop));
    assert!(!follower.is_head(&stop));
    assert!(follower.is_at(&stop));

    // The follower reports what it would do, again and again the same.
    assert_eq!(follower.boards(&stop), Ok(vec![(30, 1)]));
    assert_eq!(follower.boards(&stop), Ok(vec![(30, 1)]));
    assert_eq!(follower.disembarks(), Ok(0));
    assert_eq!(follower.departure_ready(&stop), Ok(false));
    // It does nothing while it is not the head.
    assert_eq!(follower.board(&mut stop), Ok(()));
    assert_eq!(follower.disembark(&stop), Ok(()));
    assert_eq!(follower.settle(&mut stop), Err(SimError::InvalidState));
    assert_eq!(follower.pax_count(), 0);
    assert_eq!(stop.pax_count(), 1);
    assert_eq!(follower.depart(&mut stop), Err(SimError::InvalidState));
    assert_eq!(stop.queue_length(), 2);

    // Promoted, it starts to act.
    assert_eq!(stop.dequeue_head(), Ok(1));
    assert!(!head.is_head(&stop));
    assert!(follower.is_head(&stop));
    assert_eq!(follower.board(&mut stop), Ok(()));
    assert_eq!(follower.pax_count(), 1);
    assert_eq!(follower.pax_for(30), 1);
    assert_eq!(stop.pax_count(), 0);
    // The bus that left the queue without departing is inert in turn.
    stop.add_waiting(30, 1);
    assert_eq!(head.board(&mut stop), Ok(()));
    assert_eq!(head.pax_count(), 0);
    assert_eq!(stop.pax_count(), 1);
}

#[test]
fn settle_exchanges_until_ready() {
    let mut first = Stop::new(10);
    first.add_waiting(20, 2);
    let mut bus = bus_at(&mut first, route(2), 0);
    assert_eq!(bus.settle(&mut first), Ok(()));
    assert_eq!(bus.pax_count(), 2);
    assert_eq!(bus.depart(&mut first), Ok(()));
    let mut second = Stop::new(20);
    second.add_waiting(30, 5);
    second.add_waiting(99, 1);
    assert_eq!(bus.arrive(&mut second), Ok(()));
    assert_eq!(bus.settle(&mut second), Ok(()));
    // Two got off, two got on, three served passengers are left behind.
    assert_eq!(bus.pax_for(20), 0);
    assert_eq!(bus.pax_for(30), 2);
    assert_eq!(bus.pax_count(), 2);
    assert_eq!(second.waiting_for(30), 3);
    assert_eq!(second.waiting_for(99), 1);
    assert_eq!(bus.departure_ready(&second), Ok(true));
}

#[test]
fn settle_lets_passengers_for_this_very_stop_on_and_off() {
    let mut stop = Stop::new(10);
    stop.add_waiting(10, 3);
    stop.add_waiting(20, 2);
    let mut bus = bus_at(&mut stop, route(2), 0);
    assert_eq!(bus.settle(&mut stop), Ok(()));
    assert_eq!(stop.pax_count(), 0);
    assert_eq!(bus.pax_for(10), 0);
    assert_eq!(bus.pax_for(20), 2);
    assert_eq!(bus.pax_count(), 2);
    assert_eq!(bus.departure_ready(&stop), Ok(true));
}

#[test]
fn a_bus_arrives_only_when_it_is_due() {
    let route = Route::new(1, vec![10, 20], 1, 5).unwrap().with_travel_time(3);
    let mut first = Stop::new(10);
    let mut second = Stop::new(20);
    let mut bus = Bus::new(route, 0);
    first.enqueue(0);
    assert!(!bus.is_due());
    assert_eq!(bus.depart(&mut first), Ok(()));
    assert!(!bus.is_due());
    assert_eq!(bus.arrive(&mut second), Err(SimError::InvalidState));
    assert_eq!(bus.motion(), Motion::Transiting { remaining: 3 });
    assert_eq!(second.queue_length(), 0);
    assert!(!bus.tick());
    assert_eq!(bus.arrive(&mut second), Err(SimError::InvalidState));
    assert!(!bus.tick());
    assert!(bus.is_due());
    assert!(bus.tick());
    assert_eq!(bus.arrive(&mut second), Ok(()));
    assert_eq!(bus.cur_stop(), 1);
    assert_eq!(second.get_head(), Ok(0));
    assert!(!bus.is_due());
}

#[test]
fn boards_names_each_destination_once() {
    let route = Route::new(1, vec![10, 20, 30], 1, 10).unwrap();
    let mut stop = Stop::new(10);
    stop.add_waiting(20, 1);
    stop.add_waiting(30, 2);
    stop.add_waiting(20, 3);
    let bus = Bus::new(route, 0);
    assert_eq!(bus.boards(&stop), Ok(vec![(20, 4), (30, 2)]));
}
