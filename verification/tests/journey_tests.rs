use bus_simulator::bus::Bus;
use bus_simulator::bus::Motion;
use bus_simulator::engine::Simulation;
use bus_simulator::error::SimError;
use bus_simulator::route::Route;
use bus_simulator::stop::Stop;

fn three_stop_route(bus_count: usize, capacity: u64) -> Route {
    Route::new(7, vec![0, 1, 2], bus_count, capacity).unwrap()
}

#[test]
fn capacity_caps_boarding_and_passengers_alight_at_destination() {
    let route = three_stop_route(1, 2);
    let mut stops = vec![Stop::new(0), Stop::new(1), Stop::new(2)];
    let mut bus = Bus::new(route, 0);
    assert_eq!(bus.cur_stop(), 0);
    assert!(!bus.in_motion());
    stops[0].enqueue(bus.bus_id());
    stops[1].add_waiting(2, 3);

    // 0 -> 1
    assert_eq!(bus.departure_ready(&stops[0]), Ok(true));
    assert_eq!(bus.depart(&mut stops[0]), Ok(()));
    assert!(bus.in_motion());
    assert_eq!(bus.arrive(&mut stops[1]), Ok(()));
    assert_eq!(bus.cur_stop(), 1);
    assert_eq!(bus.boards(&stops[1]), Ok(vec![(2, 2)]));
    assert_eq!(bus.departure_ready(&stops[1]), Ok(false));
    assert_eq!(bus.board(&mut stops[1]), Ok(()));
    assert_eq!(bus.pax_count(), 2);
    assert_eq!(stops[1].pax_count(), 1);
    assert_eq!(stops[1].waiting_for(2), 1);
    assert!(bus.full(0));
    assert_eq!(bus.departure_ready(&stops[1]), Ok(true));

    // 1 -> 2
    assert_eq!(bus.depart(&mut stops[1]), Ok(()));
    assert_eq!(bus.arrive(&mut stops[2]), Ok(()));
    assert_eq!(bus.disembarks(), Ok(2));
    assert_eq!(bus.disembark(&stops[2]), Ok(()));
    assert_eq!(bus.pax_count(), 0);
    assert_eq!(bus.pax_for(2), 0);
    assert_eq!(stops[2].pax_count(), 0);
}

#[test]
fn engine_runs_the_same_journey() {
    let mut sim = Simulation::new(three_stop_route(1, 2));
    assert!(sim.add_waiting(1, 2, 3));
    sim.step();
    assert_eq!(sim.bus(0).motion(), Motion::Transiting { remaining: 1 });
    assert_eq!(sim.bus(0).cur_stop(), 0);
    sim.step();
    assert_eq!(sim.bus(0).cur_stop(), 1);
    assert_eq!(sim.bus(0).pax_count(), 2);
    assert_eq!(sim.stop(1).pax_count(), 1);
    sim.step();
    assert_eq!(sim.bus(0).cur_stop(), 2);
    assert_eq!(sim.bus(0).pax_count(), 0);
    assert_eq!(sim.stop(1).pax_count(), 1);
    assert_eq!(sim.stop(2).queue_length(), 0);
    assert_eq!(sim.stop(0).get_head(), Err(SimError::EmptyQueue));
}
