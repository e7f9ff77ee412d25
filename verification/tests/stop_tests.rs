use bus_simulator::error::SimError;
use bus_simulator::stop::Stop;

#[test]
fn new_stop_is_empty() {
    let stop = Stop::new(12);
    assert_eq!(stop.stop_id(), 12);
    assert_eq!(stop.queue_length(), 0);
    assert_eq!(stop.pax_count(), 0);
    assert_eq!(stop.get_head(), Err(SimError::EmptyQueue));
}

#[test]
fn queue_is_first_in_first_out() {
    let mut stop = Stop::new(1);
    stop.enqueue(7);
    stop.enqueue(3);
    stop.enqueue(5);
    assert_eq!(stop.queue_length(), 3);
    assert_eq!(stop.get_head(), Ok(7));
    assert_eq!(stop.dequeue_head(), Ok(7));
    assert_eq!(stop.get_head(), Ok(3));
    assert_eq!(stop.dequeue_head(), Ok(3));
    assert_eq!(stop.dequeue_head(), Ok(5));
    assert_eq!(stop.queue_length(), 0);
    assert_eq!(stop.dequeue_head(), Err(SimError::EmptyQueue));
    assert_eq!(stop.queue_length(), 0);
}

#[test]
fn queueing_leaves_waiting_passengers_alone() {
    let mut stop = Stop::new(1);
    stop.add_waiting(2, 4);
    stop.enqueue(7);
    assert_eq!(stop.pax_count(), 4);
    assert_eq!(stop.dequeue_head(), Ok(7));
    assert_eq!(stop.pax_count(), 4);
    assert_eq!(stop.waiting_for(2), 4);
}

#[test]
fn add_waiting_counts_by_destination() {
    let mut stop = Stop::new(1);
    stop.add_waiting(2, 4);
    stop.add_waiting(3, 1);
    stop.add_waiting(2, 2);
    assert_eq!(stop.pax_count(), 7);
    assert_eq!(stop.waiting_for(2), 6);
    assert_eq!(stop.waiting_for(3), 1);
    assert_eq!(stop.waiting_for(4), 0);
    assert_eq!(stop.waiting().len(), 2);
    assert_eq!(stop.waiting().group(0), (2, 6));
    assert_eq!(stop.waiting().group(1), (3, 1));
}
