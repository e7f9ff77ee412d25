use crate::counter::count_in;
use crate::counter::is_tally;
use crate::counter::total_of;
use crate::counter::with_added;
use crate::counter::with_removed;
use crate::counter::PaxCounter;
use crate::error::SimError;
use vstd::prelude::*;

verus! {

/// Mathematical view of a stop: its identifier, the identifiers of the buses
/// present in arrival order, and the tally of waiting passengers by
/// destination.
pub struct StopView {
    pub stop_id: u64,
    pub queue: Seq<u64>,
    pub waiting: Seq<(u64, u64)>,
}

impl StopView {
    /// The waiting passengers form a tally.
    pub open spec fn wf(self) -> bool {
        is_tally(self.waiting)
    }

    /// Number of passengers waiting at the stop.
    pub open spec fn pax_count(self) -> nat {
        total_of(self.waiting)
    }

    /// The stop once the bus `bus_id` has joined the end of its queue.
    pub open spec fn joined_by(self, bus_id: u64) -> StopView {
        StopView { queue: self.queue.push(bus_id), ..self }
    }

    /// The stop once the bus at the head of its queue has left.
    pub open spec fn head_gone(self) -> StopView {
        StopView { queue: self.queue.drop_first(), ..self }
    }
}

/// A place where buses queue and passengers wait. Only the bus at the head of
/// the queue loads and unloads.
pub struct Stop {
    stop_id: u64,
    bus_queue: Vec<u64>,
    pax_dests: PaxCounter,
}

impl View for Stop {
    type V = StopView;

    closed spec fn view(&self) -> StopView {
        StopView { stop_id: self.stop_id, queue: self.bus_queue@, waiting: self.pax_dests@ }
    }
}

impl PartialEq for Stop {
    /// Two stops are the same stop when their identifiers agree, whoever
    /// waits or queues there.
    fn eq(&self, other: &Stop) -> (same: bool) {
        self.stop_id == other.stop_id
    }
}

impl vstd::std_specs::cmp::PartialEqSpecImpl for Stop {
    open spec fn obeys_eq_spec() -> bool {
        true
    }

    open spec fn eq_spec(&self, other: &Stop) -> bool {
        self@.stop_id == other@.stop_id
    }
}

impl Stop {
    /// The passenger counter's bookkeeping is consistent.
    pub closed spec fn inv(&self) -> bool {
        self.pax_dests.cached()
    }

    /// The stop's view is well formed and its bookkeeping consistent.
    pub open spec fn wf(&self) -> bool {
        &&& self@.wf()
        &&& self.inv()
    }

    /// A stop with nobody waiting and no bus present.
    pub fn new(stop_id: u64) -> (stop: Stop)
        ensures
            stop.wf(),
            stop@ == (StopView {
                stop_id,
                queue: Seq::<u64>::empty(),
                waiting: Seq::<(u64, u64)>::empty(),
            }),
    {
        Stop { stop_id, bus_queue: Vec::new(), pax_dests: PaxCounter::new() }
    }

    /// Identifier of the stop; passengers name it as their destination.
    pub fn stop_id(&self) -> (id: u64)
        ensures
            id == self@.stop_id,
    {
        self.stop_id
    }

    /// Identifier of the bus at the head of the queue. An empty queue has no
    /// head.
    pub fn get_head(&self) -> (head: Result<u64, SimError>)
        ensures
            self@.queue.len() > 0 ==> head == Ok::<u64, SimError>(self@.queue[0]),
            self@.queue.len() == 0 ==> head == Err::<u64, SimError>(SimError::EmptyQueue),
    {
        if self.bus_queue.len() == 0 {
            Err(SimError::EmptyQueue)
        } else {
            Ok(self.bus_queue[0])
        }
    }

    /// Number of buses present.
    pub fn queue_length(&self) -> (n: usize)
        ensures
            n == self@.queue.len(),
    {
        self.bus_queue.len()
    }

    /// Number of passengers waiting, whatever their destination.
    pub fn pax_count(&self) -> (n: u64)
        requires
            self.wf(),
        ensures
            n == self@.pax_count(),
    {
        self.pax_dests.total()
    }

    /// Number of passengers waiting for `dest`.
    pub fn waiting_for(&self, dest: u64) -> (n: u64)
        requires
            self.wf(),
        ensures
            n == count_in(self@.waiting, dest),
    {
        self.pax_dests.count(dest)
    }

    /// The tally of waiting passengers.
    pub fn waiting(&self) -> (tally: &PaxCounter)
        requires
            self.wf(),
        ensures
            tally.wf(),
            tally@ == self@.waiting,
    {
        &self.pax_dests
    }

    /// Puts the bus `bus_id` at the end of the queue. Nobody's wait changes.
    pub fn enqueue(&mut self, bus_id: u64)
        ensures
            final(self)@ == old(self)@.joined_by(bus_id),
            old(self).inv() ==> final(self).inv(),
    {
        self.bus_queue.push(bus_id);
    }

    /// Takes the bus at the head of the queue out and returns its
    /// identifier. An empty queue has no head; it stays as it is.
    pub fn dequeue_head(&mut self) -> (head: Result<u64, SimError>)
        ensures
            old(self).inv() ==> final(self).inv(),
            old(self)@.queue.len() > 0 ==> head == Ok::<u64, SimError>(old(self)@.queue[0])
                && final(self)@ == old(self)@.head_gone(),
            old(self)@.queue.len() == 0 ==> head == Err::<u64, SimError>(SimError::EmptyQueue)
                && final(self)@ == old(self)@,
    {
        if self.bus_queue.len() == 0 {
            Err(SimError::EmptyQueue)
        } else {
            let head: u64 = self.bus_queue.remove(0);
            assert(old(self).bus_queue@.remove(0) =~= old(self).bus_queue@.drop_first());
            Ok(head)
        }
    }

    /// Lets `count` more passengers bound for `dest` wait here.
    pub fn add_waiting(&mut self, dest: u64, count: u64)
        requires
            old(self).wf(),
            old(self)@.pax_count() + count <= u64::MAX,
        ensures
            final(self).wf(),
            final(self)@ == (StopView {
                waiting: with_added(old(self)@.waiting, dest, count),
                ..old(self)@
            }),
    {
        self.pax_dests.add(dest, count);
    }

    /// Lets `count` passengers bound for `dest` leave the stop for a bus, if
    /// that many wait; otherwise changes nothing and says so.
    pub(crate) fn release(&mut self, dest: u64, count: u64) -> (done: bool)
        requires
            old(self).wf(),
        ensures
            final(self).wf(),
            done <==> count <= count_in(old(self)@.waiting, dest),
            done ==> final(self)@ == (StopView {
                waiting: with_removed(old(self)@.waiting, dest, count),
                ..old(self)@
            }),
            !done ==> final(self)@ == old(self)@,
    {
        self.pax_dests.remove(dest, count)
    }
}

} // verus!
