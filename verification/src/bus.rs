use crate::boarding::boardable;
use crate::boarding::lemma_boardable;
use crate::boarding::any_served;
use crate::boarding::lemma_boardable_empty;
use crate::boarding::lemma_boardable_tally;
use crate::boarding::lemma_loaded;
use crate::boarding::lemma_prefix;
use crate::boarding::lemma_unloaded;
use crate::boarding::loaded;
use crate::boarding::unloaded;
use crate::counter::count_in;
use crate::counter::is_tally;
use crate::counter::lemma_count_le_total;
use crate::counter::lemma_total_push;
use crate::counter::lemma_with_removed;
use crate::counter::total_of;
use crate::counter::with_removed;
use crate::counter::PaxCounter;
use crate::error::SimError;
use crate::route::Route;
use crate::route::RouteView;
use crate::stop::Stop;
use crate::stop::StopView;
use vstd::prelude::*;

verus! {

/// Whether a bus stands at a stop or is on the road, and for how many more
/// ticks.
#[derive(Clone, Copy, Debug, PartialEq, Eq, Structural)]
pub enum Motion {
    /// Present in the queue of its current stop.
    Stopped,
    /// Travelling towards its next stop.
    Transiting { remaining: u64 },
}

/// Mathematical view of a bus: its identifier, the route it runs on, its
/// position on the route, its motion and the tally of passengers aboard.
pub struct BusView {
    pub bus_id: u64,
    pub route: RouteView,
    pub cur_stop: int,
    pub motion: Motion,
    pub onboard: Seq<(u64, u64)>,
}

impl BusView {
    /// The bus is on a well-formed route at one of its stops, and carries a
    /// tally of passengers that does not exceed the route's capacity.
    pub open spec fn wf(self) -> bool {
        &&& self.route.wf()
        &&& 0 <= self.cur_stop < self.route.stops.len()
        &&& is_tally(self.onboard)
        &&& total_of(self.onboard) <= self.route.capacity
    }

    /// The bus is on the road.
    pub open spec fn in_motion(self) -> bool {
        self.motion is Transiting
    }

    /// Identifier of the stop at the bus's position.
    pub open spec fn stop_id(self) -> u64 {
        self.route.stops[self.cur_stop]
    }

    /// Number of passengers aboard.
    pub open spec fn pax_count(self) -> nat {
        total_of(self.onboard)
    }

    /// Number of free seats.
    pub open spec fn room(self) -> u64 {
        (self.route.capacity - total_of(self.onboard)) as u64
    }

    /// The bus stands at `stop`.
    pub open spec fn at(self, stop: StopView) -> bool {
        !self.in_motion() && stop.stop_id == self.stop_id()
    }

    /// The bus stands at `stop` and is first in its queue.
    pub open spec fn is_head(self, stop: StopView) -> bool {
        self.at(stop) && stop.queue.len() > 0 && stop.queue[0] == self.bus_id
    }

    /// Number of passengers aboard who want off at the bus's position.
    pub open spec fn disembarks(self) -> nat {
        count_in(self.onboard, self.stop_id())
    }

    /// With `offset` more passengers the bus would have no free seat.
    pub open spec fn full(self, offset: u64) -> bool {
        total_of(self.onboard) + offset >= self.route.capacity
    }

    /// The route of the bus calls at `dest`.
    pub open spec fn satisfies(self, dest: u64) -> bool {
        self.route.visits(dest)
    }

    /// The groups that would board from `stop` now.
    pub open spec fn boards(self, stop: StopView) -> Seq<(u64, u64)> {
        boardable(stop.waiting, self.route.stops, self.room())
    }

    /// Nobody aboard wants off here, and either no seat is free or nobody
    /// is left to board.
    pub open spec fn departure_ready(self, stop: StopView) -> bool {
        self.disembarks() == 0 && (self.full(0) || self.boards(stop).len() == 0)
    }

    /// Position that the bus occupies after its next arrival.
    pub open spec fn next_stop(self) -> int {
        self.route.next_index(self.cur_stop)
    }

    /// The bus after everybody bound for its position has got off.
    pub open spec fn disembarked(self) -> BusView {
        BusView {
            onboard: with_removed(self.onboard, self.stop_id(), self.disembarks() as u64),
            ..self
        }
    }

    /// The bus after the groups that board from `stop` have got on.
    pub open spec fn boarded(self, stop: StopView) -> BusView {
        BusView { onboard: loaded(self.onboard, self.boards(stop)), ..self }
    }

    /// The bus after it has pulled in at its next stop.
    pub open spec fn arrived(self) -> BusView {
        BusView { cur_stop: self.next_stop(), motion: Motion::Stopped, ..self }
    }

    /// The bus after it has pulled out towards its next stop.
    pub open spec fn departed(self) -> BusView {
        BusView { motion: Motion::Transiting { remaining: self.route.travel_time }, ..self }
    }

    /// The bus is on the road and reaches its next stop with this tick.
    pub open spec fn due(self) -> bool {
        self.motion matches Motion::Transiting { remaining } && remaining <= 1
    }

    /// The bus after one tick on the road; a bus that is due, or that
    /// stands at a stop, stays as it is.
    pub open spec fn advanced(self) -> BusView {
        match self.motion {
            Motion::Transiting { remaining } if remaining > 1 => BusView {
                motion: Motion::Transiting { remaining: (remaining - 1) as u64 },
                ..self
            },
            _ => self,
        }
    }
}

impl StopView {
    /// The stop after the groups that board `bus` have left it.
    pub open spec fn boarded_by(self, bus: BusView) -> StopView {
        StopView { waiting: unloaded(self.waiting, bus.boards(self)), ..self }
    }
}

/// Boarding keeps bus and stop well formed, moves exactly the boarding
/// groups from the stop to the bus, and never fills the bus beyond capacity.
pub proof fn lemma_boarding(bus: BusView, stop: StopView)
    requires
        bus.wf(),
        stop.wf(),
    ensures
        bus.boarded(stop).wf(),
        stop.boarded_by(bus).wf(),
        bus.boarded(stop).pax_count() == bus.pax_count() + total_of(bus.boards(stop)),
        stop.boarded_by(bus).pax_count() == stop.pax_count() - total_of(bus.boards(stop)),
        forall|d: u64|
            #[trigger] count_in(bus.boarded(stop).onboard, d) == count_in(bus.onboard, d)
                + count_in(bus.boards(stop), d),
        forall|d: u64|
            #[trigger] count_in(stop.boarded_by(bus).waiting, d) == count_in(stop.waiting, d)
                - count_in(bus.boards(stop), d),
{
    let groups = bus.boards(stop);
    lemma_boardable(stop.waiting, bus.route.stops, bus.room());
    lemma_loaded(bus.onboard, groups);
    lemma_unloaded(stop.waiting, groups);
}

/// Getting off keeps the bus well formed, leaves nobody aboard for the
/// bus's position, lowers the passenger count by the number who got off, and
/// touches no other destination.
pub proof fn lemma_disembarking(bus: BusView)
    requires
        bus.wf(),
    ensures
        bus.disembarked().wf(),
        bus.disembarked().disembarks() == 0,
        bus.disembarked().pax_count() == bus.pax_count() - bus.disembarks(),
        forall|d: u64|
            d != bus.stop_id() ==> #[trigger] count_in(bus.disembarked().onboard, d) == count_in(
                bus.onboard,
                d,
            ),
{
    lemma_count_le_total(bus.onboard, bus.stop_id());
    lemma_with_removed(bus.onboard, bus.stop_id(), bus.disembarks() as u64);
}

/// One round of passenger exchange between a bus and the stop it stands at:
/// everybody bound for the stop gets off, then whoever fits gets on.
pub open spec fn exchange_round(bus: BusView, stop: StopView) -> (BusView, StopView) {
    let emptied = bus.disembarked();
    (emptied.boarded(stop), stop.boarded_by(emptied))
}

/// A bound on the rounds of exchange that bus and stop still need: it drops
/// with every round that does not leave the bus ready to depart.
pub open spec fn unsettled(bus: BusView, stop: StopView) -> nat {
    2 * stop.pax_count() + if bus.disembarks() > 0 {
        1nat
    } else {
        0nat
    }
}

/// Bus and stop after at most `rounds` rounds of exchange, stopping as soon
/// as the bus is ready to depart.
pub open spec fn settle_in(bus: BusView, stop: StopView, rounds: nat) -> (BusView, StopView)
    decreases rounds,
{
    if rounds == 0 || bus.departure_ready(stop) {
        (bus, stop)
    } else {
        let next = exchange_round(bus, stop);
        settle_in(next.0, next.1, (rounds - 1) as nat)
    }
}

/// Bus and stop once rounds of exchange have left the bus ready to depart.
pub open spec fn settled(bus: BusView, stop: StopView) -> (BusView, StopView) {
    settle_in(bus, stop, unsettled(bus, stop) + 1)
}

/// A round of exchange on a bus that is not ready to depart keeps bus and
/// stop well formed, moves nothing but passengers, and brings the pair
/// closer to being settled.
pub proof fn lemma_exchange_round(bus: BusView, stop: StopView)
    requires
        bus.wf(),
        stop.wf(),
        !bus.departure_ready(stop),
    ensures
        exchange_round(bus, stop).0.wf(),
        exchange_round(bus, stop).1.wf(),
        unsettled(exchange_round(bus, stop).0, exchange_round(bus, stop).1) < unsettled(bus, stop),
        exchange_round(bus, stop).0 == (BusView {
            onboard: exchange_round(bus, stop).0.onboard,
            ..bus
        }),
        exchange_round(bus, stop).1 == (StopView {
            waiting: exchange_round(bus, stop).1.waiting,
            ..stop
        }),
        exchange_round(bus, stop).0.pax_count() + exchange_round(bus, stop).1.pax_count()
            == bus.pax_count() - bus.disembarks() + stop.pax_count(),
        exchange_round(bus, stop).1.pax_count() <= stop.pax_count(),
{
    let emptied = bus.disembarked();
    let groups = emptied.boards(stop);
    lemma_disembarking(bus);
    lemma_boarding(emptied, stop);
    lemma_boardable(stop.waiting, emptied.route.stops, emptied.room());
    if groups.len() > 0 {
        assert(groups[groups.len() - 1].1 > 0);
        assert(total_of(groups) >= groups.last().1);
    } else {
        assert(bus.disembarks() > 0) by {
            if bus.disembarks() == 0 {
                assert(emptied.onboard == bus.onboard);
                assert(emptied == bus);
            }
        }
    }
}

/// With enough rounds the exchange ends with the bus ready to depart, both
/// bus and stop well formed, nothing moved but passengers, and nobody added
/// to those who wait.
pub proof fn lemma_settle_in(bus: BusView, stop: StopView, rounds: nat)
    requires
        bus.wf(),
        stop.wf(),
        rounds > unsettled(bus, stop),
    ensures
        settle_in(bus, stop, rounds).0.wf(),
        settle_in(bus, stop, rounds).1.wf(),
        settle_in(bus, stop, rounds).0.departure_ready(settle_in(bus, stop, rounds).1),
        settle_in(bus, stop, rounds).0 == (BusView {
            onboard: settle_in(bus, stop, rounds).0.onboard,
            ..bus
        }),
        settle_in(bus, stop, rounds).1 == (StopView {
            waiting: settle_in(bus, stop, rounds).1.waiting,
            ..stop
        }),
        settle_in(bus, stop, rounds).1.pax_count() <= stop.pax_count(),
        settle_in(bus, stop, rounds) == settled(bus, stop),
    decreases rounds,
{
    if !bus.departure_ready(stop) {
        let next = exchange_round(bus, stop);
        lemma_exchange_round(bus, stop);
        lemma_settle_in(next.0, next.1, (rounds - 1) as nat);
        lemma_settle_in(next.0, next.1, unsettled(bus, stop));
    }
}

/// Settling ends with the bus ready to depart, both bus and stop well
/// formed, nothing moved but passengers, and nobody added to those who wait.
pub proof fn lemma_settled(bus: BusView, stop: StopView)
    requires
        bus.wf(),
        stop.wf(),
    ensures
        settled(bus, stop).0.wf(),
        settled(bus, stop).1.wf(),
        settled(bus, stop).0.departure_ready(settled(bus, stop).1),
        settled(bus, stop).0 == (BusView { onboard: settled(bus, stop).0.onboard, ..bus }),
        settled(bus, stop).1 == (StopView { waiting: settled(bus, stop).1.waiting, ..stop }),
        settled(bus, stop).1.pax_count() <= stop.pax_count(),
{
    lemma_settle_in(bus, stop, unsettled(bus, stop) + 1);
}

/// A vehicle that carries passengers round its route.
pub struct Bus {
    bus_id: u64,
    route: Route,
    cur_stop: usize,
    motion: Motion,
    pax_dests: PaxCounter,
}

impl View for Bus {
    type V = BusView;

    closed spec fn view(&self) -> BusView {
        BusView {
            bus_id: self.bus_id,
            route: self.route@,
            cur_stop: self.cur_stop as int,
            motion: self.motion,
            onboard: self.pax_dests@,
        }
    }
}

impl PartialEq for Bus {
    /// Two buses are the same bus when their identifiers agree, whatever
    /// they carry and wherever they are.
    fn eq(&self, other: &Bus) -> (same: bool) {
        self.bus_id == other.bus_id
    }
}

impl vstd::std_specs::cmp::PartialEqSpecImpl for Bus {
    open spec fn obeys_eq_spec() -> bool {
        true
    }

    open spec fn eq_spec(&self, other: &Bus) -> bool {
        self@.bus_id == other@.bus_id
    }
}

impl Bus {
    /// The passenger counter's bookkeeping is consistent.
    pub closed spec fn inv(&self) -> bool {
        self.pax_dests.cached()
    }

    /// The bus's view is well formed and its bookkeeping consistent.
    pub open spec fn wf(&self) -> bool {
        &&& self@.wf()
        &&& self.inv()
    }

    /// An empty bus standing on `route` at the position `bus_id` modulo the
    /// number of stops, so that a fleet numbered from zero starts evenly
    /// spread.
    pub fn new(route: Route, bus_id: u64) -> (bus: Bus)
        requires
            route@.wf(),
        ensures
            bus.wf(),
            bus@ == (BusView {
                bus_id,
                route: route@,
                cur_stop: bus_id as int % route@.stops.len() as int,
                motion: Motion::Stopped,
                onboard: Seq::<(u64, u64)>::empty(),
            }),
    {
        let n: usize = route.stop_count();
        let cur_stop: usize = (bus_id % (n as u64)) as usize;
        Bus { bus_id, route, cur_stop, motion: Motion::Stopped, pax_dests: PaxCounter::new() }
    }

    /// Identifier of the bus.
    pub fn bus_id(&self) -> (id: u64)
        ensures
            id == self@.bus_id,
    {
        self.bus_id
    }

    /// The route that the bus runs on.
    pub fn route(&self) -> (route: &Route)
        ensures
            route@ == self@.route,
    {
        &self.route
    }

    /// Position of the bus on its route.
    pub fn cur_stop(&self) -> (pos: usize)
        ensures
            pos == self@.cur_stop,
    {
        self.cur_stop
    }

    /// Whether the bus stands or travels.
    pub fn motion(&self) -> (motion: Motion)
        ensures
            motion == self@.motion,
    {
        self.motion
    }

    /// Whether the bus is on the road.
    pub fn in_motion(&self) -> (moving: bool)
        ensures
            moving == self@.in_motion(),
    {
        match self.motion {
            Motion::Stopped => false,
            Motion::Transiting { .. } => true,
        }
    }

    /// Identifier of the stop at which the bus stands. A bus on the road is
    /// at no stop.
    pub fn stop(&self) -> (at: Result<u64, SimError>)
        requires
            self.wf(),
        ensures
            !self@.in_motion() ==> at == Ok::<u64, SimError>(self@.stop_id()),
            self@.in_motion() ==> at == Err::<u64, SimError>(SimError::InvalidState),
    {
        if self.in_motion() {
            Err(SimError::InvalidState)
        } else {
            proof {
                vstd::arithmetic::div_mod::lemma_small_mod(
                    self.cur_stop as nat,
                    self.route@.stops.len(),
                );
            }
            Ok(self.route.get_stop(self.cur_stop))
        }
    }

    /// Whether the bus stands at `stop`.
    pub fn is_at(&self, stop: &Stop) -> (there: bool)
        requires
            self.wf(),
        ensures
            there == self@.at(stop@),
    {
        match self.stop() {
            Ok(id) => id == stop.stop_id(),
            Err(_) => false,
        }
    }

    /// Whether the bus stands at `stop` and is first in its queue. A bus
    /// further back in the queue is inert.
    pub fn is_head(&self, stop: &Stop) -> (head: bool)
        requires
            self.wf(),
        ensures
            head == self@.is_head(stop@),
    {
        if !self.is_at(stop) {
            return false;
        }
        match stop.get_head() {
            Ok(id) => id == self.bus_id,
            Err(_) => false,
        }
    }

    /// Position that the bus occupies after its next arrival.
    pub fn next_stop(&self) -> (pos: usize)
        requires
            self.wf(),
        ensures
            pos == self@.next_stop(),
            pos < self@.route.stops.len(),
    {
        self.route.next_index(self.cur_stop)
    }

    /// Number of passengers aboard. It never exceeds the capacity of the
    /// route.
    pub fn pax_count(&self) -> (n: u64)
        requires
            self.wf(),
        ensures
            n == self@.pax_count(),
            n <= self@.route.capacity,
    {
        self.pax_dests.total()
    }

    /// Number of passengers aboard who are bound for `dest`.
    pub fn pax_for(&self, dest: u64) -> (n: u64)
        requires
            self.wf(),
        ensures
            n == count_in(self@.onboard, dest),
    {
        self.pax_dests.count(dest)
    }

    /// Whether the bus would have no free seat with `offset` more passengers
    /// aboard; `full(0)` says whether it has none now.
    pub fn full(&self, offset: u64) -> (is_full: bool)
        requires
            self.wf(),
        ensures
            is_full == self@.full(offset),
    {
        offset >= self.route.capacity() - self.pax_dests.total()
    }

    /// Whether the route of the bus calls at `dest`. A passenger boards
    /// only a bus that does.
    pub fn satisfies(&self, dest: u64) -> (served: bool)
        ensures
            served == self@.satisfies(dest),
            served == self@.route.stops.contains(dest),
    {
        self.route.visits(dest)
    }

    /// Number of passengers aboard who want off at the stop where the bus
    /// stands. A bus on the road is at no stop.
    pub fn disembarks(&self) -> (n: Result<u64, SimError>)
        requires
            self.wf(),
        ensures
            !self@.in_motion() ==> n == Ok::<u64, SimError>(self@.disembarks() as u64),
            !self@.in_motion() ==> self@.disembarks() <= self@.pax_count(),
            self@.in_motion() ==> n == Err::<u64, SimError>(SimError::InvalidState),
    {
        proof {
            lemma_count_le_total(self@.onboard, self@.stop_id());
        }
        match self.stop() {
            Ok(id) => Ok(self.pax_dests.count(id)),
            Err(e) => Err(e),
        }
    }

    /// The groups, as (destination, count), that would board from `stop`
    /// now: passengers bound for stops that the route serves, in the order of
    /// the stop's tally, as many as there are free seats. The bus must
    /// stand at `stop`.
    pub fn boards(&self, stop: &Stop) -> (groups: Result<Vec<(u64, u64)>, SimError>)
        requires
            self.wf(),
            stop.wf(),
        ensures
            groups is Ok <==> self@.at(stop@),
            groups matches Ok(list) ==> list@ == self@.boards(stop@),
            groups matches Ok(list) ==> forall|k: int|
                0 <= k < list@.len() ==> self@.satisfies((#[trigger] list@[k]).0),
            groups matches Ok(list) ==> is_tally(list@) && self@.pax_count() + total_of(list@)
                <= self@.route.capacity,
            groups matches Ok(list) ==> (list@.len() == 0 <==> self@.full(0) || !any_served(
                stop@.waiting,
                self@.route.stops,
            )),
            groups matches Err(e) ==> e == SimError::InvalidState,
    {
        if !self.is_at(stop) {
            return Err(SimError::InvalidState);
        }
        let waiting = stop.waiting();
        let room: u64 = self.route.capacity() - self.pax_dests.total();
        let mut list: Vec<(u64, u64)> = Vec::new();
        let mut taken: u64 = 0;
        let mut i: usize = 0;
        while i < waiting.len()
            invariant
                i <= waiting@.len(),
                list@ == boardable(waiting@.take(i as int), self@.route.stops, room),
                taken == total_of(list@),
                taken <= room,
            decreases waiting@.len() - i,
        {
            let group = waiting.group(i);
            proof {
                assert(waiting@.take(i + 1).drop_last() =~= waiting@.take(i as int));
                assert(waiting@.take(i + 1).last() == group);
            }
            if self.route.visits(group.0) && group.1 > 0 && room - taken > 0 {
                let left: u64 = room - taken;
                let count: u64 = if group.1 <= left {
                    group.1
                } else {
                    left
                };
                proof {
                    lemma_total_push(list@, (group.0, count));
                }
                list.push((group.0, count));
                taken = taken + count;
            }
            i += 1;
        }
        proof {
            assert(waiting@.take(i as int) =~= waiting@);
            lemma_boardable(stop@.waiting, self@.route.stops, room);
            lemma_boardable_empty(stop@.waiting, self@.route.stops, room);
            lemma_boardable_tally(stop@.waiting, self@.route.stops, room);
        }
        Ok(list)
    }

    /// Takes the groups of `boards` from `stop` onto the bus. A bus that is
    /// not the head of the stop's queue is inert: nothing changes. The
    /// passenger count never exceeds the capacity, not even between two
    /// groups. The bus must stand at `stop`.
    pub fn board(&mut self, stop: &mut Stop) -> (outcome: Result<(), SimError>)
        requires
            old(self).wf(),
            old(stop).wf(),
        ensures
            final(self).wf(),
            final(stop).wf(),
            outcome is Ok <==> old(self)@.at(old(stop)@),
            outcome is Err ==> outcome == Err::<(), SimError>(SimError::InvalidState),
            old(self)@.is_head(old(stop)@) ==> final(self)@ == old(self)@.boarded(old(stop)@)
                && final(stop)@ == old(stop)@.boarded_by(old(self)@),
            old(self)@.is_head(old(stop)@) ==> final(self)@.pax_count() == old(self)@.pax_count()
                + total_of(old(self)@.boards(old(stop)@)),
            old(self)@.is_head(old(stop)@) ==> final(stop)@.pax_count() == old(stop)@.pax_count()
                - total_of(old(self)@.boards(old(stop)@)),
            !old(self)@.is_head(old(stop)@) ==> final(self)@ == old(self)@,
            !old(self)@.is_head(old(stop)@) ==> final(stop)@ == old(stop)@,
            final(self)@.pax_count() <= final(self)@.route.capacity,
    {
        if !self.is_at(stop) {
            return Err(SimError::InvalidState);
        }
        if !self.is_head(stop) {
            return Ok(());
        }
        let groups = match self.boards(stop) {
            Ok(list) => list,
            Err(e) => {
                return Err(e);
            },
        };
        let capacity: u64 = self.route.capacity();
        let ghost bus0 = self@;
        let ghost stop0 = stop@;
        proof {
            lemma_boardable(stop0.waiting, bus0.route.stops, bus0.room());
        }
        let mut i: usize = 0;
        while i < groups.len()
            invariant
                i <= groups@.len(),
                bus0.wf(),
                stop0.wf(),
                groups@ == bus0.boards(stop0),
                capacity == bus0.route.capacity,
                total_of(bus0.onboard) + total_of(groups@) <= capacity,
                forall|d: u64| #[trigger] count_in(groups@, d) <= count_in(stop0.waiting, d),
                self.wf(),
                stop.wf(),
                self@ == (BusView {
                    onboard: loaded(bus0.onboard, groups@.take(i as int)),
                    ..bus0
                }),
                stop@ == (StopView {
                    waiting: unloaded(stop0.waiting, groups@.take(i as int)),
                    ..stop0
                }),
            decreases groups@.len() - i,
        {
            let group = groups[i];
            proof {
                let sofar = groups@.take(i as int);
                let next = groups@.take(i + 1);
                assert(next.drop_last() =~= sofar);
                assert(next.last() == group);
                lemma_prefix(groups@, i + 1, group.0);
                assert forall|d: u64| count_in(sofar, d) <= count_in(stop0.waiting, d) by {
                    lemma_prefix(groups@, i as int, d);
                    assert(count_in(groups@, d) <= count_in(stop0.waiting, d));
                }
                assert(count_in(groups@, group.0) <= count_in(stop0.waiting, group.0));
                lemma_unloaded(stop0.waiting, sofar);
                assert(count_in(unloaded(stop0.waiting, sofar), group.0) == count_in(
                    stop0.waiting,
                    group.0,
                ) - count_in(sofar, group.0));
                lemma_loaded(bus0.onboard, sofar);
                lemma_loaded(bus0.onboard, next);
            }
            let _released: bool = stop.release(group.0, group.1);
            match self.pax_dests.add_within(group.0, group.1, capacity) {
                Ok(()) => {},
                Err(e) => {
                    return Err(e);
                },
            }
            i += 1;
        }
        proof {
            assert(groups@.take(i as int) =~= groups@);
            lemma_boarding(bus0, stop0);
        }
        Ok(())
    }

    /// Lets everybody off who is bound for the stop where the bus stands;
    /// the passenger count drops by `disembarks`. Those who got off do not
    /// join the passengers waiting at the stop. A bus that is not the head of
    /// the stop's queue is inert: nothing changes. The bus must stand at
    /// `stop`.
    pub fn disembark(&mut self, stop: &Stop) -> (outcome: Result<(), SimError>)
        requires
            old(self).wf(),
        ensures
            final(self).wf(),
            outcome is Ok <==> old(self)@.at(stop@),
            outcome is Err ==> outcome == Err::<(), SimError>(SimError::InvalidState),
            old(self)@.is_head(stop@) ==> final(self)@ == old(self)@.disembarked(),
            old(self)@.is_head(stop@) ==> final(self)@.disembarks() == 0,
            old(self)@.is_head(stop@) ==> final(self)@.pax_count() == old(self)@.pax_count()
                - old(self)@.disembarks(),
            !old(self)@.is_head(stop@) ==> final(self)@ == old(self)@,
    {
        if !self.is_at(stop) {
            return Err(SimError::InvalidState);
        }
        if !self.is_head(stop) {
            return Ok(());
        }
        proof {
            lemma_disembarking(self@);
        }
        let _off: u64 = self.pax_dests.remove_all(stop.stop_id());
        Ok(())
    }

    /// Whether the bus may leave `stop`: nobody aboard wants off here, and
    /// either no seat is free or nobody is left to board. The bus must stand
    /// at `stop`.
    pub fn departure_ready(&self, stop: &Stop) -> (ready: Result<bool, SimError>)
        requires
            self.wf(),
            stop.wf(),
        ensures
            self@.at(stop@) ==> ready == Ok::<bool, SimError>(self@.departure_ready(stop@)),
            !self@.at(stop@) ==> ready == Err::<bool, SimError>(SimError::InvalidState),
    {
        let groups = match self.boards(stop) {
            Ok(list) => list,
            Err(e) => {
                return Err(e);
            },
        };
        let off: u64 = self.pax_dests.count(stop.stop_id());
        Ok(off == 0 && (self.full(0) || groups.len() == 0))
    }

    /// Exchanges passengers with `stop` until the bus is ready to depart:
    /// round after round, everybody bound for the stop gets off and whoever
    /// fits gets on. Only the head of the stop's queue exchanges passengers;
    /// for any other bus nothing changes.
    pub fn settle(&mut self, stop: &mut Stop) -> (outcome: Result<(), SimError>)
        requires
            old(self).wf(),
            old(stop).wf(),
        ensures
            final(self).wf(),
            final(stop).wf(),
            outcome is Ok <==> old(self)@.is_head(old(stop)@),
            outcome is Ok ==> (final(self)@, final(stop)@) == settled(old(self)@, old(stop)@),
            outcome is Ok ==> final(self)@.is_head(final(stop)@) && final(self)@.departure_ready(
                final(stop)@,
            ),
            outcome is Err ==> outcome == Err::<(), SimError>(SimError::InvalidState),
            outcome is Err ==> final(self)@ == old(self)@ && final(stop)@ == old(stop)@,
    {
        if !self.is_head(stop) {
            return Err(SimError::InvalidState);
        }
        let ghost bus0 = self@;
        let ghost stop0 = stop@;
        let ghost mut rounds: nat = unsettled(bus0, stop0) + 1;
        let mut ready: bool = match self.departure_ready(stop) {
            Ok(r) => r,
            Err(e) => {
                return Err(e);
            },
        };
        while !ready
            invariant
                self.wf(),
                stop.wf(),
                self@.is_head(stop@),
                ready == self@.departure_ready(stop@),
                rounds > unsettled(self@, stop@),
                settle_in(self@, stop@, rounds) == settled(bus0, stop0),
            decreases rounds,
        {
            proof {
                lemma_exchange_round(self@, stop@);
                rounds = (rounds - 1) as nat;
            }
            match self.disembark(stop) {
                Ok(()) => {},
                Err(e) => {
                    return Err(e);
                },
            }
            match self.board(stop) {
                Ok(()) => {},
                Err(e) => {
                    return Err(e);
                },
            }
            ready =
            match self.departure_ready(stop) {
                Ok(r) => r,
                Err(e) => {
                    return Err(e);
                },
            };
        }
        Ok(())
    }

    /// Lets one tick pass for a bus on the road and says whether it reaches
    /// its next stop with this tick. A bus that is due, or that stands at a
    /// stop, stays as it is.
    pub fn tick(&mut self) -> (due: bool)
        ensures
            due == old(self)@.due(),
            final(self)@ == old(self)@.advanced(),
            old(self).inv() ==> final(self).inv(),
    {
        match self.motion {
            Motion::Stopped => false,
            Motion::Transiting { remaining } => {
                if remaining <= 1 {
                    true
                } else {
                    self.motion = Motion::Transiting { remaining: remaining - 1 };
                    false
                }
            },
        }
    }

    /// Whether the bus is on the road and reaches its next stop with this
    /// tick.
    pub fn is_due(&self) -> (due: bool)
        ensures
            due == self@.due(),
    {
        match self.motion {
            Motion::Stopped => false,
            Motion::Transiting { remaining } => remaining <= 1,
        }
    }

    /// Pulls in at `stop`, which must be the next stop of a bus that is due:
    /// the bus stands at its next position and joins the end of the stop's
    /// queue. Otherwise nothing changes.
    pub fn arrive(&mut self, stop: &mut Stop) -> (outcome: Result<(), SimError>)
        requires
            old(self).wf(),
        ensures
            final(self).wf(),
            old(stop).inv() ==> final(stop).inv(),
            outcome is Ok <==> old(self)@.due() && old(stop)@.stop_id
                == old(self)@.route.stops[old(self)@.next_stop()],
            outcome is Ok ==> final(self)@ == old(self)@.arrived(),
            outcome is Ok ==> final(stop)@ == old(stop)@.joined_by(old(self)@.bus_id),
            outcome is Err ==> outcome == Err::<(), SimError>(SimError::InvalidState),
            outcome is Err ==> final(self)@ == old(self)@ && final(stop)@ == old(stop)@,
    {
        let next: usize = self.next_stop();
        proof {
            vstd::arithmetic::div_mod::lemma_small_mod(next as nat, self.route@.stops.len());
        }
        if !self.is_due() || self.route.get_stop(next) != stop.stop_id() {
            return Err(SimError::InvalidState);
        }
        self.cur_stop = next;
        self.motion = Motion::Stopped;
        stop.enqueue(self.bus_id);
        Ok(())
    }

    /// Pulls out of `stop` towards the next stop. Only the head of the
    /// stop's queue may leave, and only when it is ready to depart: the bus
    /// leaves the queue and is on the road for the route's travel time.
    /// Otherwise nothing changes.
    pub fn depart(&mut self, stop: &mut Stop) -> (outcome: Result<(), SimError>)
        requires
            old(self).wf(),
            old(stop).wf(),
        ensures
            final(self).wf(),
            final(stop).wf(),
            outcome is Ok <==> old(self)@.is_head(old(stop)@) && old(self)@.departure_ready(
                old(stop)@,
            ),
            outcome is Ok ==> final(self)@ == old(self)@.departed(),
            outcome is Ok ==> final(stop)@ == old(stop)@.head_gone(),
            outcome is Err ==> outcome == Err::<(), SimError>(SimError::InvalidState),
            outcome is Err ==> final(self)@ == old(self)@ && final(stop)@ == old(stop)@,
    {
        if !self.is_head(stop) {
            return Err(SimError::InvalidState);
        }
        match self.departure_ready(stop) {
            Ok(true) => {},
            _ => {
                return Err(SimError::InvalidState);
            },
        }
        let _head = stop.dequeue_head();
        self.motion = Motion::Transiting { remaining: self.route.travel_time() };
        Ok(())
    }
}

} // verus!
