use crate::bus::lemma_settled;
use crate::bus::settled;
use crate::bus::Bus;
use crate::bus::BusView;
use crate::bus::Motion;
use crate::counter::lemma_with_added;
use crate::counter::with_added;
use crate::route::Route;
use crate::route::RouteView;
use crate::stop::Stop;
use crate::stop::StopView;
use vstd::prelude::*;

verus! {

/// Mathematical view of a simulation: one route, its stops in route order
/// and its fleet in the order of the buses' identifiers.
pub struct SimView {
    pub route: RouteView,
    pub stops: Seq<StopView>,
    pub buses: Seq<BusView>,
}

/// The buses numbered below `fleet` that start at position `pos` of a route
/// with `n` stops, in ascending order.
pub open spec fn lineup(n: int, pos: int, fleet: nat) -> Seq<u64>
    decreases fleet,
{
    if fleet == 0 {
        Seq::empty()
    } else {
        let rest = lineup(n, pos, (fleet - 1) as nat);
        if (fleet - 1) % n == pos {
            rest.push((fleet - 1) as u64)
        } else {
            rest
        }
    }
}

impl SimView {
    /// The bus queued at place `q` of stop `s` belongs to the fleet and
    /// stands at that stop.
    pub open spec fn queued_ok(self, s: int, q: int) -> bool {
        let id = self.stops[s].queue[q];
        &&& id < self.buses.len()
        &&& !self.buses[id as int].in_motion()
        &&& self.buses[id as int].cur_stop == s
    }

    /// The stops are those of the route, the fleet is numbered from zero
    /// and runs on the route, and the queues hold exactly the buses that
    /// stand: each in the queue of its own stop, once.
    pub open spec fn wf(self) -> bool {
        &&& self.route.wf()
        &&& self.stops.len() == self.route.stops.len()
        &&& forall|s: int|
            0 <= s < self.stops.len() ==> (#[trigger] self.stops[s]).stop_id == self.route.stops[s]
                && self.stops[s].wf()
        &&& self.buses.len() == self.route.bus_count
        &&& forall|b: int|
            0 <= b < self.buses.len() ==> (#[trigger] self.buses[b]).bus_id == b
                && self.buses[b].route == self.route && self.buses[b].wf()
        &&& forall|s: int, q: int|
            0 <= s < self.stops.len() && 0 <= q < self.stops[s].queue.len()
                ==> #[trigger] self.queued_ok(s, q)
        &&& forall|s: int|
            0 <= s < self.stops.len() ==> (#[trigger] self.stops[s]).queue.no_duplicates()
        &&& forall|b: int|
            0 <= b < self.buses.len() && !(#[trigger] self.buses[b]).in_motion()
                ==> self.stops[self.buses[b].cur_stop].queue.contains(b as u64)
    }

    /// The simulation at its start: nobody waits, and every bus stands
    /// empty at the position given by its number modulo the number of stops.
    pub open spec fn initial(route: RouteView) -> SimView {
        SimView {
            route,
            stops: Seq::new(
                route.stops.len(),
                |s: int|
                    StopView {
                        stop_id: route.stops[s],
                        queue: lineup(route.stops.len() as int, s, route.bus_count as nat),
                        waiting: Seq::empty(),
                    },
            ),
            buses: Seq::new(
                route.bus_count as nat,
                |b: int|
                    BusView {
                        bus_id: b as u64,
                        route,
                        cur_stop: b % (route.stops.len() as int),
                        motion: Motion::Stopped,
                        onboard: Seq::empty(),
                    },
            ),
        }
    }

    /// The route calls at the stop `stop_id`, and that stop can count
    /// `count` more passengers.
    pub open spec fn takes_waiting(self, stop_id: u64, count: u64) -> bool {
        &&& self.route.visits(stop_id)
        &&& self.stops[self.route.position_of(stop_id)].pax_count() + count <= u64::MAX
    }

    /// The simulation once `count` more passengers bound for `dest` wait at
    /// the stop `stop_id`.
    pub open spec fn with_waiting(self, stop_id: u64, dest: u64, count: u64) -> SimView {
        let pos = self.route.position_of(stop_id);
        let stop = self.stops[pos];
        SimView {
            stops: self.stops.update(
                pos,
                StopView { waiting: with_added(stop.waiting, dest, count), ..stop },
            ),
            ..self
        }
    }

    /// Bus `b` pulls in at its next stop.
    pub open spec fn arrive_bus(self, b: int) -> SimView {
        let bus = self.buses[b];
        let s = bus.next_stop();
        SimView {
            stops: self.stops.update(s, self.stops[s].joined_by(bus.bus_id)),
            buses: self.buses.update(b, bus.arrived()),
            ..self
        }
    }

    /// One tick passes for bus `b`: a bus that is due pulls in at its next
    /// stop, any other bus on the road comes one tick closer, a standing bus
    /// stays.
    pub open spec fn move_bus(self, b: int) -> SimView {
        if self.buses[b].due() {
            self.arrive_bus(b)
        } else {
            SimView { buses: self.buses.update(b, self.buses[b].advanced()), ..self }
        }
    }

    /// One tick passes for the buses numbered below `n`, in ascending order.
    pub open spec fn move_fleet(self, n: nat) -> SimView
        decreases n,
    {
        if n == 0 {
            self
        } else {
            self.move_fleet((n - 1) as nat).move_bus(n - 1)
        }
    }

    /// Stop `s` serves the bus at the head of its queue, if there is one: the
    /// bus exchanges passengers until it is ready and then departs.
    pub open spec fn serve_stop(self, s: int) -> SimView {
        let stop = self.stops[s];
        if stop.queue.len() == 0 {
            self
        } else {
            let b = stop.queue[0] as int;
            let done = settled(self.buses[b], stop);
            SimView {
                stops: self.stops.update(s, done.1.head_gone()),
                buses: self.buses.update(b, done.0.departed()),
                ..self
            }
        }
    }

    /// The stops at positions below `n` serve their head buses, in ascending
    /// order.
    pub open spec fn serve_stops(self, n: nat) -> SimView
        decreases n,
    {
        if n == 0 {
            self
        } else {
            self.serve_stops((n - 1) as nat).serve_stop(n - 1)
        }
    }

    /// The simulation one tick later: first the buses on the road move and
    /// those that are due arrive, then every stop with a bus serves the head
    /// of its queue and sends it off.
    pub open spec fn stepped(self) -> SimView {
        self.move_fleet(self.buses.len()).serve_stops(self.stops.len())
    }

    /// The simulation `n` ticks later.
    pub open spec fn ran(self, n: nat) -> SimView
        decreases n,
    {
        if n == 0 {
            self
        } else {
            self.ran((n - 1) as nat).stepped()
        }
    }
}

/// The buses queued at a position at the start are those numbered below the
/// fleet size whose number, modulo the number of stops, is that position;
/// none is queued twice.
pub proof fn lemma_lineup(n: int, pos: int, fleet: nat)
    requires
        n > 0,
        fleet <= u64::MAX,
    ensures
        lineup(n, pos, fleet).no_duplicates(),
        forall|q: int|
            0 <= q < lineup(n, pos, fleet).len() ==> (#[trigger] lineup(n, pos, fleet)[q]) < fleet
                && lineup(n, pos, fleet)[q] as int % n == pos,
        forall|b: u64|
            b < fleet && b as int % n == pos ==> #[trigger] lineup(n, pos, fleet).contains(b),
    decreases fleet,
{
    if fleet > 0 {
        let rest = lineup(n, pos, (fleet - 1) as nat);
        let all = lineup(n, pos, fleet);
        lemma_lineup(n, pos, (fleet - 1) as nat);
        assert forall|b: u64|
            b < fleet && b as int % n == pos
        implies
            #[trigger] all.contains(b)
        by {
            if b < fleet - 1 {
                assert(rest.contains(b));
                let q = choose|q: int| 0 <= q < rest.len() && rest[q] == b;
                assert(all[q] == b);
            } else {
                assert(all[all.len() - 1] == b);
            }
        }
    }
}

/// The simulation at its start is well formed.
pub proof fn lemma_initial_wf(route: RouteView)
    requires
        route.wf(),
    ensures
        SimView::initial(route).wf(),
{
    let sim = SimView::initial(route);
    let n = route.stops.len() as int;
    assert forall|b: int|
        0 <= b < sim.buses.len()
    implies
        (#[trigger] sim.buses[b]).bus_id == b
            && sim.buses[b].route == sim.route
            && sim.buses[b].wf()
    by {
        vstd::arithmetic::div_mod::lemma_mod_bound(b, n);
    }
    assert forall|s: int, q: int|
        0 <= s < sim.stops.len() && 0 <= q < sim.stops[s].queue.len()
    implies
        #[trigger] sim.queued_ok(s, q)
    by {
        lemma_lineup(n, s, route.bus_count as nat);
    }
    assert forall|s: int|
        0 <= s < sim.stops.len()
    implies
        (#[trigger] sim.stops[s]).queue.no_duplicates()
    by {
        lemma_lineup(n, s, route.bus_count as nat);
    }
    assert forall|b: int|
        0 <= b < sim.buses.len() && !(#[trigger] sim.buses[b]).in_motion()
    implies
        sim.stops[sim.buses[b].cur_stop].queue.contains(b as u64)
    by {
        vstd::arithmetic::div_mod::lemma_mod_bound(b, n);
        lemma_lineup(n, b % n, route.bus_count as nat);
        assert(lineup(n, b % n, route.bus_count as nat).contains(b as u64));
    }
}

/// Letting more passengers wait at a stop keeps the simulation well formed.
pub proof fn lemma_with_waiting_wf(sim: SimView, stop_id: u64, dest: u64, count: u64)
    requires
        sim.wf(),
        sim.takes_waiting(stop_id, count),
    ensures
        sim.with_waiting(stop_id, dest, count).wf(),
{
    let after = sim.with_waiting(stop_id, dest, count);
    let pos = sim.route.position_of(stop_id);
    assert(sim.stops[pos].wf());
    lemma_with_added(sim.stops[pos].waiting, dest, count);
    assert forall|s: int, q: int|
        0 <= s < after.stops.len() && 0 <= q < after.stops[s].queue.len()
    implies
        #[trigger] after.queued_ok(s, q)
    by {
        assert(sim.queued_ok(s, q));
    }
    assert forall|s: int|
        0 <= s < after.stops.len()
    implies
        (#[trigger] after.stops[s]).queue.no_duplicates()
    by {
        assert(sim.stops[s].queue.no_duplicates());
    }
    assert forall|s: int|
        0 <= s < after.stops.len()
    implies
        (#[trigger] after.stops[s]).stop_id == after.route.stops[s] && after.stops[s].wf()
    by {
        assert(sim.stops[s].stop_id == sim.route.stops[s]);
    }
    assert forall|b: int|
        0 <= b < after.buses.len() && !(#[trigger] after.buses[b]).in_motion()
    implies
        after.stops[after.buses[b].cur_stop].queue.contains(b as u64)
    by {
        assert(sim.buses[b].wf());
    }
}

/// A tick on the road for one bus keeps the simulation well formed.
pub proof fn lemma_move_bus_wf(sim: SimView, b: int)
    requires
        sim.wf(),
        0 <= b < sim.buses.len(),
    ensures
        sim.move_bus(b).wf(),
        sim.move_bus(b).route == sim.route,
        sim.move_bus(b).buses.len() == sim.buses.len(),
        sim.move_bus(b).stops.len() == sim.stops.len(),
{
    let after = sim.move_bus(b);
    let bus = sim.buses[b];
    if bus.due() {
        let s = bus.next_stop();
        vstd::arithmetic::div_mod::lemma_mod_bound(bus.cur_stop + 1, sim.stops.len() as int);
        // A bus on the road is in no queue.
        assert forall|t: int, q: int|
            0 <= t < sim.stops.len() && 0 <= q < sim.stops[t].queue.len()
        implies
            (#[trigger] sim.stops[t].queue[q]) != b as u64
        by {
            assert(sim.queued_ok(t, q));
        }
        assert forall|t: int, q: int|
            0 <= t < after.stops.len() && 0 <= q < after.stops[t].queue.len()
        implies
            #[trigger] after.queued_ok(t, q)
        by {
            if t == s && q == sim.stops[s].queue.len() {
            } else {
                assert(sim.queued_ok(t, q));
                assert(sim.stops[t].queue[q] != b as u64);
            }
        }
        assert forall|t: int|
            0 <= t < after.stops.len()
        implies
            (#[trigger] after.stops[t]).queue.no_duplicates()
        by {
            assert(sim.stops[t].queue.no_duplicates());
            if t == s {
                let old_queue = sim.stops[s].queue;
                let new_queue = after.stops[s].queue;
                assert forall|i: int, j: int|
                    0 <= i < new_queue.len() && 0 <= j < new_queue.len() && i != j
                implies
                    new_queue[i] != new_queue[j]
                by {
                    if i < old_queue.len() {
                        assert(sim.stops[s].queue[i] != b as u64);
                    }
                    if j < old_queue.len() {
                        assert(sim.stops[s].queue[j] != b as u64);
                    }
                }
            }
        }
        assert forall|c: int|
            0 <= c < after.buses.len() && !(#[trigger] after.buses[c]).in_motion()
        implies
            after.stops[after.buses[c].cur_stop].queue.contains(c as u64)
        by {
            if c == b {
                let new_queue = after.stops[s].queue;
                assert(new_queue[new_queue.len() - 1] == b as u64);
            } else {
                assert(!sim.buses[c].in_motion());
                let t = sim.buses[c].cur_stop;
                let q = choose|q: int|
                    0 <= q < sim.stops[t].queue.len() && sim.stops[t].queue[q] == c as u64;
                assert(after.stops[t].queue[q] == c as u64);
            }
        }
        assert forall|t: int|
            0 <= t < after.stops.len()
        implies
            (#[trigger] after.stops[t]).stop_id == after.route.stops[t] && after.stops[t].wf()
        by {
            assert(sim.stops[t].stop_id == sim.route.stops[t]);
        }
    } else {
        assert forall|t: int, q: int|
            0 <= t < after.stops.len() && 0 <= q < after.stops[t].queue.len()
        implies
            #[trigger] after.queued_ok(t, q)
        by {
            assert(sim.queued_ok(t, q));
        }
        assert forall|c: int|
            0 <= c < after.buses.len() && !(#[trigger] after.buses[c]).in_motion()
        implies
            after.stops[after.buses[c].cur_stop].queue.contains(c as u64)
        by {
            assert(!sim.buses[c].in_motion());
        }
    }
}

/// A tick on the road for the buses numbered below `n` keeps the simulation
/// well formed.
pub proof fn lemma_move_fleet_wf(sim: SimView, n: nat)
    requires
        sim.wf(),
        n <= sim.buses.len(),
    ensures
        sim.move_fleet(n).wf(),
        sim.move_fleet(n).route == sim.route,
        sim.move_fleet(n).buses.len() == sim.buses.len(),
        sim.move_fleet(n).stops.len() == sim.stops.len(),
    decreases n,
{
    if n > 0 {
        lemma_move_fleet_wf(sim, (n - 1) as nat);
        lemma_move_bus_wf(sim.move_fleet((n - 1) as nat), n - 1);
    }
}

/// Serving the head bus of one stop keeps the simulation well formed.
pub proof fn lemma_serve_stop_wf(sim: SimView, s: int)
    requires
        sim.wf(),
        0 <= s < sim.stops.len(),
    ensures
        sim.serve_stop(s).wf(),
        sim.serve_stop(s).route == sim.route,
        sim.serve_stop(s).buses.len() == sim.buses.len(),
        sim.serve_stop(s).stops.len() == sim.stops.len(),
{
    let after = sim.serve_stop(s);
    let stop = sim.stops[s];
    if stop.queue.len() > 0 {
        let b = stop.queue[0] as int;
        assert(sim.queued_ok(s, 0));
        let bus = sim.buses[b];
        lemma_settled(bus, stop);
        let done = settled(bus, stop);
        assert forall|t: int|
            0 <= t < after.stops.len()
        implies
            (#[trigger] after.stops[t]).stop_id == after.route.stops[t] && after.stops[t].wf()
        by {
            assert(sim.stops[t].stop_id == sim.route.stops[t]);
        }
        assert forall|c: int|
            0 <= c < after.buses.len()
        implies
            (#[trigger] after.buses[c]).bus_id == c
                && after.buses[c].route == after.route
                && after.buses[c].wf()
        by {
            assert(sim.buses[c].bus_id == c);
        }
        assert forall|t: int, q: int|
            0 <= t < after.stops.len() && 0 <= q < after.stops[t].queue.len()
        implies
            #[trigger] after.queued_ok(t, q)
        by {
            if t == s {
                assert(sim.queued_ok(s, q + 1));
                assert(stop.queue.no_duplicates());
                assert(stop.queue[q + 1] != stop.queue[0]);
            } else {
                assert(sim.queued_ok(t, q));
            }
        }
        assert forall|t: int|
            0 <= t < after.stops.len()
        implies
            (#[trigger] after.stops[t]).queue.no_duplicates()
        by {
            assert(sim.stops[t].queue.no_duplicates());
        }
        assert forall|c: int|
            0 <= c < after.buses.len() && !(#[trigger] after.buses[c]).in_motion()
        implies
            after.stops[after.buses[c].cur_stop].queue.contains(c as u64)
        by {
            assert(c != b);
            assert(!sim.buses[c].in_motion());
            let t = sim.buses[c].cur_stop;
            let q = choose|q: int|
                0 <= q < sim.stops[t].queue.len() && sim.stops[t].queue[q] == c as u64;
            if t == s {
                assert(q != 0);
                assert(after.stops[s].queue[q - 1] == c as u64);
            } else {
                assert(after.stops[t].queue[q] == c as u64);
            }
        }
    }
}

/// Serving the head buses of the stops at positions below `n` keeps the
/// simulation well formed.
pub proof fn lemma_serve_stops_wf(sim: SimView, n: nat)
    requires
        sim.wf(),
        n <= sim.stops.len(),
    ensures
        sim.serve_stops(n).wf(),
        sim.serve_stops(n).route == sim.route,
        sim.serve_stops(n).buses.len() == sim.buses.len(),
        sim.serve_stops(n).stops.len() == sim.stops.len(),
    decreases n,
{
    if n > 0 {
        lemma_serve_stops_wf(sim, (n - 1) as nat);
        lemma_serve_stop_wf(sim.serve_stops((n - 1) as nat), n - 1);
    }
}

/// A tick keeps the simulation well formed; in particular no bus ever
/// carries more passengers than the capacity of its route.
pub proof fn lemma_stepped_wf(sim: SimView)
    requires
        sim.wf(),
    ensures
        sim.stepped().wf(),
        sim.stepped().route == sim.route,
        sim.stepped().buses.len() == sim.buses.len(),
        sim.stepped().stops.len() == sim.stops.len(),
        forall|b: int|
            0 <= b < sim.buses.len() ==> (#[trigger] sim.stepped().buses[b]).pax_count()
                <= sim.route.capacity,
{
    lemma_move_fleet_wf(sim, sim.buses.len());
    lemma_serve_stops_wf(sim.move_fleet(sim.buses.len()), sim.stops.len());
}

/// Any number of ticks keeps the simulation well formed; in particular no
/// bus ever carries more passengers than the capacity of its route.
pub proof fn lemma_ran_wf(sim: SimView, n: nat)
    requires
        sim.wf(),
    ensures
        sim.ran(n).wf(),
        sim.ran(n).route == sim.route,
        sim.ran(n).buses.len() == sim.buses.len(),
        sim.ran(n).stops.len() == sim.stops.len(),
        forall|b: int|
            0 <= b < sim.buses.len() ==> (#[trigger] sim.ran(n).buses[b]).pax_count()
                <= sim.route.capacity,
    decreases n,
{
    if n > 0 {
        lemma_ran_wf(sim, (n - 1) as nat);
        lemma_stepped_wf(sim.ran((n - 1) as nat));
    }
}

/// The views of a list of stops, in order.
pub open spec fn stop_views(stops: Seq<Stop>) -> Seq<StopView> {
    Seq::new(stops.len(), |i: int| stops[i]@)
}

/// The views of a list of buses, in order.
pub open spec fn bus_views(buses: Seq<Bus>) -> Seq<BusView> {
    Seq::new(buses.len(), |i: int| buses[i]@)
}

/// One route with its stops and its fleet, advanced tick by tick.
pub struct Simulation {
    route: Route,
    stops: Vec<Stop>,
    buses: Vec<Bus>,
}

impl View for Simulation {
    type V = SimView;

    closed spec fn view(&self) -> SimView {
        SimView {
            route: self.route@,
            stops: stop_views(self.stops@),
            buses: bus_views(self.buses@),
        }
    }
}

impl Simulation {
    /// The bookkeeping of every stop and every bus is consistent.
    pub closed spec fn inv(&self) -> bool {
        &&& forall|s: int| 0 <= s < self.stops@.len() ==> (#[trigger] self.stops@[s]).inv()
        &&& forall|b: int| 0 <= b < self.buses@.len() ==> (#[trigger] self.buses@[b]).inv()
    }

    /// The simulation's view is well formed and its bookkeeping consistent.
    pub open spec fn wf(&self) -> bool {
        &&& self@.wf()
        &&& self.inv()
    }

    /// Sets the route up for simulation: a stop for each of its stop
    /// identifiers with nobody waiting, and its fleet of empty buses,
    /// numbered from zero, each queued at the position given by its number
    /// modulo the number of stops.
    pub fn new(route: Route) -> (sim: Simulation)
        requires
            route@.wf(),
        ensures
            sim.wf(),
            sim@ == SimView::initial(route@),
    {
        let n: usize = route.stop_count();
        let mut stops: Vec<Stop> = Vec::new();
        let mut s: usize = 0;
        while s < n
            invariant
                route@.wf(),
                n == route@.stops.len(),
                s <= n,
                stops@.len() == s,
                forall|i: int|
                    0 <= i < s ==> (#[trigger] stops@[i]).wf() && stops@[i]@ == (StopView {
                        stop_id: route@.stops[i],
                        queue: Seq::<u64>::empty(),
                        waiting: Seq::<(u64, u64)>::empty(),
                    }),
            decreases n - s,
        {
            proof {
                vstd::arithmetic::div_mod::lemma_small_mod(s as nat, n as nat);
            }
            stops.push(Stop::new(route.get_stop(s)));
            s += 1;
        }
        let fleet: usize = route.bus_count();
        let mut buses: Vec<Bus> = Vec::new();
        let mut b: usize = 0;
        while b < fleet
            invariant
                route@.wf(),
                n == route@.stops.len(),
                fleet == route@.bus_count,
                b <= fleet,
                stops@.len() == n,
                buses@.len() == b,
                forall|i: int|
                    0 <= i < n ==> (#[trigger] stops@[i]).wf() && stops@[i]@ == (StopView {
                        stop_id: route@.stops[i],
                        queue: lineup(n as int, i, b as nat),
                        waiting: Seq::<(u64, u64)>::empty(),
                    }),
                forall|c: int|
                    0 <= c < b ==> (#[trigger] buses@[c]).wf() && buses@[c]@ == (BusView {
                        bus_id: c as u64,
                        route: route@,
                        cur_stop: c % (n as int),
                        motion: Motion::Stopped,
                        onboard: Seq::<(u64, u64)>::empty(),
                    }),
            decreases fleet - b,
        {
            let bus = Bus::new(route.clone(), b as u64);
            let pos: usize = bus.cur_stop();
            proof {
                vstd::arithmetic::div_mod::lemma_mod_bound(b as int, n as int);
            }
            stops[pos].enqueue(b as u64);
            buses.push(bus);
            b += 1;
        }
        let sim = Simulation { route, stops, buses };
        proof {
            assert(sim@.stops =~= SimView::initial(sim.route@).stops);
            assert(sim@.buses =~= SimView::initial(sim.route@).buses);
            lemma_initial_wf(sim.route@);
        }
        sim
    }

    /// The route that is simulated.
    pub fn route(&self) -> (route: &Route)
        ensures
            route@ == self@.route,
    {
        &self.route
    }

    /// Number of stops.
    pub fn stop_count(&self) -> (n: usize)
        ensures
            n == self@.stops.len(),
    {
        self.stops.len()
    }

    /// Number of buses.
    pub fn bus_count(&self) -> (n: usize)
        ensures
            n == self@.buses.len(),
    {
        self.buses.len()
    }

    /// The stop at position `pos` of the route.
    pub fn stop(&self, pos: usize) -> (stop: &Stop)
        requires
            self.wf(),
            pos < self@.stops.len(),
        ensures
            stop.wf(),
            stop@ == self@.stops[pos as int],
    {
        proof {
            assert(self@.stops[pos as int].wf());
        }
        &self.stops[pos]
    }

    /// The bus numbered `b`.
    pub fn bus(&self, b: usize) -> (bus: &Bus)
        requires
            self.wf(),
            b < self@.buses.len(),
        ensures
            bus.wf(),
            bus@ == self@.buses[b as int],
    {
        proof {
            assert(self@.buses[b as int].wf());
        }
        &self.buses[b]
    }

    /// Lets `count` more passengers bound for `dest` wait at the stop
    /// `stop_id`, and says whether it did: nothing changes when the route has
    /// no such stop or the stop cannot count that many.
    pub fn add_waiting(&mut self, stop_id: u64, dest: u64, count: u64) -> (done: bool)
        requires
            old(self).wf(),
        ensures
            final(self).wf(),
            done <==> old(self)@.takes_waiting(stop_id, count),
            done ==> final(self)@ == old(self)@.with_waiting(stop_id, dest, count),
            !done ==> final(self)@ == old(self)@,
    {
        let pos: usize = match self.route.position_of(stop_id) {
            Some(pos) => pos,
            None => {
                return false;
            },
        };
        proof {
            assert(self@.stops[pos as int].wf());
        }
        if self.stops[pos].pax_count() > u64::MAX - count {
            return false;
        }
        let ghost before = self@;
        self.stops[pos].add_waiting(dest, count);
        proof {
            assert(self@.stops =~= before.with_waiting(stop_id, dest, count).stops);
            assert(self@.buses =~= before.buses);
            lemma_with_waiting_wf(before, stop_id, dest, count);
        }
        true
    }

    /// Advances the simulation by one tick: first the buses on the road
    /// move and those that are due arrive, then every stop with a bus lets the
    /// head of its queue exchange passengers until it is ready and sends it
    /// off.
    pub fn step(&mut self)
        requires
            old(self).wf(),
        ensures
            final(self).wf(),
            final(self)@ == old(self)@.stepped(),
    {
        let fleet: usize = self.buses.len();
        let mut b: usize = 0;
        while b < fleet
            invariant
                self.wf(),
                fleet == self.buses@.len(),
                fleet == old(self)@.buses.len(),
                b <= fleet,
                self@ == old(self)@.move_fleet(b as nat),
            decreases fleet - b,
        {
            let ghost before = self@;
            proof {
                lemma_move_bus_wf(before, b as int);
                assert(before.buses[b as int].wf());
                vstd::arithmetic::div_mod::lemma_mod_bound(
                    before.buses[b as int].cur_stop + 1,
                    before.stops.len() as int,
                );
            }
            let due: bool = self.buses[b].tick();
            if due {
                let s: usize = self.buses[b].next_stop();
                assert(before.stops[s as int].stop_id == before.route.stops[s as int]);
                let _pulled_in = self.buses[b].arrive(&mut self.stops[s]);
                proof {
                    assert(self@.stops =~= before.move_bus(b as int).stops);
                }
            }
            proof {
                assert(self@.buses =~= before.move_bus(b as int).buses);
                assert(self@.stops =~= before.move_bus(b as int).stops);
            }
            b += 1;
        }
        let ghost mid = self@;
        proof {
            lemma_move_fleet_wf(old(self)@, fleet as nat);
        }
        let n: usize = self.stops.len();
        let mut s: usize = 0;
        while s < n
            invariant
                self.wf(),
                n == self.stops@.len(),
                n == mid.stops.len(),
                s <= n,
                self@ == mid.serve_stops(s as nat),
            decreases n - s,
        {
            let ghost before = self@;
            proof {
                lemma_serve_stop_wf(before, s as int);
            }
            match self.stops[s].get_head() {
                Ok(id) => {
                    proof {
                        assert(before.queued_ok(s as int, 0));
                        assert(before.stops[s as int].stop_id == before.route.stops[s as int]);
                        assert(before.buses[id as int].bus_id == id);
                    }
                    let b: usize = id as usize;
                    let _exchanged = self.buses[b].settle(&mut self.stops[s]);
                    let _pulled_out = self.buses[b].depart(&mut self.stops[s]);
                    proof {
                        assert(self@.buses =~= before.serve_stop(s as int).buses);
                        assert(self@.stops =~= before.serve_stop(s as int).stops);
                    }
                },
                Err(_) => {},
            }
            s += 1;
        }
    }

    /// Advances the simulation by `n_steps` ticks.
    pub fn run(&mut self, n_steps: u64)
        requires
            old(self).wf(),
        ensures
            final(self).wf(),
            final(self)@ == old(self)@.ran(n_steps as nat),
    {
        let mut done: u64 = 0;
        while done < n_steps
            invariant
                self.wf(),
                done <= n_steps,
                self@ == old(self)@.ran(done as nat),
            decreases n_steps - done,
        {
            self.step();
            done += 1;
        }
    }
}

} // verus!
