use crate::boarding::lemma_boardable;
use crate::boarding::lemma_loaded;
use crate::boarding::lemma_prefix;
use crate::boarding::loaded;
use crate::bus::lemma_boarding;
use crate::bus::lemma_disembarking;
use crate::bus::lemma_settled;
use crate::bus::settled;
use crate::bus::BusView;
use crate::counter::count_in;
use crate::counter::holds;
use crate::counter::lemma_count_absent;
use crate::counter::total_of;
use crate::engine::lemma_move_bus_wf;
use crate::engine::lemma_move_fleet_wf;
use crate::engine::lemma_ran_wf;
use crate::engine::lemma_serve_stops_wf;
use crate::engine::SimView;
use crate::stop::StopView;
use vstd::prelude::*;

verus! {

impl SimView {
    /// Bus `b` stands first in the queue of stop `s`.
    pub open spec fn heads(self, b: int, s: int) -> bool {
        self.stops[s].queue.len() > 0 && self.stops[s].queue[0] == b
    }

    /// Bus `b` stands first in the queue of a stop at a position below `n`.
    pub open spec fn served_below(self, b: int, n: nat) -> bool {
        &&& !self.buses[b].in_motion()
        &&& self.buses[b].cur_stop < n
        &&& self.heads(b, self.buses[b].cur_stop)
    }

    /// Bus `b` stands in a queue without being first in it.
    pub open spec fn queued_behind(self, b: int) -> bool {
        !self.buses[b].in_motion() && !self.heads(b, self.buses[b].cur_stop)
    }
}

/// Whoever boards is bound for a stop that the route of the bus serves.
pub proof fn lemma_boards_only_served(bus: BusView, stop: StopView, dest: u64)
    requires
        count_in(bus.boards(stop), dest) > 0,
    ensures
        bus.satisfies(dest),
{
    let groups = bus.boards(stop);
    lemma_boardable(stop.waiting, bus.route.stops, bus.room());
    if !holds(groups, dest) {
        lemma_count_absent(groups, dest);
    }
    let k = choose|k: int| 0 <= k < groups.len() && (#[trigger] groups[k]).0 == dest;
    assert(bus.route.stops.contains(groups[k].0));
}

/// The capacity holds between any two groups of a boarding, not only once
/// everybody is aboard.
pub proof fn lemma_capacity_holds_mid_boarding(bus: BusView, stop: StopView, k: int)
    requires
        bus.wf(),
        stop.wf(),
        0 <= k <= bus.boards(stop).len(),
    ensures
        total_of(loaded(bus.onboard, bus.boards(stop).take(k))) <= bus.route.capacity,
{
    let groups = bus.boards(stop);
    lemma_boardable(stop.waiting, bus.route.stops, bus.room());
    lemma_prefix(groups, k, 0);
    lemma_loaded(bus.onboard, groups.take(k));
}

/// Round trip: a bus that carried nobody for `dest` boards at `stop`; when it
/// later stands at `dest`, with nobody for `dest` having got on or off in
/// between, letting its passengers off leaves nobody aboard for `dest` and
/// lowers the passenger count by exactly the number that boarded for `dest`.
pub proof fn lemma_round_trip(bus: BusView, stop: StopView, dest: u64, later: BusView)
    requires
        bus.wf(),
        stop.wf(),
        later.wf(),
        count_in(bus.onboard, dest) == 0,
        count_in(later.onboard, dest) == count_in(bus.boarded(stop).onboard, dest),
        later.stop_id() == dest,
    ensures
        count_in(later.disembarked().onboard, dest) == 0,
        later.disembarked().pax_count() == later.pax_count() - count_in(bus.boards(stop), dest),
{
    lemma_boarding(bus, stop);
    lemma_disembarking(later);
}

/// While the buses on the road move, nobody at a stop boards or alights:
/// every stop keeps its waiting passengers and the front of its queue, every
/// bus keeps its passengers, and a standing bus stays exactly as it is.
pub proof fn lemma_move_fleet_frame(sim: SimView, n: nat)
    requires
        sim.wf(),
        n <= sim.buses.len(),
    ensures
        forall|s: int|
            0 <= s < sim.stops.len() ==> (#[trigger] sim.move_fleet(n).stops[s]).waiting
                == sim.stops[s].waiting,
        forall|s: int|
            0 <= s < sim.stops.len() ==> sim.stops[s].queue.is_prefix_of(
                (#[trigger] sim.move_fleet(n).stops[s]).queue,
            ),
        forall|b: int|
            0 <= b < sim.buses.len() ==> (#[trigger] sim.move_fleet(n).buses[b]).onboard
                == sim.buses[b].onboard,
        forall|b: int|
            0 <= b < sim.buses.len() && !sim.buses[b].in_motion() ==> #[trigger] sim.move_fleet(
                n,
            ).buses[b] == sim.buses[b],
        forall|b: int|
            n <= b < sim.buses.len()
                ==> #[trigger] sim.move_fleet(n).buses[b] == sim.buses[b],
    decreases n,
{
    if n > 0 {
        let before = sim.move_fleet((n - 1) as nat);
        let after = sim.move_fleet(n);
        lemma_move_fleet_frame(sim, (n - 1) as nat);
        lemma_move_fleet_wf(sim, (n - 1) as nat);
        lemma_move_bus_wf(before, n - 1);
        assert(before.buses[n - 1] == sim.buses[n - 1]);
        assert(before.buses[n - 1].wf());
        vstd::arithmetic::div_mod::lemma_mod_bound(
            before.buses[n - 1].cur_stop + 1,
            before.stops.len() as int,
        );
        assert forall|s: int|
            0 <= s < sim.stops.len()
        implies
            (#[trigger] after.stops[s]).waiting == sim.stops[s].waiting
        by {
            assert(before.stops[s].waiting == sim.stops[s].waiting);
        }
        assert forall|s: int|
            0 <= s < sim.stops.len()
        implies
            sim.stops[s].queue.is_prefix_of((#[trigger] after.stops[s]).queue)
        by {
            assert(sim.stops[s].queue.is_prefix_of(before.stops[s].queue));
            assert(before.stops[s].queue.is_prefix_of(after.stops[s].queue));
        }
        assert forall|b: int|
            0 <= b < sim.buses.len()
        implies
            (#[trigger] after.buses[b]).onboard == sim.buses[b].onboard
        by {
            assert(before.buses[b].onboard == sim.buses[b].onboard);
        }
        assert forall|b: int|
            0 <= b < sim.buses.len() && !sim.buses[b].in_motion()
        implies
            #[trigger] after.buses[b] == sim.buses[b]
        by {
            assert(before.buses[b] == sim.buses[b]);
        }
        assert forall|b: int|
            n <= b < sim.buses.len()
        implies
            #[trigger] after.buses[b] == sim.buses[b]
        by {
            assert(before.buses[b] == sim.buses[b]);
        }
    }
}

/// Serving the stops at positions below `n` touches no stop from position
/// `n` on, and no bus but the heads of the stops served.
pub proof fn lemma_serve_stops_frame(sim: SimView, n: nat)
    requires
        sim.wf(),
        n <= sim.stops.len(),
    ensures
        forall|s: int|
            n <= s < sim.stops.len()
                ==> #[trigger] sim.serve_stops(n).stops[s] == sim.stops[s],
        forall|b: int|
            0 <= b < sim.buses.len() && !sim.served_below(b, n) ==> #[trigger] sim.serve_stops(
                n,
            ).buses[b] == sim.buses[b],
    decreases n,
{
    if n > 0 {
        let before = sim.serve_stops((n - 1) as nat);
        let after = sim.serve_stops(n);
        lemma_serve_stops_frame(sim, (n - 1) as nat);
        lemma_serve_stops_wf(sim, (n - 1) as nat);
        assert(before.stops[n - 1] == sim.stops[n - 1]);
        assert forall|s: int|
            n <= s < sim.stops.len()
        implies
            #[trigger] after.stops[s] == sim.stops[s]
        by {
            assert(before.stops[s] == sim.stops[s]);
        }
        assert forall|b: int|
            0 <= b < sim.buses.len()
                && !sim.served_below(b, n)
        implies
            #[trigger] after.buses[b] == sim.buses[b]
        by {
            assert(before.buses[b] == sim.buses[b]);
            if before.stops[n - 1].queue.len() > 0 {
                assert(before.queued_ok(n - 1, 0));
            }
        }
    }
}

/// Once the stops at positions below `n` have served, a stop among them that
/// had no bus is as it was, and one that had a bus has let its head bus
/// settle and depart: the stops do not interfere with each other.
pub proof fn lemma_serve_stops_at(sim: SimView, n: nat, s: int)
    requires
        sim.wf(),
        0 <= s < n <= sim.stops.len(),
    ensures
        sim.stops[s].queue.len() == 0 ==> sim.serve_stops(n).stops[s] == sim.stops[s],
        sim.stops[s].queue.len() > 0 ==> {
            let b = sim.stops[s].queue[0] as int;
            let done = settled(sim.buses[b], sim.stops[s]);
            &&& sim.serve_stops(n).stops[s] == done.1.head_gone()
            &&& sim.serve_stops(n).buses[b] == done.0.departed()
        },
    decreases n,
{
    let before = sim.serve_stops((n - 1) as nat);
    lemma_serve_stops_wf(sim, (n - 1) as nat);
    lemma_serve_stops_frame(sim, (n - 1) as nat);
    if s == n - 1 {
        assert(before.stops[s] == sim.stops[s]);
        if sim.stops[s].queue.len() > 0 {
            let b = sim.stops[s].queue[0] as int;
            assert(sim.queued_ok(s, 0));
            assert(before.buses[b] == sim.buses[b]);
        }
    } else {
        lemma_serve_stops_at(sim, (n - 1) as nat, s);
        if before.stops[n - 1].queue.len() > 0 {
            assert(before.queued_ok(n - 1, 0));
        }
        if sim.stops[s].queue.len() > 0 {
            let b = sim.stops[s].queue[0] as int;
            assert(sim.queued_ok(s, 0));
            let done = settled(sim.buses[b], sim.stops[s]);
            lemma_settled(sim.buses[b], sim.stops[s]);
            assert(before.buses[b] == done.0.departed());
            assert(before.buses[b].in_motion());
        }
    }
}

/// The passengers waiting at a stop never become more within a tick, and
/// they become fewer only by boarding the bus at the head of the stop's
/// queue: a stop that has no bus once the arrivals are in keeps its waiting
/// passengers as they are, and any other stop is left with those that the
/// exchange with its head bus leaves.
pub proof fn lemma_waiting_leaves_only_by_boarding(sim: SimView, s: int)
    requires
        sim.wf(),
        0 <= s < sim.stops.len(),
    ensures
        sim.stepped().stops[s].pax_count() <= sim.stops[s].pax_count(),
        ({
            let mid = sim.move_fleet(sim.buses.len());
            &&& mid.stops[s].waiting == sim.stops[s].waiting
            &&& mid.stops[s].queue.len() == 0 ==> sim.stepped().stops[s].waiting
                == sim.stops[s].waiting
            &&& mid.stops[s].queue.len() > 0 ==> sim.stepped().stops[s].waiting == settled(
                mid.buses[mid.stops[s].queue[0] as int],
                mid.stops[s],
            ).1.waiting
        }),
{
    let mid = sim.move_fleet(sim.buses.len());
    lemma_move_fleet_wf(sim, sim.buses.len());
    lemma_move_fleet_frame(sim, sim.buses.len());
    lemma_serve_stops_at(mid, mid.stops.len(), s);
    assert(mid.stops[s].waiting == sim.stops[s].waiting);
    if mid.stops[s].queue.len() > 0 {
        assert(mid.queued_ok(s, 0));
        lemma_settled(mid.buses[mid.stops[s].queue[0] as int], mid.stops[s]);
    }
}

/// A bus that stands in a queue without being first in it is inert: a tick
/// leaves it exactly as it was, passengers and all.
pub proof fn lemma_queued_bus_inert(sim: SimView, b: int)
    requires
        sim.wf(),
        0 <= b < sim.buses.len(),
        sim.queued_behind(b),
    ensures
        sim.stepped().buses[b] == sim.buses[b],
{
    let mid = sim.move_fleet(sim.buses.len());
    let s = sim.buses[b].cur_stop;
    lemma_move_fleet_wf(sim, sim.buses.len());
    lemma_move_fleet_frame(sim, sim.buses.len());
    assert(mid.buses[b] == sim.buses[b]);
    assert(sim.buses[b].wf());
    assert(sim.stops[s].queue.contains(b as u64));
    assert(sim.stops[s].queue.is_prefix_of(mid.stops[s].queue));
    assert(mid.stops[s].queue[0] == sim.stops[s].queue[0]);
    lemma_serve_stops_frame(mid, mid.stops.len());
}

/// A bus that is never first in its queue at the start of a tick stays as it
/// was for as many ticks as that lasts.
pub proof fn lemma_queued_bus_inert_for(sim: SimView, b: int, n: nat)
    requires
        sim.wf(),
        0 <= b < sim.buses.len(),
        forall|k: nat| k < n ==> (#[trigger] sim.ran(k)).queued_behind(b),
    ensures
        sim.ran(n).buses[b] == sim.buses[b],
    decreases n,
{
    if n > 0 {
        let before = sim.ran((n - 1) as nat);
        assert forall|k: nat| k < n - 1 implies (#[trigger] sim.ran(k)).queued_behind(b) by {}
        lemma_queued_bus_inert_for(sim, b, (n - 1) as nat);
        lemma_ran_wf(sim, (n - 1) as nat);
        assert(before.queued_behind(b));
        lemma_queued_bus_inert(before, b);
    }
}

} // verus!
