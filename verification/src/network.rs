use crate::engine::lemma_initial_wf;
use crate::engine::lemma_ran_wf;
use crate::engine::lemma_stepped_wf;
use crate::engine::SimView;
use crate::engine::Simulation;
use crate::route::Route;
use crate::route::RouteView;
use vstd::prelude::*;

verus! {

/// Mathematical view of a network: the simulations of its routes, in the
/// order in which the routes were added.
pub struct NetworkView {
    pub lines: Seq<SimView>,
}

impl NetworkView {
    /// Every route's simulation is well formed, no two routes share an
    /// identifier, and no stop belongs to two routes.
    pub open spec fn wf(self) -> bool {
        &&& forall|i: int| 0 <= i < self.lines.len() ==> (#[trigger] self.lines[i]).wf()
        &&& forall|i: int, j: int|
            0 <= i < j < self.lines.len() ==> (#[trigger] self.lines[i]).route.route_id != (
            #[trigger] self.lines[j]).route.route_id
        &&& forall|i: int, j: int|
            0 <= i < self.lines.len() && 0 <= j < self.lines.len() && i != j ==> !(
            #[trigger] self.lines[i]).route.shares_stop_with((#[trigger] self.lines[j]).route)
    }

    /// Some route of the network has the identifier `route_id`.
    pub open spec fn has_route(self, route_id: u64) -> bool {
        exists|i: int|
            0 <= i < self.lines.len() && (#[trigger] self.lines[i]).route.route_id == route_id
    }

    /// Position of the route `route_id` in the network; meaningful where the
    /// network has it.
    pub open spec fn line_of(self, route_id: u64) -> int {
        choose|i: int|
            0 <= i < self.lines.len() && (#[trigger] self.lines[i]).route.route_id == route_id
    }

    /// Some route of the network calls at a stop of `route`.
    pub open spec fn shares_stop_with(self, route: RouteView) -> bool {
        exists|i: int|
            0 <= i < self.lines.len() && (#[trigger] self.lines[i]).route.shares_stop_with(route)
    }

    /// The network can take `route` in: its identifier is new and none of
    /// its stops belongs to a route of the network.
    pub open spec fn accepts(self, route: RouteView) -> bool {
        !self.has_route(route.route_id) && !self.shares_stop_with(route)
    }

    /// The network has the route `route_id`, that route calls at the stop
    /// `stop_id`, and the stop can count `count` more passengers.
    pub open spec fn takes_waiting(self, route_id: u64, stop_id: u64, count: u64) -> bool {
        &&& self.has_route(route_id)
        &&& self.lines[self.line_of(route_id)].takes_waiting(stop_id, count)
    }

    /// The network once `count` more passengers bound for `dest` wait at the
    /// stop `stop_id` of the route `route_id`.
    pub open spec fn with_waiting(
        self,
        route_id: u64,
        stop_id: u64,
        dest: u64,
        count: u64,
    ) -> NetworkView {
        let i = self.line_of(route_id);
        NetworkView {
            lines: self.lines.update(i, self.lines[i].with_waiting(stop_id, dest, count)),
        }
    }

    /// The network one tick later: every route has advanced by one tick, on
    /// its own.
    pub open spec fn stepped(self) -> NetworkView {
        NetworkView { lines: Seq::new(self.lines.len(), |i: int| self.lines[i].stepped()) }
    }

    /// The network `n` ticks later.
    pub open spec fn ran(self, n: nat) -> NetworkView {
        NetworkView { lines: Seq::new(self.lines.len(), |i: int| self.lines[i].ran(n)) }
    }
}

/// Sharing a stop is mutual.
pub proof fn lemma_shares_stop_symmetric(a: RouteView, b: RouteView)
    requires
        a.shares_stop_with(b),
    ensures
        b.shares_stop_with(a),
{
    let i = choose|i: int| 0 <= i < a.stops.len() && b.visits(#[trigger] a.stops[i]);
    let j = choose|j: int| 0 <= j < b.stops.len() && b.stops[j] == a.stops[i];
    assert(a.visits(b.stops[j]));
}

/// Running for one more tick is running and then advancing by a tick.
pub proof fn lemma_network_ran_next(net: NetworkView, n: nat)
    ensures
        net.ran(0) == net,
        net.ran(n + 1) == net.ran(n).stepped(),
{
    assert(net.ran(0).lines =~= net.lines);
    assert(net.ran(n + 1).lines =~= net.ran(n).stepped().lines);
}

/// A network stays well formed when each of its routes' simulations
/// changes into a well-formed simulation of the same route.
pub proof fn lemma_routes_kept(before: NetworkView, after: NetworkView)
    requires
        before.wf(),
        after.lines.len() == before.lines.len(),
        forall|i: int|
            0 <= i < after.lines.len() ==> (#[trigger] after.lines[i]).wf() && after.lines[i].route
                == before.lines[i].route,
    ensures
        after.wf(),
{
    assert forall|i: int, j: int|
        0 <= i < j < after.lines.len()
    implies
        (#[trigger] after.lines[i]).route.route_id != (#[trigger] after.lines[j]).route.route_id
    by {
        assert(before.lines[i].route.route_id != before.lines[j].route.route_id);
    }
    assert forall|i: int, j: int|
        0 <= i < after.lines.len() && 0 <= j < after.lines.len() && i != j
    implies
        !(#[trigger] after.lines[i]).route.shares_stop_with((#[trigger] after.lines[j]).route)
    by {
        assert(!before.lines[i].route.shares_stop_with(before.lines[j].route));
    }
}

/// A tick keeps the network well formed.
pub proof fn lemma_network_stepped_wf(net: NetworkView)
    requires
        net.wf(),
    ensures
        net.stepped().wf(),
{
    let after = net.stepped();
    assert forall|i: int|
        0 <= i < after.lines.len()
    implies
        (#[trigger] after.lines[i]).wf() && after.lines[i].route == net.lines[i].route
    by {
        lemma_stepped_wf(net.lines[i]);
    }
    lemma_routes_kept(net, after);
}

/// Any number of ticks keeps the network well formed.
pub proof fn lemma_network_ran_wf(net: NetworkView, n: nat)
    requires
        net.wf(),
    ensures
        net.ran(n).wf(),
{
    let after = net.ran(n);
    assert forall|i: int|
        0 <= i < after.lines.len()
    implies
        (#[trigger] after.lines[i]).wf() && after.lines[i].route == net.lines[i].route
    by {
        lemma_ran_wf(net.lines[i], n);
    }
    lemma_routes_kept(net, after);
}

/// The views of a list of simulations, in order.
pub open spec fn line_views(lines: Seq<Simulation>) -> Seq<SimView> {
    Seq::new(lines.len(), |i: int| lines[i]@)
}

/// A network of circular routes that share no stop, advanced together.
pub struct Network {
    lines: Vec<Simulation>,
}

impl View for Network {
    type V = NetworkView;

    closed spec fn view(&self) -> NetworkView {
        NetworkView { lines: line_views(self.lines@) }
    }
}

impl Network {
    /// The bookkeeping of every route's simulation is consistent.
    pub closed spec fn inv(&self) -> bool {
        forall|i: int| 0 <= i < self.lines@.len() ==> (#[trigger] self.lines@[i]).inv()
    }

    /// The network's view is well formed and its bookkeeping consistent.
    pub open spec fn wf(&self) -> bool {
        &&& self@.wf()
        &&& self.inv()
    }

    /// A network without routes.
    pub fn new() -> (net: Network)
        ensures
            net.wf(),
            net@.lines == Seq::<SimView>::empty(),
    {
        let net = Network { lines: Vec::new() };
        assert(net@.lines =~= Seq::<SimView>::empty());
        net
    }

    /// Number of routes.
    pub fn route_count(&self) -> (n: usize)
        ensures
            n == self@.lines.len(),
    {
        self.lines.len()
    }

    /// The simulation of the route at position `i`.
    pub fn line(&self, i: usize) -> (line: &Simulation)
        requires
            self.wf(),
            i < self@.lines.len(),
        ensures
            line.wf(),
            line@ == self@.lines[i as int],
    {
        proof {
            assert(self@.lines[i as int].wf());
        }
        &self.lines[i]
    }

    /// Position of the route `route_id` in the network, if the network has
    /// it.
    pub fn line_of(&self, route_id: u64) -> (found: Option<usize>)
        requires
            self.wf(),
        ensures
            found is Some <==> self@.has_route(route_id),
            found matches Some(i) ==> i == self@.line_of(route_id) && i < self@.lines.len()
                && self@.lines[i as int].route.route_id == route_id,
    {
        let mut i: usize = 0;
        while i < self.lines.len()
            invariant
                self.wf(),
                i <= self.lines@.len(),
                forall|k: int|
                    0 <= k < i
                        ==> (#[trigger] self@.lines[k]).route.route_id != route_id,
            decreases self.lines@.len() - i,
        {
            if self.lines[i].route().route_id() == route_id {
                proof {
                    let j = self@.line_of(route_id);
                    assert(self@.lines[i as int].route.route_id == route_id);
                    assert(self@.lines[j].route.route_id == route_id);
                    let here = self@.lines[i as int].route.route_id;
                    let there = self@.lines[j].route.route_id;
                    if j < i {
                        assert(there != here);
                    } else if i < j {
                        assert(here != there);
                    }
                }
                return Some(i);
            }
            i += 1;
        }
        None
    }

    /// Takes `route` into the network with its stops and its fleet at their
    /// start, and says whether it did: nothing changes when the network
    /// already has a route of that identifier or one that calls at a stop of
    /// `route`.
    pub fn add_route(&mut self, route: Route) -> (done: bool)
        requires
            old(self).wf(),
            route@.wf(),
        ensures
            final(self).wf(),
            done <==> old(self)@.accepts(route@),
            done ==> final(self)@.lines == old(self)@.lines.push(SimView::initial(route@)),
            !done ==> final(self)@ == old(self)@,
    {
        let mut i: usize = 0;
        while i < self.lines.len()
            invariant
                self.wf(),
                self@ == old(self)@,
                i <= self.lines@.len(),
                forall|k: int|
                    0 <= k < i ==> (#[trigger] self@.lines[k]).route.route_id != route@.route_id
                        && !self@.lines[k].route.shares_stop_with(route@),
            decreases self.lines@.len() - i,
        {
            let other = self.lines[i].route();
            if other.route_id() == route.route_id() || other.shares_stop_with(&route) {
                proof {
                    assert(self@.lines[i as int].route == other@);
                }
                return false;
            }
            i += 1;
        }
        let ghost before = self@;
        let ghost added = route@;
        proof {
            lemma_initial_wf(added);
        }
        self.lines.push(Simulation::new(route));
        proof {
            let after = self@;
            assert(after.lines =~= before.lines.push(SimView::initial(added)));
            assert forall|a: int, b: int|
                0 <= a < after.lines.len() && 0 <= b < after.lines.len() && a != b
            implies
                !(#[trigger] after.lines[a]).route.shares_stop_with(
                    (#[trigger] after.lines[b]).route,
                )
            by {
                if a < before.lines.len() && b < before.lines.len() {
                    assert(!before.lines[a].route.shares_stop_with(before.lines[b].route));
                } else if b == before.lines.len() {
                    assert(!before.lines[a].route.shares_stop_with(added));
                } else {
                    assert(!before.lines[b].route.shares_stop_with(added));
                    if added.shares_stop_with(before.lines[b].route) {
                        lemma_shares_stop_symmetric(added, before.lines[b].route);
                    }
                }
            }
            assert forall|a: int, b: int|
                0 <= a < b < after.lines.len()
            implies
                (#[trigger] after.lines[a]).route.route_id
                    != (#[trigger] after.lines[b]).route.route_id
            by {
                if b < before.lines.len() {
                    assert(before.lines[a].route.route_id != before.lines[b].route.route_id);
                } else {
                    assert(before.lines[a].route.route_id != added.route_id);
                }
            }
            assert forall|a: int|
                0 <= a < after.lines.len()
            implies
                (#[trigger] after.lines[a]).wf()
            by {
                if a < before.lines.len() {
                    assert(before.lines[a].wf());
                }
            }
        }
        true
    }

    /// Lets `count` more passengers bound for `dest` wait at the stop
    /// `stop_id` of the route `route_id`, and says whether it did: nothing
    /// changes when there is no such route, the route has no such stop, or
    /// the stop cannot count that many.
    pub fn add_waiting(&mut self, route_id: u64, stop_id: u64, dest: u64, count: u64) -> (done:
        bool)
        requires
            old(self).wf(),
        ensures
            final(self).wf(),
            done <==> old(self)@.takes_waiting(route_id, stop_id, count),
            done ==> final(self)@ == old(self)@.with_waiting(route_id, stop_id, dest, count),
            !done ==> final(self)@ == old(self)@,
    {
        let i: usize = match self.line_of(route_id) {
            Some(i) => i,
            None => {
                return false;
            },
        };
        let ghost before = self@;
        proof {
            assert(before.lines[i as int].wf());
        }
        let done: bool = self.lines[i].add_waiting(stop_id, dest, count);
        proof {
            let after = self@;
            assert(after.lines =~= before.lines.update(i as int, after.lines[i as int]));
            assert forall|a: int|
                0 <= a < after.lines.len()
            implies
                (#[trigger] after.lines[a]).wf() && after.lines[a].route == before.lines[a].route
            by {
                assert(before.lines[a].wf());
            }
            lemma_routes_kept(before, after);
            if !done {
                assert(after.lines =~= before.lines);
            }
        }
        done
    }

    /// Advances every route of the network by one tick.
    pub fn step(&mut self)
        requires
            old(self).wf(),
        ensures
            final(self).wf(),
            final(self)@ == old(self)@.stepped(),
    {
        let n: usize = self.lines.len();
        let mut i: usize = 0;
        while i < n
            invariant
                old(self).wf(),
                self.inv(),
                n == self.lines@.len(),
                n == old(self)@.lines.len(),
                i <= n,
                forall|k: int|
                    0 <= k < i
                        ==> #[trigger] self@.lines[k] == old(self)@.lines[k].stepped(),
                forall|k: int| i <= k < n ==> #[trigger] self@.lines[k] == old(self)@.lines[k],
            decreases n - i,
        {
            proof {
                assert(old(self)@.lines[i as int].wf());
                assert(self@.lines[i as int] == old(self)@.lines[i as int]);
            }
            let ghost before = self@;
            self.lines[i].step();
            proof {
                assert(self@.lines =~= before.lines.update(i as int, self@.lines[i as int]));
            }
            i += 1;
        }
        proof {
            assert(self@.lines =~= old(self)@.stepped().lines);
            lemma_network_stepped_wf(old(self)@);
        }
    }

    /// Advances every route of the network by `n_steps` ticks.
    pub fn run(&mut self, n_steps: u64)
        requires
            old(self).wf(),
        ensures
            final(self).wf(),
            final(self)@ == old(self)@.ran(n_steps as nat),
    {
        proof {
            lemma_network_ran_next(old(self)@, 0);
        }
        let mut done: u64 = 0;
        while done < n_steps
            invariant
                self.wf(),
                done <= n_steps,
                self@ == old(self)@.ran(done as nat),
            decreases n_steps - done,
        {
            self.step();
            proof {
                lemma_network_ran_next(old(self)@, done as nat);
            }
            done += 1;
        }
    }
}

} // verus!
