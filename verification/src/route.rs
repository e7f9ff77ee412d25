use vstd::arithmetic::div_mod::lemma_add_mod_noop;
use vstd::arithmetic::div_mod::lemma_mod_self_0;
use vstd::arithmetic::div_mod::lemma_small_mod;
use vstd::prelude::*;

verus! {

/// Mathematical view of a route: its identifier, the identifiers of its stops
/// in travel order, the size of its fleet, the capacity of each of its buses
/// and the number of ticks a bus needs from one stop to the next.
pub struct RouteView {
    pub route_id: u64,
    pub stops: Seq<u64>,
    pub bus_count: usize,
    pub capacity: u64,
    pub travel_time: u64,
}

impl RouteView {
    /// A route has at least one stop and visits no stop twice in a round.
    pub open spec fn wf(self) -> bool {
        &&& self.stops.len() > 0
        &&& self.stops.no_duplicates()
    }

    /// Identifier of the stop at offset `pos`, counted round the circle.
    pub open spec fn stop_at(self, pos: int) -> u64 {
        self.stops[pos % (self.stops.len() as int)]
    }

    /// Position that follows `pos` on the circle.
    pub open spec fn next_index(self, pos: int) -> int {
        (pos + 1) % (self.stops.len() as int)
    }

    /// The route calls at the stop `dest`.
    pub open spec fn visits(self, dest: u64) -> bool {
        self.stops.contains(dest)
    }

    /// Position of the stop `id` on the route; meaningful where the route
    /// calls at it.
    pub open spec fn position_of(self, id: u64) -> int {
        choose|i: int| 0 <= i < self.stops.len() && self.stops[i] == id
    }

    /// The two routes call at a common stop.
    pub open spec fn shares_stop_with(self, other: RouteView) -> bool {
        exists|i: int| 0 <= i < self.stops.len() && other.visits(#[trigger] self.stops[i])
    }
}

/// Whether a list of identifiers names nothing twice.
fn all_distinct(ids: &Vec<u64>) -> (ok: bool)
    ensures
        ok == ids@.no_duplicates(),
{
    let mut i: usize = 0;
    while i < ids.len()
        invariant
            i <= ids@.len(),
            forall|a: int, b: int| 0 <= a < b < i ==> ids@[a] != ids@[b],
        decreases ids@.len() - i,
    {
        let mut j: usize = 0;
        while j < i
            invariant
                j <= i < ids@.len(),
                forall|a: int| 0 <= a < j ==> ids@[a] != ids@[i as int],
            decreases i - j,
        {
            if ids[j] == ids[i] {
                return false;
            }
            j += 1;
        }
        i += 1;
    }
    true
}

/// An ordered, circular sequence of stops served by a fleet of equal buses.
/// A route does not change once it is built.
pub struct Route {
    route_id: u64,
    stops: Vec<u64>,
    bus_count: usize,
    capacity: u64,
    travel_time: u64,
}

impl View for Route {
    type V = RouteView;

    closed spec fn view(&self) -> RouteView {
        RouteView {
            route_id: self.route_id,
            stops: self.stops@,
            bus_count: self.bus_count,
            capacity: self.capacity,
            travel_time: self.travel_time,
        }
    }
}

impl Clone for Route {
    fn clone(&self) -> (copy: Route)
        ensures
            copy@ == self@,
    {
        let mut stops: Vec<u64> = Vec::new();
        let mut i: usize = 0;
        while i < self.stops.len()
            invariant
                i <= self.stops@.len(),
                stops@ == self.stops@.take(i as int),
            decreases self.stops@.len() - i,
        {
            stops.push(self.stops[i]);
            assert(self.stops@.take(i as int).push(self.stops@[i as int]) =~= self.stops@.take(
                i + 1,
            ));
            i += 1;
        }
        assert(self.stops@.take(i as int) =~= self.stops@);
        Route {
            route_id: self.route_id,
            stops,
            bus_count: self.bus_count,
            capacity: self.capacity,
            travel_time: self.travel_time,
        }
    }
}

impl PartialEq for Route {
    /// Two routes are the same route when their identifiers agree.
    fn eq(&self, other: &Route) -> (same: bool) {
        self.route_id == other.route_id
    }
}

impl vstd::std_specs::cmp::PartialEqSpecImpl for Route {
    open spec fn obeys_eq_spec() -> bool {
        true
    }

    open spec fn eq_spec(&self, other: &Route) -> bool {
        self@.route_id == other@.route_id
    }
}

impl Route {
    /// Builds the route that calls at `stops` in the given order and then
    /// starts over, with a fleet of `bus_count` buses of `capacity` seats each
    /// and one tick of travel between consecutive stops. There is no such
    /// route when `stops` is empty or names a stop twice.
    pub fn new(route_id: u64, stops: Vec<u64>, bus_count: usize, capacity: u64) -> (made: Option<
        Route,
    >)
        ensures
            made is Some <==> stops@.len() > 0 && stops@.no_duplicates(),
            made matches Some(route) ==> route@ == (RouteView {
                route_id,
                stops: stops@,
                bus_count,
                capacity,
                travel_time: 1,
            }),
    {
        if stops.len() == 0 || !all_distinct(&stops) {
            None
        } else {
            Some(Route { route_id, stops, bus_count, capacity, travel_time: 1 })
        }
    }

    /// The same route with `ticks` ticks of travel between consecutive stops.
    pub fn with_travel_time(self, ticks: u64) -> (route: Route)
        ensures
            route@ == (RouteView { travel_time: ticks, ..self@ }),
    {
        Route {
            route_id: self.route_id,
            stops: self.stops,
            bus_count: self.bus_count,
            capacity: self.capacity,
            travel_time: ticks,
        }
    }

    /// Identifier of the route.
    pub fn route_id(&self) -> (id: u64)
        ensures
            id == self@.route_id,
    {
        self.route_id
    }

    /// Number of stops on the circle.
    pub fn stop_count(&self) -> (n: usize)
        ensures
            n == self@.stops.len(),
    {
        self.stops.len()
    }

    /// Number of buses assigned to the route.
    pub fn bus_count(&self) -> (n: usize)
        ensures
            n == self@.bus_count,
    {
        self.bus_count
    }

    /// Largest number of passengers that a bus of the route carries.
    pub fn capacity(&self) -> (n: u64)
        ensures
            n == self@.capacity,
    {
        self.capacity
    }

    /// Number of ticks a bus needs from one stop to the next.
    pub fn travel_time(&self) -> (ticks: u64)
        ensures
            ticks == self@.travel_time,
    {
        self.travel_time
    }

    /// Identifier of the stop at offset `pos`. The offset wraps round the
    /// circle, so the stop after the last one is the first.
    pub fn get_stop(&self, pos: usize) -> (id: u64)
        requires
            self@.wf(),
        ensures
            id == self@.stop_at(pos as int),
    {
        self.stops[pos % self.stops.len()]
    }

    /// Position that follows offset `pos` on the circle.
    pub fn next_index(&self, pos: usize) -> (next: usize)
        requires
            self@.wf(),
        ensures
            next == self@.next_index(pos as int),
            next < self@.stops.len(),
    {
        let n: usize = self.stops.len();
        let here: usize = pos % n;
        proof {
            let m = n as int;
            lemma_add_mod_noop(pos as int, 1, m);
            let p = pos as int;
            assert((p + 1) % m == ((p % m) + (1int % m)) % m);
            if n == 1 {
                lemma_mod_self_0(m);
                lemma_small_mod(0, 1);
            } else {
                lemma_small_mod(1, n as nat);
                if here + 1 < n {
                    lemma_small_mod((here + 1) as nat, n as nat);
                } else {
                    lemma_mod_self_0(m);
                }
            }
        }
        if here + 1 == n {
            0
        } else {
            here + 1
        }
    }

    /// Position of the stop `id` on the route, if the route calls at it.
    pub fn position_of(&self, id: u64) -> (found: Option<usize>)
        requires
            self@.wf(),
        ensures
            found is Some <==> self@.visits(id),
            found matches Some(pos) ==> pos == self@.position_of(id) && pos < self@.stops.len()
                && self@.stops[pos as int] == id,
    {
        let mut i: usize = 0;
        while i < self.stops.len()
            invariant
                self@.wf(),
                i <= self.stops@.len(),
                forall|k: int| 0 <= k < i ==> self.stops@[k] != id,
            decreases self.stops@.len() - i,
        {
            if self.stops[i] == id {
                proof {
                    let j = self@.position_of(id);
                    assert(self.stops@[i as int] == id);
                    assert(self.stops@[j] == id);
                }
                return Some(i);
            }
            i += 1;
        }
        None
    }

    /// Whether the two routes call at a common stop.
    pub fn shares_stop_with(&self, other: &Route) -> (shared: bool)
        ensures
            shared == self@.shares_stop_with(other@),
    {
        let mut i: usize = 0;
        while i < self.stops.len()
            invariant
                i <= self.stops@.len(),
                forall|k: int| 0 <= k < i ==> !other@.visits(#[trigger] self.stops@[k]),
            decreases self.stops@.len() - i,
        {
            if other.visits(self.stops[i]) {
                assert(other@.visits(self@.stops[i as int]));
                return true;
            }
            i += 1;
        }
        false
    }

    /// Whether the route calls at the stop `dest`.
    pub fn visits(&self, dest: u64) -> (found: bool)
        ensures
            found == self@.visits(dest),
    {
        let mut i: usize = 0;
        while i < self.stops.len()
            invariant
                i <= self.stops@.len(),
                forall|k: int| 0 <= k < i ==> self.stops@[k] != dest,
            decreases self.stops@.len() - i,
        {
            if self.stops[i] == dest {
                return true;
            }
            i += 1;
        }
        false
    }
}

} // verus!
