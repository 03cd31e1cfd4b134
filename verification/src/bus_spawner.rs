//! Bus spawn generation driven by trip departure schedules.
//!
//! `BusSpawner` maps routes to simulation bus stops and generates
//! `BusSpawnRequest`s time-gated by trip departure times. Each request holds
//! the `stop_indices` into the global bus stop list so the simulation can
//! build the state of the spawned bus.
use vstd::prelude::*;

use crate::sorting::key_lt;
use crate::sorting::lemma_sorted_is_permutation;
use crate::sorting::sorted_by_key;
use crate::sorting::stable_order_by_key;
use crate::sorting::within;

verus! {

/// A stop visit of a scheduled trip; times are seconds from midnight.
#[derive(Debug, Clone)]
pub struct StopTime {
    /// Stop identifier.
    pub stop_id: String,
    /// Arrival time, seconds from midnight.
    pub arrival_s: u32,
    /// Departure time, seconds from midnight.
    pub departure_s: u32,
    /// Position of the visit along the trip.
    pub stop_sequence: u32,
}

/// A scheduled trip of a route with its stop visits in order.
#[derive(Debug, Clone)]
pub struct BusSchedule {
    /// Trip identifier.
    pub trip_id: String,
    /// Route identifier.
    pub route_id: String,
    /// Stop visits in trip order.
    pub stop_times: Vec<StopTime>,
}

/// Departure time of a trip's first stop; a trip without stops sorts last.
pub open spec fn first_departure(s: BusSchedule) -> u32 {
    if s.stop_times@.len() > 0 {
        s.stop_times@[0].departure_s
    } else {
        u32::MAX
    }
}

/// A request to spawn a bus agent at a specific simulation time.
#[derive(Debug, Clone, PartialEq)]
pub struct BusSpawnRequest {
    /// Route identifier.
    pub route_id: String,
    /// Trip identifier.
    pub trip_id: String,
    /// Ordered stop indices into the global bus stop list.
    pub stop_indices: Vec<usize>,
}

/// A trip waiting to be spawned.
#[derive(Debug)]
pub struct PendingTrip {
    /// Route identifier.
    pub route_id: String,
    /// Trip identifier.
    pub trip_id: String,
    /// Departure time of the trip's first stop.
    pub departure_s: u32,
}

/// The pending form of a schedule.
pub open spec fn pending_of(s: BusSchedule) -> PendingTrip {
    PendingTrip { route_id: s.route_id, trip_id: s.trip_id, departure_s: first_departure(s) }
}

/// Sort keys of the schedules: their first departure times.
pub open spec fn departure_keys(schedules: Seq<BusSchedule>) -> Seq<u128> {
    schedules.map_values(|s: BusSchedule| first_departure(s) as u128)
}

/// The index that the first entry with key `id` maps to, if any.
pub open spec fn lookup(table: Seq<(String, usize)>, id: Seq<char>) -> Option<usize>
    decreases table.len(),
{
    if table.len() == 0 {
        None
    } else if table[0].0@ == id {
        Some(table[0].1)
    } else {
        lookup(table.subrange(1, table.len() as int), id)
    }
}

/// The stop indices of the stop ids that the table knows, in order; an
/// unknown stop id is skipped.
pub open spec fn resolve(table: Seq<(String, usize)>, ids: Seq<String>) -> Seq<usize>
    decreases ids.len(),
{
    if ids.len() == 0 {
        Seq::empty()
    } else {
        let rest = resolve(table, ids.drop_last());
        match lookup(table, ids.last()@) {
            Some(i) => rest.push(i),
            None => rest,
        }
    }
}

/// The stop ids that the table knows.
pub open spec fn known_in(table: Seq<(String, usize)>) -> spec_fn(String) -> bool {
    |id: String| lookup(table, id@) is Some
}

/// The stop index that the table gives a known stop id.
pub open spec fn index_in(table: Seq<(String, usize)>) -> spec_fn(String) -> usize {
    |id: String| lookup(table, id@)->0
}

/// Law: a route's resolved stops are the indices of its stop ids in route
/// order with only the unknown ids left out: as many as the route has known
/// stop ids, a stop that the route visits twice listed twice. A route whose
/// stop ids are all known resolves stop for stop.
pub proof fn lemma_resolve_keeps_known_stops(table: Seq<(String, usize)>, ids: Seq<String>)
    ensures
        resolve(table, ids) == ids.filter(known_in(table)).map_values(index_in(table)),
        resolve(table, ids).len() == ids.filter(known_in(table)).len(),
        (forall|k: int| 0 <= k < ids.len() ==> #[trigger] lookup(table, ids[k]@) is Some) ==> {
            &&& resolve(table, ids).len() == ids.len()
            &&& forall|k: int| 0 <= k < ids.len() ==> #[trigger] resolve(table, ids)[k] == lookup(table, ids[k]@)->0
        },
    decreases ids.len(),
{
    reveal(Seq::filter);
    if ids.len() > 0 {
        let init = ids.drop_last();
        let last = ids.last();
        lemma_resolve_keeps_known_stops(table, init);
        let f = init.filter(known_in(table));
        if lookup(table, last@) is Some {
            assert(f.push(last).map_values(index_in(table)) =~= f.map_values(index_in(table)).push(lookup(table, last@)->0));
        }
        if forall|k: int| 0 <= k < ids.len() ==> #[trigger] lookup(table, ids[k]@) is Some {
            assert forall|k: int| 0 <= k < init.len() implies #[trigger] lookup(table, init[k]@) is Some by {
                assert(init[k] == ids[k]);
                assert(lookup(table, ids[k]@) is Some);
            }
            assert(lookup(table, ids[ids.len() - 1]@) is Some);
            assert(ids[ids.len() - 1] == last);
            assert forall|k: int| 0 <= k < ids.len() implies #[trigger] resolve(table, ids)[k] == lookup(table, ids[k]@)->0 by {
                if k < init.len() {
                    assert(init[k] == ids[k]);
                    assert(resolve(table, init)[k] == lookup(table, init[k]@)->0);
                }
            }
        }
    }
}

/// The stop indices of the first route entry with id `id`; empty for an
/// unknown route.
pub open spec fn stops_of(routes: Seq<(Seq<char>, Seq<usize>)>, id: Seq<char>) -> Seq<usize>
    decreases routes.len(),
{
    if routes.len() == 0 {
        Seq::empty()
    } else if routes[0].0 == id {
        routes[0].1
    } else {
        stops_of(routes.subrange(1, routes.len() as int), id)
    }
}

/// Each route id with its stop indices resolved through `table`.
pub open spec fn resolved_routes(routes: Seq<(String, Vec<String>)>, table: Seq<(String, usize)>) -> Seq<(Seq<char>, Seq<usize>)> {
    routes.map_values(|e: (String, Vec<String>)| (e.0@, resolve(table, e.1@)))
}

/// Each route id with its stop indices.
pub open spec fn routes_view(routes: Seq<(String, Vec<usize>)>) -> Seq<(Seq<char>, Seq<usize>)> {
    routes.map_values(|e: (String, Vec<usize>)| (e.0@, e.1@))
}

/// Whether the trips are in departure order.
pub open spec fn departures_sorted(trips: Seq<PendingTrip>) -> bool {
    forall|a: int, b: int| 0 <= a <= b < trips.len() ==> #[trigger] trips[a].departure_s <= #[trigger] trips[b].departure_s
}

/// Look up a stop id in the table: the index of the first entry with that id.
fn find_index(table: &[(String, usize)], id: &String) -> (r: Option<usize>)
    ensures
        r == lookup(table@, id@),
{
    let mut i: usize = 0;
    proof {
        assert(table@.subrange(0, table@.len() as int) =~= table@);
    }
    while i < table.len()
        invariant
            i <= table@.len(),
            lookup(table@, id@) == lookup(table@.subrange(i as int, table@.len() as int), id@),
        decreases table@.len() - i,
    {
        let ghost rest = table@.subrange(i as int, table@.len() as int);
        proof {
            assert(rest[0] == table@[i as int]);
        }
        if table[i].0 == *id {
            return Some(table[i].1);
        }
        proof {
            assert(rest.subrange(1, rest.len() as int) =~= table@.subrange(i + 1, table@.len() as int));
        }
        i = i + 1;
    }
    proof {
        assert(table@.subrange(i as int, table@.len() as int).len() == 0);
    }
    None
}

/// Resolve stop ids to stop indices, skipping unknown ids.
fn resolve_stops(table: &[(String, usize)], ids: &Vec<String>) -> (r: Vec<usize>)
    ensures
        r@ == resolve(table@, ids@),
{
    let mut r: Vec<usize> = Vec::new();
    let mut i: usize = 0;
    while i < ids.len()
        invariant
            i <= ids@.len(),
            r@ == resolve(table@, ids@.take(i as int)),
        decreases ids@.len() - i,
    {
        proof {
            assert(ids@.take(i + 1).drop_last() =~= ids@.take(i as int));
            assert(ids@.take(i + 1).last() == ids@[i as int]);
        }
        match find_index(table, &ids[i]) {
            Some(k) => r.push(k),
            None => {},
        }
        i = i + 1;
    }
    proof {
        assert(ids@.take(i as int) =~= ids@);
    }
    r
}

/// Time-gated bus spawn generator driven by trip schedules.
///
/// Sorts trips by first-stop departure time and advances a cursor to emit
/// spawn requests as simulation time progresses. Each trip is spawned
/// exactly once.
pub struct BusSpawner {
    /// Per-route ordered stop indices into the global bus stop list.
    route_stops: Vec<(String, Vec<usize>)>,
    /// Trips sorted by first stop departure time (seconds from midnight).
    trips: Vec<PendingTrip>,
    /// Index of the next unspawned trip in `trips`.
    next_trip_index: usize,
}

impl BusSpawner {
    /// Per-route stop indices, in the order the routes were given.
    pub closed spec fn routes(&self) -> Seq<(Seq<char>, Seq<usize>)> {
        routes_view(self.route_stops@)
    }

    /// All trips in departure order, spawned or not.
    pub closed spec fn trips(&self) -> Seq<PendingTrip> {
        self.trips@
    }

    /// Number of trips already spawned: the next trip to spawn is `trips()[next()]`.
    pub closed spec fn next(&self) -> nat {
        self.next_trip_index as nat
    }

    /// Trips are in departure order and the cursor lies within them.
    #[verifier::type_invariant]
    spec fn inv(self) -> bool {
        &&& departures_sorted(self.trips@)
        &&& self.next_trip_index <= self.trips@.len()
    }

    /// Every trip departing at or before `sod` has been spawned.
    pub open spec fn caught_up(&self, sod: u32) -> bool {
        self.next() == self.trips().len() || self.trips()[self.next() as int].departure_s > sod
    }

    /// Create a spawner: each route's stop ids are resolved to stop indices
    /// (unknown stop ids skipped), and the trips are stably sorted by first
    /// departure, none spawned yet.
    ///
    /// `route_stop_ids` lists, per route, the ordered stop ids along the
    /// route; `stop_id_to_index` maps a stop id to its index in the global
    /// bus stop list. A route or stop id listed twice resolves by its first
    /// entry.
    pub fn new(
        route_stop_ids: &[(String, Vec<String>)],
        stop_id_to_index: &[(String, usize)],
        schedules: Vec<BusSchedule>,
    ) -> (r: Self)
        ensures
            departures_sorted(r.trips()),
            r.next() == 0,
            r.routes() == resolved_routes(route_stop_ids@, stop_id_to_index@),
            r.trips().len() == schedules@.len(),
            exists|p: Seq<usize>|
                #![trigger sorted_by_key(departure_keys(schedules@), p)]
                {
                    &&& p.len() == schedules@.len()
                    &&& within(p, 0, schedules@.len() as int)
                    &&& sorted_by_key(departure_keys(schedules@), p)
                    &&& forall|k: int| 0 <= k < p.len() ==> #[trigger] r.trips()[k] == pending_of(schedules@[p[k] as int])
                },
    {
        let mut route_stops: Vec<(String, Vec<usize>)> = Vec::new();
        let mut i: usize = 0;
        while i < route_stop_ids.len()
            invariant
                i <= route_stop_ids@.len(),
                route_stops@.len() == i,
                routes_view(route_stops@) == resolved_routes(route_stop_ids@.take(i as int), stop_id_to_index@),
            decreases route_stop_ids@.len() - i,
        {
            let indices = resolve_stops(stop_id_to_index, &route_stop_ids[i].1);
            let id = route_stop_ids[i].0.clone();
            let ghost prev = route_stops@;
            route_stops.push((id, indices));
            i = i + 1;
            proof {
                let target = resolved_routes(route_stop_ids@.take(i as int), stop_id_to_index@);
                let before = resolved_routes(route_stop_ids@.take(i - 1), stop_id_to_index@);
                assert(route_stops@.len() == i);
                assert(route_stop_ids@.take(i as int)[i - 1] == route_stop_ids@[i - 1]);
                assert forall|j: int| 0 <= j < i implies #[trigger] routes_view(route_stops@)[j] == target[j] by {
                    if j < i - 1 {
                        assert(route_stops@[j] == prev[j]);
                        assert(routes_view(prev)[j] == before[j]);
                        assert(route_stop_ids@.take(i as int)[j] == route_stop_ids@.take(i - 1)[j]);
                    }
                }
                assert(routes_view(route_stops@) =~= target);
            }
        }
        proof {
            assert(route_stop_ids@.take(i as int) =~= route_stop_ids@);
        }
        let mut keys: Vec<u128> = Vec::new();
        let mut k: usize = 0;
        while k < schedules.len()
            invariant
                k <= schedules@.len(),
                keys@ == departure_keys(schedules@).take(k as int),
            decreases schedules@.len() - k,
        {
            let d: u32 = if schedules[k].stop_times.len() > 0 {
                schedules[k].stop_times[0].departure_s
            } else {
                u32::MAX
            };
            keys.push(d as u128);
            k = k + 1;
            proof {
                assert(keys@ =~= departure_keys(schedules@).take(k as int));
            }
        }
        proof {
            assert(keys@ =~= departure_keys(schedules@));
        }
        let order = stable_order_by_key(&keys);
        let mut trips: Vec<PendingTrip> = Vec::new();
        let mut t: usize = 0;
        while t < order.len()
            invariant
                t <= order@.len(),
                order@.len() == schedules@.len(),
                keys@ == departure_keys(schedules@),
                within(order@, 0, schedules@.len() as int),
                trips@.len() == t,
                forall|j: int| 0 <= j < t ==> #[trigger] trips@[j] == pending_of(schedules@[order@[j] as int]),
            decreases order@.len() - t,
        {
            let idx = order[t];
            proof {
                assert(0 <= order@[t as int] < schedules@.len());
            }
            let s = &schedules[idx];
            let d: u32 = if s.stop_times.len() > 0 {
                s.stop_times[0].departure_s
            } else {
                u32::MAX
            };
            trips.push(PendingTrip { route_id: s.route_id.clone(), trip_id: s.trip_id.clone(), departure_s: d });
            t = t + 1;
        }
        proof {
            let ks = departure_keys(schedules@);
            assert forall|a: int, b: int| 0 <= a <= b < trips@.len() implies #[trigger] trips@[a].departure_s
                <= #[trigger] trips@[b].departure_s by {
                if a < b {
                    assert(key_lt(ks, order@[a], order@[b]));
                }
            }
            assert(sorted_by_key(ks, order@));
        }
        BusSpawner { route_stops, trips, next_trip_index: 0 }
    }

    /// Spawn requests for all unspawned trips whose first departure is at
    /// or before `sim_time_sod`, seconds of the day, in departure order;
    /// the cursor moves past them, so each trip is emitted exactly once.
    pub fn spawns_due(&mut self, sim_time_sod: u32) -> (r: Vec<BusSpawnRequest>)
        ensures
            final(self).caught_up(sim_time_sod),
            final(self).routes() == old(self).routes(),
            final(self).trips() == old(self).trips(),
            old(self).next() <= final(self).next(),
            forall|j: int| old(self).next() <= j < final(self).next() ==> #[trigger] old(self).trips()[j].departure_s
                <= sim_time_sod,
            r@.len() == final(self).next() - old(self).next(),
            forall|k: int| 0 <= k < r@.len() ==> {
                let t = old(self).trips()[old(self).next() + k];
                &&& (#[trigger] r@[k]).route_id == t.route_id
                &&& r@[k].trip_id == t.trip_id
                &&& r@[k].stop_indices@ == stops_of(old(self).routes(), t.route_id@)
            },
    {
        proof {
            use_type_invariant(&*self);
        }
        let mut requests: Vec<BusSpawnRequest> = Vec::new();
        let ghost n0 = self.next_trip_index as int;
        while self.next_trip_index < self.trips.len()
            invariant_except_break
                departures_sorted(self.trips()),
                self.next() <= self.trips().len(),
                self.routes() == old(self).routes(),
                self.trips() == old(self).trips(),
                n0 == old(self).next(),
                n0 <= self.next(),
                forall|j: int| n0 <= j < self.next() ==> #[trigger] self.trips()[j].departure_s <= sim_time_sod,
                requests@.len() == self.next() - n0,
                forall|k: int| 0 <= k < requests@.len() ==> {
                    let t = old(self).trips()[n0 + k];
                    &&& (#[trigger] requests@[k]).route_id == t.route_id
                    &&& requests@[k].trip_id == t.trip_id
                    &&& requests@[k].stop_indices@ == stops_of(old(self).routes(), t.route_id@)
                },
            ensures
                self.caught_up(sim_time_sod),
                self.routes() == old(self).routes(),
                self.trips() == old(self).trips(),
                n0 <= self.next(),
                forall|j: int| n0 <= j < self.next() ==> #[trigger] self.trips()[j].departure_s <= sim_time_sod,
                requests@.len() == self.next() - n0,
                forall|k: int| 0 <= k < requests@.len() ==> {
                    let t = old(self).trips()[n0 + k];
                    &&& (#[trigger] requests@[k]).route_id == t.route_id
                    &&& requests@[k].trip_id == t.trip_id
                    &&& requests@[k].stop_indices@ == stops_of(old(self).routes(), t.route_id@)
                },
            decreases self.trips@.len() - self.next_trip_index,
        {
            let idx = self.next_trip_index;
            if self.trips[idx].departure_s > sim_time_sod {
                break;
            }
            let stop_indices = self.stops_for(&self.trips[idx].route_id);
            let req = BusSpawnRequest {
                route_id: self.trips[idx].route_id.clone(),
                trip_id: self.trips[idx].trip_id.clone(),
                stop_indices,
            };
            requests.push(req);
            self.next_trip_index = idx + 1;
        }
        requests
    }

    /// The stop indices of a route (the first entry with that id); empty
    /// for an unknown route.
    pub fn stops_for(&self, route_id: &String) -> (r: Vec<usize>)
        ensures
            r@ == stops_of(self.routes(), route_id@),
    {
        let mut i: usize = 0;
        proof {
            assert(self.routes().subrange(0, self.routes().len() as int) =~= self.routes());
        }
        while i < self.route_stops.len()
            invariant
                i <= self.route_stops@.len(),
                stops_of(self.routes(), route_id@) == stops_of(self.routes().subrange(i as int, self.routes().len() as int),
                    route_id@),
            decreases self.route_stops@.len() - i,
        {
            let ghost rest = self.routes().subrange(i as int, self.routes().len() as int);
            proof {
                assert(rest[0] == (self.route_stops@[i as int].0@, self.route_stops@[i as int].1@));
            }
            if self.route_stops[i].0 == *route_id {
                let src = &self.route_stops[i].1;
                let mut out: Vec<usize> = Vec::new();
                let mut j: usize = 0;
                while j < src.len()
                    invariant
                        j <= src@.len(),
                        out@ == src@.take(j as int),
                    decreases src@.len() - j,
                {
                    out.push(src[j]);
                    j = j + 1;
                    proof {
                        assert(src@.take(j as int) =~= src@.take(j - 1).push(src@[j - 1]));
                    }
                }
                proof {
                    assert(src@.take(j as int) =~= src@);
                }
                return out;
            }
            proof {
                assert(rest.subrange(1, rest.len() as int) =~= self.routes().subrange(i + 1, self.routes().len() as int));
            }
            i = i + 1;
        }
        proof {
            assert(self.routes().subrange(i as int, self.routes().len() as int).len() == 0);
        }
        Vec::new()
    }

    /// Number of remaining unspawned trips.
    pub fn remaining_trips(&self) -> (r: usize)
        ensures
            r == self.trips().len() - self.next(),
    {
        proof {
            use_type_invariant(self);
        }
        self.trips.len() - self.next_trip_index
    }
}

/// Law: a spawner that has caught up with a time of day has also caught up
/// with every earlier time of day, so asking again for the same or an
/// earlier time spawns nothing more.
pub proof fn lemma_caught_up_earlier(s: &BusSpawner, later: u32, earlier: u32)
    requires
        s.caught_up(later),
        earlier <= later,
    ensures
        s.caught_up(earlier),
{
}

} // verus!
