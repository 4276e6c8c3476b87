//! Route evaluation: timing, load, distance and constraint checks of a
//! sequence of customers served by one vehicle.

use vstd::prelude::*;

use crate::distance::{DistanceMatrix, lemma_self_distance};
use crate::models::customer::Customer;
use crate::models::route::{Route, Visit};
use crate::models::solution::{Solution, Violation, ViolationType, capped};
use crate::models::vehicle::Vehicle;

verus! {

/// Largest value of a single distance, demand, duration or window bound.
pub open spec fn unit_max() -> int {
    0x1_0000_0000
}

/// The customers and the matrix describe the same locations.
pub open spec fn valid_instance(cs: Seq<Customer>, dm: DistanceMatrix) -> bool {
    dm.wf() && dm.spec_size() == cs.len()
}

/// Every id of `s` names a location below `n`.
pub open spec fn ids_below(s: Seq<usize>, n: nat) -> bool {
    forall|k: int| 0 <= k < s.len() ==> #[trigger] s[k] < n
}

/// Location visited just before stop `k` of `s` (the depot before the first).
pub open spec fn before(depot: int, s: Seq<usize>, k: int) -> int {
    if k == 0 {
        depot
    } else {
        s[k - 1] as int
    }
}

/// When service starts at `c` for a vehicle arriving at `arrival`: it waits
/// for the window to open.
pub open spec fn service_start(c: Customer, arrival: int) -> int {
    match c.spec_window() {
        Some(tw) => if arrival < tw.spec_ready() {
            tw.spec_ready() as int
        } else {
            arrival
        },
        None => arrival,
    }
}

/// Time at which the vehicle leaves the last stop of `s`, having left the
/// depot at time 0 (0 for an empty sequence).
pub open spec fn finish_time(cs: Seq<Customer>, dm: DistanceMatrix, depot: int, s: Seq<usize>) -> int
    decreases s.len(),
{
    if s.len() == 0 {
        0
    } else {
        let c = cs[s.last() as int];
        service_start(c, arrival_time(cs, dm, depot, s)) + c.spec_service()
    }
}

/// Time at which the vehicle reaches the last stop of the non-empty `s`.
pub open spec fn arrival_time(cs: Seq<Customer>, dm: DistanceMatrix, depot: int, s: Seq<usize>) -> int
    decreases s.len(), 0int,
{
    if s.len() == 0 {
        0
    } else {
        finish_time(cs, dm, depot, s.drop_last()) + dm.d(
            before(depot, s, s.len() - 1),
            s.last() as int,
        )
    }
}

/// Whether the vehicle reaches the last stop of the non-empty `s` after its
/// window has closed.
pub open spec fn late_at_last(cs: Seq<Customer>, dm: DistanceMatrix, depot: int, s: Seq<usize>) -> bool {
    match cs[s.last() as int].spec_window() {
        Some(tw) => arrival_time(cs, dm, depot, s) > tw.spec_due(),
        None => false,
    }
}

/// Whether every stop of `s` is reached within its window.
pub open spec fn windows_met(cs: Seq<Customer>, dm: DistanceMatrix, depot: int, s: Seq<usize>) -> bool
    decreases s.len(),
{
    s.len() == 0 || (windows_met(cs, dm, depot, s.drop_last()) && !late_at_last(cs, dm, depot, s))
}

/// Total demand of the customers of `s`.
pub open spec fn load_of(cs: Seq<Customer>, s: Seq<usize>) -> int
    decreases s.len(),
{
    if s.len() == 0 {
        0
    } else {
        load_of(cs, s.drop_last()) + cs[s.last() as int].spec_demand()
    }
}

/// Length of the path from the depot through the stops of `s`, without the
/// return to the depot.
pub open spec fn path_length(dm: DistanceMatrix, depot: int, s: Seq<usize>) -> int
    decreases s.len(),
{
    if s.len() == 0 {
        0
    } else {
        path_length(dm, depot, s.drop_last()) + dm.d(before(depot, s, s.len() - 1), s.last() as int)
    }
}

/// Length of the closed route depot → `s` → depot (0 when `s` is empty).
pub open spec fn route_cost(dm: DistanceMatrix, depot: int, s: Seq<usize>) -> int {
    if s.len() == 0 {
        0
    } else {
        path_length(dm, depot, s) + dm.d(s.last() as int, depot)
    }
}

/// The visit that the evaluator records for stop `k` of `s`.
pub open spec fn expected_visit(
    cs: Seq<Customer>,
    dm: DistanceMatrix,
    depot: int,
    s: Seq<usize>,
    k: int,
) -> Visit {
    Visit {
        customer_id: s[k],
        arrival_time: arrival_time(cs, dm, depot, s.take(k + 1)) as u128,
        departure_time: finish_time(cs, dm, depot, s.take(k + 1)) as u128,
        load_after: load_of(cs, s.take(k + 1)) as u128,
    }
}

/// The late arrivals along `s`, in visiting order.
pub open spec fn window_violations(
    cs: Seq<Customer>,
    dm: DistanceMatrix,
    depot: int,
    s: Seq<usize>,
) -> Seq<Violation>
    decreases s.len(),
{
    if s.len() == 0 {
        Seq::empty()
    } else {
        let rest = window_violations(cs, dm, depot, s.drop_last());
        if late_at_last(cs, dm, depot, s) {
            rest.push(
                Violation {
                    kind: ViolationType::TimeWindowViolated {
                        customer_id: s.last(),
                        arrival: arrival_time(cs, dm, depot, s) as u128,
                        due: cs[s.last() as int].spec_window().unwrap().spec_due(),
                    },
                },
            )
        } else {
            rest
        }
    }
}

/// Total duration of the route: leaving the last stop, then driving back.
pub open spec fn route_duration(cs: Seq<Customer>, dm: DistanceMatrix, depot: int, s: Seq<usize>) -> int {
    finish_time(cs, dm, depot, s) + dm.d(if s.len() == 0 { depot } else { s.last() as int }, depot)
}

/// Every violation of the route `s` driven by `v`: late arrivals, then
/// capacity, distance and duration, each marked as route 0.
pub open spec fn route_violations(cs: Seq<Customer>, dm: DistanceMatrix, v: Vehicle, s: Seq<usize>) -> Seq<Violation> {
    let depot = v.spec_depot() as int;
    let load = load_of(cs, s);
    let dist = route_cost(dm, depot, s);
    let dur = route_duration(cs, dm, depot, s);
    let cap_part = if load > v.spec_capacity() {
        seq![Violation { kind: ViolationType::CapacityExceeded { route_index: 0, load: load as u128, capacity: v.spec_capacity() } }]
    } else {
        Seq::empty()
    };
    let dist_part = match v.spec_max_distance() {
        Some(m) => if dist > m {
            seq![Violation { kind: ViolationType::MaxDistanceExceeded { route_index: 0, distance: dist as u128, max_distance: m } }]
        } else {
            Seq::empty()
        },
        None => Seq::empty(),
    };
    let dur_part = match v.spec_max_duration() {
        Some(m) => if dur > m {
            seq![Violation { kind: ViolationType::MaxDurationExceeded { route_index: 0, duration: dur as u128, max_duration: m } }]
        } else {
            Seq::empty()
        },
        None => Seq::empty(),
    };
    window_violations(cs, dm, depot, s) + cap_part + dist_part + dur_part
}

/// What the evaluator builds for `s`: the visits, the totals and the vehicle.
pub open spec fn built_route(cs: Seq<Customer>, dm: DistanceMatrix, v: Vehicle, s: Seq<usize>, r: Route) -> bool {
    let depot = v.spec_depot() as int;
    &&& r.spec_vehicle_id() == v.spec_id()
    &&& r.spec_visits().len() == s.len()
    &&& forall|k: int| 0 <= k < s.len() ==> #[trigger] r.spec_visits()[k] == expected_visit(cs, dm, depot, s, k)
    &&& r.spec_total_distance() == route_cost(dm, depot, s)
    &&& r.spec_total_duration() == route_duration(cs, dm, depot, s)
    &&& r.spec_total_load() == load_of(cs, s)
}

/// `v` marked as belonging to route `idx` (late arrivals carry no route).
pub open spec fn stamp(v: Violation, idx: usize) -> Violation {
    match v.kind {
        ViolationType::CapacityExceeded { load, capacity, .. } => Violation {
            kind: ViolationType::CapacityExceeded { route_index: idx, load, capacity },
        },
        ViolationType::TimeWindowViolated { .. } => v,
        ViolationType::MaxDistanceExceeded { distance, max_distance, .. } => Violation {
            kind: ViolationType::MaxDistanceExceeded { route_index: idx, distance, max_distance },
        },
        ViolationType::MaxDurationExceeded { duration, max_duration, .. } => Violation {
            kind: ViolationType::MaxDurationExceeded { route_index: idx, duration, max_duration },
        },
    }
}

/// The violations of each route of `routes`, route after route, each
/// marked with its route's index.
pub open spec fn solution_violations(
    cs: Seq<Customer>,
    dm: DistanceMatrix,
    v: Vehicle,
    routes: Seq<Route>,
) -> Seq<Violation>
    decreases routes.len(),
{
    if routes.len() == 0 {
        Seq::empty()
    } else {
        let idx = (routes.len() - 1) as usize;
        solution_violations(cs, dm, v, routes.drop_last()) + route_violations(
            cs,
            dm,
            v,
            routes.last().spec_ids(),
        ).map_values(|x: Violation| stamp(x, idx))
    }
}

/// Cost of `routes` driven by vehicles like `v`: each route's cached
/// distance times the cost per distance, plus the fixed cost.
pub open spec fn solution_cost(v: Vehicle, routes: Seq<Route>) -> int
    decreases routes.len(),
{
    if routes.len() == 0 {
        0
    } else {
        solution_cost(v, routes.drop_last()) + routes.last().spec_total_distance()
            * v.spec_cost_per_distance() + v.spec_fixed_cost()
    }
}

/// Every route of `routes` names only locations below `n`.
pub open spec fn routes_below(routes: Seq<Route>, n: nat) -> bool {
    forall|i: int| 0 <= i < routes.len() ==> ids_below(#[trigger] routes[i].spec_ids(), n)
}

/// The load of two sequences served one after the other is the sum of
/// their loads.
pub proof fn lemma_load_concat(cs: Seq<Customer>, a: Seq<usize>, b: Seq<usize>)
    ensures
        load_of(cs, a + b) == load_of(cs, a) + load_of(cs, b),
    decreases b.len(),
{
    if b.len() > 0 {
        assert((a + b).drop_last() =~= a + b.drop_last());
        lemma_load_concat(cs, a, b.drop_last());
    } else {
        assert(a + b =~= a);
    }
}

/// Inserting a customer adds its demand to the load.
pub proof fn lemma_load_insert(cs: Seq<Customer>, s: Seq<usize>, p: int, c: usize)
    requires
        0 <= p <= s.len(),
    ensures
        load_of(cs, s.insert(p, c)) == load_of(cs, s) + cs[c as int].spec_demand(),
{
    assert(s.insert(p, c) =~= s.take(p) + seq![c] + s.skip(p));
    assert(s =~= s.take(p) + s.skip(p));
    lemma_load_concat(cs, s.take(p) + seq![c], s.skip(p));
    lemma_load_concat(cs, s.take(p), seq![c]);
    lemma_load_concat(cs, s.take(p), s.skip(p));
    assert(seq![c].drop_last() =~= Seq::<usize>::empty());
    assert(load_of(cs, seq![c]) == load_of(cs, Seq::<usize>::empty()) + cs[c as int].spec_demand());
}

/// Removing a customer takes its demand off the load.
pub proof fn lemma_load_remove(cs: Seq<Customer>, s: Seq<usize>, p: int)
    requires
        0 <= p < s.len(),
    ensures
        load_of(cs, s.remove(p)) + cs[s[p] as int].spec_demand() == load_of(cs, s),
{
    assert(s.remove(p).insert(p, s[p]) =~= s);
    lemma_load_insert(cs, s.remove(p), p, s[p]);
}

/// Serving a sequence backwards carries the same load.
pub proof fn lemma_load_reverse(cs: Seq<Customer>, s: Seq<usize>)
    ensures
        load_of(cs, s.reverse()) == load_of(cs, s),
    decreases s.len(),
{
    if s.len() > 0 {
        lemma_load_reverse(cs, s.drop_last());
        assert(s.reverse() =~= seq![s.last()] + s.drop_last().reverse());
        lemma_load_concat(cs, seq![s.last()], s.drop_last().reverse());
        assert(seq![s.last()].drop_last() =~= Seq::<usize>::empty());
        assert(load_of(cs, seq![s.last()]) == load_of(cs, Seq::<usize>::empty()) + cs[s.last() as int].spec_demand());
    } else {
        assert(s.reverse() =~= s);
    }
}

/// Bounds on the quantities accumulated along `s`.
pub proof fn lemma_route_bounds(cs: Seq<Customer>, dm: DistanceMatrix, depot: int, s: Seq<usize>)
    ensures
        0 <= finish_time(cs, dm, depot, s) <= s.len() * 0x4_0000_0000,
        0 <= path_length(dm, depot, s) <= s.len() * unit_max(),
        0 <= load_of(cs, s) <= s.len() * unit_max(),
        s.len() > 0 ==> 0 <= arrival_time(cs, dm, depot, s) <= (s.len() - 1) * 0x4_0000_0000 + unit_max(),
    decreases s.len(),
{
    if s.len() > 0 {
        lemma_route_bounds(cs, dm, depot, s.drop_last());
    }
}

/// Along a route built by the evaluator the load equals the customers'
/// total demand, every departure comes at least the service duration after
/// the arrival, and every arrival comes at least the travel time after the
/// previous departure.
pub proof fn lemma_built_route_timing(
    cs: Seq<Customer>,
    dm: DistanceMatrix,
    v: Vehicle,
    s: Seq<usize>,
    r: Route,
)
    requires
        built_route(cs, dm, v, s, r),
        s.len() <= usize::MAX,
    ensures
        r.spec_total_load() == load_of(cs, s),
        forall|k: int|
            0 <= k < s.len() ==> (#[trigger] r.spec_visits()[k]).departure_time >= r.spec_visits()[k].arrival_time
                + cs[s[k] as int].spec_service(),
        forall|k: int|
            0 <= k < s.len() - 1 ==> (#[trigger] r.spec_visits()[k + 1]).arrival_time >= r.spec_visits()[k].departure_time
                + dm.d(s[k] as int, s[k + 1] as int),
{
    let depot = v.spec_depot() as int;
    assert forall|k: int| 0 <= k < s.len() implies (#[trigger] r.spec_visits()[k]).departure_time
        >= r.spec_visits()[k].arrival_time + cs[s[k] as int].spec_service() by {
        let t = s.take(k + 1);
        lemma_route_bounds(cs, dm, depot, t);
        assert(t.last() == s[k]);
        assert(finish_time(cs, dm, depot, t) >= arrival_time(cs, dm, depot, t) + cs[s[k] as int].spec_service());
        assert(r.spec_visits()[k] == expected_visit(cs, dm, depot, s, k));
    }
    assert forall|k: int| 0 <= k < s.len() - 1 implies (#[trigger] r.spec_visits()[k + 1]).arrival_time
        >= r.spec_visits()[k].departure_time + dm.d(s[k] as int, s[k + 1] as int) by {
        let t = s.take(k + 2);
        lemma_route_bounds(cs, dm, depot, t);
        lemma_route_bounds(cs, dm, depot, s.take(k + 1));
        assert(t.drop_last() =~= s.take(k + 1));
        assert(t.last() == s[k + 1]);
        assert(before(depot, t, k + 1) == s[k] as int);
        assert(r.spec_visits()[k + 1] == expected_visit(cs, dm, depot, s, k + 1));
        assert(r.spec_visits()[k] == expected_visit(cs, dm, depot, s, k));
    }
}

/// Builds routes for one vehicle of a problem and checks their constraints.
pub struct RouteEvaluator<'a> {
    customers: &'a [Customer],
    distances: &'a DistanceMatrix,
    vehicle: &'a Vehicle,
}

impl<'a> RouteEvaluator<'a> {
    pub closed spec fn spec_customers(&self) -> Seq<Customer> {
        self.customers@
    }

    pub closed spec fn spec_distances(&self) -> DistanceMatrix {
        *self.distances
    }

    pub closed spec fn spec_vehicle(&self) -> Vehicle {
        *self.vehicle
    }

    /// The problem data agree and the vehicle's depot is a location.
    pub open spec fn valid(&self) -> bool {
        &&& valid_instance(self.spec_customers(), self.spec_distances())
        &&& self.spec_vehicle().spec_depot() < self.spec_customers().len()
    }

    pub fn new(
        customers: &'a [Customer],
        distances: &'a DistanceMatrix,
        vehicle: &'a Vehicle,
    ) -> (r: RouteEvaluator<'a>)
        ensures
            r.spec_customers() == customers@,
            r.spec_distances() == *distances,
            r.spec_vehicle() == *vehicle,
    {
        RouteEvaluator { customers, distances, vehicle }
    }

    /// Simulates the vehicle leaving the depot at time 0, empty, and serving
    /// `customer_ids` in order; returns the route and its violations.
    pub fn build_route(&self, customer_ids: &[usize]) -> (r: (Route, Vec<Violation>))
        requires
            self.valid(),
            ids_below(customer_ids@, self.spec_customers().len()),
        ensures
            built_route(self.spec_customers(), self.spec_distances(), self.spec_vehicle(), customer_ids@, r.0),
            r.1@ == route_violations(self.spec_customers(), self.spec_distances(), self.spec_vehicle(), customer_ids@),
    {
        let ghost cs = self.customers@;
        let ghost dm = *self.distances;
        let ghost s = customer_ids@;
        let mut route = Route::new(self.vehicle.id());
        let mut violations: Vec<Violation> = Vec::new();
        let depot = self.vehicle.depot_id();
        let ghost gd = depot as int;
        let mut current_time: u128 = 0;
        let mut current_load: u128 = 0;
        let mut total_distance: u128 = 0;
        let mut prev: usize = depot;
        let mut k: usize = 0;
        assert(s.take(0) =~= Seq::<usize>::empty());
        while k < customer_ids.len()
            invariant
                self.valid(),
                cs == self.spec_customers(),
                dm == self.spec_distances(),
                s == customer_ids@,
                ids_below(s, cs.len()),
                depot == self.spec_vehicle().spec_depot(),
                gd == depot as int,
                k <= s.len(),
                prev as int == before(gd, s, k as int),
                prev < cs.len(),
                current_time == finish_time(cs, dm, gd, s.take(k as int)),
                current_load == load_of(cs, s.take(k as int)),
                total_distance == path_length(dm, gd, s.take(k as int)),
                route.spec_vehicle_id() == self.spec_vehicle().spec_id(),
                route.spec_total_distance() == 0,
                route.spec_total_duration() == 0,
                route.spec_total_load() == current_load,
                route.spec_visits().len() == k,
                forall|j: int| 0 <= j < k ==> #[trigger] route.spec_visits()[j] == expected_visit(cs, dm, gd, s, j),
                violations@ == window_violations(cs, dm, gd, s.take(k as int)),
            decreases s.len() - k,
        {
            let cid = customer_ids[k];
            let ghost t = s.take(k + 1);
            assert(t.drop_last() =~= s.take(k as int));
            assert(t.last() == cid);
            assert(before(gd, t, k as int) == before(gd, s, k as int));
            proof {
                lemma_route_bounds(cs, dm, gd, t);
            }
            let travel = self.distances.get(prev, cid);
            total_distance = total_distance + travel as u128;
            let arrival: u128 = current_time + travel as u128;
            assert(arrival == arrival_time(cs, dm, gd, t));
            let customer = &self.customers[cid];
            let service_start: u128 = match customer.time_window() {
                Some(tw) => {
                    if tw.is_violated(arrival) {
                        violations.push(
                            Violation::new(
                                ViolationType::TimeWindowViolated {
                                    customer_id: cid,
                                    arrival,
                                    due: tw.due(),
                                },
                            ),
                        );
                    }
                    arrival + tw.waiting_time(arrival)
                },
                None => arrival,
            };
            let departure: u128 = service_start + customer.service_duration() as u128;
            current_load = current_load + customer.demand() as u128;
            let visit = Visit {
                customer_id: cid,
                arrival_time: arrival,
                departure_time: departure,
                load_after: current_load,
            };
            let ghost before_push = route.spec_visits();
            route.push_visit(visit);
            current_time = departure;
            prev = cid;
            k += 1;
            assert forall|j: int| 0 <= j < k implies #[trigger] route.spec_visits()[j]
                == expected_visit(cs, dm, gd, s, j) by {
                if j < k - 1 {
                    assert(route.spec_visits()[j] == before_push[j]);
                }
            }
        }
        assert(s.take(k as int) =~= s);
        let return_travel = self.distances.get(prev, depot);
        proof {
            lemma_route_bounds(cs, dm, gd, s);
            lemma_self_distance(dm, gd);
        }
        total_distance = total_distance + return_travel as u128;
        let total_duration: u128 = current_time + return_travel as u128;
        route.set_total_distance(total_distance);
        route.set_total_duration(total_duration);
        let ghost wv = violations@;
        let capacity = self.vehicle.capacity();
        if current_load > capacity as u128 {
            violations.push(
                Violation::new(
                    ViolationType::CapacityExceeded { route_index: 0, load: current_load, capacity },
                ),
            );
        }
        let ghost cv = violations@;
        match self.vehicle.max_distance() {
            Some(max_d) => {
                if total_distance > max_d as u128 {
                    violations.push(
                        Violation::new(
                            ViolationType::MaxDistanceExceeded {
                                route_index: 0,
                                distance: total_distance,
                                max_distance: max_d,
                            },
                        ),
                    );
                }
            },
            None => {},
        }
        let ghost dv = violations@;
        match self.vehicle.max_duration() {
            Some(max_t) => {
                if total_duration > max_t as u128 {
                    violations.push(
                        Violation::new(
                            ViolationType::MaxDurationExceeded {
                                route_index: 0,
                                duration: total_duration,
                                max_duration: max_t,
                            },
                        ),
                    );
                }
            },
            None => {},
        }
        assert(violations@ =~= route_violations(cs, dm, *self.vehicle, s));
        (route, violations)
    }
    /// Rebuilds every route of `solution` from its customers and gathers the
    /// violations, marked with their route's index; the cost adds up each
    /// route's cached distance times the cost per distance, plus the fixed
    /// cost (held at `u128::MAX` should it not fit).
    pub fn evaluate_solution(&self, solution: &Solution) -> (r: (u128, Vec<Violation>))
        requires
            self.valid(),
            routes_below(solution.spec_routes(), self.spec_customers().len()),
        ensures
            r.0 == capped(solution_cost(self.spec_vehicle(), solution.spec_routes()), u128::MAX as int),
            r.1@ == solution_violations(
                self.spec_customers(),
                self.spec_distances(),
                self.spec_vehicle(),
                solution.spec_routes(),
            ),
    {
        let routes = solution.routes();
        let ghost rs = routes@;
        let mut total_cost: u128 = 0;
        let mut all: Vec<Violation> = Vec::new();
        let mut idx: usize = 0;
        while idx < routes.len()
            invariant
                self.valid(),
                rs == routes@,
                rs == solution.spec_routes(),
                routes_below(rs, self.spec_customers().len()),
                idx <= rs.len(),
                total_cost == capped(solution_cost(self.spec_vehicle(), rs.take(idx as int)), u128::MAX as int),
                all@ == solution_violations(
                    self.spec_customers(),
                    self.spec_distances(),
                    self.spec_vehicle(),
                    rs.take(idx as int),
                ),
            decreases rs.len() - idx,
        {
            let ghost pre = rs.take(idx as int);
            assert(rs.take(idx + 1).drop_last() =~= pre);
            let ids = routes[idx].customer_ids();
            assert(ids_below(rs[idx as int].spec_ids(), self.spec_customers().len()));
            let (_, vs) = self.build_route(&ids);
            let mut marked: Vec<Violation> = Vec::new();
            let mut m: usize = 0;
            while m < vs.len()
                invariant
                    m <= vs@.len(),
                    marked@ =~= vs@.take(m as int).map_values(|x: Violation| stamp(x, idx)),
                decreases vs@.len() - m,
            {
                let v = vs[m];
                let stamped = match v.kind {
                    ViolationType::CapacityExceeded { load, capacity, .. } => Violation {
                        kind: ViolationType::CapacityExceeded { route_index: idx, load, capacity },
                    },
                    ViolationType::TimeWindowViolated { .. } => v,
                    ViolationType::MaxDistanceExceeded { distance, max_distance, .. } => Violation {
                        kind: ViolationType::MaxDistanceExceeded {
                            route_index: idx,
                            distance,
                            max_distance,
                        },
                    },
                    ViolationType::MaxDurationExceeded { duration, max_duration, .. } => Violation {
                        kind: ViolationType::MaxDurationExceeded {
                            route_index: idx,
                            duration,
                            max_duration,
                        },
                    },
                };
                marked.push(stamped);
                m += 1;
                assert(vs@.take(m as int) =~= vs@.take(m - 1 as int).push(v));
            }
            assert(vs@.take(m as int) =~= vs@);
            let ghost before_append = all@;
            all.append(&mut marked);
            let dist = routes[idx].total_distance();
            let scaled: u128 = match dist.checked_mul(self.vehicle.cost_per_distance() as u128) {
                Some(p) => p,
                None => u128::MAX,
            };
            let term = scaled.saturating_add(self.vehicle.fixed_cost() as u128);
            total_cost = total_cost.saturating_add(term);
            idx += 1;
            assert(all@ =~= solution_violations(
                self.spec_customers(),
                self.spec_distances(),
                self.spec_vehicle(),
                rs.take(idx as int),
            ));
        }
        assert(rs.take(idx as int) =~= rs);
        (total_cost, all)
    }
}

} // verus!
