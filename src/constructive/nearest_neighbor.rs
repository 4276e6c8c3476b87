//! Nearest-neighbour construction.

use vstd::prelude::*;

use crate::constructive::{
    all_set_after_depot, customer_ids, flagged, lemma_flag_set, lemma_flagged_len, lemma_flagged_member, lemma_none_flagged,
    lemma_flags_cover, unset_positions,
};
use crate::distance::DistanceMatrix;
use crate::evaluation::{
    RouteEvaluator, arrival_time, before, built_route, finish_time, ids_below, late_at_last,
    lemma_route_bounds, load_of, valid_instance, windows_met,
};
use crate::models::customer::Customer;
use crate::models::route::{Route, joined};
use crate::models::solution::{Solution, capped, routes_distance, served_ids};
use crate::models::vehicle::Vehicle;
use crate::route_set::{lemma_built_ids, lemma_empty_customers, lemma_joined_customers, route_ids};

verus! {

broadcast use vstd::multiset::group_multiset_axioms;

/// `route` was built by the evaluator for `v` from its own customers, is
/// not empty, fits `v`'s capacity and, when `windows` is set, reaches every
/// customer before its window closes.
pub open spec fn route_fits(cs: Seq<Customer>, dm: DistanceMatrix, v: Vehicle, windows: bool, route: Route) -> bool {
    &&& route.spec_visits().len() > 0
    &&& built_route(cs, dm, v, route.spec_ids(), route)
    &&& ids_below(route.spec_ids(), cs.len())
    &&& load_of(cs, route.spec_ids()) <= v.spec_capacity()
    &&& windows ==> windows_met(cs, dm, v.spec_depot() as int, route.spec_ids())
}

/// `v`, having served `s` from its depot, cannot take customer `c` next:
/// its demand would exceed the capacity or, when `windows` is set, the
/// vehicle would arrive after `c`'s window has closed.
pub open spec fn rejects(cs: Seq<Customer>, dm: DistanceMatrix, v: Vehicle, windows: bool, s: Seq<usize>, c: usize) -> bool {
    let depot = v.spec_depot() as int;
    ||| load_of(cs, s) + cs[c as int].spec_demand() > v.spec_capacity()
    ||| windows && (cs[c as int].spec_window() matches Some(tw) && finish_time(cs, dm, depot, s) + dm.d(
        before(depot, s, s.len() as int),
        c as int,
    ) > tw.spec_due())
}

/// `route` fits one of the vehicles of the fleet.
pub open spec fn fits_fleet(cs: Seq<Customer>, dm: DistanceMatrix, vehicles: Seq<Vehicle>, windows: bool, route: Route) -> bool {
    exists|j: int| 0 <= j < vehicles.len() && route_fits(cs, dm, vehicles[j], windows, route)
}

/// Every customer is served once or left unassigned once.
pub open spec fn partitions_customers(r: Solution, n: nat) -> bool {
    served_ids(r.spec_routes()).to_multiset().add(r.spec_unassigned().to_multiset()) == customer_ids(n)
}

/// What a nearest-neighbour construction returns for the fleet `vehicles`.
pub open spec fn nn_result(cs: Seq<Customer>, dm: DistanceMatrix, vehicles: Seq<Vehicle>, windows: bool, r: Solution) -> bool {
    &&& partitions_customers(r, cs.len())
    &&& r.spec_routes().len() <= vehicles.len()
    &&& forall|k: int| 0 <= k < r.spec_routes().len() ==> #[trigger] fits_fleet(cs, dm, vehicles, windows, r.spec_routes()[k])
    &&& r.spec_total_cost() == capped(routes_distance(r.spec_routes()), u128::MAX as int)
    &&& cs.len() <= 1 ==> r.spec_routes().len() == 0 && r.spec_unassigned().len() == 0
    &&& r.spec_unassigned().len() > 0 && vehicles.len() > 0 ==> exists|s: Seq<usize>|
        #[trigger] rejects_all(cs, dm, vehicles.last(), windows, s, r.spec_unassigned()) && (s.len() == 0 || (
        r.spec_routes().len() > 0 && s == r.spec_routes().last().spec_ids()))
}

/// `v`, having served `s`, can take none of `customers` next.
pub open spec fn rejects_all(
    cs: Seq<Customer>,
    dm: DistanceMatrix,
    v: Vehicle,
    windows: bool,
    s: Seq<usize>,
    customers: Seq<usize>,
) -> bool {
    forall|q: int| 0 <= q < customers.len() ==> #[trigger] rejects(cs, dm, v, windows, s, customers[q])
}

/// The problem data agree and every vehicle's depot is a location.
pub open spec fn valid_fleet(cs: Seq<Customer>, dm: DistanceMatrix, vehicles: Seq<Vehicle>) -> bool {
    &&& valid_instance(cs, dm)
    &&& forall|j: int| 0 <= j < vehicles.len() ==> (#[trigger] vehicles[j]).spec_depot() < cs.len()
}

/// Grows one route for `vehicle` from its depot, each time taking the
/// nearest unvisited customer that fits the remaining capacity (and, when
/// `windows` is set, can be reached before its window closes).
fn grow_route(
    customers: &[Customer],
    distances: &DistanceMatrix,
    vehicle: &Vehicle,
    windows: bool,
    visited: &mut Vec<bool>,
) -> (r: Vec<usize>)
    requires
        valid_instance(customers@, *distances),
        vehicle.spec_depot() < customers@.len(),
        old(visited)@.len() == customers@.len(),
        customers@.len() > 1,
    ensures
        final(visited)@.len() == customers@.len(),
        flagged(final(visited)@, true) == flagged(old(visited)@, true).add(r@.to_multiset()),
        flagged(final(visited)@, false).add(r@.to_multiset()) == flagged(old(visited)@, false),
        forall|i: int| 0 <= i < customers@.len() && old(visited)@[i] ==> #[trigger] final(visited)@[i],
        ids_below(r@, customers@.len()),
        load_of(customers@, r@) <= vehicle.spec_capacity(),
        windows ==> windows_met(customers@, *distances, vehicle.spec_depot() as int, r@),
        forall|c: int| 1 <= c < customers@.len() && !final(visited)@[c] ==> #[trigger] rejects(
            customers@,
            *distances,
            *vehicle,
            windows,
            r@,
            c as usize,
        ),
{
    let ghost cs = customers@;
    let ghost dm = *distances;
    let ghost v0 = visited@;
    let n = customers.len();
    let depot = vehicle.depot_id();
    let ghost gd = depot as int;
    let capacity = vehicle.capacity() as u128;
    let mut current: usize = depot;
    let mut current_time: u128 = 0;
    let mut current_load: u128 = 0;
    let mut route_customers: Vec<usize> = Vec::new();
    proof {
        lemma_empty_customers(route_customers@);
        assert(flagged(visited@, true).add(route_customers@.to_multiset()) =~= flagged(visited@, true));
        assert(flagged(visited@, false).add(route_customers@.to_multiset()) =~= flagged(visited@, false));
    }
    loop
        invariant
            valid_instance(cs, dm),
            cs == customers@,
            dm == *distances,
            n == cs.len(),
            n > 1,
            depot == vehicle.spec_depot(),
            gd == depot as int,
            depot < n,
            capacity == vehicle.spec_capacity(),
            visited@.len() == n,
            flagged(visited@, true) == flagged(v0, true).add(route_customers@.to_multiset()),
            flagged(visited@, false).add(route_customers@.to_multiset()) == flagged(v0, false),
            forall|i: int| 0 <= i < n && v0[i] ==> #[trigger] visited@[i],
            ids_below(route_customers@, n as nat),
            route_customers@.len() < n,
            current as int == before(gd, route_customers@, route_customers@.len() as int),
            current < n,
            current_load == load_of(cs, route_customers@),
            current_load <= capacity,
            current_time == finish_time(cs, dm, gd, route_customers@),
            windows ==> windows_met(cs, dm, gd, route_customers@),
        ensures
            forall|c: int| 1 <= c < n && !visited@[c] ==> #[trigger] rejects(
                cs,
                dm,
                *vehicle,
                windows,
                route_customers@,
                c as usize,
            ),
        decreases flagged(visited@, false).len(),
    {
        proof {
            lemma_route_bounds(cs, dm, gd, route_customers@);
            lemma_flagged_len(visited@, false);
        }
        let mut best: Option<usize> = None;
        let mut best_d: u32 = 0;
        let mut i: usize = 1;
        while i < n
            invariant
                valid_instance(cs, dm),
                cs == customers@,
                dm == *distances,
                n == cs.len(),
                visited@.len() == n,
                current < n,
                1 <= i <= n,
                current_time <= route_customers@.len() * 0x4_0000_0000,
                capacity == vehicle.spec_capacity(),
                route_customers@.len() < n,
                current_load <= capacity,
                best matches Some(b) ==> 1 <= b < n && !visited@[b as int] && current_load + cs[b as int].spec_demand() <= capacity
                    && (windows && cs[b as int].spec_window().is_some() ==> current_time + dm.d(current as int, b as int)
                        <= cs[b as int].spec_window().unwrap().spec_due()),
                best is None ==> forall|c: int| 1 <= c < i && !visited@[c] ==> #[trigger] rejects(
                    cs,
                    dm,
                    *vehicle,
                    windows,
                    route_customers@,
                    c as usize,
                ),
                current_load == load_of(cs, route_customers@),
                current_time == finish_time(cs, dm, gd, route_customers@),
                current as int == before(gd, route_customers@, route_customers@.len() as int),
                depot == vehicle.spec_depot(),
                gd == depot as int,
            decreases n - i,
        {
            if !visited[i] {
                let demand = customers[i].demand() as u128;
                if current_load + demand <= capacity {
                    let d = distances.get(current, i);
                    let arrival: u128 = current_time + d as u128;
                    let reachable = match customers[i].time_window() {
                        Some(tw) => !windows || arrival <= tw.due() as u128,
                        None => true,
                    };
                    if reachable {
                        let closer = match best {
                            None => true,
                            Some(_) => d < best_d,
                        };
                        if closer {
                            best = Some(i);
                            best_d = d;
                        }
                    }
                }
            }
            i += 1;
        }
        match best {
            None => {
                break;
            },
            Some(next) => {
                let ghost pre_v = visited@;
                let ghost pre_r = route_customers@;
                let travel = distances.get(current, next);
                let arrival: u128 = current_time + travel as u128;
                let start: u128 = match customers[next].time_window() {
                    Some(tw) => if arrival < tw.ready() as u128 {
                        tw.ready() as u128
                    } else {
                        arrival
                    },
                    None => arrival,
                };
                visited.set(next, true);
                route_customers.push(next);
                let ghost t = route_customers@;
                proof {
                    lemma_flag_set(pre_v, next as int);
                    vstd::seq_lib::to_multiset_build(pre_r, next);
                    assert(t.drop_last() =~= pre_r);
                    assert(before(gd, t, t.len() - 1) == current as int);
                    assert(arrival == arrival_time(cs, dm, gd, t));
                    assert(flagged(visited@, true) =~= flagged(v0, true).add(route_customers@.to_multiset()));
                    assert(flagged(visited@, false).add(route_customers@.to_multiset()) =~= flagged(v0, false));
                    vstd::seq_lib::to_multiset_len(route_customers@);
                    lemma_flagged_len(visited@, true);
                    lemma_flagged_len(v0, true);
                    assert(flagged(visited@, false).len() < flagged(pre_v, false).len());
                }
                current_time = start + customers[next].service_duration() as u128;
                current_load = current_load + customers[next].demand() as u128;
                current = next;
                assert(windows ==> !late_at_last(cs, dm, gd, t));
            },
        }
    }
    route_customers
}

/// Builds routes vehicle after vehicle by nearest neighbour; customers left
/// when the vehicles run out are unassigned.
pub(crate) fn nn_core(
    customers: &[Customer],
    distances: &DistanceMatrix,
    vehicles: &[Vehicle],
    windows: bool,
) -> (r: Solution)
    requires
        valid_fleet(customers@, *distances, vehicles@),
    ensures
        nn_result(customers@, *distances, vehicles@, windows, r),
{
    let ghost cs = customers@;
    let ghost dm = *distances;
    let n = customers.len();
    if n <= 1 {
        let s = Solution::new();
        proof {
            lemma_empty_customers(s.spec_unassigned());
            lemma_joined_customers(route_ids(s.spec_routes()));
            assert(route_ids(s.spec_routes()).len() == 0);
            assert(served_ids(s.spec_routes()).to_multiset() =~= vstd::multiset::Multiset::empty());
            assert(customer_ids(n as nat) =~= vstd::multiset::Multiset::empty());
            assert(served_ids(s.spec_routes()).to_multiset().add(s.spec_unassigned().to_multiset())
                =~= customer_ids(cs.len()));
        }
        return s;
    }
    let mut visited: Vec<bool> = vec![false; n];
    visited.set(0, true);
    let mut solution = Solution::new();
    proof {
        lemma_joined_customers(route_ids(solution.spec_routes()));
        lemma_none_flagged(visited@, true);
        lemma_empty_customers(solution.spec_unassigned());
    }
    let mut vehicle_idx: usize = 0;
    let ghost mut last_rc: Seq<usize> = Seq::empty();
    loop
        invariant_except_break
            solution.spec_unassigned() == Seq::<usize>::empty(),
        invariant
            vehicle_idx > 0 ==> (last_rc.len() == 0 || (solution.spec_routes().len() > 0
                && last_rc == solution.spec_routes().last().spec_ids())),
            vehicle_idx > 0 ==> forall|c: int| 1 <= c < n && !visited@[c] ==> #[trigger] rejects(
                cs,
                dm,
                vehicles@[vehicle_idx - 1],
                windows,
                last_rc,
                c as usize,
            ),
            valid_fleet(cs, dm, vehicles@),
            cs == customers@,
            dm == *distances,
            n == cs.len(),
            n > 1,
            visited@.len() == n,
            served_ids(solution.spec_routes()).to_multiset() == flagged(visited@, true),
            forall|k: int| 0 <= k < solution.spec_routes().len() ==> #[trigger] fits_fleet(cs, dm, vehicles@, windows, solution.spec_routes()[k]),
            vehicle_idx <= vehicles@.len(),
            solution.spec_routes().len() <= vehicle_idx,
        ensures
            solution.spec_routes().len() <= vehicles@.len(),
            served_ids(solution.spec_routes()).to_multiset() == flagged(visited@, true),
            solution.spec_unassigned().to_multiset() == flagged(visited@, false),
            visited@.len() == n,
            forall|k: int| 0 <= k < solution.spec_routes().len() ==> #[trigger] fits_fleet(cs, dm, vehicles@, windows, solution.spec_routes()[k]),
            solution.spec_unassigned().len() > 0 && vehicles@.len() > 0 ==> exists|s: Seq<usize>|
                #[trigger] rejects_all(cs, dm, vehicles@.last(), windows, s, solution.spec_unassigned()) && (s.len() == 0 || (
                solution.spec_routes().len() > 0 && s == solution.spec_routes().last().spec_ids())),
        decreases vehicles@.len() - vehicle_idx,
    {
        if vehicle_idx >= vehicles.len() {
            let un = unset_positions(&visited);
            let ghost routes_before = solution.spec_routes();
            let mut k: usize = 0;
            while k < un.len()
                invariant
                    solution.spec_routes() == routes_before,
                    k <= un@.len(),
                    solution.spec_unassigned() == un@.take(k as int),
                    served_ids(solution.spec_routes()).to_multiset() == flagged(visited@, true),
                    forall|q: int| 0 <= q < solution.spec_routes().len() ==> #[trigger] fits_fleet(cs, dm, vehicles@, windows, solution.spec_routes()[q]),
                decreases un@.len() - k,
            {
                let ghost pre = solution.spec_routes();
                solution.add_unassigned(un[k]);
                k += 1;
                assert(solution.spec_unassigned() =~= un@.take(k as int));
                assert(solution.spec_routes() == pre);
            }
            assert(un@.take(k as int) =~= un@);
            proof {
                if vehicles@.len() > 0 {
                    assert(vehicles@[vehicle_idx - 1] == vehicles@.last());
                    assert forall|q: int| 0 <= q < un@.len() implies #[trigger] rejects(
                        cs,
                        dm,
                        vehicles@.last(),
                        windows,
                        last_rc,
                        un@[q],
                    ) by {
                        let x = un@[q];
                        assert(un@.contains(x));
                        vstd::seq_lib::to_multiset_contains(un@, x);
                        lemma_flagged_member(visited@, false, x);
                        assert(1 <= x < n && !visited@[x as int]);
                        assert(rejects(cs, dm, vehicles@[vehicle_idx - 1], windows, last_rc, (x as int) as usize));
                    }
                    assert(rejects_all(cs, dm, vehicles@.last(), windows, last_rc, solution.spec_unassigned()));
                }
            }
            break;
        }
        let vehicle = &vehicles[vehicle_idx];
        let ghost pre_v = visited@;
        let rc = grow_route(customers, distances, vehicle, windows, &mut visited);
        proof {
            last_rc = rc@;
        }
        if rc.len() > 0 {
            let evaluator = RouteEvaluator::new(customers, distances, vehicle);
            let (route, _) = evaluator.build_route(rc.as_slice());
            proof {
                lemma_built_ids(cs, dm, *vehicle, rc@, route);
            }
            let ghost pre = solution.spec_routes();
            solution.add_route(route);
            proof {
                let post = solution.spec_routes();
                assert(route_ids(post) =~= route_ids(pre).push(rc@));
                assert(route_ids(post).drop_last() =~= route_ids(pre));
                vstd::seq_lib::lemma_multiset_commutative(joined(route_ids(pre)), rc@);
                assert(route_fits(cs, dm, vehicles@[vehicle_idx as int], windows, route));
                assert forall|k: int| 0 <= k < post.len() implies #[trigger] fits_fleet(cs, dm, vehicles@, windows, post[k]) by {
                    if k < pre.len() {
                        assert(post[k] == pre[k]);
                    } else {
                        assert(post[k] == route);
                    }
                }
            }
        } else {
            proof {
                lemma_empty_customers(rc@);
                assert(flagged(visited@, true) =~= flagged(pre_v, true));
            }
        }
        vehicle_idx += 1;
        if all_set_after_depot(&visited) {
            proof {
                lemma_none_flagged(visited@, false);
                lemma_empty_customers(solution.spec_unassigned());
            }
            break;
        }
    }
    proof {
        lemma_flags_cover(visited@);
    }
    let total = solution.total_distance();
    solution.set_total_cost(total);
    solution
}

/// Nearest-neighbour construction: for each vehicle in turn, starting at
/// its depot, repeatedly serve the nearest unvisited customer whose demand
/// fits the remaining capacity; close the route when none fits. Customers
/// left when the vehicles run out are unassigned.
pub fn nearest_neighbor(customers: &[Customer], distances: &DistanceMatrix, vehicles: &[Vehicle]) -> (r: Solution)
    requires
        valid_fleet(customers@, *distances, vehicles@),
    ensures
        nn_result(customers@, *distances, vehicles@, false, r),
{
    nn_core(customers, distances, vehicles, false)
}

} // verus!
