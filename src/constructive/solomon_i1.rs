//! Solomon's I1 insertion construction.

use vstd::prelude::*;

use crate::constructive::customer_ids;
use crate::constructive::nearest_neighbor::partitions_customers;
use crate::distance::DistanceMatrix;
use crate::evaluation::{
    RouteEvaluator, arrival_time, before, built_route, finish_time, ids_below, late_at_last,
    lemma_route_bounds, load_of, valid_instance, windows_met,
};
use crate::local_search::extend_range;
use crate::models::customer::Customer;
use crate::models::solution::{Solution, capped, routes_distance, served_ids};
use crate::models::vehicle::Vehicle;
use crate::route_set::{lemma_empty_customers, lemma_joined_customers, push_built_route, route_ids, route_load};

verus! {

broadcast use vstd::multiset::group_multiset_axioms;

/// Position in `unrouted` of the first customer farthest from `depot`.
pub fn farthest_from_depot(unrouted: &Vec<usize>, depot: usize, distances: &DistanceMatrix) -> (r: usize)
    requires
        unrouted@.len() > 0,
        distances.wf(),
        depot < distances.spec_size(),
        ids_below(unrouted@, distances.spec_size()),
    ensures
        r < unrouted@.len(),
        forall|k: int| 0 <= k < unrouted@.len() ==> distances.d(depot as int, #[trigger] unrouted@[k] as int)
            <= distances.d(depot as int, unrouted@[r as int] as int),
        forall|k: int| 0 <= k < r ==> distances.d(depot as int, #[trigger] unrouted@[k] as int)
            < distances.d(depot as int, unrouted@[r as int] as int),
{
    let mut best_idx: usize = 0;
    let mut best_dist: u32 = distances.get(depot, unrouted[0]);
    let mut i: usize = 1;
    while i < unrouted.len()
        invariant
            distances.wf(),
            depot < distances.spec_size(),
            ids_below(unrouted@, distances.spec_size()),
            1 <= i <= unrouted@.len(),
            best_idx < i,
            best_dist == distances.d(depot as int, unrouted@[best_idx as int] as int),
            forall|k: int| 0 <= k < i ==> distances.d(depot as int, #[trigger] unrouted@[k] as int) <= best_dist,
            forall|k: int| 0 <= k < best_idx ==> distances.d(depot as int, #[trigger] unrouted@[k] as int) < best_dist,
        decreases unrouted@.len() - i,
    {
        let d = distances.get(depot, unrouted[i]);
        if d > best_dist {
            best_dist = d;
            best_idx = i;
        }
        i += 1;
    }
    best_idx
}

/// Whether a vehicle leaving `depot` at time 0 and serving `route` in order,
/// waiting for windows to open, reaches every customer before its window
/// closes.
fn is_tw_feasible(route: &[usize], depot: usize, customers: &[Customer], distances: &DistanceMatrix) -> (r: bool)
    requires
        valid_instance(customers@, *distances),
        depot < customers@.len(),
        ids_below(route@, customers@.len()),
    ensures
        r == windows_met(customers@, *distances, depot as int, route@),
{
    let ghost cs = customers@;
    let ghost dm = *distances;
    let ghost s = route@;
    let mut time: u128 = 0;
    let mut prev: usize = depot;
    let mut k: usize = 0;
    assert(s.take(0) =~= Seq::<usize>::empty());
    while k < route.len()
        invariant
            valid_instance(cs, dm),
            cs == customers@,
            dm == *distances,
            s == route@,
            depot < cs.len(),
            ids_below(s, cs.len()),
            k <= s.len(),
            prev as int == before(depot as int, s, k as int),
            prev < cs.len(),
            time == finish_time(cs, dm, depot as int, s.take(k as int)),
            windows_met(cs, dm, depot as int, s.take(k as int)),
        decreases s.len() - k,
    {
        let cid = route[k];
        let ghost t = s.take(k + 1);
        assert(t.drop_last() =~= s.take(k as int));
        assert(t.last() == cid);
        assert(before(depot as int, t, k as int) == before(depot as int, s, k as int));
        proof {
            lemma_route_bounds(cs, dm, depot as int, t);
        }
        let arrival: u128 = time + distances.get(prev, cid) as u128;
        assert(arrival == arrival_time(cs, dm, depot as int, t));
        match customers[cid].time_window() {
            Some(tw) => {
                if arrival > tw.due() as u128 {
                    proof {
                        assert(late_at_last(cs, dm, depot as int, t));
                        if windows_met(cs, dm, depot as int, s) {
                            lemma_windows_prefix(cs, dm, depot as int, s, k + 1);
                        }
                    }
                    return false;
                }
                time = arrival + tw.waiting_time(arrival) + customers[cid].service_duration() as u128;
            },
            None => {
                time = arrival + customers[cid].service_duration() as u128;
            },
        }
        prev = cid;
        k += 1;
    }
    assert(s.take(k as int) =~= s);
    true
}

/// Windows met along a route are met along each of its prefixes.
pub proof fn lemma_windows_prefix(cs: Seq<Customer>, dm: DistanceMatrix, depot: int, s: Seq<usize>, m: int)
    requires
        0 <= m <= s.len(),
        windows_met(cs, dm, depot, s),
    ensures
        windows_met(cs, dm, depot, s.take(m)),
    decreases s.len() - m,
{
    if m < s.len() {
        assert(s.take(m + 1).drop_last() =~= s.take(m));
        lemma_windows_prefix(cs, dm, depot, s, m + 1);
    } else {
        assert(s.take(m) =~= s);
    }
}

/// `s` with `c` inserted at `p`.
fn inserted(s: &[usize], p: usize, c: usize) -> (r: Vec<usize>)
    requires
        p <= s@.len(),
    ensures
        r@ == s@.insert(p as int, c),
{
    let n = s.len();
    let mut r: Vec<usize> = Vec::new();
    extend_range(&mut r, s, 0, p);
    r.push(c);
    extend_range(&mut r, s, p, n);
    assert(r@ =~= s@.insert(p as int, c));
    r
}

/// `route` is not empty, was built by the evaluator for `v` from its own
/// customers, fits `v`'s capacity and reaches every customer before its
/// window closes.
pub open spec fn insertion_route(cs: Seq<Customer>, dm: DistanceMatrix, v: Vehicle, route: crate::models::route::Route) -> bool {
    &&& route.spec_visits().len() > 0
    &&& built_route(cs, dm, v, route.spec_ids(), route)
    &&& ids_below(route.spec_ids(), cs.len())
    &&& load_of(cs, route.spec_ids()) <= v.spec_capacity()
    &&& windows_met(cs, dm, v.spec_depot() as int, route.spec_ids())
}

/// Inserting `c` at `pos` of `route` keeps it within `v`'s capacity and
/// every window.
pub open spec fn can_insert(cs: Seq<Customer>, dm: DistanceMatrix, v: Vehicle, route: Seq<usize>, c: usize, pos: int) -> bool {
    &&& load_of(cs, route.insert(pos, c)) <= v.spec_capacity()
    &&& windows_met(cs, dm, v.spec_depot() as int, route.insert(pos, c))
}

/// `v` can serve customer `c` alone: its demand fits and the vehicle
/// reaches it straight from the depot before its window closes.
pub open spec fn serves_alone(cs: Seq<Customer>, dm: DistanceMatrix, v: Vehicle, c: usize) -> bool {
    &&& load_of(cs, seq![c]) <= v.spec_capacity()
    &&& windows_met(cs, dm, v.spec_depot() as int, seq![c])
}

/// The cheapest insertion `(index in unrouted, position in route)` of an
/// unrouted customer that keeps the route within capacity and windows.
fn best_insertion(
    unrouted: &Vec<usize>,
    route_customers: &Vec<usize>,
    customers: &[Customer],
    distances: &DistanceMatrix,
    vehicle: &Vehicle,
) -> (r: Option<(usize, usize)>)
    requires
        valid_instance(customers@, *distances),
        vehicle.spec_depot() < customers@.len(),
        ids_below(unrouted@, customers@.len()),
        ids_below(route_customers@, customers@.len()),
    ensures
        r matches Some((ui, pos)) ==> {
            &&& ui < unrouted@.len()
            &&& pos <= route_customers@.len()
            &&& load_of(customers@, route_customers@.insert(pos as int, unrouted@[ui as int])) <= vehicle.spec_capacity()
            &&& windows_met(customers@, *distances, vehicle.spec_depot() as int, route_customers@.insert(pos as int, unrouted@[ui as int]))
        },
        r is None ==> forall|u: int, p: int|
            0 <= u < unrouted@.len() && 0 <= p <= route_customers@.len() ==> !#[trigger] can_insert(
                customers@,
                *distances,
                *vehicle,
                route_customers@,
                unrouted@[u],
                p,
            ),
{
    let depot = vehicle.depot_id();
    let capacity = vehicle.capacity() as u128;
    let n_r = route_customers.len();
    let mut best: Option<(usize, usize)> = None;
    let mut best_cost: i64 = 0;
    let mut ui: usize = 0;
    while ui < unrouted.len()
        invariant
            valid_instance(customers@, *distances),
            depot == vehicle.spec_depot(),
            depot < customers@.len(),
            capacity == vehicle.spec_capacity(),
            n_r == route_customers@.len(),
            ids_below(unrouted@, customers@.len()),
            ids_below(route_customers@, customers@.len()),
            ui <= unrouted@.len(),
            best matches Some((u, p)) ==> {
                &&& u < unrouted@.len()
                &&& p <= route_customers@.len()
                &&& load_of(customers@, route_customers@.insert(p as int, unrouted@[u as int])) <= vehicle.spec_capacity()
                &&& windows_met(customers@, *distances, depot as int, route_customers@.insert(p as int, unrouted@[u as int]))
            },
            best is None ==> forall|u: int, p: int|
                0 <= u < ui && 0 <= p <= route_customers@.len() ==> !#[trigger] can_insert(
                    customers@,
                    *distances,
                    *vehicle,
                    route_customers@,
                    unrouted@[u],
                    p,
                ),
        decreases unrouted@.len() - ui,
    {
        let cid = unrouted[ui];
        let mut pos: usize = 0;
        loop
            invariant
                valid_instance(customers@, *distances),
                depot == vehicle.spec_depot(),
                depot < customers@.len(),
                capacity == vehicle.spec_capacity(),
                n_r == route_customers@.len(),
                ids_below(unrouted@, customers@.len()),
                ids_below(route_customers@, customers@.len()),
                ui < unrouted@.len(),
                cid == unrouted@[ui as int],
                pos <= n_r,
                best matches Some((u, p)) ==> {
                    &&& u < unrouted@.len()
                    &&& p <= route_customers@.len()
                    &&& load_of(customers@, route_customers@.insert(p as int, unrouted@[u as int])) <= vehicle.spec_capacity()
                    &&& windows_met(customers@, *distances, depot as int, route_customers@.insert(p as int, unrouted@[u as int]))
                },
                best is None ==> forall|u: int, p: int|
                    0 <= u < ui && 0 <= p <= route_customers@.len() ==> !#[trigger] can_insert(
                        customers@,
                        *distances,
                        *vehicle,
                        route_customers@,
                        unrouted@[u],
                        p,
                    ),
                best is None ==> forall|p: int| 0 <= p < pos ==> !#[trigger] can_insert(
                    customers@,
                    *distances,
                    *vehicle,
                    route_customers@,
                    cid,
                    p,
                ),
            ensures
                best is None ==> forall|u: int, p: int|
                    0 <= u <= ui && 0 <= p <= route_customers@.len() ==> !#[trigger] can_insert(
                        customers@,
                        *distances,
                        *vehicle,
                        route_customers@,
                        unrouted@[u],
                        p,
                    ),
                best matches Some((u, p)) ==> {
                    &&& u < unrouted@.len()
                    &&& p <= route_customers@.len()
                    &&& load_of(customers@, route_customers@.insert(p as int, unrouted@[u as int])) <= vehicle.spec_capacity()
                    &&& windows_met(customers@, *distances, depot as int, route_customers@.insert(p as int, unrouted@[u as int]))
                },
            decreases n_r - pos,
        {
            let prev = if pos == 0 {
                depot
            } else {
                route_customers[pos - 1]
            };
            let next = if pos == n_r {
                depot
            } else {
                route_customers[pos]
            };
            let cost: i64 = distances.get(prev, cid) as i64 + distances.get(cid, next) as i64
                - distances.get(prev, next) as i64;
            let test_route = inserted(route_customers.as_slice(), pos, cid);
            assert(ids_below(test_route@, customers@.len()));
            if route_load(test_route.as_slice(), customers) <= capacity
                && is_tw_feasible(test_route.as_slice(), depot, customers, distances) {
                let better = match best {
                    None => true,
                    Some(_) => cost < best_cost,
                };
                if better {
                    best = Some((ui, pos));
                    best_cost = cost;
                }
            }
            if pos == n_r {
                break;
            }
            pos += 1;
        }
        ui += 1;
    }
    best
}

/// Solomon's I1 insertion: routes are built one after another; each is
/// seeded with the unrouted customer farthest from the depot, then the
/// cheapest insertion (`d(i, u) + d(u, j) - d(i, j)`) of an unrouted
/// customer that keeps the route within capacity and time windows is made
/// until none remains. A seed that cannot be served alone (its demand
/// exceeds the capacity, or its window closes before the vehicle can reach
/// it from the depot) is unassigned instead. Every route fits the capacity
/// and meets every window.
pub fn solomon_i1(customers: &[Customer], distances: &DistanceMatrix, vehicle: &Vehicle) -> (r: Solution)
    requires
        valid_instance(customers@, *distances),
        vehicle.spec_depot() < customers@.len(),
    ensures
        partitions_customers(r, customers@.len()),
        forall|q: int| 0 <= q < r.spec_unassigned().len() ==> !#[trigger] serves_alone(
            customers@,
            *distances,
            *vehicle,
            r.spec_unassigned()[q],
        ),
        forall|k: int| 0 <= k < r.spec_routes().len() ==> #[trigger] insertion_route(customers@, *distances, *vehicle, r.spec_routes()[k]),
        r.spec_total_cost() == capped(routes_distance(r.spec_routes()), u128::MAX as int),
        customers@.len() <= 1 ==> r.spec_routes().len() == 0,
{
    let ghost cs = customers@;
    let n = customers.len();
    let mut solution = Solution::new();
    proof {
        lemma_empty_customers(solution.spec_unassigned());
        lemma_joined_customers(route_ids(solution.spec_routes()));
        assert(route_ids(solution.spec_routes()).len() == 0);
    }
    if n <= 1 {
        proof {
            assert(customer_ids(n as nat) =~= vstd::multiset::Multiset::empty());
            assert(served_ids(solution.spec_routes()).to_multiset().add(solution.spec_unassigned().to_multiset())
                =~= customer_ids(cs.len()));
        }
        return solution;
    }
    let depot = vehicle.depot_id();
    let evaluator = RouteEvaluator::new(customers, distances, vehicle);
    let mut unrouted: Vec<usize> = Vec::new();
    let mut c: usize = 1;
    proof {
        lemma_empty_customers(unrouted@);
        assert(customer_ids(1) =~= vstd::multiset::Multiset::empty());
    }
    while c < n
        invariant
            n == cs.len(),
            1 <= c <= n,
            ids_below(unrouted@, n as nat),
            unrouted@.to_multiset() == customer_ids(c as nat),
        decreases n - c,
    {
        let ghost pre = unrouted@;
        unrouted.push(c);
        proof {
            vstd::seq_lib::to_multiset_build(pre, c);
        }
        c += 1;
    }
    while unrouted.len() > 0
        invariant
            cs == customers@,
            n == cs.len(),
            valid_instance(cs, *distances),
            depot == vehicle.spec_depot(),
            depot < n,
            evaluator.valid(),
            evaluator.spec_customers() == cs,
            evaluator.spec_distances() == *distances,
            evaluator.spec_vehicle() == *vehicle,
            ids_below(unrouted@, n as nat),
            served_ids(solution.spec_routes()).to_multiset().add(unrouted@.to_multiset()).add(
                solution.spec_unassigned().to_multiset(),
            ) == customer_ids(n as nat),
            forall|q: int| 0 <= q < solution.spec_unassigned().len() ==> !#[trigger] serves_alone(
                cs,
                *distances,
                *vehicle,
                solution.spec_unassigned()[q],
            ),
            forall|k: int| 0 <= k < solution.spec_routes().len() ==> #[trigger] insertion_route(cs, *distances, *vehicle, solution.spec_routes()[k]),
        decreases unrouted@.len(),
    {
        let ghost outer_len = unrouted@.len();
        let seed_idx = farthest_from_depot(&unrouted, depot, distances);
        let ghost pre_un = unrouted@;
        let seed = unrouted.remove(seed_idx);
        let mut route_customers: Vec<usize> = Vec::new();
        route_customers.push(seed);
        proof {
            vstd::seq_lib::to_multiset_remove(pre_un, seed_idx as int);
            vstd::seq_lib::to_multiset_contains(pre_un, seed);
            assert(pre_un.contains(seed)) by {
                assert(pre_un[seed_idx as int] == seed);
            }
            assert(unrouted@.to_multiset().insert(seed) =~= pre_un.to_multiset());
            vstd::seq_lib::to_multiset_build(Seq::<usize>::empty(), seed);
            lemma_empty_customers(Seq::<usize>::empty());
            assert(route_customers@ =~= Seq::<usize>::empty().push(seed));
            assert(ids_below(unrouted@, n as nat));
            assert(served_ids(solution.spec_routes()).to_multiset().add(unrouted@.to_multiset()).add(route_customers@.to_multiset())
                .add(solution.spec_unassigned().to_multiset()) =~= customer_ids(n as nat));
            assert(route_customers@ =~= seq![seed]);
        }
        if !(route_load(route_customers.as_slice(), customers) <= vehicle.capacity() as u128
            && is_tw_feasible(route_customers.as_slice(), depot, customers, distances)) {
            let ghost pre_unassigned = solution.spec_unassigned();
            let ghost pre_routes = solution.spec_routes();
            solution.add_unassigned(seed);
            proof {
                vstd::seq_lib::to_multiset_build(pre_unassigned, seed);
                assert(served_ids(solution.spec_routes()).to_multiset().add(unrouted@.to_multiset()).add(
                    solution.spec_unassigned().to_multiset()) =~= customer_ids(n as nat));
                assert forall|q: int| 0 <= q < solution.spec_unassigned().len() implies !#[trigger] serves_alone(
                    cs,
                    *distances,
                    *vehicle,
                    solution.spec_unassigned()[q],
                ) by {
                    if q < pre_unassigned.len() {
                        assert(solution.spec_unassigned()[q] == pre_unassigned[q]);
                    }
                }
            }
            continue;
        }
        loop
            invariant
                cs == customers@,
                n == cs.len(),
                valid_instance(cs, *distances),
                depot == vehicle.spec_depot(),
                depot < n,
                ids_below(unrouted@, n as nat),
                ids_below(route_customers@, n as nat),
                route_customers@.len() >= 1,
                unrouted@.len() < outer_len,
                load_of(cs, route_customers@) <= vehicle.spec_capacity(),
                windows_met(cs, *distances, depot as int, route_customers@),
                served_ids(solution.spec_routes()).to_multiset().add(unrouted@.to_multiset()).add(route_customers@.to_multiset())
                    .add(solution.spec_unassigned().to_multiset()) == customer_ids(n as nat),
            decreases unrouted@.len(),
        {
            match best_insertion(&unrouted, &route_customers, customers, distances, vehicle) {
                Some((ui, pos)) => {
                    let ghost pre_u = unrouted@;
                    let ghost pre_r = route_customers@;
                    let cid = unrouted.remove(ui);
                    route_customers.insert(pos, cid);
                    proof {
                        vstd::seq_lib::to_multiset_remove(pre_u, ui as int);
                        vstd::seq_lib::to_multiset_insert(pre_r, pos as int, cid);
                        vstd::seq_lib::to_multiset_contains(pre_u, cid);
                        assert(pre_u.contains(cid)) by {
                            assert(pre_u[ui as int] == cid);
                        }
                        assert(unrouted@.to_multiset().insert(cid) =~= pre_u.to_multiset());
                        assert(ids_below(unrouted@, n as nat));
                        assert(route_customers@ == pre_r.insert(pos as int, cid));
                        assert(ids_below(route_customers@, n as nat));
                        assert(served_ids(solution.spec_routes()).to_multiset().add(unrouted@.to_multiset()).add(
                            route_customers@.to_multiset()).add(solution.spec_unassigned().to_multiset()) =~= customer_ids(n as nat));
                    }
                },
                None => {
                    break;
                },
            }
        }
        let ghost pre_routes = solution.spec_routes();
        push_built_route(&mut solution, &evaluator, route_customers.as_slice());
        proof {
            let post = solution.spec_routes();
            assert forall|k: int| 0 <= k < post.len() implies #[trigger] insertion_route(cs, *distances, *vehicle, post[k]) by {
                if k < pre_routes.len() {
                    assert(post[k] == pre_routes[k]);
                } else {
                    assert(post[k] == post.last());
                }
            }
            assert(served_ids(solution.spec_routes()).to_multiset().add(unrouted@.to_multiset()).add(
                solution.spec_unassigned().to_multiset()) =~= customer_ids(n as nat));
        }
    }
    proof {
        lemma_empty_customers(unrouted@);
        assert(served_ids(solution.spec_routes()).to_multiset().add(solution.spec_unassigned().to_multiset())
            =~= customer_ids(cs.len()));
    }
    let total = solution.total_distance();
    solution.set_total_cost(total);
    solution
}

} // verus!
