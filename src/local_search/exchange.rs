//! Exchange (2-opt*): swapping the tails of two routes.

use vstd::prelude::*;

use crate::distance::DistanceMatrix;
use crate::evaluation::{built_route, ids_below, load_of, route_cost, routes_below, valid_instance};
use crate::local_search::extend_range;
use crate::local_search::or_opt::route_distance;
use crate::models::customer::Customer;
use crate::models::solution::{Solution, routes_distance, served_ids};
use crate::models::vehicle::Vehicle;
use crate::route_set::{
    all_customers, copy_solution, ids_of_routes, lemma_all_customers_update, lemma_joined_customers,
    lemma_seqs_cost_nonneg, lemma_seqs_cost_update, rebuild_solution, route_ids, seqs_below, seqs_cost, seqs_fit,
    seqs_of_vecs,
};

verus! {

broadcast use vstd::multiset::group_multiset_axioms;

/// Total demand of the customers of `s[a..b]`.
fn range_load(s: &[usize], a: usize, b: usize, customers: &[Customer]) -> (r: u128)
    requires
        a <= b <= s@.len(),
        ids_below(s@, customers@.len()),
    ensures
        r == load_of(customers@, s@.subrange(a as int, b as int)),
        r <= (b - a) * 0x1_0000_0000,
{
    let mut load: u128 = 0;
    let mut k: usize = a;
    assert(s@.subrange(a as int, a as int) =~= Seq::<usize>::empty());
    while k < b
        invariant
            a <= k <= b <= s@.len(),
            ids_below(s@, customers@.len()),
            load == load_of(customers@, s@.subrange(a as int, k as int)),
            load <= (k - a) * 0x1_0000_0000,
        decreases b - k,
    {
        assert(s@.subrange(a as int, k + 1).drop_last() =~= s@.subrange(a as int, k as int));
        load = load + customers[s[k]].demand() as u128;
        k += 1;
    }
    load
}

/// `x[..cx] + y[cy..]`.
fn spliced(x: &[usize], cx: usize, y: &[usize], cy: usize) -> (r: Vec<usize>)
    requires
        cx <= x@.len(),
        cy <= y@.len(),
    ensures
        r@ == x@.take(cx as int) + y@.skip(cy as int),
{
    let ny = y.len();
    let mut r: Vec<usize> = Vec::new();
    extend_range(&mut r, x, 0, cx);
    extend_range(&mut r, y, cy, ny);
    assert(x@.subrange(0, cx as int) =~= x@.take(cx as int));
    assert(y@.subrange(cy as int, ny as int) =~= y@.skip(cy as int));
    r
}

/// Swapping the tails `r1[c1..]` and `r2[c2..]` leaves both routes within
/// `capacity` (each keeps at least one customer of its own).
pub open spec fn cut_fits(cs: Seq<Customer>, capacity: int, r1: Seq<usize>, r2: Seq<usize>, c1: int, c2: int) -> bool {
    &&& 1 <= c1 <= r1.len()
    &&& 1 <= c2 <= r2.len()
    &&& load_of(cs, r1.take(c1) + r2.skip(c2)) <= capacity
    &&& load_of(cs, r2.take(c2) + r1.skip(c1)) <= capacity
}

/// Change in length from swapping the tails `r1[c1..]` and `r2[c2..]`:
/// the two new boundary edges minus the two old ones (the depot stands
/// after a cut at a route's end).
pub open spec fn cut_delta(dm: DistanceMatrix, depot: int, r1: Seq<usize>, r2: Seq<usize>, c1: int, c2: int) -> int {
    let a = r1[c1 - 1] as int;
    let b = r2[c2 - 1] as int;
    let n1 = if c1 < r1.len() { r1[c1] as int } else { depot };
    let n2 = if c2 < r2.len() { r2[c2] as int } else { depot };
    dm.d(a, n2) + dm.d(b, n1) - dm.d(a, n1) - dm.d(b, n2)
}

/// The best result found so far covers the cut pair `(c1, c2)`: its delta
/// is not below the best one (nor below 0 while there is none).
pub open spec fn covered(best: Option<(usize, usize, i64)>, delta: int) -> bool {
    match best {
        None => delta >= 0,
        Some((_, _, d)) => delta >= d,
    }
}

/// `(c1, c2)` is the cut pair the operator takes for routes `x` and `y`:
/// feasible, of negative delta, no feasible pair has a smaller one and
/// every earlier one a larger one.
pub open spec fn best_cut(cs: Seq<Customer>, dm: DistanceMatrix, depot: int, capacity: int, x: Seq<usize>, y: Seq<usize>, c1: int, c2: int) -> bool {
    &&& cut_fits(cs, capacity, x, y, c1, c2)
    &&& cut_delta(dm, depot, x, y, c1, c2) < 0
    &&& forall|p1: int, p2: int|
        #[trigger] cut_fits(cs, capacity, x, y, p1, p2) ==> cut_delta(dm, depot, x, y, p1, p2) >= cut_delta(dm, depot, x, y, c1, c2)
    &&& forall|p1: int, p2: int|
        #[trigger] cut_fits(cs, capacity, x, y, p1, p2) && (p1 < c1 || (p1 == c1 && p2 < c2)) ==> cut_delta(
            dm,
            depot,
            x,
            y,
            p1,
            p2,
        ) > cut_delta(dm, depot, x, y, c1, c2)
}

/// Swapping the tails of `x` and `y` at the pair the operator takes
/// shortens the two routes.
pub open spec fn exchange_gains(cs: Seq<Customer>, dm: DistanceMatrix, depot: int, capacity: int, x: Seq<usize>, y: Seq<usize>) -> bool {
    exists|c1: int, c2: int|
        #[trigger] best_cut(cs, dm, depot, capacity, x, y, c1, c2) && route_cost(dm, depot, x.take(c1) + y.skip(c2))
            + route_cost(dm, depot, y.take(c2) + x.skip(c1)) < route_cost(dm, depot, x) + route_cost(dm, depot, y)
}

/// The pair the operator takes is unique.
proof fn lemma_best_cut_unique(cs: Seq<Customer>, dm: DistanceMatrix, depot: int, capacity: int, x: Seq<usize>, y: Seq<usize>, c1: int, c2: int)
    requires
        best_cut(cs, dm, depot, capacity, x, y, c1, c2),
    ensures
        forall|f1: int, f2: int| #[trigger] best_cut(cs, dm, depot, capacity, x, y, f1, f2) ==> f1 == c1 && f2 == c2,
{
    assert forall|f1: int, f2: int| #[trigger] best_cut(cs, dm, depot, capacity, x, y, f1, f2) implies f1 == c1 && f2 == c2 by {
        assert(cut_fits(cs, capacity, x, y, f1, f2));
        assert(cut_fits(cs, capacity, x, y, c1, c2));
    }
}

/// Every sequence of `rs` is non-empty.
pub open spec fn all_nonempty(rs: Seq<Seq<usize>>) -> bool {
    forall|i: int| 0 <= i < rs.len() ==> (#[trigger] rs[i]).len() > 0
}

/// The feasible cut pair of least delta (the first found on ties), when
/// that delta is negative; `None` when no feasible cut pair shortens the
/// two routes.
fn find_best_exchange(
    route1: &[usize],
    route2: &[usize],
    depot: usize,
    distances: &DistanceMatrix,
    customers: &[Customer],
    vehicle: &Vehicle,
) -> (r: Option<(usize, usize, i64)>)
    requires
        valid_instance(customers@, *distances),
        depot < customers@.len(),
        ids_below(route1@, customers@.len()),
        ids_below(route2@, customers@.len()),
    ensures
        r.is_none() <==> forall|p1: int, p2: int|
            #[trigger] cut_fits(customers@, vehicle.spec_capacity() as int, route1@, route2@, p1, p2) ==> cut_delta(
                *distances,
                depot as int,
                route1@,
                route2@,
                p1,
                p2,
            ) >= 0,
        r matches Some((c1, c2, d)) ==> {
            &&& cut_fits(customers@, vehicle.spec_capacity() as int, route1@, route2@, c1 as int, c2 as int)
            &&& d == cut_delta(*distances, depot as int, route1@, route2@, c1 as int, c2 as int)
            &&& d < 0
            &&& forall|p1: int, p2: int|
                #[trigger] cut_fits(customers@, vehicle.spec_capacity() as int, route1@, route2@, p1, p2) ==> cut_delta(
                    *distances,
                    depot as int,
                    route1@,
                    route2@,
                    p1,
                    p2,
                ) >= d
            &&& forall|p1: int, p2: int|
                #[trigger] cut_fits(customers@, vehicle.spec_capacity() as int, route1@, route2@, p1, p2) && (p1 < c1 || (p1
                    == c1 && p2 < c2)) ==> cut_delta(*distances, depot as int, route1@, route2@, p1, p2) > d
        },
{
    let ghost cs = customers@;
    let ghost cap = vehicle.spec_capacity() as int;
    let ghost dm = *distances;
    let ghost x = route1@;
    let ghost y = route2@;
    let n1 = route1.len();
    let n2 = route2.len();
    let capacity = vehicle.capacity() as u128;
    let mut best: Option<(usize, usize, i64)> = None;
    let mut c1: usize = 0;
    while c1 < n1
        invariant
            valid_instance(customers@, *distances),
            cs == customers@,
            dm == *distances,
            cap == vehicle.spec_capacity() as int,
            capacity == vehicle.spec_capacity(),
            x == route1@,
            y == route2@,
            depot < customers@.len(),
            ids_below(route1@, customers@.len()),
            ids_below(route2@, customers@.len()),
            n1 == route1@.len(),
            n2 == route2@.len(),
            c1 <= n1,
            best matches Some((p1, p2, d)) ==> cut_fits(cs, cap, x, y, p1 as int, p2 as int) && d == cut_delta(
                dm,
                depot as int,
                x,
                y,
                p1 as int,
                p2 as int,
            ) && d < 0,
            forall|p1: int, p2: int|
                #[trigger] cut_fits(cs, cap, x, y, p1, p2) && p1 <= c1 ==> covered(best, cut_delta(dm, depot as int, x, y, p1, p2)),
            best matches Some((b1, b2, d)) ==> forall|p1: int, p2: int|
                #[trigger] cut_fits(cs, cap, x, y, p1, p2) && (p1 < b1 || (p1 == b1 && p2 < b2)) ==> cut_delta(
                    dm,
                    depot as int,
                    x,
                    y,
                    p1,
                    p2,
                ) > d,
            best matches Some((b1, b2, d)) ==> b1 <= c1,
        decreases n1 - c1,
    {
        let cut1 = c1 + 1;
        let mut c2: usize = 0;
        while c2 < n2
            invariant
                valid_instance(customers@, *distances),
                cs == customers@,
                dm == *distances,
                cap == vehicle.spec_capacity() as int,
                capacity == vehicle.spec_capacity(),
                x == route1@,
                y == route2@,
                depot < customers@.len(),
                ids_below(route1@, customers@.len()),
                ids_below(route2@, customers@.len()),
                n1 == route1@.len(),
                n2 == route2@.len(),
                cut1 == c1 + 1,
                1 <= cut1 <= n1,
                c2 <= n2,
                best matches Some((p1, p2, d)) ==> cut_fits(cs, cap, x, y, p1 as int, p2 as int) && d == cut_delta(
                    dm,
                    depot as int,
                    x,
                    y,
                    p1 as int,
                    p2 as int,
                ) && d < 0,
                forall|p1: int, p2: int|
                    #[trigger] cut_fits(cs, cap, x, y, p1, p2) && (p1 <= c1 || (p1 == cut1 && p2 <= c2)) ==> covered(
                        best,
                        cut_delta(dm, depot as int, x, y, p1, p2),
                    ),
                best matches Some((b1, b2, d)) ==> forall|p1: int, p2: int|
                    #[trigger] cut_fits(cs, cap, x, y, p1, p2) && (p1 < b1 || (p1 == b1 && p2 < b2)) ==> cut_delta(
                        dm,
                        depot as int,
                        x,
                        y,
                        p1,
                        p2,
                    ) > d,
                best matches Some((b1, b2, d)) ==> b1 < cut1 || (b1 == cut1 && b2 <= c2),
            decreases n2 - c2,
        {
            let cut2 = c2 + 1;
            let new_load1 = range_load(route1, 0, cut1, customers) + range_load(route2, cut2, n2, customers);
            let new_load2 = range_load(route2, 0, cut2, customers) + range_load(route1, cut1, n1, customers);
            proof {
                assert(x.subrange(0, cut1 as int) =~= x.take(cut1 as int));
                assert(y.subrange(cut2 as int, n2 as int) =~= y.skip(cut2 as int));
                assert(y.subrange(0, cut2 as int) =~= y.take(cut2 as int));
                assert(x.subrange(cut1 as int, n1 as int) =~= x.skip(cut1 as int));
                crate::evaluation::lemma_load_concat(cs, x.take(cut1 as int), y.skip(cut2 as int));
                crate::evaluation::lemma_load_concat(cs, y.take(cut2 as int), x.skip(cut1 as int));
            }
            let ghost before = best;
            proof {
                assert forall|p1: int, p2: int| #[trigger] cut_fits(cs, cap, x, y, p1, p2) && (p1 <= c1 || (p1 == cut1 && p2 <= c2))
                    implies covered(before, cut_delta(dm, depot as int, x, y, p1, p2)) by {
                }
            }
            if new_load1 <= capacity && new_load2 <= capacity {
                let old_edge1 = if cut1 < n1 {
                    distances.get(route1[cut1 - 1], route1[cut1])
                } else {
                    distances.get(route1[cut1 - 1], depot)
                };
                let old_edge2 = if cut2 < n2 {
                    distances.get(route2[cut2 - 1], route2[cut2])
                } else {
                    distances.get(route2[cut2 - 1], depot)
                };
                let new_edge1 = if cut2 < n2 {
                    distances.get(route1[cut1 - 1], route2[cut2])
                } else {
                    distances.get(route1[cut1 - 1], depot)
                };
                let new_edge2 = if cut1 < n1 {
                    distances.get(route2[cut2 - 1], route1[cut1])
                } else {
                    distances.get(route2[cut2 - 1], depot)
                };
                let delta: i64 = (new_edge1 as i64 + new_edge2 as i64) - (old_edge1 as i64 + old_edge2 as i64);
                assert(delta == cut_delta(dm, depot as int, x, y, cut1 as int, cut2 as int));
                assert(cut_fits(cs, cap, x, y, cut1 as int, cut2 as int));
                if delta < 0 {
                    let is_better = match best {
                        None => true,
                        Some((_, _, d)) => delta < d,
                    };
                    if is_better {
                        best = Some((cut1, cut2, delta));
                    }
                }
            } else {
                assert(!cut_fits(cs, cap, x, y, cut1 as int, cut2 as int));
            }
            assert forall|p1: int, p2: int|
                #[trigger] cut_fits(cs, cap, x, y, p1, p2) && (p1 <= c1 || (p1 == cut1 && p2 <= cut2)) implies covered(
                    best,
                    cut_delta(dm, depot as int, x, y, p1, p2),
                ) by {
                if !(p1 == cut1 && p2 == cut2) {
                    assert(covered(before, cut_delta(dm, depot as int, x, y, p1, p2)));
                }
            }
            c2 += 1;
        }
        c1 += 1;
    }
    proof {
        assert forall|p1: int, p2: int| #[trigger] cut_fits(cs, cap, x, y, p1, p2) implies covered(
            best,
            cut_delta(dm, depot as int, x, y, p1, p2),
        ) by {
            assert(p1 <= c1);
        }
    }
    best
}

/// Improves a solution by swapping route tails: for each pair of routes
/// `r1 < r2` the cut pair of largest gain is applied when both new routes
/// fit the vehicle's capacity and the pair gets shorter, until no pair of
/// routes improves. Every route is then rebuilt by the evaluator and empty
/// ones are dropped. A solution of fewer than two routes is returned as it
/// is.
pub fn exchange_improve(
    solution: &Solution,
    customers: &[Customer],
    distances: &DistanceMatrix,
    vehicle: &Vehicle,
) -> (r: Solution)
    requires
        valid_instance(customers@, *distances),
        vehicle.spec_depot() < customers@.len(),
        routes_below(solution.spec_routes(), customers@.len()),
    ensures
        served_ids(r.spec_routes()).to_multiset() == served_ids(solution.spec_routes()).to_multiset(),
        r.spec_unassigned() == solution.spec_unassigned(),
        solution.spec_routes().len() < 2 ==> route_ids(r.spec_routes()) == route_ids(solution.spec_routes())
            && r.spec_total_cost() == solution.spec_total_cost() && routes_distance(r.spec_routes()) == routes_distance(
            solution.spec_routes(),
        ),
        solution.spec_routes().len() >= 2 && seqs_fit(customers@, route_ids(solution.spec_routes()), vehicle.spec_capacity() as int)
            ==> forall|k: int| 0 <= k < r.spec_routes().len() ==> load_of(customers@, (#[trigger] r.spec_routes()[k]).spec_ids())
            <= vehicle.spec_capacity(),
        solution.spec_routes().len() >= 2 && (forall|k: int| 0 <= k < solution.spec_routes().len() ==> (#[trigger] solution.spec_routes()[k]).spec_visits().len() > 0)
            ==> forall|a: int, b: int| 0 <= a < b < r.spec_routes().len() ==> !#[trigger] exchange_gains(
            customers@,
            *distances,
            vehicle.spec_depot() as int,
            vehicle.spec_capacity() as int,
            route_ids(r.spec_routes())[a],
            route_ids(r.spec_routes())[b],
        ),
        solution.spec_routes().len() >= 2 ==> forall|k: int| 0 <= k < r.spec_routes().len() ==> (#[trigger] r.spec_routes()[k]).spec_visits().len() > 0
            && built_route(customers@, *distances, *vehicle, r.spec_routes()[k].spec_ids(), r.spec_routes()[k]),
        solution.spec_routes().len() >= 2 ==> routes_distance(r.spec_routes()) <= seqs_cost(
            *distances,
            vehicle.spec_depot() as int,
            route_ids(solution.spec_routes()),
        ),
{
    if solution.num_routes() < 2 {
        let copy = copy_solution(solution);
        assert(route_ids(copy.spec_routes()) =~= route_ids(solution.spec_routes()));
        proof {
            crate::route_set::lemma_routes_distance_same(copy.spec_routes(), solution.spec_routes());
        }
        return copy;
    }
    let depot = vehicle.depot_id();
    let ghost gd = depot as int;
    let ghost dm = *distances;
    let mut routes = ids_of_routes(solution.routes());
    let ghost rs0 = seqs_of_vecs(routes@);
    assert(rs0 =~= route_ids(solution.spec_routes()));
    assert(seqs_below(rs0, customers@.len()));
    loop
        invariant
            valid_instance(customers@, *distances),
            depot == vehicle.spec_depot(),
            depot < customers@.len(),
            dm == *distances,
            gd == depot as int,
            rs0 == route_ids(solution.spec_routes()),
            routes@.len() == rs0.len(),
            seqs_below(seqs_of_vecs(routes@), customers@.len()),
            all_customers(seqs_of_vecs(routes@)) == all_customers(rs0),
            seqs_cost(dm, gd, seqs_of_vecs(routes@)) <= seqs_cost(dm, gd, rs0),
            seqs_fit(customers@, rs0, vehicle.spec_capacity() as int) ==> seqs_fit(
                customers@,
                seqs_of_vecs(routes@),
                vehicle.spec_capacity() as int,
            ),
            all_nonempty(rs0) ==> all_nonempty(seqs_of_vecs(routes@)),
        ensures
            forall|a: int, b: int| 0 <= a < b < routes@.len() ==> !#[trigger] exchange_gains(
                customers@,
                dm,
                gd,
                vehicle.spec_capacity() as int,
                seqs_of_vecs(routes@)[a],
                seqs_of_vecs(routes@)[b],
            ),
            all_nonempty(rs0) ==> all_nonempty(seqs_of_vecs(routes@)),
            seqs_fit(customers@, rs0, vehicle.spec_capacity() as int) ==> seqs_fit(
                customers@,
                seqs_of_vecs(routes@),
                vehicle.spec_capacity() as int,
            ),
            all_customers(seqs_of_vecs(routes@)) == all_customers(rs0),
            seqs_cost(dm, gd, seqs_of_vecs(routes@)) <= seqs_cost(dm, gd, rs0),
            seqs_below(seqs_of_vecs(routes@), customers@.len()),
        decreases seqs_cost(dm, gd, seqs_of_vecs(routes@)),
    {
        let ghost start = seqs_cost(dm, gd, seqs_of_vecs(routes@));
        let ghost pass_start = seqs_of_vecs(routes@);
        proof {
            lemma_seqs_cost_nonneg(dm, gd, seqs_of_vecs(routes@));
        }
        let mut improved = false;
        let mut r1: usize = 0;
        while r1 < routes.len()
            invariant
                valid_instance(customers@, *distances),
                depot == vehicle.spec_depot(),
                depot < customers@.len(),
                dm == *distances,
                gd == depot as int,
                routes@.len() == rs0.len(),
                seqs_below(seqs_of_vecs(routes@), customers@.len()),
                all_customers(seqs_of_vecs(routes@)) == all_customers(rs0),
                seqs_cost(dm, gd, seqs_of_vecs(routes@)) <= start,
                improved ==> seqs_cost(dm, gd, seqs_of_vecs(routes@)) < start,
                rs0 == route_ids(solution.spec_routes()),
                seqs_fit(customers@, rs0, vehicle.spec_capacity() as int) ==> seqs_fit(
                    customers@,
                    seqs_of_vecs(routes@),
                    vehicle.spec_capacity() as int,
                ),
                !improved ==> seqs_of_vecs(routes@) == pass_start && forall|a: int, b: int|
                    0 <= a < b < routes@.len() && a < r1 ==> !#[trigger] exchange_gains(
                        customers@,
                        dm,
                        gd,
                        vehicle.spec_capacity() as int,
                        seqs_of_vecs(routes@)[a],
                        seqs_of_vecs(routes@)[b],
                    ),
                all_nonempty(rs0) ==> all_nonempty(seqs_of_vecs(routes@)),
                r1 <= routes@.len(),
            decreases routes@.len() - r1,
        {
            let mut r2: usize = r1 + 1;
            while r2 < routes.len()
                invariant
                    valid_instance(customers@, *distances),
                    depot == vehicle.spec_depot(),
                    depot < customers@.len(),
                    dm == *distances,
                    gd == depot as int,
                    routes@.len() == rs0.len(),
                    r1 < r2,
                    r1 < routes@.len(),
                    seqs_below(seqs_of_vecs(routes@), customers@.len()),
                    all_customers(seqs_of_vecs(routes@)) == all_customers(rs0),
                    seqs_cost(dm, gd, seqs_of_vecs(routes@)) <= start,
                    improved ==> seqs_cost(dm, gd, seqs_of_vecs(routes@)) < start,
                    rs0 == route_ids(solution.spec_routes()),
                    seqs_fit(customers@, rs0, vehicle.spec_capacity() as int) ==> seqs_fit(
                        customers@,
                        seqs_of_vecs(routes@),
                        vehicle.spec_capacity() as int,
                    ),
                    !improved ==> seqs_of_vecs(routes@) == pass_start && forall|a: int, b: int|
                        0 <= a < b < routes@.len() && (a < r1 || (a == r1 && b < r2)) ==> !#[trigger] exchange_gains(
                            customers@,
                            dm,
                            gd,
                            vehicle.spec_capacity() as int,
                            seqs_of_vecs(routes@)[a],
                            seqs_of_vecs(routes@)[b],
                        ),
                    all_nonempty(rs0) ==> all_nonempty(seqs_of_vecs(routes@)),
                    r2 <= routes@.len(),
                decreases routes@.len() - r2,
            {
                let ghost rs = seqs_of_vecs(routes@);
                assert(ids_below(rs[r1 as int], customers@.len()));
                assert(ids_below(rs[r2 as int], customers@.len()));
                match find_best_exchange(
                    routes[r1].as_slice(),
                    routes[r2].as_slice(),
                    depot,
                    distances,
                    customers,
                    vehicle,
                ) {
                    Some((cut1, cut2, _)) => {
                        proof {
                            lemma_best_cut_unique(customers@, dm, gd, vehicle.spec_capacity() as int, rs[r1 as int], rs[r2 as int], cut1 as int, cut2 as int);
                        }
                        let new1 = spliced(routes[r1].as_slice(), cut1, routes[r2].as_slice(), cut2);
                        let new2 = spliced(routes[r2].as_slice(), cut2, routes[r1].as_slice(), cut1);
                        assert(ids_below(new1@, customers@.len()));
                        assert(ids_below(new2@, customers@.len()));
                        let old_pair = route_distance(routes[r1].as_slice(), depot, distances)
                            + route_distance(routes[r2].as_slice(), depot, distances);
                        let new_pair = route_distance(new1.as_slice(), depot, distances)
                            + route_distance(new2.as_slice(), depot, distances);
                        if new_pair < old_pair {
                            let ghost rs1 = rs.update(r1 as int, new1@);
                            let ghost rs2 = rs1.update(r2 as int, new2@);
                            assert(old_pair == route_cost(dm, gd, rs[r1 as int]) + route_cost(dm, gd, rs[r2 as int]));
                            assert(new_pair == route_cost(dm, gd, new1@) + route_cost(dm, gd, new2@));
                            proof {
                                let x = rs[r1 as int];
                                let y = rs[r2 as int];
                                let a = x.take(cut1 as int);
                                let b = x.skip(cut1 as int);
                                let c = y.take(cut2 as int);
                                let d = y.skip(cut2 as int);
                                assert(x =~= a + b);
                                assert(y =~= c + d);
                                vstd::seq_lib::lemma_multiset_commutative(a, b);
                                vstd::seq_lib::lemma_multiset_commutative(c, d);
                                vstd::seq_lib::lemma_multiset_commutative(a, d);
                                vstd::seq_lib::lemma_multiset_commutative(c, b);
                                lemma_all_customers_update(rs, r1 as int, new1@);
                                lemma_all_customers_update(rs1, r2 as int, new2@);
                                lemma_seqs_cost_update(dm, gd, rs, r1 as int, new1@);
                                lemma_seqs_cost_update(dm, gd, rs1, r2 as int, new2@);
                                assert(rs1[r2 as int] == y);
                                assert forall|v: usize| #[trigger] all_customers(rs2).count(v) == all_customers(rs).count(v) by {
                                    assert(all_customers(rs1).add(x.to_multiset()).count(v) == all_customers(rs).add(new1@.to_multiset()).count(v));
                                    assert(all_customers(rs2).add(y.to_multiset()).count(v) == all_customers(rs1).add(new2@.to_multiset()).count(v));
                                }
                                assert(all_customers(rs2) =~= all_customers(rs));
                                assert(seqs_cost(dm, gd, rs2) < seqs_cost(dm, gd, rs));
                                if seqs_fit(customers@, rs0, vehicle.spec_capacity() as int) {
                                    assert forall|i: int| 0 <= i < rs2.len() implies load_of(customers@, #[trigger] rs2[i])
                                        <= vehicle.spec_capacity() by {
                                        if i != r1 && i != r2 {
                                            assert(rs2[i] == rs[i]);
                                        }
                                    }
                                }
                            }
                            routes.set(r1, new1);
                            routes.set(r2, new2);
                            assert(seqs_of_vecs(routes@) =~= rs2);
                            improved = true;
                            proof {
                                if all_nonempty(rs0) {
                                    assert forall|i: int| 0 <= i < rs2.len() implies (#[trigger] rs2[i]).len() > 0 by {
                                        if i != r1 && i != r2 {
                                            assert(rs2[i] == rs[i]);
                                        }
                                    }
                                }
                            }
                        } else {
                            assert(!exchange_gains(customers@, dm, gd, vehicle.spec_capacity() as int, rs[r1 as int], rs[r2 as int]));
                        }
                    },
                    None => {
                        assert(!exchange_gains(customers@, dm, gd, vehicle.spec_capacity() as int, rs[r1 as int], rs[r2 as int]));
                    },
                }
                r2 += 1;
            }
            r1 += 1;
        }
        if !improved {
            assert forall|a: int, b: int| 0 <= a < b < routes@.len() implies !#[trigger] exchange_gains(
                customers@,
                dm,
                gd,
                vehicle.spec_capacity() as int,
                seqs_of_vecs(routes@)[a],
                seqs_of_vecs(routes@)[b],
            ) by {
                assert(a < r1);
            }
            break;
        }
        proof {
            lemma_seqs_cost_nonneg(dm, gd, seqs_of_vecs(routes@));
        }
    }
    let result = rebuild_solution(&routes, solution, distances, customers, vehicle);
    proof {
        lemma_joined_customers(rs0);
        if all_nonempty(rs0) {
            crate::alns::solution_repr::lemma_nonempty_only_identity(seqs_of_vecs(routes@));
            assert(route_ids(result.spec_routes()) == seqs_of_vecs(routes@));
        }
        if seqs_fit(customers@, rs0, vehicle.spec_capacity() as int) {
            crate::route_set::lemma_rebuilt_fit(customers@, result.spec_routes(), seqs_of_vecs(routes@), vehicle.spec_capacity() as int);
        }
    }
    result
}

} // verus!
