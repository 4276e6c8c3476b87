//! Relocate: moving one customer to another route.

use vstd::prelude::*;

use crate::distance::DistanceMatrix;
use crate::evaluation::{built_route, ids_below, lemma_load_insert, lemma_load_remove, load_of, route_cost, routes_below, valid_instance};
use crate::local_search::extend_range;
use crate::local_search::or_opt::route_distance;
use crate::models::customer::Customer;
use crate::models::solution::{Solution, routes_distance, served_ids};
use crate::models::vehicle::Vehicle;
use crate::route_set::{
    all_customers, copy_solution, ids_of_routes, lemma_all_customers_update, lemma_joined_customers,
    lemma_seqs_cost_nonneg, lemma_seqs_cost_update, rebuild_solution, route_ids, route_load, seqs_below, seqs_cost, seqs_fit,
    seqs_of_vecs,
};

verus! {

broadcast use vstd::multiset::group_multiset_axioms;

/// Moving the customer at `from_pos` of route `from_route` to position
/// `to_pos` of route `to_route`.
struct RelocateMove {
    from_route: usize,
    from_pos: usize,
    to_route: usize,
    to_pos: usize,
    delta: i64,
}

/// `s` without its element at `p`.
fn without(s: &[usize], p: usize) -> (r: Vec<usize>)
    requires
        p < s@.len(),
    ensures
        r@ == s@.remove(p as int),
{
    let n = s.len();
    let mut r: Vec<usize> = Vec::new();
    extend_range(&mut r, s, 0, p);
    extend_range(&mut r, s, p + 1, n);
    assert(r@ =~= s@.remove(p as int));
    r
}

/// `s` with `c` inserted at `p`.
fn with_inserted(s: &[usize], p: usize, c: usize) -> (r: Vec<usize>)
    requires
        p <= s@.len(),
    ensures
        r@ == s@.insert(p as int, c),
{
    let mut r: Vec<usize> = Vec::new();
    extend_range(&mut r, s, 0, p);
    r.push(c);
    extend_range(&mut r, s, p, s.len());
    assert(r@ =~= s@.insert(p as int, c));
    r
}

/// Change in length of the route when its customer at `pos` leaves it.
pub fn removal_cost(route: &[usize], pos: usize, depot: usize, distances: &DistanceMatrix) -> (r: i64)
    requires
        pos < route@.len(),
        distances.wf(),
        depot < distances.spec_size(),
        ids_below(route@, distances.spec_size()),
    ensures
        -0x2_0000_0000 <= r <= 0x1_0000_0000,
{
    let prev = if pos == 0 {
        depot
    } else {
        route[pos - 1]
    };
    let next = if pos == route.len() - 1 {
        depot
    } else {
        route[pos + 1]
    };
    let cid = route[pos];
    distances.get(prev, next) as i64 - distances.get(prev, cid) as i64 - distances.get(cid, next) as i64
}

/// Change in length of the route when `customer_id` enters it at `pos`.
pub fn insertion_cost(route: &[usize], pos: usize, customer_id: usize, depot: usize, distances: &DistanceMatrix) -> (r: i64)
    requires
        pos <= route@.len(),
        distances.wf(),
        depot < distances.spec_size(),
        customer_id < distances.spec_size(),
        ids_below(route@, distances.spec_size()),
    ensures
        -0x1_0000_0000 <= r <= 0x2_0000_0000,
{
    let prev = if pos == 0 {
        depot
    } else {
        route[pos - 1]
    };
    let next = if pos == route.len() {
        depot
    } else {
        route[pos]
    };
    distances.get(prev, customer_id) as i64 + distances.get(customer_id, next) as i64 - distances.get(prev, next) as i64
}

/// The relocation of largest gain that keeps the target route within
/// capacity, if one shortens the routes.
fn find_best_relocate(
    routes: &Vec<Vec<usize>>,
    customers: &[Customer],
    distances: &DistanceMatrix,
    vehicle: &Vehicle,
) -> (r: Option<RelocateMove>)
    requires
        valid_instance(customers@, *distances),
        vehicle.spec_depot() < customers@.len(),
        seqs_below(seqs_of_vecs(routes@), customers@.len()),
    ensures
        r matches Some(mv) ==> {
            &&& mv.from_route < routes@.len()
            &&& mv.to_route < routes@.len()
            &&& mv.from_route != mv.to_route
            &&& mv.from_pos < routes@[mv.from_route as int]@.len()
            &&& mv.to_pos <= routes@[mv.to_route as int]@.len()
            &&& load_of(customers@, routes@[mv.to_route as int]@) + customers@[routes@[mv.from_route as int]@[mv.from_pos as int] as int].spec_demand() <= vehicle.spec_capacity()
        },
{
    let depot = vehicle.depot_id();
    let ghost rs = seqs_of_vecs(routes@);
    let mut best: Option<RelocateMove> = None;
    let mut from_r: usize = 0;
    while from_r < routes.len()
        invariant
            valid_instance(customers@, *distances),
            depot == vehicle.spec_depot(),
            depot < customers@.len(),
            rs == seqs_of_vecs(routes@),
            seqs_below(rs, customers@.len()),
            best matches Some(mv) ==> {
                &&& mv.from_route < routes@.len()
                &&& mv.to_route < routes@.len()
                &&& mv.from_route != mv.to_route
                &&& mv.from_pos < routes@[mv.from_route as int]@.len()
                &&& mv.to_pos <= routes@[mv.to_route as int]@.len()
                &&& load_of(customers@, routes@[mv.to_route as int]@) + customers@[routes@[mv.from_route as int]@[mv.from_pos as int] as int].spec_demand() <= vehicle.spec_capacity()
            },
        decreases routes@.len() - from_r,
    {
        assert(ids_below(rs[from_r as int], customers@.len()));
        let mut from_pos: usize = 0;
        while from_pos < routes[from_r].len()
            invariant
                valid_instance(customers@, *distances),
                depot == vehicle.spec_depot(),
                depot < customers@.len(),
                rs == seqs_of_vecs(routes@),
                seqs_below(rs, customers@.len()),
                from_r < routes@.len(),
                ids_below(routes@[from_r as int]@, customers@.len()),
                best matches Some(mv) ==> {
                    &&& mv.from_route < routes@.len()
                    &&& mv.to_route < routes@.len()
                    &&& mv.from_route != mv.to_route
                    &&& mv.from_pos < routes@[mv.from_route as int]@.len()
                    &&& mv.to_pos <= routes@[mv.to_route as int]@.len()
                    &&& load_of(customers@, routes@[mv.to_route as int]@) + customers@[routes@[mv.from_route as int]@[mv.from_pos as int] as int].spec_demand() <= vehicle.spec_capacity()
                },
            decreases routes@[from_r as int]@.len() - from_pos,
        {
            let cid = routes[from_r][from_pos];
            let removal_delta = removal_cost(routes[from_r].as_slice(), from_pos, depot, distances);
            let mut to_r: usize = 0;
            while to_r < routes.len()
                invariant
                    valid_instance(customers@, *distances),
                    depot == vehicle.spec_depot(),
                    depot < customers@.len(),
                    rs == seqs_of_vecs(routes@),
                    seqs_below(rs, customers@.len()),
                    from_r < routes@.len(),
                    from_pos < routes@[from_r as int]@.len(),
                    cid < customers@.len(),
                    cid == routes@[from_r as int]@[from_pos as int],
                    -0x2_0000_0000 <= removal_delta <= 0x1_0000_0000,
                    best matches Some(mv) ==> {
                        &&& mv.from_route < routes@.len()
                        &&& mv.to_route < routes@.len()
                        &&& mv.from_route != mv.to_route
                        &&& mv.from_pos < routes@[mv.from_route as int]@.len()
                        &&& mv.to_pos <= routes@[mv.to_route as int]@.len()
                        &&& load_of(customers@, routes@[mv.to_route as int]@) + customers@[routes@[mv.from_route as int]@[mv.from_pos as int] as int].spec_demand() <= vehicle.spec_capacity()
                    },
                decreases routes@.len() - to_r,
            {
                if to_r != from_r {
                    assert(ids_below(rs[to_r as int], customers@.len()));
                    let to_route = routes[to_r].as_slice();
                    let to_load = route_load(to_route, customers);
                    if to_load + customers[cid].demand() as u128 <= vehicle.capacity() as u128 {
                        let n_to = to_route.len();
                        let mut to_pos: usize = 0;
                        loop
                            invariant
                                n_to == to_route@.len(),
                                to_pos <= n_to,
                                valid_instance(customers@, *distances),
                                depot < customers@.len(),
                                to_route@ == routes@[to_r as int]@,
                                ids_below(to_route@, customers@.len()),
                                from_r < routes@.len(),
                                to_r < routes@.len(),
                                to_r != from_r,
                                from_pos < routes@[from_r as int]@.len(),
                                cid < customers@.len(),
                                cid == routes@[from_r as int]@[from_pos as int],
                                to_load == load_of(customers@, routes@[to_r as int]@),
                                to_load + customers@[cid as int].spec_demand() <= vehicle.spec_capacity(),
                                -0x2_0000_0000 <= removal_delta <= 0x1_0000_0000,
                                best matches Some(mv) ==> {
                                    &&& mv.from_route < routes@.len()
                                    &&& mv.to_route < routes@.len()
                                    &&& mv.from_route != mv.to_route
                                    &&& mv.from_pos < routes@[mv.from_route as int]@.len()
                                    &&& mv.to_pos <= routes@[mv.to_route as int]@.len()
                                    &&& load_of(customers@, routes@[mv.to_route as int]@) + customers@[routes@[mv.from_route as int]@[mv.from_pos as int] as int].spec_demand() <= vehicle.spec_capacity()
                                },
                            decreases n_to - to_pos,
                        {
                            let insertion_delta = insertion_cost(to_route, to_pos, cid, depot, distances);
                            let delta = removal_delta + insertion_delta;
                            if delta < 0 {
                                let is_better = match &best {
                                    None => true,
                                    Some(b) => delta < b.delta,
                                };
                                if is_better {
                                    best = Some(
                                        RelocateMove { from_route: from_r, from_pos, to_route: to_r, to_pos, delta },
                                    );
                                }
                            }
                            if to_pos == n_to {
                                break;
                            }
                            to_pos += 1;
                        }
                    }
                }
                to_r += 1;
            }
            from_pos += 1;
        }
        from_r += 1;
    }
    best
}

/// Improves a solution by moving single customers between routes: each
/// pass applies the move of largest gain over all customers, target routes
/// and positions, keeping the target within the vehicle's capacity, until
/// no move shortens the routes. Empty routes are dropped and every route is
/// rebuilt by the evaluator. A solution of fewer than two routes is returned
/// as it is.
pub fn relocate_improve(
    solution: &Solution,
    customers: &[Customer],
    distances: &DistanceMatrix,
    vehicle: &Vehicle,
) -> (r: Solution)
    requires
        valid_instance(customers@, *distances),
        vehicle.spec_depot() < customers@.len(),
        routes_below(solution.spec_routes(), customers@.len()),
    ensures
        served_ids(r.spec_routes()).to_multiset() == served_ids(solution.spec_routes()).to_multiset(),
        r.spec_unassigned() == solution.spec_unassigned(),
        solution.spec_routes().len() < 2 ==> route_ids(r.spec_routes()) == route_ids(solution.spec_routes())
            && r.spec_total_cost() == solution.spec_total_cost() && routes_distance(r.spec_routes()) == routes_distance(
            solution.spec_routes(),
        ),
        solution.spec_routes().len() >= 2 && seqs_fit(customers@, route_ids(solution.spec_routes()), vehicle.spec_capacity() as int)
            ==> forall|k: int| 0 <= k < r.spec_routes().len() ==> load_of(customers@, (#[trigger] r.spec_routes()[k]).spec_ids())
            <= vehicle.spec_capacity(),
        solution.spec_routes().len() >= 2 ==> forall|k: int| 0 <= k < r.spec_routes().len() ==> (#[trigger] r.spec_routes()[k]).spec_visits().len() > 0
            && built_route(customers@, *distances, *vehicle, r.spec_routes()[k].spec_ids(), r.spec_routes()[k]),
        solution.spec_routes().len() >= 2 ==> routes_distance(r.spec_routes()) <= seqs_cost(
            *distances,
            vehicle.spec_depot() as int,
            route_ids(solution.spec_routes()),
        ),
{
    if solution.num_routes() < 2 {
        let copy = copy_solution(solution);
        assert(route_ids(copy.spec_routes()) =~= route_ids(solution.spec_routes()));
        proof {
            crate::route_set::lemma_routes_distance_same(copy.spec_routes(), solution.spec_routes());
        }
        return copy;
    }
    let ghost depot = vehicle.spec_depot() as int;
    let ghost dm = *distances;
    let mut routes = ids_of_routes(solution.routes());
    let ghost rs0 = seqs_of_vecs(routes@);
    assert(rs0 =~= route_ids(solution.spec_routes()));
    assert(seqs_below(rs0, customers@.len()));
    loop
        invariant
            valid_instance(customers@, *distances),
            vehicle.spec_depot() < customers@.len(),
            dm == *distances,
            depot == vehicle.spec_depot() as int,
            rs0 == route_ids(solution.spec_routes()),
            routes@.len() == rs0.len(),
            seqs_below(seqs_of_vecs(routes@), customers@.len()),
            all_customers(seqs_of_vecs(routes@)) == all_customers(rs0),
            seqs_cost(dm, depot, seqs_of_vecs(routes@)) <= seqs_cost(dm, depot, rs0),
            seqs_fit(customers@, rs0, vehicle.spec_capacity() as int) ==> seqs_fit(
                customers@,
                seqs_of_vecs(routes@),
                vehicle.spec_capacity() as int,
            ),
        decreases seqs_cost(dm, depot, seqs_of_vecs(routes@)),
    {
        let ghost rs = seqs_of_vecs(routes@);
        proof {
            lemma_seqs_cost_nonneg(dm, depot, rs);
        }
        let best_move = find_best_relocate(&routes, customers, distances, vehicle);
        match best_move {
            None => {
                break;
            },
            Some(mv) => {
                let fr = mv.from_route;
                let tr = mv.to_route;
                assert(ids_below(rs[fr as int], customers@.len()));
                assert(ids_below(rs[tr as int], customers@.len()));
                let customer_id = routes[fr][mv.from_pos];
                let new_from = without(routes[fr].as_slice(), mv.from_pos);
                let new_to = with_inserted(routes[tr].as_slice(), mv.to_pos, customer_id);
                assert(ids_below(new_from@, customers@.len()));
                assert(ids_below(new_to@, customers@.len()));
                let depot_id = vehicle.depot_id();
                let old_pair = route_distance(routes[fr].as_slice(), depot_id, distances)
                    + route_distance(routes[tr].as_slice(), depot_id, distances);
                let new_pair = route_distance(new_from.as_slice(), depot_id, distances)
                    + route_distance(new_to.as_slice(), depot_id, distances);
                if new_pair >= old_pair {
                    break;
                }
                assert(old_pair == route_cost(dm, depot, rs[fr as int]) + route_cost(dm, depot, rs[tr as int]));
                assert(new_pair == route_cost(dm, depot, new_from@) + route_cost(dm, depot, new_to@));
                let ghost rs1 = rs.update(fr as int, new_from@);
                let ghost rs2 = rs1.update(tr as int, new_to@);
                proof {
                    lemma_all_customers_update(rs, fr as int, new_from@);
                    lemma_all_customers_update(rs1, tr as int, new_to@);
                    lemma_seqs_cost_update(dm, depot, rs, fr as int, new_from@);
                    lemma_seqs_cost_update(dm, depot, rs1, tr as int, new_to@);
                    vstd::seq_lib::to_multiset_remove(rs[fr as int], mv.from_pos as int);
                    vstd::seq_lib::to_multiset_insert(rs[tr as int], mv.to_pos as int, customer_id);
                    assert(rs[fr as int][mv.from_pos as int] == customer_id);
                    assert(rs1[tr as int] == rs[tr as int]);
                    let m_fr = rs[fr as int].to_multiset();
                    let m_nf = new_from@.to_multiset();
                    let m_tr = rs[tr as int].to_multiset();
                    let m_nt = new_to@.to_multiset();
                    vstd::seq_lib::to_multiset_contains(rs[fr as int], customer_id);
                    assert(m_fr.count(customer_id) > 0);
                    assert forall|v: usize| #[trigger] all_customers(rs2).count(v) == all_customers(rs).count(v) by {
                        assert(m_fr.count(v) == m_nf.count(v) + if v == customer_id { 1nat } else { 0nat });
                        assert(m_nt.count(v) == m_tr.count(v) + if v == customer_id { 1nat } else { 0nat });
                        assert(all_customers(rs1).add(m_fr).count(v) == all_customers(rs).add(m_nf).count(v));
                        assert(all_customers(rs2).add(m_tr).count(v) == all_customers(rs1).add(m_nt).count(v));
                    }
                    assert(all_customers(rs2) =~= all_customers(rs));
                    assert(seqs_cost(dm, depot, rs2) < seqs_cost(dm, depot, rs));
                    lemma_load_remove(customers@, rs[fr as int], mv.from_pos as int);
                    lemma_load_insert(customers@, rs[tr as int], mv.to_pos as int, customer_id);
                    if seqs_fit(customers@, rs0, vehicle.spec_capacity() as int) {
                        assert forall|i: int| 0 <= i < rs2.len() implies load_of(customers@, #[trigger] rs2[i])
                            <= vehicle.spec_capacity() by {
                            if i != fr && i != tr {
                                assert(rs2[i] == rs[i]);
                            }
                        }
                    }
                }
                routes.set(fr, new_from);
                routes.set(tr, new_to);
                assert(seqs_of_vecs(routes@) =~= rs2);
                assert(seqs_cost(dm, depot, seqs_of_vecs(routes@)) < seqs_cost(dm, depot, rs));
                proof {
                    lemma_seqs_cost_nonneg(dm, depot, rs2);
                }
            },
        }
    }
    let result = rebuild_solution(&routes, solution, distances, customers, vehicle);
    proof {
        lemma_joined_customers(rs0);
        if seqs_fit(customers@, rs0, vehicle.spec_capacity() as int) {
            crate::route_set::lemma_rebuilt_fit(customers@, result.spec_routes(), seqs_of_vecs(routes@), vehicle.spec_capacity() as int);
        }
    }
    result
}

} // verus!
