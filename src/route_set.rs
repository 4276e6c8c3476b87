//! Solutions seen as sequences of customer-id sequences: which customers
//! they hold, how long they are, and how they become a `Solution` again.

use vstd::multiset::Multiset;
use vstd::prelude::*;

use crate::distance::DistanceMatrix;
use crate::evaluation::{RouteEvaluator, built_route, ids_below, route_cost, routes_below};
use crate::models::customer::Customer;
use crate::models::route::{Route, joined, visit_ids};
use crate::models::solution::{Solution, capped, routes_distance, served_ids};
use crate::models::vehicle::Vehicle;

verus! {

broadcast use vstd::multiset::group_multiset_axioms;

/// The customers of all sequences of `rs`, with multiplicity.
pub open spec fn all_customers(rs: Seq<Seq<usize>>) -> Multiset<usize>
    decreases rs.len(),
{
    if rs.len() == 0 {
        Multiset::empty()
    } else {
        all_customers(rs.drop_last()).add(rs.last().to_multiset())
    }
}

/// Total length of the routes `rs`, each closed at `depot`.
pub open spec fn seqs_cost(dm: DistanceMatrix, depot: int, rs: Seq<Seq<usize>>) -> int
    decreases rs.len(),
{
    if rs.len() == 0 {
        0
    } else {
        seqs_cost(dm, depot, rs.drop_last()) + route_cost(dm, depot, rs.last())
    }
}

/// The customer ids of each route.
pub open spec fn route_ids(routes: Seq<Route>) -> Seq<Seq<usize>> {
    routes.map_values(|r: Route| r.spec_ids())
}

/// Every sequence of `rs` names only locations below `n`.
pub open spec fn seqs_below(rs: Seq<Seq<usize>>, n: nat) -> bool {
    forall|i: int| 0 <= i < rs.len() ==> ids_below(#[trigger] rs[i], n)
}

/// Replacing one sequence trades its customers for the new ones.
pub proof fn lemma_all_customers_update(rs: Seq<Seq<usize>>, a: int, x: Seq<usize>)
    requires
        0 <= a < rs.len(),
    ensures
        all_customers(rs.update(a, x)).add(rs[a].to_multiset()) == all_customers(rs).add(x.to_multiset()),
    decreases rs.len(),
{
    let u = rs.update(a, x);
    if a == rs.len() - 1 {
        assert(u.drop_last() =~= rs.drop_last());
        assert(u.last() == x);
        assert(rs.last() == rs[a]);
        assert(all_customers(u) == all_customers(rs.drop_last()).add(x.to_multiset()));
        assert(all_customers(rs) == all_customers(rs.drop_last()).add(rs[a].to_multiset()));
        let m0 = all_customers(rs.drop_last());
        assert(m0.add(x.to_multiset()).add(rs[a].to_multiset()) =~= m0.add(rs[a].to_multiset()).add(
            x.to_multiset(),
        ));
    } else {
        assert(u.drop_last() =~= rs.drop_last().update(a, x));
        lemma_all_customers_update(rs.drop_last(), a, x);
        assert(u.last() == rs.last());
        assert(rs.drop_last()[a] == rs[a]);
        let m0 = all_customers(rs.drop_last().update(a, x));
        let m1 = all_customers(rs.drop_last());
        let l = rs.last().to_multiset();
        assert(all_customers(u) == m0.add(l));
        assert(all_customers(rs) == m1.add(l));
        assert(m0.add(rs[a].to_multiset()) == m1.add(x.to_multiset()));
        assert(m0.add(l).add(rs[a].to_multiset()) =~= m0.add(rs[a].to_multiset()).add(l));
        assert(m1.add(x.to_multiset()).add(l) =~= m1.add(l).add(x.to_multiset()));
    }
}

/// Replacing one sequence trades its length for the new one's.
pub proof fn lemma_seqs_cost_update(dm: DistanceMatrix, depot: int, rs: Seq<Seq<usize>>, a: int, x: Seq<usize>)
    requires
        0 <= a < rs.len(),
    ensures
        seqs_cost(dm, depot, rs.update(a, x)) + route_cost(dm, depot, rs[a]) == seqs_cost(dm, depot, rs)
            + route_cost(dm, depot, x),
    decreases rs.len(),
{
    let u = rs.update(a, x);
    if a == rs.len() - 1 {
        assert(u.drop_last() =~= rs.drop_last());
    } else {
        assert(u.drop_last() =~= rs.drop_last().update(a, x));
        lemma_seqs_cost_update(dm, depot, rs.drop_last(), a, x);
    }
}

/// The customers of joined sequences are those of the sequences.
pub proof fn lemma_joined_customers(rs: Seq<Seq<usize>>)
    ensures
        joined(rs).to_multiset() == all_customers(rs),
    decreases rs.len(),
{
    if rs.len() > 0 {
        lemma_joined_customers(rs.drop_last());
        vstd::seq_lib::lemma_multiset_commutative(joined(rs.drop_last()), rs.last());
    } else {
        lemma_empty_customers(joined(rs));
    }
}

/// An empty sequence holds no customer.
pub proof fn lemma_empty_customers(s: Seq<usize>)
    requires
        s.len() == 0,
    ensures
        s.to_multiset() == Multiset::<usize>::empty(),
{
    assert forall|a: usize| s.to_multiset().count(a) == 0 by {
        vstd::seq_lib::to_multiset_contains(s, a);
    }
    assert(s.to_multiset() =~= Multiset::<usize>::empty());
}

/// A route built by the evaluator serves exactly the sequence it was built from.
pub proof fn lemma_built_ids(cs: Seq<Customer>, dm: DistanceMatrix, v: Vehicle, s: Seq<usize>, r: Route)
    requires
        built_route(cs, dm, v, s, r),
    ensures
        r.spec_ids() == s,
{
    assert(visit_ids(r.spec_visits()) =~= s);
}

/// The customer-id sequences of `routes`.
pub fn ids_of_routes(routes: &[Route]) -> (r: Vec<Vec<usize>>)
    ensures
        r@.len() == routes@.len(),
        forall|k: int| 0 <= k < routes@.len() ==> (#[trigger] r@[k])@ == routes@[k].spec_ids(),
{
    let mut r: Vec<Vec<usize>> = Vec::new();
    let mut k: usize = 0;
    while k < routes.len()
        invariant
            k <= routes@.len(),
            r@.len() == k,
            forall|q: int| 0 <= q < k ==> (#[trigger] r@[q])@ == routes@[q].spec_ids(),
        decreases routes@.len() - k,
    {
        r.push(routes[k].customer_ids());
        k += 1;
    }
    r
}

/// A copy of `s`.
pub fn copy_solution(s: &Solution) -> (r: Solution)
    ensures
        r.spec_routes().len() == s.spec_routes().len(),
        forall|k: int| 0 <= k < s.spec_routes().len() ==> {
            &&& (#[trigger] r.spec_routes()[k]).spec_visits() == s.spec_routes()[k].spec_visits()
            &&& r.spec_routes()[k].spec_vehicle_id() == s.spec_routes()[k].spec_vehicle_id()
            &&& r.spec_routes()[k].spec_total_distance() == s.spec_routes()[k].spec_total_distance()
            &&& r.spec_routes()[k].spec_total_duration() == s.spec_routes()[k].spec_total_duration()
            &&& r.spec_routes()[k].spec_total_load() == s.spec_routes()[k].spec_total_load()
        },
        r.spec_unassigned() == s.spec_unassigned(),
        r.spec_total_cost() == s.spec_total_cost(),
{
    let mut r = Solution::new();
    let routes = s.routes();
    let mut k: usize = 0;
    while k < routes.len()
        invariant
            k <= routes@.len(),
            routes@ == s.spec_routes(),
            r.spec_routes().len() == k,
            r.spec_unassigned() == Seq::<usize>::empty(),
            forall|q: int| 0 <= q < k ==> {
                &&& (#[trigger] r.spec_routes()[q]).spec_visits() == routes@[q].spec_visits()
                &&& r.spec_routes()[q].spec_vehicle_id() == routes@[q].spec_vehicle_id()
                &&& r.spec_routes()[q].spec_total_distance() == routes@[q].spec_total_distance()
                &&& r.spec_routes()[q].spec_total_duration() == routes@[q].spec_total_duration()
                &&& r.spec_routes()[q].spec_total_load() == routes@[q].spec_total_load()
            },
        decreases routes@.len() - k,
    {
        r.add_route(routes[k].duplicate());
        k += 1;
    }
    let un = s.unassigned();
    let mut k: usize = 0;
    while k < un.len()
        invariant
            k <= un@.len(),
            un@ == s.spec_unassigned(),
            r.spec_routes().len() == routes@.len(),
            r.spec_unassigned() == un@.take(k as int),
            forall|q: int| 0 <= q < routes@.len() ==> {
                &&& (#[trigger] r.spec_routes()[q]).spec_visits() == routes@[q].spec_visits()
                &&& r.spec_routes()[q].spec_vehicle_id() == routes@[q].spec_vehicle_id()
                &&& r.spec_routes()[q].spec_total_distance() == routes@[q].spec_total_distance()
                &&& r.spec_routes()[q].spec_total_duration() == routes@[q].spec_total_duration()
                &&& r.spec_routes()[q].spec_total_load() == routes@[q].spec_total_load()
            },
        decreases un@.len() - k,
    {
        r.add_unassigned(un[k]);
        k += 1;
        assert(r.spec_unassigned() =~= un@.take(k as int));
    }
    assert(un@.take(k as int) =~= un@);
    r.set_total_cost(s.total_cost());
    r
}

#[verifier::rlimit(80)]
/// Builds a solution from the non-empty sequences of `routes`, each through
/// the evaluator with `vehicle`, keeps the unassigned customers of
/// `source`, and sets the cost to the total distance.
pub fn rebuild_solution(
    routes: &Vec<Vec<usize>>,
    source: &Solution,
    distances: &DistanceMatrix,
    customers: &[Customer],
    vehicle: &Vehicle,
) -> (r: Solution)
    requires
        crate::evaluation::valid_instance(customers@, *distances),
        vehicle.spec_depot() < customers@.len(),
        seqs_below(seqs_of_vecs(routes@), customers@.len()),
    ensures
        served_ids(r.spec_routes()).to_multiset() == all_customers(seqs_of_vecs(routes@)),
        route_ids(r.spec_routes()) == nonempty_only(seqs_of_vecs(routes@)),
        routes_distance(r.spec_routes()) == seqs_cost(*distances, vehicle.spec_depot() as int, seqs_of_vecs(routes@)),
        forall|k: int| 0 <= k < r.spec_routes().len() ==> (#[trigger] r.spec_routes()[k]).spec_visits().len() > 0
            && built_route(customers@, *distances, *vehicle, r.spec_routes()[k].spec_ids(), r.spec_routes()[k]),
        routes_below(r.spec_routes(), customers@.len()),
        r.spec_unassigned() == source.spec_unassigned(),
        r.spec_total_cost() == capped(routes_distance(r.spec_routes()), u128::MAX as int),
{
    let ghost rs = seqs_of_vecs(routes@);
    let ghost depot = vehicle.spec_depot() as int;
    let evaluator = RouteEvaluator::new(customers, distances, vehicle);
    let mut solution = Solution::new();
    assert(route_ids(solution.spec_routes()).len() == 0);
    proof {
        lemma_empty_customers(served_ids(solution.spec_routes()));
    }
    assert(rs.take(0).len() == 0);
    assert(route_ids(solution.spec_routes()) =~= nonempty_only(rs.take(0)));
    let mut k: usize = 0;
    while k < routes.len()
        invariant
            rs == seqs_of_vecs(routes@),
            evaluator.valid(),
            evaluator.spec_customers() == customers@,
            evaluator.spec_distances() == *distances,
            evaluator.spec_vehicle() == *vehicle,
            depot == vehicle.spec_depot() as int,
            seqs_below(rs, customers@.len()),
            k <= rs.len(),
            solution.spec_unassigned() == Seq::<usize>::empty(),
            served_ids(solution.spec_routes()).to_multiset() == all_customers(rs.take(k as int)),
            route_ids(solution.spec_routes()) == nonempty_only(rs.take(k as int)),
            routes_distance(solution.spec_routes()) == seqs_cost(*distances, depot, rs.take(k as int)),
            forall|q: int| 0 <= q < solution.spec_routes().len() ==> (#[trigger] solution.spec_routes()[q]).spec_visits().len() > 0
                && built_route(customers@, *distances, *vehicle, solution.spec_routes()[q].spec_ids(), solution.spec_routes()[q]),
            routes_below(solution.spec_routes(), customers@.len()),
        decreases rs.len() - k,
    {
        let ghost pre = solution.spec_routes();
        assert(rs.take(k + 1).drop_last() =~= rs.take(k as int));
        assert(rs.take(k + 1).last() == rs[k as int]);
        if routes[k].len() > 0 {
            assert(ids_below(rs[k as int], customers@.len()));
            let (route, _) = evaluator.build_route(routes[k].as_slice());
            proof {
                lemma_built_ids(customers@, *distances, *vehicle, rs[k as int], route);
            }
            solution.add_route(route);
            let ghost post = solution.spec_routes();
            assert(post.drop_last() =~= pre);
            assert(route_ids(post) =~= route_ids(pre).push(rs[k as int]));
            assert(route_ids(post).drop_last() =~= route_ids(pre));
            assert(route_ids(post) =~= nonempty_only(rs.take(k + 1)));
            proof {
                lemma_joined_customers(route_ids(post));
                lemma_joined_customers(route_ids(pre));
            }
        } else {
            proof {
                lemma_empty_customers(rs[k as int]);
            }
            assert(all_customers(rs.take(k + 1)) =~= all_customers(rs.take(k as int)));
            assert(nonempty_only(rs.take(k + 1)) == nonempty_only(rs.take(k as int)));
        }
        k += 1;
    }
    assert(rs.take(k as int) =~= rs);
    let un = source.unassigned();
    let mut q: usize = 0;
    while q < un.len()
        invariant
            q <= un@.len(),
            un@ == source.spec_unassigned(),
            solution.spec_unassigned() == un@.take(q as int),
            served_ids(solution.spec_routes()).to_multiset() == all_customers(rs),
            route_ids(solution.spec_routes()) == nonempty_only(rs),
            routes_distance(solution.spec_routes()) == seqs_cost(*distances, depot, rs),
            forall|p: int| 0 <= p < solution.spec_routes().len() ==> (#[trigger] solution.spec_routes()[p]).spec_visits().len() > 0
                && built_route(customers@, *distances, *vehicle, solution.spec_routes()[p].spec_ids(), solution.spec_routes()[p]),
            routes_below(solution.spec_routes(), customers@.len()),
        decreases un@.len() - q,
    {
        solution.add_unassigned(un[q]);
        q += 1;
        assert(solution.spec_unassigned() =~= un@.take(q as int));
    }
    assert(un@.take(q as int) =~= un@);
    let total = solution.total_distance();
    solution.set_total_cost(total);
    solution
}

/// The contents of a sequence of vectors.
pub open spec fn seqs_of_vecs(v: Seq<Vec<usize>>) -> Seq<Seq<usize>> {
    v.map_values(|r: Vec<usize>| r@)
}

/// Total length of routes is never negative.
pub proof fn lemma_seqs_cost_nonneg(dm: DistanceMatrix, depot: int, rs: Seq<Seq<usize>>)
    ensures
        seqs_cost(dm, depot, rs) >= 0,
    decreases rs.len(),
{
    if rs.len() > 0 {
        lemma_seqs_cost_nonneg(dm, depot, rs.drop_last());
        crate::evaluation::lemma_route_bounds(Seq::<Customer>::empty(), dm, depot, rs.last());
    }
}

/// Total demand of the customers of `route`.
pub fn route_load(route: &[usize], customers: &[Customer]) -> (r: u128)
    requires
        ids_below(route@, customers@.len()),
    ensures
        r == crate::evaluation::load_of(customers@, route@),
        r <= 0x1_0000_0000_0000_0000_0000_0000,
{
    let n = route.len();
    let mut load: u128 = 0;
    let mut k: usize = 0;
    while k < route.len()
        invariant
            ids_below(route@, customers@.len()),
            k <= route@.len(),
            load == crate::evaluation::load_of(customers@, route@.take(k as int)),
        decreases route@.len() - k,
    {
        assert(route@.take(k + 1).drop_last() =~= route@.take(k as int));
        proof {
            crate::evaluation::lemma_route_bounds(customers@, vstd::pervasive::arbitrary::<DistanceMatrix>(), 0, route@.take(k + 1));
        }
        load = load + customers[route[k]].demand() as u128;
        k += 1;
    }
    assert(route@.take(k as int) =~= route@);
    proof {
        crate::evaluation::lemma_route_bounds(customers@, vstd::pervasive::arbitrary::<DistanceMatrix>(), 0, route@);
        assert(n * crate::evaluation::unit_max() <= 0x1_0000_0000_0000_0000_0000_0000) by (nonlinear_arith)
            requires n <= usize::MAX;
    }
    load
}

/// Builds the route `ids` with the evaluator and appends it to `solution`.
pub fn push_built_route(solution: &mut Solution, evaluator: &RouteEvaluator, ids: &[usize])
    requires
        evaluator.valid(),
        ids_below(ids@, evaluator.spec_customers().len()),
    ensures
        final(solution).spec_routes().len() == old(solution).spec_routes().len() + 1,
        final(solution).spec_routes().drop_last() == old(solution).spec_routes(),
        built_route(
            evaluator.spec_customers(),
            evaluator.spec_distances(),
            evaluator.spec_vehicle(),
            ids@,
            final(solution).spec_routes().last(),
        ),
        final(solution).spec_routes().last().spec_ids() == ids@,
        final(solution).spec_unassigned() == old(solution).spec_unassigned(),
        served_ids(final(solution).spec_routes()).to_multiset() == served_ids(old(solution).spec_routes()).to_multiset().add(
            ids@.to_multiset(),
        ),
{
    let (route, _) = evaluator.build_route(ids);
    proof {
        lemma_built_ids(evaluator.spec_customers(), evaluator.spec_distances(), evaluator.spec_vehicle(), ids@, route);
    }
    let ghost pre = solution.spec_routes();
    solution.add_route(route);
    proof {
        let post = solution.spec_routes();
        assert(post.drop_last() =~= pre);
        assert(route_ids(post) =~= route_ids(pre).push(ids@));
        assert(route_ids(post).drop_last() =~= route_ids(pre));
        vstd::seq_lib::lemma_multiset_commutative(joined(route_ids(pre)), ids@);
    }
}

/// The sequences of `rs` that are not empty, in order.
pub open spec fn nonempty_only(rs: Seq<Seq<usize>>) -> Seq<Seq<usize>>
    decreases rs.len(),
{
    if rs.len() == 0 {
        rs
    } else if rs.last().len() > 0 {
        nonempty_only(rs.drop_last()).push(rs.last())
    } else {
        nonempty_only(rs.drop_last())
    }
}

/// Dropping empty sequences keeps the customers.
pub proof fn lemma_nonempty_only_customers(rs: Seq<Seq<usize>>)
    ensures
        all_customers(nonempty_only(rs)) == all_customers(rs),
        forall|k: int| 0 <= k < nonempty_only(rs).len() ==> (#[trigger] nonempty_only(rs)[k]).len() > 0,
    decreases rs.len(),
{
    if rs.len() > 0 {
        lemma_nonempty_only_customers(rs.drop_last());
        if rs.last().len() == 0 {
            lemma_empty_customers(rs.last());
            assert(all_customers(rs) =~= all_customers(rs.drop_last()));
        } else {
            let p = nonempty_only(rs.drop_last());
            assert(nonempty_only(rs).drop_last() =~= p);
            assert forall|k: int| 0 <= k < nonempty_only(rs).len() implies (#[trigger] nonempty_only(rs)[k]).len() > 0 by {
                if k < p.len() {
                    assert(nonempty_only(rs)[k] == p[k]);
                }
            }
        }
    }
}

/// For routes built by the evaluator, the cached distances add up to the
/// length of their customer sequences.
pub proof fn lemma_built_routes_distance(cs: Seq<Customer>, dm: DistanceMatrix, v: Vehicle, routes: Seq<Route>)
    requires
        forall|k: int| 0 <= k < routes.len() ==> built_route(cs, dm, v, (#[trigger] routes[k]).spec_ids(), routes[k]),
    ensures
        routes_distance(routes) == seqs_cost(dm, v.spec_depot() as int, route_ids(routes)),
    decreases routes.len(),
{
    if routes.len() > 0 {
        assert forall|k: int| 0 <= k < routes.drop_last().len() implies built_route(
            cs,
            dm,
            v,
            (#[trigger] routes.drop_last()[k]).spec_ids(),
            routes.drop_last()[k],
        ) by {
            assert(routes.drop_last()[k] == routes[k]);
        }
        lemma_built_routes_distance(cs, dm, v, routes.drop_last());
        assert(route_ids(routes).drop_last() =~= route_ids(routes.drop_last()));
        assert(built_route(cs, dm, v, routes[routes.len() - 1].spec_ids(), routes[routes.len() - 1]));
    }
}

/// Each sequence kept by `nonempty_only` is one of those it was given.
pub proof fn lemma_nonempty_only_elements(rs: Seq<Seq<usize>>)
    ensures
        forall|k: int| 0 <= k < nonempty_only(rs).len() ==> exists|j: int| 0 <= j < rs.len() && #[trigger] nonempty_only(rs)[k] == rs[j],
    decreases rs.len(),
{
    if rs.len() > 0 {
        lemma_nonempty_only_elements(rs.drop_last());
        let p = nonempty_only(rs.drop_last());
        assert forall|k: int| 0 <= k < nonempty_only(rs).len() implies exists|j: int| 0 <= j < rs.len() && #[trigger] nonempty_only(rs)[k] == rs[j] by {
            if k < p.len() {
                assert(nonempty_only(rs)[k] == p[k]);
                let j = choose|j: int| 0 <= j < rs.drop_last().len() && p[k] == rs.drop_last()[j];
                assert(rs.drop_last()[j] == rs[j]);
            } else {
                assert(nonempty_only(rs)[k] == rs[rs.len() - 1]);
            }
        }
    }
}

/// Routes with the same cached distances, position by position, have the
/// same total.
pub proof fn lemma_routes_distance_same(a: Seq<Route>, b: Seq<Route>)
    requires
        a.len() == b.len(),
        forall|k: int| 0 <= k < a.len() ==> (#[trigger] a[k]).spec_total_distance() == b[k].spec_total_distance(),
    ensures
        routes_distance(a) == routes_distance(b),
    decreases a.len(),
{
    if a.len() > 0 {
        assert forall|k: int| 0 <= k < a.drop_last().len() implies (#[trigger] a.drop_last()[k]).spec_total_distance()
            == b.drop_last()[k].spec_total_distance() by {
            assert(a.drop_last()[k] == a[k]);
            assert(b.drop_last()[k] == b[k]);
        }
        lemma_routes_distance_same(a.drop_last(), b.drop_last());
        assert(a.last().spec_total_distance() == b.last().spec_total_distance());
    }
}

/// Every sequence of `rs` carries at most `capacity`.
pub open spec fn seqs_fit(cs: Seq<Customer>, rs: Seq<Seq<usize>>, capacity: int) -> bool {
    forall|i: int| 0 <= i < rs.len() ==> crate::evaluation::load_of(cs, #[trigger] rs[i]) <= capacity
}

/// Rebuilt routes fit when the sequences they came from do.
pub proof fn lemma_rebuilt_fit(cs: Seq<Customer>, routes: Seq<Route>, rs: Seq<Seq<usize>>, capacity: int)
    requires
        route_ids(routes) == nonempty_only(rs),
        seqs_fit(cs, rs, capacity),
    ensures
        forall|k: int| 0 <= k < routes.len() ==> crate::evaluation::load_of(cs, (#[trigger] routes[k]).spec_ids()) <= capacity,
{
    lemma_nonempty_only_elements(rs);
    assert forall|k: int| 0 <= k < routes.len() implies crate::evaluation::load_of(cs, (#[trigger] routes[k]).spec_ids()) <= capacity by {
        assert(route_ids(routes)[k] == routes[k].spec_ids());
        let j = choose|j: int| 0 <= j < rs.len() && #[trigger] nonempty_only(rs)[k] == rs[j];
    }
}

} // verus!
