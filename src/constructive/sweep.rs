//! Sweep construction: serving customers in order of polar angle around
//! the depot.

use vstd::prelude::*;

use crate::constructive::customer_ids;
use crate::constructive::nearest_neighbor::partitions_customers;
use crate::distance::DistanceMatrix;
use crate::evaluation::{RouteEvaluator, built_route, ids_below, load_of, valid_instance};
use crate::models::customer::Customer;
use crate::models::solution::{Solution, capped, routes_distance, served_ids};
use crate::models::vehicle::Vehicle;
use crate::route_set::{lemma_empty_customers, lemma_joined_customers, push_built_route, route_ids};

verus! {

broadcast use vstd::multiset::group_multiset_axioms;

/// Which part of the turn the direction `(dx, dy)` lies in: 0 below the
/// x-axis, 1 from the positive x-axis up to (not including) the negative
/// x-axis, 2 on the negative x-axis. The zero vector counts as angle 0.
fn half_plane(dx: i64, dy: i64) -> (r: u8)
    ensures
        r <= 2,
{
    if dy < 0 {
        0
    } else if dy > 0 || dx >= 0 {
        1
    } else {
        2
    }
}

/// Whether direction `a` has a strictly smaller polar angle in `(-π, π]`
/// than direction `b`, as `atan2` measures it.
fn angle_before(ax: i64, ay: i64, bx: i64, by: i64) -> bool
    requires
        -0x1_0000_0000 <= ax <= 0x1_0000_0000,
        -0x1_0000_0000 <= ay <= 0x1_0000_0000,
        -0x1_0000_0000 <= bx <= 0x1_0000_0000,
        -0x1_0000_0000 <= by <= 0x1_0000_0000,
{
    let (ax, ay) = if ax == 0 && ay == 0 {
        (1i64, 0i64)
    } else {
        (ax, ay)
    };
    let (bx, by) = if bx == 0 && by == 0 {
        (1i64, 0i64)
    } else {
        (bx, by)
    };
    let ha = half_plane(ax, ay);
    let hb = half_plane(bx, by);
    if ha != hb {
        return ha < hb;
    }
    if ha == 2 {
        return false;
    }
    assert(-0x1_0000_0000_0000_0000 <= (ax as int) * (by as int) <= 0x1_0000_0000_0000_0000) by (nonlinear_arith)
        requires -0x1_0000_0000 <= ax <= 0x1_0000_0000, -0x1_0000_0000 <= by <= 0x1_0000_0000;
    assert(-0x1_0000_0000_0000_0000 <= (ay as int) * (bx as int) <= 0x1_0000_0000_0000_0000) by (nonlinear_arith)
        requires -0x1_0000_0000 <= ay <= 0x1_0000_0000, -0x1_0000_0000 <= bx <= 0x1_0000_0000;
    let cross: i128 = ax as i128 * by as i128 - ay as i128 * bx as i128;
    cross > 0
}

/// Merges two runs of customer ids sorted by angle; the first run first on
/// ties.
fn merge_by_angle(a: Vec<usize>, b: Vec<usize>, dxs: &Vec<i64>, dys: &Vec<i64>) -> (r: Vec<usize>)
    requires
        dxs@.len() == dys@.len(),
        ids_below(a@, dxs@.len()),
        ids_below(b@, dxs@.len()),
        forall|k: int| 0 <= k < dxs@.len() ==> -0x1_0000_0000 <= #[trigger] dxs@[k] <= 0x1_0000_0000,
        forall|k: int| 0 <= k < dys@.len() ==> -0x1_0000_0000 <= #[trigger] dys@[k] <= 0x1_0000_0000,
    ensures
        r@.to_multiset() == a@.to_multiset().add(b@.to_multiset()),
        ids_below(r@, dxs@.len()),
{
    let mut r: Vec<usize> = Vec::new();
    let mut x: usize = 0;
    let mut y: usize = 0;
    proof {
        lemma_empty_customers(r@);
        lemma_empty_customers(a@.take(0));
        lemma_empty_customers(b@.take(0));
    }
    while x < a.len() || y < b.len()
        invariant
            dxs@.len() == dys@.len(),
            ids_below(a@, dxs@.len()),
            ids_below(b@, dxs@.len()),
            forall|k: int| 0 <= k < dxs@.len() ==> -0x1_0000_0000 <= #[trigger] dxs@[k] <= 0x1_0000_0000,
            forall|k: int| 0 <= k < dys@.len() ==> -0x1_0000_0000 <= #[trigger] dys@[k] <= 0x1_0000_0000,
            x <= a@.len(),
            y <= b@.len(),
            r@.to_multiset() == a@.take(x as int).to_multiset().add(b@.take(y as int).to_multiset()),
            ids_below(r@, dxs@.len()),
        decreases a@.len() + b@.len() - x - y,
    {
        let take_a = if x < a.len() && y < b.len() {
            !angle_before(dxs[b[y]], dys[b[y]], dxs[a[x]], dys[a[x]])
        } else {
            x < a.len()
        };
        let ghost pre = r@;
        if take_a {
            r.push(a[x]);
            proof {
                vstd::seq_lib::to_multiset_build(pre, a@[x as int]);
                assert(a@.take(x + 1) =~= a@.take(x as int).push(a@[x as int]));
                vstd::seq_lib::to_multiset_build(a@.take(x as int), a@[x as int]);
            }
            x += 1;
        } else {
            r.push(b[y]);
            proof {
                vstd::seq_lib::to_multiset_build(pre, b@[y as int]);
                assert(b@.take(y + 1) =~= b@.take(y as int).push(b@[y as int]));
                vstd::seq_lib::to_multiset_build(b@.take(y as int), b@[y as int]);
            }
            y += 1;
        }
        assert(r@.to_multiset() =~= a@.take(x as int).to_multiset().add(b@.take(y as int).to_multiset()));
    }
    assert(a@.take(x as int) =~= a@);
    assert(b@.take(y as int) =~= b@);
    r
}

/// Sorts customer ids by increasing polar angle of `(dxs[c], dys[c])`;
/// equal angles keep their order.
fn sort_by_angle(v: Vec<usize>, dxs: &Vec<i64>, dys: &Vec<i64>) -> (r: Vec<usize>)
    requires
        dxs@.len() == dys@.len(),
        ids_below(v@, dxs@.len()),
        forall|k: int| 0 <= k < dxs@.len() ==> -0x1_0000_0000 <= #[trigger] dxs@[k] <= 0x1_0000_0000,
        forall|k: int| 0 <= k < dys@.len() ==> -0x1_0000_0000 <= #[trigger] dys@[k] <= 0x1_0000_0000,
    ensures
        r@.to_multiset() == v@.to_multiset(),
        ids_below(r@, dxs@.len()),
    decreases v@.len(),
{
    let len = v.len();
    if len <= 1 {
        return v;
    }
    let mid = len / 2;
    let mut left: Vec<usize> = Vec::new();
    let mut right: Vec<usize> = Vec::new();
    let mut k: usize = 0;
    while k < len
        invariant
            len == v@.len(),
            0 < mid < len,
            k <= len,
            left@ == v@.take(if k < mid { k as int } else { mid as int }),
            right@ == if k < mid { Seq::<usize>::empty() } else { v@.subrange(mid as int, k as int) },
        decreases len - k,
    {
        if k < mid {
            left.push(v[k]);
        } else {
            right.push(v[k]);
        }
        k += 1;
        assert(left@ =~= v@.take(if k < mid { k as int } else { mid as int }));
        assert(right@ =~= if k < mid { Seq::<usize>::empty() } else { v@.subrange(mid as int, k as int) });
    }
    proof {
        assert(v@ =~= left@ + right@);
        vstd::seq_lib::lemma_multiset_commutative(left@, right@);
    }
    let sl = sort_by_angle(left, dxs, dys);
    let sr = sort_by_angle(right, dxs, dys);
    merge_by_angle(sl, sr, dxs, dys)
}

/// Customer ids `1..n` by increasing polar angle around location `depot`.
fn angular_order(customers: &[Customer], depot_id: usize) -> (r: Vec<usize>)
    requires
        depot_id < customers@.len(),
    ensures
        r@.to_multiset() == customer_ids(customers@.len()),
        ids_below(r@, customers@.len()),
{
    let ghost cs = customers@;
    let n = customers.len();
    let depot = &customers[depot_id];
    let depot_x = depot.x() as i64;
    let depot_y = depot.y() as i64;
    let mut dxs: Vec<i64> = Vec::new();
    let mut dys: Vec<i64> = Vec::new();
    let mut order: Vec<usize> = Vec::new();
    let mut i: usize = 0;
    proof {
        lemma_empty_customers(order@);
    }
    while i < n
        invariant
            cs == customers@,
            n == cs.len(),
            i <= n,
            dxs@.len() == i,
            dys@.len() == i,
            -0x8000_0000 <= depot_x < 0x8000_0000,
            -0x8000_0000 <= depot_y < 0x8000_0000,
            forall|k: int| 0 <= k < dxs@.len() ==> -0x1_0000_0000 <= #[trigger] dxs@[k] <= 0x1_0000_0000,
            forall|k: int| 0 <= k < dys@.len() ==> -0x1_0000_0000 <= #[trigger] dys@[k] <= 0x1_0000_0000,
            ids_below(order@, n as nat),
            order@.to_multiset() == customer_ids(i as nat),
        decreases n - i,
    {
        dxs.push(customers[i].x() as i64 - depot_x);
        dys.push(customers[i].y() as i64 - depot_y);
        if i > 0 {
            let ghost pre = order@;
            order.push(i);
            proof {
                vstd::seq_lib::to_multiset_build(pre, i);
            }
        } else {
            assert(customer_ids(1) =~= vstd::multiset::Multiset::empty());
        }
        i += 1;
    }
    sort_by_angle(order, &dxs, &dys)
}

#[verifier::rlimit(80)]
/// Sweep construction: customers are taken by increasing polar angle
/// around the vehicle's depot (equal angles by id); each joins the current
/// route, and a new route is opened when its demand would exceed the
/// remaining capacity. Customers whose demand alone exceeds the capacity
/// are unassigned.
pub fn sweep(customers: &[Customer], distances: &DistanceMatrix, vehicle: &Vehicle) -> (r: Solution)
    requires
        valid_instance(customers@, *distances),
        vehicle.spec_depot() < customers@.len(),
    ensures
        partitions_customers(r, customers@.len()),
        forall|k: int| 0 <= k < r.spec_routes().len() ==> (#[trigger] r.spec_routes()[k]).spec_visits().len() > 0
            && built_route(customers@, *distances, *vehicle, r.spec_routes()[k].spec_ids(), r.spec_routes()[k])
            && load_of(customers@, r.spec_routes()[k].spec_ids()) <= vehicle.spec_capacity(),
        forall|k: int| 0 <= k < r.spec_unassigned().len() ==> customers@[#[trigger] r.spec_unassigned()[k] as int].spec_demand()
            > vehicle.spec_capacity(),
        r.spec_total_cost() == capped(routes_distance(r.spec_routes()), u128::MAX as int),
        customers@.len() <= 1 ==> r.spec_routes().len() == 0 && r.spec_unassigned().len() == 0,
{
    let ghost cs = customers@;
    let n = customers.len();
    if n <= 1 {
        let s = Solution::new();
        proof {
            lemma_empty_customers(s.spec_unassigned());
            lemma_joined_customers(route_ids(s.spec_routes()));
            assert(route_ids(s.spec_routes()).len() == 0);
            assert(served_ids(s.spec_routes()).to_multiset() =~= vstd::multiset::Multiset::empty());
            assert(customer_ids(n as nat) =~= vstd::multiset::Multiset::empty());
            assert(served_ids(s.spec_routes()).to_multiset().add(s.spec_unassigned().to_multiset())
                =~= customer_ids(cs.len()));
        }
        return s;
    }
    let sorted = angular_order(customers, vehicle.depot_id());
    let evaluator = RouteEvaluator::new(customers, distances, vehicle);
    let capacity = vehicle.capacity() as u128;
    let mut solution = Solution::new();
    let mut current_load: u128 = 0;
    let mut current_route: Vec<usize> = Vec::new();
    proof {
        lemma_empty_customers(current_route@);
        lemma_empty_customers(solution.spec_unassigned());
        lemma_empty_customers(sorted@.take(0));
        lemma_joined_customers(route_ids(solution.spec_routes()));
        assert(route_ids(solution.spec_routes()).len() == 0);
    }
    let mut k: usize = 0;
    while k < sorted.len()
        invariant
            cs == customers@,
            n == cs.len(),
            evaluator.valid(),
            evaluator.spec_customers() == cs,
            evaluator.spec_distances() == *distances,
            evaluator.spec_vehicle() == *vehicle,
            capacity == vehicle.spec_capacity(),
            ids_below(sorted@, n as nat),
            k <= sorted@.len(),
            served_ids(solution.spec_routes()).to_multiset().add(solution.spec_unassigned().to_multiset()).add(
                current_route@.to_multiset(),
            ) == sorted@.take(k as int).to_multiset(),
            ids_below(current_route@, n as nat),
            current_load == load_of(cs, current_route@),
            current_load <= capacity,
            forall|q: int| 0 <= q < solution.spec_routes().len() ==> (#[trigger] solution.spec_routes()[q]).spec_visits().len() > 0
                && built_route(cs, *distances, *vehicle, solution.spec_routes()[q].spec_ids(), solution.spec_routes()[q])
                && load_of(cs, solution.spec_routes()[q].spec_ids()) <= vehicle.spec_capacity(),
            forall|q: int| 0 <= q < solution.spec_unassigned().len() ==> cs[#[trigger] solution.spec_unassigned()[q] as int].spec_demand()
                > vehicle.spec_capacity(),
        decreases sorted@.len() - k,
    {
        let cid = sorted[k];
        let demand = customers[cid].demand() as u128;
        if current_load + demand > capacity && current_route.len() > 0 {
            let ghost pre_routes = solution.spec_routes();
            let ghost cr = current_route@;
            push_built_route(&mut solution, &evaluator, current_route.as_slice());
            proof {
                let post = solution.spec_routes();
                assert forall|q: int| 0 <= q < post.len() implies (#[trigger] post[q]).spec_visits().len() > 0
                    && built_route(cs, *distances, *vehicle, post[q].spec_ids(), post[q])
                    && load_of(cs, post[q].spec_ids()) <= vehicle.spec_capacity() by {
                    if q < pre_routes.len() {
                        assert(post[q] == pre_routes[q]);
                    } else {
                        assert(post[q] == post.last());
                    }
                }
            }
            current_route = Vec::new();
            current_load = 0;
            proof {
                lemma_empty_customers(current_route@);
                lemma_empty_customers(cr.take(0));
                assert(served_ids(solution.spec_routes()).to_multiset().add(solution.spec_unassigned().to_multiset()).add(
                    current_route@.to_multiset()) =~= sorted@.take(k as int).to_multiset());
            }
        }
        let ghost pre_cur = current_route@;
        let ghost pre_un = solution.spec_unassigned();
        if demand <= capacity {
            current_route.push(cid);
            current_load = current_load + demand;
            proof {
                vstd::seq_lib::to_multiset_build(pre_cur, cid);
                assert(current_route@.drop_last() =~= pre_cur);
                assert(current_route@.last() == cid);
                assert(load_of(cs, current_route@) == load_of(cs, pre_cur) + cs[cid as int].spec_demand());
            }
        } else {
            solution.add_unassigned(cid);
            proof {
                vstd::seq_lib::to_multiset_build(pre_un, cid);
            }
        }
        proof {
            assert(sorted@.take(k + 1) =~= sorted@.take(k as int).push(cid));
            vstd::seq_lib::to_multiset_build(sorted@.take(k as int), cid);
            assert(served_ids(solution.spec_routes()).to_multiset().add(solution.spec_unassigned().to_multiset()).add(
                current_route@.to_multiset()) =~= sorted@.take(k + 1).to_multiset());
        }
        k += 1;
    }
    if current_route.len() > 0 {
        let ghost pre_routes = solution.spec_routes();
        push_built_route(&mut solution, &evaluator, current_route.as_slice());
        proof {
            let post = solution.spec_routes();
            assert forall|q: int| 0 <= q < post.len() implies (#[trigger] post[q]).spec_visits().len() > 0
                && built_route(cs, *distances, *vehicle, post[q].spec_ids(), post[q])
                && load_of(cs, post[q].spec_ids()) <= vehicle.spec_capacity() by {
                if q < pre_routes.len() {
                    assert(post[q] == pre_routes[q]);
                } else {
                    assert(post[q] == post.last());
                }
            }
        }
    } else {
        proof {
            lemma_empty_customers(current_route@);
        }
    }
    proof {
        assert(sorted@.take(k as int) =~= sorted@);
        assert(served_ids(solution.spec_routes()).to_multiset().add(solution.spec_unassigned().to_multiset())
            =~= customer_ids(cs.len()));
    }
    let total = solution.total_distance();
    solution.set_total_cost(total);
    solution
}

} // verus!
