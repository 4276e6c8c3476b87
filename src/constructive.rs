//! Constructive heuristics: nearest neighbour (plain and with time
//! windows), Clarke-Wright savings, sweep and Solomon's I1 insertion.

pub mod clarke_wright;
pub mod nearest_neighbor;
pub mod nn_tw;
pub mod solomon_i1;
pub mod sweep;

use vstd::multiset::Multiset;
use vstd::prelude::*;

verus! {

broadcast use vstd::multiset::group_multiset_axioms;

/// The customers `1..n` of a problem of `n` locations, once each.
pub open spec fn customer_ids(n: nat) -> Multiset<usize>
    decreases n,
{
    if n <= 1 {
        Multiset::empty()
    } else {
        customer_ids((n - 1) as nat).insert((n - 1) as usize)
    }
}

/// The positions `i >= 1` of `v` with `v[i]` equal to `flag`.
pub open spec fn flagged(v: Seq<bool>, flag: bool) -> Multiset<usize>
    decreases v.len(),
{
    if v.len() <= 1 {
        Multiset::empty()
    } else if v.last() == flag {
        flagged(v.drop_last(), flag).insert((v.len() - 1) as usize)
    } else {
        flagged(v.drop_last(), flag)
    }
}

/// Setting one flag moves its position from the unset to the set ones.
pub proof fn lemma_flag_set(v: Seq<bool>, i: int)
    requires
        1 <= i < v.len(),
        !v[i],
        v.len() <= usize::MAX + 1,
    ensures
        flagged(v.update(i, true), true) == flagged(v, true).insert(i as usize),
        flagged(v.update(i, true), false).insert(i as usize) == flagged(v, false),
    decreases v.len(),
{
    let u = v.update(i, true);
    if i == v.len() - 1 {
        assert(u.drop_last() =~= v.drop_last());
    } else {
        assert(u.drop_last() =~= v.drop_last().update(i, true));
        lemma_flag_set(v.drop_last(), i);
        assert(flagged(u, true) =~= flagged(v, true).insert(i as usize));
        assert(flagged(u, false).insert(i as usize) =~= flagged(v, false));
    }
}

/// Set and unset positions together are all customers.
pub proof fn lemma_flags_cover(v: Seq<bool>)
    requires
        v.len() <= usize::MAX + 1,
    ensures
        flagged(v, true).add(flagged(v, false)) == customer_ids(v.len()),
    decreases v.len(),
{
    if v.len() > 1 {
        lemma_flags_cover(v.drop_last());
        assert(flagged(v, true).add(flagged(v, false)) =~= customer_ids(v.len()));
    } else {
        assert(flagged(v, true).add(flagged(v, false)) =~= customer_ids(v.len()));
    }
}

/// When no position after the first holds `flag`, none is flagged.
pub proof fn lemma_none_flagged(v: Seq<bool>, flag: bool)
    requires
        forall|i: int| 1 <= i < v.len() ==> #[trigger] v[i] != flag,
    ensures
        flagged(v, flag) == Multiset::<usize>::empty(),
    decreases v.len(),
{
    if v.len() > 1 {
        lemma_none_flagged(v.drop_last(), flag);
    }
}

/// A multiset of flagged positions has at most one element per position.
pub proof fn lemma_flagged_len(v: Seq<bool>, flag: bool)
    ensures
        flagged(v, flag).len() <= v.len(),
        v.len() >= 1 ==> flagged(v, flag).len() <= v.len() - 1,
    decreases v.len(),
{
    if v.len() > 1 {
        lemma_flagged_len(v.drop_last(), flag);
    }
}

/// Whether every position after the first is set.
pub fn all_set_after_depot(v: &Vec<bool>) -> (r: bool)
    ensures
        r == forall|i: int| 1 <= i < v@.len() ==> #[trigger] v@[i],
{
    let mut i: usize = 1;
    while i < v.len()
        invariant
            1 <= i,
            forall|q: int| 1 <= q < i && q < v@.len() ==> #[trigger] v@[q],
        decreases v@.len() - i,
    {
        if !v[i] {
            return false;
        }
        i += 1;
    }
    true
}

/// The unset positions after the first, in increasing order.
pub fn unset_positions(v: &Vec<bool>) -> (r: Vec<usize>)
    ensures
        r@.to_multiset() == flagged(v@, false),
{
    let mut r: Vec<usize> = Vec::new();
    let mut i: usize = 0;
    proof {
        crate::route_set::lemma_empty_customers(r@);
    }
    while i < v.len()
        invariant
            i <= v@.len(),
            r@.to_multiset() == flagged(v@.take(i as int), false),
        decreases v@.len() - i,
    {
        let ghost pre = r@;
        if !v[i] && i > 0 {
            r.push(i);
            proof {
                vstd::seq_lib::to_multiset_build(pre, i);
            }
        }
        assert(v@.take(i + 1).drop_last() =~= v@.take(i as int));
        i += 1;
    }
    assert(v@.take(i as int) =~= v@);
    r
}

/// Every customer id `1..n` occurs in `customer_ids(n)`.
pub proof fn lemma_customer_ids_count(n: nat, c: usize)
    requires
        1 <= c < n,
    ensures
        customer_ids(n).count(c) >= 1,
    decreases n,
{
    if c < n - 1 {
        lemma_customer_ids_count((n - 1) as nat, c);
    }
}

/// The load of a route covers the demand of each of its customers.
pub proof fn lemma_load_covers(cs: Seq<crate::models::customer::Customer>, s: Seq<usize>, i: int)
    requires
        0 <= i < s.len(),
    ensures
        crate::evaluation::load_of(cs, s) >= cs[s[i] as int].spec_demand(),
    decreases s.len(),
{
    if i < s.len() - 1 {
        lemma_load_covers(cs, s.drop_last(), i);
        assert(s.drop_last()[i] == s[i]);
    }
    lemma_load_nonneg(cs, s.drop_last());
}

/// Loads are never negative.
pub proof fn lemma_load_nonneg(cs: Seq<crate::models::customer::Customer>, s: Seq<usize>)
    ensures
        crate::evaluation::load_of(cs, s) >= 0,
    decreases s.len(),
{
    if s.len() > 0 {
        lemma_load_nonneg(cs, s.drop_last());
    }
}

/// A customer on none of the sequences is not in their join.
proof fn lemma_joined_absent(rs: Seq<Seq<usize>>, c: usize)
    requires
        forall|k: int| 0 <= k < rs.len() ==> !(#[trigger] rs[k]).contains(c),
    ensures
        !crate::models::route::joined(rs).contains(c),
    decreases rs.len(),
{
    if rs.len() > 0 {
        assert forall|k: int| 0 <= k < rs.drop_last().len() implies !(#[trigger] rs.drop_last()[k]).contains(c) by {
            assert(rs.drop_last()[k] == rs[k]);
        }
        lemma_joined_absent(rs.drop_last(), c);
        let p = crate::models::route::joined(rs.drop_last());
        let j = crate::models::route::joined(rs);
        assert(j == p + rs.last());
        assert(!rs[rs.len() - 1].contains(c));
        if j.contains(c) {
            let q = choose|q: int| 0 <= q < j.len() && j[q] == c;
            if q < p.len() {
                assert(p[q] == c);
            } else {
                assert(rs.last()[q - p.len()] == c);
            }
        }
    }
}

/// In a solution that serves or leaves unassigned every customer once and
/// whose routes all fit `capacity`, a customer whose demand exceeds the
/// capacity is on no route and is unassigned.
pub proof fn lemma_oversized_unassigned(
    cs: Seq<crate::models::customer::Customer>,
    r: crate::models::solution::Solution,
    capacity: int,
    c: usize,
)
    requires
        crate::constructive::nearest_neighbor::partitions_customers(r, cs.len()),
        forall|k: int| 0 <= k < r.spec_routes().len() ==> crate::evaluation::load_of(
            cs,
            (#[trigger] r.spec_routes()[k]).spec_ids(),
        ) <= capacity,
        1 <= c < cs.len(),
        cs[c as int].spec_demand() > capacity,
    ensures
        forall|k: int| 0 <= k < r.spec_routes().len() ==> !(#[trigger] r.spec_routes()[k]).spec_ids().contains(c),
        r.spec_unassigned().contains(c),
{
    let rs = r.spec_routes();
    assert forall|k: int| 0 <= k < rs.len() implies !(#[trigger] rs[k]).spec_ids().contains(c) by {
        if rs[k].spec_ids().contains(c) {
            let i = choose|i: int| 0 <= i < rs[k].spec_ids().len() && rs[k].spec_ids()[i] == c;
            lemma_load_covers(cs, rs[k].spec_ids(), i);
        }
    }
    lemma_absent_unassigned(r, cs.len(), c);
}

/// In a solution that serves or leaves unassigned every customer once, a
/// customer on no route is unassigned.
pub proof fn lemma_absent_unassigned(r: crate::models::solution::Solution, n: nat, c: usize)
    requires
        crate::constructive::nearest_neighbor::partitions_customers(r, n),
        1 <= c < n,
        forall|k: int| 0 <= k < r.spec_routes().len() ==> !(#[trigger] r.spec_routes()[k]).spec_ids().contains(c),
    ensures
        r.spec_unassigned().contains(c),
{
    let rs = r.spec_routes();
    let ids = crate::route_set::route_ids(rs);
    assert forall|k: int| 0 <= k < ids.len() implies !(#[trigger] ids[k]).contains(c) by {
        assert(ids[k] == rs[k].spec_ids());
    }
    lemma_joined_absent(ids, c);
    let served = crate::models::solution::served_ids(rs);
    vstd::seq_lib::to_multiset_contains(served, c);
    lemma_customer_ids_count(n, c);
    vstd::seq_lib::to_multiset_contains(r.spec_unassigned(), c);
}

/// The distances obey the triangle inequality.
pub open spec fn metric(dm: crate::distance::DistanceMatrix) -> bool {
    forall|a: int, b: int, c: int|
        #![trigger dm.d(a, b), dm.d(b, c)]
        0 <= a < dm.spec_size() && 0 <= b < dm.spec_size() && 0 <= c < dm.spec_size() ==> dm.d(a, c) <= dm.d(a, b)
            + dm.d(b, c)
}

/// The vehicle reaches each stop no earlier than the length of the path
/// driven to it.
proof fn lemma_arrival_after_path(
    cs: Seq<crate::models::customer::Customer>,
    dm: crate::distance::DistanceMatrix,
    depot: int,
    s: Seq<usize>,
)
    ensures
        crate::evaluation::finish_time(cs, dm, depot, s) >= crate::evaluation::path_length(dm, depot, s),
        s.len() > 0 ==> crate::evaluation::arrival_time(cs, dm, depot, s) >= crate::evaluation::path_length(dm, depot, s),
    decreases s.len(),
{
    if s.len() > 0 {
        lemma_arrival_after_path(cs, dm, depot, s.drop_last());
    }
}

/// With the triangle inequality, a path is at least as long as the direct
/// distance from the depot to its last stop.
proof fn lemma_path_direct(dm: crate::distance::DistanceMatrix, depot: int, s: Seq<usize>)
    requires
        metric(dm),
        0 <= depot < dm.spec_size(),
        crate::evaluation::ids_below(s, dm.spec_size()),
        s.len() > 0,
    ensures
        crate::evaluation::path_length(dm, depot, s) >= dm.d(depot, s.last() as int),
    decreases s.len(),
{
    if s.len() > 1 {
        let p = s.drop_last();
        assert(crate::evaluation::ids_below(p, dm.spec_size()));
        lemma_path_direct(dm, depot, p);
        let prev = s[s.len() - 2] as int;
        assert(p.last() == s[s.len() - 2]);
        assert(dm.d(depot, s.last() as int) <= dm.d(depot, prev) + dm.d(prev, s.last() as int));
    } else {
        lemma_path_direct_base(dm, depot, s);
    }
}

/// A one-stop path is the direct distance.
proof fn lemma_path_direct_base(dm: crate::distance::DistanceMatrix, depot: int, s: Seq<usize>)
    requires
        s.len() == 1,
    ensures
        crate::evaluation::path_length(dm, depot, s) == dm.d(depot, s.last() as int),
{
    assert(s.drop_last().len() == 0);
    assert(crate::evaluation::path_length(dm, depot, s.drop_last()) == 0);
    assert(crate::evaluation::before(depot, s, 0) == depot);
}

/// With the triangle inequality, a route that meets every window never
/// serves a customer whose window closes before it can be reached straight
/// from the depot.
pub proof fn lemma_unreachable_not_served(
    cs: Seq<crate::models::customer::Customer>,
    dm: crate::distance::DistanceMatrix,
    depot: int,
    s: Seq<usize>,
    c: usize,
)
    requires
        metric(dm),
        0 <= depot < dm.spec_size(),
        crate::evaluation::ids_below(s, dm.spec_size()),
        crate::evaluation::windows_met(cs, dm, depot, s),
        cs[c as int].spec_window() matches Some(tw) && tw.spec_due() < dm.d(depot, c as int),
    ensures
        !s.contains(c),
{
    if s.contains(c) {
        let i = choose|i: int| 0 <= i < s.len() && s[i] == c;
        let t = s.take(i + 1);
        crate::constructive::solomon_i1::lemma_windows_prefix(cs, dm, depot, s, i + 1);
        assert(t.last() == c);
        assert(crate::evaluation::ids_below(t, dm.spec_size()));
        lemma_arrival_after_path(cs, dm, depot, t);
        lemma_path_direct(dm, depot, t);
        assert(crate::evaluation::windows_met(cs, dm, depot, t));
        assert(!crate::evaluation::late_at_last(cs, dm, depot, t));
    }
}

/// Under the triangle inequality, the time-window nearest-neighbour
/// construction leaves unassigned, and on no route, a customer whose window
/// closes before any vehicle could reach it straight from its depot.
pub proof fn lemma_nn_tw_unreachable(
    cs: Seq<crate::models::customer::Customer>,
    dm: crate::distance::DistanceMatrix,
    vehicles: Seq<crate::models::vehicle::Vehicle>,
    r: crate::models::solution::Solution,
    c: usize,
)
    requires
        crate::constructive::nearest_neighbor::nn_result(cs, dm, vehicles, true, r),
        crate::constructive::nearest_neighbor::valid_fleet(cs, dm, vehicles),
        metric(dm),
        1 <= c < cs.len(),
        forall|j: int| 0 <= j < vehicles.len() ==> (cs[c as int].spec_window() matches Some(tw) && tw.spec_due()
            < dm.d((#[trigger] vehicles[j]).spec_depot() as int, c as int)),
    ensures
        forall|k: int| 0 <= k < r.spec_routes().len() ==> !(#[trigger] r.spec_routes()[k]).spec_ids().contains(c),
        r.spec_unassigned().contains(c),
{
    let rs = r.spec_routes();
    assert forall|k: int| 0 <= k < rs.len() implies !(#[trigger] rs[k]).spec_ids().contains(c) by {
        assert(crate::constructive::nearest_neighbor::fits_fleet(cs, dm, vehicles, true, rs[k]));
        let j = choose|j: int| 0 <= j < vehicles.len() && crate::constructive::nearest_neighbor::route_fits(cs, dm, vehicles[j], true, rs[k]);
        assert(cs[c as int].spec_window() matches Some(tw) && tw.spec_due() < dm.d(vehicles[j].spec_depot() as int, c as int));
        lemma_unreachable_not_served(cs, dm, vehicles[j].spec_depot() as int, rs[k].spec_ids(), c);
    }
    lemma_absent_unassigned(r, cs.len(), c);
}

/// A flagged position lies after the first and holds the flag.
pub proof fn lemma_flagged_member(v: Seq<bool>, flag: bool, x: usize)
    requires
        flagged(v, flag).count(x) > 0,
        v.len() <= usize::MAX + 1,
    ensures
        1 <= x < v.len(),
        v[x as int] == flag,
    decreases v.len(),
{
    if v.len() > 1 {
        if x == v.len() - 1 && v.last() == flag {
        } else {
            if v.last() == flag {
                assert(flagged(v.drop_last(), flag).count(x) > 0);
            }
            lemma_flagged_member(v.drop_last(), flag, x);
        }
    }
}

/// Solomon's I1 insertion leaves unassigned, and on no route, a customer
/// whose demand exceeds the capacity and, under the triangle inequality,
/// one whose window closes before the vehicle could reach it straight from
/// the depot.
pub proof fn lemma_solomon_unservable(
    cs: Seq<crate::models::customer::Customer>,
    dm: crate::distance::DistanceMatrix,
    v: crate::models::vehicle::Vehicle,
    r: crate::models::solution::Solution,
    c: usize,
)
    requires
        crate::evaluation::valid_instance(cs, dm),
        v.spec_depot() < cs.len(),
        crate::constructive::nearest_neighbor::partitions_customers(r, cs.len()),
        forall|k: int| 0 <= k < r.spec_routes().len() ==> #[trigger] crate::constructive::solomon_i1::insertion_route(
            cs,
            dm,
            v,
            r.spec_routes()[k],
        ),
        1 <= c < cs.len(),
        cs[c as int].spec_demand() > v.spec_capacity() || (metric(dm) && (cs[c as int].spec_window() matches Some(tw)
            && tw.spec_due() < dm.d(v.spec_depot() as int, c as int))),
    ensures
        forall|k: int| 0 <= k < r.spec_routes().len() ==> !(#[trigger] r.spec_routes()[k]).spec_ids().contains(c),
        r.spec_unassigned().contains(c),
{
    let rs = r.spec_routes();
    assert forall|k: int| 0 <= k < rs.len() implies !(#[trigger] rs[k]).spec_ids().contains(c) by {
        assert(crate::constructive::solomon_i1::insertion_route(cs, dm, v, rs[k]));
        if cs[c as int].spec_demand() > v.spec_capacity() {
            if rs[k].spec_ids().contains(c) {
                let i = choose|i: int| 0 <= i < rs[k].spec_ids().len() && rs[k].spec_ids()[i] == c;
                lemma_load_covers(cs, rs[k].spec_ids(), i);
            }
        } else {
            lemma_unreachable_not_served(cs, dm, v.spec_depot() as int, rs[k].spec_ids(), c);
        }
    }
    lemma_absent_unassigned(r, cs.len(), c);
}

} // verus!
