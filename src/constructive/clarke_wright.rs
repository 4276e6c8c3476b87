//! Clarke-Wright savings construction.

use vstd::prelude::*;

use crate::constructive::customer_ids;
use crate::constructive::nearest_neighbor::partitions_customers;
use crate::distance::DistanceMatrix;
use crate::evaluation::{built_route, ids_below, lemma_load_concat, lemma_load_reverse, load_of, valid_instance};
use crate::local_search::{extend_range, extend_range_rev};
use crate::models::customer::Customer;
use crate::models::solution::{Solution, capped, routes_distance, served_ids};
use crate::models::vehicle::Vehicle;
use crate::route_set::{
    all_customers, lemma_all_customers_update, lemma_empty_customers, rebuild_solution, seqs_below,
    seqs_of_vecs,
};

verus! {

broadcast use vstd::multiset::group_multiset_axioms;

/// The saving of serving `i` and `j` on one route instead of two.
struct Saving {
    i: usize,
    j: usize,
    value: u64,
}

/// Both customers of every saving of `v` lie in `1..n`.
spec fn pairs_below(v: Seq<Saving>, n: nat) -> bool {
    forall|k: int| 0 <= k < v.len() ==> 1 <= (#[trigger] v[k]).i < n && 1 <= v[k].j < n
}

/// Merges two runs sorted by decreasing value, the first run first on ties.
fn merge_runs(a: Vec<Saving>, b: Vec<Saving>, n: usize) -> (r: Vec<Saving>)
    requires
        pairs_below(a@, n as nat),
        pairs_below(b@, n as nat),
    ensures
        r@.len() == a@.len() + b@.len(),
        pairs_below(r@, n as nat),
{
    let mut r: Vec<Saving> = Vec::new();
    let mut x: usize = 0;
    let mut y: usize = 0;
    while x < a.len() || y < b.len()
        invariant
            pairs_below(a@, n as nat),
            pairs_below(b@, n as nat),
            x <= a@.len(),
            y <= b@.len(),
            r@.len() == x + y,
            pairs_below(r@, n as nat),
        decreases a@.len() + b@.len() - x - y,
    {
        let take_a = if x < a.len() && y < b.len() {
            a[x].value >= b[y].value
        } else {
            x < a.len()
        };
        if take_a {
            r.push(Saving { i: a[x].i, j: a[x].j, value: a[x].value });
            x += 1;
        } else {
            r.push(Saving { i: b[y].i, j: b[y].j, value: b[y].value });
            y += 1;
        }
    }
    r
}

/// Sorts savings by decreasing value; equal values keep their order.
fn sort_savings(v: Vec<Saving>, n: usize) -> (r: Vec<Saving>)
    requires
        pairs_below(v@, n as nat),
    ensures
        r@.len() == v@.len(),
        pairs_below(r@, n as nat),
    decreases v@.len(),
{
    let len = v.len();
    if len <= 1 {
        return v;
    }
    let mid = len / 2;
    let mut left: Vec<Saving> = Vec::new();
    let mut right: Vec<Saving> = Vec::new();
    let mut k: usize = 0;
    while k < len
        invariant
            len == v@.len(),
            pairs_below(v@, n as nat),
            mid < len,
            0 < mid,
            k <= len,
            left@.len() == if k < mid { k } else { mid },
            right@.len() == if k < mid { 0 } else { k - mid },
            pairs_below(left@, n as nat),
            pairs_below(right@, n as nat),
        decreases len - k,
    {
        let s = Saving { i: v[k].i, j: v[k].j, value: v[k].value };
        if k < mid {
            left.push(s);
        } else {
            right.push(s);
        }
        k += 1;
    }
    let sl = sort_savings(left, n);
    let sr = sort_savings(right, n);
    merge_runs(sl, sr, n)
}

/// A copy of `s`, reversed when `rev` is set.
fn copy_oriented(s: &Vec<usize>, rev: bool) -> (r: Vec<usize>)
    ensures
        r@ == if rev { s@.reverse() } else { s@ },
        r@.to_multiset() == s@.to_multiset(),
        forall|n: nat| ids_below(s@, n) ==> ids_below(r@, n),
{
    let mut r: Vec<usize> = Vec::new();
    if rev {
        extend_range_rev(&mut r, s.as_slice(), 0, s.len());
        assert(s@.subrange(0, s@.len() as int) =~= s@);
        proof {
            s@.lemma_reverse_to_multiset();
        }
    } else {
        extend_range(&mut r, s.as_slice(), 0, s.len());
        assert(s@.subrange(0, s@.len() as int) =~= s@);
    }
    assert forall|n: nat| ids_below(s@, n) implies ids_below(r@, n) by {
        assert forall|k: int| 0 <= k < r@.len() implies #[trigger] r@[k] < n by {
            if rev {
                assert(r@[k] == s@[s@.len() - 1 - k]);
            }
        }
    }
    r
}

/// Clarke-Wright savings construction: every customer whose demand fits
/// the capacity starts on a route of its own (the others are unassigned); pairs are then taken by decreasing saving
/// `d(0, i) + d(0, j) - d(i, j)` (positive savings only, equal savings in
/// order of `(i, j)`), and the routes of `i` and `j` are merged when they
/// differ, their loads together fit the capacity, and `i` and `j` are ends
/// of their routes that can be joined (reversing a route where needed).
/// Every route fits the capacity.
pub fn clarke_wright_savings(customers: &[Customer], distances: &DistanceMatrix, vehicle: &Vehicle) -> (r: Solution)
    requires
        valid_instance(customers@, *distances),
        vehicle.spec_depot() < customers@.len(),
    ensures
        partitions_customers(r, customers@.len()),
        forall|q: int| 0 <= q < r.spec_unassigned().len() ==> customers@[#[trigger] r.spec_unassigned()[q] as int].spec_demand()
            > vehicle.spec_capacity(),
        forall|k: int| 0 <= k < r.spec_routes().len() ==> (#[trigger] r.spec_routes()[k]).spec_visits().len() > 0
            && built_route(customers@, *distances, *vehicle, r.spec_routes()[k].spec_ids(), r.spec_routes()[k]),
        r.spec_total_cost() == capped(routes_distance(r.spec_routes()), u128::MAX as int),
        customers@.len() <= 1 ==> r.spec_routes().len() == 0,
{
    let ghost cs = customers@;
    let n = customers.len();
    if n <= 1 {
        let s = Solution::new();
        proof {
            lemma_empty_customers(s.spec_unassigned());
            crate::route_set::lemma_joined_customers(crate::route_set::route_ids(s.spec_routes()));
            assert(crate::route_set::route_ids(s.spec_routes()).len() == 0);
            assert(served_ids(s.spec_routes()).to_multiset() =~= vstd::multiset::Multiset::empty());
            assert(customer_ids(n as nat) =~= vstd::multiset::Multiset::empty());
            assert(served_ids(s.spec_routes()).to_multiset().add(s.spec_unassigned().to_multiset())
                =~= customer_ids(cs.len()));
        }
        return s;
    }
    let depot = vehicle.depot_id();
    let capacity = vehicle.capacity() as u128;
    let mut savings: Vec<Saving> = Vec::new();
    let mut i: usize = 1;
    while i < n
        invariant
            valid_instance(cs, *distances),
            cs == customers@,
            n == cs.len(),
            depot < n,
            1 <= i,
            pairs_below(savings@, n as nat),
        decreases n - i,
    {
        let mut j: usize = i + 1;
        while j < n
            invariant
                valid_instance(cs, *distances),
                n == cs.len(),
                depot < n,
                1 <= i < n,
                i < j,
                pairs_below(savings@, n as nat),
            decreases n - j,
        {
            let joint = distances.get(depot, i) as u64 + distances.get(depot, j) as u64;
            let direct = distances.get(i, j) as u64;
            if joint > direct {
                savings.push(Saving { i, j, value: joint - direct });
            }
            j += 1;
        }
        i += 1;
    }
    let savings = sort_savings(savings, n);
    let mut route_of: Vec<usize> = Vec::new();
    let mut route_load: Vec<u128> = Vec::new();
    let mut members: Vec<Vec<usize>> = Vec::new();
    let mut left_out: Vec<usize> = Vec::new();
    let mut c: usize = 0;
    proof {
        assert(seqs_of_vecs(members@) =~= Seq::<Seq<usize>>::empty());
        lemma_empty_customers(left_out@);
    }
    while c < n
        invariant
            cs == customers@,
            n == cs.len(),
            c <= n,
            route_of@.len() == c,
            route_load@.len() == c,
            members@.len() == c,
            forall|x: int| 0 <= x < c ==> #[trigger] route_of@[x] < n,
            forall|x: int| 0 <= x < c ==> #[trigger] route_load@[x] <= 0xFFFF_FFFF,
            forall|x: int| 0 <= x < c ==> #[trigger] route_load@[x] == load_of(cs, members@[x]@),
            forall|x: int| 0 <= x < c ==> #[trigger] route_load@[x] <= vehicle.spec_capacity(),
            seqs_below(seqs_of_vecs(members@), n as nat),
            ids_below(left_out@, n as nat),
            forall|q: int| 0 <= q < left_out@.len() ==> cs[#[trigger] left_out@[q] as int].spec_demand() > vehicle.spec_capacity(),
            all_customers(seqs_of_vecs(members@)).add(left_out@.to_multiset()) == customer_ids(c as nat),
        decreases n - c,
    {
        let ghost pre = seqs_of_vecs(members@);
        let ghost pre_left = left_out@;
        let fits = c > 0 && customers[c].demand() <= vehicle.capacity();
        let mut m: Vec<usize> = Vec::new();
        if fits {
            m.push(c);
        } else if c > 0 {
            left_out.push(c);
        }
        route_of.push(c);
        route_load.push(if fits {
            customers[c].demand() as u128
        } else {
            0
        });
        let ghost mv = m@;
        proof {
            if fits {
                assert(mv.drop_last() =~= Seq::<usize>::empty());
                assert(load_of(cs, mv) == load_of(cs, Seq::<usize>::empty()) + cs[c as int].spec_demand());
            } else {
                assert(mv =~= Seq::<usize>::empty());
            }
        }
        members.push(m);
        proof {
            assert(seqs_of_vecs(members@) =~= pre.push(mv));
            assert(seqs_of_vecs(members@).drop_last() =~= pre);
            lemma_empty_customers(Seq::<usize>::empty());
            if fits {
                assert(mv =~= seq![c]);
                vstd::seq_lib::to_multiset_build(Seq::<usize>::empty(), c);
                assert(all_customers(seqs_of_vecs(members@)).add(left_out@.to_multiset()) =~= customer_ids((c + 1) as nat));
            } else if c > 0 {
                lemma_empty_customers(mv);
                vstd::seq_lib::to_multiset_build(pre_left, c);
                assert(all_customers(seqs_of_vecs(members@)).add(left_out@.to_multiset()) =~= customer_ids((c + 1) as nat));
            } else {
                lemma_empty_customers(mv);
                assert(all_customers(seqs_of_vecs(members@)).add(left_out@.to_multiset()) =~= customer_ids((c + 1) as nat));
            }
        }
        c += 1;
    }
    let mut k: usize = 0;
    while k < savings.len()
        invariant
            cs == customers@,
            n == cs.len(),
            pairs_below(savings@, n as nat),
            capacity == vehicle.spec_capacity(),
            route_of@.len() == n,
            route_load@.len() == n,
            members@.len() == n,
            forall|x: int| 0 <= x < n ==> #[trigger] route_of@[x] < n,
            forall|x: int| 0 <= x < n ==> #[trigger] route_load@[x] <= 0xFFFF_FFFF,
            forall|x: int| 0 <= x < n ==> #[trigger] route_load@[x] == load_of(cs, members@[x]@),
            forall|x: int| 0 <= x < n ==> #[trigger] route_load@[x] <= vehicle.spec_capacity(),
            seqs_below(seqs_of_vecs(members@), n as nat),
            all_customers(seqs_of_vecs(members@)).add(left_out@.to_multiset()) == customer_ids(n as nat),
        decreases savings@.len() - k,
    {
        let si = savings[k].i;
        let sj = savings[k].j;
        let ri = route_of[si];
        let rj = route_of[sj];
        if ri != rj {
            let combined = route_load[ri] + route_load[rj];
            if combined <= capacity {
                let li = members[ri].len();
                let lj = members[rj].len();
                let i_at_end = li > 0 && members[ri][li - 1] == si;
                let j_at_start = lj > 0 && members[rj][0] == sj;
                let i_at_start = li > 0 && members[ri][0] == si;
                let j_at_end = lj > 0 && members[rj][lj - 1] == sj;
                let plan: Option<(usize, usize, bool, bool)> = if i_at_end && j_at_start {
                    Some((rj, ri, false, false))
                } else if j_at_end && i_at_start {
                    Some((ri, rj, false, false))
                } else if i_at_end && j_at_end {
                    Some((rj, ri, true, false))
                } else if i_at_start && j_at_start {
                    Some((rj, ri, false, true))
                } else {
                    None
                };
                match plan {
                    Some((merge_from, merge_into, reverse_from, reverse_into)) => {
                        let ghost rs = seqs_of_vecs(members@);
                        assert(ids_below(rs[merge_from as int], n as nat));
                        assert(ids_below(rs[merge_into as int], n as nat));
                        let ghost pre_load = route_load@;
                        let ghost pre_members = members@;
                        let from_v = copy_oriented(&members[merge_from], reverse_from);
                        let mut new_into = copy_oriented(&members[merge_into], reverse_into);
                        let ghost into_part = new_into@;
                        extend_range(&mut new_into, from_v.as_slice(), 0, from_v.len());
                        assert(from_v@.subrange(0, from_v@.len() as int) =~= from_v@);
                        let ghost rs1 = rs.update(merge_into as int, new_into@);
                        let ghost rs2 = rs1.update(merge_from as int, Seq::<usize>::empty());
                        proof {
                            vstd::seq_lib::lemma_multiset_commutative(into_part, from_v@);
                            lemma_empty_customers(Seq::<usize>::empty());
                            lemma_all_customers_update(rs, merge_into as int, new_into@);
                            lemma_all_customers_update(rs1, merge_from as int, Seq::<usize>::empty());
                            assert(rs1[merge_from as int] == rs[merge_from as int]);
                            assert forall|v: usize| #[trigger] all_customers(rs2).count(v) == all_customers(rs).count(v) by {
                                assert(all_customers(rs1).add(rs[merge_into as int].to_multiset()).count(v)
                                    == all_customers(rs).add(new_into@.to_multiset()).count(v));
                                assert(all_customers(rs2).add(rs1[merge_from as int].to_multiset()).count(v)
                                    == all_customers(rs1).add(Seq::<usize>::empty().to_multiset()).count(v));
                            }
                            assert(all_customers(rs2) =~= all_customers(rs));
                            assert(all_customers(rs2).add(left_out@.to_multiset()) == all_customers(rs).add(left_out@.to_multiset()));
                            assert(ids_below(new_into@, n as nat));
                        }
                        let ghost new_into_view = new_into@;
                        members.set(merge_into, new_into);
                        members.set(merge_from, Vec::new());
                        assert(seqs_of_vecs(members@) =~= rs2);
                        route_load.set(merge_into, combined);
                        route_load.set(merge_from, 0);
                        proof {
                            let into_s = pre_members[merge_into as int]@;
                            let from_s = pre_members[merge_from as int]@;
                            lemma_load_reverse(cs, into_s);
                            lemma_load_reverse(cs, from_s);
                            lemma_load_concat(cs, into_part, from_v@);
                            assert(load_of(cs, new_into_view) == load_of(cs, into_s) + load_of(cs, from_s));
                            assert(combined == pre_load[merge_into as int] + pre_load[merge_from as int]);
                            assert forall|x: int| 0 <= x < n implies #[trigger] route_load@[x] == load_of(cs, members@[x]@) by {
                                if x == merge_from {
                                    assert(members@[x]@ =~= Seq::<usize>::empty());
                                } else if x != merge_into {
                                    assert(members@[x] == pre_members[x]);
                                }
                            }
                            assert forall|x: int| 0 <= x < n implies #[trigger] route_load@[x] <= vehicle.spec_capacity() by {
                                if x != merge_from && x != merge_into {
                                    assert(members@[x] == pre_members[x]);
                                }
                            }
                        }
                        let mut q: usize = 0;
                        while q < members[merge_into].len()
                            invariant
                                n == cs.len(),
                                members@.len() == n,
                                merge_into < n,
                                route_of@.len() == n,
                                seqs_below(seqs_of_vecs(members@), n as nat),
                                forall|x: int| 0 <= x < n ==> #[trigger] route_of@[x] < n,
                                route_load@.len() == n,
                                forall|x: int| 0 <= x < n ==> #[trigger] route_load@[x] <= 0xFFFF_FFFF,
                                forall|x: int| 0 <= x < n ==> #[trigger] route_load@[x] == load_of(cs, members@[x]@),
                                forall|x: int| 0 <= x < n ==> #[trigger] route_load@[x] <= vehicle.spec_capacity(),
                            decreases members@[merge_into as int]@.len() - q,
                        {
                            assert(ids_below(seqs_of_vecs(members@)[merge_into as int], n as nat));
                            let cid = members[merge_into][q];
                            route_of.set(cid, merge_into);
                            q += 1;
                        }
                    },
                    None => {},
                }
            }
        }
        k += 1;
    }
    let mut holder = Solution::new();
    let mut q: usize = 0;
    while q < left_out.len()
        invariant
            q <= left_out@.len(),
            holder.spec_unassigned() == left_out@.take(q as int),
        decreases left_out@.len() - q,
    {
        holder.add_unassigned(left_out[q]);
        q += 1;
        assert(holder.spec_unassigned() =~= left_out@.take(q as int));
    }
    assert(left_out@.take(q as int) =~= left_out@);
    let result = rebuild_solution(&members, &holder, distances, customers, vehicle);
    proof {
        let rs = seqs_of_vecs(members@);
        crate::route_set::lemma_nonempty_only_elements(rs);
        assert forall|k: int| 0 <= k < result.spec_routes().len()
            implies load_of(cs, (#[trigger] result.spec_routes()[k]).spec_ids()) <= vehicle.spec_capacity() by {
            assert(crate::route_set::route_ids(result.spec_routes())[k] == result.spec_routes()[k].spec_ids());
            let j = choose|j: int| 0 <= j < rs.len() && #[trigger] crate::route_set::nonempty_only(rs)[k] == rs[j];
            assert(rs[j] == members@[j]@);
            assert(route_load@[j] == load_of(cs, members@[j]@));
            assert(route_load@[j] <= vehicle.spec_capacity());
        }
        assert(served_ids(result.spec_routes()).to_multiset().add(result.spec_unassigned().to_multiset())
            =~= customer_ids(cs.len()));
    }
    result
}

} // verus!
