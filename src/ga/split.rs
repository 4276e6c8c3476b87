//! Optimal split of a giant tour into consecutive routes (Prins' dynamic
//! programme), with capacity and, optionally, time windows.

use vstd::prelude::*;

use crate::distance::DistanceMatrix;
use crate::evaluation::{before, finish_time, arrival_time, ids_below, late_at_last, lemma_route_bounds, load_of, path_length, route_cost, valid_instance, windows_met};
use crate::models::customer::Customer;
use crate::models::route::joined;
use crate::route_set::seqs_of_vecs;

verus! {

/// Routes found for a giant tour.
#[derive(Debug, Clone)]
pub struct SplitResult {
    /// Routes as sequences of customer ids, in tour order.
    pub routes: Vec<Vec<usize>>,
    /// Total length of the routes, each closed at the depot.
    pub total_distance: u128,
    /// Whether the routes cover the whole tour. When they do not, they cover
    /// the longest prefix of it that can be split.
    pub complete: bool,
}

/// Whether `tour[i..j]` can be one route: non-empty, within `capacity`,
/// and, when `windows` is set, reaching each customer before its window
/// closes.
pub open spec fn segment_ok(
    cs: Seq<Customer>,
    dm: DistanceMatrix,
    tour: Seq<usize>,
    capacity: int,
    windows: bool,
    i: int,
    j: int,
) -> bool {
    &&& 0 <= i < j <= tour.len()
    &&& load_of(cs, tour.subrange(i, j)) <= capacity
    &&& windows ==> windows_met(cs, dm, 0, tour.subrange(i, j))
}

/// Length of the route `tour[i..j]`, closed at the depot 0.
pub open spec fn segment_cost(dm: DistanceMatrix, tour: Seq<usize>, i: int, j: int) -> int {
    route_cost(dm, 0, tour.subrange(i, j))
}

/// `cuts` splits `tour[0..m]` into routes `tour[cuts[k]..cuts[k + 1]]`,
/// each of which passes `segment_ok`.
pub open spec fn valid_cuts(
    cs: Seq<Customer>,
    dm: DistanceMatrix,
    tour: Seq<usize>,
    capacity: int,
    windows: bool,
    cuts: Seq<int>,
    m: int,
) -> bool {
    &&& cuts.len() >= 1
    &&& cuts[0] == 0
    &&& cuts.last() == m
    &&& forall|k: int|
        0 <= k < cuts.len() - 1 ==> #[trigger] segment_ok(cs, dm, tour, capacity, windows, cuts[k], cuts[k + 1])
}

/// Total length of the routes that `cuts` makes of `tour`.
pub open spec fn cuts_cost(dm: DistanceMatrix, tour: Seq<usize>, cuts: Seq<int>) -> int
    decreases cuts.len(),
{
    if cuts.len() <= 1 {
        0
    } else {
        cuts_cost(dm, tour, cuts.drop_last()) + segment_cost(dm, tour, cuts[cuts.len() - 2], cuts.last())
    }
}

/// Total length of routes, each closed at the depot 0.
pub open spec fn routes_cost(dm: DistanceMatrix, rs: Seq<Seq<usize>>) -> int
    decreases rs.len(),
{
    if rs.len() == 0 {
        0
    } else {
        routes_cost(dm, rs.drop_last()) + route_cost(dm, 0, rs.last())
    }
}

/// What a split of `tour` returns: routes that pass `segment_ok`, joined
/// into the longest prefix of `tour` that some valid split covers, and of
/// least total length among all splits of that prefix.
pub open spec fn split_spec(
    cs: Seq<Customer>,
    dm: DistanceMatrix,
    tour: Seq<usize>,
    capacity: int,
    windows: bool,
    r: SplitResult,
) -> bool {
    let rs = seqs_of_vecs(r.routes@);
    let covered = joined(rs).len() as int;
    &&& covered <= tour.len()
    &&& joined(rs) == tour.take(covered)
    &&& r.complete == (covered == tour.len())
    &&& forall|q: int| 0 <= q < rs.len() ==> (#[trigger] rs[q]).len() > 0 && load_of(cs, rs[q]) <= capacity
        && (windows ==> windows_met(cs, dm, 0, rs[q]))
    &&& r.total_distance == routes_cost(dm, rs)
    &&& forall|cuts: Seq<int>, m: int|
        0 <= m <= tour.len() && #[trigger] valid_cuts(cs, dm, tour, capacity, windows, cuts, m) ==> m <= covered
    &&& forall|cuts: Seq<int>|
        #[trigger] valid_cuts(cs, dm, tour, capacity, windows, cuts, covered) ==> r.total_distance <= cuts_cost(dm, tour, cuts)
}

/// A route that can be served can be cut short and still be served.
proof fn lemma_segment_prefix(
    cs: Seq<Customer>,
    dm: DistanceMatrix,
    tour: Seq<usize>,
    capacity: int,
    windows: bool,
    i: int,
    b: int,
    b2: int,
)
    requires
        segment_ok(cs, dm, tour, capacity, windows, i, b),
        i < b2 <= b,
    ensures
        segment_ok(cs, dm, tour, capacity, windows, i, b2),
    decreases b - b2,
{
    if b2 < b {
        let t = tour.subrange(i, b);
        assert(t.drop_last() =~= tour.subrange(i, b - 1));
        assert(load_of(cs, t) == load_of(cs, t.drop_last()) + cs[t.last() as int].spec_demand());
        lemma_segment_prefix(cs, dm, tour, capacity, windows, i, b - 1, b2);
    }
}

/// Every split `tour[a..b]` of a relaxed start `a` was offered to `b`.
pub open spec fn relaxed_below(
    cs: Seq<Customer>,
    dm: DistanceMatrix,
    tour: Seq<usize>,
    capacity: int,
    windows: bool,
    cost: Seq<u128>,
    reached: Seq<bool>,
    lim: int,
) -> bool {
    forall|a: int, b: int|
        #![trigger segment_ok(cs, dm, tour, capacity, windows, a, b)]
        0 <= a < lim && reached[a] && segment_ok(cs, dm, tour, capacity, windows, a, b) ==> reached[b]
            && cost[b] <= cost[a] + segment_cost(dm, tour, a, b)
}

/// Each reached node `j` is the end of a route from `pred[j]`, a reached
/// node before `lim`, and its cost is that of `pred[j]` plus the route.
pub open spec fn linked(
    cs: Seq<Customer>,
    dm: DistanceMatrix,
    tour: Seq<usize>,
    capacity: int,
    windows: bool,
    cost: Seq<u128>,
    reached: Seq<bool>,
    pred: Seq<usize>,
    lim: int,
) -> bool {
    &&& cost.len() == tour.len() + 1
    &&& reached.len() == tour.len() + 1
    &&& pred.len() == tour.len() + 1
    &&& reached[0]
    &&& cost[0] == 0
    &&& forall|j: int|
        #![trigger reached[j]]
        0 < j <= tour.len() && reached[j] ==> {
            &&& pred[j] < j
            &&& pred[j] < lim
            &&& reached[pred[j] as int]
            &&& segment_ok(cs, dm, tour, capacity, windows, pred[j] as int, j)
            &&& cost[j] == cost[pred[j] as int] + segment_cost(dm, tour, pred[j] as int, j)
            &&& cost[j] <= j * 0x2_0000_0000
        }
}

/// The cost of a reached node is at most that of any split of the prefix.
proof fn lemma_optimal(
    cs: Seq<Customer>,
    dm: DistanceMatrix,
    tour: Seq<usize>,
    capacity: int,
    windows: bool,
    cost: Seq<u128>,
    reached: Seq<bool>,
    cuts: Seq<int>,
    m: int,
)
    requires
        reached.len() == tour.len() + 1,
        reached[0],
        cost[0] == 0,
        relaxed_below(cs, dm, tour, capacity, windows, cost, reached, tour.len() as int),
        valid_cuts(cs, dm, tour, capacity, windows, cuts, m),
        0 <= m <= tour.len(),
    ensures
        reached[m],
        cost[m] <= cuts_cost(dm, tour, cuts),
    decreases cuts.len(),
{
    if cuts.len() > 1 {
        let a = cuts[cuts.len() - 2];
        let rest = cuts.drop_last();
        let k = cuts.len() - 2;
        assert(segment_ok(cs, dm, tour, capacity, windows, cuts[k], cuts[k + 1]));
        assert forall|k: int| 0 <= k < rest.len() - 1 implies #[trigger] segment_ok(
            cs,
            dm,
            tour,
            capacity,
            windows,
            rest[k],
            rest[k + 1],
        ) by {
            assert(segment_ok(cs, dm, tour, capacity, windows, cuts[k], cuts[k + 1]));
        }
        lemma_optimal(cs, dm, tour, capacity, windows, cost, reached, rest, a);
    }
}

/// The route `tour[a..b]` as a vector.
fn copy_range(tour: &[usize], a: usize, b: usize) -> (r: Vec<usize>)
    requires
        a <= b <= tour@.len(),
    ensures
        r@ == tour@.subrange(a as int, b as int),
{
    let mut r: Vec<usize> = Vec::new();
    let mut k: usize = a;
    while k < b
        invariant
            a <= k <= b <= tour@.len(),
            r@ == tour@.subrange(a as int, k as int),
        decreases b - k,
    {
        r.push(tour[k]);
        k += 1;
        assert(r@ =~= tour@.subrange(a as int, k as int));
    }
    r
}

/// Offers every route that starts after node `i` to the nodes it reaches.
#[verifier::rlimit(60)]
fn relax_from(
    tour: &[usize],
    customers: &[Customer],
    distances: &DistanceMatrix,
    capacity: u32,
    windows: bool,
    i: usize,
    cost: &mut Vec<u128>,
    reached: &mut Vec<bool>,
    pred: &mut Vec<usize>,
)
    requires
        valid_instance(customers@, *distances),
        customers@.len() > 0,
        ids_below(tour@, customers@.len()),
        i < tour@.len(),
        old(reached)@[i as int],
        linked(customers@, *distances, tour@, capacity as int, windows, old(cost)@, old(reached)@, old(pred)@, i as int),
        relaxed_below(customers@, *distances, tour@, capacity as int, windows, old(cost)@, old(reached)@, i as int),
    ensures
        linked(customers@, *distances, tour@, capacity as int, windows, final(cost)@, final(reached)@, final(pred)@, i + 1),
        relaxed_below(customers@, *distances, tour@, capacity as int, windows, final(cost)@, final(reached)@, i + 1),
{
    let ghost cs = customers@;
    let ghost dm = *distances;
    let ghost t = tour@;
    let ghost cap = capacity as int;
    let n = tour.len();
    let base = cost[i];
    let mut load: u128 = 0;
    let mut route_dist: u128 = 0;
    let mut time: u128 = 0;
    let mut j: usize = i;
    let mut stop = false;
    assert(t.subrange(i as int, i as int) =~= Seq::<usize>::empty());
    while j < n && !stop
        invariant
            valid_instance(cs, dm),
            cs == customers@,
            dm == *distances,
            t == tour@,
            cap == capacity as int,
            cs.len() > 0,
            ids_below(t, cs.len()),
            n == t.len(),
            i < n,
            i <= j <= n,
            reached@[i as int],
            base == cost@[i as int],
            base <= i * 0x2_0000_0000,
            load == load_of(cs, t.subrange(i as int, j as int)),
            route_dist == path_length(dm, 0, t.subrange(i as int, j as int)),
            time == finish_time(cs, dm, 0, t.subrange(i as int, j as int)),
            j > i ==> segment_ok(cs, dm, t, cap, windows, i as int, j as int),
            linked(cs, dm, t, cap, windows, cost@, reached@, pred@, i + 1),
            relaxed_below(cs, dm, t, cap, windows, cost@, reached@, i as int),
            forall|b: int|
                #![trigger segment_ok(cs, dm, t, cap, windows, i as int, b)]
                i < b <= j && segment_ok(cs, dm, t, cap, windows, i as int, b) ==> reached@[b]
                    && cost@[b] <= base + segment_cost(dm, t, i as int, b),
            stop ==> forall|b: int|
                #![trigger segment_ok(cs, dm, t, cap, windows, i as int, b)]
                i < b <= n && segment_ok(cs, dm, t, cap, windows, i as int, b) ==> b <= j,
        decreases n - j + (if stop { 0int } else { 1int }),
    {
        let cid = tour[j];
        let ghost seg = t.subrange(i as int, j + 1);
        assert(seg.drop_last() =~= t.subrange(i as int, j as int));
        assert(seg.last() == cid);
        proof {
            lemma_route_bounds(cs, dm, 0, seg);
        }
        let customer = &customers[cid];
        let new_load: u128 = load + customer.demand() as u128;
        let prev: usize = if j == i {
            0
        } else {
            tour[j - 1]
        };
        assert(prev as int == before(0, seg, seg.len() - 1));
        let travel = distances.get(prev, cid);
        let arrival: u128 = time + travel as u128;
        assert(arrival == arrival_time(cs, dm, 0, seg));
        let late = match customer.time_window() {
            Some(tw) => windows && arrival > tw.due() as u128,
            None => false,
        };
        if new_load > capacity as u128 || late {
            proof {
                assert(!segment_ok(cs, dm, t, cap, windows, i as int, j + 1));
                assert forall|b: int|
                    i < b <= n && #[trigger] segment_ok(cs, dm, t, cap, windows, i as int, b)
                    implies b <= j by {
                    if b > j {
                        lemma_segment_prefix(cs, dm, t, cap, windows, i as int, b, j + 1);
                    }
                }
            }
            stop = true;
        } else {
            load = new_load;
            route_dist = route_dist + travel as u128;
            let start: u128 = match customer.time_window() {
                Some(tw) => if arrival < tw.ready() as u128 {
                    tw.ready() as u128
                } else {
                    arrival
                },
                None => arrival,
            };
            time = start + customer.service_duration() as u128;
            assert(time == finish_time(cs, dm, 0, seg));
            assert(load_of(cs, seg) == new_load);
            assert(!late_at_last(cs, dm, 0, seg) || !windows);
            proof {
                if j == i {
                    assert(t.subrange(i as int, j as int).len() == 0);
                    assert(windows_met(cs, dm, 0, t.subrange(i as int, j as int)));
                }
            }
            assert(windows ==> windows_met(cs, dm, 0, t.subrange(i as int, j as int)));
            assert(windows ==> windows_met(cs, dm, 0, seg));
            assert(segment_ok(cs, dm, t, cap, windows, i as int, j + 1));
            let back = distances.get(cid, 0);
            let total_route: u128 = route_dist + back as u128;
            assert(total_route == segment_cost(dm, t, i as int, j + 1));
            let new_cost: u128 = base + total_route;
            if !reached[j + 1] || new_cost < cost[j + 1] {
                cost.set(j + 1, new_cost);
                reached.set(j + 1, true);
                pred.set(j + 1, i);
            }
            j += 1;
        }
    }
        proof {
        assert forall|a: int, b: int|
            #![trigger segment_ok(cs, dm, t, cap, windows, a, b)]
            0 <= a < i + 1 && reached@[a] && segment_ok(cs, dm, t, cap, windows, a, b) implies reached@[b]
                && cost@[b] <= cost@[a] + segment_cost(dm, t, a, b) by {
            if a == i {
                assert(b <= j);
            }
        }
    }
}

/// The dynamic programme behind `split` and `split_tw`.
pub(crate) fn split_dp(
    tour: &[usize],
    customers: &[Customer],
    distances: &DistanceMatrix,
    capacity: u32,
    windows: bool,
) -> (r: SplitResult)
    requires
        valid_instance(customers@, *distances),
        customers@.len() > 0,
        ids_below(tour@, customers@.len()),
        tour@.len() < usize::MAX,
    ensures
        split_spec(customers@, *distances, tour@, capacity as int, windows, r),
{
    let ghost cs = customers@;
    let ghost dm = *distances;
    let ghost t = tour@;
    let ghost cap = capacity as int;
    let n = tour.len();
    let mut cost: Vec<u128> = vec![0u128; n + 1];
    let mut reached: Vec<bool> = vec![false; n + 1];
    let mut pred: Vec<usize> = vec![0usize; n + 1];
    reached.set(0, true);
    let mut i: usize = 0;
    while i < n
        invariant
            valid_instance(cs, dm),
            cs == customers@,
            dm == *distances,
            t == tour@,
            cap == capacity as int,
            cs.len() > 0,
            ids_below(t, cs.len()),
            n == t.len(),
            i <= n,
            linked(cs, dm, t, cap, windows, cost@, reached@, pred@, i as int),
            relaxed_below(cs, dm, t, cap, windows, cost@, reached@, i as int),
        decreases n - i,
    {
        if reached[i] {
            relax_from(tour, customers, distances, capacity, windows, i, &mut cost, &mut reached, &mut pred);
        }
        i += 1;
    }
    // the farthest node reached
    let mut last: usize = n;
    while !reached[last]
        invariant
            last <= n,
            reached@.len() == n + 1,
            reached@[0],
            forall|m: int| last < m <= n ==> !#[trigger] reached@[m],
        decreases last,
    {
        last -= 1;
    }
    // nodes of the chain from `last` back to 0, by descending position
    let mut chain: Vec<usize> = Vec::new();
    let mut node: usize = last;
    chain.push(node);
    while node > 0
        invariant
            linked(cs, dm, t, cap, windows, cost@, reached@, pred@, n as int),
            n == t.len(),
            node <= last <= n,
            reached@[node as int],
            chain@.len() >= 1,
            chain@[0] == last,
            chain@.last() == node,
            forall|k: int| 0 <= k < chain@.len() ==> #[trigger] chain@[k] <= n && reached@[chain@[k] as int],
            forall|k: int| 0 <= k < chain@.len() - 1 ==> #[trigger] pred@[chain@[k] as int] == chain@[k + 1]
                && chain@[k + 1] < chain@[k],
        decreases node,
    {
        node = pred[node];
        chain.push(node);
    }
    let ghost cuts = chain@.reverse().map_values(|x: usize| x as int);
    let mut routes: Vec<Vec<usize>> = Vec::new();
    let mut k: usize = chain.len() - 1;
    while k > 0
        invariant
            n == t.len(),
            t == tour@,
            k < chain@.len(),
            linked(cs, dm, t, cap, windows, cost@, reached@, pred@, n as int),
            chain@.len() >= 1,
            chain@.last() == 0,
            forall|q: int| 0 <= q < chain@.len() ==> #[trigger] chain@[q] <= n && reached@[chain@[q] as int],
            forall|q: int| 0 <= q < chain@.len() - 1 ==> #[trigger] pred@[chain@[q] as int] == chain@[q + 1]
                && chain@[q + 1] < chain@[q],
            routes@.len() == chain@.len() - 1 - k,
            joined(seqs_of_vecs(routes@)) == t.take(chain@[k as int] as int),
            routes_cost(dm, seqs_of_vecs(routes@)) == cost@[chain@[k as int] as int],
            forall|q: int| 0 <= q < routes@.len() ==> (#[trigger] seqs_of_vecs(routes@)[q]).len() > 0 && load_of(cs, seqs_of_vecs(routes@)[q]) <= cap
                && (windows ==> windows_met(cs, dm, 0, seqs_of_vecs(routes@)[q])),
        decreases k,
    {
        let a = chain[k];
        let b = chain[k - 1];
        let ghost q: int = k - 1;
        assert(pred@[chain@[q] as int] == chain@[q + 1] && chain@[q + 1] < chain@[q]);
        assert(chain@[q] <= n && reached@[chain@[q] as int]);
        let route = copy_range(tour, a, b);
        let ghost before_rs = seqs_of_vecs(routes@);
        routes.push(route);
        assert(seqs_of_vecs(routes@) =~= before_rs.push(t.subrange(a as int, b as int)));
        assert(seqs_of_vecs(routes@).drop_last() =~= before_rs);
        assert(t.take(b as int) =~= t.take(a as int) + t.subrange(a as int, b as int));
        k -= 1;
    }
    let total = cost[last];
    proof {
        assert(relaxed_below(cs, dm, t, cap, windows, cost@, reached@, n as int));
        assert forall|cuts: Seq<int>, m: int|
            0 <= m <= t.len() && #[trigger] valid_cuts(cs, dm, t, cap, windows, cuts, m) implies m <= last by {
            lemma_optimal(cs, dm, t, cap, windows, cost@, reached@, cuts, m);
        }
        assert forall|cuts: Seq<int>| #[trigger] valid_cuts(cs, dm, t, cap, windows, cuts, last as int)
            implies total <= cuts_cost(dm, t, cuts) by {
            lemma_optimal(cs, dm, t, cap, windows, cost@, reached@, cuts, last as int);
        }
    }
    SplitResult { routes, total_distance: total, complete: last == n }
}

/// Splits the giant tour `tour` into consecutive routes from depot 0, each
/// within `capacity`, of least total length.
pub fn split(tour: &[usize], customers: &[Customer], distances: &DistanceMatrix, capacity: u32) -> (r: SplitResult)
    requires
        valid_instance(customers@, *distances),
        customers@.len() > 0,
        ids_below(tour@, customers@.len()),
        tour@.len() < usize::MAX,
    ensures
        split_spec(customers@, *distances, tour@, capacity as int, false, r),
{
    split_dp(tour, customers, distances, capacity, false)
}

} // verus!
