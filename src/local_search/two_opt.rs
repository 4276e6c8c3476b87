//! 2-opt: reversing a segment of a route.

use vstd::prelude::*;

use crate::distance::DistanceMatrix;
use crate::evaluation::route_cost;
use crate::local_search::{
    extend_range, extend_range_rev, lemma_reverse_segment, lemma_same_customers_below, route_in,
    same_customers,
};
use crate::local_search::or_opt::route_distance;

verus! {

/// Reversing `s[i..=j]` replaces two edges by shorter ones and shortens
/// the whole route.
pub open spec fn two_opt_gains(dm: DistanceMatrix, depot: int, s: Seq<usize>, i: int, j: int) -> bool {
    let prev_i = if i == 0 { depot } else { s[i - 1] as int };
    let next_j = if j == s.len() - 1 { depot } else { s[j + 1] as int };
    &&& dm.d(prev_i, s[j] as int) + dm.d(s[i] as int, next_j) < dm.d(prev_i, s[i] as int) + dm.d(s[j] as int, next_j)
    &&& route_cost(dm, depot, s.take(i) + s.subrange(i, j + 1).reverse() + s.skip(j + 1)) < route_cost(dm, depot, s)
}

/// `route` with `route[i..=j]` reversed.
pub(crate) fn reversed_segment(route: &[usize], i: usize, j: usize) -> (r: Vec<usize>)
    requires
        i <= j < route@.len(),
    ensures
        r@ == route@.take(i as int) + route@.subrange(i as int, j + 1).reverse() + route@.skip(j + 1),
        same_customers(r@, route@),
{
    let n = route.len();
    let mut r: Vec<usize> = Vec::new();
    extend_range(&mut r, route, 0, i);
    extend_range_rev(&mut r, route, i, j + 1);
    extend_range(&mut r, route, j + 1, n);
    assert(route@.subrange(0, i as int) =~= route@.take(i as int));
    assert(route@.subrange(j + 1, route@.len() as int) =~= route@.skip(j + 1));
    proof {
        lemma_reverse_segment(route@, i as int, j + 1);
    }
    r
}

/// Improves a route by segment reversals until none shortens it. A reversal
/// of `route[i..=j]` is tried when the two edges it replaces are longer than
/// the two it creates, and kept when the whole route gets shorter (with an
/// asymmetric matrix the reversed segment's own edges change too).
///
/// Returns the route, a reordering of `route` no longer than it, and its
/// length.
pub fn two_opt_improve(route: &[usize], depot: usize, distances: &DistanceMatrix) -> (r: (Vec<usize>, u128))
    requires
        route_in(*distances, depot, route@),
    ensures
        same_customers(r.0@, route@),
        route_in(*distances, depot, r.0@),
        r.1 == route_cost(*distances, depot as int, r.0@),
        r.1 <= route_cost(*distances, depot as int, route@),
        route@.len() < 2 ==> r.0@ == route@,
        forall|i: int, j: int| 0 <= i < j < r.0@.len() ==> !#[trigger] two_opt_gains(*distances, depot as int, r.0@, i, j),
{
    let ghost dm = *distances;
    let mut current: Vec<usize> = Vec::new();
    extend_range(&mut current, route, 0, route.len());
    assert(route@.subrange(0, route@.len() as int) =~= route@);
    let mut cur_d = route_distance(current.as_slice(), depot, distances);
    let n = current.len();
    if n < 2 {
        return (current, cur_d);
    }
    let ghost gd = depot as int;
    loop
        invariant
            dm == *distances,
            route_in(dm, depot, route@),
            current@.len() == n,
            n >= 2,
            same_customers(current@, route@),
            route_in(dm, depot, current@),
            cur_d == route_cost(dm, depot as int, current@),
            cur_d <= route_cost(dm, depot as int, route@),
            gd == depot as int,
        ensures
            forall|a: int, b: int| 0 <= a < b < current@.len() ==> !#[trigger] two_opt_gains(dm, gd, current@, a, b),
            cur_d == route_cost(dm, depot as int, current@),
        decreases cur_d,
    {
        let start_d = cur_d;
        let ghost pass_start = current@;
        let mut improved = false;
        let mut i: usize = 0;
        while i < n - 1
            invariant
                dm == *distances,
                route_in(dm, depot, route@),
                current@.len() == n,
                n >= 2,
                same_customers(current@, route@),
                route_in(dm, depot, current@),
                cur_d == route_cost(dm, depot as int, current@),
                cur_d <= start_d,
                improved ==> cur_d < start_d,
                gd == depot as int,
                i <= n - 1,
                !improved ==> current@ == pass_start && forall|a: int, b: int|
                    0 <= a < b < n && a < i ==> !#[trigger] two_opt_gains(dm, gd, current@, a, b),
            decreases n - i,
        {
            let mut j: usize = i + 1;
            while j < n
                invariant
                    dm == *distances,
                    route_in(dm, depot, route@),
                    current@.len() == n,
                    i < n - 1,
                    i < j,
                    same_customers(current@, route@),
                    route_in(dm, depot, current@),
                    cur_d == route_cost(dm, depot as int, current@),
                    cur_d <= start_d,
                    improved ==> cur_d < start_d,
                    gd == depot as int,
                    j <= n,
                    !improved ==> current@ == pass_start && forall|a: int, b: int|
                        0 <= a < b < n && (a < i || (a == i && b < j)) ==> !#[trigger] two_opt_gains(dm, gd, current@, a, b),
                decreases n - j,
            {
                let prev_i = if i == 0 {
                    depot
                } else {
                    current[i - 1]
                };
                let next_j = if j == n - 1 {
                    depot
                } else {
                    current[j + 1]
                };
                let old_cost: u64 = distances.get(prev_i, current[i]) as u64 + distances.get(
                    current[j],
                    next_j,
                ) as u64;
                let new_cost: u64 = distances.get(prev_i, current[j]) as u64 + distances.get(
                    current[i],
                    next_j,
                ) as u64;
                assert(old_cost == dm.d(if i == 0 { gd } else { current@[i - 1] as int }, current@[i as int] as int) + dm.d(
                    current@[j as int] as int,
                    if j == n - 1 { gd } else { current@[j + 1] as int },
                ));
                assert(new_cost == dm.d(if i == 0 { gd } else { current@[i - 1] as int }, current@[j as int] as int) + dm.d(
                    current@[i as int] as int,
                    if j == n - 1 { gd } else { current@[j + 1] as int },
                ));
                let ghost before = current@;
                if new_cost < old_cost {
                    let candidate = reversed_segment(current.as_slice(), i, j);
                    proof {
                        lemma_same_customers_below(candidate@, current@, dm.spec_size());
                    }
                    let cand_d = route_distance(candidate.as_slice(), depot, distances);
                    if cand_d < cur_d {
                        current = candidate;
                        cur_d = cand_d;
                        improved = true;
                    } else {
                        assert(!two_opt_gains(dm, gd, before, i as int, j as int));
                    }
                } else {
                    assert(!two_opt_gains(dm, gd, before, i as int, j as int));
                }
                j += 1;
            }
            i += 1;
        }
        if !improved {
            break;
        }
    }
    (current, cur_d)
}

} // verus!
