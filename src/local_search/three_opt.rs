//! 3-opt: cutting a route in three places and reconnecting the pieces.

use vstd::prelude::*;

use crate::distance::DistanceMatrix;
use crate::evaluation::route_cost;
use crate::local_search::{
    extend_range, extend_range_rev, lemma_same_customers_below, route_in, same_customers,
};
use crate::local_search::or_opt::route_distance;

verus! {

/// The route `s` cut after positions `i < j < k` into A = `s[..=i]`,
/// B = `s[i+1..=j]`, C = `s[j+1..=k]` and D = `s[k+1..]`, reconnected by
/// `pattern`: 1 A B C' D, 2 A B' C D, 3 A B' C' D, 4 A C B D, 5 A C B' D,
/// 6 A C' B D, 7 A C' B' D (a prime marks a reversed piece).
pub open spec fn reconnected(s: Seq<usize>, i: int, j: int, k: int, pattern: int) -> Seq<usize> {
    let a = s.take(i + 1);
    let b = s.subrange(i + 1, j + 1);
    let c = s.subrange(j + 1, k + 1);
    let d = s.skip(k + 1);
    let (x, y) = if pattern == 1 {
        (b, c.reverse())
    } else if pattern == 2 {
        (b.reverse(), c)
    } else if pattern == 3 {
        (b.reverse(), c.reverse())
    } else if pattern == 4 {
        (c, b)
    } else if pattern == 5 {
        (c, b.reverse())
    } else if pattern == 6 {
        (c.reverse(), b)
    } else {
        (c.reverse(), b.reverse())
    };
    a + x + y + d
}

/// Every reconnection keeps the customers.
proof fn lemma_reconnected_same(s: Seq<usize>, i: int, j: int, k: int, pattern: int)
    requires
        0 <= i < j < k < s.len(),
    ensures
        same_customers(reconnected(s, i, j, k, pattern), s),
{
    let a = s.take(i + 1);
    let b = s.subrange(i + 1, j + 1);
    let c = s.subrange(j + 1, k + 1);
    let d = s.skip(k + 1);
    assert(s =~= a + b + c + d);
    b.lemma_reverse_to_multiset();
    c.lemma_reverse_to_multiset();
    let r = reconnected(s, i, j, k, pattern);
    let (x, y) = if pattern == 1 {
        (b, c.reverse())
    } else if pattern == 2 {
        (b.reverse(), c)
    } else if pattern == 3 {
        (b.reverse(), c.reverse())
    } else if pattern == 4 {
        (c, b)
    } else if pattern == 5 {
        (c, b.reverse())
    } else if pattern == 6 {
        (c.reverse(), b)
    } else {
        (c.reverse(), b.reverse())
    };
    assert(r == a + x + y + d);
    vstd::seq_lib::lemma_multiset_commutative(a, x);
    vstd::seq_lib::lemma_multiset_commutative(a + x, y);
    vstd::seq_lib::lemma_multiset_commutative(a + x + y, d);
    vstd::seq_lib::lemma_multiset_commutative(a, b);
    vstd::seq_lib::lemma_multiset_commutative(a + b, c);
    vstd::seq_lib::lemma_multiset_commutative(a + b + c, d);
    assert(r.to_multiset() =~= s.to_multiset());
}

/// Length of the three edges joining the pieces of `s` cut after
/// `i < j < k` when reconnected by `pattern` (0: as they are; see
/// `reconnected` for 1 to 7).
pub open spec fn junction_cost(dm: DistanceMatrix, depot: int, s: Seq<usize>, i: int, j: int, k: int, pattern: int) -> int {
    let a_end = s[i] as int;
    let b_start = s[i + 1] as int;
    let b_end = s[j] as int;
    let c_start = s[j + 1] as int;
    let c_end = s[k] as int;
    let d_start = if k + 1 < s.len() { s[k + 1] as int } else { depot };
    if pattern == 1 {
        dm.d(a_end, b_start) + dm.d(b_end, c_end) + dm.d(c_start, d_start)
    } else if pattern == 2 {
        dm.d(a_end, b_end) + dm.d(b_start, c_start) + dm.d(c_end, d_start)
    } else if pattern == 3 {
        dm.d(a_end, b_end) + dm.d(b_start, c_end) + dm.d(c_start, d_start)
    } else if pattern == 4 {
        dm.d(a_end, c_start) + dm.d(c_end, b_start) + dm.d(b_end, d_start)
    } else if pattern == 5 {
        dm.d(a_end, c_start) + dm.d(c_end, b_end) + dm.d(b_start, d_start)
    } else if pattern == 6 {
        dm.d(a_end, c_end) + dm.d(c_start, b_start) + dm.d(b_end, d_start)
    } else if pattern == 7 {
        dm.d(a_end, c_end) + dm.d(c_start, b_end) + dm.d(b_start, d_start)
    } else {
        dm.d(a_end, b_start) + dm.d(b_end, c_start) + dm.d(c_end, d_start)
    }
}

/// Among patterns `1..=q`, the one of least junction cost below the cut
/// edges' (the lowest number on ties); 0 when none is below.
pub open spec fn least_pattern(dm: DistanceMatrix, depot: int, s: Seq<usize>, i: int, j: int, k: int, q: int) -> int
    decreases q,
{
    if q <= 0 {
        0
    } else {
        let b = least_pattern(dm, depot, s, i, j, k, q - 1);
        if junction_cost(dm, depot, s, i, j, k, q) < junction_cost(dm, depot, s, i, j, k, b) {
            q
        } else {
            b
        }
    }
}

/// Cutting `s` after `i < j < k` and reconnecting by the pattern of least
/// junction cost gives a shorter route.
pub open spec fn three_opt_gains(dm: DistanceMatrix, depot: int, s: Seq<usize>, i: int, j: int, k: int) -> bool {
    let p = least_pattern(dm, depot, s, i, j, k, 7);
    p != 0 && route_cost(dm, depot, reconnected(s, i, j, k, p)) < route_cost(dm, depot, s)
}

/// Appends `src[a..b]` to `out`, reversed when `rev` is set.
fn extend_piece(out: &mut Vec<usize>, src: &[usize], a: usize, b: usize, rev: bool)
    requires
        a <= b <= src@.len(),
    ensures
        final(out)@ == old(out)@ + if rev {
            src@.subrange(a as int, b as int).reverse()
        } else {
            src@.subrange(a as int, b as int)
        },
{
    if rev {
        extend_range_rev(out, src, a, b);
    } else {
        extend_range(out, src, a, b);
    }
}

/// Builds `reconnected(route, i, j, k, pattern)`.
fn reconnect(route: &[usize], i: usize, j: usize, k: usize, pattern: u8) -> (r: Vec<usize>)
    requires
        i < j < k < route@.len(),
        1 <= pattern <= 7,
    ensures
        r@ == reconnected(route@, i as int, j as int, k as int, pattern as int),
{
    let n = route.len();
    let mut r: Vec<usize> = Vec::new();
    extend_range(&mut r, route, 0, i + 1);
    if pattern <= 3 {
        extend_piece(&mut r, route, i + 1, j + 1, pattern != 1);
        extend_piece(&mut r, route, j + 1, k + 1, pattern != 2);
    } else {
        extend_piece(&mut r, route, j + 1, k + 1, pattern >= 6);
        extend_piece(&mut r, route, i + 1, j + 1, pattern == 5 || pattern == 7);
    }
    extend_range(&mut r, route, k + 1, n);
    assert(route@.subrange(0, i + 1) =~= route@.take(i + 1));
    assert(route@.subrange(k + 1, n as int) =~= route@.skip(k + 1));
    r
}

/// Tries the seven reconnections of the cuts after `i < j < k` and returns
/// the route made by the one whose new edges are shortest, when they are
/// shorter than the three cut edges and the whole route gets shorter.
fn try_three_opt_move(
    route: &[usize],
    depot: usize,
    distances: &DistanceMatrix,
    i: usize,
    j: usize,
    k: usize,
) -> (r: Option<Vec<usize>>)
    requires
        route_in(*distances, depot, route@),
        i < j < k < route@.len(),
    ensures
        ({
            let p = least_pattern(*distances, depot as int, route@, i as int, j as int, k as int, 7);
            &&& r.is_some() <==> p != 0 && route_cost(
                *distances,
                depot as int,
                reconnected(route@, i as int, j as int, k as int, p),
            ) < route_cost(*distances, depot as int, route@)
            &&& r matches Some(v) ==> v@ == reconnected(route@, i as int, j as int, k as int, p)
        }),
        r matches Some(v) ==> v@.len() == route@.len() && same_customers(v@, route@) && route_in(*distances, depot, v@)
            && route_cost(*distances, depot as int, v@) < route_cost(*distances, depot as int, route@),
{
    let n = route.len();
    let a_end = route[i];
    let b_start = route[i + 1];
    let b_end = route[j];
    let c_start = route[j + 1];
    let c_end = route[k];
    let d_start = if k + 1 < n {
        route[k + 1]
    } else {
        depot
    };
    let old_cost: u64 = distances.get(a_end, b_start) as u64 + distances.get(b_end, c_start) as u64
        + distances.get(c_end, d_start) as u64;
    let ghost dm = *distances;
    let ghost gd = depot as int;
    let ghost sq = route@;
    let mut best_cost: u64 = old_cost;
    let mut best_pattern: u8 = 0;
    assert(best_pattern == least_pattern(dm, gd, sq, i as int, j as int, k as int, 0));
    assert(best_cost == junction_cost(dm, gd, sq, i as int, j as int, k as int, 0));
    let cost1: u64 = distances.get(a_end, b_start) as u64 + distances.get(b_end, c_end) as u64
        + distances.get(c_start, d_start) as u64;
    if cost1 < best_cost {
        best_cost = cost1;
        best_pattern = 1;
    }
    assert(best_pattern == least_pattern(dm, gd, sq, i as int, j as int, k as int, 1));
    assert(best_cost == junction_cost(dm, gd, sq, i as int, j as int, k as int, best_pattern as int));
    let cost2: u64 = distances.get(a_end, b_end) as u64 + distances.get(b_start, c_start) as u64
        + distances.get(c_end, d_start) as u64;
    if cost2 < best_cost {
        best_cost = cost2;
        best_pattern = 2;
    }
    assert(best_pattern == least_pattern(dm, gd, sq, i as int, j as int, k as int, 2));
    assert(best_cost == junction_cost(dm, gd, sq, i as int, j as int, k as int, best_pattern as int));
    let cost3: u64 = distances.get(a_end, b_end) as u64 + distances.get(b_start, c_end) as u64
        + distances.get(c_start, d_start) as u64;
    if cost3 < best_cost {
        best_cost = cost3;
        best_pattern = 3;
    }
    assert(best_pattern == least_pattern(dm, gd, sq, i as int, j as int, k as int, 3));
    assert(best_cost == junction_cost(dm, gd, sq, i as int, j as int, k as int, best_pattern as int));
    let cost4: u64 = distances.get(a_end, c_start) as u64 + distances.get(c_end, b_start) as u64
        + distances.get(b_end, d_start) as u64;
    if cost4 < best_cost {
        best_cost = cost4;
        best_pattern = 4;
    }
    assert(best_pattern == least_pattern(dm, gd, sq, i as int, j as int, k as int, 4));
    assert(best_cost == junction_cost(dm, gd, sq, i as int, j as int, k as int, best_pattern as int));
    let cost5: u64 = distances.get(a_end, c_start) as u64 + distances.get(c_end, b_end) as u64
        + distances.get(b_start, d_start) as u64;
    if cost5 < best_cost {
        best_cost = cost5;
        best_pattern = 5;
    }
    assert(best_pattern == least_pattern(dm, gd, sq, i as int, j as int, k as int, 5));
    assert(best_cost == junction_cost(dm, gd, sq, i as int, j as int, k as int, best_pattern as int));
    let cost6: u64 = distances.get(a_end, c_end) as u64 + distances.get(c_start, b_start) as u64
        + distances.get(b_end, d_start) as u64;
    if cost6 < best_cost {
        best_cost = cost6;
        best_pattern = 6;
    }
    assert(best_pattern == least_pattern(dm, gd, sq, i as int, j as int, k as int, 6));
    assert(best_cost == junction_cost(dm, gd, sq, i as int, j as int, k as int, best_pattern as int));
    let cost7: u64 = distances.get(a_end, c_end) as u64 + distances.get(c_start, b_end) as u64
        + distances.get(b_start, d_start) as u64;
    if cost7 < best_cost {
        best_pattern = 7;
    }
    assert(best_pattern == least_pattern(dm, gd, sq, i as int, j as int, k as int, 7));
    if best_pattern == 0 {
        return None;
    }
    let candidate = reconnect(route, i, j, k, best_pattern);
    proof {
        lemma_reconnected_same(route@, i as int, j as int, k as int, best_pattern as int);
        vstd::seq_lib::to_multiset_len(candidate@);
        vstd::seq_lib::to_multiset_len(route@);
        lemma_same_customers_below(candidate@, route@, distances.spec_size());
    }
    // with an asymmetric matrix the reversed pieces' own edges change too
    if route_distance(candidate.as_slice(), depot, distances) < route_distance(route, depot, distances) {
        Some(candidate)
    } else {
        None
    }
}

/// Improves a route by 3-opt moves until none shortens it: the cut triples
/// `i < j < k` are scanned in order and the first one that yields a shorter
/// route is applied, then the scan restarts. Routes of fewer than 4
/// customers are returned as they are.
///
/// Returns the route, a reordering of `route` no longer than it, and its
/// length.
pub fn three_opt_improve(route: &[usize], depot: usize, distances: &DistanceMatrix) -> (r: (Vec<usize>, u128))
    requires
        route_in(*distances, depot, route@),
    ensures
        same_customers(r.0@, route@),
        route_in(*distances, depot, r.0@),
        r.1 == route_cost(*distances, depot as int, r.0@),
        r.1 <= route_cost(*distances, depot as int, route@),
        route@.len() < 4 ==> r.0@ == route@,
        route@.len() >= 4 ==> forall|i: int, j: int, k: int| 0 <= i < j < k < r.0@.len() ==> !#[trigger] three_opt_gains(*distances, depot as int, r.0@, i, j, k),
{
    let ghost dm = *distances;
    let mut current: Vec<usize> = Vec::new();
    extend_range(&mut current, route, 0, route.len());
    assert(route@.subrange(0, route@.len() as int) =~= route@);
    let n = current.len();
    if n < 4 {
        let d = route_distance(current.as_slice(), depot, distances);
        return (current, d);
    }
    let mut cur_d = route_distance(current.as_slice(), depot, distances);
    loop
        invariant
            dm == *distances,
            route_in(dm, depot, route@),
            current@.len() == n,
            n >= 4,
            same_customers(current@, route@),
            route_in(dm, depot, current@),
            cur_d == route_cost(dm, depot as int, current@),
            route_cost(dm, depot as int, current@) <= route_cost(dm, depot as int, route@),
        ensures
            forall|a: int, b: int, c: int| 0 <= a < b < c < current@.len() ==> !#[trigger] three_opt_gains(dm, depot as int, current@, a, b, c),
            cur_d == route_cost(dm, depot as int, current@),
        decreases cur_d,
    {
        let ghost start = route_cost(dm, depot as int, current@);
        let ghost pass_start = current@;
        let mut improved = false;
        let mut i: usize = 0;
        while i < n - 2 && !improved
            invariant
                dm == *distances,
                route_in(dm, depot, route@),
                current@.len() == n,
                n >= 4,
                same_customers(current@, route@),
                route_in(dm, depot, current@),
                route_cost(dm, depot as int, current@) <= start,
                improved ==> route_cost(dm, depot as int, current@) < start,
                !improved ==> current@ == pass_start && forall|a: int, b: int, c: int|
                    0 <= a < b < c < n && a < i ==> !#[trigger] three_opt_gains(dm, depot as int, current@, a, b, c),
                !improved ==> i <= n - 2,
            decreases n - i,
        {
            let mut j: usize = i + 1;
            while j < n - 1 && !improved
                invariant
                    dm == *distances,
                    route_in(dm, depot, route@),
                    current@.len() == n,
                    n >= 4,
                    i < j,
                    same_customers(current@, route@),
                    route_in(dm, depot, current@),
                    route_cost(dm, depot as int, current@) <= start,
                    improved ==> route_cost(dm, depot as int, current@) < start,
                    i < n - 2,
                    !improved ==> current@ == pass_start && forall|a: int, b: int, c: int|
                        0 <= a < b < c < n && (a < i || (a == i && b < j)) ==> !#[trigger] three_opt_gains(
                            dm,
                            depot as int,
                            current@,
                            a,
                            b,
                            c,
                        ),
                    !improved ==> j <= n - 1,
                decreases n - j,
            {
                let mut k: usize = j + 1;
                while k < n && !improved
                    invariant
                        dm == *distances,
                        route_in(dm, depot, route@),
                        current@.len() == n,
                        i < j < k,
                        same_customers(current@, route@),
                        route_in(dm, depot, current@),
                        route_cost(dm, depot as int, current@) <= start,
                        improved ==> route_cost(dm, depot as int, current@) < start,
                        j < n - 1,
                        !improved ==> current@ == pass_start && forall|a: int, b: int, c: int|
                            0 <= a < b < c < n && (a < i || (a == i && b < j) || (a == i && b == j && c < k)) ==> !#[trigger] three_opt_gains(
                                dm,
                                depot as int,
                                current@,
                                a,
                                b,
                                c,
                            ),
                        !improved ==> k <= n,
                    decreases n - k,
                {
                    match try_three_opt_move(current.as_slice(), depot, distances, i, j, k) {
                        Some(next) => {
                            current = next;
                            improved = true;
                        },
                        None => {
                            assert(!three_opt_gains(dm, depot as int, current@, i as int, j as int, k as int));
                        },
                    }
                    k += 1;
                }
                j += 1;
            }
            i += 1;
        }
        cur_d = route_distance(current.as_slice(), depot, distances);
        if !improved {
            break;
        }
    }
    (current, cur_d)
}

} // verus!
