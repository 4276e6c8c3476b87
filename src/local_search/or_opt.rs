//! Or-opt: moving a segment of one to three customers elsewhere in its route.

use vstd::prelude::*;

use crate::distance::DistanceMatrix;
use crate::evaluation::{before, lemma_route_bounds, path_length, route_cost, unit_max};
use crate::local_search::{extend_range, lemma_same_customers_below, route_in, same_customers, swapped_blocks};
use crate::models::customer::Customer;

verus! {

/// Length of the route depot → `route` → depot.
pub fn route_distance(route: &[usize], depot: usize, distances: &DistanceMatrix) -> (r: u128)
    requires
        route_in(*distances, depot, route@),
    ensures
        r == route_cost(*distances, depot as int, route@),
        r <= (route@.len() + 1) * unit_max(),
        r <= 0x1_0000_0000_0000_0000_0000_0000,
{
    let ghost dm = *distances;
    let ghost s = route@;
    let n = route.len();
    if n == 0 {
        return 0;
    }
    let mut dist: u128 = 0;
    let mut prev: usize = depot;
    let mut k: usize = 0;
    assert(s.take(0) =~= Seq::<usize>::empty());
    while k < n
        invariant
            route_in(dm, depot, s),
            dm == *distances,
            s == route@,
            n == s.len(),
            k <= n,
            prev as int == before(depot as int, s, k as int),
            prev < dm.spec_size(),
            dist == path_length(dm, depot as int, s.take(k as int)),
        decreases n - k,
    {
        let ghost t = s.take(k + 1);
        assert(t.drop_last() =~= s.take(k as int));
        assert(before(depot as int, t, k as int) == before(depot as int, s, k as int));
        proof {
            lemma_route_bounds(Seq::<Customer>::empty(), dm, depot as int, t);
        }
        let cid = route[k];
        dist = dist + distances.get(prev, cid) as u128;
        prev = cid;
        k += 1;
    }
    assert(s.take(k as int) =~= s);
    proof {
        lemma_route_bounds(Seq::<Customer>::empty(), dm, depot as int, s);
        assert((n + 1) * unit_max() <= 0x1_0000_0000_0000_0000_0000_0000) by (nonlinear_arith)
            requires n <= usize::MAX;
    }
    dist + distances.get(prev, depot) as u128
}

/// Improves a route by moving segments of 1, 2 or 3 consecutive customers
/// to another place in it, until no such move shortens it. Each pass takes,
/// for one segment length, the move of largest gain.
///
/// Returns the route, a reordering of `route` no longer than it, and its
/// length.
pub fn or_opt_improve(route: &[usize], depot: usize, distances: &DistanceMatrix) -> (r: (Vec<usize>, u128))
    requires
        route_in(*distances, depot, route@),
    ensures
        same_customers(r.0@, route@),
        route_in(*distances, depot, r.0@),
        r.1 == route_cost(*distances, depot as int, r.0@),
        r.1 <= route_cost(*distances, depot as int, route@),
        route@.len() < 2 ==> r.0@ == route@,
        route@.len() >= 2 ==> or_opt_stable(*distances, depot as int, r.0@, 4),
{
    let ghost dm = *distances;
    let mut current: Vec<usize> = Vec::new();
    extend_range(&mut current, route, 0, route.len());
    assert(route@.subrange(0, route@.len() as int) =~= route@);
    let mut cur_d = route_distance(current.as_slice(), depot, distances);
    if current.len() < 2 {
        return (current, cur_d);
    }
    let ghost n0 = route@.len();
    loop
        invariant
            dm == *distances,
            route_in(dm, depot, route@),
            same_customers(current@, route@),
            route_in(dm, depot, current@),
            cur_d == route_cost(dm, depot as int, current@),
            cur_d <= route_cost(dm, depot as int, route@),
            current@.len() == n0,
            n0 >= 2,
        ensures
            or_opt_stable(dm, depot as int, current@, 4),
            current@.len() == n0,
        decreases cur_d,
    {
        let start_d = cur_d;
        let ghost pass_start = current@;
        let mut improved = false;
        let mut seg_len: usize = 1;
        while seg_len <= 3 && seg_len <= current.len()
            invariant
                dm == *distances,
                route_in(dm, depot, route@),
                same_customers(current@, route@),
                route_in(dm, depot, current@),
                cur_d == route_cost(dm, depot as int, current@),
                cur_d <= start_d,
                improved ==> cur_d < start_d,
                1 <= seg_len <= 4,
                current@.len() == n0,
                !improved ==> current@ == pass_start && or_opt_stable(dm, depot as int, current@, seg_len as int),
            decreases 4 - seg_len,
        {
            let ghost before = current@;
            if try_or_opt_pass(&mut current, depot, distances, seg_len) {
                improved = true;
            }
            proof {
                vstd::seq_lib::to_multiset_len(current@);
                vstd::seq_lib::to_multiset_len(before);
            }
            cur_d = route_distance(current.as_slice(), depot, distances);
            seg_len += 1;
        }
        if !improved {
            assert(or_opt_stable(dm, depot as int, current@, 4)) by {
                assert forall|len: int, f: int, t: int|
                    1 <= len < 4 && #[trigger] or_best(dm, depot as int, current@, len, f, t) implies route_cost(
                    dm,
                    depot as int,
                    or_moved(current@, len, f, t),
                ) >= route_cost(dm, depot as int, current@) by {
                    if len >= seg_len {
                        assert(or_move_ok(current@, len, f, t));
                    }
                }
            }
            break;
        }
    }
    (current, cur_d)
}

/// Moving `s[from..from + len]` to before position `to` of `s` is an
/// Or-opt move: both lie in `s` and the target is outside the segment.
pub open spec fn or_move_ok(s: Seq<usize>, len: int, from: int, to: int) -> bool {
    &&& 0 <= from
    &&& from + len <= s.len()
    &&& 0 <= to <= s.len() - len
    &&& (to < from || to > from + len)
}

/// Change in route length from that move: the cost of inserting the
/// segment between its new neighbours minus the gain of taking it out.
pub open spec fn or_delta(dm: DistanceMatrix, depot: int, s: Seq<usize>, len: int, from: int, to: int) -> int {
    let n = s.len();
    let prev = if from == 0 { depot } else { s[from - 1] as int };
    let after = if from + len >= n { depot } else { s[from + len] as int };
    let first = s[from] as int;
    let last = s[from + len - 1] as int;
    let gain = dm.d(prev, first) + dm.d(last, after) - dm.d(prev, after);
    let ins_prev = if to < from {
        if to == 0 { depot } else { s[to - 1] as int }
    } else {
        s[to - 1] as int
    };
    let ins_next = if to < from { s[to] as int } else if to >= n { depot } else { s[to] as int };
    dm.d(ins_prev, first) + dm.d(last, ins_next) - dm.d(ins_prev, ins_next) - gain
}

/// `s` after the move.
pub open spec fn or_moved(s: Seq<usize>, len: int, from: int, to: int) -> Seq<usize> {
    if to < from {
        s.take(to) + s.subrange(from, from + len) + s.subrange(to, from) + s.skip(from + len)
    } else {
        s.take(from) + s.subrange(from + len, to) + s.subrange(from, from + len) + s.skip(to)
    }
}

/// `(f, t)` comes before `(from, to)` in the scan order.
pub open spec fn scanned_before(f: int, t: int, from: int, to: int) -> bool {
    f < from || (f == from && t < to)
}

/// `(from, to)` is the move that a pass takes: its delta is negative, no
/// move has a smaller one, and every earlier move has a larger one.
pub open spec fn or_best(dm: DistanceMatrix, depot: int, s: Seq<usize>, len: int, from: int, to: int) -> bool {
    &&& or_move_ok(s, len, from, to)
    &&& or_delta(dm, depot, s, len, from, to) < 0
    &&& forall|f: int, t: int| #[trigger] or_move_ok(s, len, f, t) ==> or_delta(dm, depot, s, len, f, t) >= or_delta(
        dm,
        depot,
        s,
        len,
        from,
        to,
    )
    &&& forall|f: int, t: int| #[trigger] or_move_ok(s, len, f, t) && scanned_before(f, t, from, to) ==> or_delta(
        dm,
        depot,
        s,
        len,
        f,
        t,
    ) > or_delta(dm, depot, s, len, from, to)
}

/// No pass of Or-opt for segments of fewer than `below` customers (and at
/// most 3) changes `s`: the move each would take does not shorten it.
pub open spec fn or_opt_stable(dm: DistanceMatrix, depot: int, s: Seq<usize>, below: int) -> bool {
    forall|len: int, f: int, t: int|
        1 <= len < below && len <= 3 && #[trigger] or_best(dm, depot, s, len, f, t) ==> route_cost(
            dm,
            depot,
            or_moved(s, len, f, t),
        ) >= route_cost(dm, depot, s)
}

/// One pass of Or-opt for segments of `seg_len` customers: finds the move
/// of largest gain and applies it when it shortens the route.
fn try_or_opt_pass(route: &mut Vec<usize>, depot: usize, distances: &DistanceMatrix, seg_len: usize) -> (r: bool)
    requires
        route_in(*distances, depot, old(route)@),
        1 <= seg_len <= 3,
    ensures
        same_customers(final(route)@, old(route)@),
        route_in(*distances, depot, final(route)@),
        r ==> route_cost(*distances, depot as int, final(route)@) < route_cost(*distances, depot as int, old(route)@),
        !r ==> final(route)@ == old(route)@,
        r ==> exists|f: int, t: int|
            #[trigger] or_best(*distances, depot as int, old(route)@, seg_len as int, f, t) && final(route)@ == or_moved(
                old(route)@,
                seg_len as int,
                f,
                t,
            ),
        !r ==> forall|f: int, t: int|
            #[trigger] or_best(*distances, depot as int, old(route)@, seg_len as int, f, t) ==> route_cost(
                *distances,
                depot as int,
                or_moved(old(route)@, seg_len as int, f, t),
            ) >= route_cost(*distances, depot as int, old(route)@),
{
    let ghost dm = *distances;
    let ghost gd = depot as int;
    let ghost sq = route@;
    let ghost ln = seg_len as int;
    let n = route.len();
    if n < seg_len + 1 {
        assert forall|f: int, t: int| #[trigger] or_best(dm, gd, sq, ln, f, t) implies false by {
            assert(or_move_ok(sq, ln, f, t));
        }
        return false;
    }
    let mut best_delta: i64 = 0;
    let mut best_from: usize = 0;
    let mut best_to: usize = 0;
    let mut from: usize = 0;
    while from <= n - seg_len
        invariant
            route_in(*distances, depot, route@),
            n == route@.len(),
            n >= seg_len + 1,
            seg_len >= 1,
            from <= n - seg_len + 1,
            best_delta < 0 ==> best_from < from,
            best_delta <= 0,
            best_delta < 0 ==> or_move_ok(sq, ln, best_from as int, best_to as int) && best_delta == or_delta(
                dm,
                gd,
                sq,
                ln,
                best_from as int,
                best_to as int,
            ) && forall|f: int, t: int|
                #[trigger] or_move_ok(sq, ln, f, t) && scanned_before(f, t, best_from as int, best_to as int) && f < from
                    ==> or_delta(dm, gd, sq, ln, f, t) > best_delta,
            forall|f: int, t: int| #[trigger] or_move_ok(sq, ln, f, t) && f < from ==> or_delta(dm, gd, sq, ln, f, t) >= best_delta,
            dm == *distances,
            gd == depot as int,
            sq == route@,
            ln == seg_len as int,
        decreases n - seg_len + 1 - from,
    {
        let prev = if from == 0 {
            depot
        } else {
            route[from - 1]
        };
        let after = if from + seg_len >= n {
            depot
        } else {
            route[from + seg_len]
        };
        let seg_first = route[from];
        let seg_last = route[from + seg_len - 1];
        let removal_gain: i64 = distances.get(prev, seg_first) as i64 + distances.get(seg_last, after) as i64
            - distances.get(prev, after) as i64;
        let mut to: usize = 0;
        while to <= n - seg_len
            invariant
                route_in(*distances, depot, route@),
                n == route@.len(),
                n >= seg_len + 1,
                seg_len >= 1,
                from + seg_len <= n,
                seg_first < distances.spec_size(),
                seg_last < distances.spec_size(),
                -0x1_0000_0000 <= removal_gain <= 0x2_0000_0000,
                to <= n - seg_len + 1,
                from <= n - seg_len,
                best_delta < 0 ==> scanned_before(best_from as int, best_to as int, from as int, to as int),
                prev as int == (if from == 0 { gd } else { sq[from - 1] as int }),
                after as int == (if from + seg_len >= n { gd } else { sq[from + seg_len as int] as int }),
                seg_first == sq[from as int],
                seg_last == sq[from + seg_len - 1],
                removal_gain == dm.d(prev as int, seg_first as int) + dm.d(seg_last as int, after as int) - dm.d(prev as int, after as int),
                best_delta <= 0,
                best_delta < 0 ==> or_move_ok(sq, ln, best_from as int, best_to as int) && best_delta == or_delta(
                    dm,
                    gd,
                    sq,
                    ln,
                    best_from as int,
                    best_to as int,
                ) && forall|f: int, t: int|
                    #[trigger] or_move_ok(sq, ln, f, t) && scanned_before(f, t, best_from as int, best_to as int) && (f < from || (f == from && t < to))
                        ==> or_delta(dm, gd, sq, ln, f, t) > best_delta,
                forall|f: int, t: int| #[trigger] or_move_ok(sq, ln, f, t) && (f < from || (f == from && t < to)) ==> or_delta(dm, gd, sq, ln, f, t) >= best_delta,
                dm == *distances,
                gd == depot as int,
                sq == route@,
                ln == seg_len as int,
            decreases n - seg_len + 1 - to,
        {
            if to < from || to > from + seg_len {
                let ins_prev = if to < from {
                    if to == 0 {
                        depot
                    } else {
                        route[to - 1]
                    }
                } else {
                    route[to - 1]
                };
                let ins_next = if to < from {
                    route[to]
                } else if to >= n {
                    depot
                } else {
                    route[to]
                };
                let insertion_cost: i64 = distances.get(ins_prev, seg_first) as i64 + distances.get(
                    seg_last,
                    ins_next,
                ) as i64 - distances.get(ins_prev, ins_next) as i64;
                let delta: i64 = insertion_cost - removal_gain;
                assert(delta == or_delta(dm, gd, sq, ln, from as int, to as int));
                if delta < best_delta {
                    best_delta = delta;
                    best_from = from;
                    best_to = to;
                }
            }
            to += 1;
        }
        from += 1;
    }
    assert forall|f: int, t: int| #[trigger] or_move_ok(sq, ln, f, t) implies or_delta(dm, gd, sq, ln, f, t) >= best_delta by {
        assert(f < from);
    }
    if best_delta < 0 {
        assert(or_best(dm, gd, sq, ln, best_from as int, best_to as int)) by {
            assert forall|f: int, t: int| #[trigger] or_move_ok(sq, ln, f, t) && scanned_before(f, t, best_from as int, best_to as int)
                implies or_delta(dm, gd, sq, ln, f, t) > best_delta by {
                assert(f < from);
            }
        }
        let candidate = if best_to < best_from {
            swapped_blocks(route.as_slice(), best_to, best_from, best_from + seg_len)
        } else {
            swapped_blocks(route.as_slice(), best_from, best_from + seg_len, best_to)
        };
        proof {
            lemma_same_customers_below(candidate@, route@, distances.spec_size());
        }
        let old_d = route_distance(route.as_slice(), depot, distances);
        let new_d = route_distance(candidate.as_slice(), depot, distances);
        assert(candidate@ =~= or_moved(sq, ln, best_from as int, best_to as int));
        proof {
            lemma_or_best_unique(dm, gd, sq, ln, best_from as int, best_to as int);
        }
        if new_d < old_d {
            *route = candidate;
            return true;
        }
        return false;
    }
    proof {
        assert forall|f: int, t: int| #[trigger] or_best(dm, gd, sq, ln, f, t) implies false by {
            assert(or_move_ok(sq, ln, f, t));
        }
    }
    false
}

/// The move a pass takes is unique.
proof fn lemma_or_best_unique(dm: DistanceMatrix, depot: int, s: Seq<usize>, len: int, from: int, to: int)
    requires
        or_best(dm, depot, s, len, from, to),
    ensures
        forall|f: int, t: int| #[trigger] or_best(dm, depot, s, len, f, t) ==> f == from && t == to,
{
    assert forall|f: int, t: int| #[trigger] or_best(dm, depot, s, len, f, t) implies f == from && t == to by {
        assert(or_move_ok(s, len, f, t));
        assert(or_move_ok(s, len, from, to));
        if scanned_before(f, t, from, to) {
        } else if scanned_before(from, to, f, t) {
        }
    }
}

} // verus!
