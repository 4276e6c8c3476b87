//! Local search operators: within a route (2-opt, Or-opt, 3-opt) and
//! between routes (relocate, exchange).

pub mod exchange;
pub mod or_opt;
pub mod relocate;
pub mod three_opt;
pub mod two_opt;

pub use or_opt::route_distance;

use vstd::prelude::*;

use crate::distance::DistanceMatrix;
use crate::evaluation::ids_below;

verus! {

/// `a` and `b` hold the same customers, as many times each.
pub open spec fn same_customers(a: Seq<usize>, b: Seq<usize>) -> bool {
    a.to_multiset() == b.to_multiset()
}

/// The matrix is well formed and `depot` and every id of `s` are locations.
pub open spec fn route_in(dm: DistanceMatrix, depot: usize, s: Seq<usize>) -> bool {
    &&& dm.wf()
    &&& depot < dm.spec_size()
    &&& ids_below(s, dm.spec_size())
}

/// Appends `src[a..b]` to `out`.
pub(crate) fn extend_range(out: &mut Vec<usize>, src: &[usize], a: usize, b: usize)
    requires
        a <= b <= src@.len(),
    ensures
        final(out)@ == old(out)@ + src@.subrange(a as int, b as int),
{
    let ghost start = out@;
    let mut k: usize = a;
    while k < b
        invariant
            a <= k <= b <= src@.len(),
            out@ == start + src@.subrange(a as int, k as int),
        decreases b - k,
    {
        out.push(src[k]);
        k += 1;
        assert(out@ =~= start + src@.subrange(a as int, k as int));
    }
}

/// Appends `src[a..b]` in reverse order to `out`.
pub(crate) fn extend_range_rev(out: &mut Vec<usize>, src: &[usize], a: usize, b: usize)
    requires
        a <= b <= src@.len(),
    ensures
        final(out)@ == old(out)@ + src@.subrange(a as int, b as int).reverse(),
{
    let ghost start = out@;
    let mut k: usize = b;
    while k > a
        invariant
            a <= k <= b <= src@.len(),
            out@ == start + src@.subrange(k as int, b as int).reverse(),
        decreases k - a,
    {
        k -= 1;
        out.push(src[k]);
        assert(src@.subrange(k as int, b as int).reverse() =~= src@.subrange(k + 1, b as int).reverse().push(src@[k as int]));
        assert(out@ =~= start + src@.subrange(k as int, b as int).reverse());
    }
}

/// A reordering of a route keeps it within the locations.
pub proof fn lemma_same_customers_below(a: Seq<usize>, b: Seq<usize>, n: nat)
    requires
        same_customers(a, b),
        ids_below(b, n),
    ensures
        ids_below(a, n),
{
    assert forall|k: int| 0 <= k < a.len() implies #[trigger] a[k] < n by {
        a.to_multiset_ensures();
        b.to_multiset_ensures();
        assert(a.to_multiset().count(a[k]) > 0);
        assert(b.contains(a[k]));
    }
}

/// Reversing `s[i..j]` keeps the customers.
pub proof fn lemma_reverse_segment(s: Seq<usize>, i: int, j: int)
    requires
        0 <= i <= j <= s.len(),
    ensures
        same_customers(s.take(i) + s.subrange(i, j).reverse() + s.skip(j), s),
{
    let a = s.take(i);
    let b = s.subrange(i, j);
    let c = s.skip(j);
    assert(s =~= a + b + c);
    b.lemma_reverse_to_multiset();
    vstd::seq_lib::lemma_multiset_commutative(a, b.reverse());
    vstd::seq_lib::lemma_multiset_commutative(a + b.reverse(), c);
    vstd::seq_lib::lemma_multiset_commutative(a, b);
    vstd::seq_lib::lemma_multiset_commutative(a + b, c);
}

/// Exchanging the adjacent blocks `s[p..q]` and `s[q..r]` keeps the
/// customers.
pub proof fn lemma_swap_blocks(s: Seq<usize>, p: int, q: int, r: int)
    requires
        0 <= p <= q <= r <= s.len(),
    ensures
        same_customers(s.take(p) + s.subrange(q, r) + s.subrange(p, q) + s.skip(r), s),
{
    let a = s.take(p);
    let b = s.subrange(p, q);
    let c = s.subrange(q, r);
    let d = s.skip(r);
    assert(s =~= a + b + c + d);
    vstd::seq_lib::lemma_multiset_commutative(a, c);
    vstd::seq_lib::lemma_multiset_commutative(a + c, b);
    vstd::seq_lib::lemma_multiset_commutative(a + c + b, d);
    vstd::seq_lib::lemma_multiset_commutative(a, b);
    vstd::seq_lib::lemma_multiset_commutative(a + b, c);
    vstd::seq_lib::lemma_multiset_commutative(a + b + c, d);
    assert((a + c + b + d).to_multiset() =~= s.to_multiset());
}

/// `s` with the blocks `s[p..q]` and `s[q..r]` exchanged.
pub(crate) fn swapped_blocks(s: &[usize], p: usize, q: usize, r: usize) -> (out: Vec<usize>)
    requires
        p <= q <= r <= s@.len(),
    ensures
        out@ == s@.take(p as int) + s@.subrange(q as int, r as int) + s@.subrange(p as int, q as int) + s@.skip(r as int),
        same_customers(out@, s@),
{
    let n = s.len();
    let mut out: Vec<usize> = Vec::new();
    extend_range(&mut out, s, 0, p);
    extend_range(&mut out, s, q, r);
    extend_range(&mut out, s, p, q);
    extend_range(&mut out, s, r, n);
    assert(s@.subrange(0, p as int) =~= s@.take(p as int));
    assert(s@.subrange(r as int, n as int) =~= s@.skip(r as int));
    proof {
        lemma_swap_blocks(s@, p as int, q as int, r as int);
    }
    out
}

/// Relocate and exchange never lengthen a solution whose routes the
/// evaluator built for `v`: their result is no longer than the customer
/// sequences of the input, which is the input's own length.
pub proof fn lemma_inter_route_monotone(
    cs: Seq<crate::models::customer::Customer>,
    dm: DistanceMatrix,
    v: crate::models::vehicle::Vehicle,
    before: crate::models::solution::Solution,
    after: crate::models::solution::Solution,
)
    requires
        forall|k: int| 0 <= k < before.spec_routes().len() ==> crate::evaluation::built_route(
            cs,
            dm,
            v,
            (#[trigger] before.spec_routes()[k]).spec_ids(),
            before.spec_routes()[k],
        ),
        crate::models::solution::routes_distance(after.spec_routes()) <= crate::route_set::seqs_cost(
            dm,
            v.spec_depot() as int,
            crate::route_set::route_ids(before.spec_routes()),
        ),
    ensures
        crate::models::solution::routes_distance(after.spec_routes()) <= crate::models::solution::routes_distance(
            before.spec_routes(),
        ),
{
    crate::route_set::lemma_built_routes_distance(cs, dm, v, before.spec_routes());
}

} // verus!
