//! Destroy operators: random, worst and Shaw (relatedness) removal.

use rand::rngs::SmallRng;
use vstd::prelude::*;

use crate::alns::solution_repr::RoutingSolution;
use crate::distance::DistanceMatrix;
use crate::evaluation::ids_below;
use crate::local_search::extend_range;
use crate::models::customer::Customer;
use crate::random::draw_below;
use crate::route_set::{
    all_customers, lemma_all_customers_update, lemma_nonempty_only_customers, seqs_below, seqs_of_vecs,
};

verus! {

broadcast use vstd::multiset::group_multiset_axioms;

/// Number of customers on the routes `rs`.
pub open spec fn seqs_len(rs: Seq<Seq<usize>>) -> int
    decreases rs.len(),
{
    if rs.len() == 0 {
        0
    } else {
        seqs_len(rs.drop_last()) + rs.last().len()
    }
}

/// How many customers a destroy of degree `degree_ppm` (millionths)
/// removes from `total` assigned ones: `max(1, round(degree * total))`,
/// and never more than there are (a total above `u64::MAX` counts as
/// `u64::MAX` in the product).
pub open spec fn removal_count(total: int, degree_ppm: int) -> int {
    let t = if total > 0xFFFF_FFFF_FFFF_FFFF { 0xFFFF_FFFF_FFFF_FFFF } else { total };
    let k = (t * degree_ppm + 500_000) / 1_000_000;
    let k = if k < 1 { 1 } else { k };
    if k < total { k } else { total }
}

/// What every destroy operator guarantees: the customers taken off the
/// routes are appended to the unassigned ones, `removed` of them, and
/// empty routes are dropped.
pub open spec fn destroyed(before: RoutingSolution, after: RoutingSolution, removed: int) -> bool {
    &&& after.spec_unassigned().len() == before.spec_unassigned().len() + removed
    &&& after.spec_unassigned().take(before.spec_unassigned().len() as int) == before.spec_unassigned()
    &&& all_customers(after.spec_routes()).add(after.spec_unassigned().to_multiset()) == all_customers(
        before.spec_routes(),
    ).add(before.spec_unassigned().to_multiset())
    &&& forall|k: int| 0 <= k < after.spec_routes().len() ==> (#[trigger] after.spec_routes()[k]).len() > 0
}

/// Replacing one sequence changes the count by the difference in length.
pub proof fn lemma_seqs_len_update(rs: Seq<Seq<usize>>, a: int, x: Seq<usize>)
    requires
        0 <= a < rs.len(),
    ensures
        seqs_len(rs.update(a, x)) + rs[a].len() == seqs_len(rs) + x.len(),
    decreases rs.len(),
{
    let u = rs.update(a, x);
    if a == rs.len() - 1 {
        assert(u.drop_last() =~= rs.drop_last());
    } else {
        assert(u.drop_last() =~= rs.drop_last().update(a, x));
        lemma_seqs_len_update(rs.drop_last(), a, x);
    }
}

/// A copy of the routes.
pub(crate) fn copy_routes(routes: &Vec<Vec<usize>>) -> (r: Vec<Vec<usize>>)
    ensures
        seqs_of_vecs(r@) == seqs_of_vecs(routes@),
{
    let mut r: Vec<Vec<usize>> = Vec::new();
    let mut k: usize = 0;
    while k < routes.len()
        invariant
            k <= routes@.len(),
            seqs_of_vecs(r@) == seqs_of_vecs(routes@.take(k as int)),
        decreases routes@.len() - k,
    {
        let mut c: Vec<usize> = Vec::new();
        extend_range(&mut c, routes[k].as_slice(), 0, routes[k].len());
        assert(routes@[k as int]@.subrange(0, routes@[k as int]@.len() as int) =~= routes@[k as int]@);
        let ghost pre = seqs_of_vecs(r@);
        r.push(c);
        assert(seqs_of_vecs(r@) =~= pre.push(routes@[k as int]@));
        assert(seqs_of_vecs(routes@.take(k + 1)) =~= seqs_of_vecs(routes@.take(k as int)).push(routes@[k as int]@));
        k += 1;
    }
    assert(routes@.take(k as int) =~= routes@);
    r
}

/// A copy of a sequence of ids.
pub(crate) fn copy_ids(v: &Vec<usize>) -> (r: Vec<usize>)
    ensures
        r@ == v@,
{
    let mut r: Vec<usize> = Vec::new();
    extend_range(&mut r, v.as_slice(), 0, v.len());
    assert(v@.subrange(0, v@.len() as int) =~= v@);
    r
}

/// Number of customers on the routes.
fn count_assigned(routes: &Vec<Vec<usize>>) -> (r: u128)
    ensures
        r == seqs_len(seqs_of_vecs(routes@)),
{
    let ghost rs = seqs_of_vecs(routes@);
    let mut total: u128 = 0;
    let mut k: usize = 0;
    while k < routes.len()
        invariant
            rs == seqs_of_vecs(routes@),
            k <= rs.len(),
            total == seqs_len(rs.take(k as int)),
            total <= k * 0xFFFF_FFFF_FFFF_FFFF,
        decreases rs.len() - k,
    {
        assert(rs.take(k + 1).drop_last() =~= rs.take(k as int));
        let l = routes[k].len();
        assert((k + 1) * 0xFFFF_FFFF_FFFF_FFFF <= 0xFFFF_FFFF_FFFF_FFFF * 0xFFFF_FFFF_FFFF_FFFF) by (nonlinear_arith)
            requires k < 0xFFFF_FFFF_FFFF_FFFF;
        total = total + l as u128;
        k += 1;
    }
    assert(rs.take(k as int) =~= rs);
    total
}

/// `removal_count` of the routes' customers.
fn removal_target(total: u128, degree_ppm: u32) -> (r: u128)
    ensures
        r == removal_count(total as int, degree_ppm as int),
{
    let capped_total: u128 = if total > 0xFFFF_FFFF_FFFF_FFFF {
        0xFFFF_FFFF_FFFF_FFFF
    } else {
        total
    };
    assert(capped_total * degree_ppm <= 0xFFFF_FFFF_FFFF_FFFF * 0xFFFF_FFFF) by (nonlinear_arith)
        requires capped_total <= 0xFFFF_FFFF_FFFF_FFFF, degree_ppm <= 0xFFFF_FFFF;
    let k = (capped_total * degree_ppm as u128 + 500_000) / 1_000_000;
    let k = if k < 1 {
        1
    } else {
        k
    };
    if k < total {
        k
    } else {
        total
    }
}

/// Takes the customer at `pos` of route `r` off the routes.
fn take_out(routes: &mut Vec<Vec<usize>>, r: usize, pos: usize) -> (c: usize)
    requires
        r < old(routes)@.len(),
        pos < old(routes)@[r as int]@.len(),
    ensures
        seqs_of_vecs(final(routes)@) == seqs_of_vecs(old(routes)@).update(
            r as int,
            seqs_of_vecs(old(routes)@)[r as int].remove(pos as int),
        ),
        c == seqs_of_vecs(old(routes)@)[r as int][pos as int],
        all_customers(seqs_of_vecs(final(routes)@)).insert(c) == all_customers(seqs_of_vecs(old(routes)@)),
        seqs_len(seqs_of_vecs(final(routes)@)) + 1 == seqs_len(seqs_of_vecs(old(routes)@)),
        forall|n: nat| seqs_below(seqs_of_vecs(old(routes)@), n) ==> seqs_below(seqs_of_vecs(final(routes)@), n),
{
    let ghost rs = seqs_of_vecs(routes@);
    let c = routes[r][pos];
    let len = routes[r].len();
    let mut shorter: Vec<usize> = Vec::new();
    extend_range(&mut shorter, routes[r].as_slice(), 0, pos);
    extend_range(&mut shorter, routes[r].as_slice(), pos + 1, len);
    assert(shorter@ =~= rs[r as int].remove(pos as int));
    routes.set(r, shorter);
    proof {
        assert(seqs_of_vecs(routes@) =~= rs.update(r as int, rs[r as int].remove(pos as int)));
        lemma_all_customers_update(rs, r as int, rs[r as int].remove(pos as int));
        lemma_seqs_len_update(rs, r as int, rs[r as int].remove(pos as int));
        vstd::seq_lib::to_multiset_remove(rs[r as int], pos as int);
        vstd::seq_lib::to_multiset_contains(rs[r as int], c);
        assert(rs[r as int].contains(c));
        let after = seqs_of_vecs(routes@);
        assert forall|v: usize| #[trigger] all_customers(after).insert(c).count(v) == all_customers(rs).count(v) by {
            assert(all_customers(after).add(rs[r as int].to_multiset()).count(v) == all_customers(rs).add(
                rs[r as int].remove(pos as int).to_multiset(),
            ).count(v));
        }
        assert(all_customers(after).insert(c) =~= all_customers(rs));
        assert forall|n: nat| seqs_below(rs, n) implies seqs_below(after, n) by {
            assert forall|i: int| 0 <= i < after.len() implies ids_below(#[trigger] after[i], n) by {
                if i == r {
                    assert(ids_below(rs[i], n));
                    assert forall|q: int| 0 <= q < after[i].len() implies #[trigger] after[i][q] < n by {
                        if q < pos {
                            assert(after[i][q] == rs[i][q]);
                        } else {
                            assert(after[i][q] == rs[i][q + 1]);
                        }
                    }
                } else {
                    assert(after[i] == rs[i]);
                }
            }
        }
    }
    c
}

/// Removes customers chosen uniformly at random.
pub struct RandomRemoval;

impl RandomRemoval {
    pub fn name(&self) -> (r: &'static str) {
        "random_removal"
    }

    /// Takes `removal_count` customers off the routes, each chosen uniformly
    /// among those still assigned, and appends them to the unassigned ones;
    /// empty routes are dropped. `degree_ppm` is the degree in millionths.
    pub fn destroy(&self, solution: &RoutingSolution, degree_ppm: u32, rng: &mut SmallRng) -> (r: RoutingSolution)
        ensures
            destroyed(
                *solution,
                r,
                removal_count(seqs_len(solution.spec_routes()), degree_ppm as int),
            ),
            r.spec_total_distance() == solution.spec_total_distance(),
    {
        let mut routes = copy_routes(solution.routes());
        let mut unassigned = copy_ids(solution.unassigned());
        let ghost rs0 = seqs_of_vecs(routes@);
        let ghost un0 = unassigned@;
        let total = count_assigned(&routes);
        proof {
            lemma_seqs_len_bound(rs0);
        }
        let k = removal_target(total, degree_ppm);
        let mut done: u128 = 0;
        assert(unassigned@.take(un0.len() as int) =~= un0);
        while done < k
            invariant
                rs0 == solution.spec_routes(),
                un0 == solution.spec_unassigned(),
                total == seqs_len(rs0),
                k == removal_count(total as int, degree_ppm as int),
                k <= total,
                done <= k,
                seqs_len(seqs_of_vecs(routes@)) == total - done,
                all_customers(seqs_of_vecs(routes@)).add(unassigned@.to_multiset()) == all_customers(rs0).add(
                    un0.to_multiset(),
                ),
                unassigned@.len() == un0.len() + done,
                unassigned@.take(un0.len() as int) == un0,
            decreases k - done,
        {
            let ghost rs = seqs_of_vecs(routes@);
            let assigned = count_assigned(&routes);
            let bound: u64 = if assigned > 0xFFFF_FFFF_FFFF_FFFF {
                0xFFFF_FFFF_FFFF_FFFF
            } else {
                assigned as u64
            };
            let target = draw_below(rng, bound) as u128;
            let mut count: u128 = 0;
            let mut r: usize = 0;
            while r < routes.len() && count + routes[r].len() as u128 <= target
                invariant
                    rs == seqs_of_vecs(routes@),
                    r <= rs.len(),
                    count == seqs_len(rs.take(r as int)),
                    count <= target,
                    target < seqs_len(rs),
                    target < 0x1_0000_0000_0000_0000,
                decreases rs.len() - r,
            {
                assert(rs.take(r + 1).drop_last() =~= rs.take(r as int));
                count = count + routes[r].len() as u128;
                r += 1;
            }
            if r == routes.len() {
                assert(rs.take(r as int) =~= rs);
            }
            assert(rs.take(r + 1).drop_last() =~= rs.take(r as int));
            let c = take_out(&mut routes, r, (target - count) as usize);
            let ghost pre_un = unassigned@;
            unassigned.push(c);
            proof {
                vstd::seq_lib::to_multiset_build(pre_un, c);
                assert(unassigned@.take(un0.len() as int) =~= pre_un.take(un0.len() as int));
            }
            done += 1;
        }
        let mut result = RoutingSolution::from_parts(routes, unassigned, solution.total_distance());
        let ghost before_drop = result.spec_routes();
        result.remove_empty_routes();
        proof {
            lemma_nonempty_only_customers(before_drop);
        }
        result
    }
}

/// A count of customers fits the product bound of `removal_target`.
proof fn lemma_seqs_len_bound(rs: Seq<Seq<usize>>)
    ensures
        seqs_len(rs) >= 0,
    decreases rs.len(),
{
    if rs.len() > 0 {
        lemma_seqs_len_bound(rs.drop_last());
    }
}

/// Upper bound (exclusive) of the random tie-breakers of worst removal.
const NOISE_RANGE: u64 = 1_000_000;

/// `d(prev, c) + d(c, next) - d(prev, next)` for the customer `c` at
/// `pos` of `route`, its neighbours being the depot 0 at the ends.
pub open spec fn removal_saving_of(dm: DistanceMatrix, route: Seq<usize>, pos: int) -> int {
    let c = route[pos] as int;
    let prev = if pos == 0 { 0 } else { route[pos - 1] as int };
    let next = if pos == route.len() - 1 { 0 } else { route[pos + 1] as int };
    dm.d(prev, c) + dm.d(c, next) - dm.d(prev, next)
}

/// `(s1, n1)` ranks above `(s2, n2)`: a larger saving, or an equal saving
/// and a larger tie-breaker.
pub open spec fn outranks(s1: int, n1: int, s2: int, n2: int) -> bool {
    s1 > s2 || (s1 == s2 && n1 > n2)
}

/// The routes hold at least as many customers as any one of them.
proof fn lemma_seqs_len_ge(rs: Seq<Seq<usize>>, q: int)
    requires
        0 <= q < rs.len(),
    ensures
        seqs_len(rs) >= rs[q].len(),
    decreases rs.len(),
{
    lemma_seqs_len_bound(rs.drop_last());
    if q < rs.len() - 1 {
        lemma_seqs_len_ge(rs.drop_last(), q);
        assert(rs.drop_last()[q] == rs[q]);
    }
}

/// `noise` holds one value per customer of `rs`.
pub open spec fn shaped_like(noise: Seq<Vec<u64>>, rs: Seq<Seq<usize>>) -> bool {
    &&& noise.len() == rs.len()
    &&& forall|q: int| 0 <= q < rs.len() ==> (#[trigger] noise[q])@.len() == rs[q].len()
}

/// One tie-breaker below `NOISE_RANGE` per customer of the routes, drawn
/// in route order.
fn draw_noise(routes: &Vec<Vec<usize>>, rng: &mut SmallRng) -> (r: Vec<Vec<u64>>)
    ensures
        shaped_like(r@, seqs_of_vecs(routes@)),
{
    let mut r: Vec<Vec<u64>> = Vec::new();
    let mut q: usize = 0;
    while q < routes.len()
        invariant
            q <= routes@.len(),
            r@.len() == q,
            forall|x: int| 0 <= x < q ==> (#[trigger] r@[x])@.len() == routes@[x]@.len(),
        decreases routes@.len() - q,
    {
        let mut row: Vec<u64> = Vec::new();
        let mut p: usize = 0;
        while p < routes[q].len()
            invariant
                q < routes@.len(),
                p <= routes@[q as int]@.len(),
                row@.len() == p,
            decreases routes@[q as int]@.len() - p,
        {
            row.push(draw_below(rng, NOISE_RANGE));
            p += 1;
        }
        r.push(row);
        q += 1;
    }
    r
}

/// Removes the customers whose removal shortens their route most.
pub struct WorstRemoval {
    distances: DistanceMatrix,
}

impl WorstRemoval {
    pub closed spec fn spec_distances(&self) -> DistanceMatrix {
        self.distances
    }

    pub fn new(distances: DistanceMatrix) -> (r: WorstRemoval)
        ensures
            r.spec_distances() == distances,
    {
        WorstRemoval { distances }
    }

    pub fn name(&self) -> (r: &'static str) {
        "worst_removal"
    }

    /// `d(prev, c) + d(c, next) - d(prev, next)` for the customer `c` at
    /// `pos`, its neighbours being the depot 0 at the ends.
    fn removal_saving(&self, route: &Vec<usize>, pos: usize) -> (r: i64)
        requires
            self.distances.wf(),
            self.distances.spec_size() > 0,
            ids_below(route@, self.distances.spec_size()),
            pos < route@.len(),
        ensures
            -0x1_0000_0000 <= r <= 0x2_0000_0000,
            r == removal_saving_of(self.distances, route@, pos as int),
    {
        let cid = route[pos];
        let prev = if pos == 0 {
            0
        } else {
            route[pos - 1]
        };
        let next = if pos == route.len() - 1 {
            0
        } else {
            route[pos + 1]
        };
        self.distances.get(prev, cid) as i64 + self.distances.get(cid, next) as i64 - self.distances.get(prev, next) as i64
    }

    /// The customer to remove: the one of largest removal saving, a larger
    /// tie-breaker `noise[route][position]` deciding between equal savings,
    /// the first in route order when both tie; `None` when no customer is on
    /// the routes.
    pub fn worst_candidate(&self, routes: &Vec<Vec<usize>>, noise: &Vec<Vec<u64>>) -> (r: Option<(usize, usize)>)
        requires
            self.spec_distances().wf(),
            self.spec_distances().spec_size() > 0,
            seqs_below(seqs_of_vecs(routes@), self.spec_distances().spec_size()),
            shaped_like(noise@, seqs_of_vecs(routes@)),
        ensures
            r.is_none() <==> seqs_len(seqs_of_vecs(routes@)) == 0,
            r matches Some((br, bp)) ==> {
                let rs = seqs_of_vecs(routes@);
                let dm = self.spec_distances();
                &&& br < rs.len() && bp < rs[br as int].len()
                &&& forall|q: int, p: int|
                    0 <= q < rs.len() && 0 <= p < rs[q].len() ==> !#[trigger] outranks(
                        removal_saving_of(dm, rs[q], p),
                        noise@[q]@[p] as int,
                        removal_saving_of(dm, rs[br as int], bp as int),
                        noise@[br as int]@[bp as int] as int,
                    )
                &&& forall|q: int, p: int|
                    0 <= q < rs.len() && 0 <= p < rs[q].len() && (q < br || (q == br && p < bp)) ==> #[trigger] outranks(
                        removal_saving_of(dm, rs[br as int], bp as int),
                        noise@[br as int]@[bp as int] as int,
                        removal_saving_of(dm, rs[q], p),
                        noise@[q]@[p] as int,
                    )
            },
    {
        let ghost rs = seqs_of_vecs(routes@);
        let ghost dm = self.distances;
        let ghost nz = noise@;
        let n = self.distances.size();
        let mut best: Option<(usize, usize)> = None;
        let mut best_saving: i64 = 0;
        let mut best_noise: u64 = 0;
        let mut ri: usize = 0;
        while ri < routes.len()
            invariant
                self.spec_distances().wf(),
                dm == self.spec_distances(),
                nz == noise@,
                n == dm.spec_size(),
                n > 0,
                rs == seqs_of_vecs(routes@),
                seqs_below(rs, n as nat),
                shaped_like(nz, rs),
                ri <= rs.len(),
                best is None ==> seqs_len(rs.take(ri as int)) == 0,
                best matches Some((br, bp)) ==> br < ri && bp < rs[br as int].len() && best_saving == removal_saving_of(
                    dm,
                    rs[br as int],
                    bp as int,
                ) && best_noise == nz[br as int]@[bp as int],
                best matches Some((br, bp)) ==> forall|q: int, p: int|
                    0 <= q < ri && 0 <= p < rs[q].len() ==> !#[trigger] outranks(
                        removal_saving_of(dm, rs[q], p),
                        nz[q]@[p] as int,
                        best_saving as int,
                        best_noise as int,
                    ),
                best matches Some((br, bp)) ==> forall|q: int, p: int|
                    0 <= q < ri && 0 <= p < rs[q].len() && (q < br || (q == br && p < bp)) ==> #[trigger] outranks(
                        best_saving as int,
                        best_noise as int,
                        removal_saving_of(dm, rs[q], p),
                        nz[q]@[p] as int,
                    ),
            decreases rs.len() - ri,
        {
            assert(rs.take(ri + 1).drop_last() =~= rs.take(ri as int));
            assert(ids_below(rs[ri as int], n as nat));
            let mut pos: usize = 0;
            while pos < routes[ri].len()
                invariant
                    self.spec_distances().wf(),
                    dm == self.spec_distances(),
                    nz == noise@,
                    n == dm.spec_size(),
                    n > 0,
                    rs == seqs_of_vecs(routes@),
                    shaped_like(nz, rs),
                    ri < rs.len(),
                    ids_below(rs[ri as int], n as nat),
                    pos <= rs[ri as int].len(),
                    best is None ==> seqs_len(rs.take(ri as int)) == 0 && pos == 0,
                    best matches Some((br, bp)) ==> (br < ri || (br == ri && bp < pos)) && bp < rs[br as int].len()
                        && best_saving == removal_saving_of(dm, rs[br as int], bp as int) && best_noise
                        == nz[br as int]@[bp as int],
                    best matches Some((br, bp)) ==> forall|q: int, p: int|
                        0 <= q < rs.len() && 0 <= p < rs[q].len() && (q < ri || (q == ri && p < pos)) ==> !#[trigger] outranks(
                            removal_saving_of(dm, rs[q], p),
                            nz[q]@[p] as int,
                            best_saving as int,
                            best_noise as int,
                        ),
                    best matches Some((br, bp)) ==> forall|q: int, p: int|
                        0 <= q < rs.len() && 0 <= p < rs[q].len() && (q < br || (q == br && p < bp)) ==> #[trigger] outranks(
                            best_saving as int,
                            best_noise as int,
                            removal_saving_of(dm, rs[q], p),
                            nz[q]@[p] as int,
                        ),
                decreases rs[ri as int].len() - pos,
            {
                let saving = self.removal_saving(&routes[ri], pos);
                assert(nz[ri as int]@.len() == rs[ri as int].len());
                let noise_here = noise[ri][pos];
                let better = match best {
                    None => true,
                    Some(_) => saving > best_saving || (saving == best_saving && noise_here > best_noise),
                };
                let ghost old_best = best;
                let ghost old_saving = best_saving as int;
                let ghost old_noise = best_noise as int;
                if better {
                    best = Some((ri, pos));
                    best_saving = saving;
                    best_noise = noise_here;
                }
                proof {
                    assert forall|q: int, p: int|
                        0 <= q < rs.len() && 0 <= p < rs[q].len() && (q < ri || (q == ri && p <= pos)) implies !#[trigger] outranks(
                        removal_saving_of(dm, rs[q], p),
                        nz[q]@[p] as int,
                        best_saving as int,
                        best_noise as int,
                    ) by {
                        if q < ri && old_best is None {
                            lemma_seqs_len_ge(rs.take(ri as int), q);
                            assert(rs.take(ri as int)[q] == rs[q]);
                        }
                        if !(q == ri && p == pos) && old_best is Some {
                            assert(!outranks(removal_saving_of(dm, rs[q], p), nz[q]@[p] as int, old_saving, old_noise));
                        }
                    }
                    if better {
                        assert forall|q: int, p: int|
                            0 <= q < rs.len() && 0 <= p < rs[q].len() && (q < ri || (q == ri && p < pos)) implies #[trigger] outranks(
                            best_saving as int,
                            best_noise as int,
                            removal_saving_of(dm, rs[q], p),
                            nz[q]@[p] as int,
                        ) by {
                            if q < ri && old_best is None {
                                lemma_seqs_len_ge(rs.take(ri as int), q);
                                assert(rs.take(ri as int)[q] == rs[q]);
                            }
                            if old_best is Some {
                                assert(!outranks(removal_saving_of(dm, rs[q], p), nz[q]@[p] as int, old_saving, old_noise));
                            }
                        }
                    }
                }
                pos += 1;
            }
            ri += 1;
        }
        assert(rs.take(ri as int) =~= rs);
        proof {
            match best {
                Some((br, _)) => {
                    lemma_seqs_len_ge(rs, br as int);
                },
                None => {},
            }
        }
        best
    }

    /// Takes `removal_count` customers off the routes, each time the one of
    /// largest removal saving (a random tie-breaker below one unit of
    /// distance decides between equal savings), and appends them to the
    /// unassigned ones; empty routes are dropped.
    pub fn destroy(&self, solution: &RoutingSolution, degree_ppm: u32, rng: &mut SmallRng) -> (r: RoutingSolution)
        requires
            self.spec_distances().wf(),
            self.spec_distances().spec_size() > 0,
            seqs_below(solution.spec_routes(), self.spec_distances().spec_size()),
        ensures
            destroyed(
                *solution,
                r,
                removal_count(seqs_len(solution.spec_routes()), degree_ppm as int),
            ),
            r.spec_total_distance() == solution.spec_total_distance(),
    {
        let n = self.distances.size();
        let mut routes = copy_routes(solution.routes());
        let mut unassigned = copy_ids(solution.unassigned());
        let ghost rs0 = seqs_of_vecs(routes@);
        let ghost un0 = unassigned@;
        let total = count_assigned(&routes);
        let k = removal_target(total, degree_ppm);
        let mut done: u128 = 0;
        assert(unassigned@.take(un0.len() as int) =~= un0);
        while done < k
            invariant
                self.spec_distances().wf(),
                n == self.spec_distances().spec_size(),
                n > 0,
                rs0 == solution.spec_routes(),
                un0 == solution.spec_unassigned(),
                seqs_below(seqs_of_vecs(routes@), n as nat),
                total == seqs_len(rs0),
                k == removal_count(total as int, degree_ppm as int),
                k <= total,
                done <= k,
                seqs_len(seqs_of_vecs(routes@)) == total - done,
                all_customers(seqs_of_vecs(routes@)).add(unassigned@.to_multiset()) == all_customers(rs0).add(
                    un0.to_multiset(),
                ),
                unassigned@.len() == un0.len() + done,
                unassigned@.take(un0.len() as int) == un0,
            decreases k - done,
        {
            let ghost rs = seqs_of_vecs(routes@);
            let noise = draw_noise(&routes, rng);
            let best = self.worst_candidate(&routes, &noise);
            match best {
                Some((br, bp)) => {
                    let c = take_out(&mut routes, br, bp);
                    let ghost pre_un = unassigned@;
                    unassigned.push(c);
                    proof {
                        vstd::seq_lib::to_multiset_build(pre_un, c);
                        assert(unassigned@.take(un0.len() as int) =~= pre_un.take(un0.len() as int));
                    }
                },
                None => {},
            }
            done += 1;
        }
        let mut result = RoutingSolution::from_parts(routes, unassigned, solution.total_distance());
        let ghost before_drop = result.spec_routes();
        result.remove_empty_routes();
        proof {
            lemma_nonempty_only_customers(before_drop);
        }
        result
    }
}

/// A customer missing from every sequence is not among their customers.
proof fn lemma_absent(rs: Seq<Seq<usize>>, c: usize)
    requires
        forall|q: int| 0 <= q < rs.len() ==> !(#[trigger] rs[q]).contains(c),
    ensures
        all_customers(rs).count(c) == 0,
    decreases rs.len(),
{
    if rs.len() > 0 {
        assert forall|q: int| 0 <= q < rs.drop_last().len() implies !(#[trigger] rs.drop_last()[q]).contains(c) by {
            assert(rs.drop_last()[q] == rs[q]);
        }
        lemma_absent(rs.drop_last(), c);
        vstd::seq_lib::to_multiset_contains(rs.last(), c);
        assert(!rs[rs.len() - 1].contains(c));
    }
}

/// Takes the first occurrence of `c` off the routes; `c` must be on them.
fn remove_customer(routes: &mut Vec<Vec<usize>>, c: usize)
    requires
        all_customers(seqs_of_vecs(old(routes)@)).count(c) > 0,
    ensures
        all_customers(seqs_of_vecs(final(routes)@)).insert(c) == all_customers(seqs_of_vecs(old(routes)@)),
        seqs_len(seqs_of_vecs(final(routes)@)) + 1 == seqs_len(seqs_of_vecs(old(routes)@)),
        forall|n: nat| seqs_below(seqs_of_vecs(old(routes)@), n) ==> seqs_below(seqs_of_vecs(final(routes)@), n),
{
    let ghost rs = seqs_of_vecs(routes@);
    let mut r: usize = 0;
    while r < routes.len()
        invariant
            rs == seqs_of_vecs(routes@),
            rs == seqs_of_vecs(old(routes)@),
            all_customers(rs).count(c) > 0,
            r <= rs.len(),
            forall|q: int| 0 <= q < r ==> !(#[trigger] rs[q]).contains(c),
        decreases rs.len() - r,
    {
        let mut pos: usize = 0;
        while pos < routes[r].len()
            invariant
                rs == seqs_of_vecs(routes@),
                rs == seqs_of_vecs(old(routes)@),
                r < rs.len(),
                pos <= rs[r as int].len(),
                forall|p: int| 0 <= p < pos ==> (#[trigger] rs[r as int][p]) != c,
            decreases rs[r as int].len() - pos,
        {
            if routes[r][pos] == c {
                assert(rs[r as int][pos as int] == c);
                let got = take_out(routes, r, pos);
                assert(got == c);
                return;
            }
            pos += 1;
        }
        assert(!rs[r as int].contains(c));
        r += 1;
    }
    proof {
        lemma_absent(rs, c);
    }
}

/// How related `a` and `b` are, `1 / (d(a, b) + 0.1) + 1 / (|demand(a) -
/// demand(b)| + 1)`, as the exact fraction `(numerator, denominator)`.
fn relatedness(distances: &DistanceMatrix, customers: &Vec<Customer>, a: usize, b: usize) -> (r: (u128, u128))
    requires
        distances.wf(),
        a < distances.spec_size(),
        b < distances.spec_size(),
        a < customers@.len(),
        b < customers@.len(),
    ensures
        0 < r.1 <= 0x1_0000_0000_0000_0000_0000,
        r.0 <= 0x100_0000_0000,
{
    let d = distances.get(a, b) as u128;
    let da = customers[a].demand();
    let db = customers[b].demand();
    let e: u128 = if da >= db {
        (da - db) as u128
    } else {
        (db - da) as u128
    };
    let ten_d = 10 * d + 1;
    assert(ten_d * (e + 1) <= 0x1_0000_0000_0000_0000_0000) by (nonlinear_arith)
        requires ten_d <= 0xA_0000_0000, e + 1 <= 0x1_0000_0000;
    assert(ten_d * (e + 1) > 0) by (nonlinear_arith)
        requires ten_d >= 1, e + 1 >= 1;
    (10 * (e + 1) + ten_d, ten_d * (e + 1))
}

/// Whether the fraction `x` is larger than `y`.
fn larger(x: (u128, u128), y: (u128, u128)) -> bool
    requires
        x.0 <= 0x100_0000_0000,
        y.0 <= 0x100_0000_0000,
        x.1 <= 0x1_0000_0000_0000_0000_0000,
        y.1 <= 0x1_0000_0000_0000_0000_0000,
{
    assert(x.0 * y.1 <= 0x100_0000_0000 * 0x1_0000_0000_0000_0000_0000) by (nonlinear_arith)
        requires x.0 <= 0x100_0000_0000, y.1 <= 0x1_0000_0000_0000_0000_0000;
    assert(y.0 * x.1 <= 0x100_0000_0000 * 0x1_0000_0000_0000_0000_0000) by (nonlinear_arith)
        requires y.0 <= 0x100_0000_0000, x.1 <= 0x1_0000_0000_0000_0000_0000;
    x.0 * y.1 > y.0 * x.1
}

/// Removes a random customer and then those most related to the removed
/// ones (close to them and of similar demand).
pub struct ShawRemoval {
    distances: DistanceMatrix,
    customers: Vec<Customer>,
}

impl ShawRemoval {
    pub closed spec fn spec_distances(&self) -> DistanceMatrix {
        self.distances
    }

    pub closed spec fn spec_customers(&self) -> Seq<Customer> {
        self.customers@
    }

    pub fn new(distances: DistanceMatrix, customers: Vec<Customer>) -> (r: ShawRemoval)
        ensures
            r.spec_distances() == distances,
            r.spec_customers() == customers@,
    {
        ShawRemoval { distances, customers }
    }

    pub fn name(&self) -> (r: &'static str) {
        "shaw_removal"
    }

    /// Whether the matrix is well formed and covers exactly the customers.
    pub fn is_valid(&self) -> (r: bool)
        ensures
            r == crate::evaluation::valid_instance(self.spec_customers(), self.spec_distances()),
    {
        self.distances.is_well_formed() && self.distances.size() == self.customers.len()
    }

    /// With no customer assigned, only drops the empty routes. Otherwise
    /// takes `removal_count` customers off the routes: a seed drawn
    /// uniformly, then each time the assigned customer whose largest
    /// relatedness to an already removed one is greatest (the first on
    /// ties); appends them to the unassigned ones in order of removal and
    /// drops empty routes.
    pub fn destroy(&self, solution: &RoutingSolution, degree_ppm: u32, rng: &mut SmallRng) -> (r: RoutingSolution)
        requires
            crate::evaluation::valid_instance(self.spec_customers(), self.spec_distances()),
            seqs_below(solution.spec_routes(), self.spec_customers().len()),
        ensures
            seqs_len(solution.spec_routes()) == 0 ==> destroyed(*solution, r, 0),
            seqs_len(solution.spec_routes()) > 0 ==> destroyed(
                *solution,
                r,
                removal_count(seqs_len(solution.spec_routes()), degree_ppm as int),
            ),
            r.spec_total_distance() == solution.spec_total_distance(),
    {
        let n = self.customers.len();
        let mut routes = copy_routes(solution.routes());
        let mut unassigned = copy_ids(solution.unassigned());
        let ghost rs0 = seqs_of_vecs(routes@);
        let ghost un0 = unassigned@;
        let total = count_assigned(&routes);
        if total == 0 {
            let mut result = RoutingSolution::from_parts(routes, unassigned, solution.total_distance());
            let ghost before_drop = result.spec_routes();
            result.remove_empty_routes();
            proof {
                lemma_nonempty_only_customers(before_drop);
                assert(result.spec_unassigned().take(un0.len() as int) =~= un0);
            }
            return result;
        }
        let k = removal_target(total, degree_ppm);
        // the assigned customers, route after route
        let mut assigned: Vec<usize> = Vec::new();
        let mut ri: usize = 0;
        proof {
            crate::route_set::lemma_empty_customers(assigned@);
        }
        while ri < routes.len()
            invariant
                rs0 == seqs_of_vecs(routes@),
                ri <= rs0.len(),
                seqs_below(rs0, n as nat),
                ids_below(assigned@, n as nat),
                assigned@.to_multiset() == all_customers(rs0.take(ri as int)),
                assigned@.len() == seqs_len(rs0.take(ri as int)),
            decreases rs0.len() - ri,
        {
            assert(rs0.take(ri + 1).drop_last() =~= rs0.take(ri as int));
            assert(ids_below(rs0[ri as int], n as nat));
            let ghost pre = assigned@;
            extend_range(&mut assigned, routes[ri].as_slice(), 0, routes[ri].len());
            proof {
                assert(routes@[ri as int]@.subrange(0, routes@[ri as int]@.len() as int) =~= rs0[ri as int]);
                vstd::seq_lib::lemma_multiset_commutative(pre, rs0[ri as int]);
            }
            ri += 1;
        }
        assert(rs0.take(ri as int) =~= rs0);
        let seed_idx = draw_below(rng, if total > 0xFFFF_FFFF_FFFF_FFFF { 0xFFFF_FFFF_FFFF_FFFF } else { total as u64 }) as usize;
        let ghost pre_a = assigned@;
        let seed = assigned.remove(seed_idx);
        let mut removed: Vec<usize> = Vec::new();
        removed.push(seed);
        proof {
            vstd::seq_lib::to_multiset_remove(pre_a, seed_idx as int);
            vstd::seq_lib::to_multiset_contains(pre_a, seed);
            assert(pre_a[seed_idx as int] == seed);
        }
        remove_customer(&mut routes, seed);
        proof {
            crate::route_set::lemma_empty_customers(Seq::<usize>::empty());
            vstd::seq_lib::to_multiset_build(Seq::<usize>::empty(), seed);
            assert(removed@ =~= Seq::<usize>::empty().push(seed));
            assert(all_customers(seqs_of_vecs(routes@)).add(removed@.to_multiset()) =~= all_customers(rs0));
            assert(assigned@.to_multiset() =~= all_customers(seqs_of_vecs(routes@)));
        }
        let mut done: u128 = 1;
        while done < k && assigned.len() > 0
            invariant
                crate::evaluation::valid_instance(self.spec_customers(), self.spec_distances()),
                n == self.spec_customers().len(),
                rs0 == solution.spec_routes(),
                un0 == solution.spec_unassigned(),
                total == seqs_len(rs0),
                k == removal_count(total as int, degree_ppm as int),
                k <= total,
                1 <= done <= k,
                removed@.len() == done,
                seqs_len(seqs_of_vecs(routes@)) == total - done,
                assigned@.len() == total - done,
                assigned@.to_multiset() == all_customers(seqs_of_vecs(routes@)),
                seqs_below(seqs_of_vecs(routes@), n as nat),
                ids_below(assigned@, n as nat),
                ids_below(removed@, n as nat),
                all_customers(seqs_of_vecs(routes@)).add(removed@.to_multiset()) == all_customers(rs0),
            decreases k - done,
        {
            let mut best_idx: usize = 0;
            let mut best_rel: (u128, u128) = (0, 1);
            let mut have_best = false;
            let mut idx: usize = 0;
            while idx < assigned.len()
                invariant
                    crate::evaluation::valid_instance(self.spec_customers(), self.spec_distances()),
                    n == self.spec_customers().len(),
                    ids_below(assigned@, n as nat),
                    ids_below(removed@, n as nat),
                    removed@.len() >= 1,
                    idx <= assigned@.len(),
                    best_idx < assigned@.len(),
                    best_rel.0 <= 0x100_0000_0000,
                    best_rel.1 <= 0x1_0000_0000_0000_0000_0000,
                decreases assigned@.len() - idx,
            {
                let cid = assigned[idx];
                let mut max_rel = relatedness(&self.distances, &self.customers, removed[0], cid);
                let mut q: usize = 1;
                while q < removed.len()
                    invariant
                        crate::evaluation::valid_instance(self.spec_customers(), self.spec_distances()),
                        n == self.spec_customers().len(),
                        ids_below(removed@, n as nat),
                        cid < n,
                        max_rel.0 <= 0x100_0000_0000,
                        max_rel.1 <= 0x1_0000_0000_0000_0000_0000,
                    decreases removed@.len() - q,
                {
                    let rel = relatedness(&self.distances, &self.customers, removed[q], cid);
                    if larger(rel, max_rel) {
                        max_rel = rel;
                    }
                    q += 1;
                }
                if !have_best || larger(max_rel, best_rel) {
                    best_rel = max_rel;
                    best_idx = idx;
                    have_best = true;
                }
                idx += 1;
            }
            let ghost pre_a = assigned@;
            let ghost pre_r = removed@;
            let next = assigned.remove(best_idx);
            removed.push(next);
            proof {
                vstd::seq_lib::to_multiset_remove(pre_a, best_idx as int);
                vstd::seq_lib::to_multiset_contains(pre_a, next);
                assert(pre_a[best_idx as int] == next);
                vstd::seq_lib::to_multiset_build(pre_r, next);
            }
            let ghost pre_routes = all_customers(seqs_of_vecs(routes@));
            remove_customer(&mut routes, next);
            proof {
                assert(all_customers(seqs_of_vecs(routes@)).add(removed@.to_multiset()) =~= all_customers(rs0));
                assert(assigned@.to_multiset() =~= all_customers(seqs_of_vecs(routes@)));
            }
            done += 1;
        }
        let ghost un_before = unassigned@;
        extend_range(&mut unassigned, removed.as_slice(), 0, removed.len());
        proof {
            assert(removed@.subrange(0, removed@.len() as int) =~= removed@);
            vstd::seq_lib::lemma_multiset_commutative(un_before, removed@);
            assert(unassigned@.take(un0.len() as int) =~= un0);
            assert(all_customers(seqs_of_vecs(routes@)).add(unassigned@.to_multiset()) =~= all_customers(rs0).add(
                un0.to_multiset(),
            ));
        }
        let mut result = RoutingSolution::from_parts(routes, unassigned, solution.total_distance());
        let ghost before_drop = result.spec_routes();
        result.remove_empty_routes();
        proof {
            lemma_nonempty_only_customers(before_drop);
        }
        result
    }
}

} // verus!
