//! The routing problem as seen by a genetic-algorithm driver over giant
//! tours.

use rand::rngs::SmallRng;
use u_metaheur::ga::operators::{invert_mutation, order_crossover, swap_mutation};
use vstd::multiset::Multiset;
use vstd::prelude::*;

use crate::distance::DistanceMatrix;
use crate::evaluation::{ids_below, valid_instance};
use crate::ga::chromosome::GiantTour;
use crate::ga::split::{split, split_spec};
use crate::local_search::two_opt::two_opt_improve;
use crate::models::customer::Customer;
use crate::route_set::seqs_of_vecs;
use crate::random::draw_below;

verus! {

broadcast use vstd::multiset::group_multiset_axioms;

/// `s` holds each of the ids `lo..lo + n` exactly once.
pub open spec fn is_perm_from(s: Seq<usize>, lo: int, n: int) -> bool {
    &&& s.len() == n
    &&& forall|k: int| 0 <= k < s.len() ==> lo <= #[trigger] s[k] < lo + n
    &&& s.no_duplicates()
}

/// `s` with the elements at `i` and `j` exchanged.
pub open spec fn swapped_at(s: Seq<usize>, i: int, j: int) -> Seq<usize> {
    s.update(i, s[j]).update(j, s[i])
}

/// `s` with the segment `s[a..=b]` reversed.
pub open spec fn reversed_between(s: Seq<usize>, a: int, b: int) -> Seq<usize> {
    s.take(a) + s.subrange(a, b + 1).reverse() + s.skip(b + 1)
}

/// Relies on `u_metaheur::ga::operators::order_crossover`: given two
/// permutations of `0..n` (n > 0; it panics on empty parents or parents of
/// different lengths) it returns two children, each a permutation of `0..n`.
#[verifier::external_body]
fn crossover_ox(p1: &Vec<usize>, p2: &Vec<usize>, rng: &mut SmallRng) -> (r: (Vec<usize>, Vec<usize>))
    requires
        p1@.len() > 0,
        is_perm_from(p1@, 0, p1@.len() as int),
        is_perm_from(p2@, 0, p1@.len() as int),
    ensures
        is_perm_from(r.0@, 0, p1@.len() as int),
        is_perm_from(r.1@, 0, p1@.len() as int),
{
    order_crossover(p1.as_slice(), p2.as_slice(), rng)
}

/// Relies on `u_metaheur::ga::operators::swap_mutation`: exchanges the
/// elements at two positions (the sequence is left alone when shorter than
/// two), so a permutation stays one.
#[verifier::external_body]
fn mutate_swap(perm: &mut Vec<usize>, rng: &mut SmallRng)
    ensures
        final(perm)@.len() == old(perm)@.len(),
        old(perm)@.len() < 2 ==> final(perm)@ == old(perm)@,
        old(perm)@.len() >= 2 ==> exists|i: int, j: int|
            0 <= i < old(perm)@.len() && 0 <= j < old(perm)@.len() && final(perm)@ == #[trigger] swapped_at(
                old(perm)@,
                i,
                j,
            ),
        forall|lo: int, n: int| is_perm_from(old(perm)@, lo, n) ==> #[trigger] is_perm_from(final(perm)@, lo, n),
{
    swap_mutation(perm.as_mut_slice(), rng)
}

/// Relies on `u_metaheur::ga::operators::invert_mutation`: reverses one
/// segment `[start, end]` (the sequence is left alone when shorter than
/// two), so a permutation stays one.
#[verifier::external_body]
fn mutate_invert(perm: &mut Vec<usize>, rng: &mut SmallRng)
    ensures
        final(perm)@.len() == old(perm)@.len(),
        old(perm)@.len() < 2 ==> final(perm)@ == old(perm)@,
        old(perm)@.len() >= 2 ==> exists|a: int, b: int|
            0 <= a <= b < old(perm)@.len() && final(perm)@ == #[trigger] reversed_between(old(perm)@, a, b),
        forall|lo: int, n: int| is_perm_from(old(perm)@, lo, n) ==> #[trigger] is_perm_from(final(perm)@, lo, n),
{
    invert_mutation(perm.as_mut_slice(), rng)
}

/// `v` with every id moved by `up ? +1 : -1`.
fn shifted(v: &Vec<usize>, up: bool, lo: Ghost<int>, n: Ghost<int>) -> (r: Vec<usize>)
    requires
        is_perm_from(v@, lo@, n@),
        up ==> lo@ + n@ <= usize::MAX,
        !up ==> lo@ >= 1,
    ensures
        is_perm_from(r@, if up { lo@ + 1 } else { lo@ - 1 }, n@),
{
    let mut r: Vec<usize> = Vec::new();
    let mut k: usize = 0;
    while k < v.len()
        invariant
            is_perm_from(v@, lo@, n@),
            up ==> lo@ + n@ <= usize::MAX,
            !up ==> lo@ >= 1,
            k <= v@.len(),
            r@.len() == k,
            forall|q: int| 0 <= q < k ==> #[trigger] r@[q] == if up { v@[q] + 1 } else { v@[q] - 1 },
        decreases v@.len() - k,
    {
        if up {
            r.push(v[k] + 1);
        } else {
            r.push(v[k] - 1);
        }
        k += 1;
    }
    assert(r@.no_duplicates()) by {
        assert forall|a: int, b: int| 0 <= a < r@.len() && 0 <= b < r@.len() && a != b implies r@[a] != r@[b] by {
            assert(v@[a] != v@[b]);
        }
    }
    r
}

/// Swapping two positions keeps a permutation.
proof fn lemma_swap_perm(s: Seq<usize>, i: int, j: int, lo: int, n: int)
    requires
        is_perm_from(s, lo, n),
        0 <= i < s.len(),
        0 <= j < s.len(),
    ensures
        is_perm_from(s.update(i, s[j]).update(j, s[i]), lo, n),
{
    let t = s.update(i, s[j]).update(j, s[i]);
    assert forall|a: int, b: int| 0 <= a < t.len() && 0 <= b < t.len() && a != b implies t[a] != t[b] by {
        let sa = if a == j { i } else if a == i { j } else { a };
        let sb = if b == j { i } else if b == i { j } else { b };
        assert(t[a] == s[sa]);
        assert(t[b] == s[sb]);
    }
}

/// A capacitated routing problem for the GA driver over giant tours.
pub struct RoutingGaProblem {
    customers: Vec<Customer>,
    distances: DistanceMatrix,
    capacity: u32,
    apply_local_search: bool,
}

impl RoutingGaProblem {
    pub closed spec fn spec_customers(&self) -> Seq<Customer> {
        self.customers@
    }

    pub closed spec fn spec_distances(&self) -> DistanceMatrix {
        self.distances
    }

    pub closed spec fn spec_capacity(&self) -> u32 {
        self.capacity
    }

    pub closed spec fn spec_local_search(&self) -> bool {
        self.apply_local_search
    }

    /// The problem, with 2-opt applied to each route when evaluating.
    pub fn new(customers: Vec<Customer>, distances: DistanceMatrix, capacity: u32) -> (r: RoutingGaProblem)
        ensures
            r.spec_customers() == customers@,
            r.spec_distances() == distances,
            r.spec_capacity() == capacity,
            r.spec_local_search(),
    {
        RoutingGaProblem { customers, distances, capacity, apply_local_search: true }
    }

    /// The same problem, evaluating the split alone.
    pub fn without_local_search(self) -> (r: RoutingGaProblem)
        ensures
            r.spec_customers() == self.spec_customers(),
            r.spec_distances() == self.spec_distances(),
            r.spec_capacity() == self.spec_capacity(),
            !r.spec_local_search(),
    {
        RoutingGaProblem { apply_local_search: false, ..self }
    }

    /// Whether the matrix is well formed and covers exactly the locations,
    /// the depot among them.
    pub fn is_valid(&self) -> (r: bool)
        ensures
            r == (valid_instance(self.spec_customers(), self.spec_distances()) && self.spec_customers().len() > 0),
    {
        self.distances.is_well_formed() && self.distances.size() == self.customers.len() && self.customers.len() > 0
    }

    /// Number of customers, the depot excluded.
    fn num_customers(&self) -> (r: usize)
        requires
            self.spec_customers().len() > 0,
        ensures
            r == self.spec_customers().len() - 1,
            r < usize::MAX,
    {
        self.customers.len() - 1
    }

    /// A uniformly random permutation of the customers `1..n`
    /// (Fisher-Yates).
    pub fn create_individual(&self, rng: &mut SmallRng) -> (r: GiantTour)
        requires
            self.spec_customers().len() > 0,
        ensures
            is_perm_from(r.spec_customers(), 1, self.spec_customers().len() - 1),
            r.spec_fitness().is_none(),
    {
        let n = self.num_customers();
        let mut perm: Vec<usize> = Vec::new();
        let mut c: usize = 1;
        while c <= n
            invariant
                n == self.spec_customers().len() - 1,
                n < usize::MAX,
                1 <= c <= n + 1,
                perm@.len() == c - 1,
                forall|k: int| 0 <= k < perm@.len() ==> #[trigger] perm@[k] == k + 1,
            decreases n + 1 - c,
        {
            perm.push(c);
            c += 1;
        }
        assert(is_perm_from(perm@, 1, n as int));
        let mut i: usize = perm.len();
        while i > 1
            invariant
                i <= perm@.len(),
                is_perm_from(perm@, 1, n as int),
            decreases i,
        {
            i -= 1;
            let bound: u64 = if i as u64 == 0xFFFF_FFFF_FFFF_FFFF {
                0xFFFF_FFFF_FFFF_FFFF
            } else {
                i as u64 + 1
            };
            let j = draw_below(rng, bound) as usize;
            if j <= i {
                let a = perm[i];
                let b = perm[j];
                proof {
                    lemma_swap_perm(perm@, i as int, j as int, 1, n as int);
                }
                perm.set(i, b);
                perm.set(j, a);
            }
        }
        GiantTour::new(perm)
    }

    /// Order crossover of two giant tours over the customers `1..=m`:
    /// returns two children, each again a permutation of `1..=m`.
    pub fn crossover(&self, parent1: &GiantTour, parent2: &GiantTour, rng: &mut SmallRng) -> (r: Vec<GiantTour>)
        requires
            parent1.spec_customers().len() > 0,
            is_perm_from(parent1.spec_customers(), 1, parent1.spec_customers().len() as int),
            is_perm_from(parent2.spec_customers(), 1, parent1.spec_customers().len() as int),
        ensures
            r@.len() == 2,
            forall|k: int| 0 <= k < 2 ==> is_perm_from(
                (#[trigger] r@[k]).spec_customers(),
                1,
                parent1.spec_customers().len() as int,
            ) && r@[k].spec_fitness().is_none(),
    {
        let ghost m = parent1.spec_customers().len() as int;
        let _len = parent1.len();
        let p1 = shifted(parent1.customers(), false, Ghost(1), Ghost(m));
        let p2 = shifted(parent2.customers(), false, Ghost(1), Ghost(m));
        let (c1, c2) = crossover_ox(&p1, &p2, rng);
        let d1 = shifted(&c1, true, Ghost(0), Ghost(m));
        let d2 = shifted(&c2, true, Ghost(0), Ghost(m));
        let mut children: Vec<GiantTour> = Vec::new();
        children.push(GiantTour::new(d1));
        children.push(GiantTour::new(d2));
        children
    }

    /// Mutates a giant tour: with even odds, swaps two random positions or
    /// reverses a random segment (its fitness is left as it was). Tours of fewer than two customers are left
    /// as they are. A permutation stays a permutation of the same ids.
    pub fn mutate(&self, individual: &mut GiantTour, rng: &mut SmallRng)
        ensures
            final(individual).spec_customers().len() == old(individual).spec_customers().len(),
            forall|lo: int, n: int| is_perm_from(old(individual).spec_customers(), lo, n) ==> #[trigger] is_perm_from(
                final(individual).spec_customers(),
                lo,
                n,
            ),
            old(individual).spec_customers().len() < 2 ==> final(individual).spec_customers() == old(individual).spec_customers(),
            old(individual).spec_customers().len() >= 2 ==> (exists|i: int, j: int|
                0 <= i < old(individual).spec_customers().len() && 0 <= j < old(individual).spec_customers().len()
                    && final(individual).spec_customers() == #[trigger] swapped_at(old(individual).spec_customers(), i, j))
                || (exists|a: int, b: int|
                0 <= a <= b < old(individual).spec_customers().len() && final(individual).spec_customers()
                    == #[trigger] reversed_between(old(individual).spec_customers(), a, b)),
            final(individual).spec_fitness() == old(individual).spec_fitness(),
    {
        if individual.len() < 2 {
            return;
        }
        if draw_below(rng, 2) == 0 {
            mutate_swap(individual.customers_mut(), rng);
        } else {
            mutate_invert(individual.customers_mut(), rng);
        }
    }

    /// The length of the split of `individual` into routes (`None` when it
    /// cannot be split completely); with local search, the total length of
    /// the split routes each improved by 2-opt (same customers, no longer).
    pub fn evaluate(&self, individual: &GiantTour) -> (r: Option<u128>)
        requires
            valid_instance(self.spec_customers(), self.spec_distances()),
            self.spec_customers().len() > 0,
            ids_below(individual.spec_customers(), self.spec_customers().len()),
            individual.spec_customers().len() < usize::MAX,
        ensures
            exists|s: crate::ga::split::SplitResult| {
                &&& #[trigger] split_spec(
                    self.spec_customers(),
                    self.spec_distances(),
                    individual.spec_customers(),
                    self.spec_capacity() as int,
                    false,
                    s,
                )
                &&& r.is_some() == s.complete
                &&& !self.spec_local_search() && s.complete ==> r == Some(s.total_distance)
                &&& self.spec_local_search() && s.complete ==> exists|imp: Seq<Seq<usize>>|
                    #[trigger] improved_routes(self.spec_distances(), seqs_of_vecs(s.routes@), imp) && r == Some(
                        crate::ga::split::routes_cost(self.spec_distances(), imp) as u128,
                    ) && crate::ga::split::routes_cost(self.spec_distances(), imp) <= s.total_distance
            },
    {
        let result = split(individual.customers().as_slice(), self.customers.as_slice(), &self.distances, self.capacity);
        assert(split_spec(
            self.spec_customers(),
            self.spec_distances(),
            individual.spec_customers(),
            self.spec_capacity() as int,
            false,
            result,
        ));
        if !result.complete {
            return None;
        }
        if !self.apply_local_search {
            return Some(result.total_distance);
        }
        let ghost rs = seqs_of_vecs(result.routes@);
        assert(ids_below(crate::models::route::joined(rs), self.spec_customers().len())) by {
            let t = individual.spec_customers();
            let c = crate::models::route::joined(rs).len() as int;
            assert(crate::models::route::joined(rs) == t.take(c));
        }
        let ghost dm = self.spec_distances();
        let ghost mut imp: Seq<Seq<usize>> = Seq::empty();
        let mut total: u128 = 0;
        let mut k: usize = 0;
        while k < result.routes.len()
            invariant
                valid_instance(self.spec_customers(), self.spec_distances()),
                self.spec_customers().len() > 0,
                dm == self.spec_distances(),
                rs == seqs_of_vecs(result.routes@),
                result.total_distance == crate::ga::split::routes_cost(dm, rs),
                ids_below(crate::models::route::joined(rs), self.spec_customers().len()),
                k <= rs.len(),
                improved_routes(dm, rs.take(k as int), imp),
                total == crate::ga::split::routes_cost(dm, imp),
                crate::ga::split::routes_cost(dm, imp) <= crate::ga::split::routes_cost(dm, rs.take(k as int)),
            decreases rs.len() - k,
        {
            assert(rs.take(k + 1).drop_last() =~= rs.take(k as int));
            proof {
                lemma_joined_part_below(rs, k as int, self.spec_customers().len());
                lemma_routes_cost_prefix(dm, rs, k + 1);
            }
            let (better, d) = two_opt_improve(result.routes[k].as_slice(), 0, &self.distances);
            let ghost pre = imp;
            proof {
                imp = imp.push(better@);
                assert(imp.drop_last() =~= pre);
                assert forall|q: int| 0 <= q < imp.len() implies {
                    &&& crate::local_search::same_customers(#[trigger] imp[q], rs.take(k + 1)[q])
                    &&& crate::evaluation::route_cost(dm, 0, imp[q]) <= crate::evaluation::route_cost(dm, 0, rs.take(k + 1)[q])
                } by {
                    if q < k {
                        assert(imp[q] == pre[q]);
                        assert(rs.take(k + 1)[q] == rs.take(k as int)[q]);
                    }
                }
            }
            total = total + d;
            k += 1;
        }
        assert(rs.take(k as int) =~= rs);
        Some(total)
    }
}

/// `imp` holds, route by route, the customers of `rs`, each route no
/// longer than its counterpart.
pub open spec fn improved_routes(dm: DistanceMatrix, rs: Seq<Seq<usize>>, imp: Seq<Seq<usize>>) -> bool {
    &&& imp.len() == rs.len()
    &&& forall|q: int| 0 <= q < imp.len() ==> {
        &&& crate::local_search::same_customers(#[trigger] imp[q], rs[q])
        &&& crate::evaluation::route_cost(dm, 0, imp[q]) <= crate::evaluation::route_cost(dm, 0, rs[q])
    }
}

/// The routes of a prefix cost no more than all of them.
proof fn lemma_routes_cost_prefix(dm: DistanceMatrix, rs: Seq<Seq<usize>>, k: int)
    requires
        0 <= k <= rs.len(),
    ensures
        crate::ga::split::routes_cost(dm, rs.take(k)) <= crate::ga::split::routes_cost(dm, rs),
    decreases rs.len(),
{
    if k < rs.len() {
        assert(rs.drop_last().take(k) =~= rs.take(k));
        lemma_routes_cost_prefix(dm, rs.drop_last(), k);
        crate::evaluation::lemma_route_bounds(Seq::<Customer>::empty(), dm, 0, rs.last());
    } else {
        assert(rs.take(k) =~= rs);
    }
}

/// `v` with every id lowered by one.
fn shifted_down(v: &Vec<usize>) -> (r: Vec<usize>)
    requires
        forall|k: int| 0 <= k < v@.len() ==> #[trigger] v@[k] >= 1,
    ensures
        r@ == v@.map_values(|x: usize| (x - 1) as usize),
{
    let mut r: Vec<usize> = Vec::new();
    let mut k: usize = 0;
    while k < v.len()
        invariant
            k <= v@.len(),
            forall|q: int| 0 <= q < v@.len() ==> #[trigger] v@[q] >= 1,
            r@ == v@.take(k as int).map_values(|x: usize| (x - 1) as usize),
        decreases v@.len() - k,
    {
        r.push(v[k] - 1);
        k += 1;
        assert(r@ =~= v@.take(k as int).map_values(|x: usize| (x - 1) as usize));
    }
    assert(v@.take(k as int) =~= v@);
    r
}

/// Each part of joined sequences names only ids the whole names.
proof fn lemma_joined_part_below(rs: Seq<Seq<usize>>, k: int, n: nat)
    requires
        ids_below(crate::models::route::joined(rs), n),
        0 <= k < rs.len(),
    ensures
        ids_below(rs[k], n),
    decreases rs.len(),
{
    let j = crate::models::route::joined(rs);
    let p = crate::models::route::joined(rs.drop_last());
    assert(j == p + rs.last());
    if k == rs.len() - 1 {
        assert forall|q: int| 0 <= q < rs[k].len() implies #[trigger] rs[k][q] < n by {
            assert(j[p.len() + q] == rs[k][q]);
        }
    } else {
        assert forall|q: int| 0 <= q < p.len() implies #[trigger] p[q] < n by {
            assert(j[q] == p[q]);
        }
        lemma_joined_part_below(rs.drop_last(), k, n);
    }
}

} // verus!
