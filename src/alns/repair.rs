//! Repair operators: greedy and regret-k insertion.

use rand::rngs::SmallRng;
use vstd::prelude::*;

use crate::alns::destroy::{copy_ids, copy_routes};
use crate::alns::solution_repr::RoutingSolution;
use crate::distance::DistanceMatrix;
use crate::evaluation::{ids_below, valid_instance};
use crate::local_search::extend_range;
use crate::models::customer::Customer;
use crate::models::solution::capped;
use crate::route_set::{
    all_customers, lemma_all_customers_update, lemma_empty_customers, route_load, seqs_below, seqs_cost,
    seqs_of_vecs,
};

verus! {

broadcast use vstd::multiset::group_multiset_axioms;

/// What every repair operator guarantees: all unassigned customers are on
/// the routes, nothing else changed hands, and the distance is recomputed.
pub open spec fn repaired(dm: DistanceMatrix, before: RoutingSolution, after: RoutingSolution) -> bool {
    &&& all_customers(after.spec_routes()) == all_customers(before.spec_routes()).add(before.spec_unassigned().to_multiset())
    &&& after.spec_unassigned().len() == 0
    &&& after.spec_total_distance() == capped(seqs_cost(dm, 0, after.spec_routes()), u128::MAX as int)
    &&& seqs_below(after.spec_routes(), dm.spec_size())
}

/// Change in length of `route` when customer `c` enters it at `pos`
/// (depot 0 at both ends): `d(prev, c) + d(c, next) - d(prev, next)`.
pub open spec fn insertion_cost_of(dm: DistanceMatrix, route: Seq<usize>, pos: int, c: usize) -> int {
    let prev = if pos == 0 { 0 } else { route[pos - 1] as int };
    let next = if pos == route.len() { 0 } else { route[pos] as int };
    dm.d(prev, c as int) + dm.d(c as int, next) - dm.d(prev, next)
}

/// Customer `c` fits `route` within `capacity`.
pub open spec fn fits_route(cs: Seq<Customer>, route: Seq<usize>, c: usize, capacity: int) -> bool {
    crate::evaluation::load_of(cs, route) + cs[c as int].spec_demand() <= capacity
}

/// Change in length of `route` when `customer_id` enters it at `pos`
/// (depot 0 at both ends).
fn insertion_delta(route: &Vec<usize>, pos: usize, customer_id: usize, distances: &DistanceMatrix) -> (r: i64)
    requires
        distances.wf(),
        distances.spec_size() > 0,
        ids_below(route@, distances.spec_size()),
        customer_id < distances.spec_size(),
        pos <= route@.len(),
    ensures
        -0x1_0000_0000 <= r <= 0x2_0000_0000,
        r == insertion_cost_of(*distances, route@, pos as int, customer_id),
{
    let prev = if pos == 0 {
        0
    } else {
        route[pos - 1]
    };
    let next = if pos == route.len() {
        0
    } else {
        route[pos]
    };
    distances.get(prev, customer_id) as i64 + distances.get(customer_id, next) as i64 - distances.get(prev, next) as i64
}

/// The cheapest position of `customer_id` in `route`: `(position, cost)`,
/// the first of equal costs.
fn cheapest_position(route: &Vec<usize>, customer_id: usize, distances: &DistanceMatrix) -> (r: (usize, i64))
    requires
        distances.wf(),
        distances.spec_size() > 0,
        ids_below(route@, distances.spec_size()),
        customer_id < distances.spec_size(),
    ensures
        r.0 <= route@.len(),
        -0x1_0000_0000 <= r.1 <= 0x2_0000_0000,
        r.1 == insertion_cost_of(*distances, route@, r.0 as int, customer_id),
        forall|p: int| 0 <= p <= route@.len() ==> #[trigger] insertion_cost_of(*distances, route@, p, customer_id) >= r.1,
{
    let n = route.len();
    let mut best_pos: usize = 0;
    let mut best_cost = insertion_delta(route, 0, customer_id, distances);
    let mut pos: usize = 0;
    while pos < n
        invariant
            distances.wf(),
            distances.spec_size() > 0,
            ids_below(route@, distances.spec_size()),
            customer_id < distances.spec_size(),
            n == route@.len(),
            pos <= n,
            best_pos <= pos,
            -0x1_0000_0000 <= best_cost <= 0x2_0000_0000,
            best_cost == insertion_cost_of(*distances, route@, best_pos as int, customer_id),
            forall|p: int| 0 <= p <= pos ==> #[trigger] insertion_cost_of(*distances, route@, p, customer_id) >= best_cost,
        decreases n - pos,
    {
        pos += 1;
        let cost = insertion_delta(route, pos, customer_id, distances);
        if cost < best_cost {
            best_cost = cost;
            best_pos = pos;
        }
    }
    (best_pos, best_cost)
}

/// Whether `customer_id` fits `route` within `capacity`.
fn fits(route: &Vec<usize>, customer_id: usize, customers: &Vec<Customer>, capacity: u32) -> (r: bool)
    requires
        ids_below(route@, customers@.len()),
        customer_id < customers@.len(),
    ensures
        r == fits_route(customers@, route@, customer_id, capacity as int),
{
    route_load(route.as_slice(), customers) + customers[customer_id].demand() as u128 <= capacity as u128
}

/// `routes` after `c` enters route `ri` at `pos`, or a new route `[c]`
/// when `place` is `None`.
fn place_customer(routes: &mut Vec<Vec<usize>>, place: Option<(usize, usize)>, c: usize)
    requires
        place matches Some((ri, pos)) ==> ri < old(routes)@.len() && pos <= old(routes)@[ri as int]@.len(),
    ensures
        all_customers(seqs_of_vecs(final(routes)@)) == all_customers(seqs_of_vecs(old(routes)@)).insert(c),
        place matches Some((ri, pos)) ==> seqs_of_vecs(final(routes)@) == seqs_of_vecs(old(routes)@).update(
            ri as int,
            old(routes)@[ri as int]@.insert(pos as int, c),
        ),
        place is None ==> seqs_of_vecs(final(routes)@) == seqs_of_vecs(old(routes)@).push(seq![c]),
        forall|n: nat| seqs_below(seqs_of_vecs(old(routes)@), n) && c < n ==> seqs_below(seqs_of_vecs(final(routes)@), n),
{
    let ghost rs = seqs_of_vecs(routes@);
    match place {
        Some((ri, pos)) => {
            let len = routes[ri].len();
            let mut longer: Vec<usize> = Vec::new();
            extend_range(&mut longer, routes[ri].as_slice(), 0, pos);
            longer.push(c);
            extend_range(&mut longer, routes[ri].as_slice(), pos, len);
            assert(longer@ =~= rs[ri as int].insert(pos as int, c));
            routes.set(ri, longer);
            proof {
                let after = seqs_of_vecs(routes@);
                assert(after =~= rs.update(ri as int, rs[ri as int].insert(pos as int, c)));
                lemma_all_customers_update(rs, ri as int, rs[ri as int].insert(pos as int, c));
                vstd::seq_lib::to_multiset_insert(rs[ri as int], pos as int, c);
                assert forall|v: usize| #[trigger] all_customers(after).count(v) == all_customers(rs).insert(c).count(v) by {
                    assert(all_customers(after).add(rs[ri as int].to_multiset()).count(v) == all_customers(rs).add(
                        rs[ri as int].insert(pos as int, c).to_multiset(),
                    ).count(v));
                }
                assert(all_customers(after) =~= all_customers(rs).insert(c));
                assert forall|n: nat| seqs_below(rs, n) && c < n implies seqs_below(after, n) by {
                    assert forall|i: int| 0 <= i < after.len() implies ids_below(#[trigger] after[i], n) by {
                        if i == ri {
                            assert(ids_below(rs[i], n));
                            assert forall|q: int| 0 <= q < after[i].len() implies #[trigger] after[i][q] < n by {
                                if q < pos {
                                    assert(after[i][q] == rs[i][q]);
                                } else if q > pos {
                                    assert(after[i][q] == rs[i][q - 1]);
                                }
                            }
                        } else {
                            assert(after[i] == rs[i]);
                        }
                    }
                }
            }
        },
        None => {
            let mut single: Vec<usize> = Vec::new();
            single.push(c);
            routes.push(single);
            proof {
                let after = seqs_of_vecs(routes@);
                assert(after =~= rs.push(seq![c]));
                assert(after.drop_last() =~= rs);
                lemma_empty_customers(Seq::<usize>::empty());
                vstd::seq_lib::to_multiset_build(Seq::<usize>::empty(), c);
                assert(seq![c] =~= Seq::<usize>::empty().push(c));
                assert(all_customers(after) =~= all_customers(rs).insert(c));
            }
        },
    }
}

/// The cheapest insertion `(route, position, cost)` of `customer_id` into
/// a route whose load with it fits `capacity` (the first on ties), if any
/// route fits.
pub fn best_insertion(
    routes: &Vec<Vec<usize>>,
    customer_id: usize,
    distances: &DistanceMatrix,
    customers: &Vec<Customer>,
    capacity: u32,
) -> (r: Option<(usize, usize, i64)>)
    requires
        valid_instance(customers@, *distances),
        distances.spec_size() > 0,
        seqs_below(seqs_of_vecs(routes@), distances.spec_size()),
        customer_id < distances.spec_size(),
    ensures
        r is None <==> forall|q: int| 0 <= q < routes@.len() ==> !#[trigger] fits_route(
            customers@,
            routes@[q]@,
            customer_id,
            capacity as int,
        ),
        r matches Some((ri, pos, c)) ==> {
            &&& ri < routes@.len() && pos <= routes@[ri as int]@.len()
            &&& fits_route(customers@, routes@[ri as int]@, customer_id, capacity as int)
            &&& c == insertion_cost_of(*distances, routes@[ri as int]@, pos as int, customer_id)
            &&& forall|q: int, p: int|
                0 <= q < routes@.len() && 0 <= p <= routes@[q]@.len() && fits_route(
                    customers@,
                    routes@[q]@,
                    customer_id,
                    capacity as int,
                ) ==> #[trigger] insertion_cost_of(*distances, routes@[q]@, p, customer_id) >= c
        },
{
    let ghost rs = seqs_of_vecs(routes@);
    let mut best: Option<(usize, usize, i64)> = None;
    let mut ri: usize = 0;
    while ri < routes.len()
        invariant
            valid_instance(customers@, *distances),
            distances.spec_size() > 0,
            rs == seqs_of_vecs(routes@),
            seqs_below(rs, distances.spec_size()),
            customer_id < distances.spec_size(),
            ri <= rs.len(),
            best is None ==> forall|q: int| 0 <= q < ri ==> !#[trigger] fits_route(
                customers@,
                routes@[q]@,
                customer_id,
                capacity as int,
            ),
            best matches Some((br, bp, bc)) ==> {
                &&& br < ri && bp <= routes@[br as int]@.len()
                &&& fits_route(customers@, routes@[br as int]@, customer_id, capacity as int)
                &&& bc == insertion_cost_of(*distances, routes@[br as int]@, bp as int, customer_id)
                &&& forall|q: int, p: int|
                    0 <= q < ri && 0 <= p <= routes@[q]@.len() && fits_route(
                        customers@,
                        routes@[q]@,
                        customer_id,
                        capacity as int,
                    ) ==> #[trigger] insertion_cost_of(*distances, routes@[q]@, p, customer_id) >= bc
            },
        decreases rs.len() - ri,
    {
        assert(ids_below(rs[ri as int], distances.spec_size()));
        if fits(&routes[ri], customer_id, customers, capacity) {
            let (pos, cost) = cheapest_position(&routes[ri], customer_id, distances);
            let better = match best {
                None => true,
                Some((_, _, c)) => cost < c,
            };
            if better {
                best = Some((ri, pos, cost));
            }
        }
        ri += 1;
    }
    best
}

/// Each entry `(route, position, cost)` names a route of `routes` and a
/// position in it.
pub open spec fn valid_slots(v: Seq<(usize, usize, i64)>, routes: Seq<Seq<usize>>) -> bool {
    forall|q: int| 0 <= q < v.len() ==> {
        &&& (#[trigger] v[q]).0 < routes.len()
        &&& v[q].1 <= routes[v[q].0 as int].len()
        &&& -0x1_0000_0000 <= v[q].2 <= 0x2_0000_0000
    }
}

/// Every route fits `capacity` or serves a single customer.
pub open spec fn fit_or_single(cs: Seq<Customer>, rs: Seq<Seq<usize>>, capacity: int) -> bool {
    forall|i: int| 0 <= i < rs.len() ==> (#[trigger] rs[i]).len() == 1 || crate::evaluation::load_of(cs, rs[i]) <= capacity
}

/// The bookkeeping shared by both repair loops: what left the unassigned
/// list is on the routes.
pub open spec fn conserved(
    routes: Seq<Seq<usize>>,
    unassigned: Seq<usize>,
    before: RoutingSolution,
    n: nat,
) -> bool {
    &&& all_customers(routes).add(unassigned.to_multiset()) == all_customers(before.spec_routes()).add(
        before.spec_unassigned().to_multiset(),
    )
    &&& seqs_below(routes, n)
    &&& ids_below(unassigned, n)
}

/// Takes `unassigned[ui]` and places it as `place` says.
fn move_in(
    routes: &mut Vec<Vec<usize>>,
    unassigned: &mut Vec<usize>,
    ui: usize,
    place: Option<(usize, usize)>,
    before: Ghost<RoutingSolution>,
    n: Ghost<nat>,
    cs: Ghost<Seq<Customer>>,
    capacity: Ghost<int>,
)
    requires
        ui < old(unassigned)@.len(),
        place matches Some((ri, pos)) ==> ri < old(routes)@.len() && pos <= old(routes)@[ri as int]@.len() && fits_route(
            cs@,
            old(routes)@[ri as int]@,
            old(unassigned)@[ui as int],
            capacity@,
        ),
        conserved(seqs_of_vecs(old(routes)@), old(unassigned)@, before@, n@),
    ensures
        conserved(seqs_of_vecs(final(routes)@), final(unassigned)@, before@, n@),
        final(unassigned)@.len() == old(unassigned)@.len() - 1,
        fit_or_single(cs@, seqs_of_vecs(old(routes)@), capacity@) ==> fit_or_single(
            cs@,
            seqs_of_vecs(final(routes)@),
            capacity@,
        ),
{
    let ghost pre_u = unassigned@;
    let c = unassigned.remove(ui);
    proof {
        vstd::seq_lib::to_multiset_remove(pre_u, ui as int);
        vstd::seq_lib::to_multiset_contains(pre_u, c);
        assert(pre_u[ui as int] == c);
        assert(unassigned@.to_multiset().insert(c) =~= pre_u.to_multiset());
        assert(c < n@);
        assert(ids_below(unassigned@, n@));
    }
    let ghost pre_r = seqs_of_vecs(routes@);
    place_customer(routes, place, c);
    proof {
        let post = seqs_of_vecs(routes@);
        if fit_or_single(cs@, pre_r, capacity@) {
            match place {
                Some((ri, pos)) => {
                    crate::evaluation::lemma_load_insert(cs@, pre_r[ri as int], pos as int, c);
                    assert forall|i: int| 0 <= i < post.len() implies (#[trigger] post[i]).len() == 1
                        || crate::evaluation::load_of(cs@, post[i]) <= capacity@ by {
                        if i != ri {
                            assert(post[i] == pre_r[i]);
                        }
                    }
                },
                None => {
                    assert forall|i: int| 0 <= i < post.len() implies (#[trigger] post[i]).len() == 1
                        || crate::evaluation::load_of(cs@, post[i]) <= capacity@ by {
                        if i < pre_r.len() {
                            assert(post[i] == pre_r[i]);
                        }
                    }
                },
            }
        }
    }
    assert(all_customers(seqs_of_vecs(routes@)).add(unassigned@.to_multiset()) =~= all_customers(pre_r).add(pre_u.to_multiset()));
}

/// Inserts, one at a time, the unassigned customer of cheapest insertion.
pub struct GreedyInsertion {
    distances: DistanceMatrix,
    customers: Vec<Customer>,
    capacity: u32,
}

impl GreedyInsertion {
    pub closed spec fn spec_distances(&self) -> DistanceMatrix {
        self.distances
    }

    pub closed spec fn spec_customers(&self) -> Seq<Customer> {
        self.customers@
    }

    pub closed spec fn spec_capacity(&self) -> u32 {
        self.capacity
    }

    pub fn new(distances: DistanceMatrix, customers: Vec<Customer>, capacity: u32) -> (r: GreedyInsertion)
        ensures
            r.spec_distances() == distances,
            r.spec_customers() == customers@,
            r.spec_capacity() == capacity,
    {
        GreedyInsertion { distances, customers, capacity }
    }

    pub fn name(&self) -> (r: &'static str) {
        "greedy_insertion"
    }

    /// Repeatedly inserts the unassigned customer whose cheapest insertion
    /// (`d(prev, c) + d(c, next) - d(prev, next)`, into a route whose load
    /// with `c` fits the capacity) costs least, the first on ties; when no
    /// customer fits anywhere, the first unassigned one opens a new route.
    /// Time windows are not consulted. The distance is then recomputed.
    /// Only such new single-customer routes can exceed the capacity.
    pub fn repair(&self, solution: &RoutingSolution, _rng: &mut SmallRng) -> (r: RoutingSolution)
        requires
            valid_instance(self.spec_customers(), self.spec_distances()),
            self.spec_distances().spec_size() > 0,
            seqs_below(solution.spec_routes(), self.spec_distances().spec_size()),
            ids_below(solution.spec_unassigned(), self.spec_distances().spec_size()),
        ensures
            repaired(self.spec_distances(), *solution, r),
            fit_or_single(self.spec_customers(), solution.spec_routes(), self.spec_capacity() as int) ==> fit_or_single(
                self.spec_customers(),
                r.spec_routes(),
                self.spec_capacity() as int,
            ),
    {
        let ghost n = self.distances.spec_size();
        let mut routes = copy_routes(solution.routes());
        let mut unassigned = copy_ids(solution.unassigned());
        while unassigned.len() > 0
            invariant
                valid_instance(self.spec_customers(), self.spec_distances()),
                n == self.spec_distances().spec_size(),
                n > 0,
                conserved(seqs_of_vecs(routes@), unassigned@, *solution, n),
                fit_or_single(self.spec_customers(), solution.spec_routes(), self.spec_capacity() as int) ==> fit_or_single(
                    self.spec_customers(),
                    seqs_of_vecs(routes@),
                    self.spec_capacity() as int,
                ),
            decreases unassigned@.len(),
        {
            let ghost rs = seqs_of_vecs(routes@);
            let mut best: Option<(usize, usize, usize)> = None;
            let mut best_cost: i64 = 0;
            let mut ui: usize = 0;
            while ui < unassigned.len()
                invariant
                    valid_instance(self.spec_customers(), self.spec_distances()),
                    n == self.spec_distances().spec_size(),
                    n > 0,
                    rs == seqs_of_vecs(routes@),
                    conserved(rs, unassigned@, *solution, n),
                    ui <= unassigned@.len(),
                    best matches Some((bu, br, bp)) ==> bu < unassigned@.len() && br < rs.len() && bp <= rs[br as int].len() && fits_route(self.spec_customers(), rs[br as int], unassigned@[bu as int], self.spec_capacity() as int),
                decreases unassigned@.len() - ui,
            {
                let cid = unassigned[ui];
                match best_insertion(&routes, cid, &self.distances, &self.customers, self.capacity) {
                    Some((ri, pos, cost)) => {
                        let better = match best {
                            None => true,
                            Some(_) => cost < best_cost,
                        };
                        if better {
                            best = Some((ui, ri, pos));
                            best_cost = cost;
                        }
                    },
                    None => {},
                }
                ui += 1;
            }
            match best {
                Some((bu, br, bp)) => {
                    move_in(&mut routes, &mut unassigned, bu, Some((br, bp)), Ghost(*solution), Ghost(n), Ghost(self.spec_customers()), Ghost(self.spec_capacity() as int));
                },
                None => {
                    move_in(&mut routes, &mut unassigned, 0, None, Ghost(*solution), Ghost(n), Ghost(self.spec_customers()), Ghost(self.spec_capacity() as int));
                },
            }
        }
        proof {
            lemma_empty_customers(unassigned@);
            assert(all_customers(seqs_of_vecs(routes@)) =~= all_customers(seqs_of_vecs(routes@)).add(unassigned@.to_multiset()));
        }
        let mut result = RoutingSolution::from_parts(routes, unassigned, 0);
        result.recalculate_distance(&self.distances);
        result
    }
}

/// Inserts, one at a time, the unassigned customer of greatest regret.
pub struct RegretInsertion {
    distances: DistanceMatrix,
    customers: Vec<Customer>,
    capacity: u32,
    k: usize,
}

/// The priority of a customer in regret insertion: `(constrained, shortfall,
/// regret, best cost)`, where a customer with fewer than `k` feasible routes
/// is constrained, its shortfall is `k` minus their number, and its regret
/// is the sum over the 2nd to `k`-th cheapest routes of the cost above the
/// cheapest.
struct Priority {
    constrained: bool,
    shortfall: usize,
    regret: i128,
    best_cost: i64,
}

/// Whether priority `a` goes before `b`: constrained customers first, by
/// larger shortfall; the others by larger regret; then by smaller best
/// cost.
fn goes_before(a: &Priority, b: &Priority) -> bool {
    if a.constrained != b.constrained {
        a.constrained
    } else if a.constrained && a.shortfall != b.shortfall {
        a.shortfall > b.shortfall
    } else if !a.constrained && a.regret != b.regret {
        a.regret > b.regret
    } else {
        a.best_cost < b.best_cost
    }
}

impl RegretInsertion {
    pub closed spec fn spec_distances(&self) -> DistanceMatrix {
        self.distances
    }

    pub closed spec fn spec_customers(&self) -> Seq<Customer> {
        self.customers@
    }

    pub closed spec fn spec_capacity(&self) -> u32 {
        self.capacity
    }

    pub closed spec fn spec_k(&self) -> usize {
        self.k
    }

    /// Regret-2 insertion.
    pub fn new(distances: DistanceMatrix, customers: Vec<Customer>, capacity: u32) -> (r: RegretInsertion)
        ensures
            r.spec_distances() == distances,
            r.spec_customers() == customers@,
            r.spec_capacity() == capacity,
            r.spec_k() == 2,
    {
        RegretInsertion { distances, customers, capacity, k: 2 }
    }

    /// The same operator with regret-`k`, `k` at least 2.
    pub fn with_k(self, k: usize) -> (r: RegretInsertion)
        ensures
            r.spec_distances() == self.spec_distances(),
            r.spec_customers() == self.spec_customers(),
            r.spec_capacity() == self.spec_capacity(),
            r.spec_k() == if k < 2 { 2 } else { k },
    {
        RegretInsertion { k: if k < 2 { 2 } else { k }, ..self }
    }

    pub fn name(&self) -> (r: &'static str) {
        "regret_insertion"
    }

    /// For each route whose load with `customer_id` fits the capacity, its
    /// cheapest insertion `(route, position, cost)`, by increasing cost
    /// (routes in order on ties).
    fn sorted_insertion_costs(&self, routes: &Vec<Vec<usize>>, customer_id: usize) -> (r: Vec<(usize, usize, i64)>)
        requires
            valid_instance(self.spec_customers(), self.spec_distances()),
            self.spec_distances().spec_size() > 0,
            seqs_below(seqs_of_vecs(routes@), self.spec_distances().spec_size()),
            customer_id < self.spec_distances().spec_size(),
        ensures
            valid_slots(r@, seqs_of_vecs(routes@)),
            forall|q: int| 0 <= q < r@.len() ==> fits_route(
                self.spec_customers(),
                seqs_of_vecs(routes@)[(#[trigger] r@[q]).0 as int],
                customer_id,
                self.spec_capacity() as int,
            ),
    {
        let ghost rs = seqs_of_vecs(routes@);
        let ghost n = self.distances.spec_size();
        let mut costs: Vec<(usize, usize, i64)> = Vec::new();
        let mut ri: usize = 0;
        while ri < routes.len()
            invariant
                valid_instance(self.spec_customers(), self.spec_distances()),
                n == self.spec_distances().spec_size(),
                n > 0,
                rs == seqs_of_vecs(routes@),
                seqs_below(rs, n),
                customer_id < n,
                ri <= rs.len(),
                valid_slots(costs@, rs),
                forall|q: int| 0 <= q < costs@.len() ==> fits_route(
                    self.spec_customers(),
                    rs[(#[trigger] costs@[q]).0 as int],
                    customer_id,
                    self.spec_capacity() as int,
                ),
            decreases rs.len() - ri,
        {
            assert(ids_below(rs[ri as int], n));
            if fits(&routes[ri], customer_id, &self.customers, self.capacity) {
                let (pos, cost) = cheapest_position(&routes[ri], customer_id, &self.distances);
                let mut at: usize = costs.len();
                while at > 0 && costs[at - 1].2 > cost
                    invariant
                        at <= costs@.len(),
                    decreases at,
                {
                    at -= 1;
                }
                let ghost pre = costs@;
                costs.insert(at, (ri, pos, cost));
                assert forall|q: int| 0 <= q < costs@.len() implies fits_route(
                    self.spec_customers(),
                    rs[(#[trigger] costs@[q]).0 as int],
                    customer_id,
                    self.spec_capacity() as int,
                ) by {
                    if q < at {
                        assert(costs@[q] == pre[q]);
                    } else if q > at {
                        assert(costs@[q] == pre[q - 1]);
                    }
                }
                assert forall|q: int| 0 <= q < costs@.len() implies {
                    &&& (#[trigger] costs@[q]).0 < rs.len()
                    &&& costs@[q].1 <= rs[costs@[q].0 as int].len()
                    &&& -0x1_0000_0000 <= costs@[q].2 <= 0x2_0000_0000
                } by {
                    if q < at {
                        assert(costs@[q] == pre[q]);
                    } else if q > at {
                        assert(costs@[q] == pre[q - 1]);
                    }
                }
            }
            ri += 1;
        }
        costs
    }

    /// Repeatedly inserts, at its cheapest place, the unassigned customer
    /// that goes first by `goes_before` among those that fit some route;
    /// when none fits anywhere, the first unassigned one opens a new route.
    /// Time windows are not consulted. The distance is then recomputed.
    /// Only such new single-customer routes can exceed the capacity.
    pub fn repair(&self, solution: &RoutingSolution, _rng: &mut SmallRng) -> (r: RoutingSolution)
        requires
            valid_instance(self.spec_customers(), self.spec_distances()),
            self.spec_distances().spec_size() > 0,
            seqs_below(solution.spec_routes(), self.spec_distances().spec_size()),
            ids_below(solution.spec_unassigned(), self.spec_distances().spec_size()),
        ensures
            repaired(self.spec_distances(), *solution, r),
            fit_or_single(self.spec_customers(), solution.spec_routes(), self.spec_capacity() as int) ==> fit_or_single(
                self.spec_customers(),
                r.spec_routes(),
                self.spec_capacity() as int,
            ),
    {
        let ghost n = self.distances.spec_size();
        let k = self.k;
        let mut routes = copy_routes(solution.routes());
        let mut unassigned = copy_ids(solution.unassigned());
        while unassigned.len() > 0
            invariant
                valid_instance(self.spec_customers(), self.spec_distances()),
                n == self.spec_distances().spec_size(),
                n > 0,
                k == self.spec_k(),
                conserved(seqs_of_vecs(routes@), unassigned@, *solution, n),
                fit_or_single(self.spec_customers(), solution.spec_routes(), self.spec_capacity() as int) ==> fit_or_single(
                    self.spec_customers(),
                    seqs_of_vecs(routes@),
                    self.spec_capacity() as int,
                ),
            decreases unassigned@.len(),
        {
            let ghost rs = seqs_of_vecs(routes@);
            let mut best: Option<(usize, usize, usize)> = None;
            let mut best_priority = Priority { constrained: false, shortfall: 0, regret: 0, best_cost: 0 };
            let mut ui: usize = 0;
            while ui < unassigned.len()
                invariant
                    valid_instance(self.spec_customers(), self.spec_distances()),
                    n == self.spec_distances().spec_size(),
                    n > 0,
                    rs == seqs_of_vecs(routes@),
                    conserved(rs, unassigned@, *solution, n),
                    ui <= unassigned@.len(),
                    best matches Some((bu, br, bp)) ==> bu < unassigned@.len() && br < rs.len() && bp <= rs[br as int].len() && fits_route(self.spec_customers(), rs[br as int], unassigned@[bu as int], self.spec_capacity() as int),
                decreases unassigned@.len() - ui,
            {
                let cid = unassigned[ui];
                let costs = self.sorted_insertion_costs(&routes, cid);
                if costs.len() > 0 {
                    let first = costs[0].2;
                    let mut regret: i128 = 0;
                    let mut q: usize = 1;
                    while q < costs.len() && q < k
                        invariant
                            valid_slots(costs@, rs),
                            costs@.len() > 0,
                            first == costs@[0].2,
                            1 <= q <= costs@.len(),
                            -(q as int) * 0x4_0000_0000 <= regret <= (q as int) * 0x4_0000_0000,
                        decreases costs@.len() - q,
                    {
                        regret = regret + (costs[q].2 as i128 - first as i128);
                        q += 1;
                    }
                    let constrained = costs.len() < k;
                    let priority = Priority {
                        constrained,
                        shortfall: if constrained {
                            k - costs.len()
                        } else {
                            0
                        },
                        regret,
                        best_cost: first,
                    };
                    let take = match best {
                        None => true,
                        Some(_) => goes_before(&priority, &best_priority),
                    };
                    if take {
                        best = Some((ui, costs[0].0, costs[0].1));
                        best_priority = priority;
                    }
                }
                ui += 1;
            }
            match best {
                Some((bu, br, bp)) => {
                    move_in(&mut routes, &mut unassigned, bu, Some((br, bp)), Ghost(*solution), Ghost(n), Ghost(self.spec_customers()), Ghost(self.spec_capacity() as int));
                },
                None => {
                    move_in(&mut routes, &mut unassigned, 0, None, Ghost(*solution), Ghost(n), Ghost(self.spec_customers()), Ghost(self.spec_capacity() as int));
                },
            }
        }
        proof {
            lemma_empty_customers(unassigned@);
            assert(all_customers(seqs_of_vecs(routes@)) =~= all_customers(seqs_of_vecs(routes@)).add(unassigned@.to_multiset()));
        }
        let mut result = RoutingSolution::from_parts(routes, unassigned, 0);
        result.recalculate_distance(&self.distances);
        result
    }
}

} // verus!
