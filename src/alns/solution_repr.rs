//! The lightweight solution used inside destroy and repair operators.

use vstd::prelude::*;

use crate::distance::DistanceMatrix;
use crate::local_search::or_opt::route_distance;
use crate::evaluation::{built_route, routes_below, valid_instance};
use crate::models::customer::Customer;
use crate::models::solution::{Solution, capped, routes_distance};
use crate::models::vehicle::Vehicle;
use crate::route_set::{ids_of_routes, rebuild_solution, route_ids};
use crate::route_set::{nonempty_only, seqs_below, seqs_cost, seqs_of_vecs};

verus! {

broadcast use vstd::multiset::group_multiset_axioms;

/// Routes as sequences of customer ids from depot 0, the unassigned
/// customers, and the cached total distance.
#[derive(Debug, Clone)]
pub struct RoutingSolution {
    routes: Vec<Vec<usize>>,
    unassigned: Vec<usize>,
    total_distance: u128,
}

/// Total length of `routes`, each closed at depot 0 (held at `u128::MAX`
/// should it not fit).
pub fn compute_total_distance(routes: &Vec<Vec<usize>>, distances: &DistanceMatrix) -> (r: u128)
    requires
        distances.wf(),
        distances.spec_size() > 0,
        seqs_below(seqs_of_vecs(routes@), distances.spec_size()),
    ensures
        r == capped(seqs_cost(*distances, 0, seqs_of_vecs(routes@)), u128::MAX as int),
{
    let ghost rs = seqs_of_vecs(routes@);
    let mut total: u128 = 0;
    let mut k: usize = 0;
    while k < routes.len()
        invariant
            distances.wf(),
            distances.spec_size() > 0,
            rs == seqs_of_vecs(routes@),
            seqs_below(rs, distances.spec_size()),
            k <= rs.len(),
            total == capped(seqs_cost(*distances, 0, rs.take(k as int)), u128::MAX as int),
        decreases rs.len() - k,
    {
        assert(rs.take(k + 1).drop_last() =~= rs.take(k as int));
        assert(crate::evaluation::ids_below(rs[k as int], distances.spec_size()));
        proof {
            crate::route_set::lemma_seqs_cost_nonneg(*distances, 0, rs.take(k as int));
        }
        let d = route_distance(routes[k].as_slice(), 0, distances);
        total = total.saturating_add(d);
        k += 1;
    }
    assert(rs.take(k as int) =~= rs);
    total
}

impl RoutingSolution {
    pub closed spec fn spec_routes(&self) -> Seq<Seq<usize>> {
        seqs_of_vecs(self.routes@)
    }

    pub closed spec fn spec_unassigned(&self) -> Seq<usize> {
        self.unassigned@
    }

    pub closed spec fn spec_total_distance(&self) -> u128 {
        self.total_distance
    }

    /// A solution of `routes` and `unassigned`, with its total distance.
    pub fn new(
        routes: Vec<Vec<usize>>,
        unassigned: Vec<usize>,
        _customers: &[Customer],
        distances: &DistanceMatrix,
    ) -> (r: RoutingSolution)
        requires
            distances.wf(),
            distances.spec_size() > 0,
            seqs_below(seqs_of_vecs(routes@), distances.spec_size()),
        ensures
            r.spec_routes() == seqs_of_vecs(routes@),
            r.spec_unassigned() == unassigned@,
            r.spec_total_distance() == capped(seqs_cost(*distances, 0, seqs_of_vecs(routes@)), u128::MAX as int),
    {
        let total_distance = compute_total_distance(&routes, distances);
        RoutingSolution { routes, unassigned, total_distance }
    }

    /// A solution of the given parts, the distance taken as given.
    pub(crate) fn from_parts(routes: Vec<Vec<usize>>, unassigned: Vec<usize>, total_distance: u128) -> (r: RoutingSolution)
        ensures
            r.spec_routes() == seqs_of_vecs(routes@),
            r.spec_unassigned() == unassigned@,
            r.spec_total_distance() == total_distance,
    {
        RoutingSolution { routes, unassigned, total_distance }
    }

    pub fn routes(&self) -> (r: &Vec<Vec<usize>>)
        ensures
            seqs_of_vecs(r@) == self.spec_routes(),
    {
        &self.routes
    }

    pub fn routes_mut(&mut self) -> (r: &mut Vec<Vec<usize>>)
        ensures
            seqs_of_vecs(r@) == old(self).spec_routes(),
            final(self).spec_routes() == seqs_of_vecs(final(r)@),
            final(self).spec_unassigned() == old(self).spec_unassigned(),
            final(self).spec_total_distance() == old(self).spec_total_distance(),
    {
        &mut self.routes
    }

    pub fn unassigned(&self) -> (r: &Vec<usize>)
        ensures
            r@ == self.spec_unassigned(),
    {
        &self.unassigned
    }

    pub fn unassigned_mut(&mut self) -> (r: &mut Vec<usize>)
        ensures
            r@ == old(self).spec_unassigned(),
            final(self).spec_unassigned() == final(r)@,
            final(self).spec_routes() == old(self).spec_routes(),
            final(self).spec_total_distance() == old(self).spec_total_distance(),
    {
        &mut self.unassigned
    }

    pub fn total_distance(&self) -> (r: u128)
        ensures
            r == self.spec_total_distance(),
    {
        self.total_distance
    }

    pub fn num_routes(&self) -> (r: usize)
        ensures
            r == self.spec_routes().len(),
    {
        self.routes.len()
    }

    /// Recomputes the cached total distance from the routes.
    pub fn recalculate_distance(&mut self, distances: &DistanceMatrix)
        requires
            distances.wf(),
            distances.spec_size() > 0,
            seqs_below(old(self).spec_routes(), distances.spec_size()),
        ensures
            final(self).spec_routes() == old(self).spec_routes(),
            final(self).spec_unassigned() == old(self).spec_unassigned(),
            final(self).spec_total_distance() == capped(seqs_cost(*distances, 0, old(self).spec_routes()), u128::MAX as int),
    {
        self.total_distance = compute_total_distance(&self.routes, distances);
    }

    /// Drops the empty routes, keeping the order of the others.
    pub fn remove_empty_routes(&mut self)
        ensures
            final(self).spec_routes() == nonempty_only(old(self).spec_routes()),
            final(self).spec_unassigned() == old(self).spec_unassigned(),
            final(self).spec_total_distance() == old(self).spec_total_distance(),
    {
        let ghost rs = seqs_of_vecs(self.routes@);
        let old_routes = &self.routes;
        let mut kept: Vec<Vec<usize>> = Vec::new();
        let mut k: usize = 0;
        while k < old_routes.len()
            invariant
                rs == seqs_of_vecs(old_routes@),
                k <= rs.len(),
                seqs_of_vecs(kept@) == nonempty_only(rs.take(k as int)),
            decreases rs.len() - k,
        {
            assert(rs.take(k + 1).drop_last() =~= rs.take(k as int));
            if old_routes[k].len() > 0 {
                let mut copy: Vec<usize> = Vec::new();
                crate::local_search::extend_range(&mut copy, old_routes[k].as_slice(), 0, old_routes[k].len());
                assert(old_routes@[k as int]@.subrange(0, old_routes@[k as int]@.len() as int) =~= old_routes@[k as int]@);
                let ghost pre = seqs_of_vecs(kept@);
                kept.push(copy);
                assert(seqs_of_vecs(kept@) =~= pre.push(rs[k as int]));
            }
            k += 1;
        }
        assert(rs.take(k as int) =~= rs);
        self.routes = kept;
    }

    /// The routes (as customer ids) and unassigned customers of `solution`,
    /// with their total distance.
    pub fn from_solution(solution: &Solution, customers: &[Customer], distances: &DistanceMatrix) -> (r: RoutingSolution)
        requires
            distances.wf(),
            distances.spec_size() > 0,
            routes_below(solution.spec_routes(), distances.spec_size()),
        ensures
            r.spec_routes() == route_ids(solution.spec_routes()),
            r.spec_unassigned() == solution.spec_unassigned(),
            r.spec_total_distance() == capped(seqs_cost(*distances, 0, route_ids(solution.spec_routes())), u128::MAX as int),
    {
        let routes = ids_of_routes(solution.routes());
        assert(seqs_of_vecs(routes@) =~= route_ids(solution.spec_routes()));
        let mut unassigned: Vec<usize> = Vec::new();
        crate::local_search::extend_range(&mut unassigned, solution.unassigned(), 0, solution.unassigned().len());
        assert(solution.spec_unassigned().subrange(0, solution.spec_unassigned().len() as int) =~= solution.spec_unassigned());
        RoutingSolution::new(routes, unassigned, customers, distances)
    }

    /// A full solution: each non-empty route built by the evaluator for
    /// `vehicle`, the same unassigned customers, and the total distance as
    /// cost.
    pub fn to_solution(&self, customers: &[Customer], distances: &DistanceMatrix, vehicle: &Vehicle) -> (r: Solution)
        requires
            valid_instance(customers@, *distances),
            vehicle.spec_depot() < customers@.len(),
            seqs_below(self.spec_routes(), customers@.len()),
        ensures
            route_ids(r.spec_routes()) == nonempty_only(self.spec_routes()),
            r.spec_unassigned() == self.spec_unassigned(),
            forall|k: int| 0 <= k < r.spec_routes().len() ==> built_route(
                customers@,
                *distances,
                *vehicle,
                (#[trigger] r.spec_routes()[k]).spec_ids(),
                r.spec_routes()[k],
            ),
            r.spec_total_cost() == capped(routes_distance(r.spec_routes()), u128::MAX as int),
    {
        let mut holder = Solution::new();
        let mut k: usize = 0;
        while k < self.unassigned.len()
            invariant
                k <= self.unassigned@.len(),
                holder.spec_unassigned() == self.unassigned@.take(k as int),
            decreases self.unassigned@.len() - k,
        {
            holder.add_unassigned(self.unassigned[k]);
            k += 1;
            assert(holder.spec_unassigned() =~= self.unassigned@.take(k as int));
        }
        assert(self.unassigned@.take(k as int) =~= self.unassigned@);
        rebuild_solution(&self.routes, &holder, distances, customers, vehicle)
    }
}

/// Without empty routes, dropping empty routes changes nothing.
pub proof fn lemma_nonempty_only_identity(rs: Seq<Seq<usize>>)
    requires
        forall|k: int| 0 <= k < rs.len() ==> (#[trigger] rs[k]).len() > 0,
    ensures
        nonempty_only(rs) == rs,
    decreases rs.len(),
{
    if rs.len() > 0 {
        assert forall|k: int| 0 <= k < rs.drop_last().len() implies (#[trigger] rs.drop_last()[k]).len() > 0 by {
            assert(rs.drop_last()[k] == rs[k]);
        }
        lemma_nonempty_only_identity(rs.drop_last());
        assert(rs.last().len() > 0);
        assert(nonempty_only(rs) =~= rs);
    }
}

/// Converting a lightweight solution without empty routes to a full
/// solution (`to_solution`) and back (`from_solution`) gives back its
/// routes and its unassigned customers.
pub proof fn lemma_solution_round_trip(x: RoutingSolution, s: Solution, y: RoutingSolution)
    requires
        forall|k: int| 0 <= k < x.spec_routes().len() ==> (#[trigger] x.spec_routes()[k]).len() > 0,
        route_ids(s.spec_routes()) == nonempty_only(x.spec_routes()),
        s.spec_unassigned() == x.spec_unassigned(),
        y.spec_routes() == route_ids(s.spec_routes()),
        y.spec_unassigned() == s.spec_unassigned(),
    ensures
        y.spec_routes() == x.spec_routes(),
        y.spec_unassigned() == x.spec_unassigned(),
{
    lemma_nonempty_only_identity(x.spec_routes());
}

} // verus!
