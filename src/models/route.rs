//! Routes and the visits that make them up.

use vstd::prelude::*;

verus! {

/// One stop of a route, with the timing and load computed for it.
#[derive(Debug, Clone, Copy, PartialEq, Eq)]
pub struct Visit {
    /// Customer visited.
    pub customer_id: usize,
    /// Arrival time at the customer.
    pub arrival_time: u128,
    /// Departure time: arrival, waiting and service.
    pub departure_time: u128,
    /// Load carried after serving this customer.
    pub load_after: u128,
}

/// The customer ids of a sequence of visits, in order.
pub open spec fn visit_ids(visits: Seq<Visit>) -> Seq<usize> {
    visits.map_values(|v: Visit| v.customer_id)
}

/// The sequences of `rs` joined end to end.
pub open spec fn joined(rs: Seq<Seq<usize>>) -> Seq<usize>
    decreases rs.len(),
{
    if rs.len() == 0 {
        Seq::empty()
    } else {
        joined(rs.drop_last()) + rs.last()
    }
}

/// An ordered sequence of visits served by one vehicle; the depot at both
/// ends is implicit.
#[derive(Debug, Clone)]
pub struct Route {
    vehicle_id: usize,
    visits: Vec<Visit>,
    total_distance: u128,
    total_duration: u128,
    total_load: u128,
}

impl Route {
    pub closed spec fn spec_vehicle_id(&self) -> usize {
        self.vehicle_id
    }

    pub closed spec fn spec_visits(&self) -> Seq<Visit> {
        self.visits@
    }

    pub closed spec fn spec_total_distance(&self) -> u128 {
        self.total_distance
    }

    pub closed spec fn spec_total_duration(&self) -> u128 {
        self.total_duration
    }

    pub closed spec fn spec_total_load(&self) -> u128 {
        self.total_load
    }

    /// The customer ids of the route, in visiting order.
    pub open spec fn spec_ids(&self) -> Seq<usize> {
        visit_ids(self.spec_visits())
    }

    /// An empty route for vehicle `vehicle_id`.
    pub fn new(vehicle_id: usize) -> (r: Route)
        ensures
            r.spec_vehicle_id() == vehicle_id,
            r.spec_visits() == Seq::<Visit>::empty(),
            r.spec_total_distance() == 0,
            r.spec_total_duration() == 0,
            r.spec_total_load() == 0,
    {
        Route {
            vehicle_id,
            visits: Vec::new(),
            total_distance: 0,
            total_duration: 0,
            total_load: 0,
        }
    }

    /// Appends a visit; the route's load becomes the visit's load.
    pub fn push_visit(&mut self, visit: Visit)
        ensures
            final(self).spec_visits() == old(self).spec_visits().push(visit),
            final(self).spec_total_load() == visit.load_after,
            final(self).spec_vehicle_id() == old(self).spec_vehicle_id(),
            final(self).spec_total_distance() == old(self).spec_total_distance(),
            final(self).spec_total_duration() == old(self).spec_total_duration(),
    {
        self.total_load = visit.load_after;
        self.visits.push(visit);
    }

    pub fn vehicle_id(&self) -> (r: usize)
        ensures
            r == self.spec_vehicle_id(),
    {
        self.vehicle_id
    }

    pub fn visits(&self) -> (r: &[Visit])
        ensures
            r@ == self.spec_visits(),
    {
        self.visits.as_slice()
    }

    pub fn len(&self) -> (r: usize)
        ensures
            r == self.spec_visits().len(),
    {
        self.visits.len()
    }

    pub fn is_empty(&self) -> (r: bool)
        ensures
            r == (self.spec_visits().len() == 0),
    {
        self.visits.len() == 0
    }

    /// The customer ids in visiting order.
    pub fn customer_ids(&self) -> (r: Vec<usize>)
        ensures
            r@ == self.spec_ids(),
    {
        let mut ids: Vec<usize> = Vec::new();
        let mut i: usize = 0;
        while i < self.visits.len()
            invariant
                i <= self.visits@.len(),
                ids@ == visit_ids(self.visits@.take(i as int)),
            decreases self.visits@.len() - i,
        {
            ids.push(self.visits[i].customer_id);
            i += 1;
            assert(visit_ids(self.visits@.take(i as int)) =~= visit_ids(
                self.visits@.take(i - 1 as int),
            ).push(self.visits@[i - 1].customer_id));
        }
        assert(self.visits@.take(i as int) =~= self.visits@);
        ids
    }

    pub fn total_distance(&self) -> (r: u128)
        ensures
            r == self.spec_total_distance(),
    {
        self.total_distance
    }

    pub fn total_duration(&self) -> (r: u128)
        ensures
            r == self.spec_total_duration(),
    {
        self.total_duration
    }

    pub fn total_load(&self) -> (r: u128)
        ensures
            r == self.spec_total_load(),
    {
        self.total_load
    }

    pub fn set_total_distance(&mut self, d: u128)
        ensures
            final(self).spec_total_distance() == d,
            final(self).spec_visits() == old(self).spec_visits(),
            final(self).spec_vehicle_id() == old(self).spec_vehicle_id(),
            final(self).spec_total_duration() == old(self).spec_total_duration(),
            final(self).spec_total_load() == old(self).spec_total_load(),
    {
        self.total_distance = d;
    }

    pub fn set_total_duration(&mut self, d: u128)
        ensures
            final(self).spec_total_duration() == d,
            final(self).spec_visits() == old(self).spec_visits(),
            final(self).spec_vehicle_id() == old(self).spec_vehicle_id(),
            final(self).spec_total_distance() == old(self).spec_total_distance(),
            final(self).spec_total_load() == old(self).spec_total_load(),
    {
        self.total_duration = d;
    }

    /// A copy of this route.
    pub fn duplicate(&self) -> (r: Route)
        ensures
            r.spec_vehicle_id() == self.spec_vehicle_id(),
            r.spec_visits() == self.spec_visits(),
            r.spec_total_distance() == self.spec_total_distance(),
            r.spec_total_duration() == self.spec_total_duration(),
            r.spec_total_load() == self.spec_total_load(),
    {
        let mut visits: Vec<Visit> = Vec::new();
        let mut i: usize = 0;
        while i < self.visits.len()
            invariant
                i <= self.visits@.len(),
                visits@ == self.visits@.take(i as int),
            decreases self.visits@.len() - i,
        {
            visits.push(self.visits[i]);
            i += 1;
            assert(visits@ =~= self.visits@.take(i as int));
        }
        assert(self.visits@.take(i as int) =~= self.visits@);
        Route {
            vehicle_id: self.vehicle_id,
            visits,
            total_distance: self.total_distance,
            total_duration: self.total_duration,
            total_load: self.total_load,
        }
    }
}

} // verus!
