//! Vehicles.

use vstd::prelude::*;

verus! {

/// A vehicle of the fleet: capacity, home depot, costs and optional limits.
#[derive(Debug, Clone, Copy)]
pub struct Vehicle {
    id: usize,
    capacity: u32,
    depot_id: usize,
    cost_per_distance: u32,
    fixed_cost: u32,
    max_distance: Option<u64>,
    max_duration: Option<u64>,
}

impl Vehicle {
    pub closed spec fn spec_id(&self) -> usize {
        self.id
    }

    pub closed spec fn spec_capacity(&self) -> u32 {
        self.capacity
    }

    pub closed spec fn spec_depot(&self) -> usize {
        self.depot_id
    }

    pub closed spec fn spec_cost_per_distance(&self) -> u32 {
        self.cost_per_distance
    }

    pub closed spec fn spec_fixed_cost(&self) -> u32 {
        self.fixed_cost
    }

    pub closed spec fn spec_max_distance(&self) -> Option<u64> {
        self.max_distance
    }

    pub closed spec fn spec_max_duration(&self) -> Option<u64> {
        self.max_duration
    }

    /// A vehicle at depot 0 with unit cost per distance, no fixed cost and
    /// no distance or duration limit.
    pub fn new(id: usize, capacity: u32) -> (r: Vehicle)
        ensures
            r.spec_id() == id,
            r.spec_capacity() == capacity,
            r.spec_depot() == 0,
            r.spec_cost_per_distance() == 1,
            r.spec_fixed_cost() == 0,
            r.spec_max_distance().is_none(),
            r.spec_max_duration().is_none(),
    {
        Vehicle {
            id,
            capacity,
            depot_id: 0,
            cost_per_distance: 1,
            fixed_cost: 0,
            max_distance: None,
            max_duration: None,
        }
    }

    pub fn with_depot(self, depot_id: usize) -> (r: Vehicle)
        ensures
            r.spec_id() == self.spec_id(),
            r.spec_capacity() == self.spec_capacity(),
            r.spec_cost_per_distance() == self.spec_cost_per_distance(),
            r.spec_fixed_cost() == self.spec_fixed_cost(),
            r.spec_max_distance() == self.spec_max_distance(),
            r.spec_max_duration() == self.spec_max_duration(),
            r.spec_depot() == depot_id,
    {
        Vehicle { depot_id, ..self }
    }

    pub fn with_cost_per_distance(self, cost: u32) -> (r: Vehicle)
        ensures
            r.spec_id() == self.spec_id(),
            r.spec_capacity() == self.spec_capacity(),
            r.spec_depot() == self.spec_depot(),
            r.spec_fixed_cost() == self.spec_fixed_cost(),
            r.spec_max_distance() == self.spec_max_distance(),
            r.spec_max_duration() == self.spec_max_duration(),
            r.spec_cost_per_distance() == cost,
    {
        Vehicle { cost_per_distance: cost, ..self }
    }

    pub fn with_fixed_cost(self, cost: u32) -> (r: Vehicle)
        ensures
            r.spec_id() == self.spec_id(),
            r.spec_capacity() == self.spec_capacity(),
            r.spec_depot() == self.spec_depot(),
            r.spec_cost_per_distance() == self.spec_cost_per_distance(),
            r.spec_max_distance() == self.spec_max_distance(),
            r.spec_max_duration() == self.spec_max_duration(),
            r.spec_fixed_cost() == cost,
    {
        Vehicle { fixed_cost: cost, ..self }
    }

    pub fn with_max_distance(self, max: u64) -> (r: Vehicle)
        ensures
            r.spec_id() == self.spec_id(),
            r.spec_capacity() == self.spec_capacity(),
            r.spec_depot() == self.spec_depot(),
            r.spec_cost_per_distance() == self.spec_cost_per_distance(),
            r.spec_fixed_cost() == self.spec_fixed_cost(),
            r.spec_max_duration() == self.spec_max_duration(),
            r.spec_max_distance() == Some(max),
    {
        Vehicle { max_distance: Some(max), ..self }
    }

    pub fn with_max_duration(self, max: u64) -> (r: Vehicle)
        ensures
            r.spec_id() == self.spec_id(),
            r.spec_capacity() == self.spec_capacity(),
            r.spec_depot() == self.spec_depot(),
            r.spec_cost_per_distance() == self.spec_cost_per_distance(),
            r.spec_fixed_cost() == self.spec_fixed_cost(),
            r.spec_max_distance() == self.spec_max_distance(),
            r.spec_max_duration() == Some(max),
    {
        Vehicle { max_duration: Some(max), ..self }
    }

    pub fn id(&self) -> (r: usize)
        ensures
            r == self.spec_id(),
    {
        self.id
    }

    pub fn capacity(&self) -> (r: u32)
        ensures
            r == self.spec_capacity(),
    {
        self.capacity
    }

    pub fn depot_id(&self) -> (r: usize)
        ensures
            r == self.spec_depot(),
    {
        self.depot_id
    }

    pub fn cost_per_distance(&self) -> (r: u32)
        ensures
            r == self.spec_cost_per_distance(),
    {
        self.cost_per_distance
    }

    pub fn fixed_cost(&self) -> (r: u32)
        ensures
            r == self.spec_fixed_cost(),
    {
        self.fixed_cost
    }

    pub fn max_distance(&self) -> (r: Option<u64>)
        ensures
            r == self.spec_max_distance(),
    {
        self.max_distance
    }

    pub fn max_duration(&self) -> (r: Option<u64>)
        ensures
            r == self.spec_max_duration(),
    {
        self.max_duration
    }
}

} // verus!
