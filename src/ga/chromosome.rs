//! The giant-tour chromosome.

use vstd::prelude::*;

verus! {

/// A permutation of the customer ids, without the depot, and its fitness
/// once evaluated (`None` before that, or when the tour cannot be split).
#[derive(Debug, Clone)]
pub struct GiantTour {
    customers: Vec<usize>,
    fitness: Option<u128>,
}

impl GiantTour {
    pub closed spec fn spec_customers(&self) -> Seq<usize> {
        self.customers@
    }

    pub closed spec fn spec_fitness(&self) -> Option<u128> {
        self.fitness
    }

    /// A tour not yet evaluated.
    pub fn new(customers: Vec<usize>) -> (r: GiantTour)
        ensures
            r.spec_customers() == customers@,
            r.spec_fitness().is_none(),
    {
        GiantTour { customers, fitness: None }
    }

    pub fn customers(&self) -> (r: &Vec<usize>)
        ensures
            r@ == self.spec_customers(),
    {
        &self.customers
    }

    pub fn customers_mut(&mut self) -> (r: &mut Vec<usize>)
        ensures
            r@ == old(self).spec_customers(),
            final(self).spec_customers() == final(r)@,
            final(self).spec_fitness() == old(self).spec_fitness(),
    {
        &mut self.customers
    }

    pub fn len(&self) -> (r: usize)
        ensures
            r == self.spec_customers().len(),
    {
        self.customers.len()
    }

    pub fn is_empty(&self) -> (r: bool)
        ensures
            r == (self.spec_customers().len() == 0),
    {
        self.customers.len() == 0
    }

    pub fn fitness(&self) -> (r: Option<u128>)
        ensures
            r == self.spec_fitness(),
    {
        self.fitness
    }

    pub fn set_fitness(&mut self, fitness: Option<u128>)
        ensures
            final(self).spec_fitness() == fitness,
            final(self).spec_customers() == old(self).spec_customers(),
    {
        self.fitness = fitness;
    }
}

} // verus!
