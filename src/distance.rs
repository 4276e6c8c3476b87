//! Dense distance matrix.

use vstd::prelude::*;

use crate::models::customer::{Customer, nearest_root, squared_gap, lemma_nearest_root_unique};

verus! {

/// `|a - b|`.
pub open spec fn gap(a: int, b: int) -> int {
    if a >= b {
        a - b
    } else {
        b - a
    }
}

/// A dense `n × n` matrix of travel distances between locations `0..n`.
/// The distance from a location to itself is always 0.
#[derive(Debug, Clone)]
pub struct DistanceMatrix {
    rows: Vec<Vec<u32>>,
    size: usize,
}

impl DistanceMatrix {
    /// Every row holds one entry per location.
    pub closed spec fn wf(&self) -> bool {
        &&& self.rows@.len() == self.size
        &&& forall|i: int| 0 <= i < self.size ==> #[trigger] self.rows@[i]@.len() == self.size
    }

    /// Number of locations.
    pub closed spec fn spec_size(&self) -> nat {
        self.size as nat
    }

    /// Distance from `i` to `j`.
    pub closed spec fn d(&self, i: int, j: int) -> u32 {
        if i == j {
            0
        } else {
            self.rows@[i]@[j]
        }
    }

    /// A matrix of `size` locations, all distances 0.
    pub fn new(size: usize) -> (r: DistanceMatrix)
        ensures
            r.wf(),
            r.spec_size() == size,
            forall|i: int, j: int| 0 <= i < size && 0 <= j < size ==> r.d(i, j) == 0,
    {
        let mut rows: Vec<Vec<u32>> = Vec::new();
        let mut i: usize = 0;
        while i < size
            invariant
                i <= size,
                rows@.len() == i,
                forall|a: int| 0 <= a < i ==> #[trigger] rows@[a]@.len() == size,
                forall|a: int, b: int| 0 <= a < i && 0 <= b < size ==> rows@[a]@[b] == 0,
            decreases size - i,
        {
            let row: Vec<u32> = vec![0u32; size];
            rows.push(row);
            i += 1;
        }
        DistanceMatrix { rows, size }
    }

    /// The Euclidean distances between `customers`, each rounded to the
    /// nearest integer; location `i` is `customers[i]`.
    pub fn from_customers(customers: &[Customer]) -> (r: DistanceMatrix)
        requires
            forall|i: int| 0 <= i < customers@.len() ==> #[trigger] customers@[i].in_bounds(),
        ensures
            r.wf(),
            r.spec_size() == customers@.len(),
            forall|i: int, j: int|
                0 <= i < customers@.len() && 0 <= j < customers@.len() && i != j
                    ==> nearest_root(
                    squared_gap(
                        customers@[i].spec_x() as int,
                        customers@[i].spec_y() as int,
                        customers@[j].spec_x() as int,
                        customers@[j].spec_y() as int,
                    ),
                    #[trigger] r.d(i, j) as int,
                ),
    {
        let n = customers.len();
        let mut rows: Vec<Vec<u32>> = Vec::new();
        let mut i: usize = 0;
        while i < n
            invariant
                n == customers@.len(),
                forall|k: int| 0 <= k < customers@.len() ==> #[trigger] customers@[k].in_bounds(),
                i <= n,
                rows@.len() == i,
                forall|a: int| 0 <= a < i ==> #[trigger] rows@[a]@.len() == n,
                forall|a: int, b: int|
                    0 <= a < i && 0 <= b < n && a != b ==> nearest_root(
                        squared_gap(
                            customers@[a].spec_x() as int,
                            customers@[a].spec_y() as int,
                            customers@[b].spec_x() as int,
                            customers@[b].spec_y() as int,
                        ),
                        #[trigger] rows@[a]@[b] as int,
                    ),
            decreases n - i,
        {
            let mut row: Vec<u32> = Vec::new();
            let mut j: usize = 0;
            while j < n
                invariant
                    n == customers@.len(),
                    forall|k: int| 0 <= k < customers@.len() ==> #[trigger] customers@[k].in_bounds(),
                    i < n,
                    j <= n,
                    row@.len() == j,
                    forall|b: int|
                        0 <= b < j && i != b ==> nearest_root(
                            squared_gap(
                                customers@[i as int].spec_x() as int,
                                customers@[i as int].spec_y() as int,
                                customers@[b].spec_x() as int,
                                customers@[b].spec_y() as int,
                            ),
                            #[trigger] row@[b] as int,
                        ),
                decreases n - j,
            {
                if i == j {
                    row.push(0);
                } else {
                    let dist = customers[i].distance_to(&customers[j]);
                    row.push(dist);
                }
                j += 1;
            }
            rows.push(row);
            i += 1;
        }
        DistanceMatrix { rows, size: n }
    }

    /// The matrix whose row `i` is `data[i * size .. (i + 1) * size]`;
    /// `None` when `data` does not hold exactly `size * size` entries.
    pub fn from_data(size: usize, data: Vec<u32>) -> (r: Option<DistanceMatrix>)
        ensures
            r.is_some() <==> data@.len() == size * size,
            r matches Some(m) ==> m.wf() && m.spec_size() == size && forall|i: int, j: int|
                0 <= i < size && 0 <= j < size && i != j ==> #[trigger] m.d(i, j) == data@[i
                    * size + j],
    {
        let len = data.len();
        match size.checked_mul(size) {
            None => None,
            Some(total) => {
                if len != total {
                    return None;
                }
                let mut rows: Vec<Vec<u32>> = Vec::new();
                let mut i: usize = 0;
                while i < size
                    invariant
                        data@.len() == size * size,
                        size * size <= usize::MAX,
                        i <= size,
                        rows@.len() == i,
                        forall|a: int| 0 <= a < i ==> #[trigger] rows@[a]@.len() == size,
                        forall|a: int, b: int|
                            0 <= a < i && 0 <= b < size ==> #[trigger] rows@[a]@[b] == data@[a
                                * size + b],
                    decreases size - i,
                {
                    let mut row: Vec<u32> = Vec::new();
                    let mut j: usize = 0;
                    while j < size
                        invariant
                            data@.len() == size * size,
                            size * size <= usize::MAX,
                            i < size,
                            j <= size,
                            row@.len() == j,
                            forall|b: int| 0 <= b < j ==> #[trigger] row@[b] == data@[i * size + b],
                        decreases size - j,
                    {
                        assert(i * size + j < size * size && 0 <= i * size) by (nonlinear_arith)
                            requires i < size, j < size;
                        row.push(data[i * size + j]);
                        j += 1;
                    }
                    rows.push(row);
                    i += 1;
                }
                Some(DistanceMatrix { rows, size })
            },
        }
    }

    /// Distance from `from` to `to`.
    pub fn get(&self, from: usize, to: usize) -> (r: u32)
        requires
            self.wf(),
            from < self.spec_size(),
            to < self.spec_size(),
        ensures
            r == self.d(from as int, to as int),
    {
        if from == to {
            0
        } else {
            self.rows[from][to]
        }
    }

    /// Sets the distance from `from` to `to`; a location's distance to
    /// itself stays 0.
    pub fn set(&mut self, from: usize, to: usize, distance: u32)
        requires
            old(self).wf(),
            from < old(self).spec_size(),
            to < old(self).spec_size(),
        ensures
            final(self).wf(),
            final(self).spec_size() == old(self).spec_size(),
            forall|i: int, j: int|
                #![trigger final(self).d(i, j)]
                0 <= i < old(self).spec_size() && 0 <= j < old(self).spec_size() ==> final(self).d(
                    i,
                    j,
                ) == if i == from && j == to {
                    if i == j {
                        0
                    } else {
                        distance
                    }
                } else {
                    old(self).d(i, j)
                },
    {
        let mut row: Vec<u32> = self.rows[from].clone();
        assert(row@ =~= self.rows@[from as int]@);
        row.set(to, distance);
        self.rows.set(from, row);
    }

    /// Whether `d(i, j)` and `d(j, i)` differ by at most `tol` for every
    /// pair of locations.
    pub fn is_symmetric(&self, tol: u32) -> (r: bool)
        requires
            self.wf(),
        ensures
            r == forall|i: int, j: int|
                0 <= i < j < self.spec_size() ==> #[trigger] gap(
                    self.d(i, j) as int,
                    self.d(j, i) as int,
                ) <= tol,
    {
        let n = self.size;
        let mut i: usize = 0;
        while i < n
            invariant
                self.wf(),
                n == self.spec_size(),
                i <= n,
                forall|a: int, b: int|
                    0 <= a < i && a < b < n ==> #[trigger] gap(
                        self.d(a, b) as int,
                        self.d(b, a) as int,
                    ) <= tol,
            decreases n - i,
        {
            let mut j: usize = i + 1;
            while j < n
                invariant
                    self.wf(),
                    n == self.spec_size(),
                    i < n,
                    i < j <= n || j == i + 1,
                    forall|a: int, b: int|
                        0 <= a < i && a < b < n ==> #[trigger] gap(
                            self.d(a, b) as int,
                            self.d(b, a) as int,
                        ) <= tol,
                    forall|b: int|
                        i < b < j ==> #[trigger] gap(self.d(i as int, b) as int, self.d(b, i as int) as int)
                            <= tol,
                decreases n - j,
            {
                let a = self.get(i, j);
                let b = self.get(j, i);
                let diff: u32 = if a >= b {
                    a - b
                } else {
                    b - a
                };
                if diff > tol {
                    assert(gap(self.d(i as int, j as int) as int, self.d(j as int, i as int) as int)
                        > tol);
                    return false;
                }
                j += 1;
            }
            i += 1;
        }
        true
    }

    /// The first of `candidates` nearest to `from`; `None` when there is no
    /// candidate.
    pub fn nearest_neighbor(&self, from: usize, candidates: &[usize]) -> (r: Option<usize>)
        requires
            self.wf(),
            from < self.spec_size(),
            forall|k: int| 0 <= k < candidates@.len() ==> #[trigger] candidates@[k] < self.spec_size(),
        ensures
            r.is_none() <==> candidates@.len() == 0,
            r matches Some(c) ==> exists|k: int|
                0 <= k < candidates@.len() && candidates@[k] == c && (forall|m: int|
                    0 <= m < candidates@.len() ==> self.d(from as int, c as int) <= self.d(
                        from as int,
                        #[trigger] candidates@[m] as int,
                    )) && (forall|m: int|
                    0 <= m < k ==> self.d(from as int, c as int) < self.d(
                        from as int,
                        #[trigger] candidates@[m] as int,
                    )),
    {
        if candidates.len() == 0 {
            return None;
        }
        let mut best_k: usize = 0;
        let mut best_d: u32 = self.get(from, candidates[0]);
        let mut m: usize = 1;
        while m < candidates.len()
            invariant
                self.wf(),
                from < self.spec_size(),
                forall|k: int| 0 <= k < candidates@.len() ==> #[trigger] candidates@[k] < self.spec_size(),
                1 <= m <= candidates@.len(),
                best_k < m,
                best_d == self.d(from as int, candidates@[best_k as int] as int),
                forall|q: int| 0 <= q < m ==> best_d <= self.d(from as int, #[trigger] candidates@[q] as int),
                forall|q: int| 0 <= q < best_k ==> best_d < self.d(from as int, #[trigger] candidates@[q] as int),
            decreases candidates@.len() - m,
        {
            let dm = self.get(from, candidates[m]);
            if dm < best_d {
                best_d = dm;
                best_k = m;
            }
            m += 1;
        }
        Some(candidates[best_k])
    }

    /// Whether every row holds one entry per location.
    pub fn is_well_formed(&self) -> (r: bool)
        ensures
            r == self.wf(),
    {
        if self.rows.len() != self.size {
            return false;
        }
        let mut i: usize = 0;
        while i < self.rows.len()
            invariant
                self.rows@.len() == self.size,
                i <= self.size,
                forall|a: int| 0 <= a < i ==> #[trigger] self.rows@[a]@.len() == self.size,
            decreases self.size - i,
        {
            if self.rows[i].len() != self.size {
                assert(!(self.rows@[i as int]@.len() == self.size));
                return false;
            }
            i += 1;
        }
        true
    }

    /// Number of locations.
    pub fn size(&self) -> (r: usize)
        ensures
            r == self.spec_size(),
    {
        self.size
    }
}

/// The distance from a location to itself is 0.
pub proof fn lemma_self_distance(m: DistanceMatrix, i: int)
    ensures
        m.d(i, i) == 0,
{
}

/// Distances between customers are symmetric.
pub proof fn lemma_euclidean_symmetric(customers: Seq<Customer>, m: DistanceMatrix, i: int, j: int)
    requires
        m.spec_size() == customers.len(),
        0 <= i < customers.len(),
        0 <= j < customers.len(),
        forall|a: int, b: int|
            0 <= a < customers.len() && 0 <= b < customers.len() && a != b ==> nearest_root(
                squared_gap(
                    customers[a].spec_x() as int,
                    customers[a].spec_y() as int,
                    customers[b].spec_x() as int,
                    customers[b].spec_y() as int,
                ),
                #[trigger] m.d(a, b) as int,
            ),
    ensures
        m.d(i, j) == m.d(j, i),
{
    if i != j {
        let xi = customers[i].spec_x() as int;
        let yi = customers[i].spec_y() as int;
        let xj = customers[j].spec_x() as int;
        let yj = customers[j].spec_y() as int;
        assert(squared_gap(xi, yi, xj, yj) == squared_gap(xj, yj, xi, yi)) by (nonlinear_arith);
        assert(nearest_root(squared_gap(xi, yi, xj, yj), m.d(i, j) as int));
        assert(nearest_root(squared_gap(xj, yj, xi, yi), m.d(j, i) as int));
        lemma_nearest_root_unique(squared_gap(xi, yi, xj, yj), m.d(i, j) as int, m.d(j, i) as int);
    }
}

} // verus!
