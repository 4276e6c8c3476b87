//! Customers, their time windows, and the rounded Euclidean distance.

use vstd::prelude::*;

verus! {

/// `r` is the integer nearest to the square root of `v`.
pub open spec fn nearest_root(v: int, r: int) -> bool {
    &&& r >= 0
    &&& v <= r * r + r
    &&& (r == 0 || r * r - r < v)
}

/// The squared Euclidean distance between two points.
pub open spec fn squared_gap(x1: int, y1: int, x2: int, y2: int) -> int {
    (x1 - x2) * (x1 - x2) + (y1 - y2) * (y1 - y2)
}

/// Largest magnitude of a coordinate for which distances fit in `u32`.
pub const COORD_LIMIT: i32 = 0x4000_0000;

/// The nearest root of a value is unique.
pub proof fn lemma_nearest_root_unique(v: int, r1: int, r2: int)
    requires
        nearest_root(v, r1),
        nearest_root(v, r2),
    ensures
        r1 == r2,
{
    if r1 < r2 {
        assert(r1 * r1 + r1 <= r2 * r2 - r2) by (nonlinear_arith)
            requires r1 + 1 <= r2, r1 >= 0;
    } else if r2 < r1 {
        assert(r2 * r2 + r2 <= r1 * r1 - r1) by (nonlinear_arith)
            requires r2 + 1 <= r1, r2 >= 0;
    }
}

/// Integer nearest to the square root of `v`.
pub fn rounded_sqrt(v: u64) -> (r: u64)
    ensures
        nearest_root(v as int, r as int),
        r <= 0x1_0000_0000,
{
    let mut lo: u64 = 0;
    let mut hi: u64 = 0x1_0000_0000;
    assert(0x1_0000_0000 * 0x1_0000_0000 > u64::MAX) by (nonlinear_arith);
    while hi - lo > 1
        invariant
            lo < hi <= 0x1_0000_0000,
            (lo as int) * (lo as int) <= v as int,
            (v as int) < (hi as int) * (hi as int),
        decreases hi - lo,
    {
        let mid: u64 = lo + (hi - lo) / 2;
        assert((mid as int) * (mid as int) <= 0x1_0000_0000 * 0x1_0000_0000) by (nonlinear_arith)
            requires mid <= 0x1_0000_0000;
        let sq: u128 = (mid as u128) * (mid as u128);
        if sq <= v as u128 {
            lo = mid;
        } else {
            hi = mid;
        }
    }
    assert(hi == lo + 1);
    assert((v as int) < (lo as int + 1) * (lo as int + 1));
    assert((lo as int + 1) * (lo as int + 1) == (lo as int) * (lo as int) + 2 * (lo as int) + 1)
        by (nonlinear_arith);
    let lo_sq: u128 = (lo as u128) * (lo as u128);
    if (v as u128) - lo_sq > lo as u128 {
        let r = lo + 1;
        assert((r as int) * (r as int) - (r as int) == (lo as int) * (lo as int) + (lo as int))
            by (nonlinear_arith) requires r == lo + 1;
        r
    } else {
        lo
    }
}

/// The interval `[ready, due]` in which service may start.
///
/// A vehicle that arrives before `ready` waits; one that arrives after `due`
/// violates the window.
#[derive(Debug, Clone, Copy, PartialEq, Eq)]
pub struct TimeWindow {
    ready: u32,
    due: u32,
}

impl TimeWindow {
    #[verifier::type_invariant]
    spec fn ordered(&self) -> bool {
        self.ready <= self.due
    }

    /// Earliest start of service.
    pub closed spec fn spec_ready(&self) -> u32 {
        self.ready
    }

    /// Latest allowed arrival.
    pub closed spec fn spec_due(&self) -> u32 {
        self.due
    }

    /// Creates a window; `None` when `ready > due`.
    pub fn new(ready: u32, due: u32) -> (r: Option<TimeWindow>)
        ensures
            r.is_some() <==> ready <= due,
            r matches Some(tw) ==> tw.spec_ready() == ready && tw.spec_due() == due,
    {
        if ready > due {
            None
        } else {
            Some(TimeWindow { ready, due })
        }
    }

    /// Earliest allowable arrival time.
    pub fn ready(&self) -> (r: u32)
        ensures
            r == self.spec_ready(),
            r <= self.spec_due(),
    {
        proof {
            use_type_invariant(self);
        }
        self.ready
    }

    /// Latest allowable arrival time.
    pub fn due(&self) -> (r: u32)
        ensures
            r == self.spec_due(),
            self.spec_ready() <= r,
    {
        proof {
            use_type_invariant(self);
        }
        self.due
    }

    /// Whether `time` lies in the window.
    pub fn contains(&self, time: u128) -> (r: bool)
        ensures
            r == (self.spec_ready() <= time && time <= self.spec_due()),
    {
        time >= self.ready as u128 && time <= self.due as u128
    }

    /// Time spent waiting for the window to open after arriving at `arrival`.
    pub fn waiting_time(&self, arrival: u128) -> (r: u128)
        ensures
            r == if arrival < self.spec_ready() { self.spec_ready() - arrival } else { 0 },
    {
        if arrival < self.ready as u128 {
            self.ready as u128 - arrival
        } else {
            0
        }
    }

    /// Whether arriving at `arrival` is too late.
    pub fn is_violated(&self, arrival: u128) -> (r: bool)
        ensures
            r == (arrival > self.spec_due()),
    {
        arrival > self.due as u128
    }
}

/// A location of a routing problem: the depot (id 0) or a customer.
#[derive(Debug, Clone, Copy)]
pub struct Customer {
    id: usize,
    x: i32,
    y: i32,
    demand: u32,
    service_duration: u32,
    time_window: Option<TimeWindow>,
}

impl Customer {
    pub closed spec fn spec_id(&self) -> usize {
        self.id
    }

    pub closed spec fn spec_x(&self) -> i32 {
        self.x
    }

    pub closed spec fn spec_y(&self) -> i32 {
        self.y
    }

    pub closed spec fn spec_demand(&self) -> u32 {
        self.demand
    }

    pub closed spec fn spec_service(&self) -> u32 {
        self.service_duration
    }

    pub closed spec fn spec_window(&self) -> Option<TimeWindow> {
        self.time_window
    }

    /// Whether both coordinates lie within `COORD_LIMIT` of the origin.
    pub open spec fn in_bounds(&self) -> bool {
        -COORD_LIMIT <= self.spec_x() <= COORD_LIMIT && -COORD_LIMIT <= self.spec_y()
            <= COORD_LIMIT
    }

    /// Creates a customer without a time window.
    pub fn new(id: usize, x: i32, y: i32, demand: u32, service_duration: u32) -> (r: Customer)
        ensures
            r.spec_id() == id,
            r.spec_x() == x,
            r.spec_y() == y,
            r.spec_demand() == demand,
            r.spec_service() == service_duration,
            r.spec_window().is_none(),
    {
        Customer { id, x, y, demand, service_duration, time_window: None }
    }

    /// Creates the depot: id 0, no demand, no service time.
    pub fn depot(x: i32, y: i32) -> (r: Customer)
        ensures
            r.spec_id() == 0,
            r.spec_x() == x,
            r.spec_y() == y,
            r.spec_demand() == 0,
            r.spec_service() == 0,
            r.spec_window().is_none(),
    {
        Customer::new(0, x, y, 0, 0)
    }

    /// The same customer with the time window `tw`.
    pub fn with_time_window(self, tw: TimeWindow) -> (r: Customer)
        ensures
            r.spec_id() == self.spec_id(),
            r.spec_x() == self.spec_x(),
            r.spec_y() == self.spec_y(),
            r.spec_demand() == self.spec_demand(),
            r.spec_service() == self.spec_service(),
            r.spec_window() == Some(tw),
    {
        Customer { time_window: Some(tw), ..self }
    }

    pub fn id(&self) -> (r: usize)
        ensures
            r == self.spec_id(),
    {
        self.id
    }

    pub fn x(&self) -> (r: i32)
        ensures
            r == self.spec_x(),
    {
        self.x
    }

    pub fn y(&self) -> (r: i32)
        ensures
            r == self.spec_y(),
    {
        self.y
    }

    pub fn demand(&self) -> (r: u32)
        ensures
            r == self.spec_demand(),
    {
        self.demand
    }

    pub fn service_duration(&self) -> (r: u32)
        ensures
            r == self.spec_service(),
    {
        self.service_duration
    }

    pub fn time_window(&self) -> (r: Option<TimeWindow>)
        ensures
            r == self.spec_window(),
    {
        self.time_window
    }

    /// Euclidean distance to `other`, rounded to the nearest integer.
    pub fn distance_to(&self, other: &Customer) -> (r: u32)
        requires
            self.in_bounds(),
            other.in_bounds(),
        ensures
            nearest_root(
                squared_gap(
                    self.spec_x() as int,
                    self.spec_y() as int,
                    other.spec_x() as int,
                    other.spec_y() as int,
                ),
                r as int,
            ),
    {
        let dx: i64 = self.x as i64 - other.x as i64;
        let dy: i64 = self.y as i64 - other.y as i64;
        assert(dx * dx <= 0x4000_0000_0000_0000) by (nonlinear_arith)
            requires -0x8000_0000 <= dx <= 0x8000_0000;
        assert(dy * dy <= 0x4000_0000_0000_0000) by (nonlinear_arith)
            requires -0x8000_0000 <= dy <= 0x8000_0000;
        assert(dx * dx >= 0 && dy * dy >= 0) by (nonlinear_arith);
        let v: u64 = (dx * dx) as u64 + (dy * dy) as u64;
        let r = rounded_sqrt(v);
        assert(r * r - r < 0x8000_0000_0000_0001 ==> r <= 0xC000_0000) by (nonlinear_arith);
        r as u32
    }
}

} // verus!
