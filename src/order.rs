use std::ops::Range;
use vstd::prelude::*;

verus! {

/// One order of the exchange.
///
/// `price` is the value of one unit of the resource for one time step, in
/// integer minor units. The sign of `size` gives the direction of the trade,
/// its magnitude the quantity per time step while the order is active.
/// `time` is the half-open window `[start, end)` of active time steps.
#[derive(Debug)]
pub enum Order {
    Rect { price: u32, size: i32, time: Range<usize> },
}

/// Contribution of `o` to the capacity balance at time step `t`.
pub open spec fn coef(o: Order, t: int) -> int {
    match o {
        Order::Rect { size, time, .. } => if time.start <= t < time.end {
            size as int
        } else {
            0
        },
    }
}

/// Value of fully accepting `o`: its price times its size.
pub open spec fn quote(o: Order) -> int {
    match o {
        Order::Rect { price, size, .. } => price as int * size as int,
    }
}

/// Start of the active window of `o`.
pub open spec fn start_of(o: Order) -> int {
    match o {
        Order::Rect { time, .. } => time.start as int,
    }
}

/// End (exclusive) of the active window of `o`.
pub open spec fn end_of(o: Order) -> int {
    match o {
        Order::Rect { time, .. } => time.end as int,
    }
}

/// `o` fits the horizon `[0, t_max)`: its window is a well-formed interval
/// that ends no later than `t_max`.
pub open spec fn fits(o: Order, t_max: int) -> bool {
    start_of(o) <= end_of(o) <= t_max
}

/// Lowest price a random order draws, in minor units.
pub const RANDOM_PRICE_BASE: u32 = 100;

/// Width of the band of prices a random order draws from.
pub const RANDOM_PRICE_SPREAD: u32 = 20;

/// Largest magnitude of a random order's size.
pub const RANDOM_SIZE_BOUND: i32 = 10;

/// The order built from draws: price `RANDOM_PRICE_BASE + price_off`, size
/// `size_off - RANDOM_SIZE_BOUND`, window `[start, end)`.
pub open spec fn rect_of_draws(price_off: usize, size_off: usize, start: usize, end: usize) -> Order {
    Order::Rect {
        price: (RANDOM_PRICE_BASE + price_off) as u32,
        size: (size_off - RANDOM_SIZE_BOUND) as i32,
        time: Range { start, end },
    }
}

/// rand's thread-local generator, carried through as an opaque value.
#[verifier::external_type_specification]
#[verifier::external_body]
pub struct ExThreadRng(rand::rngs::ThreadRng);

/// Relies on rand::Rng::random_range: a value drawn from the half-open range
/// `[lo, hi)`, which must not be empty (it panics on an empty one).
#[verifier::external_body]
fn draw_below(rng: &mut rand::rngs::ThreadRng, lo: usize, hi: usize) -> (r: usize)
    requires
        lo < hi,
    ensures
        lo <= r < hi,
{
    rand::Rng::random_range(rng, lo..hi)
}

impl Clone for Order {
    fn clone(&self) -> (r: Order)
        ensures
            r == *self,
    {
        match self {
            Order::Rect { price, size, time } => Order::Rect {
                price: *price,
                size: *size,
                time: Range { start: time.start, end: time.end },
            },
        }
    }
}

impl Order {
    /// Price of the order.
    pub fn price(&self) -> (r: u32)
        ensures
            r == match *self {
                Order::Rect { price, .. } => price,
            },
    {
        match self {
            Order::Rect { price, .. } => *price,
        }
    }

    /// Per-time-step capacity footprint of the order over `[0, t_max)`:
    /// `size` inside the active window, zero elsewhere.
    pub fn shape(&self, t_max: usize) -> (r: Vec<i32>)
        requires
            fits(*self, t_max as int),
        ensures
            r@.len() == t_max,
            forall|t: int| 0 <= t < t_max ==> r@[t] == coef(*self, t),
    {
        match self {
            Order::Rect { size, time, .. } => {
                let mut shape: Vec<i32> = Vec::new();
                let mut t: usize = 0;
                while t < t_max
                    invariant
                        t <= t_max,
                        shape@.len() == t,
                        forall|u: int|
                            coef(*self, u) == (if time.start <= u < time.end {
                                *size as int
                            } else {
                                0
                            }),
                        forall|u: int| 0 <= u < t ==> shape@[u] == coef(*self, u),
                    decreases t_max - t,
                {
                    if time.start <= t && t < time.end {
                        shape.push(*size);
                    } else {
                        shape.push(0);
                    }
                    t = t + 1;
                }
                shape
            },
        }
    }

    /// Value of fully accepting the order: `price * size`. Negative for an
    /// order whose size is negative.
    pub fn quote_fulfillment(&self) -> (r: i64)
        ensures
            r == quote(*self),
    {
        match self {
            Order::Rect { price, size, .. } => {
                assert(-0x8000_0000_0000_0000 <= (*price as int) * (*size as int)
                    <= 0x7fff_ffff_ffff_ffff) by (nonlinear_arith)
                    requires
                        0 <= *price as int <= 0xffff_ffff,
                        -0x8000_0000 <= *size as int <= 0x7fff_ffff,
                ;
                (*price as i64) * (*size as i64)
            },
        }
    }

    /// The rectangular order that four draws describe: `price_off` above the
    /// lowest random price, `size_off` above the most negative random size,
    /// and the window `[start, end)`.
    pub fn rect_from_draws(price_off: usize, size_off: usize, start: usize, end: usize) -> (r:
        Order)
        requires
            price_off < RANDOM_PRICE_SPREAD,
            size_off <= 2 * RANDOM_SIZE_BOUND,
            start <= end,
        ensures
            r == rect_of_draws(price_off, size_off, start, end),
    {
        let price = RANDOM_PRICE_BASE + price_off as u32;
        let size = size_off as i32 - RANDOM_SIZE_BOUND;
        Order::Rect { price, size, time: Range { start, end } }
    }

    /// A random rectangular order over the horizon `[0, t_max)`, for
    /// synthetic load: price in `[100, 120)` minor units, size in
    /// `[-10, 10]`, and a window `[start, end)` with `start <= end < t_max`.
    /// The order is `rect_from_draws` of four values drawn in turn from
    /// `[0, 20)`, `[0, 21)`, `[0, t_max)` and `[start, t_max)`.
    pub fn random_rect(rng: &mut rand::rngs::ThreadRng, t_max: usize) -> (r: Order)
        requires
            t_max > 0,
        ensures
            fits(r, t_max as int),
            end_of(r) < t_max,
            match r {
                Order::Rect { price, size, .. } => {
                    &&& RANDOM_PRICE_BASE <= price < RANDOM_PRICE_BASE + RANDOM_PRICE_SPREAD
                    &&& -RANDOM_SIZE_BOUND <= size <= RANDOM_SIZE_BOUND
                },
            },
            exists|price_off: usize, size_off: usize, start: usize, end: usize|
                {
                    &&& price_off < RANDOM_PRICE_SPREAD
                    &&& size_off <= 2 * RANDOM_SIZE_BOUND
                    &&& start <= end < t_max
                    &&& r == rect_of_draws(price_off, size_off, start, end)
                },
    {
        let price_off = draw_below(rng, 0, RANDOM_PRICE_SPREAD as usize);
        let size_off = draw_below(rng, 0, (2 * RANDOM_SIZE_BOUND + 1) as usize);
        let start = draw_below(rng, 0, t_max);
        let end = draw_below(rng, start, t_max);
        let r = Order::rect_from_draws(price_off, size_off, start, end);
        assert(price_off < RANDOM_PRICE_SPREAD && size_off <= 2 * RANDOM_SIZE_BOUND && start
            <= end < t_max && r == rect_of_draws(price_off, size_off, start, end));
        r
    }
}

} // verus!
