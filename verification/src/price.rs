//! Price normalization: decimal currency prices to integer tick counts.
//!
//! A decimal price enters the library as an integer count of *sub-units*,
//! where one currency unit is `SUBUNITS_PER_UNIT` sub-units.  The tick
//! granularity is 0.01 currency units, i.e. `SUBUNITS_PER_TICK` sub-units.
//! Normalization divides by the tick size rounding toward negative infinity,
//! so that ordering and equality of prices are exact wherever the book
//! compares prices or uses them as keys.

use vstd::prelude::*;

verus! {

/// Sub-units per currency unit: prices carry four decimal places.
pub const SUBUNITS_PER_UNIT: i64 = 10000;

/// Sub-units per tick: the tick granularity is 0.01 currency units.
pub const SUBUNITS_PER_TICK: i64 = 100;

/// Least sub-unit price whose tick fits in `i32`.
pub const MIN_PRICE: i64 = -2147483648 * 100;

/// Greatest sub-unit price whose tick fits in `i32`.
pub const MAX_PRICE: i64 = 2147483647 * 100 + 99;

/// The tick of a sub-unit price: floor division by the tick size.
/// (`int` division by a positive divisor rounds toward negative infinity.)
pub open spec fn spec_tick_of(price: int) -> int {
    price / (SUBUNITS_PER_TICK as int)
}

/// Normalize a decimal (sub-unit) price to its integer tick count, rounding
/// toward negative infinity.
pub fn to_int_price(price: i64) -> (r: i32)
    requires
        MIN_PRICE <= price <= MAX_PRICE,
    ensures
        r as int == spec_tick_of(price as int),
{
    if price >= 0 {
        let q: u64 = (price as u64) / 100;
        proof {
            assert(q == spec_tick_of(price as int));
        }
        q as i32
    } else {
        // floor(price / 100) == -ceil(-price / 100) for negative prices.
        let neg: u64 = (0 - price) as u64;
        let q: u64 = (neg + 99) / 100;
        proof {
            assert(0 - (q as int) == spec_tick_of(price as int)) by {
                let n = neg as int;
                assert(price as int == -n);
                assert((n + 99) / 100 == 0 - (-n) / 100) by (nonlinear_arith)
                    requires
                        1 <= n <= 0x8000000000000000,
                ;
            }
        }
        let r: i64 = 0 - (q as i64);
        r as i32
    }
}

} // verus!
