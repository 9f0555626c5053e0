//! What it costs to cross a cell of the grid.
//!
//! Costs are kept in single precision: each step computes in double precision and
//! rounds to 24 bits.

use crate::arith::{make, signed};
use crate::field::{crossing_cost, ground_cost};
use crate::numeric::{frac, number, ratio, whole};
use crate::passage::infinity;
use crate::scalar::{Scalar, INFINITY_BITS};
use crate::terrain::Sample;
use vstd::prelude::*;

verus! {

/// Magnitude of the first power of two beyond single precision.
pub const SINGLE_END: u64 = 0x47f0_0000_0000_0000;

/// How many patterns of double precision share one of single precision.
pub const SINGLE_STEP: u64 = 0x2000_0000;

/// The number of single precision next to `x`, the even one of two; infinity beyond
/// them. Holds for zero and for magnitudes from 2^-126 on.
pub open spec fn single(x: Scalar) -> Scalar {
    let m = x.magnitude_bits();
    if m >= INFINITY_BITS {
        x
    } else {
        let n = nearest_step(m) * SINGLE_STEP;
        signed(
            x.negative(),
            if n >= SINGLE_END {
                INFINITY_BITS as int
            } else {
                n
            },
        )
    }
}

/// The multiple of the step next to a pattern, the even one of two.
pub open spec fn nearest_step(m: int) -> int {
    let (q, r) = (m / SINGLE_STEP as int, m % SINGLE_STEP as int);
    if 2 * r > SINGLE_STEP || (2 * r == SINGLE_STEP && q % 2 == 1) {
        q + 1
    } else {
        q
    }
}

/// Rounds to single precision.
pub fn to_single(x: Scalar) -> (r: Scalar)
    ensures
        r == single(x),
{
    let m: u64 = x.magnitude_part();
    if m >= INFINITY_BITS {
        return x;
    }
    let q: u64 = m / SINGLE_STEP;
    let r: u64 = m % SINGLE_STEP;
    let half: u64 = SINGLE_STEP / 2;
    let n: u64 = if r > half || (r == half && q % 2 == 1) { q + 1 } else { q };
    let pattern: u64 = n * SINGLE_STEP;
    make(x.is_negative(), if pattern >= SINGLE_END { INFINITY_BITS } else { pattern })
}

/// Rounding twice is rounding once.
pub proof fn law_single_settles(x: Scalar)
    ensures
        single(single(x)) == single(x),
{
    let m = x.magnitude_bits();
    if m < INFINITY_BITS {
        let n = nearest_step(m) * SINGLE_STEP;
        let y = single(x);
        if n >= SINGLE_END {
            assert(y.magnitude_bits() == INFINITY_BITS);
        } else {
            assert(y.magnitude_bits() == n);
            assert(n / SINGLE_STEP as int == nearest_step(m) && n % SINGLE_STEP as int == 0)
                by (nonlinear_arith)
                requires
                    n == nearest_step(m) * SINGLE_STEP,
            ;
            assert(nearest_step(n) == nearest_step(m));
        }
    }
}

/// How much more a cell costs that lies `d` cells from a wall, in a band of `width`
/// cells: half as much again at the wall, and less the farther away.
pub open spec fn band_factor(d: int, width: int) -> Scalar {
    let t = single(
        whole(1) - single(single(single(whole(d)) - whole(1)) / single(whole(width))),
    );
    single(whole(1) + single(frac(1, 2) * t))
}

fn find_band_factor(d: u32, width: u32) -> (r: Scalar)
    ensures
        r == band_factor(d as int, width as int),
{
    let one: Scalar = number(1);
    let share: Scalar = to_single(
        to_single(to_single(number(d as u64)) - one) / to_single(number(width as u64)),
    );
    to_single(one + to_single(ratio(1, 2) * to_single(one - share)))
}

/// What a cell costs, given what it cost before the band beside a wall was laid. A
/// cell outside the band has distance zero.
pub open spec fn banded_cost(cost: Scalar, d: int, width: int) -> Scalar {
    if cost.finite() && 1 <= d <= width {
        single(cost * band_factor(d, width))
    } else {
        cost
    }
}

fn add_band(cost: Scalar, d: u32, width: u32) -> (r: Scalar)
    ensures
        r == banded_cost(cost, d as int, width as int),
{
    if cost.is_finite() && 1 <= d && d <= width {
        to_single(cost * find_band_factor(d, width))
    } else {
        cost
    }
}

/// What a cell costs all vehicles: infinity in a wall, else what its ground costs,
/// more in the band beside a wall, and more in reach of a radar.
pub open spec fn common_cost(
    ground: Sample,
    wall: bool,
    d: int,
    width: int,
    radar: Option<Scalar>,
) -> Scalar {
    if wall || crossing_cost(ground) is None {
        infinity()
    } else {
        let cost = banded_cost(crossing_cost(ground)->0, d, width);
        if radar is Some && cost.finite() {
            single(cost * single(radar->0))
        } else {
            cost
        }
    }
}

pub fn shared_cost(ground: Sample, wall: bool, d: u32, width: u32, radar: Option<Scalar>) -> (r:
    Scalar)
    ensures
        r == common_cost(ground, wall, d as int, width as int, radar),
{
    match ground_cost(ground) {
        Some(base) => {
            if wall {
                return Scalar { bits: INFINITY_BITS };
            }
            let cost: Scalar = add_band(base, d, width);
            match radar {
                Some(factor) => if cost.is_finite() {
                    to_single(cost * to_single(factor))
                } else {
                    cost
                },
                None => cost,
            }
        },
        None => Scalar { bits: INFINITY_BITS },
    }
}

/// What a cell costs one vehicle: infinity in a wall, else what it costs all of them,
/// and more in the band beside walls that were closed for this vehicle.
pub open spec fn own_cost(shared: Scalar, wall: bool, d: Option<int>, width: int) -> Scalar {
    if wall {
        infinity()
    } else {
        match d {
            Some(d) => banded_cost(shared, d, width),
            None => shared,
        }
    }
}

pub fn vehicle_cost(shared: Scalar, wall: bool, d: Option<u32>, width: u32) -> (r: Scalar)
    ensures
        r == own_cost(
            shared,
            wall,
            match d {
                Some(d) => Some(d as int),
                None => None,
            },
            width as int,
        ),
{
    if wall {
        return Scalar { bits: INFINITY_BITS };
    }
    match d {
        Some(d) => add_band(shared, d, width),
        None => shared,
    }
}

} // verus!
