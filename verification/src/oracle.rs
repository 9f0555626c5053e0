//! Functions handed in from outside.
//!
//! Trigonometry, geodesic distances and terrain lookups reach this library as
//! functions that its callers pass in. All that is asked of such a function is
//! that it gives one answer to one question; the contracts speak of that answer.

use crate::coord::Geo;
use crate::scalar::Scalar;
use vstd::prelude::*;

verus! {

/// A number that is computed outside.
#[derive(Clone, Copy, Debug)]
pub enum Calc {
    /// Sine of an angle in radians.
    Sin(Scalar),
    /// Cosine of an angle in radians.
    Cos(Scalar),
    /// Tangent of an angle in radians.
    Tan(Scalar),
    /// Angle in radians of a sine.
    Asin(Scalar),
    /// Angle in radians of a cosine.
    Acos(Scalar),
    /// Angle in radians of a tangent.
    Atan(Scalar),
    /// Angle in radians of the direction with rise and run given in that order.
    Atan2(Scalar, Scalar),
    /// Natural logarithm.
    Ln(Scalar),
    /// Power of Euler's number.
    Exp(Scalar),
    /// Power with a whole exponent.
    Powi(Scalar, i32),
    /// Power with any exponent.
    Powf(Scalar, Scalar),
    /// Distance of two places over the ground, in metres.
    Geodesic(Geo, Geo),
}

/// `f` takes every argument, and gives the same answer to the same argument.
pub open spec fn is_function<A, R, F: Fn(A) -> R>(f: F) -> bool {
    &&& forall|x: A| #[trigger] f.requires((x,))
    &&& forall|x: A, a: R, b: R| #[trigger]
        f.ensures((x,), a) && #[trigger] f.ensures((x,), b) ==> a == b
}

/// The answer that `f` gives to `x`.
pub open spec fn image<A, R, F: Fn(A) -> R>(f: F, x: A) -> R {
    choose|r: R| f.ensures((x,), r)
}

/// Asks `f` for its answer to `x`.
pub fn ask<A, R, F: Fn(A) -> R>(f: &F, x: A) -> (r: R)
    requires
        is_function(*f),
    ensures
        r == image(*f, x),
{
    let r = f(x);
    assert(f.ensures((x,), r));
    r
}

} // verus!
