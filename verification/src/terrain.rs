//! What the ground below a place is.

use crate::scalar::Scalar;
use vstd::prelude::*;

verus! {

/// The ground at a place.
#[derive(Clone, Copy, Debug)]
pub enum Sample {
    /// Land of the given height in metres.
    Land(Scalar),
    /// The sea.
    Water,
    /// An inland lake, with the height its data give.
    Lake(Scalar),
    /// A hole in the data.
    NoData,
    /// Outside the area that the data cover.
    OutOfBounds,
    /// A place that may not be flown over.
    Forbidden,
}

/// The larger of a height and the land at a place, where the place is land.
pub open spec fn raised_by(highest: Option<Scalar>, sample: Sample) -> Option<Scalar> {
    match (highest, sample) {
        (None, Sample::Land(h)) => Some(h),
        (Some(m), Sample::Land(h)) => Some(m.larger(h)),
        (m, _) => m,
    }
}

pub fn raise(highest: Option<Scalar>, sample: Sample) -> (r: Option<Scalar>)
    ensures
        r == raised_by(highest, sample),
{
    match sample {
        Sample::Land(h) => match highest {
            None => Some(h),
            Some(m) => Some(m.max(&h)),
        },
        _ => highest,
    }
}

} // verus!
