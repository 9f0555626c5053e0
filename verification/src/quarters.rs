//! Cutting corners puts two points on each leg, at its quarters.

use crate::curves::{between, corners_cut, quarter_points};
use crate::numeric::frac;
use crate::path::PathPoint;
use crate::spacing::{at_share, law_samples_lie_on_leg, moderate_point};
use vstd::prelude::*;

verus! {

/// The points of the first legs.
proof fn lemma_quarters(pts: Seq<PathPoint>, k: int, j: int)
    requires
        0 <= k,
    ensures
        quarter_points(pts, k).len() == 2 * k + 1,
        quarter_points(pts, k)[0] == pts[0],
        0 <= j < k ==> quarter_points(pts, k)[2 * j + 1] == between(pts[j], pts[j + 1], frac(1, 4))
            && quarter_points(pts, k)[2 * j + 2] == between(pts[j], pts[j + 1], frac(3, 4)),
    decreases k,
{
    if k > 0 {
        lemma_quarters(pts, k - 1, j);
    }
}

/// A route with its corners cut once keeps its ends, and has two points on each leg, at a
/// quarter and at three quarters of it.
pub proof fn law_corners_are_cut_at_quarters(pts: Seq<PathPoint>, j: int)
    requires
        pts.len() >= 2,
        0 <= j < pts.len() - 1,
        moderate_point(pts[j]) && moderate_point(pts[j + 1]),
    ensures
        corners_cut(pts).len() == 2 * pts.len(),
        corners_cut(pts)[0] == pts[0],
        corners_cut(pts).last() == pts.last(),
        at_share(corners_cut(pts)[2 * j + 1], pts[j], pts[j + 1], 1, 4),
        at_share(corners_cut(pts)[2 * j + 2], pts[j], pts[j + 1], 3, 4),
{
    lemma_quarters(pts, pts.len() - 1, j);
    law_samples_lie_on_leg(pts[j], pts[j + 1], 1, 4);
    law_samples_lie_on_leg(pts[j], pts[j + 1], 3, 4);
}

} // verus!
