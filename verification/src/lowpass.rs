//! A zone is passed below only where the height clears the land by 100 metres.

use crate::coord::Geo;
use crate::exact::{lemma_add, lemma_least, lemma_order, num};
use crate::geometry::{hypotenuse, Vertex};
use crate::numeric::{frac, whole};
use crate::oracle::{image, Calc};
use crate::passage::{
    chord_frame, clears, highest_along, highest_between, legs_length, line_clears, place_along,
    place_between, route_clears, samples_rounded, samples_up, straight_span,
};
use crate::path::PathPoint;
use crate::scalar::Scalar;
use crate::spacing::{lemma_pieces, moderate};
use crate::terrain::Sample;
use crate::values::lemma_num_whole;
use vstd::prelude::*;

verus! {

/// The highest land under some samples is not below any of them.
proof fn lemma_highest_along<T: Fn((Scalar, Scalar)) -> Sample>(
    ground: T,
    raw: Seq<PathPoint>,
    lo: int,
    hi: int,
    n: int,
    j: int,
    i: int,
    h: Scalar,
)
    requires
        0 <= i < j,
        image(ground, place_along(raw, lo, hi, i, n)) == Sample::Land(h),
        !h.nan(),
    ensures
        highest_along(ground, raw, lo, hi, n, j) is Some,
        !highest_along(ground, raw, lo, hi, n, j)->0.nan(),
        h.value() <= highest_along(ground, raw, lo, hi, n, j)->0.value(),
    decreases j,
{
    if i < j - 1 {
        lemma_highest_along(ground, raw, lo, hi, n, j - 1, i, h);
    }
}

proof fn lemma_highest_between<T: Fn((Scalar, Scalar)) -> Sample>(
    ground: T,
    start: Geo,
    target: Geo,
    u_in: Scalar,
    u_out: Scalar,
    n: int,
    j: int,
    i: int,
    h: Scalar,
)
    requires
        0 <= i < j,
        image(
            ground,
            place_between(start, target, u_in + (u_out - u_in) * (whole(i) / whole(n))),
        ) == Sample::Land(h),
        !h.nan(),
    ensures
        highest_between(ground, start, target, u_in, u_out, n, j) is Some,
        !highest_between(ground, start, target, u_in, u_out, n, j)->0.nan(),
        h.value() <= highest_between(ground, start, target, u_in, u_out, n, j)->0.value(),
    decreases j,
{
    if i < j - 1 {
        lemma_highest_between(ground, start, target, u_in, u_out, n, j - 1, i, h);
    }
}

/// Land that is cleared lies 100 metres below, but for a nanometre.
proof fn lemma_cleared(highest: Option<Scalar>, bottom: Scalar, h: Scalar)
    requires
        clears(highest, bottom),
        highest is Some,
        moderate(h) && moderate(bottom),
        !highest->0.nan(),
        h.value() <= highest->0.value(),
    ensures
        num(h) + 100real <= num(bottom) + 1real / 1000000000real,
{
    lemma_least();
    lemma_num_whole(100);
    let m = highest->0;
    lemma_order(h, m);
    if m.finite() {
        lemma_order(m + whole(100), bottom);
        if num(m) <= 10000000real {
            lemma_add(m, whole(100));
        } else {
            lemma_high(m, bottom);
        }
    } else {
        lemma_endless(m, h, bottom);
    }
}

/// Land far above every height is not cleared.
proof fn lemma_high(m: Scalar, bottom: Scalar)
    requires
        m.finite(),
        num(m) > 10000000real,
        moderate(bottom),
    ensures
        !(m + whole(100) <= bottom),
{
    lemma_num_whole(100);
    crate::exact::lemma_num(m);
    crate::exact::lemma_num(whole(100));
    crate::order::law_sum_not_below(m, whole(100));
    lemma_order(m, bottom);
}

proof fn lemma_endless(m: Scalar, h: Scalar, bottom: Scalar)
    requires
        !m.nan() && !m.finite(),
        h.finite() && moderate(bottom),
        h.value() <= m.value(),
    ensures
        !(m + whole(100) <= bottom),
{
    reveal(Scalar::plus);
    lemma_num_whole(100);
    crate::ends::lemma_absolute_value(h);
    crate::ends::lemma_absolute_value(bottom);
    crate::scalar::lemma_magnitude_monotone(
        h.magnitude_bits(),
        crate::scalar::INFINITY_BITS as int,
    );
    crate::scalar::lemma_magnitude_monotone(
        bottom.magnitude_bits(),
        crate::scalar::INFINITY_BITS as int,
    );
    assert(m.magnitude_bits() == crate::scalar::INFINITY_BITS);
}

/// Samples at most 200 metres apart, or as many as are taken at most.
proof fn lemma_samples(length_m: Scalar)
    requires
        length_m.finite(),
        0real <= num(length_m) <= 1000000000000000real,
    ensures
        ({
            let n = samples_up(length_m / whole(200));
            &&& 8 <= n <= 2048
            &&& n == 2048 || 1000000real * num(length_m) <= 200000001real * (n as real)
        }),
{
    lemma_pieces(length_m, 200);
    let x = length_m / whole(200);
    assert(x.finite() && !x.nan() && !x.infinite());
}

/// Flying below a zone along a stretch of a route clears the land under each of its
/// samples by 100 metres. The samples are at most 200 metres apart along the route, or
/// there are 2048 pieces.
pub proof fn law_low_pass_clears_route<
    C: Fn(Calc) -> Scalar,
    T: Fn((Scalar, Scalar)) -> Sample,
>(
    calc: C,
    ground: T,
    raw: Seq<PathPoint>,
    lo: int,
    hi: int,
    bottom: Scalar,
) -> (n: int)
    requires
        route_clears(calc, ground, raw, lo, hi, bottom),
        moderate(bottom),
        legs_length(calc, raw, lo, hi).finite(),
        0real <= num(legs_length(calc, raw, lo, hi)) <= 1000000000000000real,
    ensures
        8 <= n <= 2048,
        n == 2048 || 1000000real * num(legs_length(calc, raw, lo, hi)) <= 200000001real * (
        n as real),
        forall|i: int|
            0 <= i <= n ==> match image(ground, #[trigger] place_along(raw, lo, hi, i, n)) {
                Sample::Land(h) => moderate(h) ==> num(h) + 100real <= num(bottom) + 1real
                    / 1000000000real,
                _ => true,
            },
{
    lemma_samples(legs_length(calc, raw, lo, hi));
    let n = samples_up(legs_length(calc, raw, lo, hi) / whole(200));
    assert forall|i: int| 0 <= i <= n implies match image(
        ground,
        #[trigger] place_along(raw, lo, hi, i, n),
    ) {
        Sample::Land(h) => moderate(h) ==> num(h) + 100real <= num(bottom) + 1real
            / 1000000000real,
        _ => true,
    } by {
        match image(ground, place_along(raw, lo, hi, i, n)) {
            Sample::Land(h) => {
                if moderate(h) {
                    lemma_highest_along(ground, raw, lo, hi, n, n + 1, i, h);
                    lemma_cleared(highest_along(ground, raw, lo, hi, n, n + 1), bottom, h);
                }
            },
            _ => {},
        }
    }
    n
}

/// Flying below a zone straight across it clears the land under each sample by 100
/// metres.
pub proof fn law_low_pass_clears_line<
    C: Fn(Calc) -> Scalar,
    T: Fn((Scalar, Scalar)) -> Sample,
>(
    calc: C,
    ground: T,
    start: Geo,
    target: Geo,
    center: Vertex,
    radius_km: Scalar,
    bottom: Scalar,
) -> (n: int)
    requires
        line_clears(calc, ground, start, target, center[0], center[1], radius_km, bottom),
        moderate(bottom),
        straight_span(calc, start, target, center[0], center[1], radius_km) is Some,
    ensures
        n >= 8,
        ({
            let (u_in, u_out) = straight_span(
                calc,
                start,
                target,
                center[0],
                center[1],
                radius_km,
            )->0;
            forall|i: int|
                0 <= i <= n ==> match image(
                    ground,
                    #[trigger] place_between(
                        start,
                        target,
                        u_in + (u_out - u_in) * (whole(i) / whole(n)),
                    ),
                ) {
                    Sample::Land(h) => moderate(h) ==> num(h) + 100real <= num(bottom) + 1real
                        / 1000000000real,
                    _ => true,
                }
        }),
{
    let (u_in, u_out) = straight_span(calc, start, target, center[0], center[1], radius_km)->0;
    let f = chord_frame(
        calc,
        start.lon,
        start.lat,
        target.lon,
        target.lat,
        center[0],
        center[1],
    );
    let n = samples_rounded((u_out - u_in) * hypotenuse(f.dx, f.dy) / frac(2, 10));
    assert forall|i: int| 0 <= i <= n implies match image(
        ground,
        #[trigger] place_between(start, target, u_in + (u_out - u_in) * (whole(i) / whole(n))),
    ) {
        Sample::Land(h) => moderate(h) ==> num(h) + 100real <= num(bottom) + 1real
            / 1000000000real,
        _ => true,
    } by {
        match image(
            ground,
            place_between(start, target, u_in + (u_out - u_in) * (whole(i) / whole(n))),
        ) {
            Sample::Land(h) => {
                if moderate(h) {
                    lemma_highest_between(ground, start, target, u_in, u_out, n, n + 1, i, h);
                    lemma_cleared(
                        highest_between(ground, start, target, u_in, u_out, n, n + 1),
                        bottom,
                        h,
                    );
                }
            },
            _ => {},
        }
    }
    n
}

} // verus!
