//! A restricted zone is passed at another height only where the ends of the flight leave
//! room for the change of height.

use crate::config::{Zone, ZoneShape};
use crate::coord::Geo;
use crate::ends::lemma_absolute_value;
use crate::exact::{
    about, far, least, lemma_add, lemma_div, lemma_least, lemma_mul, lemma_num, lemma_order,
    lemma_sub, num, part, size,
};
use crate::geometry::{radians, Vertex};
use crate::numeric::{frac, whole};
use crate::oracle::{image, Calc};
use crate::passage::{
    climb_distance_m, climb_fits, flat_km, height_above, height_below, infinity, pass_height,
    Performance,
};
use crate::path::PathPoint;
use crate::scalar::{lemma_magnitude_monotone, Scalar, INFINITY_BITS};
use crate::spacing::{lemma_size_product, moderate};
use crate::terrain::Sample;
use crate::values::{lemma_num_frac, lemma_num_whole};
use vstd::prelude::*;

verus! {

/// Kilometres by which a place lies outside a circle.
pub open spec fn outside_km<C: Fn(Calc) -> Scalar>(
    calc: C,
    center: Vertex,
    radius_km: Scalar,
    place: Geo,
) -> real {
    num(flat_km(calc, center[0], center[1], place.lon, place.lat)) - num(radius_km)
}

/// Whether `out` kilometres are enough to change height by `high` metres at a slope of
/// `tan`, with a quarter to spare; but for a part in 10^9 and a micrometre.
pub open spec fn is_enough(high: real, tan: real, out: real) -> bool {
    5real * high - high / 1000000000real - 1real / 1000000real <= 4000real * (tan * (out + size(out)
        / 1000000000000real))
}

/// Whether that much is more than enough.
pub open spec fn is_ample(high: real, tan: real, out: real) -> bool {
    5real * high + high / 1000000000real + 1real / 1000000real <= 4000real * (tan * (out - size(out)
        / 1000000000000real))
}

/// Whether an aircraft can climb, and the slope is one of a climb.
pub open spec fn climbs<C: Fn(Calc) -> Scalar>(calc: C, max_climb_deg: Scalar) -> bool {
    let tan = image(calc, Calc::Tan(radians(max_climb_deg)));
    &&& max_climb_deg > frac(1, 10)
    &&& tan.finite() && 1real / 1000000real <= num(tan) <= 1000real
}

/// Whether the circle and the distances of a place from it are not too large.
pub open spec fn measured<C: Fn(Calc) -> Scalar>(
    calc: C,
    center: Vertex,
    radius_km: Scalar,
    place: Geo,
) -> bool {
    moderate(radius_km) && moderate(flat_km(calc, center[0], center[1], place.lon, place.lat))
}

/// The height of a change, without its sign.
pub proof fn lemma_height(alt_m: Scalar, pass: Scalar)
    requires
        moderate(alt_m) && moderate(pass),
    ensures
        (alt_m - pass).magnitude().finite(),
        ({
            let (a, h) = (num((alt_m - pass).magnitude()), size(num(alt_m) - num(pass)));
            a >= 0real && about(a, h, part() * h + least())
        }),
{
    lemma_least();
    lemma_sub(alt_m, pass);
    let d = alt_m - pass;
    lemma_absolute_value(d);
    let m = d.magnitude();
    assert(m.magnitude_bits() == d.magnitude_bits());
    assert(m.value() == crate::arith::absolute(d.value()));
    lemma_num(d);
    lemma_num(m);
    let u = vstd::arithmetic::power2::pow2(1074) as real;
    let (x, y) = (num(m), num(d));
    assert(x == size(y)) by (nonlinear_arith)
        requires
            x * u == size(y * u),
            u > 0real,
    ;
}

/// The ground that a change of height needs.
#[verifier::rlimit(50)]
proof fn lemma_need<C: Fn(Calc) -> Scalar>(
    calc: C,
    alt_m: Scalar,
    pass: Scalar,
    max_climb_deg: Scalar,
)
    requires
        moderate(alt_m) && moderate(pass),
        climbs(calc, max_climb_deg),
    ensures
        ({
            let need = climb_distance_m(calc, alt_m, pass, max_climb_deg);
            let tan = num(image(calc, Calc::Tan(radians(max_climb_deg))));
            let high = size(num(alt_m) - num(pass));
            &&& need.finite()
            &&& about(4real * (num(need) * tan), 5real * high, high / 10000000000real + 1real
                / 10000000000real)
        }),
{
    lemma_least();
    lemma_height(alt_m, pass);
    lemma_num_frac(125, 100);
    let tan = image(calc, Calc::Tan(radians(max_climb_deg)));
    let (mag, c) = ((alt_m - pass).magnitude(), frac(125, 100));
    let (a, t, high, cr) = (num(mag), num(tan), size(num(alt_m) - num(pass)), num(c));
    assert(a <= 2000001real);
    assert(far() * t >= 2000001real) by (nonlinear_arith)
        requires
            t >= 1real / 1000000real,
            far() == 1267650600228229401496703205376real,
    ;
    lemma_div(mag, tan);
    let q = num(mag / tan);
    assert(least() * t <= 1real / 1000000000000000000real) by (nonlinear_arith)
        requires
            least() <= 1real / 1267650600228229401496703205376real,
            0real < t <= 1000real,
            0real < least(),
    ;
    let qt = q * t;
    assert(size(qt) <= 2000002real);
    assert(size(q) <= 2000002000000real) by (nonlinear_arith)
        requires
            qt == q * t,
            size(qt) <= 2000002real,
            t >= 1real / 1000000real,
    ;
    lemma_size_product(q, cr, 2000002000000real, 2real);
    lemma_mul(mag / tan, c);
    let n = num(mag / tan * c);
    let qc = q * cr;
    // The last step, along the slope.
    let off = n - qc;
    lemma_along(n, qc, off, t);
    let (nt, qct, ot) = (n * t, qc * t, off * t);
    let d = cr - 5real / 4real;
    assert(size(d) <= 1real / 2000000000000000real);
    lemma_size_product(qt, d, 2000002real, 1real / 2000000000000000real);
    let qtd = qt * d;
    assert(qct == qt * (5real / 4real) + qtd) by (nonlinear_arith)
        requires
            qct == qc * t,
            qc == q * cr,
            qt == q * t,
            qtd == qt * d,
            d == cr - 5real / 4real,
    ;
    lemma_size_relative(qt, d, high);
    lemma_ends_up(a, high, qt, qct, qtd, ot, nt);
}

/// What is lost of a product, along a slope.
proof fn lemma_along(n: real, qc: real, off: real, t: real)
    requires
        off == n - qc,
        about(n, qc, part() * size(qc) + least()),
        0real < t <= 1000real,
        0real < least() <= 1real / 1267650600228229401496703205376real,
    ensures
        n * t == qc * t + off * t,
        size(off * t) <= part() * size(qc * t) + 1real / 1000000000000000000real,
{
    assert(n * t == qc * t + off * t) by (nonlinear_arith)
        requires
            off == n - qc,
    ;
    let (so, sq) = (size(off), size(qc));
    assert(size(off * t) == so * t && size(qc * t) == sq * t) by (nonlinear_arith)
        requires
            so == size(off),
            sq == size(qc),
            t > 0real,
    ;
    assert(so * t <= (part() * sq + least()) * t) by (nonlinear_arith)
        requires
            so <= part() * sq + least(),
            t > 0real,
    ;
    assert((part() * sq + least()) * t == part() * (sq * t) + least() * t) by (nonlinear_arith);
    assert(least() * t <= 1real / 1000000000000000000real) by (nonlinear_arith)
        requires
            least() <= 1real / 1267650600228229401496703205376real,
            0real < t <= 1000real,
            0real < least(),
    ;
}

proof fn lemma_size_relative(qt: real, d: real, high: real)
    requires
        size(d) <= 1real / 2000000000000000real,
        high >= 0real,
        size(qt) <= 2real * high + 1real,
    ensures
        size(qt * d) <= (2real * high + 1real) / 2000000000000000real,
{
    lemma_size_product(qt, d, 2real * high + 1real, 1real / 2000000000000000real);
    assert((2real * high + 1real) * (1real / 2000000000000000real) == (2real * high + 1real)
        / 2000000000000000real) by (nonlinear_arith);
}

/// The steps together.
#[verifier::rlimit(50)]
proof fn lemma_ends_up(a: real, high: real, qt: real, qct: real, qtd: real, ot: real, nt: real)
    requires
        0real <= high <= 2000000real,
        0real < least() <= 1real / 1267650600228229401496703205376real,
        about(a, high, part() * high + least()),
        about(qt, a, part() * size(a) + 1real / 1000000000000000000real),
        qct == qt * (5real / 4real) + qtd,
        size(qtd) <= (2real * high + 1real) / 2000000000000000real,
        size(ot) <= part() * size(qct) + 1real / 1000000000000000000real,
        nt == qct + ot,
    ensures
        about(4real * nt, 5real * high, high / 10000000000real + 1real / 10000000000real),
{
    assert(qt * (5real / 4real) == 5real * qt / 4real) by (nonlinear_arith);
    assert(size(qct) <= 2real * high + 1real);
}

/// The room outside a circle, in metres.
#[verifier::rlimit(50)]
proof fn lemma_room(flat: Scalar, radius_km: Scalar)
    requires
        moderate(flat) && moderate(radius_km),
    ensures
        ((flat - radius_km) * whole(1000)).finite(),
        ({
            let out = num(flat) - num(radius_km);
            about(
                num((flat - radius_km) * whole(1000)),
                1000real * out,
                size(out) / 1000000000000real + 1real / 1000000000000000real,
            )
        }),
{
    lemma_least();
    lemma_num_whole(1000);
    lemma_sub(flat, radius_km);
    let d = num(flat - radius_km);
    assert(size(d * 1000real) <= 2000002000real);
    lemma_mul(flat - radius_km, whole(1000));
}

/// What room says of a change of height.
#[verifier::rlimit(50)]
proof fn lemma_room_along(k: real, n: real, t: real, out: real, high: real)
    requires
        1real / 1000000real <= t <= 1000real,
        high >= 0real,
        about(k, 1000real * out, size(out) / 1000000000000real + 1real / 1000000000000000real),
        about(4real * (n * t), 5real * high, high / 10000000000real + 1real / 10000000000real),
    ensures
        n <= k ==> is_enough(high, t, out),
        is_ample(high, t, out) ==> n <= k,
{
    let e = 1real / 1000000000000000real;
    let (kt, nt, et) = (k * t, n * t, e * t);
    let (up, down) = (out + size(out) / 1000000000000real, out - size(out) / 1000000000000real);
    let (ut, dt) = (t * up, t * down);
    assert(0real <= et <= 1real / 1000000000000real) by (nonlinear_arith)
        requires
            et == e * t,
            e == 1real / 1000000000000000real,
            0real < t <= 1000real,
    ;
    assert(k <= 1000real * up + e && 1000real * down - e <= k);
    assert(kt <= 1000real * ut + et && 1000real * dt - et <= kt) by (nonlinear_arith)
        requires
            k <= 1000real * up + e,
            1000real * down - e <= k,
            kt == k * t,
            ut == t * up,
            dt == t * down,
            et == e * t,
            t > 0real,
    ;
    assert(n <= k ==> nt <= kt) by (nonlinear_arith)
        requires
            nt == n * t,
            kt == k * t,
            t > 0real,
    ;
    assert(n > k ==> nt > kt) by (nonlinear_arith)
        requires
            nt == n * t,
            kt == k * t,
            t > 0real,
    ;
}

/// A change of height fits where both ends leave enough room, and only there.
pub proof fn law_climb_fits_where_there_is_room<C: Fn(Calc) -> Scalar>(
    calc: C,
    center: Vertex,
    radius_km: Scalar,
    start: Geo,
    target: Geo,
    alt_m: Scalar,
    pass: Scalar,
    max_climb_deg: Scalar,
)
    requires
        moderate(alt_m) && moderate(pass),
        climbs(calc, max_climb_deg),
        measured(calc, center, radius_km, start) && measured(calc, center, radius_km, target),
    ensures
        ({
            let tan = num(image(calc, Calc::Tan(radians(max_climb_deg))));
            let high = size(num(alt_m) - num(pass));
            let (o, i) = (
                outside_km(calc, center, radius_km, start),
                outside_km(calc, center, radius_km, target),
            );
            let fits = climb_fits(
                calc,
                center,
                radius_km,
                start,
                target,
                alt_m,
                pass,
                max_climb_deg,
            );
            &&& fits ==> is_enough(high, tan, o) && is_enough(high, tan, i)
            &&& is_ample(high, tan, o) && is_ample(high, tan, i) ==> fits
        }),
{
    let tan = num(image(calc, Calc::Tan(radians(max_climb_deg))));
    let high = size(num(alt_m) - num(pass));
    let need = climb_distance_m(calc, alt_m, pass, max_climb_deg);
    let f = flat_km(calc, center[0], center[1], start.lon, start.lat);
    let g = flat_km(calc, center[0], center[1], target.lon, target.lat);
    lemma_need(calc, alt_m, pass, max_climb_deg);
    lemma_room(f, radius_km);
    lemma_room(g, radius_km);
    let (k, l) = ((f - radius_km) * whole(1000), (g - radius_km) * whole(1000));
    lemma_order(need, k);
    lemma_order(need, l);
    lemma_room_along(
        num(k),
        num(need),
        tan,
        outside_km(calc, center, radius_km, start),
        high,
    );
    lemma_room_along(
        num(l),
        num(need),
        tan,
        outside_km(calc, center, radius_km, target),
        high,
    );
}

/// An end of a band, moved.
proof fn lemma_moved(x: Scalar)
    requires
        x.finite() && size(num(x)) <= 900000real,
    ensures
        moderate(x - whole(500)) && moderate(x + whole(500)),
        about(num(x - whole(500)), num(x) - 500real, 1real / 1000000000real),
        about(num(x + whole(500)), num(x) + 500real, 1real / 1000000000real),
{
    lemma_least();
    lemma_num_whole(500);
    lemma_sub(x, whole(500));
    lemma_add(x, whole(500));
}

/// Whether a zone is a circle with a band of usual heights.
pub open spec fn banded_circle(z: Zone) -> bool {
    &&& z.shape is Circle
    &&& z.alt_min_m is Some && z.alt_min_m->0.finite() && size(num(z.alt_min_m->0)) <= 900000real
    &&& z.alt_max_m is Some && z.alt_max_m->0.finite() && size(num(z.alt_max_m->0)) <= 900000real
}

/// Where a height is given for passing a round zone, it is 500 metres below the band or
/// above it, and both the start and the target lie outside the circle by at least the
/// change of height over the slope of the climb, with a quarter to spare.
#[verifier::rlimit(50)]
pub proof fn law_passed_zone_leaves_room<
    C: Fn(Calc) -> Scalar,
    T: Fn((Scalar, Scalar)) -> Sample,
>(
    calc: C,
    ground: Option<&T>,
    z: Zone,
    center: Vertex,
    radius_km: Scalar,
    p: Performance,
    start: Geo,
    target: Geo,
    raw: Seq<PathPoint>,
    band: Option<(int, int)>,
)
    requires
        banded_circle(z),
        z.shape == (ZoneShape::Circle { center, radius_km }),
        moderate(p.alt_m),
        climbs(calc, p.max_climb_deg),
        measured(calc, center, radius_km, start) && measured(calc, center, radius_km, target),
        pass_height(calc, ground, z, p, start, target, raw, band) is Some,
    ensures
        ({
            let h = num(pass_height(calc, ground, z, p, start, target, raw, band)->0);
            let tan = num(image(calc, Calc::Tan(radians(p.max_climb_deg))));
            let high = size(num(p.alt_m) - h);
            &&& is_enough(high, tan, outside_km(calc, center, radius_km, start))
            &&& is_enough(high, tan, outside_km(calc, center, radius_km, target))
            &&& about(h, num(z.alt_min_m->0) - 500real, 1real / 1000000000real) && h >= 0real
                || about(h, num(z.alt_max_m->0) + 500real, 1real / 1000000000real) && (
            p.ceiling_m is Some && p.ceiling_m->0.finite() ==> h <= num(p.ceiling_m->0))
        }),
{
    lemma_moved(z.alt_min_m->0);
    lemma_moved(z.alt_max_m->0);
    lemma_num_whole(0);
    let h = pass_height(calc, ground, z, p, start, target, raw, band)->0;
    law_climb_fits_where_there_is_room(
        calc,
        center,
        radius_km,
        start,
        target,
        p.alt_m,
        h,
        p.max_climb_deg,
    );
    lemma_order(whole(0), h);
    if p.ceiling_m is Some {
        lemma_order(h, p.ceiling_m->0);
    }
}

/// A round zone is passed where there is ample room: above it under the ceiling, and
/// below it, rather than above, where no terrain is given and the height is not below
/// zero.
#[verifier::rlimit(50)]
pub proof fn law_zone_with_room_is_passed<
    C: Fn(Calc) -> Scalar,
    T: Fn((Scalar, Scalar)) -> Sample,
>(
    calc: C,
    ground: Option<&T>,
    z: Zone,
    center: Vertex,
    radius_km: Scalar,
    p: Performance,
    start: Geo,
    target: Geo,
    raw: Seq<PathPoint>,
    band: Option<(int, int)>,
    below: bool,
    high: real,
)
    requires
        banded_circle(z),
        z.shape == (ZoneShape::Circle { center, radius_km }),
        moderate(p.alt_m),
        climbs(calc, p.max_climb_deg),
        measured(calc, center, radius_km, start) && measured(calc, center, radius_km, target),
        ({
            let level = if below {
                num(z.alt_min_m->0) - 500real
            } else {
                num(z.alt_max_m->0) + 500real
            };
            let tan = num(image(calc, Calc::Tan(radians(p.max_climb_deg))));
            &&& high == size(num(p.alt_m) - level) + 1real / 1000000000real
            &&& is_ample(high, tan, outside_km(calc, center, radius_km, start))
            &&& is_ample(high, tan, outside_km(calc, center, radius_km, target))
            &&& below ==> ground is None && level >= 0real
            &&& !below && p.ceiling_m is Some ==> p.ceiling_m->0.finite() && level + 1real
                / 1000000000real <= num(p.ceiling_m->0)
        }),
    ensures
        pass_height(calc, ground, z, p, start, target, raw, band) is Some,
        below ==> about(
            num(pass_height(calc, ground, z, p, start, target, raw, band)->0),
            num(z.alt_min_m->0) - 500real,
            1real / 1000000000real,
        ),
{
    lemma_moved(z.alt_min_m->0);
    lemma_moved(z.alt_max_m->0);
    lemma_num_whole(0);
    lemma_num_whole(500);
    let h = if below {
        height_below(z)
    } else {
        height_above(z)
    };
    let tan = num(image(calc, Calc::Tan(radians(p.max_climb_deg))));
    let own = size(num(p.alt_m) - num(h));
    assert(own <= high);
    law_climb_fits_where_there_is_room(
        calc,
        center,
        radius_km,
        start,
        target,
        p.alt_m,
        h,
        p.max_climb_deg,
    );
    assert(climb_fits(calc, center, radius_km, start, target, p.alt_m, h, p.max_climb_deg));
    if below {
        let lo = z.alt_min_m->0;
        lemma_order(h, lo);
        lemma_lower(lo);
        lemma_order(whole(0), h);
    } else if p.ceiling_m is Some {
        lemma_order(h, p.ceiling_m->0);
    }
}

/// 500 metres off a height are not below zero where the height is not below 500.
proof fn lemma_lower(x: Scalar)
    requires
        x.finite() && size(num(x)) <= 900000real,
        num(x) >= 500real,
    ensures
        num(x - whole(500)) >= 0real,
{
    lemma_num_whole(500);
    lemma_num_whole(0);
    lemma_order(whole(500), x);
    let c = whole(500).opposite();
    assert(c.magnitude_bits() == whole(500).magnitude_bits());
    assert(c.value() == -whole(500).value());
    lemma_num(whole(0));
    crate::detection::lemma_sums_in_order(whole(0), whole(0), x, c);
    crate::order::law_sum_not_below(whole(0), whole(0));
    lemma_num(x - whole(500));
}

/// An aircraft that hardly climbs passes no zone at another height.
pub proof fn law_no_climb_no_pass<C: Fn(Calc) -> Scalar, T: Fn((Scalar, Scalar)) -> Sample>(
    calc: C,
    ground: Option<&T>,
    z: Zone,
    center: Vertex,
    radius_km: Scalar,
    p: Performance,
    start: Geo,
    target: Geo,
    raw: Seq<PathPoint>,
    band: Option<(int, int)>,
)
    requires
        z.shape == (ZoneShape::Circle { center, radius_km }),
        measured(calc, center, radius_km, start),
        p.max_climb_deg.finite() && 1000real * num(p.max_climb_deg) <= 99real,
    ensures
        pass_height(calc, ground, z, p, start, target, raw, band) is None,
{
    lemma_least();
    lemma_num_frac(1, 10);
    lemma_order(frac(1, 10), p.max_climb_deg);
    assert(!(p.max_climb_deg > frac(1, 10)));
    let f = flat_km(calc, center[0], center[1], start.lon, start.lat);
    lemma_room(f, radius_km);
    let k = (f - radius_km) * whole(1000);
    lemma_absolute_value(k);
    lemma_magnitude_monotone(k.magnitude_bits(), INFINITY_BITS as int);
    assert(!(k >= infinity()));
}

} // verus!
