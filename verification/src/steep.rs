//! No leg of a fixed wing's route that is accepted is steeper than its climb.

use crate::config::AircraftType;
use crate::detection::lemma_products_in_order;
use crate::ends::lemma_absolute_value;
use crate::exact::{
    about, least, lemma_div, lemma_least, lemma_num, lemma_order, lemma_sub, num, part, size,
};
use crate::geometry::{degrees, hypotenuse, PI_BITS};
use crate::numeric::{frac, whole};
use crate::options::{LocalProjection, SmoothOptions};
use crate::oracle::{image, Calc};
use crate::path::PathPoint;
use crate::plane::{lemma_hypotenuse, lemma_square_sign};
use crate::ring::{lemma_bound, lemma_is, lemma_minus, lemma_product, lemma_turn, prod};
use crate::room::lemma_height;
use crate::scalar::{Scalar, FRACTION_LIMIT};
use crate::spacing::moderate;
use crate::terrain::Sample;
use crate::values::{lemma_num_frac, lemma_num_whole};
use crate::verify::{climb_of, law_accepted_route_is_flyable, route_findings, VerifyContext};
use vstd::arithmetic::power2::{lemma2_to64, lemma_pow2_adds, lemma_pow2_pos, pow2};
use vstd::prelude::*;

verus! {

/// Factors may change places.
proof fn lemma_factors(a: Scalar, b: Scalar)
    ensures
        a * b == b * a,
{
    reveal(Scalar::times);
    let (x, y) = (crate::arith::absolute(a.value()), crate::arith::absolute(b.value()));
    assert(x * y == y * x) by (nonlinear_arith);
}

/// Degrees in a radian.
proof fn lemma_radian()
    ensures
        (whole(180) / Scalar { bits: PI_BITS }).finite(),
        (whole(180) / Scalar { bits: PI_BITS }).value() >= 0,
{
    let pi = Scalar { bits: PI_BITS };
    let f: int = FRACTION_LIMIT as int;
    assert(PI_BITS as int / f == 1024);
    lemma2_to64();
    lemma_pow2_adds(1, 1074);
    lemma_pow2_adds(52, 1023);
    vstd::arithmetic::power2::lemma2_to64_rest();
    lemma_pow2_pos(1023);
    lemma_pow2_pos(1074);
    let r = PI_BITS as int % f;
    let p = pow2(1023) as int;
    assert((f + r) * p >= f * p) by (nonlinear_arith)
        requires
            r >= 0,
            p > 0,
    ;
    assert(pi.value() >= 2 * pow2(1074));
    lemma_num(pi);
    lemma_least();
    let (x, u) = (num(pi), pow2(1074) as real);
    assert(x >= 2real) by (nonlinear_arith)
        requires
            x * u >= 2real * u,
            u > 0real,
    ;
    lemma_num_whole(180);
    lemma_div(whole(180), pi);
    crate::spacing::lemma_no_sign(whole(180), pi);
    lemma_absolute_value(whole(180) / pi);
}

/// Degrees are in the order of radians.
proof fn lemma_degrees_in_order(a: Scalar, b: Scalar)
    requires
        a.finite() && b.finite(),
        0 <= a.value() <= b.value(),
    ensures
        !degrees(a).nan() && !degrees(b).nan(),
        degrees(a).value() <= degrees(b).value(),
{
    lemma_radian();
    let c = whole(180) / Scalar { bits: PI_BITS };
    lemma_factors(a, c);
    lemma_factors(b, c);
    lemma_products_in_order(c, a, b);
}

/// A coordinate in the plane round a place.
#[verifier::rlimit(50)]
proof fn lemma_in_plane(x: Scalar, c: Scalar, k: Scalar)
    requires
        x.finite() && c.finite() && k.finite(),
        size(num(x)) <= 400real && size(num(c)) <= 400real && size(num(k)) <= 1real,
    ensures
        ((x - c) * k * whole(111_320)).finite(),
        about(
            num((x - c) * k * whole(111_320)),
            111320real * prod(num(k), num(x) - num(c)),
            1real / 5000000real,
        ),
{
    lemma_least();
    lemma_num_whole(111_320);
    assert(num(whole(111_320)) == 111320real);
    lemma_sub(x, c);
    let (d, b, kr) = (num(x - c), num(x) - num(c), num(k));
    let e = 1real / 5000000000000real;
    lemma_bound(kr, d - b, 1real, e);
    lemma_is(1real, e);
    lemma_minus(kr, d, b);
    lemma_bound(kr, b, 1real, 800real);
    lemma_is(1real, 800real);
    lemma_turn(kr, d);
    lemma_product(x - c, k);
    let m = num((x - c) * k);
    lemma_is(111320real, m);
    lemma_turn(111320real, m);
    lemma_product((x - c) * k, whole(111_320));
}

/// A coordinate in the plane that is not shortened.
proof fn lemma_in_plane_north(x: Scalar, c: Scalar)
    requires
        x.finite() && c.finite(),
        size(num(x)) <= 400real && size(num(c)) <= 400real,
    ensures
        ((x - c) * whole(111_320)).finite(),
        about(
            num((x - c) * whole(111_320)),
            111320real * (num(x) - num(c)),
            1real / 5000000real,
        ),
{
    lemma_least();
    lemma_num_whole(111_320);
    assert(num(whole(111_320)) == 111320real);
    lemma_sub(x, c);
    let d = num(x - c);
    lemma_is(111320real, d);
    lemma_turn(111320real, d);
    lemma_product(x - c, whole(111_320));
}

/// Whether the angle of a slope is told, and that of no steeper one is less.
pub open spec fn told_slope<C: Fn(Calc) -> Scalar>(calc: C, steep: Scalar) -> bool {
    let angle = image(calc, Calc::Atan(steep));
    &&& steep.finite() && num(steep) >= 0real
    &&& angle.finite() && angle.value() >= 0
    &&& forall|x: Scalar|
        x.finite() && steep.value() <= x.value() ==> (#[trigger] image(
            calc,
            Calc::Atan(x),
        )).finite() && angle.value() <= image(calc, Calc::Atan(x)).value()
}

/// Whether a number is one of degrees.
pub open spec fn degree(x: Scalar) -> bool {
    x.finite() && size(num(x)) <= 400real
}

/// Whether `h` is the way of a leg over the ground, 111320 metres for each degree and
/// longitudes shortened by `k`; by its square, but for a part in 5e11 and 4 square metres.
pub open spec fn is_leg_way(h: real, a: PathPoint, b: PathPoint, k: real) -> bool {
    let x = 111320real * prod(k, num(b.lon) - num(a.lon));
    let y = 111320real * (num(b.lat) - num(a.lat));
    let d = prod(x, x) + prod(y, y);
    h >= 0real && about(prod(h, h), d, d / 500000000000real + 4real)
}

/// The square of a number that is nearly known.
proof fn lemma_square_off(x: real, y: real)
    requires
        about(x, y, 1real / 1000000real),
        size(y) <= 900000real,
    ensures
        about(prod(x, x), prod(y, y), 19real / 10real),
        size(x) <= 1000000real,
{
    let e = 1real / 1000000real;
    lemma_bound(x, x - y, 900001real, e);
    lemma_bound(y, x - y, 900000real, e);
    lemma_is(900001real, e);
    lemma_is(900000real, e);
    lemma_minus(x, x, y);
    lemma_minus(y, x, y);
    lemma_turn(x, y);
}

/// The length of a leg in the plane round a place.
#[verifier::rlimit(50)]
proof fn lemma_leg<C: Fn(Calc) -> Scalar>(calc: C, mid: PathPoint, a: PathPoint, b: PathPoint)
    requires
        degree(mid.lon) && degree(mid.lat) && degree(a.lon) && degree(a.lat) && degree(b.lon)
            && degree(b.lat),
        ({
            let k = LocalProjection::round(calc, mid.lon, mid.lat).k;
            &&& k.finite() && size(num(k)) <= 1real
            &&& size(111320real * prod(num(k), num(b.lon) - num(a.lon))) <= 900000real
            &&& size(111320real * (num(b.lat) - num(a.lat))) <= 900000real
        }),
    ensures
        ({
            let proj = LocalProjection::round(calc, mid.lon, mid.lat);
            let (p, q) = (proj.plane(a.lon, a.lat), proj.plane(b.lon, b.lat));
            let h = hypotenuse(q.0 - p.0, q.1 - p.1);
            &&& h.finite() && num(h) <= 1300000real
            &&& is_leg_way(num(h), a, b, num(proj.k))
        }),
{
    lemma_least();
    let proj = LocalProjection::round(calc, mid.lon, mid.lat);
    let k = num(proj.k);
    lemma_in_plane(a.lon, mid.lon, proj.k);
    lemma_in_plane(b.lon, mid.lon, proj.k);
    lemma_in_plane_north(a.lat, mid.lat);
    lemma_in_plane_north(b.lat, mid.lat);
    let (p, q) = (proj.plane(a.lon, a.lat), proj.plane(b.lon, b.lat));
    lemma_minus(k, num(b.lon) - num(mid.lon), num(a.lon) - num(mid.lon));
    assert(num(b.lon) - num(mid.lon) - (num(a.lon) - num(mid.lon)) == num(b.lon) - num(a.lon));
    lemma_sub(q.0, p.0);
    lemma_sub(q.1, p.1);
    let (x, y) = (q.0 - p.0, q.1 - p.1);
    let bx = 111320real * prod(k, num(b.lon) - num(a.lon));
    let by = 111320real * (num(b.lat) - num(a.lat));
    lemma_square_off(num(x), bx);
    lemma_square_off(num(y), by);
    lemma_hypotenuse(x, y, num(x), num(y));
    let h = num(hypotenuse(x, y));
    lemma_bound(bx, bx, 900000real, 900000real);
    lemma_bound(by, by, 900000real, 900000real);
    lemma_is(900000real, 900000real);
    lemma_square_sign(bx);
    lemma_square_sign(by);
    lemma_is(h, h);
    assert(h <= 1300000real) by (nonlinear_arith)
        requires
            h * h <= 1690000000000real,
            h >= 0real,
    ;
}

/// A fixed wing on a route that is accepted climbs no leg more steeply than any slope
/// whose angle is above the limit: its change of height is at most that slope times the
/// way over the ground, but for rounding.
#[verifier::rlimit(50)]
pub proof fn law_accepted_leg_is_not_steep<
    C: Fn(Calc) -> Scalar,
    T: Fn((Scalar, Scalar)) -> Sample,
    N: Fn((Scalar, Scalar)) -> bool,
>(
    calc: C,
    ctx: VerifyContext<T, N>,
    opts: SmoothOptions,
    pts: Seq<PathPoint>,
    reference: Option<Seq<PathPoint>>,
    phys_min_radius_m: Option<Scalar>,
    i: int,
    steep: Scalar,
) -> (way: real)
    requires
        opts.aircraft_type == AircraftType::FixedWing,
        route_findings(calc, ctx, opts, pts, reference, phys_min_radius_m).issues.len() == 0,
        1 <= i < pts.len(),
        told_slope(calc, steep) && num(steep) <= 1000real,
        degrees(image(calc, Calc::Atan(steep))) > opts.max_climb_deg,
        moderate(pts[i - 1].alt_m) && moderate(pts[i].alt_m),
        ({
            let (mid, a, b) = (pts[pts.len() as int / 2], pts[i - 1], pts[i]);
            let k = LocalProjection::round(calc, mid.lon, mid.lat).k;
            &&& degree(mid.lon) && degree(mid.lat) && degree(a.lon) && degree(a.lat) && degree(b.lon)
                && degree(b.lat)
            &&& k.finite() && size(num(k)) <= 1real
            &&& size(111320real * prod(num(k), num(b.lon) - num(a.lon))) <= 900000real
            &&& size(111320real * (num(b.lat) - num(a.lat))) <= 900000real
        }),
    ensures
        ({
            let (mid, a, b) = (pts[pts.len() as int / 2], pts[i - 1], pts[i]);
            let k = num(LocalProjection::round(calc, mid.lon, mid.lat).k);
            let high = size(num(b.alt_m) - num(a.alt_m));
            &&& is_leg_way(way, a, b, k)
            &&& 1000000000real * way > 2real ==> high <= prod(num(steep), way) + high
                / 1000000000000real + 1real / 1000000000000real
        }),
{
    let (mid, a, b) = (pts[pts.len() as int / 2], pts[i - 1], pts[i]);
    lemma_leg(calc, mid, a, b);
    let proj = LocalProjection::round(calc, mid.lon, mid.lat);
    let (p, q) = (proj.plane(a.lon, a.lat), proj.plane(b.lon, b.lat));
    let h = hypotenuse(q.0 - p.0, q.1 - p.1);
    let way = num(h);
    if 1000000000real * way > 2real {
        law_accepted_route_is_flyable(calc, ctx, opts, pts, reference, phys_min_radius_m, i);
        lemma_billionth();
        lemma_order(frac(1, 1_000_000_000), h);
        assert(climb_of(calc, pts, i) is Some);
        lemma_height(b.alt_m, a.alt_m);
        let dh = (b.alt_m - a.alt_m).magnitude();
        lemma_least();
        lemma_slope(calc, opts.max_climb_deg, dh, h, steep);
    }
    way
}

/// A billionth is small.
pub proof fn lemma_billionth()
    ensures
        frac(1, 1_000_000_000).finite(),
        num(frac(1, 1_000_000_000)) <= 2real / 1000000000real,
{
    lemma_least();
    lemma_num_frac(1, 1_000_000_000);
    let (f, t, l) = (num(frac(1, 1_000_000_000)), 1_000_000_000int as real, least());
    assert(t == 1000000000real);
    let lt = l * t;
    assert(lt <= 1real / 1000real) by (nonlinear_arith)
        requires
            lt == l * t,
            t == 1000000000real,
            l <= 1real / 1267650600228229401496703205376real,
    ;
    assert(f <= 2real / 1000000000real) by (nonlinear_arith)
        requires
            t == 1000000000real,
            f * t <= 101real / 100real,
    ;
}

/// A slope that is not refused.
proof fn lemma_slope<C: Fn(Calc) -> Scalar>(
    calc: C,
    max: Scalar,
    dh: Scalar,
    h: Scalar,
    steep: Scalar,
)
    requires
        told_slope(calc, steep),
        degrees(image(calc, Calc::Atan(steep))) > max,
        dh.finite() && 0real <= num(dh) <= 3000000real,
        h.finite() && 1real / 1000000000real <= num(h) <= 1300000real,
        !(degrees(image(calc, Calc::Atan(dh / h))) > max),
    ensures
        num(dh) <= prod(num(steep), num(h)) + part() * num(dh) + 1real / 10000000000000real,
{
    lemma_least();
    lemma_div_by(dh, h);
    let q = dh / h;
    lemma_order(steep, q);
    if steep.value() <= q.value() {
        lemma_degrees_in_order(image(calc, Calc::Atan(steep)), image(calc, Calc::Atan(q)));
    }
    assert(num(q) < num(steep));
    lemma_turn(num(h), num(q));
    lemma_turn(num(h), num(steep));
    lemma_minus(num(h), num(steep), num(q));
    crate::crossing::lemma_sign(num(h), num(steep) - num(q));
}

proof fn lemma_div_by(dh: Scalar, h: Scalar)
    requires
        dh.finite() && 0real <= num(dh) <= 3000000real,
        h.finite() && 1real / 1000000000real <= num(h) <= 1300000real,
    ensures
        (dh / h).finite(),
        about(
            prod(num(dh / h), num(h)),
            num(dh),
            part() * num(dh) + 1real / 10000000000000real,
        ),
{
    lemma_least();
    let (x, l) = (num(h), least());
    lemma_div(dh, h);
    lemma_is(num(dh / h), x);
    let lx = l * size(x);
    assert(lx <= 1real / 10000000000000real) by (nonlinear_arith)
        requires
            lx == l * size(x),
            0real < l <= 1real / 1267650600228229401496703205376real,
            size(x) <= 1300000real,
    ;
}

} // verus!
