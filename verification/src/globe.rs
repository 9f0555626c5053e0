//! Distances on the globe along a meridian.

use crate::ends::lemma_absolute_value;
use crate::exact::{
    about, far, least, lemma_add, lemma_least, lemma_num, lemma_order, lemma_sub, num, part, size,
};
use crate::geometry::{radians, PI_BITS};
use crate::numeric::whole;
use crate::oracle::{image, Calc};
use crate::path::{haversine_term, sphere_distance_m};
use crate::plane::{lemma_part, lemma_root_near, lemma_sizes, lemma_square_sign};
use crate::ring::{
    lemma_bound, lemma_is, lemma_minus, lemma_plus, lemma_product, lemma_quotient, lemma_turn,
    prod,
};
use crate::scalar::{magnitude_value, Scalar, FRACTION_LIMIT};
use crate::values::{lemma_num_whole, lemma_root};
use vstd::arithmetic::power2::{lemma2_to64_rest, lemma_pow2_adds, lemma_pow2_pos, pow2};
use vstd::prelude::*;

verus! {

/// The number that stands for half a turn.
pub proof fn lemma_pi()
    ensures
        (Scalar { bits: PI_BITS }).finite(),
        about(
            num(Scalar { bits: PI_BITS }),
            3141592653589793real / 1000000000000000real,
            1real / 1000000000000000real,
        ),
{
    let pi = Scalar { bits: PI_BITS };
    let f: int = FRACTION_LIMIT as int;
    assert(PI_BITS as int / f == 1024 && PI_BITS as int % f == 0x9_21fb_5444_2d18);
    lemma2_to64_rest();
    lemma_pow2_adds(51, 1023);
    lemma_pow2_pos(1023);
    let p = pow2(1023) as int;
    assert(pi.value() == 7074237752028440 * p);
    lemma_num(pi);
    let (x, pr) = (num(pi), p as real);
    assert(pow2(1074) == 0x8_0000_0000_0000 * p);
    let u = pow2(1074) as real;
    assert(u == 2251799813685248real * pr);
    assert(x * (2251799813685248real * pr) == (2251799813685248real * x) * pr) by (nonlinear_arith);
    let (y, k) = (2251799813685248real * x, 7074237752028440real);
    lemma_is(pr, y);
    lemma_is(pr, k);
    lemma_minus(pr, y, k);
    assert(pr * y == y * pr) by (nonlinear_arith);
    assert(pr * k == k * pr) by (nonlinear_arith);
    crate::crossing::lemma_sign(pr, y - k);
    assert(y == k);
}

/// Half of an angle in degrees, in radians.
#[verifier::rlimit(50)]
proof fn lemma_half_angle(d: Scalar)
    requires
        d.finite(),
        size(num(d)) <= 171real,
    ensures
        (radians(d) / whole(2)).finite(),
        about(
            360real * num(radians(d) / whole(2)),
            3141592653589793real / 1000000000000000real * num(d),
            1real / 100000000000real,
        ),
{
    lemma_least();
    lemma_pi();
    lemma_num_whole(180);
    lemma_num_whole(2);
    let pi = Scalar { bits: PI_BITS };
    lemma_is(far(), 1real);
    lemma_quotient(pi, whole(180), 1real);
    let k = num(pi / whole(180));
    lemma_turn(k, 180real);
    lemma_is(180real, k);
    let c = 3141592653589793real / 180000000000000000real;
    let e = 1real / 20000000000000000real;
    assert(size(k - c) <= e);
    lemma_bound(num(d), k - c, 171real, e);
    lemma_is(171real, e);
    lemma_minus(num(d), k, c);
    lemma_turn(num(d), c);
    lemma_is(c, num(d));
    lemma_product(d, pi / whole(180));
    let r = num(radians(d));
    lemma_quotient(radians(d), whole(2), 1real);
    let h = num(radians(d) / whole(2));
    lemma_turn(h, 2real);
    lemma_is(2real, h);
}

/// Whether sines and arcs are true enough: the sine of nothing is nothing, no sine is
/// more than one, no cosine either, and the arc of a sine is the angle.
pub open spec fn true_arcs<C: Fn(Calc) -> Scalar>(calc: C) -> bool {
    &&& forall|x: Scalar|
        x.finite() ==> (#[trigger] image(calc, Calc::Sin(x))).finite() && size(
            num(image(calc, Calc::Sin(x))),
        ) <= 1real && (x.value() == 0 ==> image(calc, Calc::Sin(x)).value() == 0)
    &&& forall|x: Scalar|
        x.finite() ==> (#[trigger] image(calc, Calc::Cos(x))).finite() && size(
            num(image(calc, Calc::Cos(x))),
        ) <= 1real
    &&& forall|x: Scalar, s: Scalar| #[trigger]
        sine_of(calc, x, s) ==> image(calc, Calc::Asin(s)).finite() && about(
            num(image(calc, Calc::Asin(s))),
            size(num(x)),
            1real / 100000000000real,
        )
}

/// Whether `s` is the size of the sine of an angle up to three halves, but for 2e-14.
pub open spec fn sine_of<C: Fn(Calc) -> Scalar>(calc: C, x: Scalar, s: Scalar) -> bool {
    &&& x.finite() && size(num(x)) <= 3real / 2real
    &&& s.finite() && 0real <= num(s) <= 1real
    &&& about(num(s), size(num(image(calc, Calc::Sin(x)))), 2real / 100000000000000real)
}

/// Nothing times a number.
proof fn lemma_nothing(a: Scalar, z: Scalar)
    requires
        a.finite() && z.finite(),
        z.value() == 0,
    ensures
        (a * z).finite(),
        (a * z).value() == 0,
        (z * a).finite(),
        (z * a).value() == 0,
{
    reveal(Scalar::times);
    lemma_absolute_value(a);
    lemma_absolute_value(z);
    assert(magnitude_value(0) == 0);
    lemma_pow2_pos(1074);
    let one = pow2(1074) as int;
    let x = crate::arith::absolute(a.value());
    assert(x * 0 == 0 && 0 * x == 0);
    assert(0 * one == 0);
    crate::cell::lemma_at_most(0, one, 0);
    crate::rounding::lemma_nearest_exists(0, one);
    let m = crate::rounding::nearest(0, one);
    if m > 0 {
        crate::scalar::lemma_magnitude_monotone(0, m);
    }
    assert((a * z).magnitude_bits() == m && (z * a).magnitude_bits() == m);
}

/// What a root may be off, by its square.
#[verifier::rlimit(50)]
proof fn lemma_root_fine(r: real, e: real)
    requires
        0real <= r <= 2real,
        0real < least() <= 1real / 1267650600228229401496703205376real,
        e == part() * r + least(),
    ensures
        0real <= prod(r, e) + prod(e, e) <= prod(r, r) / 2000000000000000real + 1real
            / 100000000000000000000000000000real,
{
    let (p, l) = (part() * r, least());
    let z = 1real / 1267650600228229401496703205376real;
    lemma_plus(r, p, l);
    lemma_plus(e, p, l);
    lemma_turn(e, p);
    lemma_plus(p, p, l);
    lemma_part(r, r);
    lemma_part(p, r);
    lemma_turn(p, r);
    lemma_square_sign(r);
    lemma_square_sign(e);
    lemma_bound(r, l, 2real, z);
    lemma_bound(e, l, 2real, z);
    lemma_bound(p, l, 2real, z);
    lemma_is(2real, z);
    crate::crossing::lemma_sign(r, e);
}

/// The root of a square.
proof fn lemma_root_of_square(r: real, s: real, a: real)
    requires
        0real <= r <= 2real,
        0real <= s <= 1real,
        about(a, prod(s, s), prod(s, s) / 2000000000000000real + 1real
            / 100000000000000000000000000000real),
        0real < least() <= 1real / 1267650600228229401496703205376real,
        about(r * r, a, r * (part() * r + least()) + (part() * r + least()) * (part() * r
            + least())),
    ensures
        about(r, s, 2real / 100000000000000real),
{
    let e = part() * r + least();
    lemma_is(r, r);
    lemma_is(r, e);
    lemma_is(e, e);
    lemma_root_fine(r, e);
    lemma_roots_close(r, s, a);
}

/// Numbers whose squares are close.
#[verifier::rlimit(50)]
proof fn lemma_roots_close(r: real, s: real, a: real)
    requires
        0real <= r <= 2real,
        0real <= s <= 1real,
        about(a, prod(s, s), prod(s, s) / 2000000000000000real + 1real
            / 100000000000000000000000000000real),
        about(prod(r, r), a, prod(r, r) / 2000000000000000real + 1real
            / 100000000000000000000000000000real),
    ensures
        about(r, s, 2real / 100000000000000real),
{
    let (d, t) = (r - s, r + s);
    lemma_minus(t, r, s);
    lemma_turn(t, r);
    lemma_turn(t, s);
    lemma_plus(r, r, s);
    lemma_plus(s, r, s);
    lemma_turn(r, s);
    assert(prod(t, d) == prod(r, r) - prod(s, s));
    lemma_bound(r, r, 2real, r);
    lemma_is(2real, r);
    lemma_bound(s, s, 1real, s);
    lemma_is(1real, s);
    lemma_square_sign(r);
    lemma_square_sign(s);
    let g = size(d);
    if g > 2real / 100000000000000real {
        lemma_sizes(t, d);
        lemma_minus(t, g, 2real / 100000000000000real);
        crate::crossing::lemma_sign(t, g - 2real / 100000000000000real);
        lemma_turn(t, 2real / 100000000000000real);
        lemma_is(2real / 100000000000000real, t);
    }
}

/// Metres in a degree of a meridian: the distance of two places on one meridian is the
/// difference of their latitudes on a circle of 6371 km, but for millimetres.
#[verifier::rlimit(50)]
pub proof fn law_distance_along_meridian<C: Fn(Calc) -> Scalar>(
    calc: C,
    lon: Scalar,
    lat1: Scalar,
    lat2: Scalar,
)
    requires
        true_arcs(calc),
        lon.finite() && size(num(lon)) <= 400real,
        lat1.finite() && size(num(lat1)) <= 90real,
        lat2.finite() && size(num(lat2)) <= 90real,
        size(num(lat2) - num(lat1)) <= 170real,
    ensures
        sphere_distance_m(calc, lon, lat1, lon, lat2).finite(),
        about(
            num(sphere_distance_m(calc, lon, lat1, lon, lat2)),
            111194926645real / 1000000real * size(num(lat2) - num(lat1)),
            1real / 100real,
        ),
{
    lemma_least();
    lemma_sub(lat2, lat1);
    let d = lat2 - lat1;
    lemma_tight(d, num(lat2) - num(lat1));
    lemma_half_angle(d);
    let x = radians(d) / whole(2);
    let s_lat = image(calc, Calc::Sin(x));
    let s = size(num(s_lat));
    lemma_term(calc, lon, lat1, lat2);
    let a = haversine_term(calc, lon, lat1, lon, lat2);
    lemma_square_sign(num(s_lat));
    lemma_root(a);
    let r = num(a.root());
    lemma_small_root(a.root(), num(a));
    lemma_root_of_square(r, s, num(a));
    lemma_num_whole(1);
    lemma_order(whole(1), a.root());
    let m = a.root().smaller(whole(1));
    assert(sine_of(calc, x, m));
    lemma_arc_length(image(calc, Calc::Asin(m)), size(num(x)));
}

proof fn lemma_tight(d: Scalar, b: real)
    requires
        about(num(d), b, part() * size(b) + least()),
        size(b) <= 170real,
        0real < least() <= 1real / 1267650600228229401496703205376real,
    ensures
        about(num(d), b, 1real / 10000000000000real),
{
}

proof fn lemma_small_root(root: Scalar, a: real)
    requires
        num(root) >= 0real,
        0real <= a <= 101real / 100real,
        ({
            let r = num(root);
            let e = part() * r + least();
            about(r * r, a, r * e + e * e)
        }),
    ensures
        num(root) <= 2real,
{
    lemma_root_near(root, a);
    let r = num(root);
    lemma_minus(r, r, 2real);
    crate::crossing::lemma_sign(r, r - 2real);
    lemma_turn(r, 2real);
    lemma_is(2real, r);
}

/// The haversine sum on one meridian is a square.
#[verifier::rlimit(50)]
proof fn lemma_term<C: Fn(Calc) -> Scalar>(calc: C, lon: Scalar, lat1: Scalar, lat2: Scalar)
    requires
        true_arcs(calc),
        lon.finite() && size(num(lon)) <= 400real,
        lat1.finite() && size(num(lat1)) <= 90real,
        lat2.finite() && size(num(lat2)) <= 90real,
        (radians(lat2 - lat1) / whole(2)).finite(),
    ensures
        ({
            let s = num(image(calc, Calc::Sin(radians(lat2 - lat1) / whole(2))));
            let a = haversine_term(calc, lon, lat1, lon, lat2);
            let q = prod(size(s), size(s));
            &&& a.finite()
            &&& 0real <= num(a) <= 101real / 100real
            &&& about(num(a), q, q / 2000000000000000real + 1real
                / 100000000000000000000000000000real)
        }),
{
    lemma_least();
    let x = radians(lat2 - lat1) / whole(2);
    let s = image(calc, Calc::Sin(x));
    lemma_no_longitude(lon);
    let y = radians(lon - lon) / whole(2);
    let z = image(calc, Calc::Sin(y));
    assert(z.finite() && z.value() == 0);
    lemma_in_radians(lat1);
    lemma_in_radians(lat2);
    let (c1, c2) = (image(calc, Calc::Cos(radians(lat1))), image(calc, Calc::Cos(radians(lat2))));
    lemma_nothing(z, z);
    lemma_bound(num(c1), num(c2), 1real, 1real);
    lemma_is(1real, 1real);
    lemma_product(c1, c2);
    lemma_nothing(c1 * c2, z * z);
    let w = c1 * c2 * (z * z);
    lemma_bound(num(s), num(s), 1real, 1real);
    lemma_square_sign(num(s));
    lemma_product(s, s);
    crate::detection::lemma_square_not_negative(s);
    lemma_num(s * s);
    lemma_num(w);
    assert(num(w) == 0real);
    lemma_add(s * s, w);
    crate::order::law_sum_not_below(s * s, w);
    lemma_num(s * s + w);
}

/// The longitudes of places on one meridian do not differ.
proof fn lemma_no_longitude(lon: Scalar)
    requires
        lon.finite(),
    ensures
        (radians(lon - lon) / whole(2)).finite(),
        (radians(lon - lon) / whole(2)).value() == 0,
{
    lemma_least();
    lemma_pi();
    lemma_num_whole(180);
    lemma_num_whole(2);
    let pi = Scalar { bits: PI_BITS };
    lemma_is(far(), 1real);
    lemma_quotient(pi, whole(180), 1real);
    let c = lon.opposite();
    assert(c.magnitude_bits() == lon.magnitude_bits() && c.value() == -lon.value());
    assert((lon - lon).finite() && (lon - lon).value() == 0) by {
        reveal(Scalar::plus);
        assert(magnitude_value(0) == 0);
    }
    lemma_nothing(pi / whole(180), lon - lon);
    let r = radians(lon - lon);
    lemma_zero_over(r);
}

proof fn lemma_zero_over(r: Scalar)
    requires
        r.finite(),
        r.value() == 0,
    ensures
        (r / whole(2)).finite(),
        (r / whole(2)).value() == 0,
{
    reveal(Scalar::over);
    lemma_num_whole(2);
    lemma_num(whole(2));
    lemma_absolute_value(r);
    lemma_absolute_value(whole(2));
    assert(magnitude_value(0) == 0);
    lemma_pow2_pos(1074);
    let (n, d) = (crate::arith::absolute(r.value()) * pow2(1074), crate::arith::absolute(
        whole(2).value(),
    ));
    assert(n == 0) by (nonlinear_arith)
        requires
            n == crate::arith::absolute(r.value()) * pow2(1074),
            crate::arith::absolute(r.value()) == 0,
    ;
    assert(0 * d == 0);
    crate::cell::lemma_at_most(0, d, 0);
    crate::rounding::lemma_nearest_exists(0, d);
    crate::ends::lemma_signed_value(
        r / whole(2),
        r.negative() != whole(2).negative(),
        crate::rounding::nearest(0, d),
    );
}

/// An angle in radians is finite.
proof fn lemma_in_radians(d: Scalar)
    requires
        d.finite(),
        size(num(d)) <= 90real,
    ensures
        radians(d).finite(),
{
    lemma_least();
    lemma_pi();
    lemma_num_whole(180);
    let pi = Scalar { bits: PI_BITS };
    lemma_is(far(), 1real);
    lemma_quotient(pi, whole(180), 1real);
    let k = num(pi / whole(180));
    lemma_turn(k, 180real);
    lemma_is(180real, k);
    lemma_bound(num(d), k, 90real, 1real);
    lemma_is(90real, 1real);
    lemma_product(d, pi / whole(180));
}

/// An arc on a circle of 6371 km.
#[verifier::rlimit(50)]
proof fn lemma_arc_length(arc: Scalar, angle: real)
    requires
        arc.finite(),
        0real <= angle <= 3real / 2real,
        about(num(arc), angle, 1real / 100000000000real),
    ensures
        (whole(6_371_000) * whole(2) * arc).finite(),
        about(
            num(whole(6_371_000) * whole(2) * arc),
            12742000real * angle,
            1real / 1000real,
        ),
{
    lemma_least();
    lemma_num_whole(6_371_000);
    lemma_num_whole(2);
    lemma_is(6371000real, 2real);
    lemma_product(whole(6_371_000), whole(2));
    let m = num(whole(6_371_000) * whole(2));
    let c = 12742000real;
    assert(size(m - c) <= 1real / 100000000real);
    lemma_bound(num(arc), m - c, 2real, 1real / 100000000real);
    lemma_is(2real, 1real / 100000000real);
    lemma_minus(num(arc), m, c);
    lemma_turn(num(arc), m);
    lemma_turn(num(arc), c);
    lemma_is(c, num(arc));
    lemma_product(whole(6_371_000) * whole(2), arc);
}

} // verus!
