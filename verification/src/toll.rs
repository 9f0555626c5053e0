//! What cells cost beside walls and in reach of radars.

use crate::cell::lemma_step_small;
use crate::cost::{band_factor, common_cost, nearest_step, single, SINGLE_END, SINGLE_STEP};
use crate::ends::{lemma_absolute_value, lemma_signed_value};
use crate::exact::{
    about, far, least, lemma_add, lemma_least, lemma_num, lemma_sub, lemma_units, num, part, size,
};
use crate::field::crossing_cost;
use crate::margin::{lemma_step_size, lemma_steps_grow, power_pattern, step_size};
use crate::numeric::{frac, whole};
use crate::passage::infinity;
use crate::ring::{
    lemma_bound, lemma_is, lemma_minus, lemma_product, lemma_quotient, lemma_turn, prod,
};
use crate::scalar::{lemma_magnitude_monotone, magnitude_value, Scalar};
use crate::terrain::Sample;
use crate::values::{lemma_num_frac, lemma_num_whole};
use vstd::arithmetic::power2::pow2;
use vstd::prelude::*;

verus! {

/// Some steps up from a pattern.
proof fn lemma_steps_up(m: int, k: int)
    requires
        0 <= m,
        0 <= k,
    ensures
        magnitude_value(m) <= magnitude_value(m + k),
        magnitude_value(m + k) - magnitude_value(m) <= k * step_size(m + k),
    decreases k,
{
    if k > 0 {
        lemma_steps_up(m, k - 1);
        lemma_step_size(m + k - 1);
        lemma_steps_grow(m + k - 1, m + k);
        let (s, t) = (step_size(m + k - 1), step_size(m + k));
        assert((k - 1) * s + s <= k * t) by (nonlinear_arith)
            requires
                0 < s <= t,
                k >= 1,
        ;
    } else {
        assert(0 * step_size(m) == 0);
    }
}

/// Two patterns at most half a step of single precision apart.
proof fn lemma_near_patterns(m: int, n: int)
    requires
        0 <= m,
        0 <= n,
        -0x1000_0000 <= n - m <= 0x1000_0000,
    ensures
        ({
            let (x, y) = (magnitude_value(m), magnitude_value(n));
            let top = if x > y {
                x
            } else {
                y
            };
            crate::arith::absolute(x - y) * 0x100_0000 <= top + 0x10_0000_0000_0000
        }),
{
    let (lo, hi) = if m <= n {
        (m, n)
    } else {
        (n, m)
    };
    lemma_steps_up(lo, hi - lo);
    lemma_step_small(hi);
    lemma_step_size(hi);
    let (s, d, v) = (step_size(hi), magnitude_value(hi) - magnitude_value(lo), magnitude_value(hi));
    let k = hi - lo;
    assert(d <= 0x1000_0000 * s) by (nonlinear_arith)
        requires
            d <= k * s,
            0 <= k <= 0x1000_0000,
            s > 0,
    ;
    if hi > 0 {
        lemma_magnitude_monotone(0, hi);
    }
    assert(magnitude_value(0) == 0);
}

/// Rounding to single precision moves a number by a part in eight million at most.
#[verifier::rlimit(50)]
pub proof fn lemma_single(x: Scalar)
    requires
        x.finite(),
        size(num(x)) <= 1000000000000000000000000000000real,
    ensures
        single(x).finite(),
        about(num(single(x)), num(x), size(num(x)) / 8000000real + 1real / 1000000000000real),
{
    lemma_least();
    lemma_units();
    lemma_absolute_value(x);
    lemma_num(x);
    let m = x.magnitude_bits();
    let s: int = SINGLE_STEP as int;
    let q = m / s;
    let n = nearest_step(m) * s;
    assert(-0x1000_0000 <= n - m <= 0x1000_0000) by (nonlinear_arith)
        requires
            s == 0x2000_0000,
            q == m / s,
            (n == q * s && 2 * (m % s) <= s) || (n == (q + 1) * s && 2 * (m % s) >= s),
    ;
    assert(n >= 0) by (nonlinear_arith)
        requires
            s == 0x2000_0000,
            m >= 0,
            q == m / s,
            n == q * s || n == (q + 1) * s,
    ;
    let u = pow2(1074) as real;
    let xv = magnitude_value(m) as real;
    assert(size(num(x)) * u == xv) by (nonlinear_arith)
        requires
            num(x) * u == x.value() as real,
            x.value() as real == xv || x.value() as real == -xv,
            xv >= 0real,
            u > 0real,
    ;
    assert(xv <= 1267650600228229401496703205376real * u) by (nonlinear_arith)
        requires
            size(num(x)) * u == xv,
            size(num(x)) <= 1000000000000000000000000000000real,
            u > 0real,
    ;
    let p = power_pattern(1122);
    if m > p {
        lemma_magnitude_monotone(p, m);
    }
    assert(m <= p);
    assert(p == 1123 * 0x10_0000_0000_0000);
    assert(n < SINGLE_END);
    lemma_signed_value(single(x), x.negative(), n);
    lemma_num(single(x));
    lemma_near_patterns(m, n);
    let (a, b) = (num(x), num(single(x)));
    let yv = magnitude_value(n) as real;
    assert(size(b - a) * u == size(yv - xv)) by (nonlinear_arith)
        requires
            (a * u == xv && b * u == yv) || (a * u == -xv && b * u == -yv),
            u > 0real,
    ;
    let d = size(yv - xv);
    assert(d * 16777216real <= xv + d + 4503599627370496real);
    let e = size(b - a);
    let l = least();
    assert(l * u == 1real) by (nonlinear_arith)
        requires
            l == 1real / u,
            u > 0real,
    ;
    let z = e * 16777215real - size(a) - 4503599627370496real * l;
    assert(z * u <= 0real) by (nonlinear_arith)
        requires
            z == e * 16777215real - size(a) - 4503599627370496real * l,
            e * u == d,
            size(a) * u == xv,
            l * u == 1real,
            d * 16777216real <= xv + d + 4503599627370496real,
    ;
    assert(z <= 0real) by (nonlinear_arith)
        requires
            z * u <= 0real,
            u > 0real,
    ;
}

/// A bound on one of two factors.
proof fn lemma_at_most_factor(q: real, s: real, c: real)
    requires
        s > 0real,
        prod(s, q) <= prod(s, c),
    ensures
        q <= c,
{
    lemma_minus(s, c, q);
    crate::crossing::lemma_sign(s, c - q);
    crate::crossing::lemma_sign(s, q - c);
    lemma_minus(s, q, c);
}

/// How far into a band a cell lies.
#[verifier::rlimit(50)]
proof fn lemma_share_of_band(d: int, width: int)
    requires
        1 <= d <= width <= 900_000,
    ensures
        ({
            let share = single(single(single(whole(d)) - whole(1)) / single(whole(width)));
            &&& share.finite()
            &&& size(num(share)) <= 12real / 10real
            &&& about(
                prod(width as real, num(share)),
                d as real - 1real,
                (width as real) / 1000000real,
            )
        }),
{
    lemma_least();
    lemma_num_whole(d);
    lemma_num_whole(width);
    lemma_num_whole(1);
    let (dr, w) = (d as real, width as real);
    lemma_single(whole(d));
    lemma_single(whole(width));
    let (sd, sw) = (single(whole(d)), single(whole(width)));
    lemma_sub(sd, whole(1));
    lemma_single(sd - whole(1));
    let a = single(sd - whole(1));
    let (ar, s) = (num(a), num(sw));
    assert(about(ar, dr - 1real, dr / 3000000real));
    let small = 1real / 2real;
    lemma_is(far(), small);
    lemma_quotient(a, sw, small);
    let q = num(a / sw);
    lemma_turn(q, s);
    let top = 11real / 10real;
    lemma_turn(s, top);
    lemma_is(top, s);
    lemma_at_most_factor(q, s, top);
    lemma_turn(s, 1real / 10real);
    lemma_is(1real / 10real, s);
    lemma_minus(s, 0real, q);
    crate::crossing::lemma_sign(s, 0real);
    lemma_at_most_factor(0real - q, s, 1real / 10real);
    lemma_single(a / sw);
    let share = num(single(a / sw));
    // share w == q s + q (w - s) + (share - q) w.
    let e = w / 7000000real;
    lemma_bound(q, w - s, top, e);
    lemma_is(top, e);
    lemma_minus(q, w, s);
    let f = 1real / 7000000real;
    lemma_bound(w, share - q, w, f);
    lemma_turn(w, f);
    lemma_is(f, w);
    lemma_minus(w, share, q);
    lemma_turn(w, q);
}

/// The factor of a cell in the band beside a wall is half as much again at the wall, and
/// falls evenly to the end of the band; but for a part in 200000.
#[verifier::rlimit(50)]
pub proof fn law_band_factor_falls_evenly(d: int, width: int)
    requires
        1 <= d <= width <= 900_000,
    ensures
        band_factor(d, width).finite(),
        about(
            2real * prod(width as real, num(band_factor(d, width))),
            3real * (width as real) - (d as real - 1real),
            (width as real) / 200000real,
        ),
        1real - 1real / 100000real <= num(band_factor(d, width)) <= 15real / 10real + 1real
            / 100000real,
{
    lemma_least();
    lemma_num_whole(1);
    lemma_share_of_band(d, width);
    let share = single(single(single(whole(d)) - whole(1)) / single(whole(width)));
    let (w, sh) = (width as real, num(share));
    lemma_sub(whole(1), share);
    lemma_single(whole(1) - share);
    let t = single(whole(1) - share);
    lemma_half(t);
    let h = single(frac(1, 2) * t);
    lemma_add(whole(1), h);
    lemma_single(whole(1) + h);
    let b = num(band_factor(d, width));
    let off = 2real * b - (3real - sh);
    assert(size(off) <= 1real / 400000real);
    // Times the width.
    let f = 1real / 400000real;
    lemma_bound(w, off, w, f);
    lemma_turn(w, f);
    lemma_is(f, w);
    lemma_minus(w, 2real * b, 3real - sh);
    lemma_minus(w, 3real, sh);
    lemma_turn(w, 3real);
    lemma_is(3real, w);
    crate::ring::lemma_plus(w, b, b);
    assert(b + b == 2real * b);
    // The share lies between nothing and one, nearly.
    lemma_turn(w, 500001real / 500000real);
    lemma_is(500001real / 500000real, w);
    lemma_at_most_factor(sh, w, 500001real / 500000real);
    lemma_turn(w, 1real / 500000real);
    lemma_is(1real / 500000real, w);
    lemma_minus(w, 0real, sh);
    crate::crossing::lemma_sign(w, 0real);
    lemma_at_most_factor(0real - sh, w, 1real / 500000real);
}

/// Half of a number, in single precision.
#[verifier::rlimit(50)]
proof fn lemma_half(t: Scalar)
    requires
        t.finite(),
        size(num(t)) <= 3real,
    ensures
        single(frac(1, 2) * t).finite(),
        about(2real * num(single(frac(1, 2) * t)), num(t), 1real / 1000000real),
        size(num(single(frac(1, 2) * t))) <= 2real,
{
    lemma_least();
    lemma_num_frac(1, 2);
    let (f, two, l) = (num(frac(1, 2)), 2int as real, least());
    assert(two == 2real && 1int as real == 1real);
    let (ft, lt) = (f * two, l * two);
    assert(ft == 2real * f && lt == 2real * l) by (nonlinear_arith)
        requires
            ft == f * two,
            lt == l * two,
            two == 2real,
    ;
    let half = 1real / 2real;
    let e = 1real / 1000000000000000real;
    lemma_bound(num(t), f - half, 3real, e);
    lemma_is(3real, e);
    lemma_minus(num(t), f, half);
    lemma_turn(num(t), f);
    lemma_turn(num(t), half);
    lemma_is(half, num(t));
    lemma_product(frac(1, 2), t);
    lemma_single(frac(1, 2) * t);
}

/// A product in single precision.
#[verifier::rlimit(50)]
proof fn lemma_single_product(a: Scalar, b: Scalar, x: real, y: real)
    requires
        a.finite() && b.finite(),
        1real <= x <= 10real,
        1real <= y <= 1000000000000real,
        about(num(a), x, x / 50000real),
        about(num(b), y, y / 50000real),
    ensures
        single(a * b).finite(),
        prod(x, y) >= 1real,
        about(num(single(a * b)), prod(x, y), prod(x, y) / 20000real),
{
    lemma_least();
    let (p, q, xy) = (num(a), num(b), prod(x, y));
    lemma_is(x, y);
    assert(x * y >= 1real) by (nonlinear_arith)
        requires
            x >= 1real,
            y >= 1real,
    ;
    lemma_bound(x, y, 10real, 1000000000000real);
    lemma_is(10real, 1000000000000real);
    // p q == x y + (p - x) q + x (q - y).
    let yy = y + y / 50000real;
    lemma_bound(q, p - x, yy, x / 50000real);
    lemma_bound(x, q - y, x, y / 50000real);
    lemma_parts(x, y);
    lemma_minus(q, p, x);
    lemma_minus(x, q, y);
    lemma_turn(q, p);
    lemma_turn(q, x);
    assert(about(prod(p, q), xy, xy / 24000real));
    lemma_product(a, b);
    lemma_single(a * b);
}

proof fn lemma_parts(x: real, y: real)
    ensures
        prod(x, y / 50000real) == prod(x, y) / 50000real,
        prod(y + y / 50000real, x / 50000real) == prod(x, y) / 50000real + prod(x, y)
            / 2500000000real,
{
    lemma_is(x, y / 50000real);
    lemma_is(x, y);
    lemma_is(y + y / 50000real, x / 50000real);
    assert(x * (y / 50000real) == (x * y) / 50000real) by (nonlinear_arith);
    assert((y + y / 50000real) * (x / 50000real) == (x * y) / 50000real + (x * y) / 2500000000real)
        by (nonlinear_arith);
}

/// What a cell costs before walls and radars count: one on land and water, five where
/// nothing is known.
pub open spec fn base_cost(ground: Sample) -> real {
    match ground {
        Sample::NoData | Sample::OutOfBounds => 5real,
        _ => 1real,
    }
}

/// A cell that is open costs its ground times the factor of its radar, but for a part in
/// 20000; a wall and forbidden ground cost infinity.
pub proof fn law_radar_multiplies_cost(ground: Sample, width: int, radar: Option<Scalar>)
    requires
        radar is Some ==> radar->0.finite() && 1real <= num(radar->0) <= 1000000000000real,
    ensures
        common_cost(ground, true, 0, width, radar) == infinity(),
        ground is Forbidden ==> common_cost(ground, false, 0, width, radar) == infinity(),
        ground !is Forbidden ==> ({
            let cost = common_cost(ground, false, 0, width, radar);
            let due = if radar is Some {
                prod(base_cost(ground), num(radar->0))
            } else {
                base_cost(ground)
            };
            cost.finite() && due >= 1real && about(num(cost), due, due / 20000real)
        }),
{
    lemma_num_whole(1);
    lemma_num_whole(5);
    if radar is Some && ground !is Forbidden {
        let base = crossing_cost(ground)->0;
        lemma_single(radar->0);
        lemma_single_product(base, single(radar->0), base_cost(ground), num(radar->0));
    }
}

/// A cell in the band beside a wall costs its ground times the factor of the band.
#[verifier::rlimit(50)]
pub proof fn law_band_multiplies_cost(ground: Sample, d: int, width: int, b: real)
    requires
        1 <= d <= width <= 900_000,
        ground !is Forbidden,
        2real * prod(width as real, b) == 3real * (width as real) - (d as real - 1real),
    ensures
        1real <= b <= 15real / 10real,
        ({
            let cost = common_cost(ground, false, d, width, None);
            &&& cost.finite()
            &&& about(
                num(cost),
                prod(base_cost(ground), b),
                prod(base_cost(ground), b) / 20000real,
            )
        }),
{
    lemma_num_whole(1);
    lemma_num_whole(5);
    law_band_factor_falls_evenly(d, width);
    let (w, f) = (width as real, num(band_factor(d, width)));
    // The factor is the one that was given.
    let (one, top) = (1real, 15real / 10real);
    lemma_turn(w, one);
    lemma_is(one, w);
    lemma_turn(w, top);
    lemma_is(top, w);
    lemma_at_most_factor(one, w, b);
    lemma_at_most_factor(b, w, top);
    let e = 1real / 400000real;
    lemma_turn(w, e);
    lemma_is(e, w);
    lemma_minus(w, f, b);
    lemma_minus(w, b, f);
    lemma_at_most_factor(f - b, w, e);
    lemma_at_most_factor(b - f, w, e);
    lemma_single_product(crossing_cost(ground)->0, band_factor(d, width), base_cost(ground), b);
}

} // verus!
