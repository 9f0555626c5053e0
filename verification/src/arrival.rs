//! The ends of a route after a spline or a fit.

use crate::arith::absolute;
use crate::cell::{lemma_count, lemma_one};
use crate::curves::{catmull_route, spline, spline_point, spline_route};
use crate::dubins::{pivot_path, Spot};
use crate::ends::{
    apart, grain, is_bound, law_ends_are_met_on_earth, law_samples_run_from_end_to_end,
    lemma_absolute_value, lemma_place_difference, lemma_place_sum, lemma_scale,
    lemma_signed_value, true_circle, within,
};
use crate::fit::{
    can_fit, fit_curve, fit_plane, fitted, heading_in, heading_out, lifted, plane_angle,
};
use crate::margin::{lemma_power_pattern, lemma_small_whole, power_pattern};
use crate::meridian::{lemma_exact, lemma_product, lemma_quotient};
use crate::numeric::{frac, whole};
use crate::oracle::Calc;
use crate::path::PathPoint;
use crate::rounding::{is_nearest, lemma_nearest_unique, nearest};
use crate::scalar::{lemma_magnitude_step, magnitude_value, units, Scalar, INFINITY_BITS};
use vstd::arithmetic::power2::{lemma2_to64, lemma2_to64_rest, lemma_pow2_adds, lemma_pow2_pos, pow2};
use vstd::prelude::*;

verus! {

/// A number is its own nearest, also as a fraction.
proof fn lemma_own_nearest(m: int, d: int)
    requires
        0 <= m < INFINITY_BITS,
        d > 0,
    ensures
        nearest(magnitude_value(m) * d, d) == m,
{
    let v = magnitude_value(m);
    let n = v * d;
    lemma_magnitude_step(m);
    let up = magnitude_value(m + 1);
    assert(2 * n < (v + up) * d) by (nonlinear_arith)
        requires
            n == v * d,
            v < up,
            d > 0,
    ;
    if m > 0 {
        lemma_magnitude_step(m - 1);
        let down = magnitude_value(m - 1);
        assert((down + v) * d < 2 * n) by (nonlinear_arith)
            requires
                n == v * d,
                down < v,
                d > 0,
        ;
    }
    assert(is_nearest(n, d, m));
    lemma_nearest_unique(n, d, m, m);
}

/// All of the steps are one.
proof fn lemma_all_steps(s: Scalar)
    requires
        s.finite() && !s.negative() && s.value() > 0,
    ensures
        (s / s).finite() && !(s / s).negative() && (s / s).value() == pow2(1074),
{
    reveal(Scalar::over);
    lemma_one();
    lemma_count(1);
    lemma_absolute_value(s);
    assert(magnitude_value(0) == 0);
    let one = whole(1);
    let m = one.magnitude_bits();
    assert(units(1) == pow2(1074));
    assert(magnitude_value(m) == pow2(1074));
    let v = s.value();
    lemma_own_nearest(m, v);
    assert(v * pow2(1074) == pow2(1074) * v) by (nonlinear_arith);
    lemma_signed_value(s / s, false, m);
}

/// One times a number.
proof fn lemma_once(a: Scalar, t: Scalar)
    requires
        a.finite() && t.finite() && !t.negative(),
        t.value() == pow2(1074),
    ensures
        (a * t).finite() && (a * t).value() == a.value(),
        a.negative() == (a * t).negative(),
{
    reveal(Scalar::times);
    lemma_pow2_pos(1074);
    lemma_absolute_value(a);
    let m = a.magnitude_bits();
    lemma_own_nearest(m, pow2(1074) as int);
    lemma_signed_value(a * t, a.negative(), m);
}

/// A few times a coordinate, and a sum of such, within the bound 2^`y`.
proof fn lemma_few(n: int, x: Scalar, y: nat)
    requires
        1 <= n <= 5,
        is_bound(y),
        x.finite(),
        -pow2(y) <= 16 * x.value() <= pow2(y),
    ensures
        (whole(n) * x).finite(),
        apart((whole(n) * x).value(), n * x.value(), grain(y)),
{
    lemma_exact(n);
    lemma_scale(y);
    lemma_pow2_pos(1074);
    let (one, top, g) = (pow2(1074) as int, pow2(y) as int, grain(y));
    let (w, xv) = (whole(n).value(), x.value());
    let p = w * xv;
    assert(p == one * (n * xv) && absolute(p) <= top * one) by (nonlinear_arith)
        requires
            p == w * xv,
            w == n * one,
            1 <= n <= 5,
            -top <= 16 * xv <= top,
            one > 0,
            absolute(p) == p || absolute(p) == -p,
    ;
    lemma_product(whole(n), x, y);
    let v = (whole(n) * x).value();
    assert(-g <= v - n * xv && v - n * xv <= g) by (nonlinear_arith)
        requires
            -(one * g) <= v * one - p <= one * g,
            p == one * (n * xv),
            one > 0,
    ;
}

/// The cubic of a spline ends at its last point but one, where that counts twice.
proof fn lemma_spline_end(a: Scalar, b: Scalar, c: Scalar, t: Scalar, y: nat)
    requires
        is_bound(y),
        a.finite() && b.finite() && c.finite(),
        -pow2(y) <= 16 * a.value() <= pow2(y),
        -pow2(y) <= 16 * b.value() <= pow2(y),
        -pow2(y) <= 16 * c.value() <= pow2(y),
        t.finite() && !t.negative() && t.value() == pow2(1074),
    ensures
        spline(a, b, c, c, t).finite(),
        apart(spline(a, b, c, c, t).value(), c.value(), 10 * grain(y)),
{
    lemma_scale(y);
    let g = grain(y);
    lemma_once(t, t);
    let t2 = t * t;
    lemma_once(t2, t);
    let t3 = t2 * t;
    let n = a.opposite();
    assert(n.magnitude_bits() == a.magnitude_bits());
    lemma_few(2, b, y);
    lemma_few(2, a, y);
    lemma_few(5, b, y);
    lemma_few(4, c, y);
    lemma_few(3, b, y);
    lemma_few(3, c, y);
    lemma_place_sum(n, c, y);
    let p = n + c;
    let q1 = whole(2) * a - whole(5) * b;
    lemma_place_difference(whole(2) * a, whole(5) * b, y);
    lemma_place_sum(q1, whole(4) * c, y);
    let q2 = q1 + whole(4) * c;
    lemma_place_difference(q2, c, y);
    let q = q2 - c;
    let r1 = n + whole(3) * b;
    lemma_place_sum(n, whole(3) * b, y);
    lemma_place_difference(r1, whole(3) * c, y);
    let r2 = r1 - whole(3) * c;
    lemma_place_sum(r2, c, y);
    let r = r2 + c;
    lemma_once(p, t);
    lemma_once(q, t2);
    lemma_once(r, t3);
    let u = whole(2) * b;
    lemma_place_sum(u, p * t, y);
    lemma_place_sum(u + p * t, q * t2, y);
    let v = u + p * t + q * t2;
    lemma_place_sum(v, r * t3, y);
    let w = v + r * t3;
    assert(apart(w.value(), 2 * c.value(), 16 * g));
    lemma_half(w, y);
}

/// A half.
proof fn lemma_half(w: Scalar, y: nat)
    requires
        is_bound(y),
        w.finite(),
        -pow2(y) <= 2 * w.value() <= pow2(y),
    ensures
        (frac(1, 2) * w).finite(),
        -4 * grain(y) <= 2 * (frac(1, 2) * w).value() - w.value() <= 4 * grain(y),
{
    lemma_scale(y);
    lemma_pow2_pos(1074);
    lemma_exact(1);
    lemma_exact(2);
    lemma_pow2_adds(1, 1073);
    lemma2_to64();
    let half = frac(1, 2);
    let (one, top, g) = (pow2(1074) as int, pow2(y) as int, grain(y));
    assert(2 * half.value() == one && half.finite()) by {
        reveal(Scalar::over);
        let m = power_pattern(1021);
        lemma_power_pattern(1021);
        let (v, d) = (magnitude_value(m), whole(2).value());
        assert(v == pow2(1073));
        lemma_own_nearest(m, d);
        let n = absolute(whole(1).value()) * one;
        assert(n == v * d) by (nonlinear_arith)
            requires
                n == one * one,
                one == 2 * v,
                d == 2 * one,
        ;
        lemma_signed_value(half, false, m);
    }
    let (hv, wv) = (half.value(), w.value());
    let p = hv * wv;
    assert(2 * p == one * wv && absolute(p) <= top * one) by (nonlinear_arith)
        requires
            p == hv * wv,
            2 * hv == one,
            -top <= 2 * wv <= top,
            one > 0,
            absolute(p) == p || absolute(p) == -p,
    ;
    lemma_product(half, w, y);
    let v = (half * w).value();
    assert(-4 * g <= 2 * v - wv && 2 * v - wv <= 4 * g) by (nonlinear_arith)
        requires
            -(one * g) <= v * one - p <= one * g,
            2 * p == one * wv,
            one > 0,
            g > 0,
    ;
}

/// Whether the coordinates and the height of a point are at most a sixteenth of a bound.
pub open spec fn point_within(p: PathPoint, y: nat) -> bool {
    &&& p.lon.finite() && -pow2(y) <= 16 * p.lon.value() <= pow2(y)
    &&& p.lat.finite() && -pow2(y) <= 16 * p.lat.value() <= pow2(y)
    &&& p.alt_m.finite() && -pow2(y) <= 16 * p.alt_m.value() <= pow2(y)
}

/// Whether two points are the same but for an amount of each of their numbers.
pub open spec fn near_point(p: PathPoint, q: PathPoint, d: int) -> bool {
    &&& p.lon.finite() && apart(p.lon.value(), q.lon.value(), d)
    &&& p.lat.finite() && apart(p.lat.value(), q.lat.value(), d)
    &&& p.alt_m.finite() && apart(p.alt_m.value(), q.alt_m.value(), d)
}

/// A spline ends at the last point of the route, but for the rounding of its numbers:
/// less than 2^-46 of their bound.
pub proof fn law_spline_reaches_last(pts: Seq<PathPoint>, m: int, y: nat)
    requires
        pts.len() >= 3,
        1 <= m <= 1024,
        is_bound(y),
        point_within(pts[pts.len() - 3], y) && point_within(pts[pts.len() - 2], y)
            && point_within(pts.last(), y),
    ensures
        catmull_route(pts, m).len() > 0,
        near_point(catmull_route(pts, m).last(), pts.last(), 10 * grain(y)),
{
    let n = pts.len() as int;
    let before = spline_route(pts, n - 2, m);
    let route = spline_route(pts, n - 1, m);
    let more = Seq::new(m as nat, |k: int| spline_point(pts, n - 2, k + 1, m));
    assert(route == before + more);
    assert(route.last() == more[m - 1]);
    assert(more[m - 1] == spline_point(pts, n - 2, m, m));
    lemma_count(m);
    lemma_pow2_pos(1074);
    assert(units(m) > 0) by (nonlinear_arith)
        requires
            units(m) == m * pow2(1074),
            m >= 1,
            pow2(1074) > 0,
    ;
    let t = whole(m) / whole(m);
    lemma_all_steps(whole(m));
    let (a, b, c) = (pts[n - 3], pts[n - 2], pts[n - 1]);
    lemma_spline_end(a.lon, b.lon, c.lon, t, y);
    lemma_spline_end(a.lat, b.lat, c.lat, t, y);
    lemma_spline_end(a.alt_m, b.alt_m, c.alt_m, t, y);
}

/// To the plane and back, in whole numbers: `a` degrees from the middle of the plane,
/// `x` metres there, and `y` metres taken back to `q` degrees.
proof fn lemma_there_and_back(
    one: int,
    h: int,
    a: int,
    k: int,
    ak: int,
    x: int,
    y: int,
    w: int,
    kw: int,
    q: int,
    t: int,
)
    requires
        one == 0x200_0000_0000 * h && h > 0,
        -181 * one <= a <= 181 * one,
        one <= 64 * k && k <= one,
        w == 111_320 * one,
        apart(ak * one, a * k, one * h),
        apart(x * one, ak * w, one * (0x1_0000 * h)),
        apart(kw * one, k * w, one * (0x100 * h)),
        apart(q * kw, y * one, kw * h),
        apart(y, x, t),
        0 <= t,
        kw > 0,
    ensures
        1739 * q <= 1739 * a + 243_460 * h + t,
        1739 * a <= 1739 * q + 243_460 * h + t,
{
    let oh = one * h;
    let ooh = one * oh;
    assert(oh > 0 && ooh > 0) by (nonlinear_arith)
        requires
            oh == one * h,
            ooh == one * oh,
            one > 0,
            h > 0,
    ;
    let akw = a * k * w;
    let kwo = kw * one;
    // How large the divisor is.
    assert(kw >= 1739 * one) by (nonlinear_arith)
        requires
            -(one * (0x100 * h)) <= kw * one - k * w,
            one <= 64 * k,
            w == 111_320 * one,
            one == 0x200_0000_0000 * h,
            h > 0,
    ;
    // The metres.
    let xo = x * one;
    let akow = ak * w;
    assert(-(111_320 * ooh) <= akow * one - akw && akow * one - akw <= 111_320 * ooh)
        by (nonlinear_arith)
        requires
            akow == ak * w,
            akw == a * k * w,
            -(one * h) <= ak * one - a * k <= one * h,
            w == 111_320 * one,
            ooh == one * (one * h),
            one > 0,
    ;
    assert(-(176_856 * ooh) <= xo * one - akw && xo * one - akw <= 176_856 * ooh) by (nonlinear_arith)
        requires
            -(one * (0x1_0000 * h)) <= xo - akow <= one * (0x1_0000 * h),
            -(111_320 * ooh) <= akow * one - akw <= 111_320 * ooh,
            ooh == one * (one * h),
            one > 0,
    ;
    // The divisor.
    let ak2 = a * kwo;
    assert(-(46_336 * ooh) <= ak2 - akw && ak2 - akw <= 46_336 * ooh) by (nonlinear_arith)
        requires
            ak2 == a * kwo,
            akw == a * k * w,
            -(one * (0x100 * h)) <= kwo - k * w <= one * (0x100 * h),
            -181 * one <= a <= 181 * one,
            ooh == one * (one * h),
            h > 0,
            one > 0,
    ;
    let yo = y * one;
    let ot = one * one * t;
    assert(-ot <= yo * one - xo * one && yo * one - xo * one <= ot) by (nonlinear_arith)
        requires
            yo == y * one,
            xo == x * one,
            ot == one * one * t,
            -t <= y - x <= t,
            one > 0,
    ;
    let qk = q * kw;
    let kho = kw * h * one;
    assert(-kho <= qk * one - yo * one && qk * one - yo * one <= kho) by (nonlinear_arith)
        requires
            kho == kw * h * one,
            -(kw * h) <= qk - yo <= kw * h,
            one > 0,
    ;
    let qk2 = q * kwo;
    assert(qk2 == qk * one) by (nonlinear_arith)
        requires
            qk2 == q * kwo,
            qk == q * kw,
            kwo == kw * one,
    ;
    let off = 223_192 * ooh + ot + kho;
    assert(-off <= qk2 - ak2 && qk2 - ak2 <= off);
    // In degrees.
    let e = q - a;
    assert(qk2 - ak2 == e * kwo) by (nonlinear_arith)
        requires
            qk2 == q * kwo,
            ak2 == a * kwo,
            e == q - a,
    ;
    let f = 223_192 * oh + one * t + kw * h;
    assert(off == f * one) by (nonlinear_arith)
        requires
            off == 223_192 * ooh + ot + kho,
            f == 223_192 * oh + one * t + kw * h,
            ooh == one * oh,
            ot == one * one * t,
            kho == kw * h * one,
    ;
    let ek = e * kw;
    assert(-f <= ek && ek <= f) by (nonlinear_arith)
        requires
            -(f * one) <= e * kwo <= f * one,
            kwo == kw * one,
            ek == e * kw,
            one > 0,
    ;
    assert(1739 * e <= 243_460 * h + t && -(1739 * e) <= 243_460 * h + t) by (nonlinear_arith)
        requires
            -f <= ek <= f,
            ek == e * kw,
            f == 223_192 * oh + one * t + kw * h,
            oh == one * h,
            kw >= 1739 * one,
            one > 0,
            h > 0,
            t >= 0,
    ;
}

/// Metres in a degree of latitude.
spec fn degree_m() -> Scalar {
    whole(111_320)
}

/// 2^-41: more than the error of one sum of degrees.
spec fn jot() -> int {
    grain(1083)
}

proof fn lemma_jots()
    ensures
        pow2(1074) == 0x200_0000_0000 * jot(),
        pow2(1083) == 512 * pow2(1074),
        pow2(1099) == 0x200_0000 * pow2(1074),
        pow2(1091) == 0x2_0000 * pow2(1074),
        grain(1099) == 0x1_0000 * jot(),
        grain(1091) == 0x100 * jot(),
        jot() > 0,
        is_bound(1083) && is_bound(1091) && is_bound(1099),
        degree_m().finite() && !degree_m().negative(),
        degree_m().value() == 111_320 * pow2(1074),
{
    lemma2_to64();
    lemma2_to64_rest();
    lemma_pow2_adds(41, 1033);
    lemma_pow2_adds(9, 1074);
    lemma_pow2_adds(25, 1074);
    lemma_pow2_adds(17, 1074);
    lemma_pow2_adds(16, 1033);
    lemma_pow2_adds(8, 1033);
    lemma_pow2_pos(1033);
    assert(pow2(36) == 0x10_0000_0000);
    lemma_small_whole(111_320, 36);
}

/// Degrees taken to metres, and metres not far from there taken back.
proof fn lemma_degrees_back(c: Scalar, a: Scalar, k: Scalar, ak: Scalar, kw: Scalar, y: Scalar, t: int)
    requires
        c.finite() && a.finite() && k.finite() && ak.finite() && kw.finite() && y.finite(),
        -256 * pow2(1074) <= c.value() <= 256 * pow2(1074),
        -181 * pow2(1074) <= a.value() <= 181 * pow2(1074),
        pow2(1074) <= 64 * k.value() && k.value() <= pow2(1074),
        apart(ak.value() * pow2(1074), a.value() * k.value(), pow2(1074) * jot()),
        apart(
            kw.value() * pow2(1074),
            k.value() * degree_m().value(),
            pow2(1074) * (0x100 * jot()),
        ),
        0 <= t <= 512 * pow2(1074),
        apart(y.value(), (ak * degree_m()).value(), t),
    ensures
        within(ak * degree_m(), 1099),
        ({
            let out = c + y / kw;
            &&& out.finite()
            &&& 1739 * (out.value() - c.value() - a.value()) <= 245_199 * jot() + t
            &&& -(245_199 * jot() + t) <= 1739 * (out.value() - c.value() - a.value())
        }),
{
    lemma_jots();
    let (one, h) = (pow2(1074) as int, jot());
    let w = degree_m();
    let (av, kv, akv, wv, kwv) = (a.value(), k.value(), ak.value(), w.value(), kw.value());
    assert(-182 * one <= akv && akv <= 182 * one) by (nonlinear_arith)
        requires
            -(one * h) <= akv * one - av * kv <= one * h,
            -181 * one <= av <= 181 * one,
            0 <= kv <= one,
            one == 0x200_0000_0000 * h,
            h > 0,
    ;
    let p = akv * wv;
    assert(absolute(p) <= (0x200_0000 * one) * one) by (nonlinear_arith)
        requires
            p == akv * wv,
            -182 * one <= akv <= 182 * one,
            wv == 111_320 * one,
            one > 0,
            absolute(p) == p || absolute(p) == -p,
    ;
    lemma_product(ak, w, 1099);
    let x = (ak * w).value();
    assert(kwv >= 1739 * one && kwv > 0) by (nonlinear_arith)
        requires
            -(one * (0x100 * h)) <= kwv * one - kv * wv,
            one <= 64 * kv,
            wv == 111_320 * one,
            one == 0x200_0000_0000 * h,
            h > 0,
    ;
    let yv = y.value();
    assert(absolute(yv) * one <= (512 * one) * kwv) by {
        lemma_not_far(one, h, av, kv, akv, x, yv, wv, kwv, t);
    }
    lemma_quotient(y, kw, 1083);
    let q = y / kw;
    lemma_there_and_back(one, h, av, kv, akv, x, yv, wv, kwv, q.value(), t);
    lemma_place_sum(c, q, 1083);
}

proof fn lemma_not_far(
    one: int,
    h: int,
    a: int,
    k: int,
    ak: int,
    x: int,
    y: int,
    w: int,
    kw: int,
    t: int,
)
    requires
        one == 0x200_0000_0000 * h && h > 0,
        -181 * one <= a <= 181 * one,
        one <= 64 * k && k <= one,
        w == 111_320 * one,
        apart(ak * one, a * k, one * h),
        apart(x * one, ak * w, one * (0x1_0000 * h)),
        apart(kw * one, k * w, one * (0x100 * h)),
        apart(y, x, t),
        0 <= t <= 512 * one,
        kw >= 1739 * one,
    ensures
        absolute(y) * one <= (512 * one) * kw,
{
    let akw = a * k * w;
    let xoo = x * one * one;
    let ooh = one * one * h;
    assert(-(176_856 * ooh) <= xoo - akw && xoo - akw <= 176_856 * ooh) by (nonlinear_arith)
        requires
            xoo == x * one * one,
            akw == a * k * w,
            ooh == one * one * h,
            -(one * h) <= ak * one - a * k <= one * h,
            -(one * (0x1_0000 * h)) <= x * one - ak * w <= one * (0x1_0000 * h),
            w == 111_320 * one,
            one > 0,
    ;
    let kwo = k * w;
    assert(akw <= 181 * (one * kwo) && -akw <= 181 * (one * kwo)) by (nonlinear_arith)
        requires
            akw == a * k * w,
            kwo == k * w,
            -181 * one <= a <= 181 * one,
            k >= 0,
            w >= 0,
    ;
    assert(one * kwo <= kw * one * one + 0x100 * ooh) by (nonlinear_arith)
        requires
            kwo == k * w,
            ooh == one * one * h,
            kw * one - k * w >= -(one * (0x100 * h)),
            one > 0,
    ;
    let koo = kw * one * one;
    assert(1_000_000 * ooh <= koo) by (nonlinear_arith)
        requires
            koo == kw * one * one,
            ooh == one * one * h,
            kw >= 1739 * one,
            one == 0x200_0000_0000 * h,
            h > 0,
    ;
    assert(xoo <= 182 * koo && -xoo <= 182 * koo);
    assert(x <= 182 * kw && -x <= 182 * kw) by (nonlinear_arith)
        requires
            xoo == x * one * one,
            koo == kw * one * one,
            xoo <= 182 * koo,
            -xoo <= 182 * koo,
            one > 0,
    ;
    assert(absolute(y) <= 183 * kw);
    assert(absolute(y) * one <= (512 * one) * kw) by (nonlinear_arith)
        requires
            absolute(y) <= 183 * kw,
            kw >= 0,
            one > 0,
    ;
}

/// A coordinate and the middle between two of them.
proof fn lemma_middle(u: Scalar, v: Scalar, most: int)
    requires
        u.finite() && v.finite(),
        0 <= most <= 180 * pow2(1074),
        -most <= u.value() <= most,
        -most <= v.value() <= most,
    ensures
        ({
            let c = (u + v) / whole(2);
            &&& c.finite() && -181 * pow2(1074) <= c.value() <= 181 * pow2(1074)
            &&& (u - c).finite() && apart((u - c).value(), u.value() - c.value(), jot())
            &&& (v - c).finite() && apart((v - c).value(), v.value() - c.value(), jot())
            &&& -181 * pow2(1074) <= (u - c).value() <= 181 * pow2(1074)
            &&& -181 * pow2(1074) <= (v - c).value() <= 181 * pow2(1074)
        }),
{
    lemma_jots();
    lemma_exact(2);
    let (one, h) = (pow2(1074) as int, jot());
    lemma_place_sum(u, v, 1083);
    let s = u + v;
    let (sv, d) = (s.value(), whole(2).value());
    assert(absolute(sv) * one <= (512 * one) * d) by (nonlinear_arith)
        requires
            absolute(sv) <= 361 * one,
            d == 2 * one,
            one > 0,
    ;
    lemma_quotient(s, whole(2), 1083);
    let c = s / whole(2);
    let cv = c.value();
    assert(-2 * h <= 2 * cv - sv && 2 * cv - sv <= 2 * h) by (nonlinear_arith)
        requires
            -(d * h) <= cv * d - sv * one <= d * h,
            d == 2 * one,
            one > 0,
    ;
    lemma_place_difference(u, c, 1083);
    lemma_place_difference(v, c, 1083);
}

/// Whether the ends of a route are places on Earth, where a degree of longitude between
/// them is at least a sixty-fourth of one of latitude.
pub open spec fn ends_on_earth<C: Fn(Calc) -> Scalar>(calc: C, pts: Seq<PathPoint>) -> bool {
    let (u, v, k) = (pts[0], pts.last(), fit_plane(calc, pts).k);
    &&& pts.len() >= 2
    &&& u.lon.finite() && -180 * pow2(1074) <= u.lon.value() <= 180 * pow2(1074)
    &&& v.lon.finite() && -180 * pow2(1074) <= v.lon.value() <= 180 * pow2(1074)
    &&& u.lat.finite() && -90 * pow2(1074) <= u.lat.value() <= 90 * pow2(1074)
    &&& v.lat.finite() && -90 * pow2(1074) <= v.lat.value() <= 90 * pow2(1074)
    &&& k.finite() && pow2(1074) <= 64 * k.value() && k.value() <= pow2(1074)
}

/// A place in the plane of a fit, and one near it taken back to the ground.
proof fn lemma_ground_back<C: Fn(Calc) -> Scalar>(
    calc: C,
    pts: Seq<PathPoint>,
    p: PathPoint,
    s: Spot,
    t: int,
)
    requires
        ends_on_earth(calc, pts),
        p == pts[0] || p == pts.last(),
    ensures
        ({
            let proj = fit_plane(calc, pts);
            let x = proj.plane(p.lon, p.lat);
            let (lon, lat) = proj.ground(s.0, s.1);
            &&& within(x.0, 1099) && within(x.1, 1099)
            &&& 0 <= t <= 512 * pow2(1074) && s.0.finite() && apart(s.0.value(), x.0.value(), t)
                ==> lon.finite() && -(250_000 * jot() + t) <= 1739 * (lon.value() - p.lon.value())
                <= 250_000 * jot() + t
            &&& 0 <= t <= 512 * pow2(1074) && s.1.finite() && apart(s.1.value(), x.1.value(), t)
                ==> lat.finite() && -(250_000 * jot() + t) <= 1739 * (lat.value() - p.lat.value())
                <= 250_000 * jot() + t
        }),
{
    lemma_jots();
    lemma_exact(1);
    let (one, h) = (pow2(1074) as int, jot());
    let (u, v) = (pts[0], pts.last());
    let proj = fit_plane(calc, pts);
    lemma_middle(u.lon, v.lon, 180 * one);
    lemma_middle(u.lat, v.lat, 180 * one);
    let w = degree_m();
    let k = proj.k;
    // East.
    let a = p.lon - proj.clon;
    let (av, kv, wv) = (a.value(), k.value(), w.value());
    let r = av * kv;
    assert(absolute(r) <= (512 * one) * one) by (nonlinear_arith)
        requires
            r == av * kv,
            -181 * one <= av <= 181 * one,
            0 <= kv <= one,
            one > 0,
            absolute(r) == r || absolute(r) == -r,
    ;
    lemma_product(a, k, 1083);
    let m = kv * wv;
    assert(absolute(m) <= (0x2_0000 * one) * one) by (nonlinear_arith)
        requires
            m == kv * wv,
            0 <= kv <= one,
            wv == 111_320 * one,
            one > 0,
            absolute(m) == m || absolute(m) == -m,
    ;
    lemma_product(k, w, 1091);
    let akv = (a * k).value();
    assert(-182 * one <= akv && akv <= 182 * one) by (nonlinear_arith)
        requires
            -(one * h) <= akv * one - r <= one * h,
            r == av * kv,
            -181 * one <= av <= 181 * one,
            0 <= kv <= one,
            one == 0x200_0000_0000 * h,
            h > 0,
    ;
    lemma_product_finite(a * k, w);
    let zero = a * k * w;
    lemma_degrees_back(proj.clon, a, k, a * k, k * w, zero, 0);
    if 0 <= t <= 512 * one && s.0.finite() && apart(s.0.value(), zero.value(), t) {
        lemma_degrees_back(proj.clon, a, k, a * k, k * w, s.0, t);
    }
    // North.
    let b = p.lat - proj.clat;
    let bv = b.value();
    let unit = whole(1);
    assert(apart(bv * one, bv * unit.value(), one * h)) by (nonlinear_arith)
        requires
            unit.value() == one,
            apart(bv * one, bv * unit.value(), one * h) == (-(one * h) <= bv * one - bv * unit.value()
                && bv * one - bv * unit.value() <= one * h),
            one > 0,
            h > 0,
    ;
    assert(apart(wv * one, unit.value() * wv, one * (0x100 * h))) by (nonlinear_arith)
        requires
            unit.value() == one,
            apart(wv * one, unit.value() * wv, one * (0x100 * h)) == (-(one * (0x100 * h)) <= wv * one
                - unit.value() * wv && wv * one - unit.value() * wv <= one * (0x100 * h)),
            one > 0,
            h > 0,
    ;
    lemma_product_finite(b, w);
    lemma_degrees_back(proj.clat, b, unit, b, w, b * w, 0);
    if 0 <= t <= 512 * one && s.1.finite() && apart(s.1.value(), (b * w).value(), t) {
        lemma_degrees_back(proj.clat, b, unit, b, w, s.1, t);
    }
}

proof fn lemma_product_finite(b: Scalar, w: Scalar)
    requires
        w == degree_m(),
        b.finite() && -182 * pow2(1074) <= b.value() <= 182 * pow2(1074),
    ensures
        (b * w).finite(),
{
    lemma_jots();
    let (one, bv, wv) = (pow2(1074) as int, b.value(), w.value());
    let p = bv * wv;
    assert(absolute(p) <= (0x200_0000 * one) * one) by (nonlinear_arith)
        requires
            p == bv * wv,
            -182 * one <= bv <= 182 * one,
            wv == 111_320 * one,
            one > 0,
            absolute(p) == p || absolute(p) == -p,
    ;
    lemma_product(b, w, 1099);
}

/// The ends of a fitted curve are the ends of the route, but for a billionth of a degree
/// for each metre of the radius, and one more. The plane of the fit keeps places on Earth
/// within the bounds for which the samples of a curve run from end to end; the headings
/// have to be at most five turns, and the radius at most 2^18 metres. Of a turn on the
/// spot, whose ends are one place, nothing is said.
pub proof fn law_fit_reaches_ends<C: Fn(Calc) -> Scalar>(
    calc: C,
    pts: Seq<PathPoint>,
    r_m: Scalar,
    sample_n: usize,
)
    requires
        true_circle(calc),
        ends_on_earth(calc, pts),
        can_fit(calc, pts, r_m),
        r_m.value() <= 0x4_0000 * pow2(1074),
        ({
            let (th0, th1) = (
                plane_angle(heading_out(calc, pts)),
                plane_angle(heading_in(calc, pts)),
            );
            let proj = fit_plane(calc, pts);
            let path = fit_curve(calc, pts, r_m)->0;
            &&& th0.finite() && -32 * pow2(1074) <= th0.value() <= 32 * pow2(1074)
            &&& th1.finite() && -32 * pow2(1074) <= th1.value() <= 32 * pow2(1074)
            &&& path.length().finite()
            &&& path != pivot_path(calc, proj.plane(pts[0].lon, pts[0].lat), th0, th1, r_m)
        }),
    ensures
        ({
            let f = fitted(calc, pts, r_m, sample_n as int);
            let most = pow2(1074) + r_m.value();
            &&& f.len() > 0
            &&& f[0].lon.finite() && f[0].lat.finite()
            &&& f.last().lon.finite() && f.last().lat.finite()
            &&& apart(1_000_000_000 * f[0].lon.value(), 1_000_000_000 * pts[0].lon.value(), most)
            &&& apart(1_000_000_000 * f[0].lat.value(), 1_000_000_000 * pts[0].lat.value(), most)
            &&& apart(
                1_000_000_000 * f.last().lon.value(),
                1_000_000_000 * pts.last().lon.value(),
                most,
            )
            &&& apart(
                1_000_000_000 * f.last().lat.value(),
                1_000_000_000 * pts.last().lat.value(),
                most,
            )
        }),
{
    lemma_jots();
    lemma_count(0);
    assert(units(0) == 0) by (nonlinear_arith)
        requires
            units(0) == 0 * pow2(1074),
    ;
    let (one, h) = (pow2(1074) as int, jot());
    let (u, v) = (pts[0], pts.last());
    let proj = fit_plane(calc, pts);
    let (p0, p1) = (proj.plane(u.lon, u.lat), proj.plane(v.lon, v.lat));
    let (th0, th1) = (plane_angle(heading_out(calc, pts)), plane_angle(heading_in(calc, pts)));
    lemma_ground_back(calc, pts, u, p0, 0);
    lemma_ground_back(calc, pts, v, p1, 0);
    let n: usize = if sample_n < 4 {
        4
    } else {
        sample_n
    };
    let r = r_m.value();
    assert(0 < r);
    law_samples_run_from_end_to_end(calc, p0, th0, p1, th1, r_m, n, 1099);
    let path = fit_curve(calc, pts, r_m)->0;
    let q = path.samples(calc, n as int);
    law_ends_are_met_on_earth(q[0], p0, r_m);
    law_ends_are_met_on_earth(q.last(), p1, r_m);
    let t = (one + r) / 1_000_000 + 1;
    lemma_ground_back(calc, pts, u, q[0], t);
    lemma_ground_back(calc, pts, v, q.last(), t);
    let f = fitted(calc, pts, r_m, sample_n as int);
    assert(f.len() == q.len());
    assert(f[0] == lifted(calc, pts, proj, q[0]));
    assert(f.last() == lifted(calc, pts, proj, q.last()));
}

} // verus!
