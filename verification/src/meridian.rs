//! On the central meridian the transverse Mercator projection gives places back.

use crate::arith::absolute;
use crate::cell::{lemma_at_most, lemma_count, lemma_rounding, lemma_sum};
use crate::coord::TransverseMercator;
use crate::ends::{
    apart, grain, is_bound, lap, lemma_absolute_value, lemma_angle_difference, lemma_angle_sum,
    lemma_lap, lemma_place_difference, lemma_place_sum, lemma_scale, lemma_signed_value, lemma_sizes, speck, within, within_one,
};
use crate::geometry::{degrees, radians, PI_BITS};
use crate::margin::{lemma_power_pattern, lemma_small_whole, power_pattern};
use crate::numeric::{frac, whole};
use crate::oracle::{image, Calc};
use crate::order::lemma_nearest_exact;
use crate::projection::{across_m, back_lat, back_lon, meridian_m, meridian_share};
use crate::root::{is_nearest_root, lemma_nearest_root_unique};
use crate::rounding::{lemma_nearest_exists, nearest};
use crate::scalar::{
    lemma_magnitude_monotone, lemma_magnitude_step, magnitude_value, Scalar, FRACTION_LIMIT,
    INFINITY_BITS,
};
use vstd::arithmetic::power2::{lemma2_to64, lemma2_to64_rest, lemma_pow2_adds, lemma_pow2_pos, pow2};
use vstd::prelude::*;

verus! {

/// 2^-46: more than the error of one operation on numbers up to sixteen.
pub open spec fn mote() -> int {
    grain(1078)
}

pub proof fn lemma_motes()
    ensures
        pow2(1074) == 0x4000_0000_0000 * mote(),
        pow2(1078) == 16 * pow2(1074),
        speck() == 4 * mote(),
        mote() > 0,
        is_bound(1078),
{
    lemma2_to64();
    lemma2_to64_rest();
    lemma_pow2_adds(46, 1028);
    lemma_pow2_adds(4, 1074);
    lemma_pow2_adds(2, 1028);
    lemma_pow2_pos(1028);
}

/// A product within a bound.
pub proof fn lemma_product(a: Scalar, b: Scalar, y: nat)
    requires
        is_bound(y),
        a.finite() && b.finite(),
        absolute(a.value() * b.value()) <= pow2(y) * pow2(1074),
    ensures
        (a * b).finite(),
        -pow2(y) <= (a * b).value() <= pow2(y),
        apart((a * b).value() * pow2(1074), a.value() * b.value(), pow2(1074) * grain(y)),
{
    reveal(Scalar::times);
    lemma_scale(y);
    lemma_pow2_pos(1074);
    lemma_absolute_value(a);
    lemma_absolute_value(b);
    assert(magnitude_value(0) == 0);
    let (one, g) = (pow2(1074) as int, grain(y));
    let (av, bv) = (a.value(), b.value());
    let n = absolute(av) * absolute(bv);
    assert(n == absolute(av * bv)) by (nonlinear_arith)
        requires
            n == absolute(av) * absolute(bv),
            absolute(av) == av && av >= 0 || absolute(av) == -av && av < 0,
            absolute(bv) == bv && bv >= 0 || absolute(bv) == -bv && bv < 0,
            absolute(av * bv) == av * bv && av * bv >= 0 || absolute(av * bv) == -(av * bv) && av
                * bv < 0,
    ;
    lemma_power_pattern(y - 52);
    lemma_at_most(n, one, power_pattern(y - 52));
    lemma_rounding(n, one);
    lemma_nearest_exists(n, one);
    let m = nearest(n, one);
    let negative = a.negative() != b.negative();
    lemma_signed_value(a * b, negative, m);
    let x = magnitude_value(m);
    let off = x * one - n;
    assert(-(one * g) <= off && off <= one * g) by (nonlinear_arith)
        requires
            -(n + one * 0x10_0000_0000_0000) <= off * 0x10_0000_0000_0000,
            off * 0x10_0000_0000_0000 <= n + one * 0x10_0000_0000_0000,
            0 <= n <= (0x4_0000_0000_0000 * g) * one,
            one > 0,
            g >= 0x10_0000 * 0x10_0000_0000_0000,
    ;
    let v = (a * b).value();
    if av == 0 || bv == 0 {
        assert(n == 0 && av * bv == 0) by (nonlinear_arith)
            requires
                n == absolute(av) * absolute(bv),
                av == 0 || bv == 0,
                absolute(av) == 0 || av != 0,
                absolute(bv) == 0 || bv != 0,
        ;
        assert(0 * one == 0);
        lemma_at_most(0, one, 0);
        assert(v == 0);
        assert(v * one == 0) by (nonlinear_arith)
            requires
                v == 0,
        ;
    } else if negative {
        assert(av * bv == -n && v * one == -(x * one)) by (nonlinear_arith)
            requires
                n == absolute(av) * absolute(bv),
                v == -x,
                (av > 0 && bv < 0 && absolute(av) == av && absolute(bv) == -bv) || (av < 0 && bv > 0
                    && absolute(av) == -av && absolute(bv) == bv),
        ;
    } else {
        assert(av * bv == n) by (nonlinear_arith)
            requires
                n == absolute(av) * absolute(bv),
                (av > 0 && bv > 0 && absolute(av) == av && absolute(bv) == bv) || (av < 0 && bv < 0
                    && absolute(av) == -av && absolute(bv) == -bv),
        ;
    }
}

/// A quotient within a bound.
pub proof fn lemma_quotient(a: Scalar, b: Scalar, y: nat)
    requires
        is_bound(y),
        a.finite() && b.finite(),
        0 < b.value(),
        absolute(a.value()) * pow2(1074) <= pow2(y) * b.value(),
    ensures
        (a / b).finite(),
        -pow2(y) <= (a / b).value() <= pow2(y),
        apart((a / b).value() * b.value(), a.value() * pow2(1074), b.value() * grain(y)),
{
    reveal(Scalar::over);
    lemma_scale(y);
    lemma_pow2_pos(1074);
    lemma_absolute_value(a);
    lemma_absolute_value(b);
    assert(magnitude_value(0) == 0);
    let (one, g, bv) = (pow2(1074) as int, grain(y), b.value());
    let n = absolute(a.value()) * one;
    assert(n >= 0) by (nonlinear_arith)
        requires
            n == absolute(a.value()) * one,
            absolute(a.value()) >= 0,
            one >= 0,
    ;
    lemma_power_pattern(y - 52);
    lemma_at_most(n, bv, power_pattern(y - 52));
    lemma_rounding(n, bv);
    lemma_nearest_exists(n, bv);
    let m = nearest(n, bv);
    lemma_signed_value(a / b, a.negative(), m);
    let x = magnitude_value(m);
    let off = x * bv - n;
    assert(-(bv * g) <= off && off <= bv * g) by (nonlinear_arith)
        requires
            -(n + bv * 0x10_0000_0000_0000) <= off * 0x10_0000_0000_0000,
            off * 0x10_0000_0000_0000 <= n + bv * 0x10_0000_0000_0000,
            0 <= n <= (0x4_0000_0000_0000 * g) * bv,
            bv > 0,
            g >= 0x10_0000 * 0x10_0000_0000_0000,
    ;
    let (v, av) = ((a / b).value(), a.value());
    if a.negative() {
        assert(v * bv == -(x * bv) && av * one == -n) by (nonlinear_arith)
            requires
                v == -x,
                n == absolute(av) * one,
                av == -absolute(av),
        ;
    }
}

/// Whether a number is finite and within an amount of zero.
spec fn below(x: Scalar, b: int) -> bool {
    x.finite() && -b <= x.value() <= b
}

/// A whole number, exactly.
pub proof fn lemma_exact(n: int)
    requires
        1 <= n <= 1024 || n == 3072,
    ensures
        whole(n).finite() && !whole(n).negative(),
        whole(n).value() == n * pow2(1074),
{
    if n == 3072 {
        lemma2_to64();
        lemma2_to64_rest();
        assert(pow2(41) == 0x200_0000_0000);
        lemma_small_whole(3072, 41);
    } else {
        lemma_count(n);
    }
}

proof fn lemma_some_times(n: int, x: Scalar, b: int)
    requires
        1 <= n <= 64,
        below(x, b),
        n * b <= 8 * pow2(1074),
    ensures
        below(whole(n) * x, n * b + mote()),
        apart((whole(n) * x).value(), n * x.value(), mote()),
{
    lemma_motes();
    lemma_exact(n);
    let (one, g, xv, w) = (pow2(1074) as int, mote(), x.value(), whole(n).value());
    let p = w * xv;
    assert(p == one * (n * xv) && absolute(p) <= 16 * one * one) by (nonlinear_arith)
        requires
            p == w * xv,
            w == n * one,
            -b <= xv <= b,
            n * b <= 8 * one,
            n >= 1,
            one > 0,
            absolute(p) == p || absolute(p) == -p,
    ;
    lemma_product(whole(n), x, 1078);
    let v = (whole(n) * x).value();
    assert(-g <= v - n * xv && v - n * xv <= g) by (nonlinear_arith)
        requires
            -(one * g) <= v * one - p <= one * g,
            p == one * (n * xv),
            one > 0,
    ;
    assert(-(n * b) <= n * xv && n * xv <= n * b) by (nonlinear_arith)
        requires
            -b <= xv <= b,
            n >= 1,
    ;
}

proof fn lemma_some_part(x: Scalar, n: int, b: int)
    requires
        1 <= n <= 1024 || n == 3072,
        below(x, b),
        b <= 8 * pow2(1074),
    ensures
        (x / whole(n)).finite(),
        -(b + n * mote()) <= n * (x / whole(n)).value() <= b + n * mote(),
{
    lemma_motes();
    lemma_exact(n);
    let (one, g, xv, w) = (pow2(1074) as int, mote(), x.value(), whole(n).value());
    assert(absolute(xv) * one <= (16 * one) * w) by (nonlinear_arith)
        requires
            absolute(xv) <= 8 * one,
            w == n * one,
            n >= 1,
            one > 0,
    ;
    assert(w > 0) by (nonlinear_arith)
        requires
            w == n * one,
            n >= 1,
            one > 0,
    ;
    lemma_quotient(x, whole(n), 1078);
    let q = (x / whole(n)).value();
    assert(-(n * g) <= n * q - xv && n * q - xv <= n * g) by (nonlinear_arith)
        requires
            -(w * g) <= q * w - xv * one <= w * g,
            w == n * one,
            one > 0,
    ;
}

proof fn lemma_times_flattening(x: Scalar, e2: Scalar, b: int)
    requires
        below(x, b),
        b <= 8 * pow2(1074),
        below(e2, 0x80_0000_0000 * mote()),
    ensures
        (x * e2).finite(),
        -(b + 128 * mote()) <= 128 * (x * e2).value() <= b + 128 * mote(),
{
    lemma_motes();
    let (one, g, xv, ev) = (pow2(1074) as int, mote(), x.value(), e2.value());
    let p = xv * ev;
    assert(-(b * one) <= 128 * p && 128 * p <= b * one) by (nonlinear_arith)
        requires
            p == xv * ev,
            -b <= xv <= b,
            -one <= 128 * ev <= one,
    ;
    assert(absolute(p) <= (16 * one) * one) by (nonlinear_arith)
        requires
            -(b * one) <= 128 * p <= b * one,
            b <= 8 * one,
            one > 0,
            absolute(p) == p || absolute(p) == -p,
    ;
    lemma_product(x, e2, 1078);
    let v = (x * e2).value();
    assert(-(b + 128 * g) <= 128 * v && 128 * v <= b + 128 * g) by (nonlinear_arith)
        requires
            -(one * g) <= v * one - p <= one * g,
            -(b * one) <= 128 * p <= b * one,
            one > 0,
    ;
}

/// What the sine of twice the latitude takes from the length of the meridian.
pub open spec fn twofold_share(e2: Scalar) -> Scalar {
    whole(3) * e2 / whole(8) + whole(3) * e2 * e2 / whole(32) + whole(45) * e2 * e2 * e2 / whole(1024)
}

/// What the sine of four times the latitude adds to it.
pub open spec fn fourfold_share(e2: Scalar) -> Scalar {
    whole(15) * e2 * e2 / whole(256) + whole(45) * e2 * e2 * e2 / whole(1024)
}

/// What the sine of six times the latitude takes from it.
pub open spec fn sixfold_share(e2: Scalar) -> Scalar {
    whole(35) * e2 * e2 * e2 / whole(3072)
}

/// The shares of an ellipsoid that is flattened little.
proof fn lemma_shares(e2: Scalar)
    requires
        e2.finite(),
        0 <= 128 * e2.value() <= pow2(1074),
    ensures
        meridian_share(e2).finite(),
        63 * pow2(1074) <= 64 * meridian_share(e2).value() <= 65 * pow2(1074),
        twofold_share(e2).finite() && fourfold_share(e2).finite() && sixfold_share(e2).finite(),
        -pow2(1074) <= 256 * twofold_share(e2).value() <= pow2(1074),
        -pow2(1074) <= 1024 * fourfold_share(e2).value() <= pow2(1074),
        -pow2(1074) <= 1024 * sixfold_share(e2).value() <= pow2(1074),
{
    lemma_motes();
    lemma_sizes();
    let g = mote();
    let e = 0x80_0000_0000 * g;
    assert(below(e2, e));
    lemma_powers_of(3, e2);
    lemma_powers_of(45, e2);
    lemma_powers_of(15, e2);
    lemma_powers_of(35, e2);
    lemma_powers_of(5, e2);
    // Each part in turn.
    lemma_some_part(whole(3) * e2, 8, 3 * e + g);
    lemma_some_part(whole(3) * e2 * e2, 32, e);
    lemma_some_part(whole(45) * e2 * e2 * e2, 1024, e);
    lemma_some_part(whole(15) * e2 * e2, 256, e);
    lemma_some_part(whole(35) * e2 * e2 * e2, 3072, e);
    lemma_some_part(e2, 4, e);
    lemma_some_part(whole(3) * e2 * e2, 64, e);
    lemma_some_part(whole(5) * e2 * e2 * e2, 256, e);
    let (a, b, c) = (
        whole(3) * e2 / whole(8),
        whole(3) * e2 * e2 / whole(32),
        whole(45) * e2 * e2 * e2 / whole(1024),
    );
    lemma_angle_sum(a, b);
    lemma_angle_sum(a + b, c);
    lemma_angle_sum(whole(15) * e2 * e2 / whole(256), c);
    lemma_exact(1);
    let (p, q, r) = (
        e2 / whole(4),
        whole(3) * e2 * e2 / whole(64),
        whole(5) * e2 * e2 * e2 / whole(256),
    );
    lemma_angle_difference(whole(1), p);
    lemma_angle_difference(whole(1) - p, q);
    lemma_angle_difference(whole(1) - p - q, r);
}

/// A number of times the first three powers of the flattening.
proof fn lemma_powers_of(n: int, e2: Scalar)
    requires
        1 <= n <= 64,
        below(e2, 0x80_0000_0000 * mote()),
    ensures
        ({
            let e = 0x80_0000_0000 * mote();
            let (x, y, z) = (whole(n) * e2, whole(n) * e2 * e2, whole(n) * e2 * e2 * e2);
            &&& below(x, n * e + mote())
            &&& below(x, 64 * e + mote())
            &&& below(y, e)
            &&& below(z, e)
        }),
{
    lemma_motes();
    let g = mote();
    let e = 0x80_0000_0000 * g;
    assert(n * e <= 64 * e) by (nonlinear_arith)
        requires
            n <= 64,
            e >= 0,
    ;
    lemma_some_times(n, e2, e);
    lemma_times_flattening(whole(n) * e2, e2, 64 * e + g);
    lemma_times_flattening(whole(n) * e2 * e2, e2, e);
}

/// Whether the sine changes no faster than its angle, but for 2^-44, and stays between
/// minus one and one.
pub open spec fn true_sine<C: Fn(Calc) -> Scalar>(calc: C) -> bool {
    &&& forall|a: Scalar| a.finite() ==> within_one(#[trigger] image(calc, Calc::Sin(a)))
    &&& forall|a: Scalar, b: Scalar|
        a.finite() && b.finite() ==> apart(
            (#[trigger] image(calc, Calc::Sin(a))).value(),
            (#[trigger] image(calc, Calc::Sin(b))).value(),
            absolute(a.value() - b.value()) + speck(),
        )
}

/// Length of the meridian to a latitude, in semi-major axes.
spec fn meridian_axes<C: Fn(Calc) -> Scalar>(calc: C, e2: Scalar, phi: Scalar) -> Scalar {
    meridian_share(e2) * phi - twofold_share(e2) * image(calc, Calc::Sin(whole(2) * phi))
        + fourfold_share(e2) * image(calc, Calc::Sin(whole(4) * phi)) - sixfold_share(e2) * image(
        calc,
        Calc::Sin(whole(6) * phi),
    )
}

/// The same length, without the rounding of sums and products; times 2^1074.
spec fn meridian_exactly<C: Fn(Calc) -> Scalar>(calc: C, e2: Scalar, phi: Scalar) -> int {
    meridian_share(e2).value() * phi.value() - twofold_share(e2).value() * image(
        calc,
        Calc::Sin(whole(2) * phi),
    ).value() + fourfold_share(e2).value() * image(calc, Calc::Sin(whole(4) * phi)).value()
        - sixfold_share(e2).value() * image(calc, Calc::Sin(whole(6) * phi)).value()
}

/// A share of a sine.
proof fn lemma_share_of(c: Scalar, s: Scalar)
    requires
        c.finite(),
        -pow2(1074) <= 256 * c.value() <= pow2(1074),
        within_one(s),
    ensures
        (c * s).finite(),
        -pow2(1074) <= 128 * (c * s).value() <= pow2(1074),
        apart((c * s).value() * pow2(1074), c.value() * s.value(), pow2(1074) * mote()),
{
    lemma_motes();
    let (one, g, cv, sv) = (pow2(1074) as int, mote(), c.value(), s.value());
    let p = cv * sv;
    assert(-(one * one) <= 256 * p && 256 * p <= one * one) by (nonlinear_arith)
        requires
            p == cv * sv,
            -one <= 256 * cv <= one,
            -one <= sv <= one,
    ;
    assert(absolute(p) <= (16 * one) * one) by (nonlinear_arith)
        requires
            -(one * one) <= 256 * p <= one * one,
            one > 0,
            absolute(p) == p || absolute(p) == -p,
    ;
    lemma_product(c, s, 1078);
    let v = (c * s).value();
    assert(-one <= 128 * v && 128 * v <= one) by (nonlinear_arith)
        requires
            -(one * g) <= v * one - p <= one * g,
            -(one * one) <= 256 * p <= one * one,
            one == 0x4000_0000_0000 * g,
            g > 0,
    ;
}

proof fn lemma_meridian_axes<C: Fn(Calc) -> Scalar>(calc: C, e2: Scalar, phi: Scalar)
    requires
        true_sine(calc),
        e2.finite() && 0 <= 128 * e2.value() <= pow2(1074),
        phi.finite() && -2 * pow2(1074) <= phi.value() <= 2 * pow2(1074),
    ensures
        ({
            let h = meridian_axes(calc, e2, phi);
            &&& h.finite() && -3 * pow2(1074) <= h.value() <= 3 * pow2(1074)
            &&& -8 * pow2(1074) <= 5 * phi.value() <= 8 * pow2(1074) ==> -166 * pow2(1074) <= 100
                * h.value() <= 166 * pow2(1074)
            &&& apart(
                h.value() * pow2(1074),
                meridian_exactly(calc, e2, phi),
                16 * (pow2(1074) * mote()),
            )
        }),
{
    lemma_motes();
    lemma_sizes();
    lemma_shares(e2);
    let (one, g) = (pow2(1074) as int, mote());
    lemma_some_times(2, phi, 2 * one);
    lemma_some_times(4, phi, 2 * one);
    lemma_fewfold(phi);
    let (m0, pv) = (meridian_share(e2), phi.value());
    let p = m0.value() * pv;
    assert(-(5 * one * one) <= 2 * p && 2 * p <= 5 * one * one) by (nonlinear_arith)
        requires
            p == m0.value() * pv,
            63 * one <= 64 * m0.value() <= 65 * one,
            -2 * one <= pv <= 2 * one,
            one > 0,
    ;
    assert(absolute(p) <= (16 * one) * one) by (nonlinear_arith)
        requires
            -(5 * one * one) <= 2 * p <= 5 * one * one,
            one > 0,
            absolute(p) == p || absolute(p) == -p,
    ;
    lemma_product(m0, phi, 1078);
    let (s2, s4, s6) = (
        image(calc, Calc::Sin(whole(2) * phi)),
        image(calc, Calc::Sin(whole(4) * phi)),
        image(calc, Calc::Sin(whole(6) * phi)),
    );
    let (c2, c4, c6) = (twofold_share(e2), fourfold_share(e2), sixfold_share(e2));
    lemma_share_of(c2, s2);
    lemma_share_of(c4, s4);
    lemma_share_of(c6, s6);
    let t = m0 * phi;
    let tv = t.value();
    assert(-(11 * one) <= 4 * tv && 4 * tv <= 11 * one) by (nonlinear_arith)
        requires
            -(one * g) <= tv * one - p <= one * g,
            -(5 * one * one) <= 2 * p <= 5 * one * one,
            one == 0x4000_0000_0000 * g,
            g > 0,
    ;
    if -8 * one <= 5 * pv <= 8 * one {
        assert(-(1626 * one) <= 1000 * tv && 1000 * tv <= 1626 * one) by (nonlinear_arith)
            requires
                -(one * g) <= tv * one - p <= one * g,
                p == m0.value() * pv,
                63 * one <= 64 * m0.value() <= 65 * one,
                -8 * one <= 5 * pv <= 8 * one,
                one == 0x4000_0000_0000 * g,
                g > 0,
        ;
    }
    lemma_angle_difference(t, c2 * s2);
    lemma_angle_sum(t - c2 * s2, c4 * s4);
    lemma_angle_difference(t - c2 * s2 + c4 * s4, c6 * s6);
    let h = meridian_axes(calc, e2, phi).value();
    let (x, y, z) = ((c2 * s2).value(), (c4 * s4).value(), (c6 * s6).value());
    let want = p - c2.value() * s2.value() + c4.value() * s4.value() - c6.value() * s6.value();
    let off = h - (tv - x + y - z);
    assert(h * one == off * one + tv * one - x * one + y * one - z * one) by (nonlinear_arith)
        requires
            off == h - (tv - x + y - z),
    ;
    assert(-(12 * (one * g)) <= off * one && off * one <= 12 * (one * g)) by (nonlinear_arith)
        requires
            -12 * g <= off <= 12 * g,
            one > 0,
    ;
    assert(h * one - want <= 16 * (one * g));
}

/// Six times a latitude.
proof fn lemma_fewfold(phi: Scalar)
    requires
        phi.finite() && -2 * pow2(1074) <= phi.value() <= 2 * pow2(1074),
    ensures
        (whole(6) * phi).finite(),
        apart((whole(6) * phi).value(), 6 * phi.value(), mote()),
{
    lemma_motes();
    lemma_exact(6);
    let (one, g, pv, w) = (pow2(1074) as int, mote(), phi.value(), whole(6).value());
    let p = w * pv;
    assert(p == one * (6 * pv) && absolute(p) <= (16 * one) * one) by (nonlinear_arith)
        requires
            p == w * pv,
            w == 6 * one,
            -2 * one <= pv <= 2 * one,
            one > 0,
            absolute(p) == p || absolute(p) == -p,
    ;
    lemma_product(whole(6), phi, 1078);
    let v = (whole(6) * phi).value();
    assert(-g <= v - 6 * pv && v - 6 * pv <= g) by (nonlinear_arith)
        requires
            -(one * g) <= v * one - p <= one * g,
            p == one * (6 * pv),
            one > 0,
    ;
}

/// How the length of the meridian changes with the latitude: by the share of the
/// latitude, and little more.
proof fn lemma_meridian_changes<C: Fn(Calc) -> Scalar>(
    calc: C,
    e2: Scalar,
    phi: Scalar,
    psi: Scalar,
)
    requires
        true_sine(calc),
        e2.finite() && 0 <= 128 * e2.value() <= pow2(1074),
        phi.finite() && -2 * pow2(1074) <= phi.value() <= 2 * pow2(1074),
        psi.finite() && -2 * pow2(1074) <= psi.value() <= 2 * pow2(1074),
    ensures
        ({
            let e = phi.value() - psi.value();
            let d = meridian_exactly(calc, e2, phi) - meridian_exactly(calc, e2, psi);
            let rest = 1024 * (d - meridian_share(e2).value() * e);
            let most = pow2(1074) * (18 * absolute(e) + 64 * mote());
            -most <= rest <= most
        }),
{
    lemma_motes();
    lemma_shares(e2);
    let (one, g) = (pow2(1074) as int, mote());
    lemma_some_times(2, phi, 2 * one);
    lemma_some_times(4, phi, 2 * one);
    lemma_fewfold(phi);
    lemma_some_times(2, psi, 2 * one);
    lemma_some_times(4, psi, 2 * one);
    lemma_fewfold(psi);
    let e = phi.value() - psi.value();
    let a = absolute(e);
    let d2 = image(calc, Calc::Sin(whole(2) * phi)).value() - image(
        calc,
        Calc::Sin(whole(2) * psi),
    ).value();
    let d4 = image(calc, Calc::Sin(whole(4) * phi)).value() - image(
        calc,
        Calc::Sin(whole(4) * psi),
    ).value();
    let d6 = image(calc, Calc::Sin(whole(6) * phi)).value() - image(
        calc,
        Calc::Sin(whole(6) * psi),
    ).value();
    assert(-(2 * a + 6 * g) <= d2 <= 2 * a + 6 * g);
    assert(-(4 * a + 6 * g) <= d4 <= 4 * a + 6 * g);
    assert(-(6 * a + 6 * g) <= d6 <= 6 * a + 6 * g);
    let (m0, c2, c4, c6) = (
        meridian_share(e2).value(),
        twofold_share(e2).value(),
        fourfold_share(e2).value(),
        sixfold_share(e2).value(),
    );
    let d = meridian_exactly(calc, e2, phi) - meridian_exactly(calc, e2, psi);
    assert(d - m0 * e == -(c2 * d2) + c4 * d4 - c6 * d6) by {
        let (x, y) = (phi.value(), psi.value());
        assert(m0 * x - m0 * y == m0 * e) by (nonlinear_arith)
            requires
                e == x - y,
        ;
        lemma_part(c2, calc, phi, psi, 2, d2);
        lemma_part(c4, calc, phi, psi, 4, d4);
        lemma_part(c6, calc, phi, psi, 6, d6);
    }
    let (x, y, z) = (c2 * d2, c4 * d4, c6 * d6);
    assert(-(one * (2 * a + 6 * g)) <= 256 * x && 256 * x <= one * (2 * a + 6 * g))
        by (nonlinear_arith)
        requires
            x == c2 * d2,
            -one <= 256 * c2 <= one,
            -(2 * a + 6 * g) <= d2 <= 2 * a + 6 * g,
    ;
    assert(-(one * (4 * a + 6 * g)) <= 1024 * y && 1024 * y <= one * (4 * a + 6 * g))
        by (nonlinear_arith)
        requires
            y == c4 * d4,
            -one <= 1024 * c4 <= one,
            -(4 * a + 6 * g) <= d4 <= 4 * a + 6 * g,
    ;
    assert(-(one * (6 * a + 6 * g)) <= 1024 * z && 1024 * z <= one * (6 * a + 6 * g))
        by (nonlinear_arith)
        requires
            z == c6 * d6,
            -one <= 1024 * c6 <= one,
            -(6 * a + 6 * g) <= d6 <= 6 * a + 6 * g,
    ;
    let most = one * (18 * a + 64 * g);
    assert(4 * (one * (2 * a + 6 * g)) + one * (4 * a + 6 * g) + one * (6 * a + 6 * g) <= most)
        by (nonlinear_arith)
        requires
            most == one * (18 * a + 64 * g),
            one > 0,
            g > 0,
            a >= 0,
    ;
}

proof fn lemma_part<C: Fn(Calc) -> Scalar>(
    c: int,
    calc: C,
    phi: Scalar,
    psi: Scalar,
    n: int,
    d: int,
)
    requires
        d == image(calc, Calc::Sin(whole(n) * phi)).value() - image(
            calc,
            Calc::Sin(whole(n) * psi),
        ).value(),
    ensures
        c * d == c * image(calc, Calc::Sin(whole(n) * phi)).value() - c * image(
            calc,
            Calc::Sin(whole(n) * psi),
        ).value(),
{
    let (x, y) = (
        image(calc, Calc::Sin(whole(n) * phi)).value(),
        image(calc, Calc::Sin(whole(n) * psi)).value(),
    );
    assert(c * (x - y) == c * x - c * y) by (nonlinear_arith);
}

/// The length that a correction makes up for, in whole numbers: `t` is the true length
/// and `h` the one so far, both in axes.
proof fn lemma_difference(
    one: int,
    g: int,
    k: int,
    m0: int,
    a: int,
    h: int,
    t: int,
    m: int,
    n: int,
    km: int,
    kn: int,
    y: int,
    diff: int,
    am: int,
)
    requires
        one == 0x4000_0000_0000 * g && g > 0,
        63 * one <= 64 * k <= 65 * one,
        63 * one <= 64 * m0 <= 65 * one,
        0x40_0000 * one <= a <= 0x80_0000 * one,
        -3 * one <= h <= 3 * one,
        -3 * one <= t <= 3 * one,
        apart(m * one, a * h, one * (0x20_0000 * g)),
        apart(n * one, a * t, one * (0x20_0000 * g)),
        apart(km * one, k * m, one * (0x20_0000 * g)),
        apart(kn * one, k * n, one * (0x20_0000 * g)),
        apart(y, kn, 4 * (0x20_0000 * g)),
        apart(diff, y - km, 0x20_0000 * g),
        apart(am * one, a * m0, one * (0x20_0000 * g)),
    ensures
        -(10 * (one * one * (0x20_0000 * g))) <= diff * one * one - k * (a * (t - h)),
        diff * one * one - k * (a * (t - h)) <= 10 * (one * one * (0x20_0000 * g)),
        -(7 * a) <= diff <= 7 * a,
        31 * a <= 32 * am <= 33 * a,
{
    let w = 0x20_0000 * g;
    let d = t - h;
    let ad = a * d;
    // The difference of the lengths.
    let nm = n - m;
    assert(nm * one - ad <= 2 * (one * w) && nm * one - ad >= -(2 * (one * w))) by (nonlinear_arith)
        requires
            nm == n - m,
            ad == a * d,
            d == t - h,
            -(one * w) <= m * one - a * h <= one * w,
            -(one * w) <= n * one - a * t <= one * w,
    ;
    // In the scale of the projection.
    let knm = k * nm;
    let gap = kn - km;
    assert(gap * one - knm <= 2 * (one * w) && gap * one - knm >= -(2 * (one * w)))
        by (nonlinear_arith)
        requires
            gap == kn - km,
            knm == k * nm,
            nm == n - m,
            -(one * w) <= km * one - k * m <= one * w,
            -(one * w) <= kn * one - k * n <= one * w,
    ;
    let kad = k * ad;
    assert(knm * one - kad <= 3 * (one * one * w) && knm * one - kad >= -(3 * (one * one * w)))
        by (nonlinear_arith)
        requires
            knm == k * nm,
            kad == k * ad,
            -(2 * (one * w)) <= nm * one - ad <= 2 * (one * w),
            0 < 64 * k <= 65 * one,
            one > 0,
            w > 0,
    ;
    assert(gap * one * one - kad <= 5 * (one * one * w) && gap * one * one - kad >= -(5 * (one * one
        * w))) by (nonlinear_arith)
        requires
            -(2 * (one * w)) <= gap * one - knm <= 2 * (one * w),
            -(3 * (one * one * w)) <= knm * one - kad <= 3 * (one * one * w),
            one > 0,
    ;
    assert(diff * one * one - kad <= 10 * (one * one * w) && diff * one * one - kad >= -(10 * (one
        * one * w))) by (nonlinear_arith)
        requires
            -(5 * w) <= diff - gap <= 5 * w,
            -(5 * (one * one * w)) <= gap * one * one - kad <= 5 * (one * one * w),
            one > 0,
            w > 0,
    ;
    lemma_divisor(one, g, m0, a, am);
    let oow = one * one * w;
    let dd = diff * one * one;
    assert(-(7 * (a * one * one)) <= dd && dd <= 7 * (a * one * one)) by (nonlinear_arith)
        requires
            -(10 * oow) <= dd - kad <= 10 * oow,
            oow == one * one * w,
            kad == k * ad,
            ad == a * d,
            0 < 64 * k <= 65 * one,
            -6 * one <= d <= 6 * one,
            0x40_0000 * one <= a,
            one == 0x4000_0000_0000 * g,
            w == 0x20_0000 * g,
            g > 0,
    ;
    assert(-(7 * a) <= diff && diff <= 7 * a) by (nonlinear_arith)
        requires
            -(7 * (a * one * one)) <= diff * one * one,
            diff * one * one <= 7 * (a * one * one),
            one > 0,
    ;
}

/// The divisor of a correction is nearly the axis.
proof fn lemma_divisor(one: int, g: int, m0: int, a: int, am: int)
    requires
        one == 0x4000_0000_0000 * g && g > 0,
        63 * one <= 64 * m0 <= 65 * one,
        0x40_0000 * one <= a,
        apart(am * one, a * m0, one * (0x20_0000 * g)),
    ensures
        31 * a <= 32 * am <= 33 * a,
{
    let w = 0x20_0000 * g;
    let amo = am * one;
    let am0 = a * m0;
    assert(31 * (a * one) <= 32 * amo && 32 * amo <= 33 * (a * one)) by (nonlinear_arith)
        requires
            -(one * w) <= amo - am0 <= one * w,
            am0 == a * m0,
            63 * one <= 64 * m0 <= 65 * one,
            0x40_0000 * one <= a,
            one == 0x4000_0000_0000 * g,
            w == 0x20_0000 * g,
            g > 0,
    ;
    assert(31 * a <= 32 * am && 32 * am <= 33 * a) by (nonlinear_arith)
        requires
            31 * (a * one) <= 32 * amo,
            32 * amo <= 33 * (a * one),
            amo == am * one,
            one > 0,
    ;
}

/// The correction, in whole numbers.
proof fn lemma_corrected(
    one: int,
    g: int,
    k: int,
    m0: int,
    a: int,
    d: int,
    ad: int,
    kad: int,
    diff: int,
    am: int,
    corr: int,
)
    requires
        one == 0x4000_0000_0000 * g && g > 0,
        63 * one <= 64 * k <= 65 * one,
        63 * one <= 64 * m0 <= 65 * one,
        0x40_0000 * one <= a <= 0x80_0000 * one,
        -6 * one <= d <= 6 * one,
        ad == a * d && kad == k * ad,
        -(10 * (one * one * (0x20_0000 * g))) <= diff * one * one - kad,
        diff * one * one - kad <= 10 * (one * one * (0x20_0000 * g)),
        apart(am * one, a * m0, one * (0x20_0000 * g)),
        am > 0,
        apart(corr * am, diff * one, am * g),
    ensures
        apart(corr * m0, k * d, 24 * (one * g)),
        -8 * one <= corr <= 8 * one,
{
    let w = 0x20_0000 * g;
    let amo = am * one;
    let am0 = a * m0;
    lemma_divisor(one, g, m0, a, am);
    // The correction is not large.
    let oow = one * one * w;
    let dd = diff * one * one;
    assert(-(7 * (a * one * one)) <= dd && dd <= 7 * (a * one * one)) by (nonlinear_arith)
        requires
            -(10 * oow) <= dd - kad <= 10 * oow,
            oow == one * one * w,
            kad == k * ad,
            ad == a * d,
            0 < 64 * k <= 65 * one,
            -6 * one <= d <= 6 * one,
            0x40_0000 * one <= a,
            one == 0x4000_0000_0000 * g,
            w == 0x20_0000 * g,
            g > 0,
    ;
    let dof = diff * one;
    assert(-(7 * (a * one)) <= dof && dof <= 7 * (a * one)) by (nonlinear_arith)
        requires
            -(7 * (a * one * one)) <= dof * one,
            dof * one <= 7 * (a * one * one),
            one > 0,
    ;
    let ca = corr * am;
    assert(-8 * one <= corr && corr <= 8 * one) by (nonlinear_arith)
        requires
            ca == corr * am,
            -(am * g) <= ca - dof <= am * g,
            -(7 * (a * one)) <= dof <= 7 * (a * one),
            31 * a <= 32 * am,
            am > 0,
            a > 0,
            one == 0x4000_0000_0000 * g,
            g > 0,
    ;
    // What it comes to.
    let cam0 = corr * am0;
    assert(-(8 * oow) <= corr * amo - cam0 && corr * amo - cam0 <= 8 * oow) by (nonlinear_arith)
        requires
            oow == one * one * w,
            cam0 == corr * am0,
            -(one * w) <= amo - am0 <= one * w,
            -8 * one <= corr <= 8 * one,
            one > 0,
            w > 0,
    ;
    assert(-(am * g * one) <= corr * amo - dd && corr * amo - dd <= am * g * one)
        by (nonlinear_arith)
        requires
            ca == corr * am,
            amo == am * one,
            dd == dof * one,
            -(am * g) <= ca - dof <= am * g,
            one > 0,
    ;
    assert(32 * (am * g * one) <= 33 * (a * g * one)) by (nonlinear_arith)
        requires
            32 * am <= 33 * a,
            g > 0,
            one > 0,
    ;
    assert(2 * oow <= a * g * one) by (nonlinear_arith)
        requires
            oow == one * one * w,
            w == 0x20_0000 * g,
            0x40_0000 * one <= a,
            g > 0,
            one > 0,
    ;
    let ago = a * g * one;
    assert(-(24 * ago) <= cam0 - kad && cam0 - kad <= 24 * ago);
    let (cm, kd) = (corr * m0, k * d);
    assert(cam0 == a * cm && kad == a * kd) by (nonlinear_arith)
        requires
            cam0 == corr * am0,
            am0 == a * m0,
            kad == k * ad,
            ad == a * d,
            cm == corr * m0,
            kd == k * d,
    ;
    assert(apart(cm, kd, 24 * (one * g))) by (nonlinear_arith)
        requires
            apart(cm, kd, 24 * (one * g)) == (-(24 * (one * g)) <= cm - kd && cm - kd <= 24 * (one
                * g)),
            -(24 * ago) <= a * cm - a * kd <= 24 * ago,
            ago == a * g * one,
            a > 0,
    ;
}

/// A corrected latitude is nearer to the true one by a factor of sixteen.
proof fn lemma_nearer(
    one: int,
    g: int,
    k: int,
    m0: int,
    h: int,
    t: int,
    xh: int,
    xt: int,
    e: int,
    corr: int,
    f: int,
)
    requires
        one == 0x4000_0000_0000 * g && g > 0,
        63 * one <= 64 * k <= 65 * one,
        63 * one <= 64 * m0 <= 65 * one,
        apart(corr * m0, k * (t - h), 24 * (one * g)),
        apart(h * one, xh, 16 * (one * g)),
        apart(t * one, xt, 16 * (one * g)),
        -(one * (18 * absolute(e) + 64 * g)) <= 1024 * (xh - xt - m0 * e),
        1024 * (xh - xt - m0 * e) <= one * (18 * absolute(e) + 64 * g),
        apart(f, e + corr, 4 * g),
    ensures
        16 * absolute(f) <= absolute(e) + 2048 * g,
{
    let a = absolute(e);
    let rest = xh - xt - m0 * e;
    let og = one * g;
    assert(og > 0) by (nonlinear_arith)
        requires
            og == one * g,
            one > 0,
            g > 0,
    ;
    let d = h - t;
    assert(d * one == h * one - t * one) by (nonlinear_arith)
        requires
            d == h - t,
    ;
    let me = m0 * e;
    assert(-(32 * og) <= d * one - me - rest && d * one - me - rest <= 32 * og);
    let kd = k * (t - h);
    let cm = corr * m0;
    let fm = m0 * f;
    assert(-(5 * og) <= fm - me - cm && fm - me - cm <= 5 * og) by (nonlinear_arith)
        requires
            fm == m0 * f,
            me == m0 * e,
            cm == corr * m0,
            -(4 * g) <= f - (e + corr) <= 4 * g,
            0 < 64 * m0 <= 65 * one,
            og == one * g,
            g > 0,
    ;
    assert(-(29 * og) <= fm - me - kd && fm - me - kd <= 29 * og);
    let kmr = k * (me + rest);
    assert(-(33 * (one * og)) <= kd * one + kmr && kd * one + kmr <= 33 * (one * og))
        by (nonlinear_arith)
        requires
            kd == k * (t - h),
            d == h - t,
            kmr == k * (me + rest),
            -(32 * og) <= d * one - me - rest <= 32 * og,
            0 < 64 * k <= 65 * one,
            og > 0,
    ;
    assert(-(62 * (one * og)) <= fm * one - me * one + kmr && fm * one - me * one + kmr <= 62 * (one
        * og)) by (nonlinear_arith)
        requires
            -(29 * og) <= fm - me - kd <= 29 * og,
            -(33 * (one * og)) <= kd * one + kmr <= 33 * (one * og),
            one > 0,
    ;
    let left = me * one - k * me;
    assert(kmr == k * me + k * rest) by (nonlinear_arith)
        requires
            kmr == k * (me + rest),
    ;
    let ma = m0 * a;
    assert(-(one * ma) <= 64 * left && 64 * left <= one * ma) by (nonlinear_arith)
        requires
            left == me * one - k * me,
            me == m0 * e,
            ma == m0 * a,
            a == e && e >= 0 || a == -e && e < 0,
            63 * one <= 64 * k <= 65 * one,
            m0 > 0,
            one > 0,
    ;
    assert(64 * ma <= 65 * (one * a)) by (nonlinear_arith)
        requires
            ma == m0 * a,
            64 * m0 <= 65 * one,
            a >= 0,
    ;
    let oma = one * ma;
    assert(64 * oma <= 65 * (one * one * a)) by (nonlinear_arith)
        requires
            oma == one * ma,
            64 * ma <= 65 * (one * a),
            one > 0,
    ;
    let kr = k * rest;
    let big = one * (18 * a + 64 * g);
    assert(-(65 * (one * big)) <= 65536 * kr && 65536 * kr <= 65 * (one * big)) by (nonlinear_arith)
        requires
            kr == k * rest,
            -big <= 1024 * rest <= big,
            0 < 64 * k <= 65 * one,
            big >= 0,
    ;
    let ooa = one * one * a;
    let oog = one * one * g;
    assert(one * big == 18 * ooa + 64 * oog && one * og == oog) by (nonlinear_arith)
        requires
            big == one * (18 * a + 64 * g),
            ooa == one * one * a,
            oog == one * one * g,
            og == one * g,
    ;
    let fo = fm * one;
    assert(65536 * fo <= 1024 * oma + 1170 * ooa + 4_067_392 * oog);
    assert(-65536 * fo <= 1024 * oma + 1170 * ooa + 4_067_392 * oog);
    assert(1024 * oma <= 1040 * ooa);
    let af = absolute(f);
    assert(63 * (one * one * af) <= 64 * absolute(fo)) by (nonlinear_arith)
        requires
            fo == m0 * f * one,
            63 * one <= 64 * m0,
            af == f && f >= 0 || af == -f && f < 0,
            absolute(fo) == fo && fo >= 0 || absolute(fo) == -fo && fo < 0,
            one > 0,
            m0 > 0,
    ;
    let oof = one * one * af;
    assert(65536 * absolute(fo) <= 2210 * ooa + 4_067_392 * oog);
    assert(4_128_768 * oof <= 4_194_304 * absolute(fo));
    assert(4_128_768 * oof <= 141_440 * ooa + 260_313_088 * oog);
    assert(ooa >= 0 && oog >= 0) by (nonlinear_arith)
        requires
            ooa == one * one * a,
            oog == one * one * g,
            a >= 0,
            g >= 0,
    ;
    assert(16 * oof <= ooa + 2048 * oog);
    assert(16 * af <= a + 2048 * g) by (nonlinear_arith)
        requires
            16 * oof <= ooa + 2048 * oog,
            oof == one * one * af,
            ooa == one * one * a,
            oog == one * one * g,
            one > 0,
    ;
}

/// Whether the ellipsoid of a projection is about as large as the Earth and flattened
/// little, and the scale is about one.
pub open spec fn earthlike(tm: TransverseMercator) -> bool {
    let (a, e2, k) = (tm.ellipsoid.a, tm.ellipsoid.eccentricity2(), tm.scale_factor);
    &&& a.finite() && 0x40_0000 * pow2(1074) <= a.value() <= 0x80_0000 * pow2(1074)
    &&& e2.finite() && 0 <= 128 * e2.value() <= pow2(1074)
    &&& k.finite() && 63 * pow2(1074) <= 64 * k.value() <= 65 * pow2(1074)
}

/// Whether a latitude in radians is one.
pub open spec fn is_latitude(phi: Scalar) -> bool {
    phi.finite() && -8 * pow2(1074) <= 5 * phi.value() <= 8 * pow2(1074)
}

/// The northing of a latitude, on the central meridian.
pub open spec fn northing<C: Fn(Calc) -> Scalar>(tm: TransverseMercator, calc: C, phi: Scalar) -> Scalar {
    tm.scale_factor * meridian_m(calc, tm.ellipsoid.a, tm.ellipsoid.eccentricity2(), phi)
}

pub proof fn lemma_wide_motes()
    ensures
        is_bound(1099),
        pow2(1099) == 0x200_0000 * pow2(1074),
        grain(1099) == 0x20_0000 * mote(),
{
    lemma2_to64();
    lemma_pow2_adds(25, 1074);
    lemma_pow2_adds(21, 1028);
}

/// A product of lengths.
proof fn lemma_long_product(a: Scalar, b: Scalar)
    requires
        a.finite() && b.finite(),
        absolute(a.value() * b.value()) <= 0x200_0000 * (pow2(1074) * pow2(1074)),
    ensures
        (a * b).finite(),
        apart(
            (a * b).value() * pow2(1074),
            a.value() * b.value(),
            pow2(1074) * (0x20_0000 * mote()),
        ),
{
    lemma_wide_motes();
    let one = pow2(1074) as int;
    assert(0x200_0000 * (one * one) == (0x200_0000 * one) * one) by (nonlinear_arith);
    lemma_product(a, b, 1099);
}

/// The length of the meridian and the northing, in whole numbers.
proof fn lemma_northing<C: Fn(Calc) -> Scalar>(calc: C, tm: TransverseMercator, phi: Scalar)
    requires
        earthlike(tm),
        true_sine(calc),
        phi.finite() && -2 * pow2(1074) <= phi.value() <= 2 * pow2(1074),
    ensures
        ({
            let (a, e2) = (tm.ellipsoid.a, tm.ellipsoid.eccentricity2());
            let h = meridian_axes(calc, e2, phi);
            let m = meridian_m(calc, a, e2, phi);
            let w = pow2(1074) * (0x20_0000 * mote());
            &&& m.finite() && northing(tm, calc, phi).finite()
            &&& apart(m.value() * pow2(1074), a.value() * h.value(), w)
            &&& apart(
                northing(tm, calc, phi).value() * pow2(1074),
                tm.scale_factor.value() * m.value(),
                w,
            )
            &&& -0x1a0_0000 * pow2(1074) <= northing(tm, calc, phi).value() <= 0x1a0_0000 * pow2(1074)
        }),
{
    lemma_motes();
    lemma_wide_motes();
    let (a, e2, k) = (tm.ellipsoid.a, tm.ellipsoid.eccentricity2(), tm.scale_factor);
    lemma_meridian_axes(calc, e2, phi);
    let h = meridian_axes(calc, e2, phi);
    assert(meridian_m(calc, a, e2, phi) == a * h);
    let (one, g) = (pow2(1074) as int, mote());
    let (av, hv, kv) = (a.value(), h.value(), k.value());
    let p = av * hv;
    assert(absolute(p) <= 0x180_0000 * (one * one)) by (nonlinear_arith)
        requires
            p == av * hv,
            0 < av <= 0x80_0000 * one,
            -3 * one <= hv <= 3 * one,
            absolute(p) == p || absolute(p) == -p,
    ;
    lemma_long_product(a, h);
    let mv = (a * h).value();
    assert(-0x180_0001 * one <= mv && mv <= 0x180_0001 * one) by (nonlinear_arith)
        requires
            -(one * (0x20_0000 * g)) <= mv * one - p <= one * (0x20_0000 * g),
            -(0x180_0000 * (one * one)) <= p <= 0x180_0000 * (one * one),
            one == 0x4000_0000_0000 * g,
            g > 0,
    ;
    let q = kv * mv;
    assert(absolute(q) <= 0x190_0000 * (one * one)) by (nonlinear_arith)
        requires
            q == kv * mv,
            0 < 64 * kv <= 65 * one,
            -0x180_0001 * one <= mv <= 0x180_0001 * one,
            absolute(q) == q || absolute(q) == -q,
    ;
    lemma_long_product(k, a * h);
    let nv = (k * (a * h)).value();
    assert(-0x1a0_0000 * one <= nv && nv <= 0x1a0_0000 * one) by (nonlinear_arith)
        requires
            -(one * (0x20_0000 * g)) <= nv * one - q <= one * (0x20_0000 * g),
            -(0x190_0000 * (one * one)) <= q <= 0x190_0000 * (one * one),
            one == 0x4000_0000_0000 * g,
            g > 0,
    ;
}

/// A correction of a latitude brings it nearer to the one whose northing is given.
proof fn lemma_step<C: Fn(Calc) -> Scalar>(
    calc: C,
    tm: TransverseMercator,
    y: Scalar,
    phi: Scalar,
    psi: Scalar,
)
    requires
        earthlike(tm),
        true_sine(calc),
        phi.finite() && -2 * pow2(1074) <= phi.value() <= 2 * pow2(1074),
        is_latitude(psi),
        y.finite(),
        apart(y.value(), northing(tm, calc, psi).value(), 4 * (0x20_0000 * mote())),
    ensures
        ({
            let (a, e2) = (tm.ellipsoid.a, tm.ellipsoid.eccentricity2());
            let next = phi + (y - northing(tm, calc, phi)) / (a * meridian_share(e2));
            &&& next.finite()
            &&& 16 * absolute(next.value() - psi.value()) <= absolute(phi.value() - psi.value())
                + 2048 * mote()
        }),
{
    lemma_motes();
    lemma_wide_motes();
    lemma_sizes();
    let (a, e2, k) = (tm.ellipsoid.a, tm.ellipsoid.eccentricity2(), tm.scale_factor);
    lemma_shares(e2);
    lemma_meridian_axes(calc, e2, phi);
    lemma_meridian_axes(calc, e2, psi);
    lemma_northing(calc, tm, phi);
    lemma_northing(calc, tm, psi);
    let (one, g) = (pow2(1074) as int, mote());
    let m0 = meridian_share(e2);
    let (h, t) = (meridian_axes(calc, e2, phi).value(), meridian_axes(calc, e2, psi).value());
    let (m, n) = (meridian_m(calc, a, e2, phi).value(), meridian_m(calc, a, e2, psi).value());
    let (km, kn) = (northing(tm, calc, phi), northing(tm, calc, psi));
    lemma_place_difference(y, km, 1099);
    let diff = y - km;
    let (av, mv) = (a.value(), m0.value());
    let p = av * mv;
    assert(absolute(p) <= 0x200_0000 * (one * one)) by (nonlinear_arith)
        requires
            p == av * mv,
            0 < av <= 0x80_0000 * one,
            0 < 64 * mv <= 65 * one,
            absolute(p) == p || absolute(p) == -p,
    ;
    lemma_long_product(a, m0);
    let am = a * m0;
    lemma_difference(
        one,
        g,
        k.value(),
        mv,
        av,
        h,
        t,
        m,
        n,
        km.value(),
        kn.value(),
        y.value(),
        diff.value(),
        am.value(),
    );
    let (dv, amv) = (diff.value(), am.value());
    assert(absolute(dv) * one <= (16 * one) * amv) by (nonlinear_arith)
        requires
            absolute(dv) <= 7 * av,
            31 * av <= 32 * amv,
            av > 0,
            one > 0,
    ;
    lemma_quotient(diff, am, 1078);
    let corr = diff / am;
    let d = t - h;
    lemma_corrected(
        one,
        g,
        k.value(),
        mv,
        av,
        d,
        av * d,
        k.value() * (av * d),
        dv,
        amv,
        corr.value(),
    );
    lemma_angle_sum(phi, corr);
    lemma_meridian_changes(calc, e2, phi, psi);
    let e = phi.value() - psi.value();
    lemma_nearer(
        one,
        g,
        k.value(),
        mv,
        h,
        t,
        meridian_exactly(calc, e2, phi),
        meridian_exactly(calc, e2, psi),
        e,
        corr.value(),
        (phi + corr).value() - psi.value(),
    );
}

/// The first guess of a latitude, in whole numbers.
proof fn lemma_guess(
    one: int,
    g: int,
    k: int,
    m0: int,
    a: int,
    t: int,
    n: int,
    kn: int,
    y: int,
    ka: int,
    kam: int,
)
    requires
        one == 0x4000_0000_0000 * g && g > 0,
        63 * one <= 64 * k <= 65 * one,
        63 * one <= 64 * m0 <= 65 * one,
        0x40_0000 * one <= a <= 0x80_0000 * one,
        -166 * one <= 100 * t <= 166 * one,
        apart(n * one, a * t, one * (0x20_0000 * g)),
        apart(kn * one, k * n, one * (0x20_0000 * g)),
        apart(y, kn, 4 * (0x20_0000 * g)),
        apart(ka * one, k * a, one * (0x20_0000 * g)),
        apart(kam * one, ka * m0, one * (0x20_0000 * g)),
    ensures
        kam > 0,
        absolute(y) <= 2 * kam,
{
    let w = 0x20_0000 * g;
    let kat = k * (a * t);
    let oow = one * one * w;
    let yo = y * one * one;
    assert(-(7 * oow) <= yo - kat && yo - kat <= 7 * oow) by (nonlinear_arith)
        requires
            yo == y * one * one,
            kat == k * (a * t),
            oow == one * one * w,
            -(one * w) <= n * one - a * t <= one * w,
            -(one * w) <= kn * one - k * n <= one * w,
            -(4 * w) <= y - kn <= 4 * w,
            0 < 64 * k <= 65 * one,
            one > 0,
            w > 0,
    ;
    let ko = k * a;
    let kamo = kam * one * one;
    let kam0 = ko * m0;
    assert(kamo >= kam0 - 3 * oow) by (nonlinear_arith)
        requires
            kamo == kam * one * one,
            kam0 == ko * m0,
            oow == one * one * w,
            -(one * w) <= ka * one - ko <= one * w,
            -(one * w) <= kam * one - ka * m0 <= one * w,
            0 < 64 * m0 <= 65 * one,
            one > 0,
            w > 0,
    ;
    assert(100 * kat <= 166 * (ko * one) && -(100 * kat) <= 166 * (ko * one)) by (nonlinear_arith)
        requires
            kat == k * (a * t),
            ko == k * a,
            -166 * one <= 100 * t <= 166 * one,
            k > 0,
            a > 0,
    ;
    assert(64 * kam0 >= 63 * (ko * one)) by (nonlinear_arith)
        requires
            kam0 == ko * m0,
            ko == k * a,
            63 * one <= 64 * m0,
            k > 0,
            a > 0,
    ;
    let koo = ko * one;
    assert(100 * oow <= koo) by (nonlinear_arith)
        requires
            oow == one * one * w,
            koo == ko * one,
            ko == k * a,
            w == 0x20_0000 * g,
            one == 0x4000_0000_0000 * g,
            63 * one <= 64 * k,
            0x40_0000 * one <= a,
            g > 0,
    ;
    assert(oow > 0) by (nonlinear_arith)
        requires
            oow == one * one * w,
            one > 0,
            w > 0,
    ;
    assert(kamo > 0 && yo <= 2 * kamo && -yo <= 2 * kamo);
    assert(kam > 0 && y <= 2 * kam && -y <= 2 * kam) by (nonlinear_arith)
        requires
            kamo == kam * one * one,
            yo == y * one * one,
            kamo > 0,
            yo <= 2 * kamo,
            -yo <= 2 * kamo,
            one > 0,
    ;
}

proof fn lemma_first_guess<C: Fn(Calc) -> Scalar>(
    calc: C,
    tm: TransverseMercator,
    y: Scalar,
    psi: Scalar,
)
    requires
        earthlike(tm),
        true_sine(calc),
        is_latitude(psi),
        y.finite(),
        apart(y.value(), northing(tm, calc, psi).value(), 4 * (0x20_0000 * mote())),
    ensures
        tm.footpoint(calc, y, 0).finite(),
        -2 * pow2(1074) <= tm.footpoint(calc, y, 0).value() <= 2 * pow2(1074),
{
    lemma_motes();
    lemma_wide_motes();
    let (a, e2, k) = (tm.ellipsoid.a, tm.ellipsoid.eccentricity2(), tm.scale_factor);
    lemma_shares(e2);
    lemma_meridian_axes(calc, e2, psi);
    lemma_northing(calc, tm, psi);
    let (one, g) = (pow2(1074) as int, mote());
    let m0 = meridian_share(e2);
    let (av, mv, kv) = (a.value(), m0.value(), k.value());
    let p = kv * av;
    assert(absolute(p) <= 0x200_0000 * (one * one)) by (nonlinear_arith)
        requires
            p == kv * av,
            0 < av <= 0x80_0000 * one,
            0 < 64 * kv <= 65 * one,
            absolute(p) == p || absolute(p) == -p,
    ;
    lemma_long_product(k, a);
    let ka = k * a;
    let kav = ka.value();
    assert(-(0x90_0000 * one) <= kav && kav <= 0x90_0000 * one) by (nonlinear_arith)
        requires
            -(one * (0x20_0000 * g)) <= kav * one - p <= one * (0x20_0000 * g),
            p == kv * av,
            0 < av <= 0x80_0000 * one,
            0 < 64 * kv <= 65 * one,
            one == 0x4000_0000_0000 * g,
            g > 0,
    ;
    let q = kav * mv;
    assert(absolute(q) <= 0x200_0000 * (one * one)) by (nonlinear_arith)
        requires
            q == kav * mv,
            -(0x90_0000 * one) <= kav <= 0x90_0000 * one,
            0 < 64 * mv <= 65 * one,
            absolute(q) == q || absolute(q) == -q,
    ;
    lemma_long_product(ka, m0);
    let kam = ka * m0;
    lemma_guess(
        one,
        g,
        kv,
        mv,
        av,
        meridian_axes(calc, e2, psi).value(),
        meridian_m(calc, a, e2, psi).value(),
        northing(tm, calc, psi).value(),
        y.value(),
        kav,
        kam.value(),
    );
    lemma2_to64();
    lemma_pow2_adds(1, 1074);
    let (yv, w) = (y.value(), kam.value());
    assert(absolute(yv) * one <= (2 * one) * w) by (nonlinear_arith)
        requires
            absolute(yv) <= 2 * w,
            one > 0,
    ;
    lemma_quotient(y, kam, 1075);
}

/// The latitude whose northing is given is found: after the eight corrections it is
/// off by at most 2^-30.
pub proof fn law_footpoint_is_found<C: Fn(Calc) -> Scalar>(
    calc: C,
    tm: TransverseMercator,
    y: Scalar,
    psi: Scalar,
)
    requires
        earthlike(tm),
        true_sine(calc),
        is_latitude(psi),
        y.finite(),
        apart(y.value(), northing(tm, calc, psi).value(), pow2(1051) as int),
    ensures
        tm.footpoint(calc, y, 8).finite(),
        apart(tm.footpoint(calc, y, 8).value(), psi.value(), pow2(1044) as int),
{
    lemma_motes();
    lemma2_to64();
    lemma_pow2_adds(23, 1028);
    lemma_pow2_adds(16, 1028);
    let g = mote();
    assert(pow2(1051) == 0x80_0000 * g && pow2(1044) == 0x1_0000 * g);
    lemma_first_guess(calc, tm, y, psi);
    let f = |k: int| tm.footpoint(calc, y, k);
    lemma_step(calc, tm, y, f(0), psi);
    assert(f(1) == tm.footpoint(calc, y, 1));
    lemma_step(calc, tm, y, f(1), psi);
    assert(f(2) == tm.footpoint(calc, y, 2));
    lemma_step(calc, tm, y, f(2), psi);
    assert(f(3) == tm.footpoint(calc, y, 3));
    lemma_step(calc, tm, y, f(3), psi);
    assert(f(4) == tm.footpoint(calc, y, 4));
    lemma_step(calc, tm, y, f(4), psi);
    assert(f(5) == tm.footpoint(calc, y, 5));
    lemma_step(calc, tm, y, f(5), psi);
    assert(f(6) == tm.footpoint(calc, y, 6));
    lemma_step(calc, tm, y, f(6), psi);
    assert(f(7) == tm.footpoint(calc, y, 7));
    lemma_step(calc, tm, y, f(7), psi);
    assert(f(8) == tm.footpoint(calc, y, 8));
}

pub proof fn lemma_root_from(n: int, m: int) -> (r: int)
    requires
        1 <= m < INFINITY_BITS,
        (magnitude_value(m - 1) + magnitude_value(m)) * (magnitude_value(m - 1) + magnitude_value(m))
            < 4 * n,
    ensures
        is_nearest_root(n, r),
    decreases INFINITY_BITS - m,
{
    lemma_magnitude_step(m);
    lemma_magnitude_step(m - 1);
    assert(magnitude_value(0) == 0);
    if m > 1 {
        lemma_magnitude_monotone(0, m - 1);
    }
    let top = magnitude_value(m) + magnitude_value(m + 1);
    if 4 * n < top * top || (4 * n == top * top && m % 2 == 0) {
        m
    } else if 4 * n == top * top || m + 1 == INFINITY_BITS {
        lemma_magnitude_step(m + 1);
        let more = magnitude_value(m + 1) + magnitude_value(m + 2);
        assert(top * top < more * more) by (nonlinear_arith)
            requires
                0 <= top < more,
        ;
        m + 1
    } else {
        lemma_root_from(n, m + 1)
    }
}

/// The root of a number about one.
proof fn lemma_root_about_one(x: Scalar)
    requires
        x.finite(),
        pow2(1074) <= 2 * x.value() <= 4 * pow2(1074),
    ensures
        x.root().finite(),
        pow2(1074) <= 4 * x.root().value() <= 16 * pow2(1074),
{
    reveal(Scalar::root);
    lemma_motes();
    lemma_absolute_value(x);
    assert(magnitude_value(0) == 0 && magnitude_value(1) == 1);
    let one = pow2(1074) as int;
    let n = x.value() * one;
    assert(one * one <= 2 * n && n <= 2 * (one * one) && n > 1) by (nonlinear_arith)
        requires
            n == x.value() * one,
            one <= 2 * x.value() <= 4 * one,
            one > 1,
    ;
    let floor = magnitude_value(0) + magnitude_value(1);
    assert(floor * floor == 1) by (nonlinear_arith)
        requires
            floor == 1,
    ;
    let m = lemma_root_from(n, 1);
    lemma_nearest_root_unique(n, m);
    lemma2_to64();
    lemma_pow2_adds(2, 1074);
    lemma_pow2_adds(2, 1072);
    lemma_power_pattern(1024);
    lemma_power_pattern(1020);
    let (high, low) = (power_pattern(1024), power_pattern(1020));
    let v = magnitude_value(m);
    if m > high {
        lemma_magnitude_monotone(high, m);
        if m - 1 > high {
            lemma_magnitude_monotone(high, m - 1);
        }
        let floor = magnitude_value(m - 1) + v;
        assert(floor * floor > 8 * (one * one)) by (nonlinear_arith)
            requires
                floor >= 8 * one,
                one > 0,
        ;
    } else if m < high {
        lemma_magnitude_monotone(m, high);
    }
    if m < low {
        lemma_magnitude_monotone(m, low);
        if m + 1 < low {
            lemma_magnitude_monotone(m + 1, low);
        }
        let top = v + magnitude_value(m + 1);
        if m > 0 {
            lemma_magnitude_monotone(0, m);
        }
        lemma_magnitude_monotone(0, m + 1);
        assert(top * top < 2 * (one * one)) by (nonlinear_arith)
            requires
                0 <= 2 * top <= one,
                one > 0,
        ;
    } else if m > low {
        lemma_magnitude_monotone(low, m);
    }
    lemma_signed_value(x.root(), false, m);
}

proof fn lemma_none_times(a: Scalar, b: Scalar)
    requires
        a.finite() && b.finite(),
        a.value() == 0 || b.value() == 0,
    ensures
        (a * b).finite() && (a * b).value() == 0,
{
    lemma_motes();
    let p = a.value() * b.value();
    assert(p == 0) by (nonlinear_arith)
        requires
            p == a.value() * b.value(),
            a.value() == 0 || b.value() == 0,
    ;
    reveal(Scalar::times);
    lemma_pow2_pos(1074);
    assert(magnitude_value(0) == 0);
    lemma_absolute_value(a);
    lemma_absolute_value(b);
    let one = pow2(1074) as int;
    let n = absolute(a.value()) * absolute(b.value());
    assert(n == 0) by (nonlinear_arith)
        requires
            n == absolute(a.value()) * absolute(b.value()),
            absolute(a.value()) == 0 || absolute(b.value()) == 0,
    ;
    assert(0 * one == 0);
    lemma_at_most(0, one, 0);
    lemma_nearest_exists(0, one);
    lemma_signed_value(a * b, a.negative() != b.negative(), nearest(0, one));
}

proof fn lemma_none_over(a: Scalar, b: Scalar)
    requires
        a.finite() && b.finite(),
        a.value() == 0,
        b.value() != 0,
    ensures
        (a / b).finite() && (a / b).value() == 0,
{
    reveal(Scalar::over);
    assert(magnitude_value(0) == 0);
    lemma_absolute_value(a);
    lemma_absolute_value(b);
    let (one, y) = (pow2(1074) as int, absolute(b.value()));
    let n = absolute(a.value()) * one;
    assert(n == 0) by (nonlinear_arith)
        requires
            n == absolute(a.value()) * one,
            absolute(a.value()) == 0,
    ;
    assert(0 * y == 0);
    lemma_at_most(0, y, 0);
    lemma_nearest_exists(0, y);
    lemma_signed_value(a / b, a.negative() != b.negative(), nearest(0, y));
}

/// Nothing more, and nothing less.
pub proof fn lemma_none_more(a: Scalar, b: Scalar)
    requires
        a.finite() && b.finite(),
        b.value() == 0,
    ensures
        (a + b).finite() && (a + b).value() == a.value(),
        (b + a).finite() && (b + a).value() == a.value(),
        (a - b).finite() && (a - b).value() == a.value(),
{
    reveal(Scalar::plus);
    assert(magnitude_value(0) == 0);
    assert(b.opposite().magnitude_bits() == b.magnitude_bits());
    lemma_absolute_value(a);
    let m = a.magnitude_bits();
    lemma_nearest_exact(m);
    if a.value() != 0 {
        lemma_signed_value(a + b, a.value() < 0, m);
        lemma_signed_value(b + a, a.value() < 0, m);
        lemma_signed_value(a - b, a.value() < 0, m);
    }
}

/// A number less its like.
proof fn lemma_less_itself(a: Scalar, b: Scalar)
    requires
        a.finite() && b.finite(),
        a.value() == b.value(),
    ensures
        (a - b).finite() && (a - b).value() == 0,
{
    reveal(Scalar::plus);
    assert(magnitude_value(0) == 0);
    assert(b.opposite().magnitude_bits() == b.magnitude_bits());
}

/// Whether a number is finite and at most 2^`i`.
spec fn wide(x: Scalar, i: nat) -> bool {
    within(x, 1074 + i)
}

proof fn lemma_wide_product(a: Scalar, b: Scalar, i: nat, j: nat)
    requires
        wide(a, i) && wide(b, j),
        i + j <= 900,
    ensures
        wide(a * b, i + j),
{
    lemma_pow2_adds(1074 + i, 1074 + j);
    lemma_pow2_adds(1074 + i + j, 1074);
    let (x, y, p, q) = (a.value(), b.value(), pow2(1074 + i) as int, pow2(1074 + j) as int);
    let v = x * y;
    assert(absolute(v) <= p * q) by (nonlinear_arith)
        requires
            v == x * y,
            -p <= x <= p,
            -q <= y <= q,
            absolute(v) == v || absolute(v) == -v,
    ;
    lemma_product(a, b, 1074 + i + j);
}

proof fn lemma_wide_sum(a: Scalar, b: Scalar, i: nat)
    requires
        wide(a, i) && wide(b, i),
        i <= 900,
    ensures
        wide(a + b, i + 1),
        wide(a - b, i + 1),
{
    lemma2_to64();
    lemma_pow2_adds(1, 1074 + i);
    let t: int = 1023 + i as int;
    lemma_power_pattern(t);
    lemma_sum(a, b, power_pattern(t));
    let c = b.opposite();
    assert(c.magnitude_bits() == b.magnitude_bits());
    lemma_sum(a, c, power_pattern(t));
    lemma_absolute_value(a + b);
    lemma_absolute_value(a - b);
}

proof fn lemma_wider(a: Scalar, i: nat, j: nat)
    requires
        wide(a, i),
        i <= j,
    ensures
        wide(a, j),
{
    let w = (j - i) as nat;
    lemma_pow2_adds(1074 + i, w);
    lemma_pow2_pos(w);
    lemma_pow2_pos(1074 + i);
    let (x, y) = (pow2(1074 + i) as int, pow2(w) as int);
    assert(x * y >= x) by (nonlinear_arith)
        requires
            x > 0,
            y >= 1,
    ;
}

/// A whole number up to 1024.
proof fn lemma_wide_count(n: int)
    requires
        0 <= n <= 1024,
    ensures
        wide(whole(n), 10),
        n > 0 ==> whole(n).value() > 0,
{
    lemma_count(n);
    lemma2_to64();
    lemma_pow2_adds(10, 1074);
    lemma_pow2_pos(1074);
    let one = pow2(1074) as int;
    assert(0 <= n * one && n * one <= 1024 * one && (n > 0 ==> n * one > 0)) by (nonlinear_arith)
        requires
            0 <= n <= 1024,
            one > 0,
    ;
}

/// Whether the powers of nothing are nothing, and a number about one has a power of
/// three halves about one.
pub open spec fn true_powers<C: Fn(Calc) -> Scalar>(calc: C) -> bool {
    &&& forall|q: Scalar, k: i32|
        q.finite() && q.value() == 0 && k > 0 ==> (#[trigger] image(
            calc,
            Calc::Powi(q, k),
        )).finite() && image(calc, Calc::Powi(q, k)).value() == 0
    &&& forall|x: Scalar|
        x.finite() && pow2(1074) <= 2 * x.value() <= 4 * pow2(1074) ==> {
            let p = #[trigger] image(calc, Calc::Powf(x, frac(3, 2)));
            p.finite() && pow2(1074) <= 4 * p.value() <= 16 * pow2(1074)
        }
}

/// Whether the tangent of an angle of at most two radians is finite and at most 2^60,
/// and its cosine lies between minus one and one and is not zero.
pub open spec fn true_tangent<C: Fn(Calc) -> Scalar>(calc: C) -> bool {
    forall|a: Scalar|
        a.finite() && -2 * pow2(1074) <= a.value() <= 2 * pow2(1074) ==> {
            &&& within(#[trigger] image(calc, Calc::Tan(a)), 1134)
            &&& within_one(image(calc, Calc::Cos(a)))
            &&& image(calc, Calc::Cos(a)).value() != 0
        }
}

/// What the projection needs of the ellipsoid at a latitude is finite.
proof fn lemma_curvature<C: Fn(Calc) -> Scalar>(calc: C, tm: TransverseMercator, phi: Scalar)
    requires
        earthlike(tm),
        true_sine(calc) && true_tangent(calc) && true_powers(calc),
        phi.finite() && -2 * pow2(1074) <= phi.value() <= 2 * pow2(1074),
    ensures
        ({
            let (a, e2) = (tm.ellipsoid.a, tm.ellipsoid.eccentricity2());
            let ep2 = e2 / (whole(1) - e2);
            let s = image(calc, Calc::Sin(phi));
            let tan = image(calc, Calc::Tan(phi));
            let cos = image(calc, Calc::Cos(phi));
            let n = across_m(a, e2, s);
            let r = a * (whole(1) - e2) / image(
                calc,
                Calc::Powf(whole(1) - e2 * s * s, frac(3, 2)),
            );
            &&& wide(n, 25) && n.value() > 0
            &&& (tm.scale_factor * n).finite() && (tm.scale_factor * n).value() > 0
            &&& wide(ep2, 1) && wide(ep2 * cos * cos, 1)
            &&& wide(tan * tan, 120)
            &&& wide(n * tan, 85)
            &&& (n * tan / r).finite()
        }),
{
    lemma_motes();
    lemma_wide_motes();
    lemma_sizes();
    lemma2_to64();
    lemma_exact(1);
    let (a, e2, k) = (tm.ellipsoid.a, tm.ellipsoid.eccentricity2(), tm.scale_factor);
    let (one, g) = (pow2(1074) as int, mote());
    let e = 0x80_0000_0000 * g;
    let s = image(calc, Calc::Sin(phi));
    let tan = image(calc, Calc::Tan(phi));
    let cos = image(calc, Calc::Cos(phi));
    lemma_pow2_adds(1, 1074);
    lemma_pow2_adds(25, 1074);
    // Under the root.
    lemma_share_of_flattening(e2, s);
    let x = whole(1) - e2 * s * s;
    lemma_angle_difference(whole(1), e2 * s * s);
    lemma_root_about_one(x);
    let w = x.root();
    let (av, wv) = (a.value(), w.value());
    assert(absolute(av) * one <= (0x200_0000 * one) * wv) by (nonlinear_arith)
        requires
            absolute(av) == av,
            0 < av <= 0x80_0000 * one,
            one <= 4 * wv,
            one > 0,
    ;
    lemma_quotient(a, w, 1099);
    let n = a / w;
    let nv = n.value();
    assert(nv >= 0x10_0000 * one - 0x20_0000 * g) by (nonlinear_arith)
        requires
            -(wv * (0x20_0000 * g)) <= nv * wv - av * one,
            0x40_0000 * one <= av,
            0 < wv <= 4 * one,
            one > 0,
            g > 0,
    ;
    assert(n == across_m(a, e2, s));
    // The scale.
    lemma_pow2_adds(1, 1074);
    assert(wide(k, 1) && wide(n, 25));
    lemma_scale(1100);
    lemma_pow2_adds(26, 1074);
    lemma_pow2_adds(22, 1028);
    let (kv, q) = (k.value(), k.value() * nv);
    assert(absolute(q) <= (0x400_0000 * one) * one) by (nonlinear_arith)
        requires
            q == kv * nv,
            0 < 64 * kv <= 65 * one,
            0 <= nv <= 0x200_0000 * one,
            one > 0,
            absolute(q) == q || absolute(q) == -q,
    ;
    lemma_product(k, n, 1100);
    let kn = (k * n).value();
    assert(kn > 0) by (nonlinear_arith)
        requires
            -(one * (0x40_0000 * g)) <= kn * one - q,
            q == kv * nv,
            63 * one <= 64 * kv,
            nv >= 0x10_0000 * one - 0x20_0000 * g,
            one == 0x4000_0000_0000 * g,
            g > 0,
    ;
    // The second eccentricity.
    lemma_angle_difference(whole(1), e2);
    let f = whole(1) - e2;
    let (ev, fv) = (e2.value(), f.value());
    assert(absolute(ev) * one <= (2 * one) * fv) by (nonlinear_arith)
        requires
            absolute(ev) == ev,
            0 <= 128 * ev <= one,
            one <= 2 * fv,
            one > 0,
    ;
    lemma_quotient(e2, f, 1075);
    let ep2 = e2 / f;
    lemma_wide_product(ep2, cos, 1, 0);
    lemma_wide_product(ep2 * cos, cos, 1, 0);
    lemma_wide_product(tan, tan, 60, 60);
    lemma_wide_product(n, tan, 25, 60);
    // Along the meridian.
    let af = a * f;
    let p = av * fv;
    assert(absolute(p) <= 0x200_0000 * (one * one) && 4 * p >= 0x40_0000 * (one * one))
        by (nonlinear_arith)
        requires
            p == av * fv,
            0x40_0000 * one <= av <= 0x80_0000 * one,
            one <= 2 * fv <= 4 * one,
            one > 0,
            absolute(p) == p || absolute(p) == -p,
    ;
    lemma_long_product(a, f);
    let afv = af.value();
    assert(afv >= 0x8_0000 * one && afv <= 0x110_0000 * one) by (nonlinear_arith)
        requires
            -(one * (0x20_0000 * g)) <= afv * one - p <= one * (0x20_0000 * g),
            4 * p >= 0x40_0000 * (one * one),
            p == av * fv,
            0 < av <= 0x80_0000 * one,
            2 * fv <= 4 * one,
            one == 0x4000_0000_0000 * g,
            g > 0,
    ;
    let pw = image(calc, Calc::Powf(x, frac(3, 2)));
    let pv = pw.value();
    lemma_pow2_adds(27, 1074);
    lemma_scale(1101);
    lemma_pow2_adds(23, 1028);
    assert(absolute(afv) * one <= (0x800_0000 * one) * pv) by (nonlinear_arith)
        requires
            absolute(afv) == afv,
            0 < afv <= 0x110_0000 * one,
            one <= 4 * pv,
            one > 0,
    ;
    lemma_quotient(af, pw, 1101);
    let r = af / pw;
    let rv = r.value();
    assert(rv >= one) by (nonlinear_arith)
        requires
            -(pv * (0x80_0000 * g)) <= rv * pv - afv * one,
            0x8_0000 * one <= afv,
            0 < pv <= 4 * one,
            one == 0x4000_0000_0000 * g,
            g > 0,
    ;
    let nt = n * tan;
    let (ntv, top) = (nt.value(), pow2(1159) as int);
    assert(absolute(ntv) * one <= top * rv) by (nonlinear_arith)
        requires
            absolute(ntv) <= top,
            one <= rv,
            one > 0,
            absolute(ntv) >= 0,
    ;
    lemma_quotient(nt, r, 1159);
}

proof fn lemma_share_of_flattening(e2: Scalar, s: Scalar)
    requires
        e2.finite() && 0 <= 128 * e2.value() <= pow2(1074),
        within_one(s),
    ensures
        (e2 * s * s).finite(),
        -pow2(1074) <= 16 * (e2 * s * s).value() <= pow2(1074),
{
    lemma_motes();
    let one = pow2(1074) as int;
    let (ev, sv) = (e2.value(), s.value());
    let p = ev * sv;
    assert(-(one * one) <= 128 * p && 128 * p <= one * one) by (nonlinear_arith)
        requires
            p == ev * sv,
            0 <= 128 * ev <= one,
            -one <= sv <= one,
    ;
    assert(absolute(p) <= (16 * one) * one) by (nonlinear_arith)
        requires
            -(one * one) <= 128 * p <= one * one,
            one > 0,
            absolute(p) == p || absolute(p) == -p,
    ;
    lemma_product(e2, s, 1078);
    let (v, g) = ((e2 * s).value(), mote());
    assert(-one <= 64 * v && 64 * v <= one) by (nonlinear_arith)
        requires
            -(one * g) <= v * one - p <= one * g,
            -(one * one) <= 128 * p <= one * one,
            one == 0x4000_0000_0000 * g,
            g > 0,
    ;
    let q = v * sv;
    assert(-(one * one) <= 64 * q && 64 * q <= one * one) by (nonlinear_arith)
        requires
            q == v * sv,
            -one <= 64 * v <= one,
            -one <= sv <= one,
    ;
    assert(absolute(q) <= (16 * one) * one) by (nonlinear_arith)
        requires
            -(one * one) <= 64 * q <= one * one,
            one > 0,
            absolute(q) == q || absolute(q) == -q,
    ;
    lemma_product(e2 * s, s, 1078);
    let w = (e2 * s * s).value();
    assert(-one <= 16 * w && 16 * w <= one) by (nonlinear_arith)
        requires
            -(one * g) <= w * one - q <= one * g,
            -(one * one) <= 64 * q <= one * one,
            one == 0x4000_0000_0000 * g,
            g > 0,
    ;
}

/// A series that nothing is put into is nothing.
proof fn lemma_no_term(f: Scalar, p: Scalar, n: int)
    requires
        f.finite() && p.finite() && p.value() == 0,
        0 < n <= 1024,
    ensures
        (f * p / whole(n)).finite() && (f * p / whole(n)).value() == 0,
{
    lemma_none_times(f, p);
    lemma_wide_count(n);
    lemma_none_over(f * p, whole(n));
}

/// A number of times a number.
proof fn lemma_wide_times(n: int, x: Scalar, i: nat)
    requires
        0 < n <= 1024,
        wide(x, i),
        i <= 400,
    ensures
        wide(whole(n) * x, i + 10),
{
    lemma_wide_count(n);
    lemma_wide_product(whole(n), x, 10, i);
}

/// Where a place on the central meridian lies in the plane: as far east as the false
/// easting, and as far north as the meridian is long.
proof fn lemma_meridian_plane<C: Fn(Calc) -> Scalar>(
    calc: C,
    tm: TransverseMercator,
    phi: Scalar,
    q: Scalar,
)
    requires
        earthlike(tm),
        true_sine(calc) && true_tangent(calc) && true_powers(calc),
        phi.finite() && -2 * pow2(1074) <= phi.value() <= 2 * pow2(1074),
        q.finite() && q.value() == 0,
        tm.false_easting.finite(),
        within(tm.false_northing, 1098),
    ensures
        ({
            let (a, e2) = (tm.ellipsoid.a, tm.ellipsoid.eccentricity2());
            let ep2 = e2 / (whole(1) - e2);
            let cos = image(calc, Calc::Cos(phi));
            let tan = image(calc, Calc::Tan(phi));
            let n = across_m(a, e2, image(calc, Calc::Sin(phi)));
            let (t, c) = (tan * tan, ep2 * cos * cos);
            let m = meridian_m(calc, a, e2, phi);
            let east = tm.east(calc, n, t, c, q, ep2);
            let north = tm.north(calc, m, n * tan, t, c, q, ep2);
            &&& east.finite() && east.value() == tm.false_easting.value()
            &&& (north - tm.false_northing).finite()
            &&& apart(
                (north - tm.false_northing).value(),
                northing(tm, calc, phi).value(),
                pow2(1051) as int,
            )
        }),
{
    let (a, e2) = (tm.ellipsoid.a, tm.ellipsoid.eccentricity2());
    let ep2 = e2 / (whole(1) - e2);
    let cos = image(calc, Calc::Cos(phi));
    let tan = image(calc, Calc::Tan(phi));
    let n = across_m(a, e2, image(calc, Calc::Sin(phi)));
    let (t, c) = (tan * tan, ep2 * cos * cos);
    lemma_curvature(calc, tm, phi);
    lemma_east(calc, tm, n, t, c, q, ep2);
    lemma_north(calc, tm, phi, n * tan, t, c, q, ep2);
}

proof fn lemma_east<C: Fn(Calc) -> Scalar>(
    calc: C,
    tm: TransverseMercator,
    n: Scalar,
    t: Scalar,
    c: Scalar,
    q: Scalar,
    ep2: Scalar,
)
    requires
        true_powers(calc),
        wide(t, 120) && wide(c, 1) && wide(ep2, 1),
        q.finite() && q.value() == 0,
        (tm.scale_factor * n).finite(),
        tm.false_easting.finite(),
    ensures
        tm.east(calc, n, t, c, q, ep2).finite(),
        tm.east(calc, n, t, c, q, ep2).value() == tm.false_easting.value(),
{
    let (p3, p5) = (image(calc, Calc::Powi(q, 3)), image(calc, Calc::Powi(q, 5)));
    lemma_wide_count(1);
    lemma_wide_count(5);
    lemma_wider(whole(1), 10, 120);
    lemma_wide_sum(whole(1), t, 120);
    lemma_wider(c, 1, 121);
    lemma_wide_sum(whole(1) - t, c, 121);
    let f3 = whole(1) - t + c;
    lemma_no_term(f3, p3, 6);
    lemma_wide_times(18, t, 120);
    lemma_wider(whole(5), 10, 130);
    lemma_wide_sum(whole(5), whole(18) * t, 130);
    lemma_wide_product(t, t, 120, 120);
    let x = whole(5) - whole(18) * t;
    lemma_wider(x, 131, 240);
    lemma_wide_sum(x, t * t, 240);
    lemma_wide_times(72, c, 1);
    lemma_wider(whole(72) * c, 11, 241);
    lemma_wide_sum(x + t * t, whole(72) * c, 241);
    lemma_wide_times(58, ep2, 1);
    lemma_wider(whole(58) * ep2, 11, 242);
    let y = x + t * t + whole(72) * c;
    lemma_wide_sum(y, whole(58) * ep2, 242);
    let f5 = y - whole(58) * ep2;
    lemma_no_term(f5, p5, 120);
    let (z3, z5) = (f3 * p3 / whole(6), f5 * p5 / whole(120));
    lemma_none_more(q, z3);
    lemma_none_more(q + z3, z5);
    let s = q + z3 + z5;
    lemma_none_times(tm.scale_factor * n, s);
    lemma_none_more(tm.false_easting, tm.scale_factor * n * s);
}

proof fn lemma_north<C: Fn(Calc) -> Scalar>(
    calc: C,
    tm: TransverseMercator,
    phi: Scalar,
    nt: Scalar,
    t: Scalar,
    c: Scalar,
    q: Scalar,
    ep2: Scalar,
)
    requires
        earthlike(tm),
        true_sine(calc) && true_powers(calc),
        phi.finite() && -2 * pow2(1074) <= phi.value() <= 2 * pow2(1074),
        wide(t, 120) && wide(c, 1) && wide(ep2, 1) && nt.finite(),
        q.finite() && q.value() == 0,
        within(tm.false_northing, 1098),
    ensures
        ({
            let m = meridian_m(calc, tm.ellipsoid.a, tm.ellipsoid.eccentricity2(), phi);
            let y = tm.north(calc, m, nt, t, c, q, ep2) - tm.false_northing;
            y.finite() && apart(y.value(), northing(tm, calc, phi).value(), pow2(1051) as int)
        }),
{
    let (p4, p6) = (image(calc, Calc::Powi(q, 4)), image(calc, Calc::Powi(q, 6)));
    let m = meridian_m(calc, tm.ellipsoid.a, tm.ellipsoid.eccentricity2(), phi);
    lemma_wide_count(5);
    lemma_wide_count(61);
    lemma_wider(whole(5), 10, 120);
    lemma_wide_sum(whole(5), t, 120);
    lemma_wide_times(9, c, 1);
    lemma_wider(whole(9) * c, 11, 121);
    lemma_wide_sum(whole(5) - t, whole(9) * c, 121);
    lemma_wide_times(4, c, 1);
    lemma_wide_product(whole(4) * c, c, 11, 1);
    lemma_wider(whole(4) * c * c, 12, 122);
    lemma_wide_sum(whole(5) - t + whole(9) * c, whole(4) * c * c, 122);
    let f4 = whole(5) - t + whole(9) * c + whole(4) * c * c;
    lemma_no_term(f4, p4, 24);
    lemma_wide_times(58, t, 120);
    lemma_wider(whole(61), 10, 130);
    lemma_wide_sum(whole(61), whole(58) * t, 130);
    let x = whole(61) - whole(58) * t;
    lemma_wide_product(t, t, 120, 120);
    lemma_wider(x, 131, 240);
    lemma_wide_sum(x, t * t, 240);
    lemma_wide_times(600, c, 1);
    lemma_wider(whole(600) * c, 11, 241);
    lemma_wide_sum(x + t * t, whole(600) * c, 241);
    lemma_wide_times(330, ep2, 1);
    lemma_wider(whole(330) * ep2, 11, 242);
    let y = x + t * t + whole(600) * c;
    lemma_wide_sum(y, whole(330) * ep2, 242);
    let f6 = y - whole(330) * ep2;
    lemma_no_term(f6, p6, 720);
    lemma_none_times(q, q);
    lemma_wide_count(2);
    lemma_none_over(q * q, whole(2));
    let (z4, z6) = (f4 * p4 / whole(24), f6 * p6 / whole(720));
    lemma_none_more(q * q / whole(2), z4);
    lemma_none_more(q * q / whole(2) + z4, z6);
    let s = q * q / whole(2) + z4 + z6;
    lemma_none_times(nt, s);
    lemma_northing(calc, tm, phi);
    lemma_none_more(m, nt * s);
    lemma_scaled_back(tm, m, m + nt * s);
}

/// The scale, and the false northing put on and taken off.
proof fn lemma_scaled_back(tm: TransverseMercator, m: Scalar, w: Scalar)
    requires
        earthlike(tm),
        m.finite() && w.finite() && w.value() == m.value(),
        (tm.scale_factor * m).finite(),
        -0x1a0_0000 * pow2(1074) <= (tm.scale_factor * m).value() <= 0x1a0_0000 * pow2(1074),
        apart(
            (tm.scale_factor * m).value() * pow2(1074),
            tm.scale_factor.value() * m.value(),
            pow2(1074) * (0x20_0000 * mote()),
        ),
        within(tm.false_northing, 1098),
    ensures
        ({
            let y = tm.scale_factor * w + tm.false_northing - tm.false_northing;
            y.finite() && apart(y.value(), (tm.scale_factor * m).value(), pow2(1051) as int)
        }),
{
    lemma_motes();
    lemma_wide_motes();
    lemma2_to64();
    lemma_pow2_adds(24, 1074);
    lemma_pow2_adds(23, 1028);
    let (one, g) = (pow2(1074) as int, mote());
    let (k, f) = (tm.scale_factor, tm.false_northing);
    let p = k.value() * m.value();
    let v = (k * m).value();
    assert(absolute(p) <= 0x200_0000 * (one * one)) by (nonlinear_arith)
        requires
            -(one * (0x20_0000 * g)) <= v * one - p <= one * (0x20_0000 * g),
            -0x1a0_0000 * one <= v <= 0x1a0_0000 * one,
            one == 0x4000_0000_0000 * g,
            g > 0,
            absolute(p) == p || absolute(p) == -p,
    ;
    lemma_long_product(k, w);
    let u = (k * w).value();
    assert(-(0x40_0000 * g) <= u - v && u - v <= 0x40_0000 * g) by (nonlinear_arith)
        requires
            -(one * (0x20_0000 * g)) <= v * one - p <= one * (0x20_0000 * g),
            -(one * (0x20_0000 * g)) <= u * one - p <= one * (0x20_0000 * g),
            one > 0,
    ;
    lemma_place_sum(k * w, f, 1099);
    lemma_place_difference(k * w + f, f, 1099);
}

/// The way back from the central meridian.
proof fn lemma_meridian_ground<C: Fn(Calc) -> Scalar>(
    calc: C,
    tm: TransverseMercator,
    easting: Scalar,
    north: Scalar,
    phi: Scalar,
)
    requires
        earthlike(tm),
        true_sine(calc) && true_tangent(calc) && true_powers(calc),
        easting.finite() && tm.false_easting.finite() && easting.value()
            == tm.false_easting.value(),
        phi == tm.footpoint(calc, north - tm.false_northing, 8),
        phi.finite() && -2 * pow2(1074) <= phi.value() <= 2 * pow2(1074),
        tm.central_meridian.finite(),
    ensures
        ({
            let (lon, lat) = tm.ground(calc, easting, north);
            &&& lon.finite() && lon.value() == tm.central_meridian.value()
            &&& exists|p: Scalar| #[trigger] degrees(p) == lat && p.finite() && p.value()
                == phi.value()
        }),
{
    let (a, e2) = (tm.ellipsoid.a, tm.ellipsoid.eccentricity2());
    let ep2 = e2 / (whole(1) - e2);
    let s = image(calc, Calc::Sin(phi));
    let cos = image(calc, Calc::Cos(phi));
    let tan = image(calc, Calc::Tan(phi));
    let n = across_m(a, e2, s);
    let r = a * (whole(1) - e2) / image(calc, Calc::Powf(whole(1) - e2 * s * s, frac(3, 2)));
    let (t, c) = (tan * tan, ep2 * cos * cos);
    lemma_curvature(calc, tm, phi);
    lemma_less_itself(easting, tm.false_easting);
    let x = easting - tm.false_easting;
    lemma_none_over(x, tm.scale_factor * n);
    let d = x / (tm.scale_factor * n);
    lemma_back_lon(calc, t, c, d, ep2);
    lemma_back_lat(calc, t, c, d, ep2);
    lemma_none_over(back_lon(calc, t, c, d, ep2), cos);
    let lam = back_lon(calc, t, c, d, ep2) / cos;
    let b = n * tan / r;
    lemma_none_times(b, back_lat(calc, t, c, d, ep2));
    lemma_none_more(phi, b * back_lat(calc, t, c, d, ep2));
    lemma_degree();
    lemma_none_times(lam, whole(180) / Scalar { bits: PI_BITS });
    lemma_none_more(tm.central_meridian, degrees(lam));
    let p = phi - b * back_lat(calc, t, c, d, ep2);
    assert(degrees(p) == tm.ground(calc, easting, north).1);
}

proof fn lemma_back_lon<C: Fn(Calc) -> Scalar>(calc: C, t: Scalar, c: Scalar, d: Scalar, ep2: Scalar)
    requires
        true_powers(calc),
        wide(t, 120) && wide(c, 1) && wide(ep2, 1),
        d.finite() && d.value() == 0,
    ensures
        back_lon(calc, t, c, d, ep2).finite() && back_lon(calc, t, c, d, ep2).value() == 0,
{
    let (p3, p5) = (image(calc, Calc::Powi(d, 3)), image(calc, Calc::Powi(d, 5)));
    lemma_wide_count(1);
    lemma_wide_count(5);
    lemma_wide_times(2, t, 120);
    lemma_wider(whole(1), 10, 130);
    lemma_wide_sum(whole(1), whole(2) * t, 130);
    lemma_wider(c, 1, 131);
    lemma_wide_sum(whole(1) + whole(2) * t, c, 131);
    let f3 = whole(1) + whole(2) * t + c;
    lemma_no_term(f3, p3, 6);
    lemma_wide_times(2, c, 1);
    lemma_wider(whole(5), 10, 11);
    lemma_wide_sum(whole(5), whole(2) * c, 11);
    let x = whole(5) - whole(2) * c;
    lemma_wide_times(28, t, 120);
    lemma_wider(x, 12, 130);
    lemma_wide_sum(x, whole(28) * t, 130);
    let y = x + whole(28) * t;
    lemma_wide_times(3, c, 1);
    lemma_wide_product(whole(3) * c, c, 11, 1);
    lemma_wider(whole(3) * c * c, 12, 131);
    lemma_wide_sum(y, whole(3) * c * c, 131);
    let z = y - whole(3) * c * c;
    lemma_wide_times(8, ep2, 1);
    lemma_wider(whole(8) * ep2, 11, 132);
    lemma_wide_sum(z, whole(8) * ep2, 132);
    lemma_wide_times(24, t, 120);
    lemma_wide_product(whole(24) * t, t, 130, 120);
    lemma_wider(z + whole(8) * ep2, 133, 250);
    lemma_wide_sum(z + whole(8) * ep2, whole(24) * t * t, 250);
    let f5 = z + whole(8) * ep2 + whole(24) * t * t;
    lemma_no_term(f5, p5, 120);
    lemma_none_more(d, f3 * p3 / whole(6));
    lemma_none_more(d - f3 * p3 / whole(6), f5 * p5 / whole(120));
}

proof fn lemma_back_lat<C: Fn(Calc) -> Scalar>(calc: C, t: Scalar, c: Scalar, d: Scalar, ep2: Scalar)
    requires
        true_powers(calc),
        wide(t, 120) && wide(c, 1) && wide(ep2, 1),
        d.finite() && d.value() == 0,
    ensures
        back_lat(calc, t, c, d, ep2).finite() && back_lat(calc, t, c, d, ep2).value() == 0,
{
    let (p4, p6) = (image(calc, Calc::Powi(d, 4)), image(calc, Calc::Powi(d, 6)));
    lemma_wide_count(5);
    lemma_wide_count(61);
    lemma_wide_count(2);
    lemma_wide_times(3, t, 120);
    lemma_wider(whole(5), 10, 130);
    lemma_wide_sum(whole(5), whole(3) * t, 130);
    let x = whole(5) + whole(3) * t;
    lemma_wide_times(10, c, 1);
    lemma_wider(whole(10) * c, 11, 131);
    lemma_wide_sum(x, whole(10) * c, 131);
    lemma_wide_times(4, c, 1);
    lemma_wide_product(whole(4) * c, c, 11, 1);
    lemma_wider(whole(4) * c * c, 12, 132);
    let y = x + whole(10) * c;
    lemma_wide_sum(y, whole(4) * c * c, 132);
    lemma_wide_times(9, ep2, 1);
    lemma_wider(whole(9) * ep2, 11, 133);
    let z = y - whole(4) * c * c;
    lemma_wide_sum(z, whole(9) * ep2, 133);
    let f4 = z - whole(9) * ep2;
    lemma_no_term(f4, p4, 24);
    lemma_wide_times(90, t, 120);
    lemma_wider(whole(61), 10, 130);
    lemma_wide_sum(whole(61), whole(90) * t, 130);
    let u = whole(61) + whole(90) * t;
    lemma_wide_times(298, c, 1);
    lemma_wider(whole(298) * c, 11, 131);
    lemma_wide_sum(u, whole(298) * c, 131);
    let v = u + whole(298) * c;
    lemma_wide_times(45, t, 120);
    lemma_wide_product(whole(45) * t, t, 130, 120);
    lemma_wider(v, 132, 250);
    lemma_wide_sum(v, whole(45) * t * t, 250);
    let w = v + whole(45) * t * t;
    lemma_wide_times(252, ep2, 1);
    lemma_wider(whole(252) * ep2, 11, 251);
    lemma_wide_sum(w, whole(252) * ep2, 251);
    lemma_wide_times(3, c, 1);
    lemma_wide_product(whole(3) * c, c, 11, 1);
    lemma_wider(whole(3) * c * c, 12, 252);
    lemma_wide_sum(w - whole(252) * ep2, whole(3) * c * c, 252);
    let f6 = w - whole(252) * ep2 - whole(3) * c * c;
    lemma_no_term(f6, p6, 720);
    lemma_none_times(d, d);
    lemma_none_over(d * d, whole(2));
    lemma_none_more(d * d / whole(2), f4 * p4 / whole(24));
    lemma_none_more(d * d / whole(2) - f4 * p4 / whole(24), f6 * p6 / whole(720));
}

/// A degree and a radian.
proof fn lemma_degree()
    ensures
        ({
            let pi = Scalar { bits: PI_BITS };
            let (rho, delta) = (pi / whole(180), whole(180) / pi);
            &&& pi.finite() && 2 * pi.value() == lap()
            &&& rho.finite() && apart(180 * rho.value(), pi.value(), 180 * mote())
            &&& delta.finite() && 0 <= delta.value() <= 64 * pow2(1074)
            &&& apart(
                delta.value() * pi.value(),
                180 * (pow2(1074) * pow2(1074)) as int,
                pi.value() * (4 * mote()),
            )
        }),
{
    lemma_motes();
    lemma_sizes();
    lemma_exact(180);
    lemma2_to64();
    lemma2_to64_rest();
    lemma_pow2_adds(6, 1074);
    lemma_pow2_adds(2, 1028);
    let pi = Scalar { bits: PI_BITS };
    let (one, g) = (pow2(1074) as int, mote());
    let t: int = 0x4009_21fb_5444_2d18;
    let u: int = 0x4019_21fb_5444_2d18;
    let f: int = FRACTION_LIMIT as int;
    assert(t / f == 1024 && t % f == 0x9_21fb_5444_2d18);
    assert(u / f == 1025 && u % f == 0x9_21fb_5444_2d18);
    lemma_pow2_adds(1, 1023);
    let x = pow2(1023) as int;
    assert(pi.value() == (f + 0x9_21fb_5444_2d18) * x);
    assert(lap() == (f + 0x9_21fb_5444_2d18) * (2 * x));
    assert((f + 0x9_21fb_5444_2d18) * (2 * x) == 2 * ((f + 0x9_21fb_5444_2d18) * x))
        by (nonlinear_arith);
    let (pv, w) = (pi.value(), whole(180).value());
    assert(absolute(pv) * one <= (16 * one) * w) by (nonlinear_arith)
        requires
            absolute(pv) == pv,
            0 < 2 * pv < 7 * one,
            w == 180 * one,
            one > 0,
    ;
    lemma_quotient(pi, whole(180), 1078);
    let rv = (pi / whole(180)).value();
    assert(-(180 * g) <= 180 * rv - pv && 180 * rv - pv <= 180 * g) by (nonlinear_arith)
        requires
            -(w * g) <= rv * w - pv * one <= w * g,
            w == 180 * one,
            one > 0,
    ;
    assert(absolute(w) * one <= (64 * one) * pv) by (nonlinear_arith)
        requires
            absolute(w) == w,
            w == 180 * one,
            6 * one < 2 * pv,
            one > 0,
    ;
    lemma_quotient(whole(180), pi, 1080);
    let d = whole(180) / pi;
    let dv = d.value();
    assert(w * one == 180 * (one * one)) by (nonlinear_arith)
        requires
            w == 180 * one,
    ;
    assert(dv >= 0) by (nonlinear_arith)
        requires
            -(pv * (4 * g)) <= dv * pv - w * one,
            w == 180 * one,
            one == 0x4000_0000_0000 * g,
            0 < 2 * pv < 7 * one,
            g > 0,
    ;
}

/// Degrees to radians and back, with a small error of the radians, in whole numbers.
proof fn lemma_degrees_back(
    one: int,
    g: int,
    pi: int,
    rho: int,
    delta: int,
    lat: int,
    psi: int,
    phi: int,
    back: int,
)
    requires
        one == 0x4000_0000_0000 * g && g > 0,
        6 * one < 2 * pi < 7 * one,
        apart(180 * rho, pi, 180 * g),
        0 <= delta <= 64 * one,
        apart(delta * pi, 180 * (one * one), pi * (4 * g)),
        -90 * one <= lat <= 90 * one,
        apart(psi * one, lat * rho, one * g),
        apart(phi, psi, 0x1_0000 * g),
        apart(back * one, phi * delta, one * (8 * g)),
    ensures
        apart(10_000_000 * back, 10_000_000 * lat, one),
{
    let oo = one * one;
    let og = one * g;
    assert(og > 0) by (nonlinear_arith)
        requires
            og == one * g,
            one > 0,
            g > 0,
    ;
    let rd = rho * delta;
    let gd = g * delta;
    assert(gd <= 64 * og && gd >= 0) by (nonlinear_arith)
        requires
            gd == g * delta,
            og == one * g,
            0 <= delta <= 64 * one,
            g > 0,
    ;
    assert(-(180 * gd) <= 180 * rd - delta * pi && 180 * rd - delta * pi <= 180 * gd)
        by (nonlinear_arith)
        requires
            rd == rho * delta,
            gd == g * delta,
            -(180 * g) <= 180 * rho - pi <= 180 * g,
            delta >= 0,
    ;
    assert(pi * (4 * g) <= 14 * og) by (nonlinear_arith)
        requires
            2 * pi < 7 * one,
            og == one * g,
            g > 0,
    ;
    assert(-(65 * og) <= rd - oo && rd - oo <= 65 * og);
    // The true latitude in degrees.
    let pd = psi * delta;
    let lr = lat * rho;
    let lrd = lr * delta;
    assert(-(one * gd) <= pd * one - lrd && pd * one - lrd <= one * gd) by (nonlinear_arith)
        requires
            pd == psi * delta,
            lrd == lr * delta,
            gd == g * delta,
            -(one * g) <= psi * one - lr <= one * g,
            delta >= 0,
    ;
    assert(lrd == lat * rd) by (nonlinear_arith)
        requires
            lrd == lr * delta,
            lr == lat * rho,
            rd == rho * delta,
    ;
    let lo = lat * oo;
    assert(-(5850 * (one * og)) <= lrd - lo && lrd - lo <= 5850 * (one * og)) by (nonlinear_arith)
        requires
            lrd == lat * rd,
            lo == lat * oo,
            -(65 * og) <= rd - oo <= 65 * og,
            -90 * one <= lat <= 90 * one,
            og > 0,
    ;
    assert(one * gd <= 64 * (one * og)) by (nonlinear_arith)
        requires
            gd <= 64 * og,
            one > 0,
    ;
    let lone = lat * one;
    assert(lo == lone * one) by (nonlinear_arith)
        requires
            lo == lat * oo,
            oo == one * one,
            lone == lat * one,
    ;
    assert(-(5914 * og) <= pd - lone && pd - lone <= 5914 * og) by (nonlinear_arith)
        requires
            -(5914 * (one * og)) <= pd * one - lone * one <= 5914 * (one * og),
            one > 0,
    ;
    // What came back.
    let fd = phi * delta;
    assert(-(4_194_304 * og) <= fd - pd && fd - pd <= 4_194_304 * og) by (nonlinear_arith)
        requires
            fd == phi * delta,
            pd == psi * delta,
            -(0x1_0000 * g) <= phi - psi <= 0x1_0000 * g,
            0 <= delta <= 64 * one,
            og == one * g,
            g > 0,
            one > 0,
    ;
    assert(one * (8 * g) == 8 * og) by (nonlinear_arith)
        requires
            og == one * g,
    ;
    let bo = back * one;
    assert(-(4_200_226 * og) <= bo - lone && bo - lone <= 4_200_226 * og);
    assert(-(4_200_226 * g) <= back - lat && back - lat <= 4_200_226 * g) by (nonlinear_arith)
        requires
            -(4_200_226 * og) <= bo - lone <= 4_200_226 * og,
            bo == back * one,
            lone == lat * one,
            og == one * g,
            one > 0,
    ;
}

/// On the central meridian a place comes back from the plane: with the same longitude,
/// and the same latitude but for 10^-7 degrees.
pub proof fn law_meridian_round_trip<C: Fn(Calc) -> Scalar>(
    calc: C,
    tm: TransverseMercator,
    lat: Scalar,
)
    requires
        earthlike(tm),
        true_sine(calc) && true_tangent(calc) && true_powers(calc),
        tm.central_meridian.finite() && tm.false_easting.finite(),
        within(tm.false_northing, 1098),
        lat.finite() && -90 * pow2(1074) <= lat.value() <= 90 * pow2(1074),
    ensures
        ({
            let (x, y) = tm.plane(calc, tm.central_meridian, lat);
            let (lon, back) = tm.ground(calc, x, y);
            &&& lon.finite() && lon.value() == tm.central_meridian.value()
            &&& back.finite() && apart(
                10_000_000 * back.value(),
                10_000_000 * lat.value(),
                pow2(1074) as int,
            )
        }),
{
    lemma_motes();
    lemma_sizes();
    lemma_lap();
    lemma_degree();
    lemma2_to64();
    lemma_pow2_adds(16, 1028);
    lemma_pow2_adds(7, 1074);
    lemma_pow2_adds(3, 1028);
    let (one, g) = (pow2(1074) as int, mote());
    let pi = Scalar { bits: PI_BITS };
    let (rho, delta) = (pi / whole(180), whole(180) / pi);
    // The latitude in radians.
    let (lv, rv) = (lat.value(), rho.value());
    let p = lv * rv;
    lemma_latitude(one, g, lv, rv, pi.value());
    assert(absolute(p) <= (16 * one) * one) by (nonlinear_arith)
        requires
            -(79 * one * one) <= 50 * p <= 79 * one * one,
            absolute(p) == p || absolute(p) == -p,
    ;
    lemma_product(lat, rho, 1078);
    let psi = radians(lat);
    let sv = psi.value();
    assert(-8 * one <= 5 * sv && 5 * sv <= 8 * one) by (nonlinear_arith)
        requires
            -(one * g) <= sv * one - p <= one * g,
            -(79 * one * one) <= 50 * p <= 79 * one * one,
            one == 0x4000_0000_0000 * g,
            g > 0,
    ;
    // The plane.
    let cm = tm.central_meridian;
    lemma_less_itself(cm, cm);
    lemma_none_times(cm - cm, rho);
    let lam = radians(cm - cm);
    let cos = image(calc, Calc::Cos(psi));
    assert(within(image(calc, Calc::Tan(psi)), 1134) && within_one(cos));
    lemma_none_times(lam, cos);
    lemma_meridian_plane(calc, tm, psi, lam * cos);
    let (x, y) = tm.plane(calc, cm, lat);
    law_footpoint_is_found(calc, tm, y - tm.false_northing, psi);
    let foot = tm.footpoint(calc, y - tm.false_northing, 8);
    lemma_meridian_ground(calc, tm, x, y, foot);
    let back = tm.ground(calc, x, y).1;
    let phi = choose|q: Scalar| #[trigger] degrees(q) == back && q.finite() && q.value()
        == foot.value();
    let (fv, dv) = (phi.value(), delta.value());
    let w = fv * dv;
    assert(absolute(w) <= (128 * one) * one) by (nonlinear_arith)
        requires
            w == fv * dv,
            -2 * one <= fv <= 2 * one,
            0 <= dv <= 64 * one,
            one > 0,
            absolute(w) == w || absolute(w) == -w,
    ;
    lemma_product(phi, delta, 1081);
    lemma_degrees_back(one, g, pi.value(), rv, dv, lv, sv, fv, back.value());
}

proof fn lemma_latitude(one: int, g: int, lat: int, rho: int, pi: int)
    requires
        one == 0x4000_0000_0000 * g && g > 0,
        -90 * one <= lat <= 90 * one,
        -(180 * g) <= 180 * rho - pi <= 180 * g,
        6 * one < 2 * pi,
        20 * pi < 63 * one,
    ensures
        -(79 * one * one) <= 50 * (lat * rho) <= 79 * one * one,
{
    let p = lat * rho;
    assert(-(79 * one * one) <= 50 * p && 50 * p <= 79 * one * one) by (nonlinear_arith)
        requires
            p == lat * rho,
            -90 * one <= lat <= 90 * one,
            0 <= rho,
            3600 * rho <= 63 * one + 3600 * g,
            one == 0x4000_0000_0000 * g,
            g > 0,
    ;
}

} // verus!
