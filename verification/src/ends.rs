//! The curves of turning circles run from end to end.

use crate::arith::{absolute, signed};
use crate::back::lemma_rest;
use crate::cell::{lemma_at_most, lemma_count, lemma_one, lemma_rounding, lemma_sum};
use crate::dubins::{
    best_ccc, best_csc, ccc_path, csc_path, full_turn, heading_gap, heading_on, moved, on_circle,
    other_turn, parted_arc, pivot_path, reversed, seen_from, share_of, shortest_path, still_path,
    turn_center, turned, DubinsPath, Spot, Turn,
    QUARTER_BITS, TAU_BITS,
};
use crate::geometry::hypotenuse;
use crate::loops::{lemma_half, lemma_not_past};
use crate::margin::{
    lemma_at_least_power, lemma_at_most_power, lemma_power_pattern, lemma_small_whole, lemma_value_of, power_pattern,
};
use crate::numeric::{frac, whole};
use crate::oracle::{image, Calc};
use crate::rounding::{lemma_nearest_exists, nearest};
use crate::scalar::{
    lemma_magnitude_monotone, magnitude_value, units, Scalar, FRACTION_LIMIT, INFINITY_BITS,
};
use vstd::arithmetic::div_mod::lemma_fundamental_div_mod;
use vstd::arithmetic::power2::{
    lemma2_to64, lemma2_to64_rest, lemma_pow2_adds, lemma_pow2_pos, pow2,
};
use vstd::prelude::*;

verus! {

pub open spec fn tau() -> Scalar {
    Scalar { bits: TAU_BITS }
}

pub open spec fn right_angle() -> Scalar {
    Scalar { bits: QUARTER_BITS }
}

/// A full turn, in units of 2^-1074.
pub open spec fn lap() -> int {
    (Scalar { bits: TAU_BITS }).value()
}

/// A quarter of a turn, in units of 2^-1074.
pub open spec fn quarter() -> int {
    (Scalar { bits: QUARTER_BITS }).value()
}

/// 2^-44: more than the error of one sum of angles.
pub open spec fn speck() -> int {
    pow2(1030) as int
}

/// Part 2^-50 of a bound on the coordinates and the radius: more than the error of one
/// sum of coordinates. The bound is 2^`z` units of 2^-1074 metres.
pub open spec fn grain(z: nat) -> int {
    pow2((z - 50) as nat) as int
}

/// Whether a bound on the coordinates and the radius is at least a metre, and leaves
/// room for their sums.
pub open spec fn is_bound(z: nat) -> bool {
    1074 <= z <= 2090
}

/// How large the numbers are beside each other.
pub proof fn lemma_sizes()
    ensures
        pow2(1074) == 0x1000_0000_0000 * speck(),
        speck() >= 0x10_0000 * FRACTION_LIMIT,
        lap() == 4 * quarter(),
        6 * pow2(1074) < lap() < 7 * pow2(1074),
        tau().finite() && right_angle().finite(),
        !tau().negative() && !right_angle().negative(),
{
    lemma2_to64();
    lemma2_to64_rest();
    lemma_pow2_adds(44, 1030);
    lemma_pow2_adds(72, 958);
    lemma_pow2_adds(20, 52);
    lemma_pow2_pos(958);
    assert(pow2(72) == 0x10_0000 * FRACTION_LIMIT);
    let (a, b) = (pow2(72) as int, pow2(958) as int);
    assert(a * b >= a) by (nonlinear_arith)
        requires
            a > 0,
            b >= 1,
    ;
    lemma_pow2_adds(958, 1);
    assert(b >= 1);
    lemma_pow2_adds(2, 1022);
    lemma_pow2_adds(50, 1024);
    let t: int = 0x4019_21fb_5444_2d18;
    let q: int = 0x3ff9_21fb_5444_2d18;
    let f: int = FRACTION_LIMIT as int;
    assert(t / f == 1025 && t % f == 0x9_21fb_5444_2d18);
    assert(q / f == 1023 && q % f == 0x9_21fb_5444_2d18);
    let x = pow2(1022) as int;
    assert(lap() == (f + 0x9_21fb_5444_2d18) * (4 * x));
    assert(quarter() == (f + 0x9_21fb_5444_2d18) * x);
    assert((f + 0x9_21fb_5444_2d18) * (4 * x) == 4 * ((f + 0x9_21fb_5444_2d18) * x))
        by (nonlinear_arith);
    lemma_pow2_pos(1022);
}

/// A full turn is less than 6.3.
pub proof fn lemma_lap()
    ensures
        10 * lap() < 63 * pow2(1074),
{
    lemma2_to64();
    lemma2_to64_rest();
    lemma_pow2_adds(2, 1022);
    lemma_pow2_adds(52, 1022);
    lemma_pow2_pos(1022);
    let t: int = 0x4019_21fb_5444_2d18;
    let f: int = FRACTION_LIMIT as int;
    assert(t / f == 1025 && t % f == 0x9_21fb_5444_2d18);
    let x = pow2(1022) as int;
    assert(lap() == (f + 0x9_21fb_5444_2d18) * (4 * x));
    assert(10 * lap() < 63 * (f * x)) by (nonlinear_arith)
        requires
            lap() == (f + 0x9_21fb_5444_2d18) * (4 * x),
            f == 0x10_0000_0000_0000,
            x > 0,
    ;
}

/// A sum of angles.
pub proof fn lemma_angle_sum(a: Scalar, b: Scalar)
    requires
        a.finite() && b.finite(),
        -255 * pow2(1074) <= a.value() + b.value() <= 255 * pow2(1074),
    ensures
        (a + b).finite(),
        -speck() <= (a + b).value() - (a.value() + b.value()) <= speck(),
{
    lemma_sizes();
    lemma_power_pattern(1030);
    lemma_pow2_adds(8, 1074);
    lemma2_to64();
    assert(pow2(1082) == 256 * pow2(1074));
    lemma_sum(a, b, power_pattern(1030));
    let v = a.value() + b.value();
    let off = (a + b).value() - v;
    let s = speck();
    assert(absolute(off) <= s) by (nonlinear_arith)
        requires
            absolute(off) * 0x10_0000_0000_0000 <= absolute(v) + 0x10_0000_0000_0000,
            absolute(v) <= 255 * (0x1000_0000_0000 * s),
            s >= 0x10_0000 * 0x10_0000_0000_0000,
    ;
}

pub proof fn lemma_angle_difference(a: Scalar, b: Scalar)
    requires
        a.finite() && b.finite(),
        -255 * pow2(1074) <= a.value() - b.value() <= 255 * pow2(1074),
    ensures
        (a - b).finite(),
        -speck() <= (a - b).value() - (a.value() - b.value()) <= speck(),
{
    let c = b.opposite();
    assert(c.magnitude_bits() == b.magnitude_bits());
    assert(c.value() == -b.value());
    lemma_angle_sum(a, c);
}

/// How large a bound is beside its grain.
pub proof fn lemma_scale(z: nat)
    requires
        is_bound(z),
    ensures
        pow2(z) == 0x4_0000_0000_0000 * grain(z),
        pow2(1074) <= pow2(z),
        grain(z) >= 0x10_0000 * FRACTION_LIMIT,
{
    lemma2_to64();
    lemma2_to64_rest();
    let y = (z - 50) as nat;
    lemma_pow2_adds(50, y);
    lemma_pow2_adds(72, (y - 72) as nat);
    lemma_pow2_adds(20, 52);
    lemma_pow2_pos((y - 72) as nat);
    let (a, b) = (pow2(72) as int, pow2((y - 72) as nat) as int);
    assert(a * b >= a) by (nonlinear_arith)
        requires
            a > 0,
            b >= 1,
    ;
    let w = (z - 1074) as nat;
    lemma_pow2_adds(1074, w);
    lemma_pow2_pos(w);
    lemma_pow2_pos(1074);
    let (c, d) = (pow2(1074) as int, pow2(w) as int);
    assert(c * d >= c) by (nonlinear_arith)
        requires
            c > 0,
            d >= 1,
    ;
}

/// A sum of coordinates.
pub proof fn lemma_place_sum(a: Scalar, b: Scalar, z: nat)
    requires
        is_bound(z),
        a.finite() && b.finite(),
        -7 * pow2(z) <= 2 * (a.value() + b.value()) <= 7 * pow2(z),
    ensures
        (a + b).finite(),
        -grain(z) <= (a + b).value() - (a.value() + b.value()) <= grain(z),
{
    lemma_scale(z);
    lemma_power_pattern(z - 50);
    lemma_pow2_adds(2, z);
    lemma2_to64();
    assert(pow2((z + 2) as nat) == 4 * pow2(z));
    lemma_sum(a, b, power_pattern(z - 50));
    let v = a.value() + b.value();
    let off = (a + b).value() - v;
    let g = grain(z);
    assert(absolute(off) <= g) by (nonlinear_arith)
        requires
            absolute(off) * 0x10_0000_0000_0000 <= absolute(v) + 0x10_0000_0000_0000,
            2 * absolute(v) <= 7 * (0x4_0000_0000_0000 * g),
            g >= 0x10_0000 * 0x10_0000_0000_0000,
    ;
}

pub proof fn lemma_place_difference(a: Scalar, b: Scalar, z: nat)
    requires
        is_bound(z),
        a.finite() && b.finite(),
        -7 * pow2(z) <= 2 * (a.value() - b.value()) <= 7 * pow2(z),
    ensures
        (a - b).finite(),
        -grain(z) <= (a - b).value() - (a.value() - b.value()) <= grain(z),
{
    let c = b.opposite();
    assert(c.magnitude_bits() == b.magnitude_bits());
    assert(c.value() == -b.value());
    lemma_place_sum(a, c, z);
}

/// The value of a number with a sign.
pub proof fn lemma_signed_value(x: Scalar, negative: bool, m: int)
    requires
        x == signed(negative, m),
        0 <= m < INFINITY_BITS,
    ensures
        x.finite(),
        x.value() == (if negative {
            -magnitude_value(m)
        } else {
            magnitude_value(m)
        }),
        magnitude_value(m) >= 0,
{
    if m > 0 {
        lemma_magnitude_monotone(0, m);
    }
    assert(magnitude_value(0) == 0);
}

pub proof fn lemma_absolute_value(x: Scalar)
    requires
        x.finite(),
    ensures
        absolute(x.value()) == magnitude_value(x.magnitude_bits()),
        magnitude_value(x.magnitude_bits()) >= 0,
        x.value() < 0 ==> x.negative(),
        x.value() > 0 ==> !x.negative(),
{
    let m = x.magnitude_bits();
    if m > 0 {
        lemma_magnitude_monotone(0, m);
    }
    assert(magnitude_value(0) == 0);
}

/// A radius times a sine or cosine.
proof fn lemma_reach(r: Scalar, s: Scalar, z: nat)
    requires
        is_bound(z),
        r.finite() && s.finite(),
        0 <= r.value() <= pow2(z),
        -pow2(1074) <= s.value() <= pow2(1074),
    ensures
        (r * s).finite(),
        -r.value() <= (r * s).value() <= r.value(),
        -(pow2(1074) * grain(z)) <= (r * s).value() * pow2(1074) - r.value() * s.value(),
        (r * s).value() * pow2(1074) - r.value() * s.value() <= pow2(1074) * grain(z),
{
    reveal(Scalar::times);
    lemma_sizes();
    lemma_scale(z);
    lemma_absolute_value(r);
    lemma_absolute_value(s);
    let one = pow2(1074) as int;
    let (a, b) = (absolute(r.value()), absolute(s.value()));
    let n = a * b;
    assert(0 <= n && n <= a * one) by (nonlinear_arith)
        requires
            n == a * b,
            0 <= a,
            0 <= b <= one,
    ;
    lemma_at_most(n, one, r.magnitude_bits());
    lemma_rounding(n, one);
    lemma_nearest_exists(n, one);
    let m = nearest(n, one);
    let negative = r.negative() != s.negative();
    lemma_signed_value(r * s, negative, m);
    let x = magnitude_value(m);
    let off = x * one - n;
    let g = grain(z);
    assert(-(one * g) <= off && off <= one * g) by (nonlinear_arith)
        requires
            -(n + one * 0x10_0000_0000_0000) <= off * 0x10_0000_0000_0000,
            off * 0x10_0000_0000_0000 <= n + one * 0x10_0000_0000_0000,
            n <= a * one,
            0 <= a <= 0x4_0000_0000_0000 * g,
            one > 0,
            g >= 0x10_0000 * 0x10_0000_0000_0000,
    ;
    let v = (r * s).value();
    let rs = r.value() * s.value();
    if negative {
        assert(v * one == -(x * one)) by (nonlinear_arith)
            requires
                v == -x,
        ;
    }
    if s.value() == 0 || r.value() == 0 {
        assert(n == 0 && rs == 0) by (nonlinear_arith)
            requires
                n == a * b,
                b == 0 || a == 0,
                rs == r.value() * s.value(),
                s.value() == 0 || r.value() == 0,
        ;
    } else if s.value() > 0 {
        assert(rs == n);
    } else {
        assert(rs == -n) by (nonlinear_arith)
            requires
                n == a * b,
                a == r.value(),
                b == -s.value(),
                rs == r.value() * s.value(),
        ;
    }
}

/// A turn brought between zero and a full one.
pub proof fn lemma_full_turn(x: Scalar) -> (k: int)
    requires
        x.finite(),
        -128 * pow2(1074) <= x.value() <= 128 * pow2(1074),
    ensures
        full_turn(x).finite(),
        0 <= full_turn(x).value() <= 7 * pow2(1074),
        -22 <= k <= 22,
        -2 * speck() <= full_turn(x).value() - x.value() - k * lap() <= 2 * speck(),
{
    reveal(Scalar::remainder);
    lemma_sizes();
    lemma_absolute_value(x);
    let one = pow2(1074) as int;
    let (t, v) = (lap(), absolute(x.value()));
    let (q, rest) = (v / t, v % t);
    lemma_fundamental_div_mod(v, t);
    assert(0 <= q <= 21) by (nonlinear_arith)
        requires
            v == t * q + rest,
            0 <= rest < t,
            0 <= v <= 128 * one,
            6 * one < t,
            one > 0,
    ;
    assert(t * q == q * t) by (nonlinear_arith);
    let m = x.remainder(tau());
    assert(absolute(tau().value()) == t);
    assert(!tau().zero());
    lemma_at_most(rest, 1, tau().magnitude_bits());
    lemma_rounding(rest, 1);
    lemma_nearest_exists(rest, 1);
    lemma_signed_value(m, x.negative(), nearest(rest, 1));
    let w = magnitude_value(nearest(rest, 1));
    let s = speck();
    assert(-s <= w - rest && w - rest <= s) by (nonlinear_arith)
        requires
            -(rest + 0x10_0000_0000_0000) <= (w * 1 - rest) * 0x10_0000_0000_0000,
            (w * 1 - rest) * 0x10_0000_0000_0000 <= rest + 0x10_0000_0000_0000,
            0 <= rest < 7 * (0x1000_0000_0000 * s),
            s >= 0x10_0000 * 0x10_0000_0000_0000,
    ;
    lemma_count(0);
    if m < whole(0) {
        lemma_angle_sum(m, tau());
        lemma_sum(m, tau(), tau().magnitude_bits());
        lemma_absolute_value(m + tau());
        let r = m + tau();
        assert(x.negative());
        assert(r.value() >= 0) by {
            reveal(Scalar::plus);
            assert(magnitude_value(0) == 0);
        }
        assert((q + 1) * t == q * t + t) by (nonlinear_arith);
        q + 1
    } else if x.negative() {
        q
    } else {
        assert((-q) * t == -(q * t)) by (nonlinear_arith);
        -q
    }
}

/// Some full turns.
pub open spec fn laps(k: int) -> int {
    k * lap()
}

/// Whether an angle is none but for `d`, or some full turns.
pub open spec fn no_turn(x: int, d: int) -> bool {
    exists|k: int| -64 <= k <= 64 && -d <= x - #[trigger] laps(k) <= d
}

/// Whether a number is an angle of at most forty turns.
pub open spec fn is_angle(a: Scalar) -> bool {
    a.finite() && -255 * pow2(1074) <= a.value() <= 255 * pow2(1074)
}

/// Whether `b` is a quarter of a turn behind `a`, but for `d`.
pub open spec fn behind(a: Scalar, b: Scalar, d: int) -> bool {
    is_angle(a) && is_angle(b) && 0 <= d && no_turn(b.value() - a.value() + quarter(), d)
}

/// Whether `b` is a quarter of a turn ahead of `a`, but for `d`.
pub open spec fn ahead(a: Scalar, b: Scalar, d: int) -> bool {
    is_angle(a) && is_angle(b) && 0 <= d && no_turn(b.value() - a.value() - quarter(), d)
}

/// Whether two numbers lie at most `d` apart.
pub open spec fn apart(x: int, y: int, d: int) -> bool {
    -d <= x - y <= d
}

/// Whether a number lies between minus one and one.
pub open spec fn within_one(x: Scalar) -> bool {
    x.finite() && -pow2(1074) <= x.value() <= pow2(1074)
}

/// Whether `x` and `y` are `rho` times the cosine and sine of `a`, but for the part
/// `d` of `rho`.
pub open spec fn seen_along<C: Fn(Calc) -> Scalar>(
    calc: C,
    y: Scalar,
    x: Scalar,
    a: Scalar,
    rho: int,
    d: int,
) -> bool {
    &&& is_angle(a) && x.finite() && y.finite()
    &&& 0 < rho
    &&& 0 <= 2 * d <= pow2(1074)
    &&& apart(x.value() * pow2(1074), rho * image(calc, Calc::Cos(a)).value(), d * rho)
    &&& apart(y.value() * pow2(1074), rho * image(calc, Calc::Sin(a)).value(), d * rho)
}

/// Whether sine, cosine and direction are those of a circle, but for 2^-44: they stay
/// in their ranges, a quarter of a turn leads from cosine to sine, and the direction of
/// a place is the angle that the place lies at.
pub open spec fn true_circle<C: Fn(Calc) -> Scalar>(calc: C) -> bool {
    &&& forall|a: Scalar| a.finite() ==> within_one(#[trigger] image(calc, Calc::Sin(a)))
    &&& forall|a: Scalar| a.finite() ==> within_one(#[trigger] image(calc, Calc::Cos(a)))
    &&& forall|y: Scalar, x: Scalar|
        {
            let a = #[trigger] image(calc, Calc::Atan2(y, x));
            &&& !y.nan() && !x.nan() ==> a.finite()
            &&& a.finite() ==> -4 * pow2(1074) <= a.value() <= 4 * pow2(1074)
        }
    &&& forall|a: Scalar, b: Scalar, d: int| #[trigger]
        behind(a, b, d) ==> {
            &&& apart(
                image(calc, Calc::Cos(b)).value(),
                image(calc, Calc::Sin(a)).value(),
                d + speck(),
            )
            &&& apart(
                image(calc, Calc::Sin(b)).value(),
                -image(calc, Calc::Cos(a)).value(),
                d + speck(),
            )
        }
    &&& forall|a: Scalar, b: Scalar, d: int| #[trigger]
        ahead(a, b, d) ==> {
            &&& apart(
                image(calc, Calc::Cos(b)).value(),
                -image(calc, Calc::Sin(a)).value(),
                d + speck(),
            )
            &&& apart(
                image(calc, Calc::Sin(b)).value(),
                image(calc, Calc::Cos(a)).value(),
                d + speck(),
            )
        }
    &&& forall|y: Scalar, x: Scalar, a: Scalar, rho: int, d: int| #[trigger]
        seen_along(calc, y, x, a, rho, d) ==> no_turn(
            image(calc, Calc::Atan2(y, x)).value() - a.value(),
            2 * d + speck(),
        )
}

/// Whether a coordinate is finite and within a bound.
pub open spec fn within(x: Scalar, z: nat) -> bool {
    x.finite() && -pow2(z) <= x.value() <= pow2(z)
}

/// Whether a radius is positive and within a bound.
pub open spec fn turnable(r: Scalar, z: nat) -> bool {
    is_bound(z) && r.finite() && 0 < r.value() <= pow2(z)
}

/// Whether a coordinate is the given one but for the part `d` of the radius, and a
/// little.
spec fn returned(x: Scalar, p: Scalar, r: Scalar, d: int, z: nat) -> bool {
    x.finite() && apart(
        x.value() * pow2(1074),
        p.value() * pow2(1074),
        r.value() * d + 4 * (pow2(1074) * grain(z)),
    )
}

/// To a centre and back.
proof fn lemma_out_and_in(p: Scalar, r: Scalar, s: Scalar, e: Scalar, d: int, z: nat)
    requires
        within(p, z) && turnable(r, z),
        within_one(s) && within_one(e),
    ensures
        apart(e.value(), s.value(), d) ==> returned(p - r * s + r * e, p, r, d, z),
        apart(e.value(), -s.value(), d) ==> returned(p + r * s + r * e, p, r, d, z),
{
    lemma_sizes();
    lemma_scale(z);
    lemma_reach(r, s, z);
    lemma_reach(r, e, z);
    let one = pow2(1074) as int;
    let g = grain(z);
    let (rv, sv, ev, pv) = (r.value(), s.value(), e.value(), p.value());
    let (rs, re) = ((r * s).value(), (r * e).value());
    if apart(ev, sv, d) {
        lemma_place_difference(p, r * s, z);
        let c = p - r * s;
        lemma_place_sum(c, r * e, z);
        let x = (c + r * e).value();
        assert(-(rv * d + 4 * (one * g)) <= x * one - pv * one && x * one - pv * one <= rv * d
            + 4 * (one * g)) by (nonlinear_arith)
            requires
                -2 * g <= x - pv + rs - re <= 2 * g,
                -(one * g) <= rs * one - rv * sv <= one * g,
                -(one * g) <= re * one - rv * ev <= one * g,
                -d <= ev - sv <= d,
                rv > 0,
                one > 0,
        ;
    }
    if apart(ev, -sv, d) {
        lemma_place_sum(p, r * s, z);
        let c = p + r * s;
        lemma_place_sum(c, r * e, z);
        let x = (c + r * e).value();
        assert(-(rv * d + 4 * (one * g)) <= x * one - pv * one && x * one - pv * one <= rv * d
            + 4 * (one * g)) by (nonlinear_arith)
            requires
                -2 * g <= x - pv - rs - re <= 2 * g,
                -(one * g) <= rs * one - rv * sv <= one * g,
                -(one * g) <= re * one - rv * ev <= one * g,
                -d <= ev + sv <= d,
                rv > 0,
                one > 0,
        ;
    }
}

/// Whether an angle is the one at which a place lies on its turning circle.
spec fn starts(th: Scalar, b: Scalar, t: Turn, d: int) -> bool {
    match t {
        Turn::L => behind(th, b, d),
        Turn::R => ahead(th, b, d),
    }
}

/// The place on its own turning circle.
proof fn lemma_back<C: Fn(Calc) -> Scalar>(
    calc: C,
    p: Spot,
    th: Scalar,
    t: Turn,
    r: Scalar,
    b: Scalar,
    d: int,
    z: nat,
)
    requires
        true_circle(calc),
        within(p.0, z) && within(p.1, z) && turnable(r, z),
        starts(th, b, t, d),
    ensures
        ({
            let q = on_circle(calc, turn_center(calc, p, th, t, r), r, b);
            returned(q.0, p.0, r, d + speck(), z) && returned(q.1, p.1, r, d + speck(), z)
        }),
{
    let (s, c) = (image(calc, Calc::Sin(th)), image(calc, Calc::Cos(th)));
    let (u, v) = (image(calc, Calc::Sin(b)), image(calc, Calc::Cos(b)));
    lemma_out_and_in(p.0, r, s, v, d + speck(), z);
    lemma_out_and_in(p.1, r, c, u, d + speck(), z);
}

/// A millionth, but for the error of one quotient.
pub proof fn lemma_millionth()
    ensures
        frac(1, 1_000_000).finite(),
        frac(1, 1_000_000).value() >= 0,
        1_000_000 * frac(1, 1_000_000).value() <= pow2(1074) + speck(),
{
    reveal(Scalar::over);
    lemma_sizes();
    lemma_one();
    lemma2_to64();
    lemma2_to64_rest();
    lemma_count(1);
    lemma_small_whole(1_000_000, 33);
    lemma_pow2_adds(19, 1055);
    let (one, e, h) = (pow2(1074) as int, speck(), pow2(1055) as int);
    let (n, d) = (one * one, units(1_000_000));
    assert(n <= h * d && n >= 0 && d > 0) by (nonlinear_arith)
        requires
            n == one * one,
            d == 1_000_000 * one,
            one == 0x8_0000 * h,
            one > 0,
    ;
    lemma_at_most_power(n, d, 1003);
    lemma_rounding(n, d);
    lemma_nearest_exists(n, d);
    lemma_value_of(frac(1, 1_000_000), nearest(n, d));
    lemma_absolute_value(frac(1, 1_000_000));
    let x = frac(1, 1_000_000).value();
    assert(1_000_000 * x <= one + e) by (nonlinear_arith)
        requires
            (x * d - n) * 0x10_0000_0000_0000 <= n + d * 0x10_0000_0000_0000,
            n == one * one,
            d == 1_000_000 * one,
            one == 0x1000_0000_0000 * e,
            e >= 0x10_0000 * 0x10_0000_0000_0000,
    ;
}

/// Two headings that differ by at most a millionth.
proof fn lemma_gap(h: Scalar, t: Scalar) -> (k: int)
    requires
        h.finite() && t.finite(),
        -8 * pow2(1074) <= h.value() <= 8 * pow2(1074),
        -8 * pow2(1074) <= t.value() <= 8 * pow2(1074),
        !(heading_gap(h, t) > frac(1, 1_000_000)),
    ensures
        -22 <= k <= 22,
        apart(h.value() - t.value(), k * lap(), frac(1, 1_000_000).value() + 3 * speck()),
{
    lemma_sizes();
    lemma_millionth();
    lemma_angle_difference(h, t);
    lemma_angle_difference(t, h);
    let i = lemma_full_turn(h - t);
    let j = lemma_full_turn(t - h);
    let (x, y) = (full_turn(h - t), full_turn(t - h));
    let l = lap();
    if heading_gap(h, t) == x {
        assert((-i) * l == -(i * l)) by (nonlinear_arith);
        -i
    } else {
        assert(heading_gap(h, t) == y);
        j
    }
}

/// The angle of the start of a first arc.
proof fn lemma_start_angle(phi: Scalar, tangent: Scalar, th: Scalar, t: Turn, z: Scalar)
    requires
        phi.finite() && tangent.finite() && th.finite() && z.finite(),
        -4 * pow2(1074) <= phi.value() <= 4 * pow2(1074),
        -4 * pow2(1074) <= tangent.value() <= 4 * pow2(1074),
        -32 * pow2(1074) <= th.value() <= 32 * pow2(1074),
        z.value() == 0,
        !(heading_gap(heading_on(phi, t), tangent) > frac(1, 1_000_000)),
    ensures
        ({
            let start = moved(phi, turned(th, tangent, t), other_turn(t));
            starts(th, moved(start, z, t), t, frac(1, 1_000_000).value() + 10 * speck())
        }),
{
    lemma_sizes();
    lemma_millionth();
    let l = lap();
    let d = frac(1, 1_000_000).value() + 10 * speck();
    let (k, n, b) = match t {
        Turn::L => {
            lemma_angle_sum(phi, right_angle());
            lemma_angle_difference(tangent, th);
            let n = lemma_full_turn(tangent - th);
            let a = full_turn(tangent - th);
            lemma_angle_difference(phi, a);
            lemma_angle_sum(phi - a, z);
            (lemma_gap(phi + right_angle(), tangent), n, phi - a + z)
        },
        Turn::R => {
            lemma_angle_difference(phi, right_angle());
            lemma_angle_difference(th, tangent);
            let n = lemma_full_turn(th - tangent);
            let a = full_turn(th - tangent);
            lemma_angle_sum(phi, a);
            lemma_angle_difference(phi + a, z);
            (lemma_gap(phi - right_angle(), tangent), n, phi + a - z)
        },
    };
    let m = if t == Turn::L {
        k - n
    } else {
        k + n
    };
    assert((k - n) * l == k * l - n * l && (k + n) * l == k * l + n * l) by (nonlinear_arith);
    assert(laps(m) == m * l);
    if t == Turn::L {
        assert(no_turn(b.value() - th.value() + quarter(), d));
    } else {
        assert(no_turn(b.value() - th.value() - quarter(), d));
    }
}

/// The angle of the end of a last arc.
proof fn lemma_end_angle(phi: Scalar, tangent: Scalar, th: Scalar, t: Turn, w: Scalar, d: int)
    requires
        phi.finite() && tangent.finite() && th.finite() && w.finite(),
        -4 * pow2(1074) <= phi.value() <= 4 * pow2(1074),
        -8 * pow2(1074) <= tangent.value() <= 8 * pow2(1074),
        -32 * pow2(1074) <= th.value() <= 32 * pow2(1074),
        apart(w.value(), turned(tangent, th, t).value(), speck()),
        0 <= d,
        exists|k: int|
            -22 <= k <= 22 && apart(
                heading_on(phi, t).value() - tangent.value(),
                #[trigger] laps(k),
                d,
            ),
    ensures
        starts(th, moved(phi, w, t), t, d + 10 * speck()),
{
    lemma_sizes();
    let l = lap();
    let k = choose|k: int|
        -22 <= k <= 22 && apart(heading_on(phi, t).value() - tangent.value(), #[trigger] laps(k), d);
    let (n, b) = match t {
        Turn::L => {
            lemma_angle_sum(phi, right_angle());
            lemma_angle_difference(th, tangent);
            let n = lemma_full_turn(th - tangent);
            lemma_angle_sum(phi, w);
            (n, phi + w)
        },
        Turn::R => {
            lemma_angle_difference(phi, right_angle());
            lemma_angle_difference(tangent, th);
            let n = lemma_full_turn(tangent - th);
            lemma_angle_difference(phi, w);
            (n, phi - w)
        },
    };
    let m = if t == Turn::L {
        k + n
    } else {
        k - n
    };
    assert((k - n) * l == k * l - n * l && (k + n) * l == k * l + n * l) by (nonlinear_arith);
    assert(laps(m) == m * l && laps(k) == k * l);
    if t == Turn::L {
        assert(no_turn(b.value() - th.value() + quarter(), d + 10 * speck()));
    } else {
        assert(no_turn(b.value() - th.value() - quarter(), d + 10 * speck()));
    }
}

/// A count is at least one, and finite.
pub proof fn lemma_counted(n: int)
    requires
        1 <= n <= 0x1_0000_0000_0000_0000,
    ensures
        whole(n).finite(),
        !whole(n).negative(),
        pow2(1074) <= whole(n).value() <= 0x1_0000_0000_0000_0000 * pow2(1074),
{
    reveal(whole);
    lemma2_to64_rest();
    lemma_pow2_pos(1074);
    lemma_pow2_adds(64, 1074);
    let one = pow2(1074) as int;
    let v = n * one;
    assert(one <= v && v <= 0x1_0000_0000_0000_0000 * one) by (nonlinear_arith)
        requires
            v == n * one,
            1 <= n <= 0x1_0000_0000_0000_0000,
            one > 0,
    ;
    lemma_at_least_power(v, 1, 1022);
    lemma_at_most_power(v, 1, 1086);
    lemma_nearest_exists(v, 1);
    lemma_value_of(whole(n), nearest(v, 1));
}

/// Nothing times a number is nothing.
proof fn lemma_nothing(a: Scalar, z: Scalar)
    requires
        a.finite() && z.finite(),
        z.value() == 0,
    ensures
        (a * z).finite(),
        (a * z).value() == 0,
{
    reveal(Scalar::times);
    lemma_pow2_pos(1074);
    lemma_absolute_value(z);
    lemma_absolute_value(a);
    let (x, one) = (absolute(a.value()), pow2(1074) as int);
    let n = x * absolute(z.value());
    assert(n == 0) by (nonlinear_arith)
        requires
            n == x * absolute(z.value()),
            absolute(z.value()) == 0,
    ;
    assert(magnitude_value(0) == 0);
    assert(0 * one == 0);
    lemma_at_most(0, one, 0);
    lemma_nearest_exists(0, one);
    lemma_signed_value(a * z, a.negative() != z.negative(), nearest(0, one));
}

/// A share of an angle, taken as often as there are shares.
proof fn lemma_shares(a: Scalar, s: Scalar)
    requires
        a.finite() && s.finite() && !s.negative(),
        0 <= a.value() <= 7 * pow2(1074),
        pow2(1074) <= s.value() <= 0x1_0000_0000_0000_0000 * pow2(1074),
    ensures
        (a / s).finite(),
        (a / s * s).finite(),
        apart((a / s * s).value(), a.value(), speck()),
{
    reveal(Scalar::over);
    reveal(Scalar::times);
    lemma_sizes();
    lemma_absolute_value(a);
    lemma_absolute_value(s);
    assert(magnitude_value(0) == 0);
    let (one, e) = (pow2(1074) as int, speck());
    let (av, sv) = (a.value(), s.value());
    let n = av * one;
    assert(0 <= n && n <= av * sv) by (nonlinear_arith)
        requires
            n == av * one,
            0 <= av,
            0 < one <= sv,
    ;
    lemma_at_most(n, sv, a.magnitude_bits());
    lemma_rounding(n, sv);
    lemma_nearest_exists(n, sv);
    let step = a / s;
    lemma_signed_value(step, a.negative(), nearest(n, sv));
    lemma_absolute_value(step);
    let x = magnitude_value(nearest(n, sv));
    let m = x * sv;
    assert(m <= 8 * one * one && 0 <= m) by (nonlinear_arith)
        requires
            m == x * sv,
            x >= 0,
            (x * sv - n) * 0x10_0000_0000_0000 <= n + sv * 0x10_0000_0000_0000,
            n == av * one,
            av <= 7 * one,
            0 < sv <= 0x1_0000_0000_0000_0000 * one,
            one == 0x1000_0000_0000 * e,
            e >= 0x10_0000 * 0x10_0000_0000_0000,
    ;
    lemma2_to64();
    lemma_pow2_adds(3, 1074);
    assert(pow2(1077) == 8 * one);
    lemma_at_most_power(m, one, 1025);
    lemma_rounding(m, one);
    lemma_nearest_exists(m, one);
    lemma_signed_value(step * s, a.negative(), nearest(m, one));
    let w = magnitude_value(nearest(m, one));
    assert(apart(w, av, e)) by (nonlinear_arith)
        requires
            apart(w, av, e) == (-e <= w - av && w - av <= e),
            -(m + one * 0x10_0000_0000_0000) <= (w * one - m) * 0x10_0000_0000_0000,
            (w * one - m) * 0x10_0000_0000_0000 <= m + one * 0x10_0000_0000_0000,
            -(n + sv * 0x10_0000_0000_0000) <= (m - n) * 0x10_0000_0000_0000,
            (m - n) * 0x10_0000_0000_0000 <= n + sv * 0x10_0000_0000_0000,
            n == av * one,
            0 <= av <= 7 * one,
            0 <= m <= 8 * one * one,
            0 < sv <= 0x1_0000_0000_0000_0000 * one,
            one == 0x1000_0000_0000 * e,
            e >= 0x10_0000 * 0x10_0000_0000_0000,
    ;
}

/// All of an angle, as the share of all of the steps.
proof fn lemma_whole_share(a: Scalar, s: Scalar)
    requires
        a.finite() && s.finite() && !s.negative(),
        0 <= a.value() <= 7 * pow2(1074),
        pow2(1074) <= s.value() <= 0x1_0000_0000_0000_0000 * pow2(1074),
    ensures
        (a * (s / s)).finite(),
        apart((a * (s / s)).value(), a.value(), speck()),
{
    reveal(Scalar::over);
    reveal(Scalar::times);
    lemma_sizes();
    lemma_absolute_value(a);
    lemma_absolute_value(s);
    assert(magnitude_value(0) == 0);
    let (one, e) = (pow2(1074) as int, speck());
    let (av, sv) = (a.value(), s.value());
    let n = sv * one;
    lemma2_to64();
    lemma_pow2_adds(1, 1074);
    assert(pow2(1075) == 2 * one);
    assert(0 <= n && n <= pow2(1075) * sv) by (nonlinear_arith)
        requires
            n == sv * one,
            pow2(1075) == 2 * one,
            sv > 0,
            one > 0,
    ;
    lemma_at_most_power(n, sv, 1023);
    lemma_rounding(n, sv);
    lemma_nearest_exists(n, sv);
    let all = s / s;
    lemma_value_of(all, nearest(n, sv));
    lemma_absolute_value(all);
    let x = all.value();
    assert(-(one + 0x10_0000_0000_0000) <= (x - one) * 0x10_0000_0000_0000 && (x - one)
        * 0x10_0000_0000_0000 <= one + 0x10_0000_0000_0000) by (nonlinear_arith)
        requires
            -(n + sv * 0x10_0000_0000_0000) <= (x * sv - n) * 0x10_0000_0000_0000,
            (x * sv - n) * 0x10_0000_0000_0000 <= n + sv * 0x10_0000_0000_0000,
            n == sv * one,
            sv > 0,
    ;
    let m = av * x;
    assert(0 <= m && m <= 16 * one * one) by (nonlinear_arith)
        requires
            m == av * x,
            0 <= av <= 7 * one,
            0 <= x <= 2 * one,
            one > 0,
    ;
    lemma_pow2_adds(4, 1074);
    assert(pow2(1078) == 16 * one);
    lemma_at_most_power(m, one, 1026);
    lemma_rounding(m, one);
    lemma_nearest_exists(m, one);
    lemma_signed_value(a * all, a.negative(), nearest(m, one));
    let w = magnitude_value(nearest(m, one));
    assert(apart(w, av, e)) by (nonlinear_arith)
        requires
            apart(w, av, e) == (-e <= w - av && w - av <= e),
            -(m + one * 0x10_0000_0000_0000) <= (w * one - m) * 0x10_0000_0000_0000,
            (w * one - m) * 0x10_0000_0000_0000 <= m + one * 0x10_0000_0000_0000,
            -(one + 0x10_0000_0000_0000) <= (x - one) * 0x10_0000_0000_0000,
            (x - one) * 0x10_0000_0000_0000 <= one + 0x10_0000_0000_0000,
            m == av * x,
            0 <= av <= 7 * one,
            0 <= m <= 16 * one * one,
            one == 0x1000_0000_0000 * e,
            e >= 0x10_0000 * 0x10_0000_0000_0000,
    ;
}

/// The angle a quarter of a turn behind another, or ahead of it.
spec fn aside(th: Scalar, t: Turn) -> Scalar {
    match t {
        Turn::L => th - right_angle(),
        Turn::R => th + right_angle(),
    }
}

/// How a place lies to the centre of its turning circle.
proof fn lemma_to_center<C: Fn(Calc) -> Scalar>(calc: C, p: Spot, th: Scalar, t: Turn, r: Scalar, z: nat)
    requires
        true_circle(calc),
        within(p.0, z) && within(p.1, z) && turnable(r, z),
        th.finite(),
        -32 * pow2(1074) <= th.value() <= 32 * pow2(1074),
    ensures
        ({
            let c = turn_center(calc, p, th, t, r);
            let a = aside(th, t);
            let (x, y) = (p.0 - c.0, p.1 - c.1);
            let most = 2 * (r.value() * speck()) + 3 * (pow2(1074) * grain(z));
            &&& is_angle(a) && starts(th, a, t, speck())
            &&& x.finite() && y.finite()
            &&& 2 * grain(z) <= r.value() ==> -2 * r.value() <= x.value() <= 2 * r.value()
            &&& 2 * grain(z) <= r.value() ==> -2 * r.value() <= y.value() <= 2 * r.value()
            &&& apart(
                x.value() * pow2(1074),
                r.value() * image(calc, Calc::Cos(a)).value(),
                most,
            )
            &&& apart(
                y.value() * pow2(1074),
                r.value() * image(calc, Calc::Sin(a)).value(),
                most,
            )
        }),
{
    lemma_sizes();
    let a = aside(th, t);
    if t == Turn::L {
        lemma_angle_difference(th, right_angle());
    } else {
        lemma_angle_sum(th, right_angle());
    }
    assert(laps(0) == 0) by (nonlinear_arith)
        requires
            laps(0) == 0 * lap(),
    ;
    if t == Turn::L {
        assert(no_turn(a.value() - th.value() + quarter(), speck()));
        assert(behind(th, a, speck()));
    } else {
        assert(no_turn(a.value() - th.value() - quarter(), speck()));
        assert(ahead(th, a, speck()));
    }
    let (s, c) = (image(calc, Calc::Sin(th)), image(calc, Calc::Cos(th)));
    let (u, v) = (image(calc, Calc::Sin(a)), image(calc, Calc::Cos(a)));
    if t == Turn::L {
        lemma_offset(p.0, r, s, v, false, z);
        lemma_offset(p.1, r, c, u, true, z);
    } else {
        lemma_offset(p.0, r, s, v, true, z);
        lemma_offset(p.1, r, c, u, false, z);
    }
}

/// A coordinate from a centre.
proof fn lemma_offset(p: Scalar, r: Scalar, s: Scalar, e: Scalar, plus: bool, z: nat)
    requires
        within(p, z) && turnable(r, z),
        within_one(s) && within_one(e),
        apart(e.value(), if plus {
            -s.value()
        } else {
            s.value()
        }, 2 * speck()),
    ensures
        ({
            let c = if plus {
                p + r * s
            } else {
                p - r * s
            };
            let x = p - c;
            &&& x.finite()
            &&& 2 * grain(z) <= r.value() ==> -2 * r.value() <= x.value() <= 2 * r.value()
            &&& apart(
                x.value() * pow2(1074),
                r.value() * e.value(),
                2 * (r.value() * speck()) + 3 * (pow2(1074) * grain(z)),
            )
        }),
{
    lemma_sizes();
    lemma_scale(z);
    lemma_reach(r, s, z);
    let (one, k, g) = (pow2(1074) as int, speck(), grain(z));
    let (rv, sv, ev, pv) = (r.value(), s.value(), e.value(), p.value());
    let rs = (r * s).value();
    let c = if plus {
        lemma_place_sum(p, r * s, z);
        p + r * s
    } else {
        lemma_place_difference(p, r * s, z);
        p - r * s
    };
    lemma_place_difference(p, c, z);
    let x = (p - c).value();
    let side = if plus {
        -rs
    } else {
        rs
    };
    let want = if plus {
        -sv
    } else {
        sv
    };
    assert((-rs) * one == -(rs * one) && rv * (-sv) == -(rv * sv)) by (nonlinear_arith);
    assert(-(2 * (rv * k) + 3 * (one * g)) <= x * one - rv * ev && x * one - rv * ev <= 2 * (rv * k)
        + 3 * (one * g)) by (nonlinear_arith)
        requires
            -2 * g <= x - side <= 2 * g,
            -(one * g) <= side * one - rv * want <= one * g,
            -2 * k <= ev - want <= 2 * k,
            rv > 0,
            one > 0,
    ;
}

/// The part of a radius that three grains are.
spec fn blur(r: Scalar, z: nat) -> int {
    3 * (pow2(1074) * grain(z)) / r.value() + 1
}

proof fn lemma_blur(r: Scalar, z: nat)
    requires
        turnable(r, z),
        7 * grain(z) <= r.value(),
    ensures
        0 < blur(r, z),
        2 * (blur(r, z) + 8 * speck()) <= pow2(1074),
        3 * (pow2(1074) * grain(z)) <= r.value() * blur(r, z) <= 3 * (pow2(1074) * grain(z))
            + r.value(),
{
    lemma_sizes();
    lemma_scale(z);
    let (one, g, rv, e) = (pow2(1074) as int, grain(z), r.value(), speck());
    let n = 3 * (one * g);
    let (q, rest) = (n / rv, n % rv);
    lemma_fundamental_div_mod(n, rv);
    assert(n >= 0) by (nonlinear_arith)
        requires
            n == 3 * (one * g),
            one > 0,
            g > 0,
    ;
    assert(rv * (q + 1) == rv * q + rv) by (nonlinear_arith);
    assert(0 <= q && 7 * q <= 3 * one) by (nonlinear_arith)
        requires
            n == rv * q + rest,
            0 <= rest < rv,
            0 <= n,
            n == 3 * (one * g),
            7 * g <= rv,
            one > 0,
            g > 0,
    ;
}

/// A place lies on its turning circle where it starts.
proof fn lemma_seen<C: Fn(Calc) -> Scalar>(calc: C, p: Spot, th: Scalar, t: Turn, r: Scalar, z: nat)
    requires
        true_circle(calc),
        within(p.0, z) && within(p.1, z) && turnable(r, z),
        7 * grain(z) <= r.value(),
        th.finite(),
        -32 * pow2(1074) <= th.value() <= 32 * pow2(1074),
    ensures
        starts(
            th,
            seen_from(calc, turn_center(calc, p, th, t, r), p),
            t,
            2 * blur(r, z) + 6 * speck(),
        ),
{
    lemma_sizes();
    lemma_blur(r, z);
    lemma_to_center(calc, p, th, t, r, z);
    let c = turn_center(calc, p, th, t, r);
    let a = aside(th, t);
    let (x, y) = (p.0 - c.0, p.1 - c.1);
    let (k, g, rv) = (speck(), pow2(1074) * grain(z), r.value());
    let d = blur(r, z) + 2 * k;
    assert(2 * (rv * k) + 3 * g <= d * rv) by (nonlinear_arith)
        requires
            d == blur(r, z) + 2 * k,
            3 * g <= rv * blur(r, z),
    ;
    assert(seen_along(calc, y, x, a, rv, d));
    lemma_from_aside(th, a, image(calc, Calc::Atan2(y, x)), t, 2 * d + k);
}

/// An angle that agrees with the one aside.
proof fn lemma_from_aside(th: Scalar, a: Scalar, b: Scalar, t: Turn, d: int)
    requires
        th.finite(),
        -32 * pow2(1074) <= th.value() <= 32 * pow2(1074),
        a == aside(th, t) && a.finite(),
        b.finite(),
        -4 * pow2(1074) <= b.value() <= 4 * pow2(1074),
        0 <= d,
        no_turn(b.value() - a.value(), d),
    ensures
        starts(th, b, t, d + speck()),
{
    lemma_sizes();
    let k = choose|k: int| -64 <= k <= 64 && -d <= b.value() - a.value() - #[trigger] laps(k) <= d;
    if t == Turn::L {
        lemma_angle_difference(th, right_angle());
        assert(apart(b.value() - th.value() + quarter(), laps(k), d + speck()));
    } else {
        lemma_angle_sum(th, right_angle());
        assert(apart(b.value() - th.value() - quarter(), laps(k), d + speck()));
    }
}

/// A coordinate from a centre, as a share of the radius.
proof fn lemma_ratio(x: Scalar, r: Scalar)
    requires
        x.finite() && r.finite() && 0 < r.value(),
        -2 * r.value() <= x.value() <= 2 * r.value(),
    ensures
        (x / r).finite(),
        apart((x / r).value() * r.value(), x.value() * pow2(1074), r.value() * speck()),
{
    reveal(Scalar::over);
    lemma_sizes();
    lemma_absolute_value(x);
    lemma_absolute_value(r);
    assert(magnitude_value(0) == 0);
    let (one, e, rv) = (pow2(1074) as int, speck(), r.value());
    let v = absolute(x.value());
    let n = v * one;
    lemma2_to64();
    lemma_pow2_adds(1, 1074);
    assert(pow2(1075) == 2 * one);
    assert(0 <= n && n <= pow2(1075) * rv) by (nonlinear_arith)
        requires
            n == v * one,
            pow2(1075) == 2 * one,
            0 <= v <= 2 * rv,
            one > 0,
    ;
    lemma_at_most_power(n, rv, 1023);
    lemma_rounding(n, rv);
    lemma_nearest_exists(n, rv);
    lemma_signed_value(x / r, x.negative(), nearest(n, rv));
    let w = magnitude_value(nearest(n, rv));
    assert(-(rv * e) <= w * rv - n && w * rv - n <= rv * e) by (nonlinear_arith)
        requires
            -(n + rv * 0x10_0000_0000_0000) <= (w * rv - n) * 0x10_0000_0000_0000,
            (w * rv - n) * 0x10_0000_0000_0000 <= n + rv * 0x10_0000_0000_0000,
            n == v * one,
            0 <= v <= 2 * rv,
            one == 0x1000_0000_0000 * e,
            e >= 0x10_0000 * 0x10_0000_0000_0000,
            rv > 0,
    ;
    if x.negative() {
        let xv = x.value();
        assert(xv * one == -n && (-w) * rv == -(w * rv)) by (nonlinear_arith)
            requires
                xv == -v,
                n == v * one,
        ;
    }
}

/// The normal of a path without length points at its place.
proof fn lemma_still_angle<C: Fn(Calc) -> Scalar>(calc: C, p: Spot, th: Scalar, r: Scalar, z: nat)
    requires
        true_circle(calc),
        within(p.0, z) && within(p.1, z) && turnable(r, z),
        7 * grain(z) <= r.value(),
        th.finite(),
        -32 * pow2(1074) <= th.value() <= 32 * pow2(1074),
    ensures
        ({
            let n1 = still_path(calc, p, th, r).n1;
            let b = image(calc, Calc::Atan2(n1.1, n1.0));
            &&& b.finite()
            &&& -4 * pow2(1074) <= b.value() <= 4 * pow2(1074)
            &&& behind(th, b, 2 * blur(r, z) + 8 * speck())
        }),
{
    lemma_sizes();
    lemma_scale(z);
    lemma_blur(r, z);
    lemma_to_center(calc, p, th, Turn::L, r, z);
    let c = turn_center(calc, p, th, Turn::L, r);
    let a = aside(th, Turn::L);
    let (x, y) = (p.0 - c.0, p.1 - c.1);
    lemma_ratio(x, r);
    lemma_ratio(y, r);
    let (nx, ny) = (x / r, y / r);
    lemma_share(nx, x, r, image(calc, Calc::Cos(a)), z);
    lemma_share(ny, y, r, image(calc, Calc::Sin(a)), z);
    let d = blur(r, z) + 3 * speck();
    assert(seen_along(calc, ny, nx, a, pow2(1074) as int, d));
    lemma_from_aside(th, a, image(calc, Calc::Atan2(ny, nx)), Turn::L, 2 * d + speck());
}

proof fn lemma_share(n: Scalar, x: Scalar, r: Scalar, c: Scalar, z: nat)
    requires
        turnable(r, z),
        7 * grain(z) <= r.value(),
        apart(n.value() * r.value(), x.value() * pow2(1074), r.value() * speck()),
        apart(
            x.value() * pow2(1074),
            r.value() * c.value(),
            2 * (r.value() * speck()) + 3 * (pow2(1074) * grain(z)),
        ),
    ensures
        apart(
            n.value() * pow2(1074),
            pow2(1074) * c.value(),
            (blur(r, z) + 3 * speck()) * (pow2(1074) as int),
        ),
{
    lemma_sizes();
    lemma_blur(r, z);
    let (one, e, g, b) = (pow2(1074) as int, speck(), pow2(1074) * grain(z), blur(r, z));
    let (nv, rv, cv) = (n.value(), r.value(), c.value());
    let xu = x.value() * one;
    let d = b + 3 * e;
    assert(-d <= nv - cv && nv - cv <= d) by (nonlinear_arith)
        requires
            d == b + 3 * e,
            -(rv * e) <= nv * rv - xu <= rv * e,
            -(2 * (rv * e) + 3 * g) <= xu - rv * cv,
            xu - rv * cv <= 2 * (rv * e) + 3 * g,
            3 * g <= rv * b,
            rv > 0,
    ;
    assert(-(d * one) <= nv * one - one * cv && nv * one - one * cv <= d * one)
        by (nonlinear_arith)
        requires
            -d <= nv - cv <= d,
            one > 0,
    ;
}

proof fn lemma_finite_sum(a: Scalar, b: Scalar)
    ensures
        (a + b).finite() ==> a.finite() && b.finite(),
        (a - b).finite() ==> a.finite() && b.finite(),
{
    reveal(Scalar::plus);
    assert(b.opposite().magnitude_bits() == b.magnitude_bits());
}

proof fn lemma_finite_product(a: Scalar, b: Scalar)
    ensures
        (a * b).finite() ==> a.finite() && b.finite(),
{
    reveal(Scalar::times);
}

proof fn lemma_finite_hypotenuse(x: Scalar, y: Scalar)
    ensures
        hypotenuse(x, y).finite() ==> x.finite() && y.finite(),
{
    reveal(Scalar::root);
    lemma_finite_sum(x * x, y * y);
    lemma_finite_product(x, x);
    lemma_finite_product(y, y);
}

proof fn lemma_finite_turn(x: Scalar)
    ensures
        full_turn(x).finite() ==> x.finite(),
{
    reveal(Scalar::remainder);
    let m = x.remainder(tau());
    if !x.finite() {
        assert(m.nan());
        assert(full_turn(x) == m);
    }
}

/// A path of finite length has finite parts.
proof fn lemma_finite_parts(path: DubinsPath)
    requires
        path.length().finite(),
    ensures
        path.a1.finite() && path.a2.finite() && path.straight.finite(),
        path.ccc is Some ==> path.ccc->0.a3.finite(),
{
    let a3 = if path.ccc is Some {
        path.ccc->0.a3
    } else {
        whole(0)
    };
    lemma_finite_sum(path.r * (path.a1 + path.a2 + a3), path.straight);
    lemma_finite_product(path.r, path.a1 + path.a2 + a3);
    lemma_finite_sum(path.a1 + path.a2, a3);
    lemma_finite_sum(path.a1, path.a2);
}

/// A little turn more leaves a start a start.
proof fn lemma_still_starts(th: Scalar, phi: Scalar, t: Turn, z: Scalar, by: Turn, d: int)
    requires
        starts(th, phi, t, d),
        z.finite() && z.value() == 0,
        -64 * pow2(1074) <= phi.value() <= 64 * pow2(1074),
    ensures
        starts(th, moved(phi, z, by), t, d + speck()),
        apart(moved(phi, z, by).value(), phi.value(), speck()),
{
    lemma_sizes();
    let b = moved(phi, z, by);
    if by == Turn::L {
        lemma_angle_sum(phi, z);
    } else {
        lemma_angle_difference(phi, z);
    }
    if t == Turn::L {
        let x = phi.value() - th.value() + quarter();
        let k = choose|k: int| -64 <= k <= 64 && -d <= x - #[trigger] laps(k) <= d;
        assert(apart(b.value() - th.value() + quarter(), laps(k), d + speck()));
    } else {
        let x = phi.value() - th.value() - quarter();
        let k = choose|k: int| -64 <= k <= 64 && -d <= x - #[trigger] laps(k) <= d;
        assert(apart(b.value() - th.value() - quarter(), laps(k), d + speck()));
    }
}

/// Whether a place is another one, but for a millionth of the radius and the rounding
/// of its coordinates, which is at most 2^-46 of their bound.
pub open spec fn reaches(q: Spot, p: Spot, r: Scalar, z: nat) -> bool {
    let off = r.value() * (frac(1, 1_000_000).value() + 20 * speck()) + 16 * (pow2(1074) * grain(
        z,
    ));
    &&& q.0.finite() && q.1.finite()
    &&& apart(q.0.value() * pow2(1074), p.0.value() * pow2(1074), off)
    &&& apart(q.1.value() * pow2(1074), p.1.value() * pow2(1074), off)
}

/// Whether a place and a heading are within bounds: a heading of at most five turns.
pub open spec fn moderate_pose(p: Spot, th: Scalar, z: nat) -> bool {
    &&& within(p.0, z) && within(p.1, z)
    &&& th.finite() && -32 * pow2(1074) <= th.value() <= 32 * pow2(1074)
}

/// An angle near the one that a place lies at leads to the place.
proof fn lemma_meets<C: Fn(Calc) -> Scalar>(
    calc: C,
    p: Spot,
    th: Scalar,
    t: Turn,
    r: Scalar,
    b: Scalar,
    d: int,
    z: nat,
)
    requires
        true_circle(calc),
        moderate_pose(p, th, z) && turnable(r, z),
        starts(th, b, t, d),
        d <= frac(1, 1_000_000).value() + 19 * speck() || r.value() * d <= r.value() * (19
            * speck()) + 12 * (pow2(1074) * grain(z)),
    ensures
        reaches(on_circle(calc, turn_center(calc, p, th, t, r), r, b), p, r, z),
{
    lemma_sizes();
    lemma_scale(z);
    lemma_millionth();
    lemma_back(calc, p, th, t, r, b, d, z);
    let (rv, e, m) = (r.value(), speck(), frac(1, 1_000_000).value());
    let g = pow2(1074) * grain(z);
    assert(g >= 0) by (nonlinear_arith)
        requires
            g == pow2(1074) * grain(z),
            grain(z) >= 0,
    ;
    assert(rv * (d + e) + 4 * g <= rv * (m + 20 * e) + 16 * g) by (nonlinear_arith)
        requires
            d <= m + 19 * e || rv * d <= rv * (19 * e) + 12 * g,
            rv > 0,
            m >= 0,
            g >= 0,
    ;
}

/// On a circle as small as a few grains every place is near every other.
proof fn lemma_small_circle<C: Fn(Calc) -> Scalar>(
    calc: C,
    p: Spot,
    th: Scalar,
    t: Turn,
    r: Scalar,
    b: Scalar,
    z: nat,
)
    requires
        true_circle(calc),
        moderate_pose(p, th, z) && turnable(r, z),
        r.value() <= 7 * grain(z),
        b.finite(),
    ensures
        reaches(on_circle(calc, turn_center(calc, p, th, t, r), r, b), p, r, z),
{
    lemma_millionth();
    lemma_sizes();
    let (s, c) = (image(calc, Calc::Sin(th)), image(calc, Calc::Cos(th)));
    let (u, v) = (image(calc, Calc::Sin(b)), image(calc, Calc::Cos(b)));
    lemma_small_way(p.0, r, s, v, z);
    lemma_small_way(p.1, r, c, u, z);
}

proof fn lemma_small_way(p: Scalar, r: Scalar, s: Scalar, e: Scalar, z: nat)
    requires
        within(p, z) && turnable(r, z),
        r.value() <= 7 * grain(z),
        within_one(s) && within_one(e),
        frac(1, 1_000_000).value() + 20 * speck() >= 0,
    ensures
        ({
            let off = r.value() * (frac(1, 1_000_000).value() + 20 * speck()) + 16 * (pow2(1074)
                * grain(z));
            &&& (p - r * s + r * e).finite() && (p + r * s + r * e).finite()
            &&& apart((p - r * s + r * e).value() * pow2(1074), p.value() * pow2(1074), off)
            &&& apart((p + r * s + r * e).value() * pow2(1074), p.value() * pow2(1074), off)
        }),
{
    lemma_sizes();
    lemma_scale(z);
    lemma_reach(r, s, z);
    lemma_reach(r, e, z);
    lemma_place_difference(p, r * s, z);
    lemma_place_sum(p, r * s, z);
    lemma_place_sum(p - r * s, r * e, z);
    lemma_place_sum(p + r * s, r * e, z);
    let (one, g, rv) = (pow2(1074) as int, grain(z), r.value());
    let k = frac(1, 1_000_000).value() + 20 * speck();
    let (x, y, pv) = ((p - r * s + r * e).value(), (p + r * s + r * e).value(), p.value());
    let off = rv * k + 16 * (one * g);
    assert(-off <= x * one - pv * one && x * one - pv * one <= off && -off <= y * one - pv * one
        && y * one - pv * one <= off) by (nonlinear_arith)
        requires
            off == rv * k + 16 * (one * g),
            -16 * g <= x - pv <= 16 * g,
            -16 * g <= y - pv <= 16 * g,
            rv > 0,
            k >= 0,
            one > 0,
    ;
}

/// A path of two arcs and a line runs from end to end.
proof fn lemma_csc_ends<C: Fn(Calc) -> Scalar>(
    calc: C,
    p0: Spot,
    th0: Scalar,
    p1: Spot,
    th1: Scalar,
    r: Scalar,
    t1: Turn,
    t2: Turn,
    first: bool,
    segs: int,
    z: nat,
)
    requires
        true_circle(calc),
        moderate_pose(p0, th0, z) && moderate_pose(p1, th1, z) && turnable(r, z),
        csc_path(calc, p0, th0, p1, th1, r, t1, t2, first) is Some,
        csc_path(calc, p0, th0, p1, th1, r, t1, t2, first)->0.length().finite(),
        2 <= segs <= 0x1_0000_0000_0000_0000,
    ensures
        ({
            let path = csc_path(calc, p0, th0, p1, th1, r, t1, t2, first)->0;
            let q = path.csc_samples(calc, segs);
            q.len() > 0 && reaches(q[0], p0, r, z) && reaches(q.last(), p1, r, z)
        }),
{
    lemma_sizes();
    lemma_millionth();
    let path = csc_path(calc, p0, th0, p1, th1, r, t1, t2, first)->0;
    lemma_finite_parts(path);
    let (c1, c2, n1) = (path.c1, path.c2, path.n1);
    let n2 = if t1 == t2 {
        n1
    } else {
        reversed(n1)
    };
    let a = (c1.0 + r * n1.0, c1.1 + r * n1.1);
    let b = (c2.0 + r * n2.0, c2.1 + r * n2.1);
    let (ux, uy) = (b.0 - a.0, b.1 - a.1);
    lemma_finite_hypotenuse(ux, uy);
    lemma_finite_sum(b.0, a.0);
    lemma_finite_sum(b.1, a.1);
    lemma_finite_sum(c1.0, r * n1.0);
    lemma_finite_sum(c1.1, r * n1.1);
    lemma_finite_product(r, n1.0);
    lemma_finite_product(r, n1.1);
    lemma_finite_sum(c2.0, r * n2.0);
    lemma_finite_sum(c2.1, r * n2.1);
    lemma_finite_product(r, n2.0);
    lemma_finite_product(r, n2.1);
    let tangent = image(calc, Calc::Atan2(uy, ux));
    let phi_a = image(calc, Calc::Atan2(n1.1, n1.0));
    let phi_b = image(calc, Calc::Atan2(n2.1, n2.0));
    let s = whole(segs);
    lemma_counted(segs);
    lemma_count(0);
    // The first arc.
    lemma_turned(th0, tangent, t1);
    lemma_shares(path.a1, s);
    let still = path.a1 / s * whole(0);
    lemma_nothing(path.a1 / s, whole(0));
    lemma_start_angle(phi_a, tangent, th0, t1, still);
    let start = moved(phi_a, path.a1, other_turn(t1));
    lemma_meets(
        calc,
        p0,
        th0,
        t1,
        r,
        moved(start, still, t1),
        frac(1, 1_000_000).value() + 10 * speck(),
        z,
    );
    // The last arc.
    lemma_turned(tangent, th1, t2);
    lemma_shares(path.a2, s);
    let w = path.a2 / s * s;
    let d = frac(1, 1_000_000).value() + 3 * speck();
    if t2 == Turn::L {
        lemma_angle_sum(phi_b, right_angle());
    } else {
        lemma_angle_difference(phi_b, right_angle());
    }
    let k = lemma_gap(heading_on(phi_b, t2), tangent);
    assert(apart(heading_on(phi_b, t2).value() - tangent.value(), laps(k), d));
    lemma_end_angle(phi_b, tangent, th1, t2, w, d);
    lemma_meets(calc, p1, th1, t2, r, moved(phi_b, w, t2), d + 10 * speck(), z);
    let q = path.csc_samples(calc, segs);
    assert(q[0] == on_circle(calc, c1, r, moved(start, still, t1)));
    assert(q.last() == on_circle(calc, c2, r, moved(phi_b, w, t2)));
}

/// How far a turn goes.
proof fn lemma_turned(from: Scalar, to: Scalar, t: Turn)
    requires
        from.finite() && to.finite(),
        -32 * pow2(1074) <= from.value() <= 32 * pow2(1074),
        -32 * pow2(1074) <= to.value() <= 32 * pow2(1074),
    ensures
        turned(from, to, t).finite(),
        0 <= turned(from, to, t).value() <= 7 * pow2(1074),
{
    lemma_sizes();
    match t {
        Turn::L => {
            lemma_angle_difference(to, from);
            lemma_full_turn(to - from);
        },
        Turn::R => {
            lemma_angle_difference(from, to);
            lemma_full_turn(from - to);
        },
    }
}

/// No part of the steps is nothing.
proof fn lemma_no_share(s: Scalar)
    requires
        s.finite() && !s.negative() && s.value() > 0,
    ensures
        (whole(0) / s).finite(),
        (whole(0) / s).value() == 0,
{
    reveal(Scalar::over);
    lemma_count(0);
    lemma_absolute_value(s);
    lemma_absolute_value(whole(0));
    assert(magnitude_value(0) == 0);
    let one = pow2(1074) as int;
    let n = absolute(whole(0).value()) * one;
    assert(n == 0 && units(0) == 0) by (nonlinear_arith)
        requires
            n == absolute(whole(0).value()) * one,
            absolute(whole(0).value()) == absolute(units(0)),
            absolute(units(0)) == 0 || units(0) != 0,
            units(0) == 0 * one,
    ;
    let sv = s.value();
    assert(0 * sv == 0);
    lemma_at_most(0, sv, 0);
    lemma_nearest_exists(0, sv);
    lemma_signed_value(whole(0) / s, whole(0).negative() != s.negative(), nearest(0, sv));
}

/// A path of three arcs runs from end to end.
proof fn lemma_ccc_ends<C: Fn(Calc) -> Scalar>(
    calc: C,
    p0: Spot,
    th0: Scalar,
    p1: Spot,
    th1: Scalar,
    r: Scalar,
    t1: Turn,
    sign: Scalar,
    n: int,
    z: nat,
)
    requires
        true_circle(calc),
        moderate_pose(p0, th0, z) && moderate_pose(p1, th1, z) && turnable(r, z),
        ccc_path(calc, p0, th0, p1, th1, r, t1, sign) is Some,
        ccc_path(calc, p0, th0, p1, th1, r, t1, sign)->0.length().finite(),
    ensures
        ({
            let path = ccc_path(calc, p0, th0, p1, th1, r, t1, sign)->0;
            let q = path.ccc_samples(calc, path.ccc->0, n);
            q.len() > 0 && reaches(q[0], p0, r, z) && reaches(q.last(), p1, r, z)
        }),
{
    lemma_sizes();
    lemma_millionth();
    let path = ccc_path(calc, p0, th0, p1, th1, r, t1, sign)->0;
    let x = path.ccc->0;
    lemma_finite_parts(path);
    let total = path.a1 + path.a2 + x.a3;
    let (n1, n2, n3) = if total > whole(0) {
        (share_of(n, path.a1 / total), share_of(n, path.a2 / total), share_of(n, x.a3 / total))
    } else {
        (1, 1, 1)
    };
    lemma_counted(n1);
    lemma_counted(n3);
    lemma_count(0);
    // The first arc.
    let none = whole(0) / whole(n1);
    lemma_no_share(whole(n1));
    let still = path.a1 * none;
    lemma_nothing(path.a1, none);
    lemma_first_place(calc, p0, th0, t1, r, x.phi0, still, t1, z);
    // The last arc.
    let head = heading_on(x.phi_cb, t1);
    match t1 {
        Turn::L => {
            lemma_finite_turn(th1 - head);
            lemma_finite_sum(th1, head);
        },
        Turn::R => {
            lemma_finite_turn(head - th1);
            lemma_finite_sum(head, th1);
        },
    }
    lemma_finite_sum(x.phi_cb, right_angle());
    if t1 == Turn::L {
        lemma_angle_sum(x.phi_cb, right_angle());
    } else {
        lemma_angle_difference(x.phi_cb, right_angle());
    }
    lemma_turned(head, th1, t1);
    let w = x.a3 * (whole(n3) / whole(n3));
    lemma_whole_share(x.a3, whole(n3));
    assert(laps(0) == 0) by (nonlinear_arith)
        requires
            laps(0) == 0 * lap(),
    ;
    assert(apart(head.value() - head.value(), laps(0), 0));
    lemma_end_angle(x.phi_cb, head, th1, t1, w, 0);
    lemma_meets(calc, p1, th1, t1, r, moved(x.phi_cb, w, t1), 10 * speck(), z);
    let q = path.ccc_samples(calc, x, n);
    let one = parted_arc(calc, path.c1, r, x.phi0, path.a1, t1, 0, n1);
    let two = parted_arc(calc, path.c2, r, x.phi_ba, path.a2, path.t2, 1, n2);
    let three = parted_arc(calc, x.c3, r, x.phi_cb, x.a3, t1, 1, n3);
    assert(q == one + two + three);
    assert(q[0] == one[0]);
    assert(q.last() == three.last());
    assert(one[0] == on_circle(calc, path.c1, r, moved(x.phi0, still, t1)));
    assert(three.last() == on_circle(calc, x.c3, r, moved(x.phi_cb, w, t1)));
}

/// The place on its turning circle, and a little turn of nothing.
proof fn lemma_first_place<C: Fn(Calc) -> Scalar>(
    calc: C,
    p: Spot,
    th: Scalar,
    t: Turn,
    r: Scalar,
    phi: Scalar,
    none: Scalar,
    by: Turn,
    z: nat,
)
    requires
        true_circle(calc),
        moderate_pose(p, th, z) && turnable(r, z),
        phi == seen_from(calc, turn_center(calc, p, th, t, r), p),
        none.finite() && none.value() == 0,
    ensures
        reaches(on_circle(calc, turn_center(calc, p, th, t, r), r, moved(phi, none, by)), p, r, z),
{
    lemma_sizes();
    lemma_to_center(calc, p, th, t, r, z);
    if 7 * grain(z) <= r.value() {
        lemma_seen(calc, p, th, t, r, z);
        let d = 2 * blur(r, z) + 6 * speck();
        lemma_still_starts(th, phi, t, none, by, d);
        lemma_blurred(r, d + speck(), z);
        lemma_meets(calc, p, th, t, r, moved(phi, none, by), d + speck(), z);
    } else {
        if by == Turn::L {
            lemma_angle_sum(phi, none);
        } else {
            lemma_angle_difference(phi, none);
        }
        lemma_small_circle(calc, p, th, t, r, moved(phi, none, by), z);
    }
}

/// The normal of a path without length has a direction.
proof fn lemma_still_normal<C: Fn(Calc) -> Scalar>(calc: C, p: Spot, th: Scalar, r: Scalar, z: nat)
    requires
        true_circle(calc),
        moderate_pose(p, th, z) && turnable(r, z),
    ensures
        ({
            let n1 = still_path(calc, p, th, r).n1;
            let b = image(calc, Calc::Atan2(n1.1, n1.0));
            b.finite() && -4 * pow2(1074) <= b.value() <= 4 * pow2(1074)
        }),
{
    reveal(Scalar::over);
    lemma_to_center(calc, p, th, Turn::L, r, z);
    lemma_absolute_value(r);
    assert(magnitude_value(0) == 0);
    let c = turn_center(calc, p, th, Turn::L, r);
    let one = pow2(1074) as int;
    let (x, y) = (p.0 - c.0, p.1 - c.1);
    lemma_nearest_exists(absolute(x.value()) * one, r.value());
    lemma_nearest_exists(absolute(y.value()) * one, r.value());
    assert(!(x / r).nan() && !(y / r).nan());
}

/// A turn on the spot starts at its place.
proof fn lemma_pivot_start<C: Fn(Calc) -> Scalar>(
    calc: C,
    p: Spot,
    th: Scalar,
    to: Scalar,
    r: Scalar,
    segs: int,
    z: nat,
)
    requires
        true_circle(calc),
        moderate_pose(p, th, z) && moderate_pose(p, to, z) && turnable(r, z),
        2 <= segs <= 0x1_0000_0000_0000_0000,
    ensures
        ({
            let q = pivot_path(calc, p, th, to, r).csc_samples(calc, segs);
            q.len() > 0 && reaches(q[0], p, r, z)
        }),
{
    lemma_sizes();
    let path = pivot_path(calc, p, th, to, r);
    let (t, n1, a1) = (path.t1, path.n1, path.a1);
    let phi = seen_from(calc, turn_center(calc, p, th, t, r), p);
    lemma_to_center(calc, p, th, t, r, z);
    lemma_angle_difference(to, th);
    lemma_full_turn(to - th);
    lemma_angle_difference(tau(), full_turn(to - th));
    lemma_rest(to - th);
    lemma_not_past(full_turn(to - th));
    lemma_half();
    assert(a1.finite() && 0 <= a1.value() <= 7 * pow2(1074));
    let end = moved(phi, a1, t);
    lemma_angle_sum(phi, a1);
    lemma_angle_difference(phi, a1);
    let b = image(calc, Calc::Atan2(n1.1, n1.0));
    lemma_along(calc, end);
    lemma_angle_sum(b, a1);
    lemma_angle_difference(b, a1);
    let start = moved(b, a1, other_turn(t));
    let s = whole(segs);
    lemma_counted(segs);
    lemma_count(0);
    lemma_shares(a1, s);
    let still = a1 / s * whole(0);
    lemma_nothing(a1 / s, whole(0));
    lemma_angle_sum(start, still);
    lemma_angle_difference(start, still);
    let at = moved(start, still, t);
    let e = 4 * speck();
    let k = choose|k: int|
        -64 <= k <= 64 && -speck() <= b.value() - end.value() - #[trigger] laps(k) <= speck();
    assert(-e <= at.value() - phi.value() - laps(k) <= e);
    if 7 * grain(z) <= r.value() {
        lemma_seen(calc, p, th, t, r, z);
        lemma_blur(r, z);
        let d = 2 * blur(r, z) + 6 * speck();
        lemma_same_start(th, phi, at, t, d, e);
        lemma_blurred(r, d + e, z);
        lemma_meets(calc, p, th, t, r, at, d + e, z);
    } else {
        lemma_small_circle(calc, p, th, t, r, at, z);
    }
    let q = path.csc_samples(calc, segs);
    assert(q[0] == on_circle(calc, path.c1, r, at));
}

/// The direction of cosine and sine is the angle itself.
proof fn lemma_along<C: Fn(Calc) -> Scalar>(calc: C, a: Scalar)
    requires
        true_circle(calc),
        is_angle(a),
    ensures
        ({
            let (x, y) = (image(calc, Calc::Cos(a)), image(calc, Calc::Sin(a)));
            no_turn(image(calc, Calc::Atan2(y, x)).value() - a.value(), speck())
        }),
{
    lemma_pow2_pos(1074);
    let (x, y) = (image(calc, Calc::Cos(a)), image(calc, Calc::Sin(a)));
    let one = pow2(1074) as int;
    assert(0 * one == 0);
    assert(x.value() * one == one * x.value() && y.value() * one == one * y.value())
        by (nonlinear_arith);
    assert(seen_along(calc, y, x, a, one, 0));
}

/// An angle that agrees with a start is a start.
proof fn lemma_same_start(th: Scalar, a: Scalar, b: Scalar, t: Turn, d: int, e: int)
    requires
        starts(th, a, t, d),
        -4 * pow2(1074) <= a.value() <= 4 * pow2(1074),
        b.finite(),
        -16 * pow2(1074) <= b.value() <= 16 * pow2(1074),
        th.finite(),
        -32 * pow2(1074) <= th.value() <= 32 * pow2(1074),
        0 <= e <= pow2(1074),
        no_turn(b.value() - a.value(), e),
        2 * d <= 3 * pow2(1074),
    ensures
        starts(th, b, t, d + e),
{
    lemma_sizes();
    let k = choose|k: int| -64 <= k <= 64 && -e <= b.value() - a.value() - #[trigger] laps(k) <= e;
    let q = if t == Turn::L {
        quarter()
    } else {
        -quarter()
    };
    let x = a.value() - th.value() + q;
    let m = choose|m: int| -64 <= m <= 64 && -d <= x - #[trigger] laps(m) <= d;
    let l = lap();
    assert(-64 <= k + m <= 64 && laps(k + m) == laps(k) + laps(m)) by (nonlinear_arith)
        requires
            laps(k + m) == (k + m) * l,
            laps(k) == k * l,
            laps(m) == m * l,
            6 * pow2(1074) < l,
            -22 * pow2(1074) <= laps(k) <= 22 * pow2(1074),
            -40 * pow2(1074) <= laps(m) <= 40 * pow2(1074),
            pow2(1074) > 0,
    ;
    assert(apart(b.value() - th.value() + q, laps(k + m), d + e));
}

/// Two blurs of an angle are a few grains of the place.
proof fn lemma_blurred(r: Scalar, d: int, z: nat)
    requires
        turnable(r, z),
        7 * grain(z) <= r.value(),
        d <= 2 * blur(r, z) + 15 * speck(),
    ensures
        r.value() * d <= r.value() * (19 * speck()) + 12 * (pow2(1074) * grain(z)),
{
    lemma_blur(r, z);
    lemma_sizes();
    lemma_scale(z);
    let (rv, e, b) = (r.value(), speck(), blur(r, z));
    let g = pow2(1074) * grain(z);
    assert(g >= 0) by (nonlinear_arith)
        requires
            g == pow2(1074) * grain(z),
            grain(z) >= 0,
    ;
    assert(rv * d <= rv * (19 * e) + 12 * g) by (nonlinear_arith)
        requires
            d <= 2 * b + 15 * e,
            rv * b <= 3 * g + rv,
            e >= 1,
            rv > 0,
            g >= 0,
    ;
}

/// A path without length stays at its place.
proof fn lemma_still_ends<C: Fn(Calc) -> Scalar>(
    calc: C,
    p: Spot,
    th: Scalar,
    r: Scalar,
    segs: int,
    z: nat,
)
    requires
        true_circle(calc),
        moderate_pose(p, th, z) && turnable(r, z),
        2 <= segs <= 0x1_0000_0000_0000_0000,
    ensures
        ({
            let q = still_path(calc, p, th, r).csc_samples(calc, segs);
            q.len() > 0 && reaches(q[0], p, r, z) && reaches(q.last(), p, r, z)
        }),
{
    lemma_sizes();
    let path = still_path(calc, p, th, r);
    let n1 = path.n1;
    let b = image(calc, Calc::Atan2(n1.1, n1.0));
    let s = whole(segs);
    lemma_counted(segs);
    lemma_count(0);
    assert(whole(0).value() == 0) by {
        assert(units(0) == 0) by (nonlinear_arith)
            requires
                units(0) == 0 * pow2(1074),
        ;
    }
    let step = whole(0) / s;
    lemma_no_share(s);
    let still = step * whole(0);
    lemma_nothing(step, whole(0));
    let start = moved(b, whole(0), Turn::R);
    let w = step * s;
    lemma_none_of(step, s);
    let (first, last) = (moved(start, still, Turn::L), moved(b, w, Turn::L));
    if 7 * grain(z) <= r.value() {
        lemma_still_angle(calc, p, th, r, z);
        let d = 2 * blur(r, z) + 8 * speck();
        lemma_still_starts(th, b, Turn::L, whole(0), Turn::R, d);
        lemma_still_starts(th, start, Turn::L, still, Turn::L, d + speck());
        lemma_blurred(r, d + 2 * speck(), z);
        lemma_meets(calc, p, th, Turn::L, r, first, d + 2 * speck(), z);
        lemma_still_starts(th, b, Turn::L, w, Turn::L, d);
        lemma_blurred(r, d + speck(), z);
        lemma_meets(calc, p, th, Turn::L, r, last, d + speck(), z);
    } else {
        lemma_to_center(calc, p, th, Turn::L, r, z);
        lemma_still_normal(calc, p, th, r, z);
        lemma_angle_difference(b, whole(0));
        lemma_angle_sum(start, still);
        lemma_angle_sum(b, w);
        lemma_small_circle(calc, p, th, Turn::L, r, first, z);
        lemma_small_circle(calc, p, th, Turn::L, r, last, z);
    }
    let q = path.csc_samples(calc, segs);
    assert(q[0] == on_circle(calc, path.c1, r, first));
    assert(q.last() == on_circle(calc, path.c2, r, last));
}

proof fn lemma_none_of(z: Scalar, s: Scalar)
    requires
        z.finite() && s.finite(),
        z.value() == 0,
    ensures
        (z * s).finite(),
        (z * s).value() == 0,
{
    reveal(Scalar::times);
    lemma_pow2_pos(1074);
    lemma_absolute_value(z);
    lemma_absolute_value(s);
    let (x, one) = (absolute(s.value()), pow2(1074) as int);
    let n = absolute(z.value()) * x;
    assert(n == 0) by (nonlinear_arith)
        requires
            n == absolute(z.value()) * x,
            absolute(z.value()) == 0,
    ;
    assert(magnitude_value(0) == 0);
    assert(0 * one == 0);
    lemma_at_most(0, one, 0);
    lemma_nearest_exists(0, one);
    lemma_signed_value(z * s, z.negative() != s.negative(), nearest(0, one));
}

/// The shortest path of two arcs and a line is one of them.
pub proof fn lemma_csc_choice<C: Fn(Calc) -> Scalar>(
    calc: C,
    p0: Spot,
    th0: Scalar,
    p1: Spot,
    th1: Scalar,
    r: Scalar,
) -> (k: (Turn, Turn, bool))
    requires
        best_csc(calc, p0, th0, p1, th1, r) is Some,
    ensures
        csc_path(calc, p0, th0, p1, th1, r, k.0, k.1, k.2) == best_csc(calc, p0, th0, p1, th1, r),
{
    let c = |t1: Turn, t2: Turn, first: bool|
        csc_path(calc, p0, th0, p1, th1, r, t1, t2, first);
    let x = best_csc(calc, p0, th0, p1, th1, r);
    let (l, o) = (Turn::L, Turn::R);
    if c(l, l, true) == x {
        (l, l, true)
    } else if c(l, l, false) == x {
        (l, l, false)
    } else if c(l, o, true) == x {
        (l, o, true)
    } else if c(l, o, false) == x {
        (l, o, false)
    } else if c(o, l, true) == x {
        (o, l, true)
    } else if c(o, l, false) == x {
        (o, l, false)
    } else if c(o, o, true) == x {
        (o, o, true)
    } else {
        (o, o, false)
    }
}

/// The shortest path of three arcs is one of them.
pub proof fn lemma_ccc_choice<C: Fn(Calc) -> Scalar>(
    calc: C,
    p0: Spot,
    th0: Scalar,
    p1: Spot,
    th1: Scalar,
    r: Scalar,
) -> (k: (Turn, Scalar))
    requires
        best_ccc(calc, p0, th0, p1, th1, r) is Some,
    ensures
        ccc_path(calc, p0, th0, p1, th1, r, k.0, k.1) == best_ccc(calc, p0, th0, p1, th1, r),
        k.1 == whole(1) || k.1 == whole(1).opposite(),
{
    let c = |t1: Turn, sign: Scalar| ccc_path(calc, p0, th0, p1, th1, r, t1, sign);
    let x = best_ccc(calc, p0, th0, p1, th1, r);
    let (plus, minus) = (whole(1), whole(1).opposite());
    if c(Turn::L, plus) == x {
        (Turn::L, plus)
    } else if c(Turn::L, minus) == x {
        (Turn::L, minus)
    } else if c(Turn::R, plus) == x {
        (Turn::R, plus)
    } else {
        (Turn::R, minus)
    }
}

/// The samples of a path run from its start to its end: the first and the last of
/// them are the two ends, but for a millionth of the radius and the rounding of the
/// coordinates. A turn on the spot starts at its place, and ends elsewhere on its
/// circle. Sine, cosine and direction have to be those of a circle, and the length of
/// the path finite. The bound on the coordinates and the radius can be as large as the
/// numbers allow.
pub proof fn law_samples_run_from_end_to_end<C: Fn(Calc) -> Scalar>(
    calc: C,
    p0: Spot,
    th0: Scalar,
    p1: Spot,
    th1: Scalar,
    r: Scalar,
    n: usize,
    z: nat,
)
    requires
        true_circle(calc),
        moderate_pose(p0, th0, z) && moderate_pose(p1, th1, z) && turnable(r, z),
        shortest_path(calc, p0, th0, p1, th1, r) is Some,
        shortest_path(calc, p0, th0, p1, th1, r)->0.length().finite(),
    ensures
        ({
            let path = shortest_path(calc, p0, th0, p1, th1, r)->0;
            let q = path.samples(calc, n as int);
            &&& q.len() > 0
            &&& reaches(q[0], p0, r, z)
            &&& path != pivot_path(calc, p0, th0, th1, r) ==> reaches(q.last(), p1, r, z)
        }),
{
    let path = shortest_path(calc, p0, th0, p1, th1, r)->0;
    let segs: int = if n < 2 {
        2
    } else {
        n as int
    };
    if path == pivot_path(calc, p0, th0, th1, r) {
        lemma_pivot_start(calc, p0, th0, th1, r, segs, z);
    } else if path == still_path(calc, p0, th0, r) && p0.0.equals(p1.0) && p0.1.equals(p1.1)
        && full_turn(th0).equals(full_turn(th1)) {
        lemma_still_ends(calc, p0, th0, r, segs, z);
    } else if best_csc(calc, p0, th0, p1, th1, r) is Some {
        let k = lemma_csc_choice(calc, p0, th0, p1, th1, r);
        lemma_csc_ends(calc, p0, th0, p1, th1, r, k.0, k.1, k.2, segs, z);
    } else {
        let k = lemma_ccc_choice(calc, p0, th0, p1, th1, r);
        lemma_ccc_ends(
            calc,
            p0,
            th0,
            p1,
            th1,
            r,
            k.0,
            k.1,
            if n < 4 {
                4
            } else {
                n as int
            },
            z,
        );
    }
}

/// Whether a place is another one, but for a millionth of a metre and of the radius.
pub open spec fn meets(q: Spot, p: Spot, r: Scalar) -> bool {
    &&& q.0.finite() && q.1.finite()
    &&& apart(1_000_000 * q.0.value(), 1_000_000 * p.0.value(), pow2(1074) + r.value())
    &&& apart(1_000_000 * q.1.value(), 1_000_000 * p.1.value(), pow2(1074) + r.value())
}

/// Whether the rounding of coordinates within a bound, and of angles at a radius, stays
/// below a millionth of a metre.
pub open spec fn fine(r: Scalar, z: nat) -> bool {
    16_000_000 * (pow2(1074) * grain(z)) + 20_000_001 * (r.value() * speck()) <= pow2(1074)
        * pow2(1074)
}

/// Within every bound on the coordinates and the radius for which their rounding stays
/// below a millionth of a metre, the ends are met but for a millionth of a metre and of
/// the radius.
pub proof fn law_ends_are_met(q: Spot, p: Spot, r: Scalar, z: nat)
    requires
        reaches(q, p, r, z),
        r.finite() && 0 < r.value(),
        fine(r, z),
    ensures
        meets(q, p, r),
{
    lemma_sizes();
    lemma_millionth();
    lemma_millionths(q.0.value(), p.0.value(), r.value(), grain(z));
    lemma_millionths(q.1.value(), p.1.value(), r.value(), grain(z));
}

/// Coordinates up to 2^25 metres, which every place on Earth has in a plane about another
/// one, and a radius up to 2^18 metres are such bounds.
pub proof fn law_ends_are_met_on_earth(q: Spot, p: Spot, r: Scalar)
    requires
        reaches(q, p, r, 1099),
        r.finite(),
        0 < r.value() <= 0x4_0000 * pow2(1074),
    ensures
        meets(q, p, r),
{
    lemma_sizes();
    lemma_scale(1099);
    lemma2_to64();
    lemma_pow2_adds(25, 1074);
    lemma_pow2_adds(25, 1049);
    let (one, e, g, rv) = (pow2(1074) as int, speck(), grain(1099), r.value());
    assert(one == 0x200_0000 * g);
    assert(16_000_000 * (one * g) + 20_000_001 * (rv * e) <= one * one) by (nonlinear_arith)
        requires
            one == 0x200_0000 * g,
            one == 0x1000_0000_0000 * e,
            0 < rv <= 0x4_0000 * one,
            e > 0,
    ;
    law_ends_are_met(q, p, r, 1099);
}

proof fn lemma_millionths(xv: int, pv: int, rv: int, g: int)
    requires
        apart(
            xv * pow2(1074),
            pv * pow2(1074),
            rv * (frac(1, 1_000_000).value() + 20 * speck()) + 16 * (pow2(1074) * g),
        ),
        0 < rv,
        16_000_000 * (pow2(1074) * g) + 20_000_001 * (rv * speck()) <= pow2(1074) * pow2(1074),
    ensures
        apart(1_000_000 * xv, 1_000_000 * pv, pow2(1074) + rv),
{
    lemma_sizes();
    lemma_millionth();
    let one = pow2(1074) as int;
    let e = speck();
    let d = frac(1, 1_000_000).value() + 20 * e;
    let m = 1_000_000 * d;
    assert(m <= one + 20_000_001 * e);
    let gap = 1_000_000 * (xv - pv);
    let ug = one * g;
    let re = rv * e;
    let rm = rv * m;
    assert(rm <= rv * one + 20_000_001 * re) by (nonlinear_arith)
        requires
            rm == rv * m,
            re == rv * e,
            m <= one + 20_000_001 * e,
            rv > 0,
    ;
    assert(-(rm + 16_000_000 * ug) <= gap * one && gap * one <= rm + 16_000_000 * ug)
        by (nonlinear_arith)
        requires
            gap == 1_000_000 * (xv - pv),
            rm == rv * m,
            m == 1_000_000 * d,
            -(rv * d + 16 * ug) <= xv * one - pv * one,
            xv * one - pv * one <= rv * d + 16 * ug,
    ;
    let most = one + rv;
    assert(-(most * one) <= gap * one && gap * one <= most * one) by (nonlinear_arith)
        requires
            most == one + rv,
            -(rm + 16_000_000 * ug) <= gap * one,
            gap * one <= rm + 16_000_000 * ug,
            rm <= rv * one + 20_000_001 * re,
            16_000_000 * ug + 20_000_001 * re <= one * one,
    ;
    assert(-most <= gap && gap <= most) by (nonlinear_arith)
        requires
            -(most * one) <= gap * one,
            gap * one <= most * one,
            one > 0,
    ;
}

/// Whether `back` is half a turn from `th`, but for `d`.
pub open spec fn half_turn(th: Scalar, back: Scalar, d: int) -> bool {
    0 <= d && no_turn(back.value() - th.value() - 2 * quarter(), d)
}

/// The way back turns on the same circles: with half a turn between the two headings,
/// the circle to the left of the one is the circle to the right of the other, but for
/// the part of the radius by which the half turn is off, and the rounding of the
/// coordinates.
pub proof fn law_way_back_turns_on_the_same_circle<C: Fn(Calc) -> Scalar>(
    calc: C,
    p: Spot,
    th: Scalar,
    back: Scalar,
    t: Turn,
    r: Scalar,
    d: int,
    z: nat,
)
    requires
        true_circle(calc),
        moderate_pose(p, th, z) && moderate_pose(p, back, z) && turnable(r, z),
        half_turn(th, back, d),
    ensures
        ({
            let c = turn_center(calc, p, th, t, r);
            let e = turn_center(calc, p, back, other_turn(t), r);
            let off = r.value() * (d + 4 * speck()) + 8 * (pow2(1074) * grain(z));
            &&& c.0.finite() && c.1.finite() && e.0.finite() && e.1.finite()
            &&& apart(c.0.value() * pow2(1074), e.0.value() * pow2(1074), off)
            &&& apart(c.1.value() * pow2(1074), e.1.value() * pow2(1074), off)
        }),
{
    lemma_sizes();
    let k = choose|k: int|
        -64 <= k <= 64 && -d <= back.value() - th.value() - 2 * quarter() - #[trigger] laps(k) <= d;
    lemma_angle_sum(th, right_angle());
    let a = th + right_angle();
    assert(laps(0) == 0) by (nonlinear_arith)
        requires
            laps(0) == 0 * lap(),
    ;
    assert(apart(a.value() - th.value() - quarter(), laps(0), speck()));
    assert(ahead(th, a, speck()));
    assert(apart(back.value() - a.value() - quarter(), laps(k), d + speck()));
    assert(ahead(a, back, d + speck()));
    let (s, c) = (image(calc, Calc::Sin(th)), image(calc, Calc::Cos(th)));
    let (u, v) = (image(calc, Calc::Sin(back)), image(calc, Calc::Cos(back)));
    assert(apart(u.value(), -s.value(), d + 4 * speck()));
    assert(apart(v.value(), -c.value(), d + 4 * speck()));
    lemma_same_center(p.0, r, s, u, d + 4 * speck(), z);
    lemma_same_center(p.1, r, c, v, d + 4 * speck(), z);
}

proof fn lemma_same_center(p: Scalar, r: Scalar, s: Scalar, u: Scalar, d: int, z: nat)
    requires
        within(p, z) && turnable(r, z),
        within_one(s) && within_one(u),
        apart(u.value(), -s.value(), d),
    ensures
        (p - r * s).finite() && (p + r * u).finite(),
        (p + r * s).finite() && (p - r * u).finite(),
        apart(
            (p - r * s).value() * pow2(1074),
            (p + r * u).value() * pow2(1074),
            r.value() * d + 8 * (pow2(1074) * grain(z)),
        ),
        apart(
            (p + r * s).value() * pow2(1074),
            (p - r * u).value() * pow2(1074),
            r.value() * d + 8 * (pow2(1074) * grain(z)),
        ),
{
    lemma_sizes();
    lemma_scale(z);
    lemma_reach(r, s, z);
    lemma_reach(r, u, z);
    lemma_place_difference(p, r * s, z);
    lemma_place_sum(p, r * s, z);
    lemma_place_difference(p, r * u, z);
    lemma_place_sum(p, r * u, z);
    let (one, g) = (pow2(1074) as int, grain(z));
    let (rv, sv, uv) = (r.value(), s.value(), u.value());
    let (rs, ru) = ((r * s).value(), (r * u).value());
    let (x, y) = ((p - r * s).value(), (p + r * u).value());
    let (w, v) = ((p + r * s).value(), (p - r * u).value());
    let most = rv * d + 8 * (one * g);
    assert(-most <= x * one - y * one && x * one - y * one <= most && -most <= w * one - v * one
        && w * one - v * one <= most) by (nonlinear_arith)
        requires
            most == rv * d + 8 * (one * g),
            -2 * g <= x - y + rs + ru <= 2 * g,
            -2 * g <= w - v - rs - ru <= 2 * g,
            -(one * g) <= rs * one - rv * sv <= one * g,
            -(one * g) <= ru * one - rv * uv <= one * g,
            -d <= uv + sv <= d,
            rv > 0,
            one > 0,
            g > 0,
    ;
}

} // verus!
