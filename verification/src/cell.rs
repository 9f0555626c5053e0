//! A cell of the grid holds its own middle.

use crate::arith::absolute;
use crate::margin::{
    lemma_at_least_power, lemma_at_most_power, lemma_power_pattern, lemma_small_whole,
    lemma_step_size, lemma_steps_grow, lemma_value_of, power_pattern, step_size,
};
use crate::numeric::{frac, lemma_whole_exact, whole};
use crate::region::{clipped, Region};
use crate::rounding::{lemma_nearest_exists, nearest};
use crate::scalar::{
    lemma_magnitude_monotone, magnitude_value, units, Scalar, FRACTION_LIMIT, INFINITY_BITS,
};
use vstd::arithmetic::div_mod::{lemma_div_pos_is_pos, lemma_fundamental_div_mod_converse};
use vstd::arithmetic::power2::{
    lemma2_to64, lemma2_to64_rest, lemma_pow2_adds, lemma_pow2_pos, lemma_pow2_strictly_increases,
    lemma_pow2_unfold, pow2,
};
use vstd::prelude::*;

verus! {

/// Whether `x` is the fraction `n / d`, but for `e` parts in 2^30.
spec fn about(x: int, n: int, d: int, e: int) -> bool {
    n * (0x4000_0000 - e) <= x * d * 0x4000_0000 && x * d * 0x4000_0000 <= n * (0x4000_0000 + e)
}

/// The step above a number is at most 2^-52 of it, or the smallest step.
pub proof fn lemma_step_small(m: int)
    requires
        0 <= m,
    ensures
        step_size(m) == 1 || step_size(m) * FRACTION_LIMIT <= magnitude_value(m),
{
    let f: int = FRACTION_LIMIT as int;
    let e = m / f;
    if e > 0 {
        let p = pow2((e - 1) as nat) as int;
        lemma_pow2_pos((e - 1) as nat);
        let r = m % f;
        assert(p * f <= (f + r) * p) by (nonlinear_arith)
            requires
                r >= 0,
                p > 0,
        ;
    }
}

/// How far rounding moves a fraction.
pub proof fn lemma_rounding(n: int, d: int)
    requires
        n >= 0,
        d > 0,
        nearest(n, d) < INFINITY_BITS,
    ensures
        ({
            let x = magnitude_value(nearest(n, d));
            let off = x * d - n;
            -(n + d * FRACTION_LIMIT) <= off * FRACTION_LIMIT <= n + d * FRACTION_LIMIT
        }),
{
    lemma_nearest_exists(n, d);
    let f: int = FRACTION_LIMIT as int;
    let m = nearest(n, d);
    let v = magnitude_value(m);
    let s = step_size(m);
    lemma_step_size(m);
    lemma_step_small(m);
    let up = magnitude_value(m + 1);
    assert(2 * (n - v * d) <= s * d) by (nonlinear_arith)
        requires
            2 * n <= (v + up) * d,
            up - v == s,
    ;
    if m > 0 {
        lemma_step_size(m - 1);
        lemma_steps_grow(m - 1, m);
        let below = magnitude_value(m - 1);
        assert(2 * (v * d - n) <= s * d) by (nonlinear_arith)
            requires
                (below + v) * d <= 2 * n,
                v - below <= s,
                d > 0,
        ;
    } else {
        assert(magnitude_value(0) == 0);
        assert(v * d == 0) by (nonlinear_arith)
            requires
                v == 0,
        ;
    }
    let off = v * d - n;
    let a = s * d;
    if s == 1 {
        assert(a == d) by (nonlinear_arith)
            requires
                a == s * d,
                s == 1,
        ;
        assert(-(n + d * f) <= off * f <= n + d * f) by (nonlinear_arith)
            requires
                -2 * off <= d,
                2 * off <= d || off <= 0,
                n >= 0,
                d > 0,
                f > 0,
        ;
    } else {
        assert(a * f <= v * d) by (nonlinear_arith)
            requires
                s * f <= v,
                a == s * d,
                d > 0,
        ;
        assert(-(n + d * f) <= off * f <= n + d * f) by (nonlinear_arith)
            requires
                -2 * off <= a,
                2 * off <= a || off <= 0,
                a * f <= n + off,
                n >= 0,
                d > 0,
                f == 0x10_0000_0000_0000,
        ;
    }
}

/// Rounding keeps a fraction that is not tiny, but for a part in 2^30.
proof fn lemma_rounded_about(n: int, d: int)
    requires
        d > 0,
        d * FRACTION_LIMIT <= n,
        nearest(n, d) < INFINITY_BITS,
    ensures
        about(magnitude_value(nearest(n, d)), n, d, 1),
{
    assert(n >= 0) by (nonlinear_arith)
        requires
            d * FRACTION_LIMIT <= n,
            d > 0,
            FRACTION_LIMIT == 0x10_0000_0000_0000,
    ;
    lemma_rounding(n, d);
    let v = magnitude_value(nearest(n, d)) * d;
    let off = v - n;
    assert(-n <= off * 0x4000_0000 <= n) by (nonlinear_arith)
        requires
            -(2 * n) <= off * 0x10_0000_0000_0000 <= 2 * n,
            n >= 0,
    ;
}

/// A fraction does not round beyond a number that it is not above.
pub proof fn lemma_at_most(n: int, d: int, p: int)
    requires
        n >= 0,
        d > 0,
        0 <= p < INFINITY_BITS,
        n <= magnitude_value(p) * d,
    ensures
        magnitude_value(nearest(n, d)) <= magnitude_value(p),
        nearest(n, d) < INFINITY_BITS,
{
    lemma_nearest_exists(n, d);
    let m = nearest(n, d);
    let (v, w) = (magnitude_value(m), magnitude_value(p));
    if p < m {
        lemma_magnitude_monotone(p, m);
        if p < m - 1 {
            lemma_magnitude_monotone(p, m - 1);
        }
        let u = magnitude_value(m - 1);
        assert((u + v) * d > 2 * (w * d)) by (nonlinear_arith)
            requires
                w < v,
                w <= u,
                d > 0,
        ;
    } else if m < p {
        lemma_magnitude_monotone(m, p);
    }
}

/// The parts by which two steps are off add up.
proof fn lemma_compose(x: int, y: int, n: int, d: int, a: int, b: int, e: int, f: int)
    requires
        about(x, y * a, b, e),
        about(y, n, d, f),
        0 <= e <= 100,
        0 <= f <= 100,
        n > 0 && d > 0 && a > 0 && b > 0,
    ensures
        about(x, n * a, d * b, e + f + 1),
{
    let p: int = 0x4000_0000;
    let lo = (y * a) * (p - e);
    let hi = (y * a) * (p + e);
    let mid = x * b * p;
    let w = d * p;
    assert(lo * w <= mid * w && mid * w <= hi * w) by (nonlinear_arith)
        requires
            lo <= mid <= hi,
            w > 0,
    ;
    let z = y * d * p;
    assert(hi * w == z * (a * (p + e)) && lo * w == z * (a * (p - e))) by (nonlinear_arith)
        requires
            hi == (y * a) * (p + e),
            lo == (y * a) * (p - e),
            w == d * p,
            z == y * d * p,
    ;
    let (up, down) = (a * (p + e), a * (p - e));
    assert(up > 0 && down > 0) by (nonlinear_arith)
        requires
            up == a * (p + e),
            down == a * (p - e),
            a > 0,
            0 <= e <= 100,
            p == 0x4000_0000,
    ;
    let (top, bottom) = (n * (p + f), n * (p - f));
    assert(z * up <= top * up && bottom * down <= z * down) by (nonlinear_arith)
        requires
            bottom <= z <= top,
            up > 0,
            down > 0,
    ;
    let na = n * a;
    assert(na > 0) by (nonlinear_arith)
        requires
            na == n * a,
            n > 0,
            a > 0,
    ;
    assert(top * up == na * ((p + f) * (p + e))) by (nonlinear_arith)
        requires
            top == n * (p + f),
            up == a * (p + e),
            na == n * a,
    ;
    assert(bottom * down == na * ((p - f) * (p - e))) by (nonlinear_arith)
        requires
            bottom == n * (p - f),
            down == a * (p - e),
            na == n * a,
    ;
    let g = e + f + 1;
    assert((p + f) * (p + e) <= (p + g) * p && (p - g) * p <= (p - f) * (p - e))
        by (nonlinear_arith)
        requires
            g == e + f + 1,
            0 <= e <= 100,
            0 <= f <= 100,
            p == 0x4000_0000,
    ;
    let (big, small) = ((p + f) * (p + e), (p - f) * (p - e));
    let (over, under) = ((p + g) * p, (p - g) * p);
    assert(na * big <= na * over && na * under <= na * small) by (nonlinear_arith)
        requires
            big <= over,
            under <= small,
            na > 0,
    ;
    let t = x * (d * b) * p;
    assert(mid * w == t * p) by (nonlinear_arith)
        requires
            mid == x * b * p,
            w == d * p,
            t == x * (d * b) * p,
    ;
    assert(na * over == (na * (p + g)) * p && na * under == (na * (p - g)) * p)
        by (nonlinear_arith)
        requires
            over == (p + g) * p,
            under == (p - g) * p,
    ;
    let (l, r) = (na * (p - g), na * (p + g));
    assert(l <= t && t <= r) by (nonlinear_arith)
        requires
            l * p <= t * p,
            t * p <= r * p,
            p > 0,
    ;
}

/// A common factor does not matter.
proof fn lemma_cancel(x: int, n: int, d: int, k: int, e: int)
    requires
        k > 0,
        about(x, n * k, d * k, e),
    ensures
        about(x, n, d, e),
{
    let p: int = 0x4000_0000;
    let (l, t, r) = (n * (p - e), x * d * p, n * (p + e));
    assert((n * k) * (p - e) == l * k && x * (d * k) * p == t * k && (n * k) * (p + e) == r * k)
        by (nonlinear_arith)
        requires
            l == n * (p - e),
            t == x * d * p,
            r == n * (p + e),
    ;
    assert(l <= t && t <= r) by (nonlinear_arith)
        requires
            l * k <= t * k,
            t * k <= r * k,
            k > 0,
    ;
}

/// By how much to shift a small number to fill the significand.
pub proof fn lemma_shift(n: int, s: int) -> (t: int)
    requires
        0 < n,
        0 <= s <= 52,
        n * pow2(s as nat) < 2 * FRACTION_LIMIT,
    ensures
        0 <= t <= 52,
        FRACTION_LIMIT <= n * pow2(t as nat) < 2 * FRACTION_LIMIT,
    decreases 52 - s,
{
    let p = pow2(s as nat) as int;
    if n * p >= FRACTION_LIMIT {
        s
    } else {
        lemma2_to64_rest();
        if s == 52 {
            assert(n * p >= p) by (nonlinear_arith)
                requires
                    n > 0,
                    p > 0,
            ;
        }
        lemma_pow2_unfold((s + 1) as nat);
        assert(n * (2 * p) == 2 * (n * p)) by (nonlinear_arith);
        lemma_shift(n, s + 1)
    }
}

/// A small count is held exactly.
pub proof fn lemma_count(n: int)
    requires
        0 <= n <= 1024,
    ensures
        whole(n).finite(),
        !whole(n).negative(),
        whole(n).value() == units(n),
{
    if n == 0 {
        let zero = Scalar { bits: 0 };
        assert(magnitude_value(0) == 0);
        lemma_whole_exact(0, zero);
    } else {
        lemma2_to64();
        assert(n * pow2(0) == n) by (nonlinear_arith)
            requires
                pow2(0) == 1,
        ;
        let s = lemma_shift(n, 0);
        lemma_small_whole(n, s);
    }
}

/// One half is held exactly.
proof fn lemma_half()
    ensures
        frac(1, 2).finite(),
        !frac(1, 2).negative(),
        2 * frac(1, 2).value() == pow2(1074),
{
    reveal(Scalar::over);
    lemma_count(1);
    lemma_count(2);
    lemma_pow2_pos(1073);
    lemma_pow2_unfold(1074);
    let (h, u) = (pow2(1073) as int, pow2(1074) as int);
    let (n, d) = (u * u, units(2));
    assert(h * d == n && n >= 0 && d > 0) by (nonlinear_arith)
        requires
            u == 2 * h,
            h > 0,
            n == u * u,
            d == 2 * u,
    ;
    lemma_at_least_power(n, d, 1021);
    lemma_at_most_power(n, d, 1021);
    lemma_nearest_exists(n, d);
    lemma_value_of(frac(1, 2), nearest(n, d));
}

/// A hundredth is more than a 128th.
proof fn lemma_hundredth()
    ensures
        frac(1, 100).finite(),
        pow2(1074) <= 128 * frac(1, 100).value(),
{
    reveal(Scalar::over);
    lemma_count(1);
    lemma_count(100);
    lemma_pow2_pos(1067);
    lemma_pow2_adds(7, 1067);
    lemma2_to64();
    let (s, u) = (pow2(1067) as int, pow2(1074) as int);
    let (n, d) = (u * u, units(100));
    assert(u == 128 * s);
    assert(s * d <= n && n <= u * d && n >= 0 && d > 0) by (nonlinear_arith)
        requires
            u == 128 * s,
            s > 0,
            n == u * u,
            d == 100 * u,
    ;
    lemma_at_least_power(n, d, 1015);
    lemma_at_most_power(n, d, 1022);
    lemma_nearest_exists(n, d);
    lemma_value_of(frac(1, 100), nearest(n, d));
}

spec fn positive(x: Scalar) -> bool {
    x.finite() && !x.negative() && x.value() > 0
}

/// A product that is neither tiny nor beyond the finite pattern `p`.
proof fn lemma_product(a: Scalar, b: Scalar, p: int)
    requires
        positive(a) && positive(b),
        pow2(1074) * FRACTION_LIMIT <= a.value() * b.value(),
        0 <= p < INFINITY_BITS,
        a.value() * b.value() <= magnitude_value(p) * pow2(1074),
    ensures
        (a * b).finite(),
        !(a * b).negative(),
        (a * b).value() <= magnitude_value(p),
        about((a * b).value(), a.value() * b.value(), pow2(1074) as int, 1),
{
    reveal(Scalar::times);
    lemma_pow2_pos(1074);
    let (n, d) = (a.value() * b.value(), pow2(1074) as int);
    lemma_at_most(n, d, p);
    lemma_rounded_about(n, d);
    lemma_nearest_exists(n, d);
    lemma_value_of(a * b, nearest(n, d));
}

/// A quotient that is neither tiny nor beyond the finite pattern `p`.
proof fn lemma_quotient(a: Scalar, b: Scalar, p: int)
    requires
        positive(a) && positive(b),
        b.value() * FRACTION_LIMIT <= a.value() * pow2(1074),
        0 <= p < INFINITY_BITS,
        a.value() * pow2(1074) <= magnitude_value(p) * b.value(),
    ensures
        (a / b).finite(),
        !(a / b).negative(),
        (a / b).value() <= magnitude_value(p),
        about((a / b).value(), a.value() * pow2(1074), b.value(), 1),
{
    reveal(Scalar::over);
    lemma_pow2_pos(1074);
    assert(magnitude_value(0) == 0);
    let (n, d) = (a.value() * pow2(1074), b.value());
    assert(n >= 0) by (nonlinear_arith)
        requires
            n == a.value() * pow2(1074),
            a.value() > 0,
            pow2(1074) > 0,
    ;
    lemma_at_most(n, d, p);
    lemma_rounded_about(n, d);
    lemma_nearest_exists(n, d);
    lemma_value_of(a / b, nearest(n, d));
}

/// A sum that is not beyond the finite pattern `p`.
pub proof fn lemma_sum(a: Scalar, b: Scalar, p: int)
    requires
        a.finite() && b.finite(),
        0 <= p < INFINITY_BITS,
        absolute(a.value() + b.value()) <= magnitude_value(p),
    ensures
        ({
            let v = a.value() + b.value();
            let off = (a + b).value() - v;
            &&& (a + b).finite()
            &&& absolute((a + b).value()) <= magnitude_value(p)
            &&& absolute(off) * FRACTION_LIMIT <= absolute(v) + FRACTION_LIMIT
            &&& v > 0 ==> !(a + b).negative()
        }),
{
    reveal(Scalar::plus);
    let v = a.value() + b.value();
    let w = absolute(v);
    lemma_at_most(w, 1, p);
    lemma_rounding(w, 1);
    lemma_nearest_exists(w, 1);
    let m = nearest(w, 1);
    assert(magnitude_value(0) == 0);
    if m > 0 {
        lemma_magnitude_monotone(0, m);
    }
    if v == 0 {
        if m > 0 {
            assert(false);
        }
    }
}

/// How large one is beside the smallest step of a double.
pub proof fn lemma_one()
    ensures
        pow2(1074) >= 0x1_0000_0000 * FRACTION_LIMIT,
        0 < power_pattern(1022) < INFINITY_BITS,
        magnitude_value(power_pattern(1022)) == pow2(1074),
{
    lemma_power_pattern(1022);
    lemma2_to64();
    lemma2_to64_rest();
    lemma_pow2_adds(32, 52);
    assert(pow2(84) == 0x1_0000_0000 * FRACTION_LIMIT);
    lemma_pow2_strictly_increases(84, 1074);
}

/// Which part of the side the middle of a cell lies at.
proof fn lemma_part(c: int, grid: int)
    requires
        0 <= c < grid <= 1024,
    ensures
        ({
            let u = (whole(c) + frac(1, 2)) / whole(grid);
            &&& positive(u)
            &&& u.value() <= pow2(1074)
            &&& 4 * grid * u.value() >= pow2(1074)
            &&& about(u.value(), (2 * c + 1) * frac(1, 2).value(), grid, 3)
        }),
{
    lemma_one();
    lemma_half();
    lemma_count(c);
    lemma_count(grid);
    let one = pow2(1074) as int;
    let h = frac(1, 2).value();
    let g = whole(grid);
    let v = (2 * c + 1) * h;
    assert(units(c) + h == v && h <= v && v <= units(grid) && g.value() > 0) by (nonlinear_arith)
        requires
            units(c) == c * one,
            units(grid) == grid * one,
            g.value() == units(grid),
            one == 2 * h,
            v == (2 * c + 1) * h,
            0 <= c < grid,
            one > 0,
    ;
    let a = whole(c) + frac(1, 2);
    lemma_sum(whole(c), frac(1, 2), g.magnitude_bits());
    let x = a.value();
    assert(about(x, v, 1, 1) && 4 * x >= one) by (nonlinear_arith)
        requires
            absolute(x - v) * 0x10_0000_0000_0000 <= absolute(v) + 0x10_0000_0000_0000,
            about(x, v, 1, 1) == (v * (0x4000_0000 - 1) <= x * 1 * 0x4000_0000 && x * 1
                * 0x4000_0000 <= v * (0x4000_0000 + 1)),
            absolute(x - v) >= x - v,
            absolute(x - v) >= v - x,
            absolute(v) == v,
            h <= v,
            one == 2 * h,
            one >= 0x1_0000_0000 * 0x10_0000_0000_0000,
    ;
    assert(x > 0);
    let (n, d) = (x * one, g.value());
    assert(d * FRACTION_LIMIT <= n && n <= one * d) by (nonlinear_arith)
        requires
            n == x * one,
            d == grid * one,
            x <= d,
            4 * x >= one,
            one >= 0x1_0000_0000 * 0x10_0000_0000_0000,
            FRACTION_LIMIT == 0x10_0000_0000_0000,
            0 < grid <= 1024,
    ;
    lemma_quotient(a, g, power_pattern(1022));
    let u = (a / g).value();
    assert(v > 0);
    lemma_compose(u, x, v, 1, one, d, 1, 1);
    assert(1 * d == grid * one) by (nonlinear_arith)
        requires
            d == grid * one,
    ;
    lemma_cancel(u, v, grid, one, 3);
    assert(4 * grid * u >= one && u > 0) by (nonlinear_arith)
        requires
            v * (0x4000_0000 - 3) <= u * grid * 0x4000_0000,
            h <= v,
            one == 2 * h,
            h > 0,
            grid > 0,
    ;
}

/// How far the middle of a cell lies from the edge of the region.
proof fn lemma_offset(c: int, grid: int, span: Scalar)
    requires
        0 <= c < grid <= 1024,
        positive(span),
        pow2(1074) <= 128 * span.value(),
    ensures
        ({
            let x = (whole(c) + frac(1, 2)) / whole(grid) * span;
            let s = span.value();
            &&& positive(x)
            &&& 4096 * x.value() <= 4095 * s
            &&& s <= 2049 * x.value()
            &&& about(
                x.value(),
                (2 * c + 1) * frac(1, 2).value() * s,
                grid * pow2(1074),
                5,
            )
        }),
{
    lemma_one();
    lemma_half();
    lemma_part(c, grid);
    let one = pow2(1074) as int;
    let h = frac(1, 2).value();
    let part = (whole(c) + frac(1, 2)) / whole(grid);
    let (u, s) = (part.value(), span.value());
    let v = (2 * c + 1) * h;
    assert(one * FRACTION_LIMIT <= u * s && u * s <= s * one) by (nonlinear_arith)
        requires
            4 * grid * u >= one,
            u > 0,
            u <= one,
            0 < grid <= 1024,
            one <= 128 * s,
            one >= 0x1_0000_0000 * 0x10_0000_0000_0000,
            FRACTION_LIMIT == 0x10_0000_0000_0000,
    ;
    lemma_product(part, span, span.magnitude_bits());
    let x = (part * span).value();
    assert(v > 0) by (nonlinear_arith)
        requires
            v == (2 * c + 1) * h,
            c >= 0,
            h > 0,
    ;
    lemma_compose(x, u, v, grid, s, one, 1, 3);
    let (n, d) = (v * s, grid * one);
    let gs = 2 * grid * x;
    assert(d * x == gs * h && n == ((2 * c + 1) * s) * h) by (nonlinear_arith)
        requires
            d == grid * one,
            one == 2 * h,
            gs == 2 * grid * x,
            n == v * s,
            v == (2 * c + 1) * h,
    ;
    assert(x * d == d * x) by (nonlinear_arith);
    let k = (2 * c + 1) * s;
    assert(k * (0x4000_0000 - 5) <= gs * 0x4000_0000 && gs * 0x4000_0000 <= k * (0x4000_0000 + 5))
        by (nonlinear_arith)
        requires
            (k * h) * (0x4000_0000 - 5) <= gs * h * 0x4000_0000,
            gs * h * 0x4000_0000 <= (k * h) * (0x4000_0000 + 5),
            h > 0,
    ;
    assert(s <= k && k <= 2 * grid * s - s) by (nonlinear_arith)
        requires
            k == (2 * c + 1) * s,
            0 <= c < grid,
            s > 0,
    ;
    assert(s <= 2049 * x && x > 0) by (nonlinear_arith)
        requires
            s * (0x4000_0000 - 5) <= gs * 0x4000_0000,
            gs == 2 * grid * x,
            0 < grid <= 1024,
            s > 0,
    ;
    let t = grid * s;
    assert(2 * grid * s == 2 * t && t <= 1024 * s) by (nonlinear_arith)
        requires
            t == grid * s,
            grid <= 1024,
            s > 0,
    ;
    assert(k <= 2 * t - s);
    assert(k * (0x4000_0000 + 5) <= (2 * t - s) * (0x4000_0000 + 5)) by (nonlinear_arith)
        requires
            k <= 2 * t - s,
    ;
    assert(grid * (4096 * x) <= grid * (4095 * s)) by (nonlinear_arith)
        requires
            gs * 0x4000_0000 <= (2 * t - s) * (0x4000_0000 + 5),
            gs == 2 * grid * x,
            t == grid * s,
            t <= 1024 * s,
            s > 0,
    ;
    assert(4096 * x <= 4095 * s) by (nonlinear_arith)
        requires
            grid * (4096 * x) <= grid * (4095 * s),
            grid > 0,
    ;
}

/// Adding an edge and taking it away again.
proof fn lemma_there_and_back(edge: Scalar, x: Scalar, span: Scalar)
    requires
        edge.finite(),
        -units(200) <= edge.value() <= units(200),
        positive(x) && positive(span),
        pow2(1074) <= 128 * span.value(),
        4096 * x.value() <= 4095 * span.value(),
        span.value() <= 2049 * x.value(),
    ensures
        ({
            let y = edge + x - edge;
            &&& positive(y)
            &&& y.value() <= span.value()
            &&& about(y.value(), x.value(), 1, 18)
        }),
{
    lemma_one();
    let one = pow2(1074) as int;
    let (e, v, s) = (edge.value(), x.value(), span.value());
    let w = e + v;
    let p = if 819200 * one <= s {
        span.magnitude_bits()
    } else {
        power_pattern(1042)
    };
    lemma_power_pattern(1042);
    lemma_pow2_adds(20, 1074);
    lemma2_to64();
    assert(pow2(1094) == 1048576 * one);
    if 819200 * one <= s {
        assert(magnitude_value(p) == s);
        assert(200 * one + v <= s);
    } else {
        assert(magnitude_value(p) == 1048576 * one);
        assert(200 * one + v <= 1048576 * one);
    }
    lemma_sum(edge, x, p);
    let at = edge + x;
    let there = at.value();
    let back = edge.opposite();
    assert(back.magnitude_bits() == edge.magnitude_bits());
    assert(back.value() == -e);
    let k = there - e;
    assert(absolute(there - w) * 0x4000_0000 <= 17 * v) by (nonlinear_arith)
        requires
            absolute(there - w) * 0x10_0000_0000_0000 <= absolute(w) + 0x10_0000_0000_0000,
            absolute(w) <= 200 * one + v,
            one <= 128 * (2049 * v),
            one >= 0x1_0000_0000 * 0x10_0000_0000_0000,
    ;
    lemma_sum(at, back, span.magnitude_bits());
    let y = (at - edge).value();
    assert(absolute(y - k) * 0x4000_0000 <= v);
    assert(-18 * v <= (y - v) * 0x4000_0000 <= 18 * v);
}

/// The middle of a cell, found again on one axis.
proof fn lemma_axis(edge: Scalar, span: Scalar, c: int, grid: int)
    requires
        edge.finite(),
        -units(200) <= edge.value() <= units(200),
        span.finite(),
        frac(1, 100) < span,
        0 <= c < grid <= 1024,
    ensures
        ({
            let x = (whole(c) + frac(1, 2)) / whole(grid) * span;
            clipped((edge + x - edge) / span * whole(grid), grid) == c
        }),
{
    lemma_one();
    lemma_half();
    lemma_hundredth();
    lemma_count(grid);
    let one = pow2(1074) as int;
    let h = frac(1, 2).value();
    let g = whole(grid);
    let s = span.value();
    assert(positive(span) && one <= 128 * s);
    lemma_offset(c, grid, span);
    let x = (whole(c) + frac(1, 2)) / whole(grid) * span;
    lemma_there_and_back(edge, x, span);
    let y = edge + x - edge;
    let v = (2 * c + 1) * h;
    let d = grid * one;
    assert(h <= v && v * s > 0 && d > 0 && 2 * v == (2 * c + 1) * one) by (nonlinear_arith)
        requires
            v == (2 * c + 1) * h,
            0 <= c < grid,
            h > 0,
            s > 0,
            d == grid * one,
            one == 2 * h,
    ;
    assert(x.value() * 1 == x.value());
    lemma_compose(y.value(), x.value(), v * s, d, 1, 1, 18, 5);
    assert(v * s * 1 == v * s && d * 1 == d);
    assert(s * FRACTION_LIMIT <= y.value() * one && y.value() * one <= one * s)
        by (nonlinear_arith)
        requires
            y.value() <= s,
            x.value() * (0x4000_0000 - 18) <= y.value() * 1 * 0x4000_0000,
            s <= 2049 * x.value(),
            s > 0,
            one >= 0x1_0000_0000 * 0x10_0000_0000_0000,
            FRACTION_LIMIT == 0x10_0000_0000_0000,
    ;
    lemma_quotient(y, span, power_pattern(1022));
    let q = y / span;
    lemma_compose(q.value(), y.value(), v * s, d, one, s, 1, 24);
    let k = s * one;
    assert(v * s * one == v * k && d * s == grid * k && k > 0) by (nonlinear_arith)
        requires
            k == s * one,
            d == grid * one,
            s > 0,
            one > 0,
    ;
    lemma_cancel(q.value(), v, grid, k, 26);
    assert(one * FRACTION_LIMIT <= q.value() * d && q.value() * d <= d * one && q.value() > 0)
        by (nonlinear_arith)
        requires
            q.value() <= one,
            v * (0x4000_0000 - 26) <= q.value() * grid * 0x4000_0000,
            h <= v,
            one == 2 * h,
            d == grid * one,
            0 < grid,
            one >= 0x1_0000_0000 * 0x10_0000_0000_0000,
            FRACTION_LIMIT == 0x10_0000_0000_0000,
    ;
    lemma_product(q, g, g.magnitude_bits());
    let z = q * g;
    lemma_compose(z.value(), q.value(), v, grid, d, one, 1, 26);
    assert(grid * one == 1 * d);
    lemma_cancel(z.value(), v, 1, d, 28);
    lemma_found(z, c, v);
}

/// A number close to the middle between two counts lies between them.
proof fn lemma_found(z: Scalar, c: int, v: int)
    requires
        0 <= c <= 1024,
        2 * v == (2 * c + 1) * pow2(1074),
        about(z.value(), v, 1, 28),
    ensures
        z.floor_value() == c,
{
    let one = pow2(1074) as int;
    lemma_pow2_pos(1074);
    let x = z.value();
    assert(c * one < x && x < c * one + one) by (nonlinear_arith)
        requires
            2 * v == (2 * c + 1) * one,
            v * (0x4000_0000 - 28) <= x * 1 * 0x4000_0000,
            x * 1 * 0x4000_0000 <= v * (0x4000_0000 + 28),
            0 <= c <= 1024,
            one > 0,
    ;
    lemma_fundamental_div_mod_converse(x, one, c, x - c * one);
}

/// The middle of a cell lies in that cell: its place leads back to its row and
/// column, in every region wider than a hundredth of a degree, at every legal
/// coordinate and somewhat beyond.
pub proof fn law_cell_holds_its_center(region: Region, row: int, col: int, grid: int)
    requires
        region.min_lon.finite() && region.min_lat.finite() && region.span_deg.finite(),
        -units(200) <= region.min_lon.value() <= units(200),
        -units(200) <= region.min_lat.value() <= units(200),
        frac(1, 100) < region.span_deg,
        grid <= 1024,
        0 <= row < grid,
        0 <= col < grid,
    ensures
        ({
            let (lon, lat) = region.cell_center(row, col, grid);
            region.cell_of(lon, lat, grid) == (row, col)
        }),
{
    lemma_axis(region.min_lon, region.span_deg, col, grid);
    lemma_axis(region.min_lat, region.span_deg, row, grid);
}

/// Every place has a cell of the grid, wherever it lies.
pub proof fn law_every_place_has_a_cell(region: Region, lon: Scalar, lat: Scalar, grid: int)
    requires
        1 <= grid,
    ensures
        ({
            let (row, col) = region.cell_of(lon, lat, grid);
            0 <= row < grid && 0 <= col < grid
        }),
{
    let g = whole(grid);
    lemma_clipped((lat - region.min_lat) / region.span_deg * g, grid);
    lemma_clipped((lon - region.min_lon) / region.span_deg * g, grid);
}

proof fn lemma_clipped(x: Scalar, limit: int)
    requires
        1 <= limit,
    ensures
        0 <= clipped(x, limit) < limit,
{
    lemma_pow2_pos(1074);
    if !x.negative() {
        if x.magnitude_bits() > 0 {
            lemma_magnitude_monotone(0, x.magnitude_bits());
        }
        assert(magnitude_value(0) == 0);
        lemma_div_pos_is_pos(x.value(), pow2(1074) as int);
    }
}

} // verus!
