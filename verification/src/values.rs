//! Whole numbers, fractions and roots as real numbers.

use crate::cell::{lemma_shift, lemma_step_small};
use crate::ends::{lemma_absolute_value, lemma_signed_value};
use crate::exact::{
    about, far, least, lemma_div, lemma_least, lemma_num, lemma_units, lemma_whole_product, num,
    part,
};
use crate::margin::{lemma_small_whole, lemma_step_size, lemma_steps_grow, power_pattern, step_size};
use crate::meridian::lemma_root_from;
use crate::numeric::{frac, whole};
use crate::order::lemma_whole_zero;
use crate::root::lemma_nearest_root_unique;
use crate::scalar::{lemma_magnitude_monotone, magnitude_value, units, Scalar, INFINITY_BITS};
use vstd::arithmetic::power2::{lemma2_to64, pow2};
use vstd::prelude::*;

verus! {

/// A whole number that a double holds exactly.
pub proof fn lemma_num_whole(n: int)
    requires
        0 <= n < 0x10_0000_0000_0000,
    ensures
        whole(n).finite(),
        !whole(n).negative(),
        whole(n).value() == units(n),
        num(whole(n)) == n as real,
{
    lemma_least();
    lemma_num(whole(n));
    if n == 0 {
        lemma_whole_zero();
        assert(units(0) == 0) by (nonlinear_arith);
    } else {
        lemma2_to64();
        assert(n * pow2(0) == n) by (nonlinear_arith)
            requires
                pow2(0) == 1,
        ;
        let s = lemma_shift(n, 0);
        lemma_small_whole(n, s);
    }
    lemma_whole_product(n, pow2(1074) as int);
    let (x, u, r) = (num(whole(n)), pow2(1074) as real, n as real);
    assert(x == r) by (nonlinear_arith)
        requires
            x * u == r * u,
            u > 0real,
    ;
}

/// A fraction of two whole numbers.
pub proof fn lemma_num_frac(n: int, d: int)
    requires
        0 <= n < 0x10_0000_0000_0000,
        0 < d < 0x10_0000_0000_0000,
    ensures
        frac(n, d).finite(),
        about(num(frac(n, d)) * (d as real), n as real, part() * (n as real) + least() * (d as real)),
{
    lemma_num_whole(n);
    lemma_num_whole(d);
    lemma_div(whole(n), whole(d));
}

/// The root of a double, by its square.
#[verifier::rlimit(50)]
pub proof fn lemma_root(a: Scalar)
    requires
        a.finite(),
        0real <= num(a) <= far(),
    ensures
        a.root().finite(),
        num(a.root()) >= 0real,
        ({
            let r = num(a.root());
            let e = part() * r + least();
            about(r * r, num(a), r * e + e * e)
        }),
{
    reveal(Scalar::root);
    lemma_least();
    lemma_units();
    lemma_num(a);
    lemma_absolute_value(a);
    assert(magnitude_value(0) == 0 && magnitude_value(1) == 1);
    if a.magnitude_bits() > 0 {
        lemma_magnitude_monotone(0, a.magnitude_bits());
    }
    let u = pow2(1074) as real;
    if a.value() == 0 {
        assert(a.root() == a);
        let r = num(a.root());
        let e = part() * r + least();
        assert(r == 0real) by (nonlinear_arith)
            requires
                r * u == 0real,
                u > 0real,
        ;
        assert(r * r == 0real && r * e + e * e >= 0real) by (nonlinear_arith)
            requires
                r == 0real,
        ;
    } else {
        let one = pow2(1074) as int;
        let v = a.value();
        let n = v * one;
        lemma_whole_product(v, one);
        assert(v as real <= far() * u) by (nonlinear_arith)
            requires
                num(a) * u == v as real,
                num(a) <= far(),
                u > 0real,
        ;
        assert(v <= pow2(1174));
        assert(n >= 1 && n <= pow2(1174) * one) by (nonlinear_arith)
            requires
                n == v * one,
                1 <= v <= pow2(1174),
                one >= 1,
        ;
        let first = magnitude_value(0) + magnitude_value(1);
        assert(first * first == 1) by (nonlinear_arith)
            requires
                first == 1,
        ;
        let m = lemma_root_from(n, 1);
        lemma_nearest_root_unique(n, m);
        let p = power_pattern(1122);
        if m > p {
            lemma_magnitude_monotone(p, m);
            if m - 1 > p {
                lemma_magnitude_monotone(p, m - 1);
            }
            let (floor, top) = (magnitude_value(m - 1) + magnitude_value(m), pow2(1174) as int);
            assert(floor * floor > 4 * n) by (nonlinear_arith)
                requires
                    floor >= 2 * top,
                    top == 1267650600228229401496703205376 * one,
                    n <= top * one,
                    one > 0,
            ;
        }
        lemma_signed_value(a.root(), false, m);
        lemma_num(a.root());
        lemma_root_close(n, m, num(a), num(a.root()), u);
    }
}

/// How far the nearest root is off.
#[verifier::rlimit(50)]
proof fn lemma_root_close(n: int, m: int, a: real, r: real, u: real)
    requires
        n >= 1,
        m < INFINITY_BITS,
        crate::root::is_nearest_root(n, m),
        u > 0real,
        u == pow2(1074) as real,
        (a * u) * u == n as real,
        r * u == magnitude_value(m) as real,
    ensures
        r >= 0real,
        ({
            let e = part() * r + least();
            about(r * r, a, r * e + e * e)
        }),
{
    let (x, s) = (magnitude_value(m), step_size(m));
    lemma_step_size(m);
    lemma_step_small(m);
    assert(magnitude_value(0) == 0);
    if m > 0 {
        lemma_magnitude_monotone(0, m);
        lemma_step_size(m - 1);
        lemma_steps_grow(m - 1, m);
        if m > 1 {
            lemma_magnitude_monotone(0, m - 1);
        }
    } else {
        assert(step_size(0) == 1);
        assert((0 + s) * (0 + s) == 1) by (nonlinear_arith)
            requires
                s == 1,
        ;
    }
    assert(m > 0);
    assert(s <= x);
    let (top, low) = (2 * x + s, 2 * x - s);
    let (ceiling, floor) = (magnitude_value(m) + magnitude_value(m + 1), magnitude_value(m - 1)
        + magnitude_value(m));
    assert(ceiling == top && floor >= low);
    assert(low * low <= floor * floor) by (nonlinear_arith)
        requires
            0 <= low <= floor,
    ;
    lemma_whole_product(top, top);
    lemma_whole_product(low, low);
    let (xr, sr) = (x as real, s as real);
    let d = sr / u;
    assert(d * u == sr) by (nonlinear_arith)
        requires
            d == sr / u,
            u > 0real,
    ;
    let (tr, lr) = (top as real, low as real);
    assert(tr == 2real * xr + sr && lr == 2real * xr - sr);
    let e = part() * r + least();
    let l = least();
    assert(l * u == 1real) by (nonlinear_arith)
        requires
            l == 1real / u,
            u > 0real,
    ;
    assert(0real < d && 0real < l) by (nonlinear_arith)
        requires
            d * u == sr,
            l * u == 1real,
            sr > 0real,
            u > 0real,
    ;
    assert(r > 0real && d <= r) by (nonlinear_arith)
        requires
            r * u == xr,
            d * u == sr,
            sr <= xr,
            sr > 0real,
            u > 0real,
    ;
    assert(d <= e) by {
        if s == 1 {
            assert(d == l) by (nonlinear_arith)
                requires
                    d * u == 1real,
                    l * u == 1real,
                    u > 0real,
            ;
        } else {
            assert(sr * 4503599627370496real <= xr);
            assert(d * 4503599627370496real <= r) by (nonlinear_arith)
                requires
                    d * u == sr,
                    r * u == xr,
                    sr * 4503599627370496real <= xr,
                    u > 0real,
            ;
        }
    }
    // The squares, brought down.
    let (t2, l2) = (2real * r + d, 2real * r - d);
    assert(t2 * u == tr && l2 * u == lr) by (nonlinear_arith)
        requires
            t2 == 2real * r + d,
            l2 == 2real * r - d,
            r * u == xr,
            d * u == sr,
            tr == 2real * xr + sr,
            lr == 2real * xr - sr,
    ;
    let (tt, ll) = (t2 * t2, l2 * l2);
    assert((tt * u) * u == tr * tr && (ll * u) * u == lr * lr) by (nonlinear_arith)
        requires
            tt == t2 * t2,
            ll == l2 * l2,
            t2 * u == tr,
            l2 * u == lr,
    ;
    let four = 4real * a;
    assert((four * u) * u == 4real * (n as real)) by (nonlinear_arith)
        requires
            four == 4real * a,
            (a * u) * u == n as real,
    ;
    lemma_divided(four, tt, u);
    lemma_divided(ll, four, u);
    // Multiplied out.
    let (rr, rd, dd) = (r * r, r * d, d * d);
    assert(tt == 4real * rr + 4real * rd + dd && ll == 4real * rr - 4real * rd + dd)
        by (nonlinear_arith)
        requires
            tt == (2real * r + d) * (2real * r + d),
            ll == (2real * r - d) * (2real * r - d),
            rr == r * r,
            rd == r * d,
            dd == d * d,
    ;
    let (re, ee) = (r * e, e * e);
    assert(0real <= rd <= re && 0real <= dd <= ee) by (nonlinear_arith)
        requires
            rd == r * d,
            re == r * e,
            dd == d * d,
            ee == e * e,
            r > 0real,
            0real < d <= e,
    ;
}

/// Two numbers in units of units.
proof fn lemma_divided(x: real, y: real, u: real)
    requires
        (x * u) * u <= (y * u) * u,
        u > 0real,
    ensures
        x <= y,
{
    let (xu, yu) = (x * u, y * u);
    assert(xu <= yu) by (nonlinear_arith)
        requires
            xu * u <= yu * u,
            u > 0real,
    ;
    assert(x <= y) by (nonlinear_arith)
        requires
            x * u <= y * u,
            u > 0real,
    ;
}

} // verus!
