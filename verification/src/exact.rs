//! Doubles as the real numbers that they stand for.

use crate::arith::absolute;
use crate::cell::{lemma_at_most, lemma_rounding, lemma_sum};
use crate::ends::{lemma_absolute_value, lemma_signed_value};
use crate::margin::{lemma_power_pattern, power_pattern};
use crate::rounding::{lemma_nearest_exists, nearest};
use crate::scalar::{magnitude_value, Scalar, FRACTION_LIMIT};
use vstd::arithmetic::power2::{lemma2_to64_rest, lemma_pow2_adds, lemma_pow2_pos, pow2};
use vstd::prelude::*;

verus! {

/// The real number that a finite double stands for.
pub open spec fn num(x: Scalar) -> real {
    x.value() as real / (pow2(1074) as real)
}

/// The size of a real number.
pub open spec fn size(x: real) -> real {
    if x < 0real {
        -x
    } else {
        x
    }
}

/// The smallest positive double.
pub open spec fn least() -> real {
    1real / (pow2(1074) as real)
}

/// The part of a result by which one operation may be off.
#[verifier::inline]
pub open spec fn part() -> real {
    1real / 4503599627370496real
}

/// A bound on what is computed here: 2^100.
#[verifier::inline]
pub open spec fn far() -> real {
    1267650600228229401496703205376real
}

pub proof fn lemma_least()
    ensures
        0real < least() <= 1real / 1267650600228229401496703205376real,
        pow2(1074) as real > 0real,
{
    lemma2_to64_rest();
    lemma_pow2_adds(50, 50);
    lemma_pow2_adds(100, 974);
    lemma_pow2_pos(974);
    let (u, w) = (pow2(1074) as int, pow2(974) as int);
    assert(pow2(100) == 1267650600228229401496703205376) by (nonlinear_arith)
        requires
            pow2(100) == pow2(50) * pow2(50),
            pow2(50) == 0x4_0000_0000_0000,
    ;
    assert(u >= 1267650600228229401496703205376) by (nonlinear_arith)
        requires
            u == 1267650600228229401496703205376 * w,
            w >= 1,
    ;
    let r = u as real;
    assert(r >= 1267650600228229401496703205376real);
    let l = least();
    assert(l * r == 1real) by (nonlinear_arith)
        requires
            l == 1real / r,
            r > 0real,
    ;
    assert(l > 0real && l <= 1real / 1267650600228229401496703205376real) by (nonlinear_arith)
        requires
            l * r == 1real,
            r >= 1267650600228229401496703205376real,
    ;
}

/// The unit of the values of doubles, and the bound, in that unit.
pub proof fn lemma_units()
    ensures
        pow2(1174) == 1267650600228229401496703205376 * pow2(1074),
        pow2(1074) > 0,
        magnitude_value(power_pattern(1122)) == pow2(1174),
        0 <= power_pattern(1122) < crate::scalar::INFINITY_BITS,
{
    lemma2_to64_rest();
    lemma_pow2_adds(50, 50);
    lemma_pow2_adds(100, 1074);
    lemma_pow2_pos(1074);
    assert(pow2(100) == 1267650600228229401496703205376) by (nonlinear_arith)
        requires
            pow2(100) == pow2(50) * pow2(50),
            pow2(50) == 0x4_0000_0000_0000,
    ;
    lemma_power_pattern(1122);
}

/// The value of a double is its number of units.
pub proof fn lemma_num(x: Scalar)
    ensures
        num(x) * (pow2(1074) as real) == x.value() as real,
        x.value() > 0 <==> num(x) > 0real,
        x.value() < 0 <==> num(x) < 0real,
{
    lemma_least();
    let (n, u, v) = (num(x), pow2(1074) as real, x.value() as real);
    assert(n * u == v) by (nonlinear_arith)
        requires
            n == v / u,
            u > 0real,
    ;
    assert(n > 0real <==> v > 0real) by (nonlinear_arith)
        requires
            n * u == v,
            u > 0real,
    ;
    assert(n < 0real <==> v < 0real) by (nonlinear_arith)
        requires
            n * u == v,
            u > 0real,
    ;
}

/// Doubles are in the order of their numbers.
pub proof fn lemma_order(x: Scalar, y: Scalar)
    ensures
        x.value() <= y.value() <==> num(x) <= num(y),
        x.value() < y.value() <==> num(x) < num(y),
{
    lemma_least();
    lemma_num(x);
    lemma_num(y);
    let (a, b, u) = (num(x), num(y), pow2(1074) as real);
    let (v, w) = (x.value() as real, y.value() as real);
    assert((v <= w <==> a <= b) && (v < w <==> a < b)) by (nonlinear_arith)
        requires
            a * u == v,
            b * u == w,
            u > 0real,
    ;
}

/// Whether a number is another one, but for a distance.
pub open spec fn about(x: real, y: real, d: real) -> bool {
    -d <= x - y <= d
}

/// A product of whole numbers.
pub proof fn lemma_whole_product(a: int, b: int)
    ensures
        (a * b) as real == (a as real) * (b as real),
{
    assert((a * b) as real == (a as real) * (b as real)) by (nonlinear_arith);
}

/// Errors in units are errors of numbers.
proof fn lemma_error(off: real, v: real, o: real, w: real, u: real)
    requires
        u > 0real,
        o * u == off,
        w * u == v,
        size(off) * 4503599627370496real <= size(v) + 4503599627370496real,
    ensures
        size(o) <= part() * size(w) + 1real / u,
{
    let l = 1real / u;
    assert(l * u == 1real) by (nonlinear_arith)
        requires
            l == 1real / u,
            u > 0real,
    ;
    let (so, sw) = (size(o), size(w));
    assert(so * u == size(off)) by (nonlinear_arith)
        requires
            o * u == off,
            u > 0real,
            so == size(o),
    ;
    assert(sw * u == size(v)) by (nonlinear_arith)
        requires
            w * u == v,
            u > 0real,
            sw == size(w),
    ;
    let x = so * 4503599627370496real - sw - 4503599627370496real * l;
    assert(x * u <= 0real) by (nonlinear_arith)
        requires
            x == so * 4503599627370496real - sw - 4503599627370496real * l,
            (so * u) * 4503599627370496real <= sw * u + 4503599627370496real,
            l * u == 1real,
    ;
    assert(x <= 0real) by (nonlinear_arith)
        requires
            x * u <= 0real,
            u > 0real,
    ;
}

/// A sum of two doubles.
#[verifier::rlimit(50)]
pub proof fn lemma_add(a: Scalar, b: Scalar)
    requires
        a.finite() && b.finite(),
        size(num(a) + num(b)) <= far(),
    ensures
        (a + b).finite(),
        about(num(a + b), num(a) + num(b), part() * size(num(a) + num(b)) + least()),
{
    lemma_least();
    lemma_units();
    lemma_num(a);
    lemma_num(b);
    let u = pow2(1074) as real;
    let (v, w) = (a.value() + b.value(), num(a) + num(b));
    assert(w * u == v as real) by (nonlinear_arith)
        requires
            w == num(a) + num(b),
            num(a) * u == a.value() as real,
            num(b) * u == b.value() as real,
            v as real == a.value() as real + b.value() as real,
    ;
    assert(size(v as real) <= far() * u) by (nonlinear_arith)
        requires
            w * u == v as real,
            size(w) <= far(),
            u > 0real,
    ;
    assert(absolute(v) <= pow2(1174));
    lemma_sum(a, b, power_pattern(1122));
    lemma_num(a + b);
    let off = (a + b).value() - v;
    let o = num(a + b) - w;
    assert(o * u == off as real) by (nonlinear_arith)
        requires
            o == num(a + b) - w,
            num(a + b) * u == (a + b).value() as real,
            w * u == v as real,
            off as real == (a + b).value() as real - v as real,
    ;
    lemma_error(off as real, v as real, o, w, u);
}

/// A difference of two doubles.
pub proof fn lemma_sub(a: Scalar, b: Scalar)
    requires
        a.finite() && b.finite(),
        size(num(a) - num(b)) <= far(),
    ensures
        (a - b).finite(),
        about(num(a - b), num(a) - num(b), part() * size(num(a) - num(b)) + least()),
{
    let c = b.opposite();
    assert(c.magnitude_bits() == b.magnitude_bits());
    assert(c.value() == -b.value());
    lemma_num(b);
    lemma_num(c);
    lemma_least();
    let u = pow2(1074) as real;
    assert(num(c) == -num(b)) by (nonlinear_arith)
        requires
            num(c) * u == -(num(b) * u),
            u > 0real,
    ;
    lemma_add(a, c);
}

/// A product in units.
proof fn lemma_times_units(a: Scalar, b: Scalar)
    requires
        a.finite() && b.finite(),
        absolute(a.value() * b.value()) <= pow2(1174) * pow2(1074),
    ensures
        (a * b).finite(),
        absolute((a * b).value() * pow2(1074) - a.value() * b.value()) * FRACTION_LIMIT <= absolute(
            a.value() * b.value(),
        ) + pow2(1074) * FRACTION_LIMIT,
{
    reveal(Scalar::times);
    lemma_units();
    lemma_absolute_value(a);
    lemma_absolute_value(b);
    assert(magnitude_value(0) == 0);
    let one = pow2(1074) as int;
    let (av, bv) = (a.value(), b.value());
    let n = absolute(av) * absolute(bv);
    assert(n == absolute(av * bv)) by (nonlinear_arith)
        requires
            n == absolute(av) * absolute(bv),
            absolute(av) == av && av >= 0 || absolute(av) == -av && av < 0,
            absolute(bv) == bv && bv >= 0 || absolute(bv) == -bv && bv < 0,
            absolute(av * bv) == av * bv && av * bv >= 0 || absolute(av * bv) == -(av * bv) && av
                * bv < 0,
    ;
    lemma_at_most(n, one, power_pattern(1122));
    lemma_rounding(n, one);
    lemma_nearest_exists(n, one);
    let m = nearest(n, one);
    let negative = a.negative() != b.negative();
    lemma_signed_value(a * b, negative, m);
    let x = magnitude_value(m);
    let v = (a * b).value();
    if av == 0 || bv == 0 {
        assert(n == 0 && av * bv == 0) by (nonlinear_arith)
            requires
                n == absolute(av) * absolute(bv),
                av == 0 || bv == 0,
                absolute(av) == 0 || av != 0,
                absolute(bv) == 0 || bv != 0,
        ;
        assert(0 * one == 0);
        lemma_at_most(0, one, 0);
        assert(v == 0);
        assert(v * one == 0) by (nonlinear_arith)
            requires
                v == 0,
        ;
    } else if negative {
        assert(av * bv == -n && v * one == -(x * one)) by (nonlinear_arith)
            requires
                n == absolute(av) * absolute(bv),
                v == -x,
                (av > 0 && bv < 0 && absolute(av) == av && absolute(bv) == -bv) || (av < 0 && bv > 0
                    && absolute(av) == -av && absolute(bv) == bv),
        ;
    } else {
        assert(av * bv == n) by (nonlinear_arith)
            requires
                n == absolute(av) * absolute(bv),
                (av > 0 && bv > 0 && absolute(av) == av && absolute(bv) == bv) || (av < 0 && bv < 0
                    && absolute(av) == -av && absolute(bv) == -bv),
        ;
    }
}

/// A product of two doubles.
#[verifier::rlimit(50)]
pub proof fn lemma_mul(a: Scalar, b: Scalar)
    requires
        a.finite() && b.finite(),
        size(num(a) * num(b)) <= far(),
    ensures
        (a * b).finite(),
        about(num(a * b), num(a) * num(b), part() * size(num(a) * num(b)) + least()),
{
    lemma_least();
    lemma_units();
    lemma_num(a);
    lemma_num(b);
    let u = pow2(1074) as real;
    let (v, w) = (a.value() * b.value(), num(a) * num(b));
    let vr = v as real;
    lemma_whole_product(a.value(), b.value());
    let wu = w * u;
    assert(wu * u == vr) by (nonlinear_arith)
        requires
            wu == w * u,
            w == num(a) * num(b),
            num(a) * u == a.value() as real,
            num(b) * u == b.value() as real,
            vr == (a.value() as real) * (b.value() as real),
    ;
    let uu = u * u;
    assert(uu > 0real) by (nonlinear_arith)
        requires
            uu == u * u,
            u > 0real,
    ;
    assert(w * uu == vr) by (nonlinear_arith)
        requires
            wu * u == vr,
            wu == w * u,
            uu == u * u,
    ;
    assert(size(vr) <= far() * uu) by (nonlinear_arith)
        requires
            w * uu == vr,
            size(w) <= far(),
            uu > 0real,
    ;
    lemma_whole_product(pow2(1074) as int, pow2(1074) as int);
    assert(absolute(v) <= pow2(1174) * pow2(1074)) by (nonlinear_arith)
        requires
            absolute(v) <= 1267650600228229401496703205376 * (pow2(1074) * pow2(1074)),
            pow2(1174) == 1267650600228229401496703205376 * pow2(1074),
    ;
    lemma_times_units(a, b);
    lemma_num(a * b);
    let off = (a * b).value() * pow2(1074) - v;
    let offr = off as real;
    lemma_whole_product((a * b).value(), pow2(1074) as int);
    // In units of units, brought down once.
    let (o, ou) = (num(a * b) - w, (num(a * b) - w) * u);
    assert(ou * u == offr) by (nonlinear_arith)
        requires
            ou == (num(a * b) - w) * u,
            num(a * b) * u == (a * b).value() as real,
            (w * u) * u == vr,
            offr == ((a * b).value() as real) * u - vr,
    ;
    lemma_error_of_product(offr, vr, o, w, u);
}

/// Errors in units of units are errors of numbers.
proof fn lemma_error_of_product(off: real, v: real, o: real, w: real, u: real)
    requires
        u > 0real,
        (o * u) * u == off,
        (w * u) * u == v,
        size(off) * 4503599627370496real <= size(v) + u * 4503599627370496real,
    ensures
        size(o) <= part() * size(w) + 1real / u,
{
    let (ou, wu) = (o * u, w * u);
    // Divided by u.
    let x = size(ou) * 4503599627370496real - size(wu) - 4503599627370496real;
    assert(size(off) == size(ou) * u) by (nonlinear_arith)
        requires
            ou * u == off,
            u > 0real,
    ;
    assert(size(v) == size(wu) * u) by (nonlinear_arith)
        requires
            wu * u == v,
            u > 0real,
    ;
    assert(x * u <= 0real) by (nonlinear_arith)
        requires
            x == size(ou) * 4503599627370496real - size(wu) - 4503599627370496real,
            (size(ou) * u) * 4503599627370496real <= size(wu) * u + u * 4503599627370496real,
    ;
    assert(x <= 0real) by (nonlinear_arith)
        requires
            x * u <= 0real,
            u > 0real,
    ;
    lemma_error(ou, wu, o, w, u);
}

/// A quotient in units.
proof fn lemma_over_units(a: Scalar, b: Scalar)
    requires
        a.finite() && b.finite(),
        b.value() != 0,
        absolute(a.value()) * pow2(1074) <= pow2(1174) * absolute(b.value()),
    ensures
        (a / b).finite(),
        absolute((a / b).value() * b.value() - a.value() * pow2(1074)) * FRACTION_LIMIT <= absolute(
            a.value(),
        ) * pow2(1074) + absolute(b.value()) * FRACTION_LIMIT,
{
    reveal(Scalar::over);
    lemma_units();
    lemma_absolute_value(a);
    lemma_absolute_value(b);
    assert(magnitude_value(0) == 0);
    let one = pow2(1074) as int;
    let (av, bv) = (a.value(), b.value());
    let d = absolute(bv);
    let n = absolute(av) * one;
    assert(n >= 0) by (nonlinear_arith)
        requires
            n == absolute(av) * one,
            absolute(av) >= 0,
            one >= 0,
    ;
    lemma_at_most(n, d, power_pattern(1122));
    lemma_rounding(n, d);
    lemma_nearest_exists(n, d);
    let m = nearest(n, d);
    let negative = a.negative() != b.negative();
    lemma_signed_value(a / b, negative, m);
    let x = magnitude_value(m);
    let v = (a / b).value();
    if av == 0 {
        assert(n == 0 && av * one == 0) by (nonlinear_arith)
            requires
                n == absolute(av) * one,
                absolute(av) == 0,
                av == 0,
        ;
        assert(0 * d == 0);
        lemma_at_most(0, d, 0);
        assert(v == 0);
        assert(v * bv == 0) by (nonlinear_arith)
            requires
                v == 0,
        ;
    } else {
        let off = v * bv - av * one;
        assert(off == x * d - n || off == n - x * d) by (nonlinear_arith)
            requires
                off == v * bv - av * one,
                n == absolute(av) * one,
                (av > 0 && absolute(av) == av) || (av < 0 && absolute(av) == -av),
                (bv > 0 && d == bv) || (bv < 0 && d == -bv),
                v == (if (av < 0) != (bv < 0) {
                    -x
                } else {
                    x
                }),
        ;
    }
}

/// A quotient of two doubles, by what it is times the divisor.
#[verifier::rlimit(50)]
pub proof fn lemma_div(a: Scalar, b: Scalar)
    requires
        a.finite() && b.finite(),
        num(b) != 0real,
        size(num(a)) <= far() * size(num(b)),
    ensures
        (a / b).finite(),
        about(num(a / b) * num(b), num(a), part() * size(num(a)) + least() * size(num(b))),
{
    lemma_least();
    lemma_units();
    lemma_num(a);
    lemma_num(b);
    let u = pow2(1074) as real;
    let (ar, br) = (a.value() as real, b.value() as real);
    let (x, y) = (num(a), num(b));
    assert(size(x) * u == size(ar) && size(y) * u == size(br)) by (nonlinear_arith)
        requires
            x * u == ar,
            y * u == br,
            u > 0real,
    ;
    assert(size(ar) <= far() * size(br)) by (nonlinear_arith)
        requires
            size(x) * u == size(ar),
            size(y) * u == size(br),
            size(x) <= far() * size(y),
            u > 0real,
    ;
    let (ai, bi) = (absolute(a.value()), absolute(b.value()));
    assert(ai <= 1267650600228229401496703205376 * bi);
    assert(ai * pow2(1074) <= pow2(1174) * bi) by (nonlinear_arith)
        requires
            ai <= 1267650600228229401496703205376 * bi,
            pow2(1174) == 1267650600228229401496703205376 * pow2(1074),
            pow2(1074) > 0,
    ;
    lemma_over_units(a, b);
    lemma_num(a / b);
    let q = num(a / b);
    let qr = (a / b).value() as real;
    let off = (a / b).value() * b.value() - a.value() * pow2(1074);
    lemma_whole_product((a / b).value(), b.value());
    lemma_whole_product(a.value(), pow2(1074) as int);
    lemma_whole_product(ai, pow2(1074) as int);
    assert(off as real == qr * br - ar * u);
    let o = q * y - x;
    assert((o * u) * u == off as real) by (nonlinear_arith)
        requires
            o == q * y - x,
            q * u == qr,
            y * u == br,
            x * u == ar,
            off as real == qr * br - ar * u,
    ;
    assert(size(off as real) * 4503599627370496real <= size(ar) * u + size(br)
        * 4503599627370496real);
    let l = least();
    assert(l * u == 1real) by (nonlinear_arith)
        requires
            l == 1real / u,
            u > 0real,
    ;
    let s = size(o);
    assert(size(off as real) == (s * u) * u) by (nonlinear_arith)
        requires
            (o * u) * u == off as real,
            u > 0real,
            s == size(o),
    ;
    let t = s * 4503599627370496real - size(x) - (l * size(y)) * 4503599627370496real;
    assert((t * u) * u <= 0real) by (nonlinear_arith)
        requires
            t == s * 4503599627370496real - size(x) - (l * size(y)) * 4503599627370496real,
            ((s * u) * u) * 4503599627370496real <= (size(x) * u) * u + (size(y) * u)
                * 4503599627370496real,
            l * u == 1real,
    ;
    assert(t <= 0real) by (nonlinear_arith)
        requires
            (t * u) * u <= 0real,
            u > 0real,
    ;
}

} // verus!
