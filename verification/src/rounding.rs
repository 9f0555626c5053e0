//! Round-to-nearest-even onto the double-precision lattice.
//!
//! Every arithmetic operation of [`crate::arith`] computes an exact rational
//! number and rounds it once. An exact number is a fraction `n / d` in units
//! of 2^-1074; the magnitudes it can round to are the patterns from zero up to
//! that of infinity.

use crate::scalar::{
    lemma_magnitude_monotone, lemma_magnitude_step, magnitude_value, FRACTION_LIMIT, INFINITY_BITS,
};
use vstd::arithmetic::power2::{
    lemma2_to64, lemma2_to64_rest, lemma_pow2_adds, lemma_pow2_pos, lemma_pow2_strictly_increases,
    lemma_pow2_unfold, pow2,
};
use vstd::prelude::*;

verus! {

/// Whether the pattern `m` is the one nearest to `n / d`, an even pattern
/// winning a tie. The step above the largest finite magnitude counts as a
/// number for this, so that overflow starts half a step above it.
pub open spec fn is_nearest(n: int, d: int, m: int) -> bool {
    &&& 0 <= m <= INFINITY_BITS
    &&& m > 0 ==> {
        let floor = (magnitude_value(m - 1) + magnitude_value(m)) * d;
        floor < 2 * n || (floor == 2 * n && m % 2 == 0)
    }
    &&& m < INFINITY_BITS ==> {
        let ceiling = (magnitude_value(m) + magnitude_value(m + 1)) * d;
        2 * n < ceiling || (2 * n == ceiling && m % 2 == 0)
    }
}

/// The magnitude pattern nearest to the non-negative number `n / d`.
pub open spec fn nearest(n: int, d: int) -> int {
    choose|m: int| is_nearest(n, d, m)
}

/// At most one pattern is nearest.
pub proof fn lemma_nearest_unique(n: int, d: int, a: int, b: int)
    requires
        d > 0,
        is_nearest(n, d, a),
        is_nearest(n, d, b),
    ensures
        a == b,
        nearest(n, d) == a,
{
    lemma_not_two_nearest(n, d, a, b);
    lemma_not_two_nearest(n, d, b, a);
    let c = nearest(n, d);
    assert(is_nearest(n, d, c));
    lemma_not_two_nearest(n, d, a, c);
    lemma_not_two_nearest(n, d, c, a);
}

proof fn lemma_not_two_nearest(n: int, d: int, a: int, b: int)
    requires
        d > 0,
        is_nearest(n, d, a),
        is_nearest(n, d, b),
    ensures
        !(a < b),
{
    if a < b {
        let top = magnitude_value(a) + magnitude_value(a + 1);
        let bottom = magnitude_value(b - 1) + magnitude_value(b);
        if a + 1 < b {
            lemma_magnitude_monotone(a, b - 1);
            lemma_magnitude_monotone(a + 1, b);
            assert(top * d < bottom * d) by (nonlinear_arith)
                requires
                    top < bottom,
                    d > 0,
            ;
        } else {
            assert(top == bottom);
        }
    }
}

/// Between two neighbouring patterns the half-way comparison decides.
proof fn lemma_round_between(n: int, d: int, m: int)
    requires
        d > 0,
        0 <= m < INFINITY_BITS,
        magnitude_value(m) * d <= n < magnitude_value(m + 1) * d,
    ensures
        ({
            let mid = (magnitude_value(m) + magnitude_value(m + 1)) * d;
            &&& (2 * n < mid || (2 * n == mid && m % 2 == 0)) ==> is_nearest(n, d, m)
            &&& (2 * n > mid || (2 * n == mid && m % 2 == 1)) ==> is_nearest(n, d, m + 1)
        }),
{
    let v = magnitude_value(m);
    let w = magnitude_value(m + 1);
    lemma_magnitude_step(m);
    if m > 0 {
        let u = magnitude_value(m - 1);
        lemma_magnitude_step(m - 1);
        assert((u + v) * d < 2 * (v * d)) by (nonlinear_arith)
            requires
                u < v,
                d > 0,
        ;
    }
    if m + 1 < INFINITY_BITS {
        let x = magnitude_value(m + 2);
        lemma_magnitude_step(m + 1);
        assert(2 * (w * d) < (w + x) * d) by (nonlinear_arith)
            requires
                w < x,
                d > 0,
        ;
    }
}

/// A number at or beyond the pattern of infinity rounds to it.
proof fn lemma_round_overflow(n: int, d: int)
    requires
        d > 0,
        n >= magnitude_value(INFINITY_BITS as int) * d,
    ensures
        is_nearest(n, d, INFINITY_BITS as int),
{
    let u = magnitude_value(INFINITY_BITS - 1);
    let v = magnitude_value(INFINITY_BITS as int);
    lemma_magnitude_step(INFINITY_BITS - 1);
    assert((u + v) * d < 2 * (v * d)) by (nonlinear_arith)
        requires
            u < v,
            d > 0,
    ;
}

proof fn lemma_nearest_from(n: int, d: int, m: int) -> (r: int)
    requires
        d > 0,
        0 <= m <= INFINITY_BITS,
        magnitude_value(m) * d <= n,
    ensures
        is_nearest(n, d, r),
    decreases INFINITY_BITS - m,
{
    if m == INFINITY_BITS {
        lemma_round_overflow(n, d);
        m
    } else if n < magnitude_value(m + 1) * d {
        lemma_round_between(n, d, m);
        let mid = (magnitude_value(m) + magnitude_value(m + 1)) * d;
        if 2 * n < mid || (2 * n == mid && m % 2 == 0) {
            m
        } else {
            m + 1
        }
    } else {
        lemma_nearest_from(n, d, m + 1)
    }
}

/// Every non-negative number has a nearest pattern.
pub proof fn lemma_nearest_exists(n: int, d: int)
    requires
        n >= 0,
        d > 0,
    ensures
        is_nearest(n, d, nearest(n, d)),
        0 <= nearest(n, d) <= INFINITY_BITS,
{
    assert(magnitude_value(0) * d == 0) by (nonlinear_arith)
        requires
            magnitude_value(0) == 0,
    ;
    let m = lemma_nearest_from(n, d, 0);
    assert(is_nearest(n, d, m));
}

/// A pattern of significand `q` and step exponent `t`.
pub open spec fn pattern(q: int, t: int) -> int {
    if t == 0 {
        q
    } else {
        (t + 1) * FRACTION_LIMIT + (q - FRACTION_LIMIT)
    }
}

/// The magnitude of a pattern and of its successor.
pub proof fn lemma_pattern_value(q: int, t: int)
    requires
        0 <= t,
        0 <= q < 2 * FRACTION_LIMIT,
        t > 0 ==> q >= FRACTION_LIMIT,
    ensures
        magnitude_value(pattern(q, t)) == q * pow2(t as nat),
        magnitude_value(pattern(q, t) + 1) == (q + 1) * pow2(t as nat),
        pattern(q, t) >= 0,
        pattern(q, t) % 2 == q % 2,
{
    let f: int = FRACTION_LIMIT as int;
    let m = pattern(q, t);
    lemma_pow2_pos(t as nat);
    lemma_pow2_unfold((t + 1) as nat);
    let p: int = pow2(t as nat) as int;
    assert(pow2((t + 1) as nat) == 2 * p);
    if t == 0 {
        assert(p == 1) by {
            lemma2_to64();
        }
        assert(q * p == q) by (nonlinear_arith)
            requires
                p == 1,
        ;
        assert((q + 1) * p == q + 1) by (nonlinear_arith)
            requires
                p == 1,
        ;
        if q >= f {
            assert(m / f == 1 && m % f == q - f);
        }
        if q + 1 < f {
        } else if q + 1 < 2 * f {
            assert((m + 1) / f == 1 && (m + 1) % f == q + 1 - f);
        } else {
            assert((m + 1) / f == 2 && (m + 1) % f == 0);
            assert(f * (2 * p) == 2 * f) by (nonlinear_arith)
                requires
                    p == 1,
            ;
        }
    } else {
        assert(m / f == t + 1 && m % f == q - f);
        if q + 1 < 2 * f {
            assert((m + 1) / f == t + 1 && (m + 1) % f == q + 1 - f);
        } else {
            assert((m + 1) / f == t + 2 && (m + 1) % f == 0);
            assert(f * (2 * p) == (2 * f) * p) by (nonlinear_arith);
        }
    }
}

/// Whether `n / d` lies in the upper half of the step from `q` to `q + 1`, the
/// odd significand giving way at the half.
spec fn rounds_up(n: int, d: int, q: int, t: int) -> bool {
    let mid = (2 * q + 1) * pow2(t as nat) * d;
    2 * n > mid || (2 * n == mid && q % 2 == 1)
}

/// Packs a truncated significand, one step up if `up`.
fn pack(q: u64, t: u32, up: bool, Ghost(n): Ghost<int>, Ghost(d): Ghost<int>) -> (m: u64)
    requires
        d > 0,
        q < 2 * FRACTION_LIMIT,
        t > 0 ==> q >= FRACTION_LIMIT,
        q * pow2(t as nat) * d <= n < (q + 1) * pow2(t as nat) * d,
        up == rounds_up(n, d, q as int, t as int),
    ensures
        is_nearest(n, d, m as int),
{
    proof {
        lemma_pattern_value(q as int, t as int);
    }
    if t >= 2046 {
        proof {
            let m0 = pattern(q as int, t as int);
            assert(m0 >= INFINITY_BITS);
            if m0 > INFINITY_BITS {
                lemma_magnitude_monotone(INFINITY_BITS as int, m0);
            }
            let v = magnitude_value(INFINITY_BITS as int);
            let w = magnitude_value(m0);
            assert(v * d <= w * d) by (nonlinear_arith)
                requires
                    v <= w,
                    d > 0,
            ;
            lemma_round_overflow(n, d);
        }
        return INFINITY_BITS;
    }
    let m: u64 = if t == 0 {
        q
    } else {
        (t as u64 + 1) * FRACTION_LIMIT + (q - FRACTION_LIMIT)
    };
    proof {
        assert(m == pattern(q as int, t as int));
        let p: int = pow2(t as nat) as int;
        assert(q * p + (q + 1) * p == (2 * q + 1) * p) by (nonlinear_arith);
        lemma_round_between(n, d, m as int);
    }
    if up {
        m + 1
    } else {
        m
    }
}

/// 2^j as a machine integer.
pub fn power_of_two(j: u32) -> (r: u128)
    requires
        j <= 126,
    ensures
        r == pow2(j as nat),
        r >= 1,
{
    let mut r: u128 = 1;
    let mut i: u32 = 0;
    proof {
        lemma2_to64();
        lemma_small_powers();
    }
    while i < j
        invariant
            i <= j <= 126,
            r == pow2(i as nat),
            r >= 1,
            pow2(126) == 0x4000_0000_0000_0000_0000_0000_0000_0000,
        decreases j - i,
    {
        proof {
            lemma_pow2_unfold((i + 1) as nat);
            if i + 1 < 126 {
                lemma_pow2_strictly_increases((i + 1) as nat, 126);
            }
        }
        r = r * 2;
        i = i + 1;
    }
    r
}

/// The powers of two that the bounds of this module name.
proof fn lemma_small_powers()
    ensures
        pow2(0) == 1,
        pow2(1) == 2,
        pow2(52) == FRACTION_LIMIT,
        pow2(53) == 2 * FRACTION_LIMIT,
        pow2(54) == 0x40_0000_0000_0000,
        pow2(63) == 0x8000_0000_0000_0000,
        pow2(64) == 0x1_0000_0000_0000_0000,
        pow2(120) == 0x100_0000_0000_0000_0000_0000_0000_0000,
        pow2(126) == 0x4000_0000_0000_0000_0000_0000_0000_0000,
{
    lemma2_to64();
    lemma2_to64_rest();
    lemma_pow2_adds(60, 60);
    lemma_pow2_adds(60, 4);
    lemma_pow2_adds(63, 63);
    assert(pow2(120) == pow2(60) * pow2(60));
    assert(pow2(126) == pow2(63) * pow2(63));
}

/// The number of binary digits of `v`.
fn bit_length(v: u128) -> (l: u32)
    requires
        0 < v < 0x100_0000_0000_0000_0000_0000_0000_0000,
    ensures
        1 <= l <= 120,
        pow2((l - 1) as nat) <= v < pow2(l as nat),
{
    let mut l: u32 = 1;
    let mut bound: u128 = 2;
    proof {
        lemma_small_powers();
    }
    while bound <= v
        invariant
            1 <= l <= 120,
            bound == pow2(l as nat),
            pow2((l - 1) as nat) <= v,
            v < 0x100_0000_0000_0000_0000_0000_0000_0000,
            pow2(120) == 0x100_0000_0000_0000_0000_0000_0000_0000,
        decreases 120 - l,
    {
        proof {
            lemma_pow2_unfold((l + 1) as nat);
        }
        bound = bound * 2;
        l = l + 1;
    }
    l
}

/// `mant * 2^e` brackets `n` from below to within one step of 2^e, all in
/// multiples of `d0`; `sticky` says whether anything is left over.
pub open spec fn brackets(n: int, d0: int, mant: int, e: int, sticky: bool) -> bool {
    let g = pow2(e as nat);
    &&& mant * g * d0 <= n < (mant + 1) * g * d0
    &&& sticky <==> mant * g * d0 < n
}

/// What truncating `mant` by `s` binary digits says of `n`.
proof fn lemma_truncate(n: int, d0: int, mant: int, e: int, sticky: bool, s: int, q: int, rem: int)
    requires
        d0 > 0,
        s >= 1,
        e >= 0,
        mant >= 0,
        brackets(n, d0, mant, e, sticky),
        mant == q * pow2(s as nat) + rem,
        0 <= rem < pow2(s as nat),
    ensures
        ({
            let half = pow2((s - 1) as nat);
            let step = pow2((s + e) as nat);
            &&& q * step * d0 <= n < (q + 1) * step * d0
            &&& 2 * n > (2 * q + 1) * step * d0 <==> rem > half || (rem == half && sticky)
            &&& 2 * n == (2 * q + 1) * step * d0 <==> rem == half && !sticky
        }),
{
    let p: int = pow2(s as nat) as int;
    let h: int = pow2((s - 1) as nat) as int;
    let g: int = pow2(e as nat) as int;
    let step: int = pow2((s + e) as nat) as int;
    lemma_pow2_pos(e as nat);
    lemma_pow2_pos((s - 1) as nat);
    lemma_pow2_unfold(s as nat);
    lemma_pow2_adds(s as nat, e as nat);
    let gd: int = g * d0;
    assert(gd > 0) by (nonlinear_arith)
        requires
            g > 0,
            d0 > 0,
            gd == g * d0,
    ;
    assert(mant * g * d0 == mant * gd) by (nonlinear_arith)
        requires
            gd == g * d0,
    ;
    assert((mant + 1) * g * d0 == (mant + 1) * gd) by (nonlinear_arith)
        requires
            gd == g * d0,
    ;
    assert(q * step * d0 == (q * p) * gd) by (nonlinear_arith)
        requires
            gd == g * d0,
            step == p * g,
    ;
    assert((q + 1) * step * d0 == (q * p + p) * gd) by (nonlinear_arith)
        requires
            gd == g * d0,
            step == p * g,
    ;
    assert((2 * q + 1) * step * d0 == (2 * (q * p) + p) * gd) by (nonlinear_arith)
        requires
            gd == g * d0,
            step == p * g,
    ;
    let base: int = q * p;
    assert(p == 2 * h);
    assert(mant == base + rem);
    assert(base * gd <= mant * gd) by (nonlinear_arith)
        requires
            base <= mant,
            gd > 0,
    ;
    assert((mant + 1) * gd <= (base + p) * gd) by (nonlinear_arith)
        requires
            mant + 1 <= base + p,
            gd > 0,
    ;
    if rem > h {
        assert(2 * (mant * gd) > (2 * base + p) * gd) by (nonlinear_arith)
            requires
                2 * mant > 2 * base + p,
                gd > 0,
        ;
    } else if rem == h {
        assert(2 * (mant * gd) == (2 * base + p) * gd) by (nonlinear_arith)
            requires
                2 * mant == 2 * base + p,
        ;
    } else {
        assert(2 * ((mant + 1) * gd) <= (2 * base + p) * gd) by (nonlinear_arith)
            requires
                2 * (mant + 1) <= 2 * base + p,
                gd > 0,
        ;
    }
}

/// What widening an exact `mant` by `z` binary digits says of `n`.
proof fn lemma_widen(n: int, d0: int, mant: int, e: int, z: int, q: int)
    requires
        d0 > 0,
        0 <= z <= e,
        mant >= 0,
        brackets(n, d0, mant, e, false),
        q == mant * pow2(z as nat),
    ensures
        ({
            let step = pow2((e - z) as nat);
            &&& n == q * step * d0
            &&& q * step * d0 <= n < (q + 1) * step * d0
            &&& 2 * n < (2 * q + 1) * step * d0
        }),
{
    let w: int = pow2(z as nat) as int;
    let g: int = pow2(e as nat) as int;
    let step: int = pow2((e - z) as nat) as int;
    lemma_pow2_adds(z as nat, (e - z) as nat);
    lemma_pow2_pos((e - z) as nat);
    assert(q * step * d0 == mant * g * d0) by (nonlinear_arith)
        requires
            q == mant * w,
            g == w * step,
    ;
    assert(n == q * step * d0);
    let sd: int = step * d0;
    assert(sd > 0) by (nonlinear_arith)
        requires
            step > 0,
            d0 > 0,
            sd == step * d0,
    ;
    assert((q + 1) * step * d0 == q * step * d0 + sd) by (nonlinear_arith)
        requires
            sd == step * d0,
    ;
    assert((2 * q + 1) * step * d0 == 2 * (q * step * d0) + sd) by (nonlinear_arith)
        requires
            sd == step * d0,
    ;
}

/// The pattern nearest to `n / (2^k * d0)`, from a bracket of `n`.
pub fn round_bracket(
    mant: u128,
    e: u32,
    k: u32,
    sticky: bool,
    Ghost(n): Ghost<int>,
    Ghost(d0): Ghost<int>,
) -> (m: u64)
    requires
        0 < mant < 0x100_0000_0000_0000_0000_0000_0000_0000,
        sticky ==> mant >= 0x40_0000_0000_0000,
        e <= 10000,
        k <= 10000,
        d0 > 0,
        brackets(n, d0, mant as int, e as int, sticky),
    ensures
        is_nearest(n, pow2(k as nat) * d0, m as int),
{
    let l: u32 = bit_length(mant);
    let ghost d: int = pow2(k as nat) * d0;
    proof {
        lemma_small_powers();
        lemma_pow2_pos(k as nat);
        assert(d > 0) by (nonlinear_arith)
            requires
                d == pow2(k as nat) * d0,
                pow2(k as nat) > 0,
                d0 > 0,
        ;
        if sticky && l < 55 {
            if l < 54 {
                lemma_pow2_strictly_increases(l as nat, 54);
            }
            assert(false);
        }
    }
    let t: u32 = if e + l > k + 53 { e + l - k - 53 } else { 0 };
    let ghost step = pow2((t + k) as nat);
    proof {
        lemma_pow2_adds(t as nat, k as nat);
        assert forall|x: int| #![trigger x * step * d0] x * step * d0 == x * pow2(t as nat) * d by {
            assert(x * step * d0 == x * pow2(t as nat) * d) by (nonlinear_arith)
                requires
                    step == pow2(t as nat) * pow2(k as nat),
                    d == pow2(k as nat) * d0,
            ;
        }
    }
    if t + k <= e {
        let z: u32 = e - t - k;
        let w: u128 = power_of_two(z);
        let ghost q0: int = mant * pow2(z as nat);
        proof {
            lemma_pow2_adds(l as nat, z as nat);
            let p: int = pow2(z as nat) as int;
            let b: int = pow2(l as nat) as int;
            assert(q0 < b * p) by (nonlinear_arith)
                requires
                    q0 == mant * p,
                    mant < b,
                    p > 0,
            ;
            assert(q0 >= 0) by (nonlinear_arith)
                requires
                    q0 == mant * p,
                    p > 0,
            ;
            if l + z < 53 {
                lemma_pow2_strictly_increases((l + z) as nat, 53);
            }
            if t > 0 {
                let a: int = pow2((l - 1) as nat) as int;
                lemma_pow2_adds((l - 1) as nat, z as nat);
                assert(q0 >= a * p) by (nonlinear_arith)
                    requires
                        q0 == mant * p,
                        mant >= a,
                        p > 0,
                ;
                assert((l - 1) + z == 52);
            }
            lemma_widen(n, d0, mant as int, e as int, z as int, q0);
            let q = q0;
            assert(q * step * d0 == q * pow2(t as nat) * d);
            assert((q + 1) * step * d0 == (q + 1) * pow2(t as nat) * d);
            assert((2 * q + 1) * step * d0 == (2 * q + 1) * pow2(t as nat) * d);
        }
        let q: u64 = (mant * w) as u64;
        return pack(q, t, false, Ghost(n), Ghost(d));
    }
    let s: u32 = t + k - e;
    if s > 121 {
        proof {
            assert(t == 0);
            let g: int = pow2(e as nat) as int;
            lemma_pow2_pos(e as nat);
            lemma_pow2_adds(e as nat, s as nat);
            if s > 122 {
                lemma_pow2_strictly_increases(122, s as nat);
            }
            lemma_pow2_adds(120, 2);
            lemma2_to64();
            let ps: int = pow2(s as nat) as int;
            let top: int = 0x100_0000_0000_0000_0000_0000_0000_0000;
            assert(ps >= 4 * top);
            assert(pow2(k as nat) == g * ps);
            let gd: int = g * d0;
            assert(gd > 0) by (nonlinear_arith)
                requires
                    g > 0,
                    d0 > 0,
                    gd == g * d0,
            ;
            assert(n < top * gd) by (nonlinear_arith)
                requires
                    n < (mant + 1) * g * d0,
                    mant + 1 <= top,
                    gd == g * d0,
                    gd > 0,
            ;
            assert(d >= 4 * top * gd) by (nonlinear_arith)
                requires
                    d == (g * ps) * d0,
                    ps >= 4 * top,
                    gd == g * d0,
                    gd > 0,
            ;
            let v1 = magnitude_value(0) + magnitude_value(1);
            assert(v1 == 1);
            assert(v1 * d == d);
            assert(is_nearest(n, d, 0));
        }
        return 0;
    }
    let p: u128 = power_of_two(s);
    let half: u128 = power_of_two(s - 1);
    let q128: u128 = mant / p;
    let rem: u128 = mant % p;
    proof {
        vstd::arithmetic::div_mod::lemma_fundamental_div_mod(mant as int, p as int);
        let pi: int = p as int;
        let q: int = q128 as int;
        assert(pi * q == q * pi) by (nonlinear_arith);
        // the quotient has at most 53 digits, and exactly 53 above the lowest step
        let b: int = pow2(l as nat) as int;
        if l >= s {
            lemma_pow2_adds((l - s) as nat, s as nat);
            let c: int = pow2((l - s) as nat) as int;
            assert(q < c) by (nonlinear_arith)
                requires
                    q * pi <= mant,
                    mant < b,
                    b == c * pi,
                    pi > 0,
            ;
            if l - s < 53 {
                lemma_pow2_strictly_increases((l - s) as nat, 53);
            }
        } else {
            lemma_pow2_strictly_increases(l as nat, s as nat);
            assert(q == 0) by (nonlinear_arith)
                requires
                    q * pi <= mant,
                    mant < pi,
                    q >= 0,
                    pi > 0,
            ;
        }
        if t > 0 {
            assert(l - s == 53);
            let a: int = pow2((l - 1) as nat) as int;
            lemma_pow2_adds(52, s as nat);
            assert(a == FRACTION_LIMIT * pi);
            assert(q >= FRACTION_LIMIT) by (nonlinear_arith)
                requires
                    mant >= FRACTION_LIMIT * pi,
                    mant == q * pi + rem,
                    rem < pi,
                    pi > 0,
            ;
        }
        lemma_truncate(n, d0, mant as int, e as int, sticky, s as int, q, rem as int);
        assert(q * step * d0 == q * pow2(t as nat) * d);
        assert((q + 1) * step * d0 == (q + 1) * pow2(t as nat) * d);
        assert((2 * q + 1) * step * d0 == (2 * q + 1) * pow2(t as nat) * d);
    }
    let q: u64 = q128 as u64;
    let up: bool = rem > half || (rem == half && (sticky || q % 2 == 1));
    pack(q, t, up, Ghost(n), Ghost(d))
}

} // verus!
