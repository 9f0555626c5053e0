//! Whole numbers and doubles, and the order helpers of doubles.

use crate::arith::{absolute, make, signed, unpack};
use crate::rounding::{lemma_nearest_unique, nearest, round_bracket};
use crate::scalar::{
    lemma_magnitude_monotone, magnitude_value, units, Scalar, INFINITY_BITS, SIGN_BIT,
};
use vstd::arithmetic::power2::{
    lemma2_to64, lemma2_to64_rest, lemma_pow2_adds, lemma_pow2_pos, lemma_pow2_strictly_increases,
    pow2,
};
use vstd::prelude::*;

verus! {

/// The double nearest to a whole number.
#[verifier::opaque]
pub open spec fn whole(n: int) -> Scalar {
    signed(n < 0, nearest(absolute(n) * pow2(1074), 1))
}

/// The double nearest to the fraction `n / d` of two whole numbers.
pub open spec fn frac(n: int, d: int) -> Scalar {
    whole(n) / whole(d)
}

/// A whole number brought into the range of `i64`.
pub open spec fn saturated(n: int) -> int {
    if n < i64::MIN {
        i64::MIN as int
    } else if n > i64::MAX {
        i64::MAX as int
    } else {
        n
    }
}

impl Scalar {
    /// The largest whole number that is not above `self`.
    pub open spec fn floor_value(self) -> int {
        self.value() / (pow2(1074) as int)
    }

    /// The larger of two doubles; the other one if one is a NaN.
    pub open spec fn larger(self, other: Scalar) -> Scalar {
        if self.nan() || self.less(other) {
            other
        } else {
            self
        }
    }

    /// The smaller of two doubles; the other one if one is a NaN.
    pub open spec fn smaller(self, other: Scalar) -> Scalar {
        if self.nan() || other.less(self) {
            other
        } else {
            self
        }
    }

    /// Equal as numbers; a NaN equals nothing, and the two zeros are equal.
    pub open spec fn equals(self, other: Scalar) -> bool {
        self.at_most(other) && other.at_most(self)
    }

    /// `self` brought between `lo` and `hi`; a NaN stays.
    pub open spec fn clamped(self, lo: Scalar, hi: Scalar) -> Scalar {
        if self.less(lo) {
            lo
        } else if hi.less(self) {
            hi
        } else {
            self
        }
    }

    /// The numeric `==` of doubles.
    pub fn num_eq(&self, other: &Scalar) -> (r: bool)
        ensures
            r == self.equals(*other),
    {
        self.le(other) && other.le(self)
    }

    pub fn max(&self, other: &Scalar) -> (r: Scalar)
        ensures
            r == self.larger(*other),
    {
        if self.is_nan() || self.lt(other) {
            *other
        } else {
            *self
        }
    }

    pub fn min(&self, other: &Scalar) -> (r: Scalar)
        ensures
            r == self.smaller(*other),
    {
        if self.is_nan() || other.lt(self) {
            *other
        } else {
            *self
        }
    }

    pub fn clamp(&self, lo: &Scalar, hi: &Scalar) -> (r: Scalar)
        ensures
            r == self.clamped(*lo, *hi),
    {
        if self.lt(lo) {
            *lo
        } else if hi.lt(self) {
            *hi
        } else {
            *self
        }
    }

    /// The double nearest to `n`.
    pub fn from_u64(n: u64) -> (r: Scalar)
        ensures
            r == whole(n as int),
            n <= u32::MAX ==> r.finite() && !r.negative() && r.value() == units(n as int),
    {
        reveal(whole);
        if n <= 0xffff_ffff {
            let r = Scalar::from_u32(n as u32);
            proof {
                lemma_whole_exact(n as int, r);
            }
            return r;
        }
        let ghost v: int = n * pow2(1074);
        proof {
            lemma2_to64();
            lemma_pow2_pos(1074);
            let p: int = pow2(1074) as int;
            let ni: int = n as int;
            assert(v == ni * p * 1) by (nonlinear_arith)
                requires
                    v == ni * p,
            ;
            assert((ni + 1) * p * 1 > ni * p * 1) by (nonlinear_arith)
                requires
                    p > 0,
            ;
            assert(pow2(0) * 1 == 1);
        }
        let m: u64 = round_bracket(n as u128, 1074, 0, false, Ghost(v), Ghost(1));
        proof {
            lemma_nearest_unique(v, 1, m as int, m as int);
        }
        make(false, m)
    }
}

/// A double that equals `n` is the nearest one to it.
pub proof fn lemma_whole_exact(n: int, r: Scalar)
    requires
        0 <= n,
        r.finite(),
        !r.negative(),
        r.value() == units(n),
    ensures
        r == whole(n),
{
    reveal(whole);
    let m = r.magnitude_bits();
    let v = n * pow2(1074);
    assert(magnitude_value(m) == v);
    if m > 0 {
        lemma_magnitude_monotone(m - 1, m);
    }
    lemma_magnitude_monotone(m, m + 1);
    assert((magnitude_value(m) + magnitude_value(m + 1)) * 1 == magnitude_value(m)
        + magnitude_value(m + 1));
    assert(m > 0 ==> (magnitude_value(m - 1) + magnitude_value(m)) * 1 == magnitude_value(m - 1)
        + magnitude_value(m));
    assert(crate::rounding::is_nearest(v, 1, m));
    lemma_nearest_unique(v, 1, m, m);
}

/// How often 2^k units fit into a finite magnitude, cut off at 2^63, and
/// whether anything is left.
fn split_at(m: u64, k: u32) -> (r: (u64, bool))
    requires
        m < INFINITY_BITS,
        1073 <= k <= 1074,
    ensures
        ({
            let q = magnitude_value(m as int) / (pow2(k as nat) as int);
            let rest = magnitude_value(m as int) % (pow2(k as nat) as int);
            &&& r.0 == (if q > SIGN_BIT {
                SIGN_BIT as int
            } else {
                q
            })
            &&& r.1 == (rest != 0)
        }),
{
    let (s, e) = unpack(m);
    let ghost p: int = pow2(k as nat) as int;
    let ghost v: int = magnitude_value(m as int);
    proof {
        lemma_pow2_pos(k as nat);
        lemma2_to64();
        lemma2_to64_rest();
    }
    if e >= k {
        let z: u32 = e - k;
        let ghost w: int = pow2(z as nat) as int;
        proof {
            lemma_pow2_adds(z as nat, k as nat);
            assert(v == (s * w) * p) by (nonlinear_arith)
                requires
                    v == s * pow2(e as nat),
                    pow2(e as nat) == w * p,
            ;
            lemma_pow2_pos(z as nat);
            vstd::arithmetic::div_mod::lemma_fundamental_div_mod_converse(v, p, s * w, 0);
        }
        if z > 11 {
            proof {
                lemma_pow2_strictly_increases(11, z as nat);
                assert(s * w >= 0x10_0000_0000_0000 * 2048) by (nonlinear_arith)
                    requires
                        s >= 0x10_0000_0000_0000,
                        w >= 2048,
                ;
            }
            return (SIGN_BIT, false);
        }
        let wide: u128 = crate::rounding::power_of_two(z);
        proof {
            if z < 11 {
                lemma_pow2_strictly_increases(z as nat, 11);
            }
            assert(s * w <= 0x20_0000_0000_0000 * 2048) by (nonlinear_arith)
                requires
                    s <= 0x20_0000_0000_0000,
                    0 < w <= 2048,
            ;
        }
        let q: u128 = (s as u128) * wide;
        if q > SIGN_BIT as u128 {
            (SIGN_BIT, false)
        } else {
            (q as u64, false)
        }
    } else {
        let z: u32 = k - e;
        let ghost g: int = pow2(e as nat) as int;
        proof {
            lemma_pow2_adds(z as nat, e as nat);
            lemma_pow2_pos(e as nat);
        }
        if z > 53 {
            proof {
                lemma_pow2_strictly_increases(53, z as nat);
                let w: int = pow2(z as nat) as int;
                assert(0 <= v < p) by (nonlinear_arith)
                    requires
                        v == s * g,
                        p == w * g,
                        s < w,
                        g > 0,
                ;
                vstd::arithmetic::div_mod::lemma_fundamental_div_mod_converse(v, p, 0, v);
                assert(v != 0 <==> s != 0) by (nonlinear_arith)
                    requires
                        v == s * g,
                        g > 0,
                ;
            }
            return (0, s != 0);
        }
        let wide: u128 = crate::rounding::power_of_two(z);
        proof {
            if z < 53 {
                lemma_pow2_strictly_increases(z as nat, 53);
            }
        }
        let w: u64 = wide as u64;
        let q: u64 = s / w;
        let rest: u64 = s % w;
        proof {
            vstd::arithmetic::div_mod::lemma_fundamental_div_mod(s as int, w as int);
            let wi: int = w as int;
            let qi: int = q as int;
            let ri: int = rest as int;
            assert(v == qi * p + ri * g) by (nonlinear_arith)
                requires
                    v == s * g,
                    p == wi * g,
                    s == wi * qi + ri,
            ;
            assert(0 <= ri * g < p) by (nonlinear_arith)
                requires
                    p == wi * g,
                    0 <= ri < wi,
                    g > 0,
            ;
            vstd::arithmetic::div_mod::lemma_fundamental_div_mod_converse(v, p, qi, ri * g);
            assert(ri * g != 0 <==> ri != 0) by (nonlinear_arith)
                requires
                    g > 0,
            ;
        }
        (q, rest != 0)
    }
}

impl Scalar {
    /// The largest whole number not above `self`, as a machine integer: cut
    /// off at the range of `i64`, and zero for a NaN.
    pub fn floor_i64(&self) -> (r: i64)
        ensures
            self.nan() ==> r == 0,
            self.finite() ==> r == saturated(self.floor_value()),
            self.infinite() ==> r == (if self.negative() {
                i64::MIN
            } else {
                i64::MAX
            }),
    {
        let m: u64 = self.magnitude_part();
        let negative: bool = self.is_negative();
        if m > INFINITY_BITS {
            return 0;
        }
        if m == INFINITY_BITS {
            return if negative {
                i64::MIN
            } else {
                i64::MAX
            };
        }
        let (q, rest) = split_at(m, 1074);
        let ghost p: int = pow2(1074) as int;
        let ghost v: int = magnitude_value(m as int);
        let ghost qf: int = v / p;
        let ghost rf: int = v % p;
        proof {
            lemma_pow2_pos(1074);
            vstd::arithmetic::div_mod::lemma_fundamental_div_mod(v, p);
            if negative {
                assert(p * qf == qf * p) by (nonlinear_arith);
                if rf == 0 {
                    assert(-v == (-qf) * p) by (nonlinear_arith)
                        requires
                            v == qf * p,
                    ;
                    vstd::arithmetic::div_mod::lemma_fundamental_div_mod_converse(-v, p, -qf, 0);
                } else {
                    assert(-v == (-qf - 1) * p + (p - rf)) by (nonlinear_arith)
                        requires
                            v == qf * p + rf,
                    ;
                    vstd::arithmetic::div_mod::lemma_fundamental_div_mod_converse(
                        -v,
                        p,
                        -qf - 1,
                        p - rf,
                    );
                }
            }
        }
        if negative {
            if q >= SIGN_BIT {
                i64::MIN
            } else if rest {
                -(q as i64) - 1
            } else {
                -(q as i64)
            }
        } else if q >= SIGN_BIT {
            i64::MAX
        } else {
            q as i64
        }
    }

    /// The smallest whole number that is not below `self`.
    pub open spec fn ceil_value(self) -> int {
        -((-self.value()) / (pow2(1074) as int))
    }

    /// The smallest whole number not below a number that is not negative, as a
    /// machine integer: cut off at 2^63, and zero for a NaN or a negative number.
    pub fn ceil_u64(&self) -> (r: u64)
        ensures
            self.nan() || self.negative() ==> r == 0,
            self.infinite() && !self.negative() ==> r == SIGN_BIT,
            self.finite() && !self.negative() ==> r == (if self.ceil_value() > SIGN_BIT {
                SIGN_BIT as int
            } else {
                self.ceil_value()
            }),
    {
        let m: u64 = self.magnitude_part();
        if m > INFINITY_BITS || self.is_negative() {
            return 0;
        }
        if m == INFINITY_BITS {
            return SIGN_BIT;
        }
        let (q, rest) = split_at(m, 1074);
        let ghost p: int = pow2(1074) as int;
        let ghost v: int = magnitude_value(m as int);
        let ghost qf: int = v / p;
        let ghost rf: int = v % p;
        proof {
            lemma_pow2_pos(1074);
            vstd::arithmetic::div_mod::lemma_fundamental_div_mod(v, p);
            assert(p * qf == qf * p) by (nonlinear_arith);
            if rf == 0 {
                assert(-v == (-qf) * p) by (nonlinear_arith)
                    requires
                        v == qf * p,
                ;
                vstd::arithmetic::div_mod::lemma_fundamental_div_mod_converse(-v, p, -qf, 0);
            } else {
                assert(-v == (-qf - 1) * p + (p - rf)) by (nonlinear_arith)
                    requires
                        v == qf * p + rf,
                ;
                vstd::arithmetic::div_mod::lemma_fundamental_div_mod_converse(
                    -v,
                    p,
                    -qf - 1,
                    p - rf,
                );
            }
        }
        if q >= SIGN_BIT {
            SIGN_BIT
        } else if rest {
            q + 1
        } else {
            q
        }
    }
}

/// The double nearest to the fraction `n / d`.
pub fn ratio(n: u64, d: u64) -> (r: Scalar)
    ensures
        r == frac(n as int, d as int),
{
    Scalar::from_u64(n) / Scalar::from_u64(d)
}

/// The double nearest to a whole number.
pub fn number(n: u64) -> (r: Scalar)
    ensures
        r == whole(n as int),
        n <= u32::MAX ==> r.finite() && !r.negative() && r.value() == units(n as int),
{
    Scalar::from_u64(n)
}

impl Scalar {
    /// The whole number nearest to a number that is not negative, halves upwards.
    pub open spec fn round_value(self) -> int {
        (2 * self.value() + pow2(1074)) / (2 * pow2(1074) as int)
    }

    /// The whole number nearest to a number that is not negative, as a machine
    /// integer: cut off at 2^62, and zero for a NaN or a negative number.
    pub fn round_u64(&self) -> (r: u64)
        ensures
            self.nan() || self.negative() ==> r == 0,
            self.infinite() && !self.negative() ==> r == 0x4000_0000_0000_0000,
            self.finite() && !self.negative() ==> r == (if self.round_value()
                > 0x4000_0000_0000_0000 {
                0x4000_0000_0000_0000
            } else {
                self.round_value()
            }),
    {
        let m: u64 = self.magnitude_part();
        if m > INFINITY_BITS || self.is_negative() {
            return 0;
        }
        if m == INFINITY_BITS {
            return 0x4000_0000_0000_0000;
        }
        let (h, _rest) = split_at(m, 1073);
        let ghost p: int = pow2(1073) as int;
        let ghost v: int = magnitude_value(m as int);
        let ghost hf: int = v / p;
        proof {
            lemma_pow2_pos(1073);
            vstd::arithmetic::power2::lemma_pow2_unfold(1074);
            vstd::arithmetic::div_mod::lemma_fundamental_div_mod(v, p);
            if m > 0 {
                lemma_magnitude_monotone(0, m as int);
            }
            assert(hf >= 0) by (nonlinear_arith)
                requires
                    v == p * hf + v % p,
                    0 <= v,
                    0 <= v % p < p,
                    p > 0,
            ;
            // 2 v + 2 p == 4 p * q + rest with rest below 4 p
            let q: int = (hf + 1) / 2;
            let odd: int = (hf + 1) % 2;
            let rest: int = 2 * (v % p) + 2 * p * odd;
            assert(2 * v + 2 * p == q * (4 * p) + rest) by (nonlinear_arith)
                requires
                    v == p * hf + v % p,
                    hf + 1 == 2 * q + odd,
                    rest == 2 * (v % p) + 2 * p * odd,
            ;
            assert(0 <= rest < 4 * p) by (nonlinear_arith)
                requires
                    0 <= v % p < p,
                    0 <= odd <= 1,
                    rest == 2 * (v % p) + 2 * p * odd,
            ;
            vstd::arithmetic::div_mod::lemma_fundamental_div_mod_converse(
                2 * v + 2 * p,
                4 * p,
                q,
                rest,
            );
        }
        if h >= SIGN_BIT - 1 {
            0x4000_0000_0000_0000
        } else {
            (h + 1) / 2
        }
    }
}

impl Scalar {
    /// The whole number nearest to a number that is not negative, halves to the
    /// even one.
    pub open spec fn round_even_value(self) -> int {
        let p = pow2(1074) as int;
        let q = self.value() / p;
        let twice = 2 * (self.value() % p);
        if twice < p || (twice == p && q % 2 == 0) {
            q
        } else {
            q + 1
        }
    }

    /// The whole number nearest to a number that is not negative, halves to the
    /// even one: cut off at 2^62, and zero for a NaN or a negative number.
    pub fn round_even_u64(&self) -> (r: u64)
        ensures
            self.nan() || self.negative() ==> r == 0,
            self.infinite() && !self.negative() ==> r == 0x4000_0000_0000_0000,
            self.finite() && !self.negative() ==> r == (if self.round_even_value()
                > 0x4000_0000_0000_0000 {
                0x4000_0000_0000_0000
            } else {
                self.round_even_value()
            }),
    {
        let m: u64 = self.magnitude_part();
        if m > INFINITY_BITS || self.is_negative() {
            return 0;
        }
        if m == INFINITY_BITS {
            return 0x4000_0000_0000_0000;
        }
        let (h, rest) = split_at(m, 1073);
        let ghost p: int = pow2(1073) as int;
        let ghost v: int = magnitude_value(m as int);
        let ghost hf: int = v / p;
        proof {
            lemma_pow2_pos(1073);
            vstd::arithmetic::power2::lemma_pow2_unfold(1074);
            vstd::arithmetic::div_mod::lemma_fundamental_div_mod(v, p);
            if m > 0 {
                lemma_magnitude_monotone(0, m as int);
            }
            assert(hf >= 0) by (nonlinear_arith)
                requires
                    v == p * hf + v % p,
                    0 <= v,
                    0 <= v % p < p,
                    p > 0,
            ;
            let q: int = hf / 2;
            let odd: int = hf % 2;
            let left: int = p * odd + v % p;
            assert(v == q * (2 * p) + left) by (nonlinear_arith)
                requires
                    v == p * hf + v % p,
                    hf == 2 * q + odd,
                    left == p * odd + v % p,
            ;
            assert(0 <= left < 2 * p) by (nonlinear_arith)
                requires
                    0 <= v % p < p,
                    0 <= odd <= 1,
                    left == p * odd + v % p,
            ;
            vstd::arithmetic::div_mod::lemma_fundamental_div_mod_converse(v, 2 * p, q, left);
            assert(odd == 1 ==> left == p + v % p) by (nonlinear_arith)
                requires
                    left == p * odd + v % p,
            ;
            assert(odd == 0 ==> left == v % p) by (nonlinear_arith)
                requires
                    left == p * odd + v % p,
            ;
        }
        if h >= SIGN_BIT - 1 {
            return 0x4000_0000_0000_0000;
        }
        let q: u64 = h / 2;
        if h % 2 == 0 || (!rest && q % 2 == 0) {
            q
        } else {
            q + 1
        }
    }
}

} // verus!
