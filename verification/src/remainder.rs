//! The remainder of a division of doubles.

use crate::arith::{absolute, make, signed, unpack, NAN_BITS};
use crate::rounding::{is_nearest, lemma_nearest_unique, nearest, round_bracket};
use crate::scalar::{
    lemma_magnitude_monotone, magnitude_value, Scalar, FRACTION_LIMIT, INFINITY_BITS,
};
use vstd::arithmetic::div_mod::{lemma_fundamental_div_mod, lemma_fundamental_div_mod_converse};
use vstd::arithmetic::power2::{lemma2_to64, lemma_pow2_adds, lemma_pow2_pos, lemma_pow2_unfold, pow2};
use vstd::prelude::*;

verus! {

impl Scalar {
    /// What is left of `self` after taking `other` out as often as it fits,
    /// with the sign of `self`.
    #[verifier::opaque]
    pub open spec fn remainder(self, other: Scalar) -> Scalar {
        if self.nan() || other.nan() || self.infinite() || other.zero() {
            Scalar { bits: NAN_BITS }
        } else if other.infinite() {
            self
        } else {
            signed(
                self.negative(),
                nearest(absolute(self.value()) % absolute(other.value()), 1),
            )
        }
    }
}

/// `s * 2^d` modulo `m`.
fn shifted_modulo(s: u64, d: u32, m: u64) -> (r: u64)
    requires
        0 < m < 2 * FRACTION_LIMIT,
        s < 2 * FRACTION_LIMIT,
    ensures
        r < m,
        r == (s * pow2(d as nat)) % (m as int),
{
    let mut r: u64 = s % m;
    let ghost mut q: int = s as int / m as int;
    let mut k: u32 = 0;
    proof {
        lemma2_to64();
        lemma_fundamental_div_mod(s as int, m as int);
        assert(s * pow2(0) == s) by (nonlinear_arith)
            requires
                pow2(0) == 1,
        ;
        assert((m as int) * q == q * m) by (nonlinear_arith);
    }
    while k < d
        invariant
            0 < m < 2 * FRACTION_LIMIT,
            k <= d,
            r < m,
            s * pow2(k as nat) == q * m + r,
        decreases d - k,
    {
        proof {
            lemma_pow2_unfold((k + 1) as nat);
            let p: int = pow2(k as nat) as int;
            assert(s * (2 * p) == 2 * (s * p)) by (nonlinear_arith);
            let mi: int = m as int;
            assert((2 * q) * mi == 2 * (q * mi)) by (nonlinear_arith);
            assert((2 * q + 1) * mi == 2 * (q * mi) + mi) by (nonlinear_arith);
            q = if 2 * r >= m {
                2 * q + 1
            } else {
                2 * q
            };
        }
        r = r * 2;
        if r >= m {
            r = r - m;
        }
        k = k + 1;
    }
    proof {
        lemma_fundamental_div_mod_converse(s * pow2(d as nat), m as int, q, r as int);
    }
    r
}

impl Scalar {
    /// The remainder of a division, as the machine's `%` gives it.
    pub fn rem(&self, other: &Scalar) -> (r: Scalar)
        ensures
            r == self.remainder(*other),
    {
        reveal(Scalar::remainder);
        let ma: u64 = self.magnitude_part();
        let mb: u64 = other.magnitude_part();
        let negative: bool = self.is_negative();
        if ma >= INFINITY_BITS || mb > INFINITY_BITS || mb == 0 {
            return Scalar { bits: NAN_BITS };
        }
        if mb == INFINITY_BITS {
            return *self;
        }
        let (sa, ea) = unpack(ma);
        let (sb, eb) = unpack(mb);
        let ghost va: int = magnitude_value(ma as int);
        let ghost vb: int = magnitude_value(mb as int);
        proof {
            lemma2_to64();
            lemma_magnitude_monotone(0, mb as int);
            if ma > 0 {
                lemma_magnitude_monotone(0, ma as int);
            }
        }
        let (rest, e): (u64, u32) = if ea >= eb {
            (shifted_modulo(sa, ea - eb, sb), eb)
        } else {
            (sa, ea)
        };
        let ghost left: int = rest * pow2(e as nat);
        proof {
            let g: int = pow2(e as nat) as int;
            lemma_pow2_pos(e as nat);
            if ea >= eb {
                let x: int = sa * pow2((ea - eb) as nat);
                let mi: int = sb as int;
                lemma_pow2_adds((ea - eb) as nat, eb as nat);
                lemma_fundamental_div_mod(x, mi);
                let q: int = x / mi;
                assert(va == x * g) by (nonlinear_arith)
                    requires
                        va == sa * pow2(ea as nat),
                        pow2(ea as nat) == pow2((ea - eb) as nat) * g,
                        x == sa * pow2((ea - eb) as nat),
                ;
                assert(va == q * vb + left) by (nonlinear_arith)
                    requires
                        va == x * g,
                        x == mi * q + rest,
                        vb == mi * g,
                        left == rest * g,
                ;
                assert(0 <= left < vb) by (nonlinear_arith)
                    requires
                        0 <= rest < mi,
                        vb == mi * g,
                        left == rest * g,
                        g > 0,
                ;
                lemma_fundamental_div_mod_converse(va, vb, q, left);
            } else {
                let d: nat = (eb - ea) as nat;
                lemma_pow2_adds(d, ea as nat);
                lemma_pow2_pos((d - 1) as nat);
                lemma_pow2_unfold(d);
                let w: int = pow2(d) as int;
                assert(vb > va) by (nonlinear_arith)
                    requires
                        va == sa * g,
                        vb == sb * (w * g),
                        w >= 2,
                        sb >= FRACTION_LIMIT,
                        sa < 2 * FRACTION_LIMIT,
                        g > 0,
                ;
                lemma_fundamental_div_mod_converse(va, vb, 0, va);
            }
        }
        if rest == 0 {
            proof {
                assert(left == 0) by (nonlinear_arith)
                    requires
                        left == rest * pow2(e as nat),
                        rest == 0,
                ;
                assert(magnitude_value(0) + magnitude_value(1) == 1);
                assert(is_nearest(0, 1, 0));
                lemma_nearest_unique(0, 1, 0, 0);
            }
            return make(negative, 0);
        }
        proof {
            let g: int = pow2(e as nat) as int;
            let ri: int = rest as int;
            assert(left == ri * g * 1) by (nonlinear_arith)
                requires
                    left == ri * g,
            ;
            assert((ri + 1) * g * 1 > ri * g * 1) by (nonlinear_arith)
                requires
                    g > 0,
            ;
            assert(pow2(0) * 1 == 1);
        }
        let m: u64 = round_bracket(rest as u128, e, 0, false, Ghost(left), Ghost(1));
        proof {
            lemma_nearest_unique(left, 1, m as int, m as int);
        }
        make(negative, m)
    }
}

} // verus!
