//! Double-precision quantities, held by their IEEE-754 bit pattern.
//!
//! Every longitude, height, speed and cost of the planner is a double. The
//! rules of the planner compare such quantities and hand them on; the
//! comparisons are exact and are made here on the bit pattern. A pattern that
//! is not a NaN stands for an integer multiple of 2^-1074 (an infinity for a
//! number beyond every finite one), and the contracts speak of that integer.

use vstd::arithmetic::power2::{lemma2_to64, lemma2_to64_rest, lemma_pow2_adds, lemma_pow2_pos, lemma_pow2_unfold, pow2};
use vstd::prelude::*;

verus! {

/// The bit that holds the sign.
pub const SIGN_BIT: u64 = 0x8000_0000_0000_0000;

/// The pattern of positive infinity; larger magnitudes are NaNs.
pub const INFINITY_BITS: u64 = 0x7ff0_0000_0000_0000;

/// One more than the largest fraction field.
pub const FRACTION_LIMIT: u64 = 0x10_0000_0000_0000;

/// A double-precision number by its bit pattern.
#[derive(Clone, Copy, Debug, PartialEq, Eq, Structural)]
pub struct Scalar {
    pub bits: u64,
}

/// The magnitude that the 63 bits below the sign stand for, in units of 2^-1074.
pub open spec fn magnitude_value(m: int) -> int {
    if m / (FRACTION_LIMIT as int) == 0 {
        m
    } else {
        (FRACTION_LIMIT + m % (FRACTION_LIMIT as int)) * pow2(
            (m / (FRACTION_LIMIT as int) - 1) as nat,
        )
    }
}

/// The integer `n` in units of 2^-1074.
pub open spec fn units(n: int) -> int {
    n * pow2(1074)
}

pub proof fn lemma_magnitude_step(m: int)
    requires
        0 <= m,
    ensures
        magnitude_value(m) < magnitude_value(m + 1),
{
    let f: int = FRACTION_LIMIT as int;
    let e: int = m / f;
    let r: int = m % f;
    if r + 1 < f {
        assert((m + 1) / f == e && (m + 1) % f == r + 1);
        if e > 0 {
            let p: int = pow2((e - 1) as nat) as int;
            lemma_pow2_pos((e - 1) as nat);
            assert((f + r) * p < (f + r + 1) * p) by (nonlinear_arith)
                requires
                    p > 0,
            ;
        }
    } else {
        assert((m + 1) / f == e + 1 && (m + 1) % f == 0);
        if e == 0 {
            lemma_pow2_pos(0);
            assert(pow2(0) >= 1);
            assert(f * pow2(0) >= f) by (nonlinear_arith)
                requires
                    pow2(0) >= 1,
                    f > 0,
            ;
        } else {
            let p: int = pow2((e - 1) as nat) as int;
            lemma_pow2_pos((e - 1) as nat);
            lemma_pow2_unfold(e as nat);
            assert(pow2(e as nat) == 2 * p);
            assert((f + r) * p < f * (2 * p)) by (nonlinear_arith)
                requires
                    p > 0,
                    r == f - 1,
            ;
        }
    }
}

pub proof fn lemma_magnitude_monotone(a: int, b: int)
    requires
        0 <= a < b,
    ensures
        magnitude_value(a) < magnitude_value(b),
    decreases b - a,
{
    lemma_magnitude_step(b - 1);
    if a < b - 1 {
        lemma_magnitude_monotone(a, b - 1);
    }
}

impl Scalar {
    pub open spec fn negative(self) -> bool {
        self.bits >= SIGN_BIT
    }

    /// The 63 bits below the sign.
    pub open spec fn magnitude_bits(self) -> int {
        if self.negative() {
            self.bits - SIGN_BIT
        } else {
            self.bits as int
        }
    }

    pub open spec fn nan(self) -> bool {
        self.magnitude_bits() > INFINITY_BITS
    }

    pub open spec fn finite(self) -> bool {
        self.magnitude_bits() < INFINITY_BITS
    }

    /// The number this pattern stands for, in units of 2^-1074. Meaningful
    /// when the pattern is not a NaN; beyond every finite value when it is an
    /// infinity.
    pub open spec fn value(self) -> int {
        if self.negative() {
            -magnitude_value(self.magnitude_bits())
        } else {
            magnitude_value(self.magnitude_bits())
        }
    }

    /// `self < other` as numbers; false if either is a NaN.
    pub open spec fn less(self, other: Scalar) -> bool {
        !self.nan() && !other.nan() && self.value() < other.value()
    }

    /// `self <= other` as numbers; false if either is a NaN.
    pub open spec fn at_most(self, other: Scalar) -> bool {
        !self.nan() && !other.nan() && self.value() <= other.value()
    }

    /// Position in the total order of bit patterns: NaNs with the sign set,
    /// negative numbers, -0, +0, positive numbers, NaNs without the sign.
    pub open spec fn rank(self) -> int {
        if self.negative() {
            -self.magnitude_bits() - 1
        } else {
            self.magnitude_bits()
        }
    }

    pub fn is_nan(&self) -> (r: bool)
        ensures
            r == self.nan(),
    {
        if self.bits >= SIGN_BIT {
            self.bits - SIGN_BIT > INFINITY_BITS
        } else {
            self.bits > INFINITY_BITS
        }
    }

    pub fn is_finite(&self) -> (r: bool)
        ensures
            r == self.finite(),
    {
        if self.bits >= SIGN_BIT {
            self.bits - SIGN_BIT < INFINITY_BITS
        } else {
            self.bits < INFINITY_BITS
        }
    }

    /// The numeric `<` of doubles.
    pub fn lt(&self, other: &Scalar) -> (r: bool)
        ensures
            r == self.less(*other),
    {
        proof {
            lemma_value_order(*self, *other);
        }
        if self.is_nan() || other.is_nan() {
            return false;
        }
        if self.bits >= SIGN_BIT {
            if other.bits >= SIGN_BIT {
                self.bits > other.bits
            } else {
                self.bits > SIGN_BIT || other.bits > 0
            }
        } else if other.bits >= SIGN_BIT {
            false
        } else {
            self.bits < other.bits
        }
    }

    /// The numeric `<=` of doubles.
    pub fn le(&self, other: &Scalar) -> (r: bool)
        ensures
            r == self.at_most(*other),
    {
        if self.is_nan() || other.is_nan() {
            false
        } else {
            !other.lt(self)
        }
    }

    /// Whether `self` comes strictly before `other` in the total order.
    pub fn ranks_below(&self, other: &Scalar) -> (r: bool)
        ensures
            r == (self.rank() < other.rank()),
    {
        if self.bits >= SIGN_BIT {
            if other.bits >= SIGN_BIT {
                self.bits > other.bits
            } else {
                true
            }
        } else if other.bits >= SIGN_BIT {
            false
        } else {
            self.bits < other.bits
        }
    }

    /// The double that equals `n`.
    pub fn from_u32(n: u32) -> (r: Scalar)
        ensures
            r.finite(),
            !r.negative(),
            r.value() == units(n as int),
    {
        if n == 0 {
            return Scalar { bits: 0 };
        }
        let mut m: u64 = n as u64;
        let mut e: u64 = 52;
        proof {
            lemma2_to64();
            assert(n * pow2(0) == n) by (nonlinear_arith)
                requires
                    pow2(0) == 1,
            ;
        }
        while m < FRACTION_LIMIT
            invariant
                0 < n <= m < 2 * FRACTION_LIMIT,
                e <= 52,
                m as int == n * pow2((52 - e) as nat),
            decreases 2 * FRACTION_LIMIT - m,
        {
            proof {
                if e == 0 {
                    lemma2_to64();
                    lemma2_to64_rest();
                    assert(n * pow2(52) >= pow2(52)) by (nonlinear_arith)
                        requires
                            n >= 1,
                    ;
                    assert(false);
                }
                lemma_pow2_unfold((53 - e) as nat);
                let p: int = pow2((52 - e) as nat) as int;
                assert(n * (2 * p) == 2 * (n * p)) by (nonlinear_arith);
            }
            m = m * 2;
            e = e - 1;
        }
        let bits: u64 = (e + 1023) * FRACTION_LIMIT + (m - FRACTION_LIMIT);
        let r = Scalar { bits };
        proof {
            let f: int = FRACTION_LIMIT as int;
            assert(bits as int / f == e + 1023);
            assert(bits as int % f == m - f);
            lemma_pow2_adds((52 - e) as nat, (e + 1022) as nat);
            assert((n * pow2((52 - e) as nat)) * pow2((e + 1022) as nat) == n * (pow2(
                (52 - e) as nat,
            ) * pow2((e + 1022) as nat))) by (nonlinear_arith);
        }
        r
    }
}

/// The order of values is the order of the signed magnitudes, and the two
/// zeros are one value.
pub proof fn lemma_value_order(a: Scalar, b: Scalar)
    ensures
        a.value() < b.value() <==> {
            if a.negative() && b.negative() {
                b.magnitude_bits() < a.magnitude_bits()
            } else if a.negative() {
                a.magnitude_bits() > 0 || b.magnitude_bits() > 0
            } else if b.negative() {
                false
            } else {
                a.magnitude_bits() < b.magnitude_bits()
            }
        },
{
    let ma = a.magnitude_bits();
    let mb = b.magnitude_bits();
    if ma < mb {
        lemma_magnitude_monotone(ma, mb);
    } else if mb < ma {
        lemma_magnitude_monotone(mb, ma);
    }
    if ma > 0 {
        lemma_magnitude_monotone(0, ma);
    }
    if mb > 0 {
        lemma_magnitude_monotone(0, mb);
    }
}

} // verus!
