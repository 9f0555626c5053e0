//! Correctly rounded double-precision arithmetic.
//!
//! Sum, difference, product and quotient of finite numbers are the exact
//! rational results rounded once to nearest-even; zeros, infinities and NaNs
//! follow the usual rules, and every NaN that an operation makes is the one
//! quiet pattern [`NAN_BITS`].

use crate::rounding::{is_nearest, lemma_nearest_unique, nearest, power_of_two, round_bracket};
use crate::scalar::{
    lemma_magnitude_monotone, magnitude_value, Scalar, FRACTION_LIMIT, INFINITY_BITS, SIGN_BIT,
};
use vstd::arithmetic::power2::{
    lemma2_to64, lemma2_to64_rest, lemma_pow2_adds, lemma_pow2_pos, lemma_pow2_strictly_increases,
    lemma_pow2_unfold, pow2,
};
use vstd::prelude::*;

verus! {

/// The NaN that arithmetic makes.
pub const NAN_BITS: u64 = 0x7ff8_0000_0000_0000;

/// The scalar with the given sign and magnitude pattern.
pub open spec fn signed(negative: bool, m: int) -> Scalar {
    Scalar {
        bits: (if negative {
            SIGN_BIT + m
        } else {
            m
        }) as u64,
    }
}

pub open spec fn absolute(v: int) -> int {
    if v < 0 {
        -v
    } else {
        v
    }
}

/// Builds a scalar from its sign and magnitude pattern.
pub fn make(negative: bool, m: u64) -> (r: Scalar)
    requires
        m < SIGN_BIT,
    ensures
        r == signed(negative, m as int),
{
    if negative {
        Scalar { bits: SIGN_BIT + m }
    } else {
        Scalar { bits: m }
    }
}

impl Scalar {
    pub open spec fn infinite(self) -> bool {
        self.magnitude_bits() == INFINITY_BITS
    }

    /// Either zero.
    pub open spec fn zero(self) -> bool {
        self.magnitude_bits() == 0
    }

    /// The same magnitude with the other sign.
    pub open spec fn opposite(self) -> Scalar {
        signed(!self.negative(), self.magnitude_bits())
    }

    /// The same magnitude without a sign.
    pub open spec fn magnitude(self) -> Scalar {
        signed(false, self.magnitude_bits())
    }

    /// `self + other`.
    #[verifier::opaque]
    pub open spec fn plus(self, other: Scalar) -> Scalar {
        if self.nan() || other.nan() {
            Scalar { bits: NAN_BITS }
        } else if self.infinite() && other.infinite() {
            if self.negative() == other.negative() {
                self
            } else {
                Scalar { bits: NAN_BITS }
            }
        } else if self.infinite() {
            self
        } else if other.infinite() {
            other
        } else {
            let v = self.value() + other.value();
            if v == 0 {
                signed(self.negative() && other.negative(), 0)
            } else {
                signed(v < 0, nearest(absolute(v), 1))
            }
        }
    }

    /// `self - other`.
    pub open spec fn minus(self, other: Scalar) -> Scalar {
        self.plus(other.opposite())
    }

    /// `self * other`.
    #[verifier::opaque]
    pub open spec fn times(self, other: Scalar) -> Scalar {
        let negative = self.negative() != other.negative();
        if self.nan() || other.nan() || (self.infinite() && other.zero()) || (self.zero()
            && other.infinite()) {
            Scalar { bits: NAN_BITS }
        } else if self.infinite() || other.infinite() {
            signed(negative, INFINITY_BITS as int)
        } else {
            signed(
                negative,
                nearest(absolute(self.value()) * absolute(other.value()), pow2(1074) as int),
            )
        }
    }

    /// `self / other`.
    #[verifier::opaque]
    pub open spec fn over(self, other: Scalar) -> Scalar {
        let negative = self.negative() != other.negative();
        if self.nan() || other.nan() || (self.infinite() && other.infinite()) || (self.zero()
            && other.zero()) {
            Scalar { bits: NAN_BITS }
        } else if self.infinite() || other.zero() {
            signed(negative, INFINITY_BITS as int)
        } else if other.infinite() {
            signed(negative, 0)
        } else {
            signed(
                negative,
                nearest(absolute(self.value()) * pow2(1074), absolute(other.value())),
            )
        }
    }

    /// The 63 bits below the sign.
    pub fn magnitude_part(&self) -> (m: u64)
        ensures
            m == self.magnitude_bits(),
            m < SIGN_BIT,
    {
        if self.bits >= SIGN_BIT {
            self.bits - SIGN_BIT
        } else {
            self.bits
        }
    }

    pub fn is_negative(&self) -> (r: bool)
        ensures
            r == self.negative(),
    {
        self.bits >= SIGN_BIT
    }

    pub fn is_zero(&self) -> (r: bool)
        ensures
            r == self.zero(),
    {
        self.bits == 0 || self.bits == SIGN_BIT
    }

    /// `-self`.
    pub fn neg(&self) -> (r: Scalar)
        ensures
            r == self.opposite(),
            r.value() == -self.value(),
            r.magnitude_bits() == self.magnitude_bits(),
            r.negative() == !self.negative(),
    {
        let m: u64 = self.magnitude_part();
        make(self.bits < SIGN_BIT, m)
    }

    /// `|self|`.
    pub fn abs(&self) -> (r: Scalar)
        ensures
            r == self.magnitude(),
            r.value() == absolute(self.value()),
    {
        let m: u64 = self.magnitude_part();
        proof {
            if m > 0 {
                lemma_magnitude_monotone(0, m as int);
            }
        }
        make(false, m)
    }
}

/// Significand and exponent of a finite magnitude.
pub fn unpack(m: u64) -> (r: (u64, u32))
    requires
        m < INFINITY_BITS,
    ensures
        magnitude_value(m as int) == r.0 * pow2(r.1 as nat),
        r.0 < 2 * FRACTION_LIMIT,
        r.1 <= 2045,
        r.1 > 0 ==> r.0 >= FRACTION_LIMIT,
        r.0 == 0 <==> m == 0,
        r.1 == (if m / FRACTION_LIMIT == 0 {
            0
        } else {
            m / FRACTION_LIMIT - 1
        }),
{
    let e: u64 = m / FRACTION_LIMIT;
    let f: u64 = m % FRACTION_LIMIT;
    if e == 0 {
        proof {
            lemma2_to64();
            assert(m * pow2(0) == m) by (nonlinear_arith)
                requires
                    pow2(0) == 1,
            ;
        }
        (m, 0)
    } else {
        (FRACTION_LIMIT + f, (e - 1) as u32)
    }
}

/// Zero rounds to zero.
proof fn lemma_nearest_zero(d: int)
    requires
        d > 0,
    ensures
        nearest(0, d) == 0,
{
    assert(magnitude_value(0) + magnitude_value(1) == 1);
    assert(is_nearest(0, d, 0));
    lemma_nearest_unique(0, d, 0, 0);
}

impl Scalar {
    /// The product of two doubles.
    fn compute_product(&self, other: &Scalar) -> (r: Scalar)
        ensures
            r == self.times(*other),
    {
        reveal(Scalar::times);
        let ma: u64 = self.magnitude_part();
        let mb: u64 = other.magnitude_part();
        let negative: bool = (self.bits >= SIGN_BIT) != (other.bits >= SIGN_BIT);
        if ma > INFINITY_BITS || mb > INFINITY_BITS || (ma == INFINITY_BITS && mb == 0) || (ma == 0
            && mb == INFINITY_BITS) {
            return Scalar { bits: NAN_BITS };
        }
        if ma == INFINITY_BITS || mb == INFINITY_BITS {
            return make(negative, INFINITY_BITS);
        }
        let (sa, ea) = unpack(ma);
        let (sb, eb) = unpack(mb);
        let ghost va: int = magnitude_value(ma as int);
        let ghost vb: int = magnitude_value(mb as int);
        let ghost n: int = va * vb;
        proof {
            lemma_pow2_pos(1074);
            lemma_pow2_pos(ea as nat);
            lemma_pow2_pos(eb as nat);
            assert(0 <= va) by (nonlinear_arith)
                requires
                    va == sa * pow2(ea as nat),
            ;
            assert(0 <= vb) by (nonlinear_arith)
                requires
                    vb == sb * pow2(eb as nat),
            ;
        }
        if sa == 0 || sb == 0 {
            proof {
                assert(n == 0) by (nonlinear_arith)
                    requires
                        n == va * vb,
                        va == 0 || vb == 0,
                ;
                lemma_nearest_zero(pow2(1074) as int);
            }
            return make(negative, 0);
        }
        proof {
            let x: int = sa as int;
            let y: int = sb as int;
            assert(0 < x * y < 0x100_0000_0000_0000_0000_0000_0000_0000) by (nonlinear_arith)
                requires
                    0 < x < 0x20_0000_0000_0000,
                    0 < y < 0x20_0000_0000_0000,
            ;
            lemma_pow2_adds(ea as nat, eb as nat);
            let g: int = pow2((ea + eb) as nat) as int;
            assert(n == (x * y) * g * 1) by (nonlinear_arith)
                requires
                    n == va * vb,
                    va == x * pow2(ea as nat),
                    vb == y * pow2(eb as nat),
                    g == pow2(ea as nat) * pow2(eb as nat),
            ;
            lemma_pow2_pos((ea + eb) as nat);
            assert((x * y + 1) * g * 1 > (x * y) * g * 1) by (nonlinear_arith)
                requires
                    g > 0,
            ;
        }
        let mant: u128 = (sa as u128) * (sb as u128);
        let m: u64 = round_bracket(mant, ea + eb, 1074, false, Ghost(n), Ghost(1));
        proof {
            assert(pow2(1074) * 1 == pow2(1074));
            lemma_nearest_unique(n, pow2(1074) as int, m as int, m as int);
        }
        make(negative, m)
    }
}

/// The pattern nearest to `|x| + |y|` or to `|x| - |y|`, for finite magnitudes
/// with `|x| >= |y|`.
fn combine(mx: u64, my: u64, subtract: bool) -> (m: u64)
    requires
        my <= mx < INFINITY_BITS,
        mx > 0,
        subtract ==> my < mx,
    ensures
        ({
            let v = if subtract {
                magnitude_value(mx as int) - magnitude_value(my as int)
            } else {
                magnitude_value(mx as int) + magnitude_value(my as int)
            };
            v > 0 && is_nearest(v, 1, m as int)
        }),
{
    let (sx, ex) = unpack(mx);
    let (sy, ey) = unpack(my);
    let ghost vx: int = magnitude_value(mx as int);
    let ghost vy: int = magnitude_value(my as int);
    let ghost v: int = if subtract { vx - vy } else { vx + vy };
    proof {
        lemma2_to64();
        lemma2_to64_rest();
        if my < mx {
            lemma_magnitude_monotone(my as int, mx as int);
        }
        lemma_magnitude_monotone(0, mx as int);
        if my > 0 {
            lemma_magnitude_monotone(0, my as int);
        }
        assert(my / FRACTION_LIMIT <= mx / FRACTION_LIMIT);
        lemma_pow2_pos(ey as nat);
    }
    let diff: u32 = ex - ey;
    if diff <= 66 {
        let w: u128 = power_of_two(diff);
        let ghost g: int = pow2(ey as nat) as int;
        proof {
            lemma_pow2_adds(66, 54);
            lemma_pow2_adds(66, 53);
            lemma_pow2_adds(60, 6);
            assert(pow2(66) == 0x4_0000_0000_0000_0000) by {
                assert(pow2(60) * pow2(6) == 0x1000_0000_0000_0000 * 64);
            }
            if diff < 66 {
                lemma_pow2_strictly_increases(diff as nat, 66);
            }
            let x: int = sx as int;
            let wi: int = w as int;
            assert(0 <= x * wi < 0x80_0000_0000_0000_0000_0000_0000_0000) by (nonlinear_arith)
                requires
                    0 <= x < 0x20_0000_0000_0000,
                    0 < wi <= 0x4_0000_0000_0000_0000,
            ;
            lemma_pow2_adds(diff as nat, ey as nat);
            assert(vx == (x * wi) * g) by (nonlinear_arith)
                requires
                    vx == x * pow2(ex as nat),
                    pow2(ex as nat) == wi * g,
            ;
        }
        let big: u128 = (sx as u128) * w;
        proof {
            if subtract {
                assert(big > sy) by (nonlinear_arith)
                    requires
                        big * g > sy * g,
                        g > 0,
                ;
            }
        }
        let mant: u128 = if subtract { big - sy as u128 } else { big + sy as u128 };
        proof {
            let mi: int = mant as int;
            let b: int = big as int;
            let y: int = sy as int;
            if subtract {
                assert(v == mi * g * 1) by (nonlinear_arith)
                    requires
                        v == b * g - y * g,
                        mi == b - y,
                ;
            } else {
                assert(v == mi * g * 1) by (nonlinear_arith)
                    requires
                        v == b * g + y * g,
                        mi == b + y,
                ;
                assert(mi > 0) by (nonlinear_arith)
                    requires
                        mi * g > 0,
                        g > 0,
                ;
            }
            assert((mi + 1) * g * 1 > mi * g * 1) by (nonlinear_arith)
                requires
                    g > 0,
            ;
            assert(pow2(0) * 1 == 1);
        }
        return round_bracket(mant, ey, 0, false, Ghost(v), Ghost(1));
    }
    if my == 0 {
        proof {
            assert(v == vx);
            let p: int = pow2(ex as nat) as int;
            lemma_pow2_pos(ex as nat);
            assert(sx * p * 1 == sx * p) by (nonlinear_arith);
            assert((sx + 1) * p * 1 > sx * p * 1) by (nonlinear_arith)
                requires
                    p > 0,
            ;
            assert(pow2(0) * 1 == 1);
        }
        return round_bracket(sx as u128, ex, 0, false, Ghost(v), Ghost(1));
    }
    let big: u128 = (sx as u128) * 0x4000;
    let mant: u128 = if subtract { big - 1 } else { big };
    let e: u32 = ex - 14;
    proof {
        let g: int = pow2(e as nat) as int;
        lemma_pow2_pos(e as nat);
        lemma_pow2_adds(14, e as nat);
        assert(pow2(14) == 0x4000);
        let b: int = big as int;
        assert(vx == b * g) by (nonlinear_arith)
            requires
                vx == sx * pow2(ex as nat),
                pow2(ex as nat) == 0x4000 * g,
                b == sx * 0x4000,
        ;
        lemma_pow2_adds(53, ey as nat);
        if 53 + ey < e {
            lemma_pow2_strictly_increases((53 + ey) as nat, e as nat);
        }
        assert(vy < g) by (nonlinear_arith)
            requires
                vy == sy * pow2(ey as nat),
                sy < pow2(53),
                pow2(53) * pow2(ey as nat) <= g,
                pow2(ey as nat) > 0,
        ;
        let mi: int = mant as int;
        if subtract {
            assert(mi * g * 1 == b * g - g) by (nonlinear_arith)
                requires
                    mi == b - 1,
            ;
            assert((mi + 1) * g * 1 == b * g) by (nonlinear_arith)
                requires
                    mi == b - 1,
            ;
        } else {
            assert((mi + 1) * g * 1 == b * g + g) by (nonlinear_arith)
                requires
                    mi == b,
            ;
        }
        assert(pow2(0) * 1 == 1);
    }
    round_bracket(mant, e, 0, true, Ghost(v), Ghost(1))
}

impl Scalar {
    /// The sum of two doubles.
    fn compute_sum(&self, other: &Scalar) -> (r: Scalar)
        ensures
            r == self.plus(*other),
    {
        reveal(Scalar::plus);
        let ma: u64 = self.magnitude_part();
        let mb: u64 = other.magnitude_part();
        let na: bool = self.bits >= SIGN_BIT;
        let nb: bool = other.bits >= SIGN_BIT;
        if ma > INFINITY_BITS || mb > INFINITY_BITS {
            return Scalar { bits: NAN_BITS };
        }
        if ma == INFINITY_BITS {
            if mb == INFINITY_BITS && na != nb {
                return Scalar { bits: NAN_BITS };
            }
            return *self;
        }
        if mb == INFINITY_BITS {
            return *other;
        }
        proof {
            if ma > 0 {
                lemma_magnitude_monotone(0, ma as int);
            }
            if mb > 0 {
                lemma_magnitude_monotone(0, mb as int);
            }
            if ma < mb {
                lemma_magnitude_monotone(ma as int, mb as int);
            }
            if mb < ma {
                lemma_magnitude_monotone(mb as int, ma as int);
            }
        }
        let ghost v: int = self.value() + other.value();
        if na != nb && ma == mb {
            return make(false, 0);
        }
        if ma == 0 && mb == 0 {
            return make(na, 0);
        }
        let (m, negative): (u64, bool) = if ma >= mb {
            (combine(ma, mb, na != nb), na)
        } else {
            (combine(mb, ma, na != nb), nb)
        };
        proof {
            assert(negative == (v < 0));
            assert(is_nearest(absolute(v), 1, m as int));
            lemma_nearest_unique(absolute(v), 1, m as int, m as int);
        }
        make(negative, m)
    }
}

impl Scalar {
    /// The quotient of two doubles.
    fn compute_quotient(&self, other: &Scalar) -> (r: Scalar)
        ensures
            r == self.over(*other),
    {
        reveal(Scalar::over);
        let ma: u64 = self.magnitude_part();
        let mb: u64 = other.magnitude_part();
        let negative: bool = (self.bits >= SIGN_BIT) != (other.bits >= SIGN_BIT);
        if ma > INFINITY_BITS || mb > INFINITY_BITS || (ma == INFINITY_BITS && mb
            == INFINITY_BITS) || (ma == 0 && mb == 0) {
            return Scalar { bits: NAN_BITS };
        }
        if ma == INFINITY_BITS || mb == 0 {
            return make(negative, INFINITY_BITS);
        }
        if mb == INFINITY_BITS {
            return make(negative, 0);
        }
        let (sa, ea) = unpack(ma);
        let (sb, eb) = unpack(mb);
        let ghost va: int = magnitude_value(ma as int);
        let ghost vb: int = magnitude_value(mb as int);
        let ghost n: int = va * pow2(1074);
        proof {
            lemma2_to64();
            lemma2_to64_rest();
            lemma_magnitude_monotone(0, mb as int);
            if ma > 0 {
                lemma_magnitude_monotone(0, ma as int);
            }
        }
        if sa == 0 {
            proof {
                assert(n == 0) by (nonlinear_arith)
                    requires
                        n == va * pow2(1074),
                        va == 0,
                ;
                lemma_nearest_zero(vb);
            }
            return make(negative, 0);
        }
        let mut s: u64 = sa;
        let mut j: u32 = 0;
        proof {
            assert(sa * pow2(0) == sa) by (nonlinear_arith)
                requires
                    pow2(0) == 1,
            ;
        }
        while s < FRACTION_LIMIT
            invariant
                0 < sa <= s < 2 * FRACTION_LIMIT,
                s == sa * pow2(j as nat),
                j <= 52,
                pow2(52) == FRACTION_LIMIT,
            decreases 2 * FRACTION_LIMIT - s,
        {
            proof {
                if j == 52 {
                    assert(sa * pow2(52) >= pow2(52)) by (nonlinear_arith)
                        requires
                            sa >= 1,
                    ;
                }
                lemma_pow2_unfold((j + 1) as nat);
                let p: int = pow2(j as nat) as int;
                assert(sa * (2 * p) == 2 * (sa * p)) by (nonlinear_arith);
            }
            s = s * 2;
            j = j + 1;
        }
        let top: u128 = (s as u128) * 0x1_0000_0000_0000_0000;
        let q: u128 = top / (sb as u128);
        let rem: u128 = top % (sb as u128);
        let e: u32 = ea + 1010 - j;
        proof {
            let d0: int = sb as int;
            let qi: int = q as int;
            let ri: int = rem as int;
            let ti: int = top as int;
            vstd::arithmetic::div_mod::lemma_fundamental_div_mod(ti, d0);
            assert(d0 * qi == qi * d0) by (nonlinear_arith);
            assert(ti == qi * d0 + ri);
            assert(0x8000_0000_0000_0000 <= qi < 0x100_0000_0000_0000_0000_0000_0000_0000)
                by (nonlinear_arith)
                requires
                    ti == qi * d0 + ri,
                    0 <= ri < d0,
                    0 < d0 < 0x20_0000_0000_0000,
                    0x10_0000_0000_0000_0000_0000_0000_0000 <= ti
                        < 0x20_0000_0000_0000_0000_0000_0000_0000,
            ;
            let g: int = pow2(e as nat) as int;
            lemma_pow2_pos(e as nat);
            // n == top * 2^e
            lemma_pow2_adds(ea as nat, 1074);
            lemma_pow2_adds(j as nat, 64);
            lemma_pow2_adds((j + 64) as nat, e as nat);
            assert(n == ti * g) by {
                let pj: int = pow2(j as nat) as int;
                let pe: int = pow2(ea as nat) as int;
                let p64: int = pow2(64) as int;
                let p1074: int = pow2(1074) as int;
                assert(pow2((ea + 1074) as nat) == pe * p1074);
                assert((j + 64) + e == ea + 1074);
                assert(pe * p1074 == (pj * p64) * g);
                assert(ti == (sa * pj) * p64);
                assert((sa * pe) * p1074 == ((sa * pj) * p64) * g) by (nonlinear_arith)
                    requires
                        pe * p1074 == (pj * p64) * g,
                ;
            }
            assert(qi * g * d0 == (qi * d0) * g) by (nonlinear_arith);
            assert((qi + 1) * g * d0 == (qi * d0 + d0) * g) by (nonlinear_arith);
            assert((qi * d0) * g <= ti * g < (qi * d0 + d0) * g) by (nonlinear_arith)
                requires
                    qi * d0 <= ti < qi * d0 + d0,
                    g > 0,
            ;
            if ri > 0 {
                assert((qi * d0) * g < ti * g) by (nonlinear_arith)
                    requires
                        qi * d0 < ti,
                        g > 0,
                ;
            }
            assert(pow2(eb as nat) * d0 == vb) by (nonlinear_arith)
                requires
                    vb == d0 * pow2(eb as nat),
            ;
        }
        let m: u64 = round_bracket(q, e, eb, rem != 0, Ghost(n), Ghost(sb as int));
        proof {
            lemma_nearest_unique(n, vb, m as int, m as int);
        }
        make(negative, m)
    }
}

impl core::ops::Add for Scalar {
    type Output = Scalar;

    fn add(self, rhs: Scalar) -> (r: Scalar) {
        self.compute_sum(&rhs)
    }
}

impl vstd::std_specs::ops::AddSpecImpl for Scalar {
    open spec fn obeys_add_spec() -> bool {
        true
    }

    open spec fn add_req(self, rhs: Scalar) -> bool {
        true
    }

    open spec fn add_spec(self, rhs: Scalar) -> Scalar {
        self.plus(rhs)
    }
}

impl core::ops::Sub for Scalar {
    type Output = Scalar;

    fn sub(self, rhs: Scalar) -> (r: Scalar) {
        self.compute_sum(&rhs.neg())
    }
}

impl vstd::std_specs::ops::SubSpecImpl for Scalar {
    open spec fn obeys_sub_spec() -> bool {
        true
    }

    open spec fn sub_req(self, rhs: Scalar) -> bool {
        true
    }

    open spec fn sub_spec(self, rhs: Scalar) -> Scalar {
        self.minus(rhs)
    }
}

impl core::ops::Mul for Scalar {
    type Output = Scalar;

    fn mul(self, rhs: Scalar) -> (r: Scalar) {
        self.compute_product(&rhs)
    }
}

impl vstd::std_specs::ops::MulSpecImpl for Scalar {
    open spec fn obeys_mul_spec() -> bool {
        true
    }

    open spec fn mul_req(self, rhs: Scalar) -> bool {
        true
    }

    open spec fn mul_spec(self, rhs: Scalar) -> Scalar {
        self.times(rhs)
    }
}

impl core::ops::Div for Scalar {
    type Output = Scalar;

    fn div(self, rhs: Scalar) -> (r: Scalar) {
        self.compute_quotient(&rhs)
    }
}

impl vstd::std_specs::ops::DivSpecImpl for Scalar {
    open spec fn obeys_div_spec() -> bool {
        true
    }

    open spec fn div_req(self, rhs: Scalar) -> bool {
        true
    }

    open spec fn div_spec(self, rhs: Scalar) -> Scalar {
        self.over(rhs)
    }
}

impl Scalar {
    pub open spec fn spec_add(self, rhs: Scalar) -> Scalar {
        self.plus(rhs)
    }

    pub open spec fn spec_sub(self, rhs: Scalar) -> Scalar {
        self.minus(rhs)
    }

    pub open spec fn spec_mul(self, rhs: Scalar) -> Scalar {
        self.times(rhs)
    }

    pub open spec fn spec_euclidean_or_real_div(self, rhs: Scalar) -> Scalar {
        self.over(rhs)
    }

    pub open spec fn spec_lt(self, rhs: Scalar) -> bool {
        self.less(rhs)
    }

    pub open spec fn spec_le(self, rhs: Scalar) -> bool {
        self.at_most(rhs)
    }

    pub open spec fn spec_gt(self, rhs: Scalar) -> bool {
        rhs.less(self)
    }

    pub open spec fn spec_ge(self, rhs: Scalar) -> bool {
        rhs.at_most(self)
    }
}

} // verus!
