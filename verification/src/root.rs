//! The correctly rounded square root.

use crate::arith::{make, signed, unpack, NAN_BITS};
use crate::rounding::{is_nearest, round_bracket};
use crate::scalar::{
    lemma_magnitude_monotone, lemma_magnitude_step, magnitude_value, Scalar, FRACTION_LIMIT,
    INFINITY_BITS,
};
use vstd::arithmetic::power2::{
    lemma2_to64, lemma2_to64_rest, lemma_pow2_adds, lemma_pow2_pos, lemma_pow2_unfold, pow2,
};
use vstd::prelude::*;

verus! {

/// Whether the pattern `m` is the one nearest to the square root of `n`, an
/// even pattern winning a tie.
pub open spec fn is_nearest_root(n: int, m: int) -> bool {
    &&& 0 <= m <= INFINITY_BITS
    &&& m > 0 ==> {
        let floor = magnitude_value(m - 1) + magnitude_value(m);
        floor * floor < 4 * n || (floor * floor == 4 * n && m % 2 == 0)
    }
    &&& m < INFINITY_BITS ==> {
        let ceiling = magnitude_value(m) + magnitude_value(m + 1);
        4 * n < ceiling * ceiling || (4 * n == ceiling * ceiling && m % 2 == 0)
    }
}

/// The magnitude pattern nearest to the square root of `n`.
pub open spec fn nearest_root(n: int) -> int {
    choose|m: int| is_nearest_root(n, m)
}

impl Scalar {
    /// The square root of `self`.
    #[verifier::opaque]
    pub open spec fn root(self) -> Scalar {
        if self.nan() || (self.negative() && !self.zero()) {
            Scalar { bits: NAN_BITS }
        } else if self.zero() || self.infinite() {
            self
        } else {
            signed(false, nearest_root(self.value() * pow2(1074)))
        }
    }
}

proof fn lemma_magnitude_nonnegative(m: int)
    requires
        0 <= m,
    ensures
        0 <= magnitude_value(m),
{
    if m > 0 {
        lemma_magnitude_monotone(0, m);
    }
}

proof fn lemma_not_two_roots(n: int, a: int, b: int)
    requires
        is_nearest_root(n, a),
        is_nearest_root(n, b),
    ensures
        !(a < b),
{
    if a < b {
        let top = magnitude_value(a) + magnitude_value(a + 1);
        let bottom = magnitude_value(b - 1) + magnitude_value(b);
        lemma_magnitude_nonnegative(a);
        lemma_magnitude_step(a);
        if a + 1 < b {
            lemma_magnitude_monotone(a, b - 1);
            lemma_magnitude_monotone(a + 1, b);
            assert(top * top < bottom * bottom) by (nonlinear_arith)
                requires
                    0 <= top < bottom,
            ;
        }
    }
}

/// At most one pattern is nearest to a root.
pub proof fn lemma_nearest_root_unique(n: int, m: int)
    requires
        is_nearest_root(n, m),
    ensures
        nearest_root(n) == m,
{
    let c = nearest_root(n);
    lemma_not_two_roots(n, m, c);
    lemma_not_two_roots(n, c, m);
}

/// The largest integer whose square is at most `v`.
fn integer_root(v: u128) -> (r: u128)
    requires
        v < 0x100_0000_0000_0000_0000_0000_0000_0000,
    ensures
        r * r <= v < (r + 1) * (r + 1),
        r < 0x1000_0000_0000_0000,
{
    let mut r: u128 = 0;
    let mut step: u128 = 0x1000_0000_0000_0000;
    let ghost mut j: nat = 60;
    proof {
        lemma2_to64();
        lemma2_to64_rest();
        assert(pow2(60) == 0x1000_0000_0000_0000);
    }
    while step > 1
        invariant
            v < 0x100_0000_0000_0000_0000_0000_0000_0000,
            step == pow2(j),
            step <= 0x1000_0000_0000_0000,
            r < 0x1000_0000_0000_0000,
            r * r <= v < (r + step) * (r + step),
        decreases j,
    {
        proof {
            if j == 0 {
                lemma2_to64();
            }
            lemma_pow2_unfold(j);
            j = (j - 1) as nat;
            lemma_pow2_pos(j);
        }
        step = step / 2;
        let c: u128 = r + step;
        proof {
            assert(c * c < 0x400_0000_0000_0000_0000_0000_0000_0000) by (nonlinear_arith)
                requires
                    0 <= c < 0x2000_0000_0000_0000,
            ;
        }
        if c * c <= v {
            proof {
                assert(c < 0x1000_0000_0000_0000) by (nonlinear_arith)
                    requires
                        c * c < 0x100_0000_0000_0000_0000_0000_0000_0000,
                        c >= 0,
                ;
            }
            r = c;
        }
    }
    proof {
        lemma_pow2_pos(j);
    }
    r
}

/// From the exponent field upwards a magnitude is a multiple of its step.
proof fn lemma_magnitude_multiple(m: int, x: int) -> (z: int)
    requires
        0 <= x,
        m >= (x + 1) * FRACTION_LIMIT,
    ensures
        magnitude_value(m) == z * pow2(x as nat),
{
    let f: int = FRACTION_LIMIT as int;
    let e = m / f;
    assert(e >= x + 1);
    lemma_pow2_adds((e - 1 - x) as nat, x as nat);
    let a: int = f + m % f;
    let b: int = pow2((e - 1 - x) as nat) as int;
    let c: int = pow2(x as nat) as int;
    assert(a * (b * c) == (a * b) * c) by (nonlinear_arith);
    a * b
}

/// A pattern nearest to a point strictly inside a fine step is nearest to the
/// root that lies inside the same step.
proof fn lemma_root_from_step(n: int, r: int, h: int, m: int)
    requires
        h >= 1,
        r >= 0x400_0000_0000_0000,
        (r * pow2(h as nat)) * (r * pow2(h as nat)) < n,
        n < ((r + 1) * pow2(h as nat)) * ((r + 1) * pow2(h as nat)),
        is_nearest((2 * r + 1) * pow2((h - 1) as nat), 1, m),
    ensures
        is_nearest_root(n, m),
{
    let g: int = pow2(h as nat) as int;
    let gh: int = pow2((h - 1) as nat) as int;
    let g2: int = pow2((h + 1) as nat) as int;
    lemma_pow2_unfold(h as nat);
    lemma_pow2_unfold((h + 1) as nat);
    lemma_pow2_pos((h - 1) as nat);
    let s: int = (2 * r + 1) * gh;
    assert(2 * s == (2 * r + 1) * g) by (nonlinear_arith)
        requires
            s == (2 * r + 1) * gh,
            g == 2 * gh,
    ;
    let f: int = FRACTION_LIMIT as int;
    let low = (h + 2) * f;
    assert(low / f == h + 2 && low % f == 0);
    assert((low + 1) / f == h + 2 && (low + 1) % f == 1);
    assert(magnitude_value(low) == f * g2);
    assert(magnitude_value(low + 1) == (f + 1) * g2);
    if m <= low {
        if m < low {
            lemma_magnitude_monotone(m, low);
            lemma_magnitude_monotone(m + 1, low + 1);
        }
        assert(m < INFINITY_BITS ==> 2 * s <= (magnitude_value(m) + magnitude_value(m + 1)) * 1);
        if m < INFINITY_BITS {
            assert((2 * r + 1) * g > f * g2 + (f + 1) * g2) by (nonlinear_arith)
                requires
                    r >= 0x400_0000_0000_0000,
                    g2 == 2 * g,
                    g > 0,
                    f == 0x10_0000_0000_0000,
            ;
            assert(false);
        } else {
            assert(m == INFINITY_BITS);
        }
    }
    if m > 0 {
        let fl = magnitude_value(m - 1) + magnitude_value(m);
        lemma_magnitude_nonnegative(m - 1);
        lemma_magnitude_step(m - 1);
        assert(fl * 1 == fl);
        assert(fl <= 2 * s);
        if m > low {
            let z1 = lemma_magnitude_multiple(m - 1, h + 1);
            let z2 = lemma_magnitude_multiple(m, h + 1);
            let z = z1 + z2;
            assert(fl == z * g2) by (nonlinear_arith)
                requires
                    fl == z1 * g2 + z2 * g2,
                    z == z1 + z2,
            ;
            assert(z <= r) by (nonlinear_arith)
                requires
                    z * g2 <= (2 * r + 1) * g,
                    g2 == 2 * g,
                    g > 0,
            ;
            assert(fl <= 2 * (r * g)) by (nonlinear_arith)
                requires
                    fl == z * g2,
                    z <= r,
                    g2 == 2 * g,
                    g > 0,
            ;
        } else {
            // only the infinite pattern is left, whose exponent is beyond the step
            assert(m == INFINITY_BITS && m <= low);
            lemma_magnitude_monotone_weak(m, low);
            lemma_magnitude_monotone_weak(m - 1, low);
            assert(fl <= 2 * (f * g2));
            assert(2 * (f * g2) <= 2 * (r * g)) by (nonlinear_arith)
                requires
                    r >= 0x400_0000_0000_0000,
                    g2 == 2 * g,
                    g > 0,
                    f == 0x10_0000_0000_0000,
            ;
        }
        let rg: int = r * g;
        assert(fl * fl <= 4 * (rg * rg)) by (nonlinear_arith)
            requires
                0 <= fl <= 2 * rg,
        ;
    }
    if m < INFINITY_BITS {
        let ce = magnitude_value(m) + magnitude_value(m + 1);
        assert(ce * 1 == ce);
        assert(2 * s <= ce);
        let z1 = lemma_magnitude_multiple(m, h + 1);
        let z2 = lemma_magnitude_multiple(m + 1, h + 1);
        let z = z1 + z2;
        assert(ce == z * g2) by (nonlinear_arith)
            requires
                ce == z1 * g2 + z2 * g2,
                z == z1 + z2,
        ;
        assert(z >= r + 1) by (nonlinear_arith)
            requires
                z * g2 >= (2 * r + 1) * g,
                g2 == 2 * g,
                g > 0,
        ;
        let rg: int = (r + 1) * g;
        assert(ce >= 2 * rg) by (nonlinear_arith)
            requires
                ce == z * g2,
                z >= r + 1,
                g2 == 2 * g,
                g > 0,
                rg == (r + 1) * g,
        ;
        assert(rg > 0) by (nonlinear_arith)
            requires
                rg == (r + 1) * g,
                g > 0,
                r >= 0,
        ;
        assert(ce * ce >= 4 * (rg * rg)) by (nonlinear_arith)
            requires
                ce >= 2 * rg,
                rg > 0,
        ;
    }
}

proof fn lemma_magnitude_monotone_weak(a: int, b: int)
    requires
        0 <= a <= b,
    ensures
        magnitude_value(a) <= magnitude_value(b),
{
    if a < b {
        lemma_magnitude_monotone(a, b);
    }
}

/// A pattern nearest to an exact root is nearest to the root.
proof fn lemma_root_from_exact(n: int, s: int, m: int)
    requires
        s >= 0,
        s * s == n,
        is_nearest(s, 1, m),
    ensures
        is_nearest_root(n, m),
{
    if m > 0 {
        let fl = magnitude_value(m - 1) + magnitude_value(m);
        lemma_magnitude_nonnegative(m - 1);
        lemma_magnitude_step(m - 1);
        assert(fl * 1 == fl);
        if fl < 2 * s {
            assert(fl * fl < 4 * (s * s)) by (nonlinear_arith)
                requires
                    0 <= fl < 2 * s,
            ;
        } else {
            assert(fl * fl == 4 * (s * s)) by (nonlinear_arith)
                requires
                    fl == 2 * s,
            ;
        }
    }
    if m < INFINITY_BITS {
        let ce = magnitude_value(m) + magnitude_value(m + 1);
        assert(ce * 1 == ce);
        if 2 * s < ce {
            assert(4 * (s * s) < ce * ce) by (nonlinear_arith)
                requires
                    0 <= 2 * s < ce,
            ;
        } else {
            assert(4 * (s * s) == ce * ce) by (nonlinear_arith)
                requires
                    2 * s == ce,
            ;
        }
    }
}

/// The pattern nearest to the root of `s * 2^e`, for a normalised significand
/// and an even exponent.
fn root_of(s: u128, e: u32) -> (m: u64)
    requires
        0x10_0000_0000_0000 <= s < 0x40_0000_0000_0000,
        e % 2 == 0,
        66 <= e <= 4000,
    ensures
        is_nearest_root(s * pow2(e as nat), m as int),
{
    let v: u128 = s * 0x1_0000_0000_0000_0000;
    let r: u128 = integer_root(v);
    let h: u32 = (e - 64) / 2;
    let ghost n: int = s * pow2(e as nat);
    let ghost g: int = pow2(h as nat) as int;
    let ghost gh: int = pow2((h - 1) as nat) as int;
    let ghost ri: int = r as int;
    let ghost vi: int = v as int;
    proof {
        lemma2_to64();
        lemma2_to64_rest();
        lemma_pow2_adds(64, (e - 64) as nat);
        lemma_pow2_adds(h as nat, h as nat);
        lemma_pow2_unfold(h as nat);
        lemma_pow2_pos((h - 1) as nat);
        assert(h + h == e - 64);
        assert(n == vi * (g * g)) by (nonlinear_arith)
            requires
                n == s * pow2(e as nat),
                pow2(e as nat) == 0x1_0000_0000_0000_0000 * (g * g),
                vi == s * 0x1_0000_0000_0000_0000,
        ;
        assert((ri * g) * (ri * g) == (ri * ri) * (g * g)) by (nonlinear_arith);
        assert(((ri + 1) * g) * ((ri + 1) * g) == ((ri + 1) * (ri + 1)) * (g * g))
            by (nonlinear_arith);
        assert(g * g > 0) by (nonlinear_arith)
            requires
                g > 0,
        ;
        assert(vi * (g * g) < ((ri + 1) * (ri + 1)) * (g * g)) by (nonlinear_arith)
            requires
                vi < (ri + 1) * (ri + 1),
                g * g > 0,
        ;
        assert(ri >= 0x400_0000_0000_0000) by (nonlinear_arith)
            requires
                vi < (ri + 1) * (ri + 1),
                vi >= 0x400_0000_0000_0000 * 0x400_0000_0000_0000,
                ri >= 0,
        ;
        assert(ri * ri <= 0x1000_0000_0000_0000 * 0x1000_0000_0000_0000) by (nonlinear_arith)
            requires
                0 <= ri < 0x1000_0000_0000_0000,
        ;
    }
    let sticky: bool = r * r != v;
    let ghost x: int = if sticky {
        (2 * ri + 1) * gh
    } else {
        ri * g
    };
    proof {
        assert((ri + 1) * g * 1 == ri * g * 1 + g) by (nonlinear_arith);
        assert(ri * g * 1 == ri * g) by (nonlinear_arith);
        assert((2 * ri + 1) * gh == ri * g + gh) by (nonlinear_arith)
            requires
                g == 2 * gh,
        ;
        assert(pow2(0) * 1 == 1);
    }
    let m: u64 = round_bracket(r, h, 0, sticky, Ghost(x), Ghost(1));
    proof {
        if sticky {
            assert((ri * ri) * (g * g) < vi * (g * g)) by (nonlinear_arith)
                requires
                    ri * ri < vi,
                    g * g > 0,
            ;
            lemma_root_from_step(n, ri, h as int, m as int);
        } else {
            assert(ri * g >= 0) by (nonlinear_arith)
                requires
                    ri >= 0,
                    g > 0,
            ;
            lemma_root_from_exact(n, ri * g, m as int);
        }
    }
    m
}

impl Scalar {
    /// The square root of a double.
    pub fn sqrt(&self) -> (r: Scalar)
        ensures
            r == self.root(),
    {
        reveal(Scalar::root);
        let ma: u64 = self.magnitude_part();
        if ma > INFINITY_BITS || (self.is_negative() && ma != 0) {
            return Scalar { bits: NAN_BITS };
        }
        if ma == 0 || ma == INFINITY_BITS {
            return *self;
        }
        let (sa, ea) = unpack(ma);
        let mut s: u64 = sa;
        let mut j: u32 = 0;
        proof {
            lemma2_to64();
            lemma2_to64_rest();
            assert(sa * pow2(0) == sa) by (nonlinear_arith)
                requires
                    pow2(0) == 1,
            ;
        }
        while s < FRACTION_LIMIT || (ea + 1074 - j) % 2 != 0
            invariant
                0 < sa <= s < 4 * FRACTION_LIMIT,
                s == sa * pow2(j as nat),
                ea <= 2045,
                j <= 53,
                s >= 2 * FRACTION_LIMIT ==> (ea + 1074 - j) % 2 == 0,
                pow2(52) == FRACTION_LIMIT,
                pow2(53) == 2 * FRACTION_LIMIT,
            decreases 4 * FRACTION_LIMIT - s,
        {
            proof {
                if j == 53 {
                    assert(sa * pow2(53) >= pow2(53)) by (nonlinear_arith)
                        requires
                            sa >= 1,
                    ;
                    assert(false);
                }
                lemma_pow2_unfold((j + 1) as nat);
                let p: int = pow2(j as nat) as int;
                assert(sa * (2 * p) == 2 * (sa * p)) by (nonlinear_arith);
            }
            s = s * 2;
            j = j + 1;
        }
        let e: u32 = ea + 1074 - j;
        proof {
            lemma_pow2_adds(j as nat, e as nat);
            lemma_pow2_adds(ea as nat, 1074);
            let pj: int = pow2(j as nat) as int;
            let pe: int = pow2(e as nat) as int;
            let pa: int = pow2(ea as nat) as int;
            let pk: int = pow2(1074) as int;
            assert((sa * pj) * pe == (sa * pa) * pk) by (nonlinear_arith)
                requires
                    pj * pe == pa * pk,
            ;
        }
        let m: u64 = root_of(s as u128, e);
        proof {
            lemma_nearest_root_unique(self.value() * pow2(1074), m as int);
        }
        make(false, m)
    }
}

} // verus!
