//! How addition respects the order of numbers that are not negative.

use crate::numeric::{lemma_whole_exact, whole};
use crate::rounding::{is_nearest, lemma_nearest_exists, lemma_nearest_unique, nearest};
use crate::scalar::{
    lemma_magnitude_monotone, lemma_magnitude_step, magnitude_value, units, Scalar, INFINITY_BITS,
};
use vstd::prelude::*;

verus! {

impl Scalar {
    /// Not a NaN and not below zero.
    pub open spec fn at_least_zero(self) -> bool {
        !self.nan() && self.value() >= 0
    }
}

/// Rounding keeps the order.
pub proof fn lemma_nearest_monotone(n1: int, n2: int, d: int)
    requires
        0 <= n1 <= n2,
        d > 0,
    ensures
        nearest(n1, d) <= nearest(n2, d),
{
    lemma_nearest_exists(n1, d);
    lemma_nearest_exists(n2, d);
    let a = nearest(n1, d);
    let b = nearest(n2, d);
    if a > b {
        let low = magnitude_value(b) + magnitude_value(b + 1);
        let high = magnitude_value(a - 1) + magnitude_value(a);
        if b + 1 < a {
            lemma_magnitude_monotone(b, a - 1);
            lemma_magnitude_monotone(b + 1, a);
        }
        assert(low * d <= high * d) by (nonlinear_arith)
            requires
                low <= high,
                d > 0,
        ;
        assert(n1 == n2);
    }
}

/// A magnitude that a pattern stands for rounds to that pattern.
pub proof fn lemma_nearest_exact(m: int)
    requires
        0 <= m <= INFINITY_BITS,
    ensures
        nearest(magnitude_value(m), 1) == m,
{
    if m > 0 {
        lemma_magnitude_step(m - 1);
    }
    lemma_magnitude_step(m);
    assert(is_nearest(magnitude_value(m), 1, m));
    lemma_nearest_unique(magnitude_value(m), 1, m, m);
}

proof fn lemma_sum_value(a: Scalar, w: Scalar)
    requires
        a.at_least_zero(),
        w.at_least_zero(),
    ensures
        (a + w).at_least_zero(),
        !a.infinite() && !w.infinite() ==> (a + w).value() == magnitude_value(
            nearest(a.value() + w.value(), 1),
        ),
        a.infinite() || w.infinite() ==> (a + w).value() == magnitude_value(INFINITY_BITS as int),
{
    reveal(Scalar::plus);
    lemma_zero_magnitude(a);
    lemma_zero_magnitude(w);
    if !a.infinite() && !w.infinite() {
        let v = a.value() + w.value();
        lemma_nearest_exists(v, 1);
        let m = nearest(v, 1);
        if m > 0 {
            lemma_magnitude_monotone(0, m);
        }
        if v == 0 {
            lemma_nearest_exact(0);
            assert(magnitude_value(0) == 0);
        }
    } else {
        lemma_magnitude_monotone(0, INFINITY_BITS as int);
    }
}

/// A number that is not below zero has no sign, unless it is a zero.
proof fn lemma_zero_magnitude(a: Scalar)
    requires
        a.at_least_zero(),
    ensures
        a.negative() ==> a.magnitude_bits() == 0 && a.value() == 0,
        !a.negative() ==> a.value() == magnitude_value(a.magnitude_bits()),
{
    if a.negative() && a.magnitude_bits() > 0 {
        lemma_magnitude_monotone(0, a.magnitude_bits());
    }
}

/// Adding the same number keeps the order of two others. (None of them is below
/// zero.)
pub proof fn law_sum_keeps_order(a: Scalar, b: Scalar, w: Scalar)
    requires
        a.at_least_zero(),
        w.at_least_zero(),
        a <= b,
    ensures
        a + w <= b + w,
        (a + w).at_least_zero(),
        (b + w).at_least_zero(),
{
    lemma_sum_value(a, w);
    lemma_sum_value(b, w);
    lemma_zero_magnitude(a);
    lemma_zero_magnitude(b);
    lemma_zero_magnitude(w);
    let top = INFINITY_BITS as int;
    if !a.infinite() && !w.infinite() {
        let m = nearest(a.value() + w.value(), 1);
        lemma_nearest_exists(a.value() + w.value(), 1);
        if b.infinite() {
            if m < top {
                lemma_magnitude_monotone(m, top);
            }
        } else {
            let n = nearest(b.value() + w.value(), 1);
            lemma_nearest_monotone(a.value() + w.value(), b.value() + w.value(), 1);
            if m < n {
                lemma_magnitude_monotone(m, n);
            }
        }
    } else if a.infinite() && !b.infinite() {
        let k = b.magnitude_bits();
        if k < top {
            lemma_magnitude_monotone(k, top);
        }
    }
}

/// A sum is not below its first part. (Neither part is below zero.)
pub proof fn law_sum_not_below(a: Scalar, w: Scalar)
    requires
        a.at_least_zero(),
        w.at_least_zero(),
    ensures
        a <= a + w,
        (a + w).at_least_zero(),
{
    lemma_sum_value(a, w);
    lemma_zero_magnitude(a);
    lemma_zero_magnitude(w);
    let top = INFINITY_BITS as int;
    let k = a.magnitude_bits();
    if a.infinite() || w.infinite() {
        if k < top {
            lemma_magnitude_monotone(k, top);
        }
    } else {
        assert(magnitude_value(0) == 0);
        lemma_nearest_exact(k);
        lemma_nearest_monotone(a.value(), a.value() + w.value(), 1);
        lemma_nearest_exists(a.value() + w.value(), 1);
        let m = nearest(a.value() + w.value(), 1);
        if k < m {
            lemma_magnitude_monotone(k, m);
        }
    }
}

/// A sum has no sign if its first part has none and its second part is not below
/// zero.
pub proof fn lemma_sum_unsigned(a: Scalar, w: Scalar)
    requires
        a.at_least_zero(),
        !a.negative(),
        w.at_least_zero(),
    ensures
        !(a + w).negative(),
{
    reveal(Scalar::plus);
    lemma_zero_magnitude(w);
    if !a.infinite() && !w.infinite() {
        lemma_nearest_exists(a.value() + w.value(), 1);
    }
}

/// A sum with a NaN is a NaN.
pub proof fn lemma_sum_nan(a: Scalar, w: Scalar)
    requires
        w.nan(),
    ensures
        (a + w).nan(),
{
    reveal(Scalar::plus);
}

/// Zero is zero.
pub proof fn lemma_whole_zero()
    ensures
        whole(0) == (Scalar { bits: 0 }),
        whole(0).value() == 0,
        !whole(0).nan(),
        !whole(0).negative(),
{
    let zero = Scalar { bits: 0 };
    assert(magnitude_value(0) == 0);
    assert(units(0) == 0) by (nonlinear_arith);
    lemma_whole_exact(0, zero);
}

} // verus!
