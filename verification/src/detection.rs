//! What radars add to the cost of a cell.

use crate::arith::{absolute, signed};
use crate::ends::lemma_absolute_value;
use crate::exact::{
    about, least, lemma_add, lemma_least, lemma_mul, lemma_num, lemma_order, lemma_sub, num, part,
    size,
};
use crate::field::radar_cost_factor;
use crate::numeric::whole;
use crate::order::{lemma_nearest_exact, lemma_nearest_monotone};
use crate::rounding::{lemma_nearest_exists, nearest};
use crate::scalar::{lemma_magnitude_monotone, magnitude_value, Scalar};
use crate::spacing::lemma_size_product;
use crate::values::lemma_num_whole;
use vstd::arithmetic::power2::{lemma_pow2_pos, pow2};
use vstd::prelude::*;

verus! {

/// The value of a sum, rounded once.
proof fn lemma_rounded_sum(a: Scalar, b: Scalar)
    requires
        a.finite() && b.finite(),
    ensures
        ({
            let v = a.value() + b.value();
            let m = magnitude_value(nearest(absolute(v), 1));
            &&& !(a + b).nan()
            &&& (a + b).value() == (if v < 0 {
                -m
            } else {
                m
            })
        }),
{
    reveal(Scalar::plus);
    let v = a.value() + b.value();
    lemma_nearest_exists(absolute(v), 1);
    lemma_nearest_exact(0);
    assert(magnitude_value(0) == 0);
    let m = nearest(absolute(v), 1);
    if v != 0 {
        assert(a + b == signed(v < 0, m));
        assert((a + b).magnitude_bits() == m);
    }
}

/// Sums are in the order of what they are sums of.
pub proof fn lemma_sums_in_order(a: Scalar, b: Scalar, c: Scalar, d: Scalar)
    requires
        a.finite() && b.finite() && c.finite() && d.finite(),
        a.value() + b.value() <= c.value() + d.value(),
    ensures
        !(a + b).nan() && !(c + d).nan(),
        (a + b).value() <= (c + d).value(),
{
    lemma_rounded_sum(a, b);
    lemma_rounded_sum(c, d);
    let (v, w) = (a.value() + b.value(), c.value() + d.value());
    let (m, n) = (nearest(absolute(v), 1), nearest(absolute(w), 1));
    lemma_nearest_exists(absolute(v), 1);
    lemma_nearest_exists(absolute(w), 1);
    assert(magnitude_value(0) == 0);
    if m > 0 {
        lemma_magnitude_monotone(0, m);
    }
    if n > 0 {
        lemma_magnitude_monotone(0, n);
    }
    if v >= 0 {
        lemma_nearest_monotone(absolute(v), absolute(w), 1);
        if m < n {
            lemma_magnitude_monotone(m, n);
        }
    } else if w < 0 {
        lemma_nearest_monotone(absolute(w), absolute(v), 1);
        if n < m {
            lemma_magnitude_monotone(n, m);
        }
    }
}

/// Products with a number that is not negative are in the order of the other factors.
pub proof fn lemma_products_in_order(a: Scalar, b: Scalar, c: Scalar)
    requires
        a.finite() && b.finite() && c.finite(),
        0 <= a.value(),
        0 <= b.value() <= c.value(),
    ensures
        !(a * b).nan() && !(a * c).nan(),
        0 <= (a * b).value() <= (a * c).value(),
{
    reveal(Scalar::times);
    lemma_absolute_value(a);
    lemma_absolute_value(b);
    lemma_absolute_value(c);
    lemma_pow2_pos(1074);
    let one = pow2(1074) as int;
    let (x, y) = (a.value() * b.value(), a.value() * c.value());
    assert(0 <= x <= y) by (nonlinear_arith)
        requires
            x == a.value() * b.value(),
            y == a.value() * c.value(),
            0 <= a.value(),
            0 <= b.value() <= c.value(),
    ;
    lemma_nearest_monotone(x, y, one);
    lemma_nearest_exists(x, one);
    lemma_nearest_exists(y, one);
    let (m, n) = (nearest(x, one), nearest(y, one));
    assert(magnitude_value(0) == 0);
    if m > 0 {
        lemma_magnitude_monotone(0, m);
    }
    if m < n {
        lemma_magnitude_monotone(m, n);
    }
    if n > 0 {
        lemma_magnitude_monotone(0, n);
    }
    lemma_product_value(a, b);
    lemma_product_value(a, c);
}

/// The value of a product of numbers that are not negative.
proof fn lemma_product_value(a: Scalar, b: Scalar)
    requires
        a.finite() && b.finite(),
        0 <= a.value(),
        0 <= b.value(),
    ensures
        !(a * b).nan(),
        (a * b).value() == magnitude_value(nearest(a.value() * b.value(), pow2(1074) as int)),
{
    reveal(Scalar::times);
    lemma_absolute_value(a);
    lemma_absolute_value(b);
    lemma_pow2_pos(1074);
    let one = pow2(1074) as int;
    let x = a.value() * b.value();
    assert(x >= 0) by (nonlinear_arith)
        requires
            x == a.value() * b.value(),
            0 <= a.value(),
            0 <= b.value(),
    ;
    lemma_nearest_exists(x, one);
    assert(magnitude_value(0) == 0);
    let m = nearest(x, one);
    assert((a * b).magnitude_bits() == m);
    if a.negative() || b.negative() {
        assert(a.value() == 0 || b.value() == 0);
        assert(x == 0) by (nonlinear_arith)
            requires
                x == a.value() * b.value(),
                a.value() == 0 || b.value() == 0,
        ;
        assert(0 * one == 0);
        crate::cell::lemma_at_most(0, one, 0);
        if m > 0 {
            lemma_magnitude_monotone(0, m);
        }
    }
}

/// A square is not negative.
pub proof fn lemma_square_not_negative(a: Scalar)
    requires
        a.finite(),
    ensures
        (a * a).value() >= 0,
{
    reveal(Scalar::times);
    lemma_absolute_value(a);
    lemma_pow2_pos(1074);
    let one = pow2(1074) as int;
    let x = absolute(a.value()) * absolute(a.value());
    assert(x >= 0) by (nonlinear_arith)
        requires
            x == absolute(a.value()) * absolute(a.value()),
    ;
    lemma_nearest_exists(x, one);
    assert(magnitude_value(0) == 0);
    if nearest(x, one) > 0 {
        lemma_magnitude_monotone(0, nearest(x, one));
    }
}

/// A number that is not too large for a chance, a depth or a coefficient.
pub open spec fn usual(x: Scalar) -> bool {
    x.finite() && size(num(x)) <= 1000000000000real
}

/// How deep a place lies in a radar: nothing from one on.
pub open spec fn depth_inside(depth: real) -> real {
    if depth < 1real {
        1real - depth
    } else {
        0real
    }
}

/// A cell has a factor wherever a radar may see it, and it is one and the coefficient
/// times the chance of detection and the depth, but for rounding: a part in 10^14. So it
/// is at least one and the coefficient times the chance.
#[verifier::rlimit(50)]
pub proof fn law_radar_factor_weighs_chance(p: Scalar, depth: Scalar, coef: Scalar)
    requires
        usual(p) && usual(depth) && usual(coef),
        num(coef) >= 0real,
    ensures
        radar_cost_factor(p, depth, coef) is Some <==> num(p) > 0real,
        num(p) > 0real ==> ({
            let f = radar_cost_factor(p, depth, coef)->0;
            let due = 1real + num(coef) * (num(p) + depth_inside(num(depth)));
            &&& f.finite()
            &&& about(num(f), due, due / 100000000000000real)
            &&& num(f) * 100000000000000real >= (1real + num(coef) * num(p)) * 99999999999999real
        }),
{
    lemma_num_whole(0);
    lemma_num_whole(1);
    lemma_num(p);
    lemma_least();
    lemma_order(whole(0), p);
    lemma_order(depth, whole(1));
    if num(p) > 0real {
        let inside = if depth < whole(1) {
            whole(1) - depth
        } else {
            whole(0)
        };
        if depth < whole(1) {
            lemma_sub(whole(1), depth);
        }
        let d = depth_inside(num(depth));
        let i = num(inside);
        assert(about(i, d, part() * d + least()));
        lemma_add(p, inside);
        let s = num(p + inside);
        let (due, c) = (num(p) + d, num(coef));
        assert(size(num(p) + i) <= due + part() * due + least());
        assert(about(s, due, 4real * (part() * due) + 3real * least()));
        assert(s >= 0real) by {
            lemma_no_less(inside, depth);
            lemma_num(whole(0));
            lemma_sums_in_order(whole(0), whole(0), p, inside);
            lemma_num(p + inside);
            lemma_rounded_sum(whole(0), whole(0));
            lemma_nearest_exact(0);
            assert(magnitude_value(0) == 0);
        }
        lemma_size_product(c, s, 1000000000000real, 4000000000000real);
        lemma_mul(coef, p + inside);
        let m = num(coef * (p + inside));
        lemma_add(whole(1), coef * (p + inside));
        let f = num(whole(1) + coef * (p + inside));
        lemma_weighed(c, s, due, m, f);
        assert(c * due >= c * num(p)) by (nonlinear_arith)
            requires
                c >= 0real,
                due >= num(p),
        ;
    }
}

/// The depth is not negative.
proof fn lemma_no_less(inside: Scalar, depth: Scalar)
    requires
        usual(depth),
        inside == (if depth < whole(1) {
            whole(1) - depth
        } else {
            whole(0)
        }),
    ensures
        inside.value() >= 0,
{
    lemma_num_whole(0);
    lemma_num_whole(1);
    lemma_num(whole(0));
    if depth < whole(1) {
        let c = depth.opposite();
        assert(c.magnitude_bits() == depth.magnitude_bits());
        assert(c.value() == -depth.value());
        lemma_rounded_sum(whole(1), c);
        let v = whole(1).value() + c.value();
        lemma_nearest_exists(absolute(v), 1);
        let m = nearest(absolute(v), 1);
        assert(magnitude_value(0) == 0);
        if m > 0 {
            lemma_magnitude_monotone(0, m);
        }
    }
}

/// The steps together.
#[verifier::rlimit(50)]
proof fn lemma_weighed(c: real, s: real, due: real, m: real, f: real)
    requires
        0real <= c <= 1000000000000real,
        0real <= s,
        0real <= due,
        0real < least() <= 1real / 1267650600228229401496703205376real,
        about(s, due, 4real * (part() * due) + 3real * least()),
        about(m, c * s, part() * size(c * s) + least()),
        about(f, 1real + m, part() * size(1real + m) + least()),
    ensures
        about(f, 1real + c * due, (1real + c * due) / 100000000000000real),
{
    let (cs, cd, off) = (c * s, c * due, s - due);
    let co = c * off;
    assert(cs == cd + co && cs >= 0real && cd >= 0real) by (nonlinear_arith)
        requires
            cs == c * s,
            cd == c * due,
            co == c * off,
            off == s - due,
            c >= 0real,
            s >= 0real,
            due >= 0real,
    ;
    let e = 4real * (part() * due) + 3real * least();
    assert(e == due / 1125899906842624real + 3real * least());
    let ce = c * e;
    assert(-ce <= co <= ce) by (nonlinear_arith)
        requires
            ce == c * e,
            co == c * off,
            -e <= off <= e,
            c >= 0real,
    ;
    assert(ce <= cd / 1125899906842624real + 1real / 1000000000000000real) by (nonlinear_arith)
        requires
            ce == c * e,
            e == due / 1125899906842624real + 3real * least(),
            cd == c * due,
            0real <= c <= 1000000000000real,
            0real < least() <= 1real / 1267650600228229401496703205376real,
    ;
}

/// A cell never costs less where the chance of detection is greater or the radar nearer.
#[verifier::rlimit(50)]
pub proof fn law_radar_factor_grows(p: Scalar, q: Scalar, near: Scalar, far: Scalar, coef: Scalar)
    requires
        usual(p) && usual(q) && usual(near) && usual(far) && usual(coef),
        num(coef) >= 0real,
        0real < num(p) <= num(q),
        num(near) <= num(far),
    ensures
        radar_cost_factor(p, far, coef) is Some,
        radar_cost_factor(q, near, coef) is Some,
        radar_cost_factor(p, far, coef)->0 <= radar_cost_factor(q, near, coef)->0,
        whole(1) <= radar_cost_factor(p, far, coef)->0,
{
    lemma_num_whole(0);
    lemma_num_whole(1);
    lemma_num(p);
    lemma_num(q);
    lemma_num(coef);
    lemma_least();
    lemma_order(p, q);
    lemma_order(near, far);
    law_radar_factor_weighs_chance(p, far, coef);
    law_radar_factor_weighs_chance(q, near, coef);
    let one = whole(1);
    let i = if far < one {
        one - far
    } else {
        whole(0)
    };
    let j = if near < one {
        one - near
    } else {
        whole(0)
    };
    lemma_no_less(i, far);
    lemma_no_less(j, near);
    let (a, b) = (far.opposite(), near.opposite());
    assert(a.magnitude_bits() == far.magnitude_bits() && a.value() == -far.value());
    assert(b.magnitude_bits() == near.magnitude_bits() && b.value() == -near.value());
    lemma_sums_in_order(one, a, one, b);
    assert(i.value() <= j.value());
    lemma_inside_finite(i, far);
    lemma_inside_finite(j, near);
    lemma_sums_in_order(p, i, q, j);
    lemma_sums_in_order(whole(0), whole(0), p, i);
    lemma_rounded_sum(whole(0), whole(0));
    lemma_nearest_exact(0);
    assert(magnitude_value(0) == 0);
    lemma_num(whole(0));
    assert(whole(0).value() == 0);
    assert((p + i).value() >= 0);
    lemma_add(p, i);
    lemma_add(q, j);
    lemma_products_in_order(coef, p + i, q + j);
    let (m, n) = (coef * (p + i), coef * (q + j));
    lemma_product_finite(coef, p + i);
    lemma_product_finite(coef, q + j);
    lemma_sums_in_order(one, m, one, n);
    lemma_sums_in_order(one, whole(0), one, m);
    lemma_rounded_sum(one, whole(0));
    lemma_absolute_value(one);
    lemma_nearest_exact(one.magnitude_bits());
}

proof fn lemma_inside_finite(inside: Scalar, depth: Scalar)
    requires
        usual(depth),
        inside == (if depth < whole(1) {
            whole(1) - depth
        } else {
            whole(0)
        }),
    ensures
        inside.finite(),
        size(num(inside)) <= 1000000000002real,
{
    lemma_num_whole(0);
    lemma_num_whole(1);
    lemma_least();
    lemma_sub(whole(1), depth);
}

proof fn lemma_product_finite(coef: Scalar, s: Scalar)
    requires
        usual(coef),
        s.finite(),
        size(num(s)) <= 4000000000000real,
    ensures
        (coef * s).finite(),
{
    lemma_size_product(num(coef), num(s), 1000000000000real, 4000000000000real);
    lemma_mul(coef, s);
}

} // verus!
