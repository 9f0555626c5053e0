//! The way back over the same turning circles is as long as the way there.

use crate::arith::{absolute, signed};
use crate::cell::{lemma_at_most, lemma_count, lemma_rounding, lemma_sum};
use crate::dubins::{
    best_csc, csc_path, full_turn, heading_gap, heading_on, law_chosen_path_is_shortest,
    other_turn, reversed, tangent_normal, turn_center, turned, DubinsPath, Spot, Turn,
};
use crate::ends::{
    apart, grain, half_turn, is_bound, lap, laps, law_way_back_turns_on_the_same_circle,
    lemma_absolute_value, lemma_angle_difference, lemma_angle_sum, lemma_counted,
    lemma_csc_choice, lemma_full_turn, lemma_millionth, lemma_place_sum, lemma_scale,
    lemma_signed_value, lemma_sizes, moderate_pose, no_turn, quarter, right_angle, speck, tau,
    true_circle, turnable, within,
};
use crate::geometry::hypotenuse;
use crate::margin::{lemma_power_pattern, power_pattern};
use crate::numeric::{frac, whole};
use crate::oracle::{image, Calc};
use crate::rounding::{lemma_nearest_exists, nearest};
use crate::scalar::{lemma_magnitude_monotone, magnitude_value, units, Scalar};
use vstd::arithmetic::div_mod::lemma_fundamental_div_mod;
use vstd::arithmetic::power2::{lemma2_to64, lemma_pow2_adds, lemma_pow2_pos, pow2};
use vstd::prelude::*;

verus! {

/// Whether two numbers are finite and have the same value, or opposite ones.
pub open spec fn twins(a: Scalar, c: Scalar, opposed: bool) -> bool {
    a.finite() && c.finite() && c.value() == (if opposed {
        -a.value()
    } else {
        a.value()
    })
}

/// Whether two vectors are twins.
pub open spec fn twin_spots(a: Spot, c: Spot, opposed: bool) -> bool {
    twins(a.0, c.0, opposed) && twins(a.1, c.1, opposed)
}

/// Whether the direction of a place does not depend on the sign of a zero, and the
/// direction of the opposite place is half a turn away, but for 2^-44.
pub open spec fn true_opposite<C: Fn(Calc) -> Scalar>(calc: C) -> bool {
    forall|a: Spot, c: Spot, opposed: bool| #[trigger]
        twin_spots(a, c, opposed) && (a.0.value() != 0 || a.1.value() != 0) ==> no_turn(
            image(calc, Calc::Atan2(c.1, c.0)).value() - image(
                calc,
                Calc::Atan2(a.1, a.0),
            ).value() - (if opposed {
                2 * quarter()
            } else {
                0
            }),
            speck(),
        )
}

proof fn lemma_twin_sums(a: Scalar, b: Scalar, c: Scalar, d: Scalar, opposed: bool)
    requires
        twins(a, c, opposed) && twins(b, d, opposed),
        (a + b).finite(),
    ensures
        twins(a + b, c + d, opposed),
{
    reveal(Scalar::plus);
    assert(magnitude_value(0) == 0);
    let v = a.value() + b.value();
    let w = c.value() + d.value();
    assert(absolute(v) == absolute(w));
    if v != 0 {
        lemma_nearest_exists(absolute(v), 1);
        let m = nearest(absolute(v), 1);
        lemma_signed_value(a + b, v < 0, m);
        lemma_signed_value(c + d, w < 0, m);
    }
}

proof fn lemma_twin_opposite(a: Scalar, c: Scalar, opposed: bool)
    requires
        twins(a, c, opposed),
    ensures
        twins(a.opposite(), c.opposite(), opposed),
        twins(a, a.opposite(), true),
{
    assert(a.opposite().magnitude_bits() == a.magnitude_bits());
    assert(c.opposite().magnitude_bits() == c.magnitude_bits());
}

proof fn lemma_twin_differences(a: Scalar, b: Scalar, c: Scalar, d: Scalar, opposed: bool)
    requires
        twins(a, c, opposed) && twins(b, d, opposed),
        (a - b).finite(),
    ensures
        twins(a - b, c - d, opposed),
{
    lemma_twin_opposite(b, d, opposed);
    lemma_twin_sums(a, b.opposite(), c, d.opposite(), opposed);
}

/// A difference the other way round.
pub proof fn lemma_other_way(a: Scalar, b: Scalar)
    requires
        a.finite() && b.finite(),
        (a - b).finite(),
    ensures
        twins(a - b, b - a, true),
{
    reveal(Scalar::plus);
    assert(magnitude_value(0) == 0);
    assert(a.opposite().magnitude_bits() == a.magnitude_bits());
    assert(b.opposite().magnitude_bits() == b.magnitude_bits());
    let v = a.value() - b.value();
    if v != 0 {
        lemma_nearest_exists(absolute(v), 1);
        let m = nearest(absolute(v), 1);
        lemma_signed_value(a - b, v < 0, m);
        lemma_signed_value(b - a, v > 0, m);
    }
}

proof fn lemma_twin_products(a: Scalar, b: Scalar, c: Scalar, d: Scalar, opposed: bool)
    requires
        twins(a, c, opposed) && twins(b, d, false),
        (a * b).finite(),
    ensures
        twins(a * b, c * d, opposed),
{
    reveal(Scalar::times);
    assert(magnitude_value(0) == 0);
    lemma_pow2_pos(1074);
    lemma_absolute_value(a);
    lemma_absolute_value(b);
    lemma_absolute_value(c);
    lemma_absolute_value(d);
    let one = pow2(1074) as int;
    let (x, y) = (absolute(a.value()), absolute(b.value()));
    assert(absolute(c.value()) == x && absolute(d.value()) == y);
    let n = x * y;
    assert(n >= 0) by (nonlinear_arith)
        requires
            n == x * y,
            x >= 0,
            y >= 0,
    ;
    lemma_nearest_exists(n, one);
    let m = nearest(n, one);
    let (p, q) = (a.negative() != b.negative(), c.negative() != d.negative());
    lemma_signed_value(a * b, p, m);
    lemma_signed_value(c * d, q, m);
    if x == 0 || y == 0 {
        assert(n == 0) by (nonlinear_arith)
            requires
                n == x * y,
                x == 0 || y == 0,
        ;
        assert(0 * one == 0);
        lemma_at_most(0, one, 0);
    }
}

proof fn lemma_twin_quotients(a: Scalar, b: Scalar, c: Scalar, opposed: bool)
    requires
        twins(a, c, opposed),
        b.finite() && b.value() != 0,
        (a / b).finite(),
    ensures
        twins(a / b, c / b, opposed),
{
    reveal(Scalar::over);
    assert(magnitude_value(0) == 0);
    lemma_absolute_value(a);
    lemma_absolute_value(b);
    lemma_absolute_value(c);
    let (x, y, one) = (absolute(a.value()), absolute(b.value()), pow2(1074) as int);
    assert(absolute(c.value()) == x);
    let n = x * one;
    assert(n >= 0) by (nonlinear_arith)
        requires
            n == x * one,
            x >= 0,
            one >= 0,
    ;
    lemma_nearest_exists(n, y);
    let m = nearest(n, y);
    lemma_signed_value(a / b, a.negative() != b.negative(), m);
    lemma_signed_value(c / b, c.negative() != b.negative(), m);
    if x == 0 {
        assert(n == 0) by (nonlinear_arith)
            requires
                n == x * one,
                x == 0,
        ;
        assert(0 * y == 0);
        lemma_at_most(0, y, 0);
    }
}

/// The squares of twins are the same number.
pub proof fn lemma_twin_lengths(a: Spot, c: Spot, opposed: bool)
    requires
        twin_spots(a, c, opposed),
    ensures
        hypotenuse(a.0, a.1) == hypotenuse(c.0, c.1),
{
    reveal(Scalar::times);
    assert(absolute(a.0.value()) == absolute(c.0.value()));
    assert(absolute(a.1.value()) == absolute(c.1.value()));
    assert(a.0 * a.0 == c.0 * c.0);
    assert(a.1 * a.1 == c.1 * c.1);
}

/// The way from one centre to another.
pub open spec fn spread(c1: Spot, c2: Spot) -> Spot {
    (c2.0 - c1.0, c2.1 - c1.1)
}

/// The direction from the first centre to the tangent point.
pub open spec fn normal<C: Fn(Calc) -> Scalar>(
    calc: C,
    c1: Spot,
    c2: Spot,
    r: Scalar,
    same: bool,
    first: bool,
) -> Spot {
    let v = spread(c1, c2);
    let d = hypotenuse(v.0, v.1);
    tangent_normal(calc, (v.0 / d, v.1 / d), d, r, same, first)
}

/// The direction from the second centre to its tangent point.
pub open spec fn far_normal(n: Spot, same: bool) -> Spot {
    if same {
        n
    } else {
        reversed(n)
    }
}

/// The straight part between two tangent points.
pub open spec fn line(c1: Spot, c2: Spot, r: Scalar, n1: Spot, n2: Spot) -> Spot {
    let a = (c1.0 + r * n1.0, c1.1 + r * n1.1);
    let b = (c2.0 + r * n2.0, c2.1 + r * n2.1);
    (b.0 - a.0, b.1 - a.1)
}

/// Whether all numbers between the centres and the straight part are finite, and the
/// directions are directions.
pub open spec fn plain_line<C: Fn(Calc) -> Scalar>(
    calc: C,
    c1: Spot,
    c2: Spot,
    r: Scalar,
    same: bool,
    first: bool,
) -> bool {
    let v = spread(c1, c2);
    let d = hypotenuse(v.0, v.1);
    let ang = image(calc, Calc::Acos(whole(2) * r / d));
    let (x, y) = (v.0 / d, v.1 / d);
    let (cs, sn) = (image(calc, Calc::Cos(ang)), image(calc, Calc::Sin(ang)));
    let n = normal(calc, c1, c2, r, same, first);
    let m = far_normal(n, same);
    let u = line(c1, c2, r, n, m);
    &&& c1.0.finite() && c1.1.finite() && c2.0.finite() && c2.1.finite()
    &&& v.0.finite() && v.1.finite()
    &&& d.finite() && d.value() != 0 && x.finite() && y.finite()
    &&& same || (cs.finite() && sn.finite() && (x * cs).finite() && (x * sn).finite() && (y
        * cs).finite() && (y * sn).finite())
    &&& n.0.finite() && n.1.finite() && (n.0.value() != 0 || n.1.value() != 0)
    &&& (r * n.0).finite() && (r * n.1).finite() && (r * m.0).finite() && (r * m.1).finite()
    &&& (c1.0 + r * n.0).finite() && (c1.1 + r * n.1).finite()
    &&& (c2.0 + r * m.0).finite() && (c2.1 + r * m.1).finite()
    &&& u.0.finite() && u.1.finite() && (u.0.value() != 0 || u.1.value() != 0)
}

proof fn lemma_normal_back<C: Fn(Calc) -> Scalar>(
    calc: C,
    c1: Spot,
    c2: Spot,
    r: Scalar,
    same: bool,
    first: bool,
)
    requires
        r.finite(),
        plain_line(calc, c1, c2, r, same, first),
    ensures
        ({
            let (v, w) = (spread(c1, c2), spread(c2, c1));
            let n = normal(calc, c1, c2, r, same, first);
            let m = normal(calc, c2, c1, r, same, if same {
                !first
            } else {
                first
            });
            &&& hypotenuse(v.0, v.1) == hypotenuse(w.0, w.1)
            &&& twin_spots(far_normal(n, same), m, false)
            &&& twin_spots(n, far_normal(m, same), false)
        }),
{
    let (v, w) = (spread(c1, c2), spread(c2, c1));
    lemma_other_way(c2.0, c1.0);
    lemma_other_way(c2.1, c1.1);
    lemma_twin_lengths(v, w, true);
    let d = hypotenuse(v.0, v.1);
    let (a, b) = ((v.0 / d, v.1 / d), (w.0 / d, w.1 / d));
    lemma_twin_quotients(v.0, d, w.0, true);
    lemma_twin_quotients(v.1, d, w.1, true);
    lemma_twin_opposite(a.0, b.0, true);
    lemma_twin_opposite(a.1, b.1, true);
    lemma_twin_opposite(b.0, a.0, true);
    lemma_twin_opposite(b.1, a.1, true);
    let n = normal(calc, c1, c2, r, same, first);
    if !same {
        let ang = image(calc, Calc::Acos(whole(2) * r / d));
        let (cs, sn) = (image(calc, Calc::Cos(ang)), image(calc, Calc::Sin(ang)));
        lemma_twin_products(a.0, cs, b.0, cs, true);
        lemma_twin_products(a.0, sn, b.0, sn, true);
        lemma_twin_products(a.1, cs, b.1, cs, true);
        lemma_twin_products(a.1, sn, b.1, sn, true);
        if first {
            lemma_twin_differences(a.0 * cs, a.1 * sn, b.0 * cs, b.1 * sn, true);
            lemma_twin_sums(a.0 * sn, a.1 * cs, b.0 * sn, b.1 * cs, true);
        } else {
            let (e, f) = (a.0.opposite(), b.0.opposite());
            assert((e * sn).finite()) by {
                reveal(Scalar::times);
                assert(e.magnitude_bits() == a.0.magnitude_bits());
                assert(absolute(e.value()) == absolute(a.0.value()));
                lemma_pow2_pos(1074);
                lemma_absolute_value(a.0);
                lemma_absolute_value(sn);
                let k = absolute(a.0.value()) * absolute(sn.value());
                assert(k >= 0) by (nonlinear_arith)
                    requires
                        k == absolute(a.0.value()) * absolute(sn.value()),
                        absolute(a.0.value()) >= 0,
                        absolute(sn.value()) >= 0,
                ;
                lemma_nearest_exists(k, pow2(1074) as int);
            }
            lemma_twin_products(e, sn, f, sn, true);
            lemma_twin_sums(a.0 * cs, a.1 * sn, b.0 * cs, b.1 * sn, true);
            lemma_twin_sums(e * sn, a.1 * cs, f * sn, b.1 * cs, true);
        }
        let m = normal(calc, c2, c1, r, same, first);
        assert(twin_spots(n, m, true));
        lemma_twin_opposite(n.0, m.0, true);
        lemma_twin_opposite(n.1, m.1, true);
        lemma_twin_opposite(m.0, n.0, true);
        lemma_twin_opposite(m.1, n.1, true);
    }
}

/// Between the same centres the other way round the line runs back, just as long.
proof fn lemma_line_back<C: Fn(Calc) -> Scalar>(
    calc: C,
    c1: Spot,
    c2: Spot,
    r: Scalar,
    same: bool,
    first: bool,
)
    requires
        r.finite(),
        plain_line(calc, c1, c2, r, same, first),
    ensures
        ({
            let n = normal(calc, c1, c2, r, same, first);
            let m = normal(calc, c2, c1, r, same, if same {
                !first
            } else {
                first
            });
            let u = line(c1, c2, r, n, far_normal(n, same));
            let w = line(c2, c1, r, m, far_normal(m, same));
            twin_spots(u, w, true) && hypotenuse(u.0, u.1) == hypotenuse(w.0, w.1)
        }),
{
    lemma_normal_back(calc, c1, c2, r, same, first);
    let n = normal(calc, c1, c2, r, same, first);
    let m = normal(calc, c2, c1, r, same, if same {
        !first
    } else {
        first
    });
    let (k, l) = (far_normal(n, same), far_normal(m, same));
    lemma_coordinate_back(c1.0, c2.0, r, n.0, k.0, m.0, l.0);
    lemma_coordinate_back(c1.1, c2.1, r, n.1, k.1, m.1, l.1);
    lemma_twin_lengths(line(c1, c2, r, n, k), line(c2, c1, r, m, l), true);
}

proof fn lemma_coordinate_back(
    c1: Scalar,
    c2: Scalar,
    r: Scalar,
    n: Scalar,
    k: Scalar,
    m: Scalar,
    l: Scalar,
)
    requires
        c1.finite() && c2.finite() && r.finite(),
        twins(k, m, false) && twins(n, l, false),
        (r * n).finite() && (r * k).finite(),
        (c1 + r * n).finite() && (c2 + r * k).finite(),
        (c2 + r * k - (c1 + r * n)).finite(),
    ensures
        twins(c2 + r * k - (c1 + r * n), c1 + r * l - (c2 + r * m), true),
{
    lemma_twin_products(r, n, r, l, false);
    lemma_twin_products(r, k, r, m, false);
    lemma_twin_sums(c1, r * n, c1, r * l, false);
    lemma_twin_sums(c2, r * k, c2, r * m, false);
    let (a, b) = (c1 + r * n, c2 + r * k);
    let (e, f) = (c1 + r * l, c2 + r * m);
    lemma_twin_differences(b, a, f, e, false);
    lemma_other_way(f, e);
}

/// What is left of an angle after its full turns.
pub proof fn lemma_rest(x: Scalar)
    requires
        x.finite(),
        -128 * pow2(1074) <= x.value() <= 128 * pow2(1074),
    ensures
        ({
            let rest = absolute(x.value()) % lap();
            let f = full_turn(x);
            &&& 0 <= rest < lap()
            &&& f.finite() && 0 <= f.value() <= lap()
            &&& x.value() >= 0 ==> apart(f.value(), rest, speck())
            &&& x.value() < 0 ==> apart(f.value(), lap() - rest, 2 * speck()) || (rest == 0
                && f.value() == 0)
        }),
{
    reveal(Scalar::remainder);
    lemma_sizes();
    lemma_absolute_value(x);
    lemma_full_turn(x);
    let (t, v) = (lap(), absolute(x.value()));
    let rest = v % t;
    lemma_fundamental_div_mod(v, t);
    let m = x.remainder(tau());
    assert(absolute(tau().value()) == t);
    assert(!tau().zero());
    lemma_at_most(rest, 1, tau().magnitude_bits());
    lemma_rounding(rest, 1);
    lemma_nearest_exists(rest, 1);
    lemma_signed_value(m, x.negative(), nearest(rest, 1));
    let w = magnitude_value(nearest(rest, 1));
    let s = speck();
    assert(-s <= w - rest && w - rest <= s) by (nonlinear_arith)
        requires
            -(rest + 0x10_0000_0000_0000) <= (w * 1 - rest) * 0x10_0000_0000_0000,
            (w * 1 - rest) * 0x10_0000_0000_0000 <= rest + 0x10_0000_0000_0000,
            0 <= rest < 7 * (0x1000_0000_0000 * s),
            s >= 0x10_0000 * 0x10_0000_0000_0000,
    ;
    lemma_count(0);
    assert(magnitude_value(0) == 0);
    if m < whole(0) {
        lemma_angle_sum(m, tau());
        lemma_sum(m, tau(), tau().magnitude_bits());
    } else if x.value() < 0 {
        assert(w == 0);
        if rest > 0 {
            lemma_some_left(rest);
        }
    }
}

/// A whole number of units does not vanish.
proof fn lemma_some_left(n: int)
    requires
        n > 0,
    ensures
        magnitude_value(nearest(n, 1)) > 0,
{
    lemma_nearest_exists(n, 1);
    assert(magnitude_value(0) == 0 && magnitude_value(1) == 1);
    let m = nearest(n, 1);
    if m > 0 {
        lemma_magnitude_monotone(0, m);
    }
}

/// Two headings near each other have a small gap.
proof fn lemma_small_gap(a: Scalar, b: Scalar, k: int, m: int)
    requires
        a.finite() && b.finite(),
        -16 * pow2(1074) <= a.value() <= 16 * pow2(1074),
        -16 * pow2(1074) <= b.value() <= 16 * pow2(1074),
        apart(a.value() - b.value(), laps(k), m),
        0 <= m <= pow2(1074),
    ensures
        heading_gap(a, b).finite(),
        0 <= heading_gap(a, b).value() <= m + 3 * speck(),
{
    lemma_sizes();
    lemma_angle_difference(a, b);
    lemma_angle_difference(b, a);
    lemma_other_way(a, b);
    let (x, y) = (a - b, b - a);
    lemma_rest(x);
    lemma_rest(y);
    let (l, s, v) = (lap(), speck(), absolute(x.value()));
    assert(absolute(y.value()) == v);
    let (q, rest) = (v / l, v % l);
    lemma_fundamental_div_mod(v, l);
    let j = if x.value() < 0 {
        -k
    } else {
        k
    };
    let off = v - j * l;
    assert(-(m + s) <= off && off <= m + s) by {
        assert((-k) * l == -(k * l)) by (nonlinear_arith);
    }
    assert(rest <= m + s || rest >= l - m - s) by (nonlinear_arith)
        requires
            v == l * q + rest,
            v == j * l + off,
            -(m + s) <= off <= m + s,
            0 <= rest < l,
            0 <= m,
            4 * (m + s) <= l,
    ;
}

/// A small gap is between headings near each other.
proof fn lemma_gap_tells(h: Scalar, t: Scalar) -> (k: int)
    requires
        h.finite() && t.finite(),
        -16 * pow2(1074) <= h.value() <= 16 * pow2(1074),
        -16 * pow2(1074) <= t.value() <= 16 * pow2(1074),
    ensures
        heading_gap(h, t).finite(),
        heading_gap(h, t).value() >= 0,
        apart(h.value() - t.value(), laps(k), heading_gap(h, t).value() + 3 * speck()),
{
    lemma_sizes();
    lemma_angle_difference(h, t);
    lemma_angle_difference(t, h);
    let i = lemma_full_turn(h - t);
    let j = lemma_full_turn(t - h);
    let (x, y) = (full_turn(h - t), full_turn(t - h));
    let l = lap();
    if heading_gap(h, t) == x {
        assert((-i) * l == -(i * l)) by (nonlinear_arith);
        assert(laps(-i) == (-i) * l);
        -i
    } else {
        assert(heading_gap(h, t) == y);
        assert(laps(j) == j * l);
        j
    }
}

/// Whether a gap is not so near to a millionth that rounding could tell.
pub open spec fn clear_gap(g: Scalar) -> bool {
    g.value() <= frac(1, 1_000_000).value() - 40 * speck() || g.value() >= frac(
        1,
        1_000_000,
    ).value() + 40 * speck()
}

/// The gap of two headings that both turned by the same angle.
proof fn lemma_same_gap(h: Scalar, t: Scalar, i: Scalar, u: Scalar)
    requires
        h.finite() && t.finite() && i.finite() && u.finite(),
        -16 * pow2(1074) <= h.value() <= 16 * pow2(1074),
        -16 * pow2(1074) <= t.value() <= 16 * pow2(1074),
        -16 * pow2(1074) <= i.value() <= 16 * pow2(1074),
        -16 * pow2(1074) <= u.value() <= 16 * pow2(1074),
        no_turn((i.value() - u.value()) - (h.value() - t.value()), 8 * speck()),
        clear_gap(heading_gap(h, t)),
    ensures
        (heading_gap(h, t) > frac(1, 1_000_000)) == (heading_gap(i, u) > frac(1, 1_000_000)),
{
    lemma_sizes();
    lemma_millionth();
    let s = speck();
    let f = frac(1, 1_000_000).value();
    let x = (i.value() - u.value()) - (h.value() - t.value());
    let n = choose|n: int| -64 <= n <= 64 && -(8 * s) <= x - #[trigger] laps(n) <= 8 * s;
    let l = lap();
    let k = lemma_gap_tells(h, t);
    let m = lemma_gap_tells(i, u);
    let (g, w) = (heading_gap(h, t).value(), heading_gap(i, u).value());
    assert((k + n) * l == k * l + n * l && (m - n) * l == m * l - n * l) by (nonlinear_arith);
    assert(laps(k + n) == laps(k) + laps(n) && laps(m - n) == laps(m) - laps(n));
    if g <= f - 40 * s {
        lemma_small_gap(i, u, k + n, g + 11 * s);
    } else if w <= f {
        lemma_small_gap(h, t, m - n, w + 11 * s);
    }
}

/// Whether an arc is not so near to none or to a full turn that rounding could tell.
pub open spec fn clear_arc(a: Scalar, d: int) -> bool {
    a.finite() && d + 20 * speck() <= a.value() <= lap() - d - 20 * speck()
}

/// The arc between two headings that both turned by the same angle.
pub proof fn lemma_same_arc(x: Scalar, y: Scalar, d: int)
    requires
        x.finite() && y.finite(),
        -64 * pow2(1074) <= x.value() <= 64 * pow2(1074),
        -64 * pow2(1074) <= y.value() <= 64 * pow2(1074),
        0 <= d,
        no_turn(y.value() - x.value(), d + 4 * speck()),
        clear_arc(full_turn(x), d),
    ensures
        full_turn(y).finite(),
        0 <= full_turn(y).value() <= lap(),
        apart(full_turn(y).value(), full_turn(x).value(), d + 8 * speck()),
{
    lemma_sizes();
    lemma_rest(x);
    lemma_rest(y);
    let i = lemma_full_turn(x);
    let j = lemma_full_turn(y);
    let (s, l) = (speck(), lap());
    let v = y.value() - x.value();
    let e = d + 4 * s;
    let n = choose|n: int| -64 <= n <= 64 && -e <= v - #[trigger] laps(n) <= e;
    let (f, g) = (full_turn(x).value(), full_turn(y).value());
    let k = j - i + n;
    let off = g - f - k * l;
    assert((j - i + n) * l == j * l - i * l + n * l) by (nonlinear_arith);
    assert(-(e + 4 * s) <= off && off <= e + 4 * s);
    assert(k == 0) by (nonlinear_arith)
        requires
            g - f == k * l + off,
            -(d + 8 * s) <= off <= d + 8 * s,
            0 <= g <= l,
            d + 20 * s <= f <= l - d - 20 * s,
            0 <= d,
            s > 0,
            l > 0,
    ;
    assert(0 * l == 0);
}

/// The path of two arcs of the given senses round two centres and the line along one of
/// the two tangents, where it exists and runs without a kink.
pub open spec fn csc_on<C: Fn(Calc) -> Scalar>(
    calc: C,
    c1: Spot,
    c2: Spot,
    th0: Scalar,
    th1: Scalar,
    r: Scalar,
    t1: Turn,
    t2: Turn,
    first: bool,
) -> Option<DubinsPath> {
    let same = t1 == t2;
    let v = spread(c1, c2);
    let d = hypotenuse(v.0, v.1);
    let n1 = normal(calc, c1, c2, r, same, first);
    let n2 = far_normal(n1, same);
    let u = line(c1, c2, r, n1, n2);
    let straight = hypotenuse(u.0, u.1);
    let tangent = image(calc, Calc::Atan2(u.1, u.0));
    let head_a = heading_on(image(calc, Calc::Atan2(n1.1, n1.0)), t1);
    let head_b = heading_on(image(calc, Calc::Atan2(n2.1, n2.0)), t2);
    let eps = frac(1, 1_000_000_000);
    if d < whole(2) * r - eps || d < eps || straight < eps || heading_gap(head_a, tangent) > frac(
        1,
        1_000_000,
    ) || heading_gap(head_b, tangent) > frac(1, 1_000_000) {
        None
    } else {
        Some(
            DubinsPath {
                t1,
                t2,
                a1: turned(th0, tangent, t1),
                straight,
                a2: turned(tangent, th1, t2),
                c1,
                c2,
                n1,
                r,
                ccc: None,
            },
        )
    }
}

/// Between two poses, the centres are those of their turning circles.
proof fn lemma_on_circles<C: Fn(Calc) -> Scalar>(
    calc: C,
    p0: Spot,
    th0: Scalar,
    p1: Spot,
    th1: Scalar,
    r: Scalar,
    t1: Turn,
    t2: Turn,
    first: bool,
)
    ensures
        csc_path(calc, p0, th0, p1, th1, r, t1, t2, first) == csc_on(
            calc,
            turn_center(calc, p0, th0, t1, r),
            turn_center(calc, p1, th1, t2, r),
            th0,
            th1,
            r,
            t1,
            t2,
            first,
        ),
{
}

/// Whether rounding cannot tip whether there is a path of two arcs and a line of the
/// given senses round two centres, nor make an arc of it a full turn.
pub open spec fn steady<C: Fn(Calc) -> Scalar>(
    calc: C,
    c1: Spot,
    c2: Spot,
    th0: Scalar,
    th1: Scalar,
    r: Scalar,
    t1: Turn,
    t2: Turn,
    first: bool,
    d: int,
    z: nat,
) -> bool {
    let same = t1 == t2;
    let n1 = normal(calc, c1, c2, r, same, first);
    let n2 = far_normal(n1, same);
    let u = line(c1, c2, r, n1, n2);
    let tangent = image(calc, Calc::Atan2(u.1, u.0));
    let path = csc_on(calc, c1, c2, th0, th1, r, t1, t2, first);
    &&& plain_line(calc, c1, c2, r, same, first)
    &&& clear_gap(heading_gap(heading_on(image(calc, Calc::Atan2(n1.1, n1.0)), t1), tangent))
    &&& clear_gap(heading_gap(heading_on(image(calc, Calc::Atan2(n2.1, n2.0)), t2), tangent))
    &&& path is Some ==> clear_arc(path->0.a1, d) && clear_arc(path->0.a2, d) && within(
        path->0.straight,
        z + 4,
    )
}

/// How far the turning circles of the two ways may be apart, in square units of 2^-1074.
pub open spec fn circle_slack(r: Scalar, d: int, z: nat) -> int {
    r.value() * (d + 4 * speck()) + 8 * (pow2(1074) * grain(z))
}

/// Whether a centre is another one, but for some slack.
pub open spec fn shifted(c: Spot, e: Spot, off: int) -> bool {
    &&& e.0.finite() && apart(c.0.value() * pow2(1074), e.0.value() * pow2(1074), off)
    &&& e.1.finite() && apart(c.1.value() * pow2(1074), e.1.value() * pow2(1074), off)
}

/// Whether two paths, if there are any, are as long as each other, but for some slack.
pub open spec fn as_long(f: Option<DubinsPath>, g: Option<DubinsPath>, slack: int) -> bool {
    &&& f is Some <==> g is Some
    &&& f is Some ==> f->0.length().finite() && g->0.length().finite() && apart(
        f->0.length().value() * pow2(1074),
        g->0.length().value() * pow2(1074),
        slack,
    )
}

/// Whether a path of two arcs and a line of the given senses stays there, or stays away,
/// and keeps its length but for some slack, when the circles are shifted as little as
/// they are on the way back; and rounding cannot tip it on the shifted circles either.
pub open spec fn firm<C: Fn(Calc) -> Scalar>(
    calc: C,
    p0: Spot,
    th0: Scalar,
    p1: Spot,
    th1: Scalar,
    r: Scalar,
    t1: Turn,
    t2: Turn,
    first: bool,
    d: int,
    z: nat,
    slack: int,
) -> bool {
    let c1 = turn_center(calc, p0, th0, t1, r);
    let c2 = turn_center(calc, p1, th1, t2, r);
    let off = circle_slack(r, d, z);
    forall|e1: Spot, e2: Spot|
        shifted(c1, e1, off) && shifted(c2, e2, off) ==> #[trigger] steady(
            calc,
            e1,
            e2,
            th0,
            th1,
            r,
            t1,
            t2,
            first,
            d,
            z,
        ) && as_long(
            csc_on(calc, c1, c2, th0, th1, r, t1, t2, first),
            csc_on(calc, e1, e2, th0, th1, r, t1, t2, first),
            slack,
        )
}

/// The tangent of the way back leads the other way on the other arc.
proof fn lemma_head_back(phi: Scalar, psi: Scalar, t: Scalar, u: Scalar, turn: Turn)
    requires
        phi.finite() && psi.finite() && t.finite() && u.finite(),
        -4 * pow2(1074) <= phi.value() <= 4 * pow2(1074),
        -4 * pow2(1074) <= psi.value() <= 4 * pow2(1074),
        -4 * pow2(1074) <= t.value() <= 4 * pow2(1074),
        -4 * pow2(1074) <= u.value() <= 4 * pow2(1074),
        no_turn(psi.value() - phi.value(), speck()),
        no_turn(u.value() - t.value() - 2 * quarter(), speck()),
        clear_gap(heading_gap(heading_on(phi, turn), t)),
    ensures
        (heading_gap(heading_on(phi, turn), t) > frac(1, 1_000_000)) == (heading_gap(
            heading_on(psi, other_turn(turn)),
            u,
        ) > frac(1, 1_000_000)),
{
    lemma_sizes();
    let s = speck();
    let l = lap();
    let x = psi.value() - phi.value();
    let y = u.value() - t.value() - 2 * quarter();
    let m = choose|m: int| -64 <= m <= 64 && -s <= x - #[trigger] laps(m) <= s;
    let n = choose|n: int| -64 <= n <= 64 && -s <= y - #[trigger] laps(n) <= s;
    let (h, i) = (heading_on(phi, turn), heading_on(psi, other_turn(turn)));
    if turn == Turn::L {
        lemma_angle_sum(phi, right_angle());
        lemma_angle_difference(psi, right_angle());
    } else {
        lemma_angle_difference(phi, right_angle());
        lemma_angle_sum(psi, right_angle());
    }
    let k = if turn == Turn::L {
        m - n - 1
    } else {
        m - n
    };
    assert(-3 <= m <= 3 && -3 <= n <= 3) by (nonlinear_arith)
        requires
            -9 * pow2(1074) <= m * l <= 9 * pow2(1074),
            -13 * pow2(1074) <= n * l <= 13 * pow2(1074),
            6 * pow2(1074) < l,
            pow2(1074) > 0,
    ;
    assert((m - n - 1) * l == m * l - n * l - l && (m - n) * l == m * l - n * l)
        by (nonlinear_arith);
    assert(laps(k) == k * l && laps(m) == m * l && laps(n) == n * l);
    let v = (i.value() - u.value()) - (h.value() - t.value());
    assert(-(8 * s) <= v - laps(k) <= 8 * s);
    lemma_same_gap(h, t, i, u);
}

/// The arc of the way back between tangent and heading.
proof fn lemma_arc_back(th: Scalar, back: Scalar, t: Scalar, u: Scalar, turn: Turn, d: int)
    requires
        th.finite() && back.finite() && t.finite() && u.finite(),
        -32 * pow2(1074) <= th.value() <= 32 * pow2(1074),
        -32 * pow2(1074) <= back.value() <= 32 * pow2(1074),
        -4 * pow2(1074) <= t.value() <= 4 * pow2(1074),
        -4 * pow2(1074) <= u.value() <= 4 * pow2(1074),
        0 <= d <= pow2(1074),
        no_turn(back.value() - th.value() - 2 * quarter(), d),
        no_turn(u.value() - t.value() - 2 * quarter(), speck()),
    ensures
        clear_arc(turned(th, t, turn), d) ==> {
            let a = turned(u, back, other_turn(turn));
            a.finite() && 0 <= a.value() <= lap() && apart(
                a.value(),
                turned(th, t, turn).value(),
                d + 8 * speck(),
            )
        },
        clear_arc(turned(t, th, turn), d) ==> {
            let a = turned(back, u, other_turn(turn));
            a.finite() && 0 <= a.value() <= lap() && apart(
                a.value(),
                turned(t, th, turn).value(),
                d + 8 * speck(),
            )
        },
{
    lemma_sizes();
    let (s, l) = (speck(), lap());
    let x = back.value() - th.value() - 2 * quarter();
    let y = u.value() - t.value() - 2 * quarter();
    let m = choose|m: int| -64 <= m <= 64 && -d <= x - #[trigger] laps(m) <= d;
    let n = choose|n: int| -64 <= n <= 64 && -s <= y - #[trigger] laps(n) <= s;
    lemma_angle_difference(t, th);
    lemma_angle_difference(th, t);
    lemma_angle_difference(u, back);
    lemma_angle_difference(back, u);
    assert((n - m) * l == n * l - m * l && (m - n) * l == m * l - n * l) by (nonlinear_arith);
    assert(laps(n - m) == laps(n) - laps(m) && laps(m - n) == laps(m) - laps(n));
    assert(-20 <= m <= 20 && -20 <= n <= 20) by (nonlinear_arith)
        requires
            -70 * pow2(1074) <= m * l <= 70 * pow2(1074),
            -13 * pow2(1074) <= n * l <= 13 * pow2(1074),
            6 * pow2(1074) < l,
            pow2(1074) > 0,
    ;
    let e = d + 4 * s;
    assert(-e <= ((u - back).value() - (t - th).value()) - laps(n - m) <= e);
    assert(-e <= ((back - u).value() - (th - t).value()) - laps(m - n) <= e);
    assert(no_turn((u - back).value() - (t - th).value(), e));
    assert(no_turn((back - u).value() - (th - t).value(), e));
    if clear_arc(full_turn(t - th), d) {
        lemma_same_arc(t - th, u - back, d);
    }
    if clear_arc(full_turn(th - t), d) {
        lemma_same_arc(th - t, back - u, d);
    }
}

/// The other of the two tangents for turns of the same sense, else the same one.
pub open spec fn tangent_back(t1: Turn, t2: Turn, first: bool) -> bool {
    if t1 == t2 {
        !first
    } else {
        first
    }
}

/// Whether `g` is the path `f` flown back, but for `d`.
pub open spec fn flown_back(f: DubinsPath, g: DubinsPath, d: int) -> bool {
    &&& g.straight == f.straight
    &&& g.r == f.r
    &&& f.ccc is None && g.ccc is None
    &&& g.a1.finite() && g.a2.finite()
    &&& 0 <= g.a1.value() <= lap() && 0 <= g.a2.value() <= lap()
    &&& apart(g.a1.value(), f.a2.value(), d)
    &&& apart(g.a2.value(), f.a1.value(), d)
}

/// Whether a heading is at most 32 radians either way.
spec fn is_heading(th: Scalar) -> bool {
    th.finite() && -32 * pow2(1074) <= th.value() <= 32 * pow2(1074)
}

/// Each path of two arcs and a line round two centres has a way back, and each way back a
/// way there.
proof fn lemma_candidate_back<C: Fn(Calc) -> Scalar>(
    calc: C,
    c1: Spot,
    c2: Spot,
    th0: Scalar,
    back0: Scalar,
    th1: Scalar,
    back1: Scalar,
    r: Scalar,
    t1: Turn,
    t2: Turn,
    first: bool,
    d: int,
    z: nat,
)
    requires
        true_circle(calc) && true_opposite(calc),
        is_heading(th0) && is_heading(back0) && is_heading(th1) && is_heading(back1),
        r.finite(),
        half_turn(th0, back0, d) && half_turn(th1, back1, d),
        d <= pow2(1074),
        steady(calc, c1, c2, th0, th1, r, t1, t2, first, d, z),
    ensures
        ({
            let f = csc_on(calc, c1, c2, th0, th1, r, t1, t2, first);
            let g = csc_on(
                calc,
                c2,
                c1,
                back1,
                back0,
                r,
                other_turn(t2),
                other_turn(t1),
                tangent_back(t1, t2, first),
            );
            &&& f is Some <==> g is Some
            &&& f is Some ==> flown_back(f->0, g->0, d + 8 * speck())
        }),
{
    lemma_sizes();
    let same = t1 == t2;
    lemma_normal_back(calc, c1, c2, r, same, first);
    lemma_line_back(calc, c1, c2, r, same, first);
    let n1 = normal(calc, c1, c2, r, same, first);
    let n2 = far_normal(n1, same);
    let m1 = normal(calc, c2, c1, r, same, tangent_back(t1, t2, first));
    let m2 = far_normal(m1, same);
    let u = line(c1, c2, r, n1, n2);
    let w = line(c2, c1, r, m1, m2);
    let (t, v) = (image(calc, Calc::Atan2(u.1, u.0)), image(calc, Calc::Atan2(w.1, w.0)));
    assert(twin_spots(u, w, true));
    let (phi_a, phi_b) = (
        image(calc, Calc::Atan2(n1.1, n1.0)),
        image(calc, Calc::Atan2(n2.1, n2.0)),
    );
    let (psi_a, psi_b) = (
        image(calc, Calc::Atan2(m1.1, m1.0)),
        image(calc, Calc::Atan2(m2.1, m2.0)),
    );
    assert(twin_spots(n2, m1, false) && twin_spots(n1, m2, false));
    lemma_twin_opposite(n1.0, n1.0, false);
    lemma_twin_opposite(n1.1, n1.1, false);
    lemma_head_back(phi_b, psi_a, t, v, t2);
    lemma_head_back(phi_a, psi_b, t, v, t1);
    lemma_arc_back(th0, back0, t, v, t1, d);
    lemma_arc_back(th1, back1, t, v, t2, d);
}

/// A radius times some turns.
pub proof fn lemma_arc_length(r: Scalar, a: Scalar, y: nat)
    requires
        is_bound(y),
        r.finite() && a.finite(),
        0 <= r.value(),
        0 <= a.value(),
        r.value() * a.value() <= pow2(y) * pow2(1074),
    ensures
        (r * a).finite(),
        0 <= (r * a).value() <= pow2(y),
        apart((r * a).value() * pow2(1074), r.value() * a.value(), pow2(1074) * grain(y)),
{
    reveal(Scalar::times);
    lemma_scale(y);
    lemma_pow2_pos(1074);
    lemma_absolute_value(r);
    lemma_absolute_value(a);
    assert(magnitude_value(0) == 0);
    let (one, g) = (pow2(1074) as int, grain(y));
    let n = r.value() * a.value();
    assert(n >= 0) by (nonlinear_arith)
        requires
            n == r.value() * a.value(),
            r.value() >= 0,
            a.value() >= 0,
    ;
    lemma_power_pattern(y - 52);
    lemma_at_most(n, one, power_pattern(y - 52));
    lemma_rounding(n, one);
    lemma_nearest_exists(n, one);
    let m = nearest(n, one);
    let negative = r.negative() != a.negative();
    lemma_signed_value(r * a, negative, m);
    let x = magnitude_value(m);
    if negative {
        assert(n == 0) by (nonlinear_arith)
            requires
                n == r.value() * a.value(),
                r.value() == 0 || a.value() == 0,
        ;
        assert(0 * one == 0);
        lemma_at_most(0, one, 0);
        assert((r * a).value() == 0);
    }
    let off = x * one - n;
    assert(-(one * g) <= off && off <= one * g) by (nonlinear_arith)
        requires
            -(n + one * 0x10_0000_0000_0000) <= off * 0x10_0000_0000_0000,
            off * 0x10_0000_0000_0000 <= n + one * 0x10_0000_0000_0000,
            0 <= n <= (0x4_0000_0000_0000 * g) * one,
            one > 0,
            g >= 0x10_0000 * 0x10_0000_0000_0000,
    ;
}

/// How far the lengths of the two ways may be apart, in square units of 2^-1074.
pub open spec fn length_slack(r: Scalar, d: int, z: nat) -> int {
    r.value() * (2 * d + 20 * speck()) + 4 * (pow2(1074) * grain(z + 4))
}

/// The way back is as long.
proof fn lemma_as_long(f: DubinsPath, g: DubinsPath, d: int, z: nat)
    requires
        turnable(f.r, z) && z <= 2080,
        flown_back(f, g, d + 8 * speck()),
        0 <= d <= pow2(1074),
        clear_arc(f.a1, d) && clear_arc(f.a2, d),
        f.straight.finite() && 0 <= f.straight.value() <= pow2(z + 4),
    ensures
        f.length().finite() && g.length().finite(),
        apart(
            f.length().value() * pow2(1074),
            g.length().value() * pow2(1074),
            length_slack(f.r, d, z),
        ),
{
    lemma_sizes();
    lemma_count(0);
    assert(whole(0).value() == 0) by {
        assert(units(0) == 0) by (nonlinear_arith)
            requires
                units(0) == 0 * pow2(1074),
        ;
    }
    lemma_angle_sum(f.a1, f.a2);
    lemma_angle_sum(f.a1 + f.a2, whole(0));
    lemma_angle_sum(g.a1, g.a2);
    lemma_angle_sum(g.a1 + g.a2, whole(0));
    let (a, b) = (f.a1 + f.a2 + whole(0), g.a1 + g.a2 + whole(0));
    let (one, r, e) = (pow2(1074) as int, f.r.value(), speck());
    let y = z + 4;
    lemma2_to64();
    lemma_pow2_adds(4, z);
    lemma_scale(y);
    let top = pow2(z) as int;
    assert(0 <= a.value() <= 16 * one) by {
        lemma_not_below_none(f.a1, f.a2, whole(0));
    }
    assert(0 <= b.value() <= 16 * one) by {
        lemma_not_below_none(g.a1, g.a2, whole(0));
    }
    let (av, bv) = (a.value(), b.value());
    let (ra, rb) = (r * av, r * bv);
    assert(ra <= (16 * top) * one && rb <= (16 * top) * one) by (nonlinear_arith)
        requires
            ra == r * av,
            rb == r * bv,
            0 <= av <= 16 * one,
            0 <= bv <= 16 * one,
            0 <= r <= top,
            one > 0,
    ;
    lemma_arc_length(f.r, a, y);
    lemma_arc_length(f.r, b, y);
    lemma_place_sum(f.r * a, f.straight, y);
    lemma_place_sum(f.r * b, f.straight, y);
    let g1 = grain(y);
    let (x, w, st) = ((f.r * a).value(), (f.r * b).value(), f.straight.value());
    let (lf, lg) = (f.length().value(), g.length().value());
    let k = 2 * d + 20 * e;
    assert(apart(lf * one, lg * one, r * k + 4 * (one * g1))) by (nonlinear_arith)
        requires
            apart(lf * one, lg * one, r * k + 4 * (one * g1)) == (-(r * k + 4 * (one * g1)) <= lf
                * one - lg * one && lf * one - lg * one <= r * k + 4 * (one * g1)),
            -g1 <= lf - (x + st) <= g1,
            -g1 <= lg - (w + st) <= g1,
            -(one * g1) <= x * one - r * av <= one * g1,
            -(one * g1) <= w * one - r * bv <= one * g1,
            -k <= av - bv <= k,
            r > 0,
            one > 0,
    ;
}

/// Angles that are not negative have no negative sum.
proof fn lemma_not_below_none(a: Scalar, b: Scalar, n: Scalar)
    requires
        a.finite() && b.finite() && n.finite(),
        0 <= a.value() <= 7 * pow2(1074),
        0 <= b.value() <= 7 * pow2(1074),
        n.value() == 0,
    ensures
        (a + b).value() >= 0,
        (a + b + n).value() >= 0,
{
    reveal(Scalar::plus);
    assert(magnitude_value(0) == 0);
    lemma_angle_sum(a, b);
    let v = a.value() + b.value();
    if v != 0 {
        lemma_nearest_exists(v, 1);
        lemma_signed_value(a + b, false, nearest(v, 1));
    }
    lemma_sizes();
    lemma_angle_sum(a + b, n);
    let w = (a + b).value();
    if w != 0 {
        lemma_nearest_exists(w, 1);
        lemma_signed_value(a + b + n, false, nearest(w, 1));
    }
}

/// Whether all paths of two arcs and a line are firm.
pub open spec fn all_firm<C: Fn(Calc) -> Scalar>(
    calc: C,
    p0: Spot,
    th0: Scalar,
    p1: Spot,
    th1: Scalar,
    r: Scalar,
    d: int,
    z: nat,
    slack: int,
) -> bool {
    forall|t1: Turn, t2: Turn, first: bool| #[trigger]
        firm(calc, p0, th0, p1, th1, r, t1, t2, first, d, z, slack)
}

/// A path that is found has a straight part.
proof fn lemma_straight<C: Fn(Calc) -> Scalar>(
    calc: C,
    c1: Spot,
    c2: Spot,
    th0: Scalar,
    th1: Scalar,
    r: Scalar,
    t1: Turn,
    t2: Turn,
    first: bool,
)
    requires
        csc_on(calc, c1, c2, th0, th1, r, t1, t2, first) is Some,
        csc_on(calc, c1, c2, th0, th1, r, t1, t2, first)->0.straight.finite(),
    ensures
        csc_on(calc, c1, c2, th0, th1, r, t1, t2, first)->0.straight.value() >= 0,
{
    reveal(Scalar::over);
    lemma_counted(1);
    lemma_counted(1_000_000_000);
    lemma_pow2_pos(1074);
    let (a, b, one) = (whole(1).value(), whole(1_000_000_000).value(), pow2(1074) as int);
    let n = absolute(a) * one;
    assert(n >= 0) by (nonlinear_arith)
        requires
            n == absolute(a) * one,
            absolute(a) >= 0,
            one >= 0,
    ;
    lemma_nearest_exists(n, absolute(b));
    let m = nearest(n, absolute(b));
    assert(magnitude_value(0) == 0);
    if m > 0 {
        lemma_magnitude_monotone(0, m);
    }
    let eps = frac(1, 1_000_000_000);
    assert(eps == signed(false, m));
    assert(eps.value() >= 0);
    assert(!eps.nan());
}

/// How far the lengths of the two ways may be apart, in square units of 2^-1074.
pub open spec fn ways_slack(r: Scalar, d: int, z: nat, slack: int) -> int {
    slack + length_slack(r, d, z)
}

/// A path there, and the one back.
proof fn lemma_there_and_back<C: Fn(Calc) -> Scalar>(
    calc: C,
    p0: Spot,
    th0: Scalar,
    back0: Scalar,
    p1: Spot,
    th1: Scalar,
    back1: Scalar,
    r: Scalar,
    t1: Turn,
    t2: Turn,
    first: bool,
    d: int,
    z: nat,
    slack: int,
)
    requires
        true_circle(calc) && true_opposite(calc),
        moderate_pose(p0, th0, z) && moderate_pose(p0, back0, z),
        moderate_pose(p1, th1, z) && moderate_pose(p1, back1, z),
        turnable(r, z) && z <= 2080,
        half_turn(th0, back0, d) && half_turn(th1, back1, d),
        d <= pow2(1074),
        all_firm(calc, p0, th0, p1, th1, r, d, z, slack),
    ensures
        as_long(
            csc_path(calc, p0, th0, p1, th1, r, t1, t2, first),
            csc_path(
                calc,
                p1,
                back1,
                p0,
                back0,
                r,
                other_turn(t2),
                other_turn(t1),
                tangent_back(t1, t2, first),
            ),
            ways_slack(r, d, z, slack),
        ),
{
    assert(firm(calc, p0, th0, p1, th1, r, t1, t2, first, d, z, slack));
    let e1 = turn_center(calc, p0, back0, other_turn(t1), r);
    let e2 = turn_center(calc, p1, back1, other_turn(t2), r);
    law_way_back_turns_on_the_same_circle(calc, p0, th0, back0, t1, r, d, z);
    law_way_back_turns_on_the_same_circle(calc, p1, th1, back1, t2, r, d, z);
    assert(steady(calc, e1, e2, th0, th1, r, t1, t2, first, d, z));
    lemma_on_circles(calc, p0, th0, p1, th1, r, t1, t2, first);
    let (u1, u2, last) = (other_turn(t2), other_turn(t1), tangent_back(t1, t2, first));
    lemma_on_circles(calc, p1, back1, p0, back0, r, u1, u2, last);
    lemma_candidate_back(calc, e1, e2, th0, back0, th1, back1, r, t1, t2, first, d, z);
    let f = csc_on(calc, e1, e2, th0, th1, r, t1, t2, first);
    if f is Some {
        let g = csc_on(calc, e2, e1, back1, back0, r, u1, u2, last);
        lemma_straight(calc, e1, e2, th0, th1, r, t1, t2, first);
        lemma_as_long(f->0, g->0, d, z);
    }
}

/// Whether a path is not longer than another, but for some slack.
pub open spec fn no_longer(f: DubinsPath, g: DubinsPath, slack: int) -> bool {
    g.length().finite() && (f.length().finite() ==> f.length().value() * pow2(1074)
        <= g.length().value() * pow2(1074) + slack)
}

/// What is not longer than one path is not much longer than another as long.
pub proof fn lemma_shorter_too(best: DubinsPath, x: DubinsPath, g: DubinsPath, slack: int)
    requires
        !(x.length() < best.length()),
        x.length().finite() && g.length().finite(),
        apart(g.length().value() * pow2(1074), x.length().value() * pow2(1074), slack),
    ensures
        no_longer(best, g, slack),
{
    let (b, v, one) = (best.length().value(), x.length().value(), pow2(1074) as int);
    if best.length().finite() {
        assert(b * one <= v * one) by (nonlinear_arith)
            requires
                b <= v,
                one >= 0,
        ;
    }
}

#[verifier::spinoff_prover]
#[verifier::rlimit(60)]
proof fn lemma_back_no_longer<C: Fn(Calc) -> Scalar>(
    calc: C,
    p0: Spot,
    th0: Scalar,
    back0: Scalar,
    p1: Spot,
    th1: Scalar,
    back1: Scalar,
    r: Scalar,
    d: int,
    z: nat,
    slack: int,
)
    requires
        true_circle(calc) && true_opposite(calc),
        moderate_pose(p0, th0, z) && moderate_pose(p0, back0, z),
        moderate_pose(p1, th1, z) && moderate_pose(p1, back1, z),
        turnable(r, z) && z <= 2080,
        half_turn(th0, back0, d) && half_turn(th1, back1, d),
        d <= pow2(1074),
        all_firm(calc, p0, th0, p1, th1, r, d, z, slack),
        best_csc(calc, p0, th0, p1, th1, r) is Some,
    ensures
        best_csc(calc, p1, back1, p0, back0, r) is Some,
        no_longer(
            best_csc(calc, p1, back1, p0, back0, r)->0,
            best_csc(calc, p0, th0, p1, th1, r)->0,
            ways_slack(r, d, z, slack),
        ),
{
    let k = lemma_csc_choice(calc, p0, th0, p1, th1, r);
    lemma_there_and_back(calc, p0, th0, back0, p1, th1, back1, r, k.0, k.1, k.2, d, z, slack);
    let (t1, t2) = (other_turn(k.1), other_turn(k.0));
    let first = tangent_back(k.0, k.1, k.2);
    law_chosen_path_is_shortest(calc, p1, back1, p0, back0, r, t1, t2, first);
    lemma_shorter_too(
        best_csc(calc, p1, back1, p0, back0, r)->0,
        csc_path(calc, p1, back1, p0, back0, r, t1, t2, first)->0,
        best_csc(calc, p0, th0, p1, th1, r)->0,
        ways_slack(r, d, z, slack),
    );
}

#[verifier::spinoff_prover]
#[verifier::rlimit(60)]
proof fn lemma_there_no_longer<C: Fn(Calc) -> Scalar>(
    calc: C,
    p0: Spot,
    th0: Scalar,
    back0: Scalar,
    p1: Spot,
    th1: Scalar,
    back1: Scalar,
    r: Scalar,
    d: int,
    z: nat,
    slack: int,
)
    requires
        true_circle(calc) && true_opposite(calc),
        moderate_pose(p0, th0, z) && moderate_pose(p0, back0, z),
        moderate_pose(p1, th1, z) && moderate_pose(p1, back1, z),
        turnable(r, z) && z <= 2080,
        half_turn(th0, back0, d) && half_turn(th1, back1, d),
        d <= pow2(1074),
        all_firm(calc, p0, th0, p1, th1, r, d, z, slack),
        best_csc(calc, p1, back1, p0, back0, r) is Some,
    ensures
        best_csc(calc, p0, th0, p1, th1, r) is Some,
        no_longer(
            best_csc(calc, p0, th0, p1, th1, r)->0,
            best_csc(calc, p1, back1, p0, back0, r)->0,
            ways_slack(r, d, z, slack),
        ),
{
    let k = lemma_csc_choice(calc, p1, back1, p0, back0, r);
    let (t1, t2) = (other_turn(k.1), other_turn(k.0));
    let first = tangent_back(k.0, k.1, k.2);
    assert(other_turn(t1) == k.1 && other_turn(t2) == k.0);
    assert(tangent_back(t1, t2, first) == k.2);
    lemma_there_and_back(calc, p0, th0, back0, p1, th1, back1, r, t1, t2, first, d, z, slack);
    law_chosen_path_is_shortest(calc, p0, th0, p1, th1, r, t1, t2, first);
    lemma_shorter_too(
        best_csc(calc, p0, th0, p1, th1, r)->0,
        csc_path(calc, p0, th0, p1, th1, r, t1, t2, first)->0,
        best_csc(calc, p1, back1, p0, back0, r)->0,
        ways_slack(r, d, z, slack),
    );
}

/// The way back, with half a turn between the headings of each end: there is a path of
/// two arcs and a line if and only if there is one for the way there, and the shortest
/// of them are as long as each other, but for the part of the radius by which the half
/// turns are off, for rounding, and for what a shift of the turning circles by so little
/// makes of the length of a path. No path may be so near to the limits of its tangents
/// and arcs that such a shift, or rounding, could tip it.
#[verifier::spinoff_prover]
pub proof fn law_way_back_is_as_long<C: Fn(Calc) -> Scalar>(
    calc: C,
    p0: Spot,
    th0: Scalar,
    back0: Scalar,
    p1: Spot,
    th1: Scalar,
    back1: Scalar,
    r: Scalar,
    d: int,
    z: nat,
    slack: int,
)
    requires
        true_circle(calc) && true_opposite(calc),
        moderate_pose(p0, th0, z) && moderate_pose(p0, back0, z),
        moderate_pose(p1, th1, z) && moderate_pose(p1, back1, z),
        turnable(r, z) && z <= 2080,
        half_turn(th0, back0, d) && half_turn(th1, back1, d),
        d <= pow2(1074),
        all_firm(calc, p0, th0, p1, th1, r, d, z, slack),
    ensures
        as_long(
            best_csc(calc, p0, th0, p1, th1, r),
            best_csc(calc, p1, back1, p0, back0, r),
            ways_slack(r, d, z, slack),
        ),
{
    if best_csc(calc, p0, th0, p1, th1, r) is Some {
        lemma_back_no_longer(calc, p0, th0, back0, p1, th1, back1, r, d, z, slack);
    }
    if best_csc(calc, p1, back1, p0, back0, r) is Some {
        lemma_there_no_longer(calc, p0, th0, back0, p1, th1, back1, r, d, z, slack);
    }
}

} // verus!
