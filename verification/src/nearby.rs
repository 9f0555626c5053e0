//! The distance of a point from a segment is the smallest to any place on it.

use crate::crossing::lemma_sign;
use crate::exact::{about, far, lemma_add, lemma_least, lemma_order, lemma_sub, num, size};
use crate::geometry::{foot_fraction, plane_distance};
use crate::numeric::whole;
use crate::plane::{lemma_hypotenuse, lemma_square_near, lemma_square_sign};
use crate::ring::{
    lemma_bound, lemma_is, lemma_minus, lemma_plus, lemma_product, lemma_quotient, lemma_swap,
    lemma_turn, prod,
};
use crate::scalar::Scalar;
use crate::values::lemma_num_whole;
use vstd::prelude::*;

verus! {

/// The square of the distance from `w` of the place at the share `t` of the way from the
/// origin to `v`.
pub open spec fn square_to(wx: real, wy: real, vx: real, vy: real, t: real) -> real {
    let (x, y) = (wx - prod(t, vx), wy - prod(t, vy));
    prod(x, x) + prod(y, y)
}

/// The square of a difference.
proof fn lemma_square_of_difference(a: real, u: real)
    ensures
        prod(a - u, a - u) == prod(a, a) - 2real * prod(a, u) + prod(u, u),
{
    lemma_minus(a - u, a, u);
    lemma_turn(a - u, a);
    lemma_turn(a - u, u);
    lemma_minus(a, a, u);
    lemma_minus(u, a, u);
    lemma_turn(u, a);
}

/// What a step along the segment adds to the square of the distance.
#[verifier::rlimit(50)]
proof fn lemma_step_along(wx: real, wy: real, vx: real, vy: real, t: real, to: real)
    ensures
        ({
            let dot = prod(wx, vx) + prod(wy, vy);
            let len = prod(vx, vx) + prod(vy, vy);
            square_to(wx, wy, vx, vy, to) >= square_to(wx, wy, vx, vy, t) - 2real * prod(
                to - t,
                dot - prod(t, len),
            )
        }),
{
    let d = to - t;
    let (a, b) = (wx - prod(t, vx), wy - prod(t, vy));
    let (u, w) = (prod(d, vx), prod(d, vy));
    lemma_turn(d, vx);
    lemma_turn(d, vy);
    lemma_minus(vx, to, t);
    lemma_minus(vy, to, t);
    lemma_turn(vx, to);
    lemma_turn(vx, t);
    lemma_turn(vy, to);
    lemma_turn(vy, t);
    assert(wx - prod(to, vx) == a - u && wy - prod(to, vy) == b - w);
    lemma_square_of_difference(a, u);
    lemma_square_of_difference(b, w);
    lemma_square_sign(u);
    lemma_square_sign(w);
    lemma_swap(a, d, vx);
    lemma_swap(b, d, vy);
    // prod(a, vx) + prod(b, vy) == dot - t len.
    lemma_turn(a, vx);
    lemma_turn(b, vy);
    lemma_minus(vx, wx, prod(t, vx));
    lemma_minus(vy, wy, prod(t, vy));
    lemma_swap(vx, t, vx);
    lemma_swap(vy, t, vy);
    lemma_turn(vx, wx);
    lemma_turn(vy, wy);
    lemma_plus(t, prod(vx, vx), prod(vy, vy));
    lemma_plus(d, prod(a, vx), prod(b, vy));
}

/// A product of two numbers that are nearly known.
#[verifier::rlimit(50)]
pub proof fn lemma_near_pair(a: Scalar, b: Scalar, x: real, y: real)
    requires
        a.finite() && b.finite(),
        size(x) <= 700real && size(y) <= 700real,
        about(num(a), x, 1real / 5000000000000real),
        about(num(b), y, 1real / 5000000000000real),
    ensures
        (a * b).finite(),
        about(num(a * b), prod(x, y), 1real / 1000000000real),
        size(prod(x, y)) <= 490000real,
{
    lemma_least();
    let e = 1real / 5000000000000real;
    lemma_bound(num(b), num(a) - x, 701real, e);
    lemma_bound(x, num(b) - y, 700real, e);
    lemma_is(701real, e);
    lemma_is(700real, e);
    lemma_minus(num(b), num(a), x);
    lemma_minus(x, num(b), y);
    lemma_turn(num(b), num(a));
    lemma_turn(num(b), x);
    lemma_bound(x, y, 700real, 700real);
    lemma_is(700real, 700real);
    lemma_product(a, b);
}

/// Whether a number is one of kilometres on the map.
pub open spec fn on_map(x: Scalar) -> bool {
    x.finite() && size(num(x)) <= 50000real
}

/// A difference of two numbers that are not far apart.
pub proof fn lemma_gap(a: Scalar, b: Scalar)
    requires
        on_map(a) && on_map(b),
        size(num(a) - num(b)) <= 700real,
    ensures
        (a - b).finite(),
        about(num(a - b), num(a) - num(b), 1real / 5000000000000real),
        about(
            num(a - b),
            num(a) - num(b),
            size(num(a) - num(b)) / 100000000000000real + 1real / 100000000000000000000real,
        ),
{
    lemma_least();
    lemma_sub(a, b);
}

/// The foot of the perpendicular: how far the derivative there is from nothing.
#[verifier::rlimit(50)]
proof fn lemma_foot(wx: Scalar, wy: Scalar, vx: Scalar, vy: Scalar, w0: real, w1: real, v0: real, v1: real)
    requires
        wx.finite() && wy.finite() && vx.finite() && vy.finite(),
        size(w0) <= 700real && size(w1) <= 700real && size(v0) <= 700real && size(v1) <= 700real,
        about(num(wx), w0, 1real / 5000000000000real),
        about(num(wy), w1, 1real / 5000000000000real),
        about(num(vx), v0, 1real / 5000000000000real),
        about(num(vy), v1, 1real / 5000000000000real),
        about(num(vx), v0, size(v0) / 100000000000000real + 1real / 100000000000000000000real),
        about(num(vy), v1, size(v1) / 100000000000000real + 1real / 100000000000000000000real),
        prod(v0, v0) + prod(v1, v1) >= 1real / 10000000000real,
    ensures
        ({
            let t = foot_fraction(wx, wy, vx, vy);
            let dot = prod(w0, v0) + prod(w1, v1);
            let len = prod(v0, v0) + prod(v1, v1);
            let slope = dot - prod(num(t), len);
            &&& t.finite()
            &&& 0real <= num(t) <= 1real
            &&& num(t) > 0real ==> slope >= -1real / 10000000real
            &&& num(t) < 1real ==> slope <= 1real / 10000000real
        }),
{
    lemma_least();
    lemma_near_pair(wx, vx, w0, v0);
    lemma_near_pair(wy, vy, w1, v1);
    lemma_near_pair(vx, vx, v0, v0);
    lemma_near_pair(vy, vy, v1, v1);
    lemma_square_near(vx, v0);
    lemma_square_near(vy, v1);
    lemma_square_sign(v0);
    lemma_square_sign(v1);
    let (l2, dp) = (vx * vx + vy * vy, wx * vx + wy * vy);
    lemma_add(vx * vx, vy * vy);
    lemma_add(wx * vx, wy * vy);
    let dot = prod(w0, v0) + prod(w1, v1);
    let len = prod(v0, v0) + prod(v1, v1);
    assert(about(num(l2), len, 1real / 100000000real));
    assert(about(num(dp), dot, 1real / 100000000real));
    let small = 1real / 100000000000real;
    assert(num(l2) >= small);
    lemma_num_whole(0);
    lemma_num_whole(1);
    lemma_order(whole(0), l2);
    lemma_is(far(), small);
    lemma_quotient(dp, l2, small);
    let q = dp / l2;
    let qn = num(q);
    lemma_order(q, whole(0));
    lemma_order(whole(1), q);
    let t = foot_fraction(wx, wy, vx, vy);
    let tn = num(t);
    lemma_foot_share(qn, num(l2), num(dp), tn, len, dot);
}

/// The share that is taken, by the equation that it solves.
proof fn lemma_foot_share(q: real, l2: real, dp: real, t: real, len: real, dot: real)
    requires
        l2 > 0real,
        about(prod(q, l2), dp, 1real / 1000000000real),
        about(l2, len, 1real / 100000000real),
        about(dp, dot, 1real / 100000000real),
        t == (if q < 0real {
            0real
        } else if q > 1real {
            1real
        } else {
            q
        }),
    ensures
        t > 0real ==> dot - prod(t, len) >= -1real / 10000000real,
        t < 1real ==> dot - prod(t, len) <= 1real / 10000000real,
{
    let e = 1real / 100000000real;
    lemma_bound(t, len - l2, 1real, e);
    lemma_is(1real, e);
    lemma_minus(t, len, l2);
    lemma_sign(q - 1real, l2);
    lemma_turn(q - 1real, l2);
    lemma_minus(l2, q, 1real);
    lemma_turn(l2, q);
    lemma_is(l2, 1real);
    lemma_is(1real, l2);
    lemma_is(0real, l2);
    lemma_sign(q, l2);
    lemma_sign(0real, l2);
}

/// A share of a side that is nearly known.
proof fn lemma_shared_side(t: Scalar, v: Scalar, v0: real)
    requires
        t.finite() && v.finite(),
        0real <= num(t) <= 1real,
        size(v0) <= 700real,
        about(num(v), v0, 1real / 5000000000000real),
    ensures
        (t * v).finite(),
        about(num(t * v), prod(num(t), v0), 1real / 1000000000000real),
        size(prod(num(t), v0)) <= 700real,
{
    lemma_least();
    let e = 1real / 5000000000000real;
    lemma_bound(num(t), num(v) - v0, 1real, e);
    lemma_is(1real, e);
    lemma_minus(num(t), num(v), v0);
    lemma_bound(num(t), v0, 1real, 700real);
    lemma_is(1real, 700real);
    lemma_product(t, v);
}

/// A sum and a difference on the map.
proof fn lemma_sum_on_map(a: Scalar, b: Scalar)
    requires
        a.finite() && b.finite(),
        size(num(a) + num(b)) <= 60000real,
    ensures
        (a + b).finite(),
        about(num(a + b), num(a) + num(b), 1real / 50000000000real),
{
    lemma_least();
    lemma_add(a, b);
}

proof fn lemma_difference_on_map(a: Scalar, b: Scalar)
    requires
        a.finite() && b.finite(),
        size(num(a) - num(b)) <= 60000real,
    ensures
        (a - b).finite(),
        about(num(a - b), num(a) - num(b), 1real / 50000000000real),
{
    lemma_least();
    lemma_sub(a, b);
}

/// A coordinate of the way from the foot to the point.
proof fn lemma_rest(p: Scalar, a: Scalar, t: Scalar, v: Scalar, v0: real)
    requires
        on_map(p) && on_map(a),
        t.finite() && v.finite(),
        0real <= num(t) <= 1real,
        size(v0) <= 700real,
        size(num(p) - num(a)) <= 700real,
        about(num(v), v0, 1real / 5000000000000real),
    ensures
        (p - (a + t * v)).finite(),
        about(
            num(p - (a + t * v)),
            num(p) - num(a) - prod(num(t), v0),
            1real / 10000000000real,
        ),
        size(num(p) - num(a) - prod(num(t), v0)) <= 1400real,
{
    lemma_shared_side(t, v, v0);
    lemma_sum_on_map(a, t * v);
    lemma_difference_on_map(p, a + t * v);
}

/// The square of a number that is nearly known.
proof fn lemma_square_off(x: real, y: real)
    requires
        about(x, y, 1real / 10000000000real),
        size(y) <= 1400real,
    ensures
        about(prod(x, x), prod(y, y), 1real / 1000000real),
{
    let e = 1real / 10000000000real;
    lemma_bound(x, x - y, 1401real, e);
    lemma_bound(y, x - y, 1400real, e);
    lemma_is(1401real, e);
    lemma_is(1400real, e);
    lemma_minus(x, x, y);
    lemma_minus(y, x, y);
    lemma_turn(x, y);
}

/// The distance of a point from a segment is the smallest from the point to any place on
/// the segment, and is the distance to one of them; by the squares, but for 2e-5.
#[verifier::rlimit(50)]
pub proof fn law_distance_from_segment(
    px: Scalar,
    py: Scalar,
    ax: Scalar,
    ay: Scalar,
    bx: Scalar,
    by: Scalar,
    any: real,
) -> (foot: real)
    requires
        on_map(px) && on_map(py) && on_map(ax) && on_map(ay) && on_map(bx) && on_map(by),
        size(num(px) - num(ax)) <= 700real && size(num(py) - num(ay)) <= 700real,
        size(num(bx) - num(ax)) <= 700real && size(num(by) - num(ay)) <= 700real,
        ({
            let (vx, vy) = (num(bx) - num(ax), num(by) - num(ay));
            prod(vx, vx) + prod(vy, vy) >= 1real / 10000000000real
        }),
        0real <= any <= 1real,
    ensures
        0real <= foot <= 1real,
        ({
            let d = plane_distance(px, py, ax, ay, bx, by);
            let r = num(d);
            let (wx, wy) = (num(px) - num(ax), num(py) - num(ay));
            let (vx, vy) = (num(bx) - num(ax), num(by) - num(ay));
            &&& d.finite() && r >= 0real
            &&& prod(r, r) <= square_to(wx, wy, vx, vy, any) + 1real / 50000real
            &&& about(prod(r, r), square_to(wx, wy, vx, vy, foot), 1real / 50000real)
        }),
{
    let (sx, sy) = (bx - ax, by - ay);
    let (wx, wy) = (num(px) - num(ax), num(py) - num(ay));
    let (vx, vy) = (num(bx) - num(ax), num(by) - num(ay));
    lemma_gap(bx, ax);
    lemma_gap(by, ay);
    lemma_gap(px, ax);
    lemma_gap(py, ay);
    lemma_foot(px - ax, py - ay, sx, sy, wx, wy, vx, vy);
    let t = foot_fraction(px - ax, py - ay, sx, sy);
    let tn = num(t);
    lemma_rest(px, ax, t, sx, vx);
    lemma_rest(py, ay, t, sy, vy);
    let (x, y) = (px - (ax + t * sx), py - (ay + t * sy));
    lemma_hypotenuse(x, y, num(x), num(y));
    lemma_square_off(num(x), wx - prod(tn, vx));
    lemma_square_off(num(y), wy - prod(tn, vy));
    lemma_bound(num(x), num(x), 1401real, 1401real);
    lemma_bound(num(y), num(y), 1401real, 1401real);
    lemma_is(1401real, 1401real);
    lemma_step_along(wx, wy, vx, vy, tn, any);
    let slope = prod(wx, vx) + prod(wy, vy) - prod(tn, prod(vx, vx) + prod(vy, vy));
    lemma_no_gain(any - tn, slope, tn, any);
    tn
}

/// A step away from the foot gains nothing.
proof fn lemma_no_gain(d: real, slope: real, t: real, to: real)
    requires
        d == to - t,
        0real <= t <= 1real,
        0real <= to <= 1real,
        t > 0real ==> slope >= -1real / 10000000real,
        t < 1real ==> slope <= 1real / 10000000real,
    ensures
        prod(d, slope) <= 1real / 10000000real,
{
    lemma_sign(d, slope);
    let e = 1real / 10000000real;
    if size(slope) <= e {
        lemma_bound(d, slope, 1real, e);
        lemma_is(1real, e);
    }
}

} // verus!
