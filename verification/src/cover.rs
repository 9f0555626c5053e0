//! A convex hull covers the points that it was made of, whatever they are, but for
//! rounding.

use crate::arith::absolute;
use crate::cell::{lemma_count, lemma_rounding, lemma_sum};
use crate::convex::{behind, cross, hull_of, in_order, same_points, side_chain, trimmed};
use crate::ends::{grain, is_bound, lemma_absolute_value, lemma_scale, lemma_signed_value, within};
use crate::geometry::Vertex;
use crate::hull::{
    area, ceiling, key, lemma_ceiling, lemma_no_difference, lemma_point_found, lemma_rising,
    lemma_same_place, lemma_three, plain, plain_points, rising,
};
use crate::margin::{lemma_power_pattern, power_pattern};
use crate::meridian::lemma_product;
use crate::numeric::whole;
use crate::rounding::{lemma_nearest_exists, nearest};
use crate::scalar::{lemma_magnitude_monotone, magnitude_value, units, Scalar};
use vstd::arithmetic::power2::{
    lemma2_to64, lemma2_to64_rest, lemma_pow2_adds, lemma_pow2_pos, pow2,
};
use vstd::prelude::*;

verus! {

/// Whether a number is a whole multiple of 2^-400, as every number of at least 2^-347 is.
pub open spec fn even(x: Scalar) -> bool {
    exists|i: int| x.value() == #[trigger] steps(i)
}

/// Some steps of 2^-400, in units of 2^-1074.
pub open spec fn steps(i: int) -> int {
    i * pow2(674)
}

/// Whether the coordinates of a point are within a bound, and no finer than 2^-400.
pub open spec fn fair(p: Vertex, z: nat) -> bool {
    within(p[0], z) && within(p[1], z) && even(p[0]) && even(p[1])
}

pub open spec fn all_fair(points: Seq<Vertex>, z: nat) -> bool {
    forall|i: int| 0 <= i < points.len() ==> fair(#[trigger] points[i], z)
}

/// What one corner that is cut off takes from the points, for each step along the hull.
pub open spec fn shaving(z: nat) -> int {
    20 * grain(z)
}

/// More than any coordinate.
pub open spec fn wide() -> int {
    2 * ceiling() + 1
}

/// A difference of two numbers.
proof fn lemma_difference(a: Scalar, b: Scalar, z: nat)
    requires
        is_bound(z),
        within(a, z) && within(b, z),
        even(a) && even(b),
    ensures
        ({
            let v = a.value() - b.value();
            let off = (a - b).value() - v;
            &&& (a - b).finite()
            &&& -2 * pow2(z) <= v <= 2 * pow2(z)
            &&& v == 0 || absolute(v) >= pow2(674)
            &&& absolute(off) * 0x8_0000_0000_0000 <= absolute(v)
        }),
{
    let c = b.opposite();
    assert(c.magnitude_bits() == b.magnitude_bits());
    let (i, j) = (
        choose|i: int| a.value() == #[trigger] steps(i),
        choose|j: int| b.value() == #[trigger] steps(j),
    );
    let (v, g) = (a.value() - b.value(), pow2(674) as int);
    lemma_pow2_pos(674);
    assert(v == (i - j) * g) by (nonlinear_arith)
        requires
            v == i * g - j * g,
    ;
    assert(v == 0 || v >= g || v <= -g) by (nonlinear_arith)
        requires
            v == (i - j) * g,
            g > 0,
    ;
    lemma_power_pattern(z - 50);
    lemma_pow2_adds(2, z);
    lemma2_to64();
    lemma_pow2_pos(z);
    lemma_sum(a, c, power_pattern(z - 50));
    if v == 0 {
        lemma_no_difference(a, b);
    } else {
        lemma2_to64_rest();
        lemma_pow2_adds(60, 614);
        lemma_pow2_pos(614);
        assert(pow2(60) == 0x1000_0000_0000_0000);
        let w = pow2(614) as int;
        assert(g >= 0x1000_0000_0000_0000) by (nonlinear_arith)
            requires
                g == 0x1000_0000_0000_0000 * w,
                w >= 1,
        ;
    }
}

/// A product of two numbers.
proof fn lemma_rounded_product(x: Scalar, y: Scalar)
    requires
        x.finite() && y.finite(),
        (x * y).finite(),
    ensures
        ({
            let (n, off) = (
                x.value() * y.value(),
                (x * y).value() * pow2(1074) - x.value() * y.value(),
            );
            absolute(off) * 0x10_0000_0000_0000 <= absolute(n) + pow2(1074) * 0x10_0000_0000_0000
        }),
{
    reveal(Scalar::times);
    lemma_pow2_pos(1074);
    lemma_absolute_value(x);
    lemma_absolute_value(y);
    assert(magnitude_value(0) == 0);
    let (one, xv, yv) = (pow2(1074) as int, x.value(), y.value());
    let n = absolute(xv) * absolute(yv);
    let s = xv * yv;
    assert(n >= 0 && (s == n || s == -n) && absolute(s) == n) by (nonlinear_arith)
        requires
            n == absolute(xv) * absolute(yv),
            s == xv * yv,
            absolute(xv) == xv && xv >= 0 || absolute(xv) == -xv && xv < 0,
            absolute(yv) == yv && yv >= 0 || absolute(yv) == -yv && yv < 0,
            absolute(s) == s && s >= 0 || absolute(s) == -s && s < 0,
    ;
    lemma_nearest_exists(n, one);
    let m = nearest(n, one);
    let negative = x.negative() != y.negative();
    lemma_signed_value(x * y, negative, m);
    lemma_rounding(n, one);
    let (v, k) = ((x * y).value(), magnitude_value(m));
    assert(negative ==> s == -n) by (nonlinear_arith)
        requires
            s == xv * yv,
            n == absolute(xv) * absolute(yv),
            negative ==> (xv <= 0 && yv >= 0 || xv >= 0 && yv <= 0),
            absolute(xv) == xv && xv >= 0 || absolute(xv) == -xv && xv < 0,
            absolute(yv) == yv && yv >= 0 || absolute(yv) == -yv && yv < 0,
    ;
    assert(!negative ==> s == n) by (nonlinear_arith)
        requires
            s == xv * yv,
            n == absolute(xv) * absolute(yv),
            !negative ==> (xv <= 0 && yv <= 0 || xv >= 0 && yv >= 0),
            absolute(xv) == xv && xv >= 0 || absolute(xv) == -xv && xv < 0,
            absolute(yv) == yv && yv >= 0 || absolute(yv) == -yv && yv < 0,
    ;
    if negative {
        assert(v * one == -(k * one)) by (nonlinear_arith)
            requires
                v == -k,
        ;
    }
}

/// A product of two numbers that are nearly others.
proof fn lemma_near_product(x: int, y: int, u: int, v: int, m: int, one: int)
    requires
        absolute(u - x) * 0x8_0000_0000_0000 <= absolute(x),
        absolute(v - y) * 0x8_0000_0000_0000 <= absolute(y),
        absolute(m * one - u * v) * 0x10_0000_0000_0000 <= absolute(u * v) + one
            * 0x10_0000_0000_0000,
        one > 0,
    ensures
        absolute(m * one - x * y) * 0x8_0000_0000_0000 <= 4 * absolute(x * y) + one
            * 0x8_0000_0000_0000,
{
    let l: int = 0x8_0000_0000_0000;
    let (e, f) = (u - x, v - y);
    let (ax, ay, ae, af) = (absolute(x), absolute(y), absolute(e), absolute(f));
    let a = ax * ay;
    let s = x * y;
    assert(absolute(s) == a) by (nonlinear_arith)
        requires
            s == x * y,
            a == ax * ay,
            ax == x && x >= 0 || ax == -x && x < 0,
            ay == y && y >= 0 || ay == -y && y < 0,
            absolute(s) == s && s >= 0 || absolute(s) == -s && s < 0,
    ;
    let off = u * v - s;
    let (ey, xf, ef) = (e * y, x * f, e * f);
    assert(off == ey + xf + ef) by (nonlinear_arith)
        requires
            off == u * v - x * y,
            u == x + e,
            v == y + f,
            ey == e * y,
            xf == x * f,
            ef == e * f,
    ;
    lemma_share(e, y, ax, ay, l);
    lemma_share(f, x, ay, ax, l);
    assert(xf == f * x && ay * ax == a) by (nonlinear_arith)
        requires
            xf == x * f,
            a == ax * ay,
    ;
    assert(absolute(ef) * l <= a) by {
        lemma_share(e, f, ax, af, l);
        assert(ax * af <= a) by (nonlinear_arith)
            requires
                a == ax * ay,
                0 <= ax,
                af <= ay,
        ;
    }
    assert(absolute(off) * l <= 3 * a);
    assert(absolute(u * v) <= 2 * a);
}

/// A small part of a number, times another.
proof fn lemma_share(e: int, y: int, ax: int, ay: int, l: int)
    requires
        absolute(e) * l <= ax,
        absolute(y) == ay,
        l > 0,
    ensures
        absolute(e * y) * l <= ax * ay,
{
    let (ae, p) = (absolute(e), e * y);
    assert(absolute(p) == ae * ay) by (nonlinear_arith)
        requires
            p == e * y,
            ae == e && e >= 0 || ae == -e && e < 0,
            ay == y && y >= 0 || ay == -y && y < 0,
            absolute(p) == p && p >= 0 || absolute(p) == -p && p < 0,
    ;
    assert((ae * ay) * l <= ax * ay) by (nonlinear_arith)
        requires
            ae * l <= ax,
            ay >= 0,
    ;
}

/// A positive difference does not round to nothing.
proof fn lemma_no_less(x: Scalar, y: Scalar)
    requires
        x.finite() && y.finite(),
        (x - y) <= whole(0),
        whole(0).value() == 0,
    ensures
        x.value() <= y.value(),
{
    reveal(Scalar::plus);
    assert(magnitude_value(0) == 0 && magnitude_value(1) == 1);
    let c = y.opposite();
    assert(c.magnitude_bits() == y.magnitude_bits());
    let v = x.value() - y.value();
    if v > 0 {
        lemma_nearest_exists(v, 1);
        let m = nearest(v, 1);
        if m > 0 {
            lemma_magnitude_monotone(0, m);
        }
    }
}

/// Where a corner is cut off, the way round it has the corner on its left, but for
/// rounding.
proof fn lemma_cut_corner(a: Vertex, b: Vertex, p: Vertex, up: bool, z: nat)
    requires
        is_bound(z) && z <= 1580,
        fair(a, z) && fair(b, z) && fair(p, z),
        key(a, up) < key(b, up) < key(p, up),
        cross(a, b, p) <= whole(0),
    ensures
        wide() * area(a, b, p) <= shaving(z) * (key(p, up) - key(a, up)),
{
    reveal(area);
    lemma_scale(z);
    lemma_pow2_pos(1074);
    lemma_count(0);
    assert(whole(0).value() == 0) by {
        assert(units(0) == 0) by (nonlinear_arith)
            requires
                units(0) == 0 * pow2(1074),
        ;
    }
    lemma_difference(b[0], a[0], z);
    lemma_difference(p[1], a[1], z);
    lemma_difference(b[1], a[1], z);
    lemma_difference(p[0], a[0], z);
    let (x, y2) = (b[0].value() - a[0].value(), p[1].value() - a[1].value());
    let (y, x2) = (b[1].value() - a[1].value(), p[0].value() - a[0].value());
    let (xs, ys, ps, qs) = (b[0] - a[0], p[1] - a[1], b[1] - a[1], p[0] - a[0]);
    lemma_finite_products(xs, ys, z);
    lemma_finite_products(ps, qs, z);
    lemma_rounded_product(xs, ys);
    lemma_rounded_product(ps, qs);
    let one = pow2(1074) as int;
    let (m1, m2) = ((xs * ys).value(), (ps * qs).value());
    lemma_near_product(x, y2, xs.value(), ys.value(), m1, one);
    lemma_near_product(y, x2, ps.value(), qs.value(), m2, one);
    lemma_no_less(xs * ys, ps * qs);
    assert(absolute(x2) >= 4 || x2 == 0) by {
        lemma2_to64();
        lemma_pow2_adds(2, 672);
        lemma_pow2_pos(672);
    }
    lemma_widths(a, b, p, up);
    let l: int = 0x8_0000_0000_0000;
    let t = pow2(z) as int;
    let (ax, aw) = (absolute(x), absolute(x2));
    let (n1, n2) = (absolute(x * y2), absolute(y * x2));
    assert(n1 <= 2 * t * aw && n2 <= 2 * t * aw) by (nonlinear_arith)
        requires
            n1 == x * y2 || n1 == -(x * y2),
            n2 == y * x2 || n2 == -(y * x2),
            -2 * t <= y2 <= 2 * t,
            -2 * t <= y <= 2 * t,
            ax == x || ax == -x,
            aw == x2 || aw == -x2,
            0 <= ax <= aw,
    ;
    let v = area(a, b, p);
    assert((m1 - m2) * one <= 0) by (nonlinear_arith)
        requires
            m1 <= m2,
            one > 0,
    ;
    assert((m1 - m2) * one == m1 * one - m2 * one) by (nonlinear_arith);
    assert(v * l <= 4 * (n1 + n2) + 2 * (one * l));
    if x2 == 0 {
        assert(x == 0);
        assert(v == 0) by (nonlinear_arith)
            requires
                v == x * y2 - y * x2,
                x == 0,
                x2 == 0,
        ;
        lemma_scale(z);
        let k = key(p, up) - key(a, up);
        assert(shaving(z) * k >= 0 && wide() * v == 0) by (nonlinear_arith)
            requires
                shaving(z) >= 0,
                k >= 0,
                v == 0,
        ;
    } else {
        lemma2_to64();
        lemma2_to64_rest();
        lemma_pow2_adds(52, 1074);
        lemma_pow2_adds(674, 452);
        lemma_pow2_adds(452, (z - 452) as nat);
        lemma_pow2_pos((z - 452) as nat);
        assert(2 * l == pow2(52));
        let (g, h, w) = (pow2(674) as int, pow2(452) as int, pow2((z - 452) as nat) as int);
        assert(2 * (one * l) == g * h) by (nonlinear_arith)
            requires
                2 * l == pow2(52),
                pow2(1126) == pow2(52) * one,
                pow2(1126) == g * h,
        ;
        lemma_pow2_pos(452);
        lemma_pow2_pos(674);
        assert(h <= t) by (nonlinear_arith)
            requires
                t == h * w,
                w >= 1,
                h >= 0,
        ;
        assert(g * h <= aw * t) by (nonlinear_arith)
            requires
                g <= aw,
                h <= t,
                g >= 0,
                h >= 0,
        ;
        let gr = grain(z);
        let at = aw * t;
        assert(2 * t * aw == 2 * at) by (nonlinear_arith)
            requires
                at == aw * t,
        ;
        assert(v * l <= 17 * at);
        assert(at == 0x4_0000_0000_0000 * (gr * aw)) by (nonlinear_arith)
            requires
                at == aw * t,
                t == 0x4_0000_0000_0000 * gr,
        ;
        assert(v <= 9 * (gr * aw));
        let m = wide();
        let k = key(p, up) - key(a, up);
        let ga = gr * aw;
        assert(m * v <= 9 * (m * ga)) by (nonlinear_arith)
            requires
                v <= 9 * ga,
                m > 0,
        ;
        assert(m * ga <= 2 * (gr * k)) by (nonlinear_arith)
            requires
                ga == gr * aw,
                m * aw <= 2 * k,
                gr > 0,
        ;
        assert(20 * gr * k >= 18 * (gr * k)) by (nonlinear_arith)
            requires
                gr > 0,
                k > 0,
        ;
    }
}

/// How far keys are apart beside the first coordinates.
proof fn lemma_widths(a: Vertex, b: Vertex, p: Vertex, up: bool)
    requires
        a[0].finite() && a[1].finite() && b[0].finite() && b[1].finite(),
        p[0].finite() && p[1].finite(),
        key(a, up) < key(b, up) < key(p, up),
        p[0].value() == a[0].value() || absolute(p[0].value() - a[0].value()) >= 4,
    ensures
        ({
            let (x, x2) = (b[0].value() - a[0].value(), p[0].value() - a[0].value());
            &&& absolute(x) <= absolute(x2)
            &&& up ==> 0 <= x <= x2
            &&& !up ==> x2 <= x <= 0
            &&& x2 != 0 ==> wide() * absolute(x2) <= 2 * (key(p, up) - key(a, up))
            &&& wide() > 0
        }),
{
    reveal(key);
    lemma_ceiling(a[0]);
    lemma_ceiling(a[1]);
    lemma_ceiling(b[1]);
    lemma_ceiling(p[1]);
    let m = wide();
    let c = ceiling();
    let (ax, bx, px) = (a[0].value(), b[0].value(), p[0].value());
    let (ay, by, py) = (a[1].value(), b[1].value(), p[1].value());
    let (mab, mbp, map) = (m * (bx - ax), m * (px - bx), m * (px - ax));
    assert(m * bx - m * ax == mab && m * px - m * bx == mbp && m * px - m * ax == map)
        by (nonlinear_arith)
        requires
            mab == m * (bx - ax),
            mbp == m * (px - bx),
            map == m * (px - ax),
    ;
    if up {
        assert(bx - ax >= 0 && px - bx >= 0) by (nonlinear_arith)
            requires
                m * (bx - ax) + by - ay > 0,
                m * (px - bx) + py - by > 0,
                by - ay < m,
                py - by < m,
                m > 0,
        ;
        if px != ax {
            assert(map >= 4 * m) by (nonlinear_arith)
                requires
                    map == m * (px - ax),
                    px - ax >= 4,
                    m > 0,
            ;
        }
    } else {
        assert(bx - ax <= 0 && px - bx <= 0) by (nonlinear_arith)
            requires
                m * (bx - ax) + by - ay < 0,
                m * (px - bx) + py - by < 0,
                ay - by < m,
                by - py < m,
                m > 0,
        ;
        assert(m * absolute(px - ax) == -map) by (nonlinear_arith)
            requires
                map == m * (px - ax),
                absolute(px - ax) == -(px - ax),
        ;
        if px != ax {
            assert(map <= -4 * m) by (nonlinear_arith)
                requires
                    map == m * (px - ax),
                    px - ax <= -4,
                    m > 0,
            ;
        }
    }
}

proof fn lemma_finite_products(x: Scalar, y: Scalar, z: nat)
    requires
        is_bound(z) && z <= 1580,
        x.finite() && y.finite(),
        exists|v: int|
            -2 * pow2(z) <= v <= 2 * pow2(z) && #[trigger] absolute(x.value() - v)
                * 0x8_0000_0000_0000 <= absolute(v),
        exists|v: int|
            -2 * pow2(z) <= v <= 2 * pow2(z) && #[trigger] absolute(y.value() - v)
                * 0x8_0000_0000_0000 <= absolute(v),
    ensures
        (x * y).finite(),
{
    lemma_scale(z);
    lemma_pow2_pos(1074);
    lemma2_to64();
    let w = (2 * z - 1070) as nat;
    let (t, one) = (pow2(z) as int, pow2(1074) as int);
    lemma_pow2_adds(z, z);
    lemma_pow2_adds(4, 2 * z);
    lemma_pow2_adds(1074, w);
    let (a, b) = (x.value(), y.value());
    assert(-3 * t <= a <= 3 * t && -3 * t <= b <= 3 * t);
    assert(absolute(a * b) <= pow2(w) * one) by (nonlinear_arith)
        requires
            -3 * t <= a <= 3 * t,
            -3 * t <= b <= 3 * t,
            absolute(a * b) == a * b || absolute(a * b) == -(a * b),
            one * pow2(w) == 16 * (t * t),
    ;
    lemma_product(x, y, w);
}

/// Whether a point lies along a leg of a chain, and on its left but for `d` for each step
/// along the leg.
pub open spec fn along(chain: Seq<Vertex>, i: int, q: Vertex, up: bool, d: int) -> bool {
    let (a, b) = (chain[i], chain[i + 1]);
    &&& key(a, up) <= key(q, up) <= key(b, up)
    &&& wide() * area(a, b, q) >= -(d * (key(b, up) - key(a, up)))
}

/// Whether a chain covers a point: it lies along one of the legs, or at the end.
pub open spec fn covered(chain: Seq<Vertex>, q: Vertex, up: bool, d: int) -> bool {
    q == chain.last() || exists|i: int| 0 <= i < chain.len() - 1 && #[trigger] along(chain, i, q, up, d)
}

/// The way past a corner that is cut off.
proof fn lemma_past_corner(
    a: Vertex,
    b: Vertex,
    p: Vertex,
    q: Vertex,
    up: bool,
    d: int,
    e: int,
    first: bool,
)
    requires
        key(a, up) < key(b, up) < key(p, up),
        wide() > 0 && d >= 0 && e >= 0,
        wide() * area(a, b, p) <= e * (key(p, up) - key(a, up)),
        first ==> along(seq![a, b], 0, q, up, d),
        !first ==> along(seq![b, p], 0, q, up, d),
    ensures
        along(seq![a, p], 0, q, up, d + e),
{
    let m = wide();
    let (one, two) = (seq![a, b], seq![b, p]);
    assert(one[0] == a && one[1] == b && two[0] == b && two[1] == p);
    let all = seq![a, p];
    assert(all[0] == a && all[1] == p);
    let (ka, kb, kp, kq) = (key(a, up), key(b, up), key(p, up), key(q, up));
    let (v, r) = (area(a, b, p), area(a, p, q));
    lemma_turned_round(a, p, b);
    lemma_turned_round(a, p, q);
    lemma_turned_round(b, p, q);
    lemma_turned_round(a, b, p);
    if first {
        lemma_three(a, p, b, q, up);
        // The two sides of the identity.
        let s = area(a, b, q);
        let (wb, wp, wq) = (kb - ka, kp - ka, kq - ka);
        assert(r * wb == s * wp - v * wq) by (nonlinear_arith)
            requires
                r * wb == s * wp + area(a, p, b) * wq,
                area(a, p, b) == -v,
        ;
        lemma_weigh(r, s, v, m, wb, wp, wq, d, e);
    } else {
        lemma_three(p, q, b, a, up);
        let s = area(b, p, q);
        let (wb, wp, wq) = (kp - kb, kp - ka, kp - kq);
        assert(r * wb == s * wp - v * wq) by (nonlinear_arith)
            requires
                area(p, q, a) * (kb - kp) == area(p, b, a) * (kq - kp) + area(p, q, b) * (ka - kp),
                area(p, q, a) == r,
                area(p, b, a) == -v,
                area(p, q, b) == s,
                wb == kp - kb,
                wp == kp - ka,
                wq == kp - kq,
        ;
        lemma_weigh(r, s, v, m, wb, wp, wq, d, e);
    }
}

proof fn lemma_weigh(r: int, s: int, v: int, m: int, wb: int, wp: int, wq: int, d: int, e: int)
    requires
        r * wb == s * wp - v * wq,
        m > 0 && d >= 0 && e >= 0,
        0 < wb <= wp,
        0 <= wq <= wb,
        m * s >= -(d * wb),
        m * v <= e * wp,
    ensures
        m * r >= -((d + e) * wp),
{
    let (mr, ms, mv) = (m * r, m * s, m * v);
    assert(mr * wb == ms * wp - mv * wq) by (nonlinear_arith)
        requires
            r * wb == s * wp - v * wq,
            mr == m * r,
            ms == m * s,
            mv == m * v,
    ;
    let ew = e * wp;
    assert(ew >= 0) by (nonlinear_arith)
        requires
            ew == e * wp,
            e >= 0,
            wp > 0,
    ;
    assert(ms * wp >= -(d * wb * wp)) by (nonlinear_arith)
        requires
            ms >= -(d * wb),
            wp > 0,
    ;
    assert(mv * wq <= ew * wb) by (nonlinear_arith)
        requires
            mv <= ew,
            ew >= 0,
            0 <= wq <= wb,
    ;
    let k = (d + e) * wp;
    assert(d * wb * wp + ew * wb == k * wb) by (nonlinear_arith)
        requires
            k == (d + e) * wp,
            ew == e * wp,
    ;
    assert(mr >= -k) by (nonlinear_arith)
        requires
            mr * wb >= -(k * wb),
            wb > 0,
    ;
}

/// A triangle named from its other corners.
proof fn lemma_turned_round(a: Vertex, b: Vertex, c: Vertex)
    ensures
        area(b, c, a) == area(a, b, c),
        area(c, a, b) == area(a, b, c),
        area(a, c, b) == -area(a, b, c),
        area(c, b, a) == -area(a, b, c),
        area(a, b, a) == 0,
        area(a, b, b) == 0,
{
    reveal(area);
    let (ax, ay) = (a[0].value(), a[1].value());
    let (bx, by) = (b[0].value(), b[1].value());
    let (cx, cy) = (c[0].value(), c[1].value());
    let v = (bx - ax) * (cy - ay) - (by - ay) * (cx - ax);
    assert((cx - bx) * (ay - by) - (cy - by) * (ax - bx) == v) by (nonlinear_arith)
        requires
            v == (bx - ax) * (cy - ay) - (by - ay) * (cx - ax),
    ;
    assert((ax - cx) * (by - cy) - (ay - cy) * (bx - cx) == v) by (nonlinear_arith)
        requires
            v == (bx - ax) * (cy - ay) - (by - ay) * (cx - ax),
    ;
    assert((cx - ax) * (by - ay) - (cy - ay) * (bx - ax) == -v) by (nonlinear_arith)
        requires
            v == (bx - ax) * (cy - ay) - (by - ay) * (cx - ax),
    ;
    assert((bx - cx) * (ay - cy) - (by - cy) * (ax - cx) == -v) by (nonlinear_arith)
        requires
            v == (bx - ax) * (cy - ay) - (by - ay) * (cx - ax),
    ;
    assert((bx - ax) * (ay - ay) - (by - ay) * (ax - ax) == 0) by (nonlinear_arith);
    assert((bx - ax) * (by - ay) - (by - ay) * (bx - ax) == 0) by (nonlinear_arith);
}

/// A chain that is cut back still covers the points.
proof fn lemma_trim(chain: Seq<Vertex>, p: Vertex, q: Vertex, up: bool, d: int, z: nat)
    requires
        is_bound(z) && z <= 1580,
        chain.len() > 0 && d >= 0,
        rising(chain.push(p), up),
        all_fair(chain.push(p), z),
        covered(chain.push(p), q, up, d),
    ensures
        ({
            let kept = trimmed(chain, p);
            &&& 0 < kept.len() <= chain.len()
            &&& kept == chain.take(kept.len() as int)
            &&& covered(kept.push(p), q, up, d + shaving(z) * (chain.len() - kept.len()))
        }),
    decreases chain.len(),
{
    lemma_scale(z);
    let n = chain.len() as int;
    let whole_way = chain.push(p);
    if n >= 2 && cross(chain[n - 2], chain[n - 1], p) <= whole(0) {
        let (a, b) = (chain[n - 2], chain[n - 1]);
        let less = chain.drop_last();
        let way = less.push(p);
        assert(whole_way[n - 2] == a && whole_way[n - 1] == b && whole_way[n] == p);
        assert(fair(whole_way[n - 2], z) && fair(whole_way[n - 1], z) && fair(whole_way[n], z));
        assert(key(whole_way[n - 2], up) < key(whole_way[n - 1], up) && key(
            whole_way[n - 1],
            up,
        ) < key(whole_way[n], up));
        lemma_cut_corner(a, b, p, up, z);
        lemma_ceiling(a[0]);
        let e = shaving(z);
        assert forall|i: int, j: int| 0 <= i < j < way.len() implies key(#[trigger] way[i], up)
            < key(#[trigger] way[j], up) by {
            assert(way[i] == whole_way[i]);
            if j < n - 1 {
                assert(way[j] == whole_way[j]);
            } else {
                assert(way[j] == whole_way[n]);
            }
        }
        assert forall|i: int| 0 <= i < way.len() implies fair(#[trigger] way[i], z) by {
            if i < n - 1 {
                assert(way[i] == whole_way[i]);
            } else {
                assert(way[i] == whole_way[n]);
            }
        }
        assert(covered(way, q, up, d + e)) by {
            if q != p {
                let i = choose|i: int|
                    0 <= i < whole_way.len() - 1 && #[trigger] along(whole_way, i, q, up, d);
                if i < n - 2 {
                    assert(way[i] == whole_way[i] && way[i + 1] == whole_way[i + 1]);
                    assert(key(whole_way[i], up) < key(whole_way[i + 1], up));
                    let k = key(way[i + 1], up) - key(way[i], up);
                    assert(d * k <= (d + e) * k) by (nonlinear_arith)
                        requires
                            k >= 0,
                            e >= 0,
                    ;
                    assert(along(way, i, q, up, d + e));
                } else {
                    let (one, two, all) = (seq![a, b], seq![b, p], seq![a, p]);
                    assert(one[0] == a && one[1] == b && two[0] == b && two[1] == p);
                    assert(all[0] == a && all[1] == p);
                    lemma_past_corner(a, b, p, q, up, d, e, i == n - 2);
                    assert(way[n - 2] == a && way[n - 1] == p);
                    assert(along(way, n - 2, q, up, d + e));
                }
            } else {
                assert(way.last() == p);
            }
        }
        lemma_trim(less, p, q, up, d + e, z);
        let kept = trimmed(chain, p);
        assert(kept == trimmed(less, p));
        assert(kept =~= chain.take(kept.len() as int));
        assert(d + e + e * (less.len() - kept.len()) == d + e * (chain.len() - kept.len()))
            by (nonlinear_arith)
            requires
                less.len() == chain.len() - 1,
        ;
    } else {
        assert(trimmed(chain, p) == chain);
        assert(chain =~= chain.take(n));
        assert(shaving(z) * 0 == 0);
    }
}

/// A chain covers all points that it was led along.
proof fn lemma_chain_covers(s: Seq<Vertex>, k: int, j: int, up: bool, z: nat)
    requires
        is_bound(z) && z <= 1580,
        rising(s, up),
        all_fair(s, z),
        0 <= j < k <= s.len(),
    ensures
        ({
            let chain = side_chain(s, k);
            &&& 0 < chain.len() <= k
            &&& chain.last() == s[k - 1]
            &&& chain[0] == s[0]
            &&& rising(chain, up)
            &&& forall|i: int| 0 <= i < chain.len() ==> s.contains(#[trigger] chain[i])
            &&& covered(chain, s[j], up, shaving(z) * (k - chain.len()))
        }),
    decreases k,
{
    lemma_scale(z);
    let p = s[k - 1];
    let before = side_chain(s, k - 1);
    let chain = side_chain(s, k);
    if k == 1 {
        assert(before =~= Seq::<Vertex>::empty());
        assert(trimmed(before, p) =~= before);
        assert(chain =~= seq![p]);
        assert(s[0] == p);
    } else {
        let i0 = if j < k - 1 {
            j
        } else {
            0
        };
        lemma_chain_covers(s, k - 1, i0, up, z);
        let way = before.push(p);
        let d = shaving(z) * (k - 1 - before.len());
        assert(d >= 0) by (nonlinear_arith)
            requires
                d == shaving(z) * (k - 1 - before.len()),
                shaving(z) >= 0,
                k - 1 - before.len() >= 0,
        ;
        assert(key(s[k - 2], up) < key(s[k - 1], up));
        assert forall|i: int, l: int| 0 <= i < l < way.len() implies key(#[trigger] way[i], up)
            < key(#[trigger] way[l], up) by {
            if l < before.len() {
                assert(way[i] == before[i] && way[l] == before[l]);
            } else {
                assert(way[i] == before[i]);
                if i < before.len() - 1 {
                    assert(key(before[i], up) < key(before[before.len() - 1], up));
                }
            }
        }
        assert forall|i: int| 0 <= i < way.len() implies fair(#[trigger] way[i], z) by {
            if i < before.len() {
                assert(s.contains(before[i]));
            }
        }
        assert(covered(way, s[j], up, d)) by {
            if j == k - 1 {
                assert(way.last() == s[j]);
            } else if s[j] == before.last() {
                let i = before.len() - 1;
                assert(way[i] == s[j] && way[i + 1] == p);
                lemma_turned_round(way[i], p, p);
                let w = key(p, up) - key(way[i], up);
                assert(d * w >= 0 && wide() * 0 == 0) by (nonlinear_arith)
                    requires
                        d >= 0,
                        w >= 0,
                ;
                assert(along(way, i, s[j], up, d));
            } else {
                let i = choose|i: int|
                    0 <= i < before.len() - 1 && #[trigger] along(before, i, s[j], up, d);
                assert(way[i] == before[i] && way[i + 1] == before[i + 1]);
                assert(along(way, i, s[j], up, d));
            }
        }
        lemma_trim(before, p, s[j], up, d, z);
        let kept = trimmed(before, p);
        assert(chain == kept.push(p));
        assert(d + shaving(z) * (before.len() - kept.len()) == shaving(z) * (k - chain.len()))
            by (nonlinear_arith)
            requires
                d == shaving(z) * (k - 1 - before.len()),
                chain.len() == kept.len() + 1,
        ;
        assert forall|i: int, l: int| 0 <= i < l < chain.len() implies key(#[trigger] chain[i], up)
            < key(#[trigger] chain[l], up) by {
            assert(chain[i] == way[i]);
            if l < kept.len() {
                assert(chain[l] == way[l]);
            } else {
                assert(chain[l] == way[before.len() as int]);
            }
        }
        assert forall|i: int| 0 <= i < chain.len() implies s.contains(#[trigger] chain[i]) by {
            if i < kept.len() {
                assert(chain[i] == before[i]);
            } else {
                assert(s[k - 1] == p);
            }
        }
        assert(chain[0] == before[0]);
    }
}

/// Whether a point lies along side `i` of a hull: its first coordinate is between those of
/// the two corners, and it lies on the left of the side, but for `d` for each step that
/// the side goes along, and one more.
pub open spec fn beside(hull: Seq<Vertex>, i: int, q: Vertex, up: bool, d: int) -> bool {
    let (a, b) = (hull[i], hull[behind(i, hull.len() as int)]);
    let (ax, bx, x) = (a[0].value(), b[0].value(), q[0].value());
    &&& up ==> ax <= x <= bx
    &&& !up ==> bx <= x <= ax
    &&& area(a, b, q) >= -(d * (absolute(bx - ax) + 1))
}

/// A leg of a chain in the measure of the plane.
proof fn lemma_beside(a: Vertex, b: Vertex, q: Vertex, up: bool, d: int)
    requires
        a[0].finite() && a[1].finite() && b[0].finite() && b[1].finite(),
        q[0].finite() && q[1].finite(),
        d >= 0,
        key(a, up) <= key(q, up) <= key(b, up),
        wide() * area(a, b, q) >= -(d * (key(b, up) - key(a, up))),
    ensures
        ({
            let (ax, bx, x) = (a[0].value(), b[0].value(), q[0].value());
            &&& up ==> ax <= x <= bx
            &&& !up ==> bx <= x <= ax
            &&& area(a, b, q) >= -(d * (absolute(bx - ax) + 1))
        }),
{
    reveal(key);
    lemma_ceiling(a[0]);
    lemma_ceiling(a[1]);
    lemma_ceiling(b[1]);
    lemma_ceiling(q[1]);
    let m = wide();
    let (ax, bx, x) = (a[0].value(), b[0].value(), q[0].value());
    let (ay, by, y) = (a[1].value(), b[1].value(), q[1].value());
    let v = area(a, b, q);
    let w = key(b, up) - key(a, up);
    let s: int = if up {
        1
    } else {
        -1
    };
    assert(m * (x - ax) == m * x - m * ax && m * (bx - x) == m * bx - m * x && m * (bx - ax) == m
        * bx - m * ax) by (nonlinear_arith);
    if up {
        assert(x - ax >= 0 && bx - x >= 0) by (nonlinear_arith)
            requires
                m * (x - ax) + y - ay >= 0,
                m * (bx - x) + by - y >= 0,
                y - ay < m,
                by - y < m,
                m > 0,
        ;
    } else {
        assert(x - ax <= 0 && bx - x <= 0) by (nonlinear_arith)
            requires
                m * (x - ax) + y - ay <= 0,
                m * (bx - x) + by - y <= 0,
                ay - y < m,
                y - by < m,
                m > 0,
        ;
    }
    let k = absolute(bx - ax) + 1;
    assert(w <= m * k) by (nonlinear_arith)
        requires
            w == s * (m * (bx - ax)) + s * (by - ay),
            s * (bx - ax) == k - 1,
            s == 1 || s == -1,
            -m < by - ay < m,
            m > 0,
    ;
    assert(v >= -(d * k)) by (nonlinear_arith)
        requires
            m * v >= -(d * w),
            w <= m * k,
            d >= 0,
            m > 0,
    ;
}

/// A point along a chain.
proof fn lemma_leg_found(
    s: Seq<Vertex>,
    j: int,
    up: bool,
    z: nat,
) -> (i: int)
    requires
        is_bound(z) && z <= 1580,
        rising(s, up),
        all_fair(s, z),
        s.len() >= 2,
        0 <= j < s.len(),
    ensures
        ({
            let chain = side_chain(s, s.len() as int);
            let (a, b, q) = (chain[i], chain[i + 1], s[j]);
            let (ax, bx, x) = (a[0].value(), b[0].value(), q[0].value());
            &&& chain.len() >= 2
            &&& chain[0] == s[0] && chain.last() == s[s.len() - 1]
            &&& 0 <= i < chain.len() - 1
            &&& up ==> ax <= x <= bx
            &&& !up ==> bx <= x <= ax
            &&& area(a, b, q) >= -((shaving(z) * s.len()) * (absolute(bx - ax) + 1))
        }),
{
    lemma_scale(z);
    let n = s.len() as int;
    lemma_chain_covers(s, n, j, up, z);
    let chain = side_chain(s, n);
    assert(key(s[0], up) < key(s[n - 1], up));
    assert(chain.len() >= 2);
    let d = shaving(z) * (n - chain.len());
    let big = shaving(z) * n;
    assert(0 <= d <= big) by (nonlinear_arith)
        requires
            d == shaving(z) * (n - chain.len()),
            big == shaving(z) * n,
            shaving(z) >= 0,
            0 <= chain.len() <= n,
    ;
    let q = s[j];
    let l = chain.len() - 2;
    let i = if q == chain.last() {
        l
    } else {
        choose|i: int| 0 <= i < chain.len() - 1 && #[trigger] along(chain, i, q, up, d)
    };
    let (a, b) = (chain[i], chain[i + 1]);
    assert(s.contains(chain[i]) && s.contains(chain[i + 1]));
    assert(fair(a, z) && fair(b, z) && fair(s[j], z));
    assert(key(chain[i], up) < key(chain[i + 1], up));
    let w = key(b, up) - key(a, up);
    if q == chain.last() {
        lemma_turned_round(a, b, b);
        assert(d * w >= 0 && wide() * 0 == 0) by (nonlinear_arith)
            requires
                d >= 0,
                w >= 0,
        ;
    }
    lemma_beside(a, b, q, up, d);
    let k = absolute(b[0].value() - a[0].value()) + 1;
    assert(d * k <= big * k) by (nonlinear_arith)
        requires
            d <= big,
            k >= 0,
    ;
    i
}

/// The points in order are as fair as the given ones.
proof fn lemma_fair_in_order(points: Seq<Vertex>, s: Seq<Vertex>, z: nat)
    requires
        in_order(s) && same_points(s, points),
        plain_points(points),
        all_fair(points, z),
    ensures
        rising(s, true),
        rising(s.reverse(), false),
        all_fair(s, z),
        all_fair(s.reverse(), z),
{
    let n = s.len() as int;
    let t = s.reverse();
    assert forall|x: int| 0 <= x < n implies plain((#[trigger] s[x])[0]) && plain(s[x][1]) by {
        assert(points.contains(s[x]));
    }
    assert forall|x: int| 0 <= x < n implies fair(#[trigger] s[x], z) by {
        assert(points.contains(s[x]));
    }
    assert forall|x: int| 0 <= x < n implies fair(#[trigger] t[x], z) by {
        assert(t[x] == s[n - 1 - x]);
    }
    lemma_rising(s);
}

/// Points in order along the two ways of their hull.
#[verifier::spinoff_prover]
#[verifier::rlimit(40)]
proof fn lemma_both_ways(s: Seq<Vertex>, k: int, z: nat) -> (o: (int, int))
    requires
        is_bound(z) && z <= 1580,
        rising(s, true) && rising(s.reverse(), false),
        all_fair(s, z) && all_fair(s.reverse(), z),
        s.len() >= 2,
        0 <= k < s.len(),
    ensures
        0 <= o.0 < hull_of(s).len() && 0 <= o.1 < hull_of(s).len(),
        beside(hull_of(s), o.0, s[k], true, shaving(z) * s.len()),
        beside(hull_of(s), o.1, s[k], false, shaving(z) * s.len()),
{
    let hull = hull_of(s);
    let n = s.len() as int;
    let t = s.reverse();
    let i = lemma_leg_found(s, k, true, z);
    let r = lemma_leg_found(t, n - 1 - k, false, z);
    let (lower, upper) = (side_chain(s, n), side_chain(t, n));
    assert(t[n - 1 - k] == s[k] && t[0] == s[n - 1] && t[n - 1] == s[0]);
    if n > 2 {
        let a = lower.len() - 1;
        let l = a + r;
        assert(hull[i] == lower[i]);
        assert(hull[behind(i, hull.len() as int)] == lower[i + 1]);
        assert(hull[l] == upper[r]);
        assert(hull[behind(l, hull.len() as int)] == upper[r + 1]);
        (i, l)
    } else {
        lemma_two(s);
        lemma_two(t);
        assert(lower == s && upper == t);
        assert(i == 0 && r == 0);
        assert(behind(0, 2) == 1 && behind(1, 2) == 0);
        (0, 1)
    }
}

/// A hull covers every given point, whatever the points are, but for rounding: the point
/// lies along a side of the way out and along one of the way back, and on the left of
/// both, but for a small area for each given point. The coordinates have to be no finer
/// than 2^-400.
pub proof fn law_hull_covers_points(points: Seq<Vertex>, s: Seq<Vertex>, j: int, z: nat)
    requires
        in_order(s) && same_points(s, points),
        plain_points(points),
        is_bound(z) && z <= 1580,
        all_fair(points, z),
        s.len() >= 2,
        0 <= j < points.len(),
    ensures
        exists|i: int, l: int|
            0 <= i < hull_of(s).len() && 0 <= l < hull_of(s).len() && #[trigger] beside(
                hull_of(s),
                i,
                points[j],
                true,
                shaving(z) * s.len(),
            ) && #[trigger] beside(hull_of(s), l, points[j], false, shaving(z) * s.len()),
{
    let hull = hull_of(s);
    lemma_fair_in_order(points, s, z);
    let k = lemma_point_found(points, s, j);
    let (i, l) = lemma_both_ways(s, k, z);
    lemma_same_place(hull[i], hull[behind(i, hull.len() as int)], s[k], points[j]);
    lemma_same_place(hull[l], hull[behind(l, hull.len() as int)], s[k], points[j]);
    assert(beside(hull, i, points[j], true, shaving(z) * s.len()));
    assert(beside(hull, l, points[j], false, shaving(z) * s.len()));
}

/// The chain along two points.
proof fn lemma_two(s: Seq<Vertex>)
    requires
        s.len() == 2,
    ensures
        side_chain(s, 2) =~= s,
{
    let none = side_chain(s, 0);
    assert(none =~= Seq::<Vertex>::empty());
    assert(trimmed(none, s[0]) =~= none);
    let one = side_chain(s, 1);
    assert(one =~= seq![s[0]]);
    assert(trimmed(one, s[1]) =~= one);
    assert(side_chain(s, 2) == trimmed(one, s[1]).push(s[1]));
}

} // verus!
