//! A convex hull holds the points that it was made of.

use crate::arith::absolute;
use crate::cell::{lemma_at_most, lemma_count};
use crate::convex::{
    behind, cross, hull_of, in_order, law_hull_of_given_points, law_hull_turns_left, same_points,
    same_spot, side_chain, trimmed, turn_in,
};
use crate::ends::{
    apart, grain, is_bound, lemma_absolute_value, lemma_place_difference, lemma_scale,
    lemma_signed_value, within,
};
use crate::geometry::Vertex;
use crate::meridian::lemma_product;
use crate::numeric::whole;
use crate::rounding::{lemma_nearest_exists, nearest};
use crate::scalar::{lemma_magnitude_monotone, magnitude_value, units, Scalar, INFINITY_BITS};
use vstd::arithmetic::power2::{lemma2_to64, lemma_pow2_adds, lemma_pow2_pos, pow2};
use vstd::prelude::*;

verus! {

/// Twice the area of a triangle, exactly, positive if it runs anticlockwise; in square
/// units of 2^-1074.
#[verifier::opaque]
pub open spec fn area(o: Vertex, a: Vertex, b: Vertex) -> int {
    (a[0].value() - o[0].value()) * (b[1].value() - o[1].value()) - (a[1].value() - o[1].value())
        * (b[0].value() - o[0].value())
}

/// Whether rounding leaves the side on which a triangle lies as it is.
pub open spec fn true_turn(o: Vertex, a: Vertex, b: Vertex) -> bool {
    cross(o, a, b) <= whole(0) <==> area(o, a, b) <= 0
}

/// Whether rounding leaves the sides of all triangles of some points as they are.
pub open spec fn true_turns(points: Seq<Vertex>) -> bool {
    forall|i: int, j: int, k: int|
        0 <= i < points.len() && 0 <= j < points.len() && 0 <= k < points.len()
            ==> #[trigger] true_turn(points[i], points[j], points[k])
}

/// Whether a number is finite and not the negative zero.
pub open spec fn plain(x: Scalar) -> bool {
    x.finite() && !(x.negative() && x.zero())
}

/// Whether the coordinates of some points are finite, and zero has but one sign.
pub open spec fn plain_points(points: Seq<Vertex>) -> bool {
    forall|i: int| 0 <= i < points.len() ==> plain((#[trigger] points[i])[0]) && plain(points[i][1])
}

/// The largest value of a number, and more.
pub open spec fn ceiling() -> int {
    magnitude_value(INFINITY_BITS as int)
}

/// A number that grows along the points in order, or falls.
#[verifier::opaque]
pub open spec fn key(p: Vertex, up: bool) -> int {
    let k = (2 * ceiling() + 1) * p[0].value() + p[1].value();
    if up {
        k
    } else {
        -k
    }
}

pub open spec fn rising(s: Seq<Vertex>, up: bool) -> bool {
    forall|i: int, j: int|
        0 <= i < j < s.len() ==> key(#[trigger] s[i], up) < key(#[trigger] s[j], up)
}

proof fn lemma_value_grows(a: Scalar, b: Scalar)
    requires
        plain(a) && plain(b),
        a.rank() < b.rank(),
    ensures
        a.value() < b.value(),
{
    let (m, n) = (a.magnitude_bits(), b.magnitude_bits());
    assert(magnitude_value(0) == 0);
    if m < n {
        lemma_magnitude_monotone(m, n);
    }
    if n < m {
        lemma_magnitude_monotone(n, m);
    }
    if m > 0 {
        lemma_magnitude_monotone(0, m);
    }
    if n > 0 {
        lemma_magnitude_monotone(0, n);
    }
}

pub proof fn lemma_ceiling(a: Scalar)
    requires
        a.finite(),
    ensures
        -ceiling() <= a.value() <= ceiling(),
{
    let m = a.magnitude_bits();
    lemma_magnitude_monotone(m, INFINITY_BITS as int);
    assert(magnitude_value(0) == 0);
    if m > 0 {
        lemma_magnitude_monotone(0, m);
    }
}

/// Points in order have growing keys.
pub proof fn lemma_rising(s: Seq<Vertex>)
    requires
        in_order(s),
        plain_points(s),
    ensures
        rising(s, true),
        rising(s.reverse(), false),
{
    reveal(key);
    assert forall|i: int, j: int| 0 <= i < j < s.len() implies key(#[trigger] s[i], true) < key(
        #[trigger] s[j],
        true,
    ) by {
        let (a, b) = (s[i], s[j]);
        lemma_ceiling(a[1]);
        lemma_ceiling(b[1]);
        let c = ceiling();
        let (x, u) = (a[0].value(), b[0].value());
        let (y, v) = (a[1].value(), b[1].value());
        if a[0].rank() < b[0].rank() {
            lemma_value_grows(a[0], b[0]);
            assert((2 * c + 1) * x + y < (2 * c + 1) * u + v) by (nonlinear_arith)
                requires
                    x < u,
                    -c <= y <= c,
                    -c <= v <= c,
            ;
        } else {
            lemma_value_grows(a[1], b[1]);
            assert(a[0] == b[0]);
        }
    }
    let t = s.reverse();
    assert forall|i: int, j: int| 0 <= i < j < t.len() implies key(#[trigger] t[i], false) < key(
        #[trigger] t[j],
        false,
    ) by {
        let n = s.len() as int;
        assert(t[i] == s[n - 1 - i] && t[j] == s[n - 1 - j]);
        assert(key(s[n - 1 - j], true) < key(s[n - 1 - i], true));
    }
}

proof fn lemma_both(a: int, m: int, x: int, y: int)
    ensures
        a * (m * x + y) == m * (a * x) + a * y,
{
    assert(a * (m * x + y) == m * (a * x) + a * y) by (nonlinear_arith);
}

/// Three vectors from one point, and how far each of them goes.
pub proof fn lemma_three(o: Vertex, p: Vertex, q: Vertex, r: Vertex, up: bool)
    ensures
        area(o, p, r) * (key(q, up) - key(o, up)) == area(o, q, r) * (key(p, up) - key(o, up))
            + area(o, p, q) * (key(r, up) - key(o, up)),
{
    reveal(area);
    reveal(key);
    let m = 2 * ceiling() + 1;
    let (px, py) = (p[0].value() - o[0].value(), p[1].value() - o[1].value());
    let (qx, qy) = (q[0].value() - o[0].value(), q[1].value() - o[1].value());
    let (rx, ry) = (r[0].value() - o[0].value(), r[1].value() - o[1].value());
    let (pr, qr, pq) = (area(o, p, r), area(o, q, r), area(o, p, q));
    assert(pr * qx == qr * px + pq * rx) by (nonlinear_arith)
        requires
            pr == px * ry - py * rx,
            qr == qx * ry - qy * rx,
            pq == px * qy - py * qx,
    ;
    assert(pr * qy == qr * py + pq * ry) by (nonlinear_arith)
        requires
            pr == px * ry - py * rx,
            qr == qx * ry - qy * rx,
            pq == px * qy - py * qx,
    ;
    lemma_both(pr, m, qx, qy);
    lemma_both(qr, m, px, py);
    lemma_both(pq, m, rx, ry);
    let (x, y) = (qr * px, pq * rx);
    assert(m * (x + y) == m * x + m * y) by (nonlinear_arith);
    let (ox, oy) = (o[0].value(), o[1].value());
    assert(m * p[0].value() - m * ox == m * px && m * q[0].value() - m * ox == m * qx && m
        * r[0].value() - m * ox == m * rx) by (nonlinear_arith)
        requires
            px == p[0].value() - ox,
            qx == q[0].value() - ox,
            rx == r[0].value() - ox,
    ;
    let (kp, kq, kr) = (m * px + py, m * qx + qy, m * rx + ry);
    if !up {
        assert(pr * (-kq) == qr * (-kp) + pq * (-kr)) by (nonlinear_arith)
            requires
                pr * kq == qr * kp + pq * kr,
        ;
    }
}

/// The same triangle from its other corners.
pub proof fn lemma_same_triangle(a: Vertex, b: Vertex, c: Vertex)
    ensures
        area(a, b, c) == area(b, c, a),
        area(a, b, c) == -area(b, a, c),
        area(a, b, a) == 0,
        area(a, b, b) == 0,
{
    reveal(area);
    let (ax, ay) = (a[0].value(), a[1].value());
    let (bx, by) = (b[0].value(), b[1].value());
    let (cx, cy) = (c[0].value(), c[1].value());
    assert((bx - ax) * (cy - ay) - (by - ay) * (cx - ax) == (cx - bx) * (ay - by) - (cy - by) * (ax
        - bx)) by (nonlinear_arith);
    assert((bx - ax) * (cy - ay) - (by - ay) * (cx - ax) == -((ax - bx) * (cy - by) - (ay - by) * (
    cx - bx))) by (nonlinear_arith);
    assert((bx - ax) * (ay - ay) - (by - ay) * (ax - ax) == 0) by (nonlinear_arith);
    assert((bx - ax) * (by - ay) - (by - ay) * (bx - ax) == 0) by (nonlinear_arith);
}

/// A left turn at `b` and one at `c` lead to the left of the first leg.
proof fn lemma_left_of_first(a: Vertex, b: Vertex, c: Vertex, p: Vertex, up: bool)
    requires
        key(a, up) < key(b, up) < key(c, up) < key(p, up),
        area(a, b, c) > 0,
        area(b, c, p) > 0,
    ensures
        area(a, b, p) > 0,
{
    lemma_three(b, p, c, a, up);
    lemma_same_triangle(a, b, p);
    lemma_same_triangle(a, b, c);
    lemma_same_triangle(b, p, a);
    lemma_same_triangle(b, c, p);
    lemma_same_triangle(b, p, c);
    lemma_same_triangle(p, b, c);
    let (kc, kp, ka) = (
        key(c, up) - key(b, up),
        key(p, up) - key(b, up),
        key(a, up) - key(b, up),
    );
    let (x, y, w) = (area(b, p, a), area(b, c, a), area(b, p, c));
    assert(x > 0) by (nonlinear_arith)
        requires
            x * kc == y * kp + w * ka,
            y > 0,
            kp > 0,
            w < 0,
            ka < 0,
            kc > 0,
    ;
}

/// A point behind the corner, to the left of the leg into it, is to the left of the leg
/// out of it, where that turns left.
proof fn lemma_left_behind(a: Vertex, c: Vertex, p: Vertex, r: Vertex, up: bool)
    requires
        key(a, up) < key(c, up) < key(p, up),
        key(r, up) < key(c, up),
        area(a, c, r) >= 0,
        area(a, c, p) > 0,
    ensures
        area(c, p, r) >= 0,
{
    lemma_three(c, p, a, r, up);
    lemma_same_triangle(a, c, r);
    lemma_same_triangle(c, a, r);
    lemma_same_triangle(a, c, p);
    lemma_same_triangle(c, p, a);
    let (ka, kp, kr) = (
        key(a, up) - key(c, up),
        key(p, up) - key(c, up),
        key(r, up) - key(c, up),
    );
    let (x, y, w) = (area(c, p, r), area(c, a, r), area(c, p, a));
    assert(x >= 0) by (nonlinear_arith)
        requires
            x * ka == y * kp + w * kr,
            y <= 0,
            kp > 0,
            w > 0,
            kr < 0,
            ka < 0,
    ;
}

/// A point ahead, to the left of a leg that is passed over to its right.
proof fn lemma_left_ahead(c: Vertex, q: Vertex, p: Vertex, r: Vertex, up: bool)
    requires
        key(c, up) < key(q, up),
        key(c, up) < key(p, up),
        key(c, up) < key(r, up),
        area(c, q, r) >= 0,
        area(c, q, p) <= 0,
    ensures
        area(c, p, r) >= 0,
{
    lemma_three(c, p, q, r, up);
    lemma_same_triangle(c, q, p);
    lemma_same_triangle(q, p, c);
    lemma_same_triangle(p, q, c);
    lemma_same_triangle(q, c, p);
    lemma_same_triangle(c, p, q);
    let (kq, kp, kr) = (
        key(q, up) - key(c, up),
        key(p, up) - key(c, up),
        key(r, up) - key(c, up),
    );
    let (x, y, w) = (area(c, p, r), area(c, q, r), area(c, p, q));
    assert(w >= 0);
    assert(x >= 0) by (nonlinear_arith)
        requires
            x * kq == y * kp + w * kr,
            y >= 0,
            kp > 0,
            w >= 0,
            kr > 0,
            kq > 0,
    ;
}

/// Where a chain is cut: the turn to `p` is a left one there, and was not behind.
proof fn lemma_cut(chain: Seq<Vertex>, p: Vertex)
    ensures
        ({
            let m = trimmed(chain, p).len() as int;
            &&& m <= chain.len()
            &&& trimmed(chain, p) == chain.take(m)
            &&& chain.len() > 0 ==> m > 0
            &&& m >= 2 ==> !(cross(chain[m - 2], chain[m - 1], p) <= whole(0))
            &&& m < chain.len() ==> cross(chain[m - 1], chain[m], p) <= whole(0)
        }),
    decreases chain.len(),
{
    if chain.len() >= 2 && cross(chain[chain.len() - 2], chain[chain.len() - 1], p) <= whole(0) {
        let less = chain.drop_last();
        lemma_cut(less, p);
        let m = trimmed(chain, p).len() as int;
        assert(less.take(m) =~= chain.take(m));
    } else {
        assert(chain.take(chain.len() as int) =~= chain);
    }
}

/// A chain that holds the first `k` points: its keys grow, it starts at the first of
/// them, ends at the last, and has them all to its left.
spec fn holds(chain: Seq<Vertex>, s: Seq<Vertex>, k: int, up: bool) -> bool {
    &&& chain.len() > 0
    &&& chain[0] == s[0]
    &&& chain.last() == s[k - 1]
    &&& rising(chain, up)
    &&& forall|i: int, j: int|
        0 <= i < chain.len() - 1 && 0 <= j < k ==> left_of(chain, i, #[trigger] s[j], #[trigger] chain[i])
}

/// Whether a point is to the left of leg `i` of a chain, which starts at `a`.
spec fn left_of(chain: Seq<Vertex>, i: int, r: Vertex, a: Vertex) -> bool {
    area(a, chain[i + 1], r) >= 0
}

/// Whether a chain turns left behind point `i`.
spec fn bends(chain: Seq<Vertex>, i: int) -> bool {
    area(chain[i], chain[i + 1], chain[i + 2]) > 0
}

/// All legs of a chain have a point to their left, if the last of them turns left to it.
proof fn lemma_all_left(chain: Seq<Vertex>, m: int, p: Vertex, i: int, up: bool)
    requires
        rising(chain, up),
        2 <= m <= chain.len(),
        0 <= i <= m - 2,
        key(chain[m - 1], up) < key(p, up),
        area(chain[m - 2], chain[m - 1], p) > 0,
        forall|j: int| 0 <= j < chain.len() - 2 ==> #[trigger] bends(chain, j),
    ensures
        area(chain[i], chain[i + 1], p) > 0,
    decreases m - i,
{
    if i < m - 2 {
        lemma_all_left(chain, m, p, i + 1, up);
        assert(bends(chain, i));
        assert(key(chain[i], up) < key(chain[i + 1], up) < key(chain[i + 2], up));
        assert(key(chain[i + 2], up) <= key(chain[m - 1], up));
        lemma_left_of_first(chain[i], chain[i + 1], chain[i + 2], p, up);
    }
}

/// The chain along the first `k` points holds them.
proof fn lemma_chain_holds(s: Seq<Vertex>, k: int, up: bool)
    requires
        rising(s, up),
        true_turns(s),
        0 < k <= s.len(),
    ensures
        holds(side_chain(s, k), s, k, up),
    decreases k,
{
    let p = s[k - 1];
    let before = side_chain(s, k - 1);
    let chain = side_chain(s, k);
    if k == 1 {
        assert(before =~= Seq::<Vertex>::empty());
        assert(trimmed(before, p) =~= before);
        assert(chain =~= seq![p]);
    } else {
        lemma_chain_holds(s, k - 1, up);
        law_hull_turns_left(s, k - 1);
        law_hull_of_given_points(s, k - 1);
        lemma_cut(before, p);
        let m = trimmed(before, p).len() as int;
        assert(chain == before.take(m).push(p));
        assert forall|j: int| 0 <= j < before.len() - 2 implies #[trigger] bends(before, j) by {
            assert(!(turn_in(before, j) <= whole(0)));
            lemma_true_turn(s, before[j], before[j + 1], before[j + 2]);
        }
        assert forall|i: int| 0 <= i < before.len() implies key(#[trigger] before[i], up) < key(
            p,
            up,
        ) by {
            assert(key(before[i], up) <= key(before.last(), up));
            assert(key(s[k - 2], up) < key(s[k - 1], up));
        }
        let c = before[m - 1];
        assert(s[k - 1] == p);
        assert(s.contains(p));
        if m >= 2 {
            lemma_true_turn(s, before[m - 2], c, p);
        }
        if m < before.len() {
            lemma_true_turn(s, c, before[m], p);
        }
        assert forall|i: int, j: int| 0 <= i < j < chain.len() implies key(#[trigger] chain[i], up)
            < key(#[trigger] chain[j], up) by {
            if j < m {
                assert(chain[i] == before[i] && chain[j] == before[j]);
            } else {
                assert(chain[i] == before[i]);
            }
        }
        assert forall|i: int, j: int| 0 <= i < chain.len() - 1 && 0 <= j < k implies left_of(
            chain,
            i,
            #[trigger] s[j],
            #[trigger] chain[i],
        ) by {
            lemma_longer_left(s, before, k, m, i, j, up);
        }
    }
}

/// A chain cut and led to a new point has the points to its left.
proof fn lemma_longer_left(
    s: Seq<Vertex>,
    before: Seq<Vertex>,
    k: int,
    m: int,
    i: int,
    j: int,
    up: bool,
)
    requires
        rising(s, up),
        2 <= k <= s.len(),
        0 <= j < k,
        holds(before, s, k - 1, up),
        1 <= m <= before.len(),
        0 <= i < m,
        s.contains(before[m - 1]),
        key(before[m - 1], up) < key(s[k - 1], up),
        m >= 2 ==> area(before[m - 2], before[m - 1], s[k - 1]) > 0,
        m < before.len() ==> area(before[m - 1], before[m], s[k - 1]) <= 0,
        forall|x: int| 0 <= x < before.len() - 2 ==> #[trigger] bends(before, x),
    ensures
        left_of(before.take(m).push(s[k - 1]), i, s[j], before.take(m).push(s[k - 1])[i]),
{
    let p = s[k - 1];
    let chain = before.take(m).push(p);
    assert(chain[i] == before[i]);
    if i < m - 1 {
        assert(chain[i + 1] == before[i + 1]);
        if j < k - 1 {
            assert(left_of(before, i, s[j], before[i]));
        } else {
            lemma_all_left(before, m, p, i, up);
        }
    } else {
        assert(chain[i + 1] == p);
        if j == k - 1 {
            lemma_same_triangle(before[m - 1], p, p);
        } else {
            lemma_last_leg(s, before, k, m, j, up);
        }
    }
}

/// The leg to a new point has the points before it to its left.
proof fn lemma_last_leg(s: Seq<Vertex>, before: Seq<Vertex>, k: int, m: int, j: int, up: bool)
    requires
        rising(s, up),
        2 <= k <= s.len(),
        0 <= j < k - 1,
        holds(before, s, k - 1, up),
        1 <= m <= before.len(),
        s.contains(before[m - 1]),
        m >= 2 ==> area(before[m - 2], before[m - 1], s[k - 1]) > 0,
        m < before.len() ==> area(before[m - 1], before[m], s[k - 1]) <= 0,
    ensures
        area(before[m - 1], s[k - 1], s[j]) >= 0,
{
    let (c, p, r) = (before[m - 1], s[k - 1], s[j]);
    assert(key(c, up) <= key(before.last(), up));
    assert(key(s[k - 2], up) < key(p, up));
    let x = choose|x: int| 0 <= x < s.len() && s[x] == c;
    if key(r, up) == key(c, up) {
        assert(x == j);
        lemma_same_triangle(c, p, c);
    } else if key(r, up) < key(c, up) {
        if m == 1 {
            assert(key(s[0], up) <= key(s[j], up));
        } else {
            assert(left_of(before, m - 2, s[j], before[m - 2]));
            assert(key(before[m - 2], up) < key(before[m - 1], up));
            lemma_left_behind(before[m - 2], c, p, r, up);
        }
    } else {
        assert(key(s[j], up) <= key(s[k - 2], up));
        assert(left_of(before, m - 1, s[j], before[m - 1]));
        assert(key(before[m - 1], up) < key(before[m], up));
        lemma_left_ahead(c, before[m], p, r, up);
    }
}

proof fn lemma_true_turn(s: Seq<Vertex>, o: Vertex, a: Vertex, b: Vertex)
    requires
        true_turns(s),
        s.contains(o) && s.contains(a) && s.contains(b),
    ensures
        true_turn(o, a, b),
{
    let i = choose|i: int| 0 <= i < s.len() && s[i] == o;
    let j = choose|j: int| 0 <= j < s.len() && s[j] == a;
    let k = choose|k: int| 0 <= k < s.len() && s[k] == b;
    assert(true_turn(s[i], s[j], s[k]));
}

/// A chain that holds all points has each of them to the left of each of its legs.
proof fn lemma_leg(s: Seq<Vertex>, chain: Seq<Vertex>, i: int, j: int, up: bool)
    requires
        holds(chain, s, s.len() as int, up),
        0 <= i < chain.len() - 1,
        0 <= j < s.len(),
    ensures
        area(chain[i], chain[i + 1], s[j]) >= 0,
{
    assert(left_of(chain, i, s[j], chain[i]));
}

/// Every given point lies on the left of every side of the hull, or on the side itself,
/// where rounding leaves the sides on which the triangles of the points lie as they
/// are.
pub proof fn law_hull_holds_its_points(points: Seq<Vertex>, s: Seq<Vertex>, i: int, j: int)
    requires
        in_order(s) && same_points(s, points),
        plain_points(points),
        true_turns(points),
        0 <= i < hull_of(s).len(),
        0 <= j < points.len(),
    ensures
        ({
            let hull = hull_of(s);
            area(hull[i], hull[behind(i, hull.len() as int)], points[j]) >= 0
        }),
{
    lemma_points_in_order(points, s);
    let k = lemma_point_found(points, s, j);
    let hull = hull_of(s);
    let (u, v) = (hull[i], hull[behind(i, hull.len() as int)]);
    lemma_same_place(u, v, s[k], points[j]);
    if s.len() > 2 {
        lemma_sides(s, i, k);
    } else {
        lemma_same_triangle(u, v, v);
        assert(s[k] == u || s[k] == v);
    }
}

pub proof fn lemma_same_place(u: Vertex, v: Vertex, a: Vertex, b: Vertex)
    requires
        same_spot(a, b),
    ensures
        area(u, v, a) == area(u, v, b),
{
    reveal(area);
}

pub proof fn lemma_point_found(points: Seq<Vertex>, s: Seq<Vertex>, j: int) -> (k: int)
    requires
        same_points(s, points),
        0 <= j < points.len(),
    ensures
        0 <= k < s.len(),
        same_spot(s[k], points[j]),
{
    choose|k: int| 0 <= k < s.len() && same_spot(s[k], points[j])
}

/// The points in order are as plain as the given ones, and turn as truly.
proof fn lemma_points_in_order(points: Seq<Vertex>, s: Seq<Vertex>)
    requires
        in_order(s) && same_points(s, points),
        plain_points(points),
        true_turns(points),
    ensures
        rising(s, true),
        rising(s.reverse(), false),
        true_turns(s),
        true_turns(s.reverse()),
{
    let n = s.len() as int;
    assert forall|x: int| 0 <= x < s.len() implies plain((#[trigger] s[x])[0]) && plain(
        s[x][1],
    ) by {
        assert(points.contains(s[x]));
    }
    assert forall|x: int, y: int, w: int|
        0 <= x < n && 0 <= y < n && 0 <= w < n implies #[trigger] true_turn(s[x], s[y], s[w]) by {
        assert(points.contains(s[x]) && points.contains(s[y]) && points.contains(s[w]));
        lemma_true_turn(points, s[x], s[y], s[w]);
    }
    let t = s.reverse();
    assert forall|x: int, y: int, w: int|
        0 <= x < n && 0 <= y < n && 0 <= w < n implies #[trigger] true_turn(t[x], t[y], t[w]) by {
        assert(true_turn(s[n - 1 - x], s[n - 1 - y], s[n - 1 - w]));
    }
    lemma_rising(s);
}

/// The sides of a hull are the legs of its two chains.
proof fn lemma_sides(s: Seq<Vertex>, i: int, k: int)
    requires
        rising(s, true),
        rising(s.reverse(), false),
        true_turns(s),
        true_turns(s.reverse()),
        s.len() > 2,
        0 <= i < hull_of(s).len(),
        0 <= k < s.len(),
    ensures
        area(hull_of(s)[i], hull_of(s)[behind(i, hull_of(s).len() as int)], s[k]) >= 0,
{
    let hull = hull_of(s);
    let n = s.len() as int;
    let t = s.reverse();
    lemma_chain_holds(s, n, true);
    lemma_chain_holds(t, n, false);
    let (lower, upper) = (side_chain(s, n), side_chain(t, n));
    assert(t[0] == s[n - 1] && t[n - 1] == s[0] && t[n - 1 - k] == s[k]);
    assert(key(s[0], true) < key(s[n - 1], true));
    assert(lower.len() >= 2 && upper.len() >= 2);
    let a = lower.len() - 1;
    if i < a {
        lemma_leg(s, lower, i, k, true);
        assert(hull[i] == lower[i]);
        assert(hull[behind(i, hull.len() as int)] == lower[i + 1]);
    } else {
        lemma_leg(t, upper, i - a, n - 1 - k, false);
        assert(hull[i] == upper[i - a]);
        assert(hull[behind(i, hull.len() as int)] == upper[i - a + 1]);
    }
}

/// Whether a triangle is not so flat that rounding could tell on which side it lies:
/// twice its area is more than part 2^-44 of the square of a bound on the coordinates,
/// unless two of its corners are the same. The bound is 2^`z` units of 2^-1074.
pub open spec fn not_flat(o: Vertex, a: Vertex, b: Vertex, z: nat) -> bool {
    ||| same_spot(o, a) || same_spot(a, b) || same_spot(o, b)
    ||| absolute(area(o, a, b)) > 64 * (pow2(z) * grain(z))
}

/// Whether the coordinates of some points are within a bound, and no three points lie
/// nearly on a line.
pub open spec fn scattered(points: Seq<Vertex>, z: nat) -> bool {
    &&& forall|i: int|
        0 <= i < points.len() ==> within((#[trigger] points[i])[0], z) && within(points[i][1], z)
    &&& forall|i: int, j: int, k: int|
        0 <= i < points.len() && 0 <= j < points.len() && 0 <= k < points.len()
            ==> #[trigger] not_flat(points[i], points[j], points[k], z)
}

/// The difference of the same number.
pub proof fn lemma_no_difference(a: Scalar, b: Scalar)
    requires
        a.finite() && b.finite(),
        a.value() == b.value(),
    ensures
        (a - b).finite() && (a - b).value() == 0,
{
    reveal(Scalar::plus);
    assert(magnitude_value(0) == 0);
    assert(b.opposite().magnitude_bits() == b.magnitude_bits());
}

/// A product with zero.
proof fn lemma_no_product(a: Scalar, b: Scalar)
    requires
        a.finite() && b.finite(),
        a.value() == 0 || b.value() == 0,
    ensures
        (a * b).finite() && (a * b).value() == 0,
{
    reveal(Scalar::times);
    lemma_pow2_pos(1074);
    lemma_absolute_value(a);
    lemma_absolute_value(b);
    assert(magnitude_value(0) == 0);
    let (x, y, one) = (absolute(a.value()), absolute(b.value()), pow2(1074) as int);
    let n = x * y;
    assert(n == 0) by (nonlinear_arith)
        requires
            n == x * y,
            x == 0 || y == 0,
    ;
    assert(0 * one == 0);
    lemma_at_most(0, one, 0);
    lemma_nearest_exists(0, one);
    let m = nearest(0, one);
    if m > 0 {
        lemma_magnitude_monotone(0, m);
    }
    lemma_signed_value(a * b, a.negative() != b.negative(), m);
}

/// A product of numbers that are the same the other way round.
proof fn lemma_swapped_product(a: Scalar, b: Scalar, c: Scalar, d: Scalar)
    requires
        a.finite() && b.finite() && c.finite() && d.finite(),
        a.value() == d.value() && b.value() == c.value(),
        (a * b).finite(),
    ensures
        (c * d).finite() && (c * d).value() == (a * b).value(),
{
    if a.value() == 0 || b.value() == 0 {
        lemma_no_product(a, b);
        lemma_no_product(c, d);
    } else {
        reveal(Scalar::times);
        lemma_absolute_value(a);
        lemma_absolute_value(b);
        lemma_absolute_value(c);
        lemma_absolute_value(d);
        let (x, y) = (absolute(a.value()), absolute(b.value()));
        assert(x * y == y * x) by (nonlinear_arith);
    }
}

/// A coordinate of one point seen from another.
pub proof fn lemma_step(a: Scalar, o: Scalar, z: nat)
    requires
        is_bound(z),
        within(a, z) && within(o, z),
    ensures
        (a - o).finite(),
        apart((a - o).value(), a.value() - o.value(), grain(z)),
        -3 * pow2(z) <= (a - o).value() <= 3 * pow2(z),
{
    lemma_scale(z);
    lemma_place_difference(a, o, z);
}

/// The product of two coordinates.
proof fn lemma_area_part(x: Scalar, y: Scalar, u: int, v: int, z: nat)
    requires
        is_bound(z) && z <= 1580,
        x.finite() && y.finite(),
        -2 * pow2(z) <= u <= 2 * pow2(z),
        -2 * pow2(z) <= v <= 2 * pow2(z),
        apart(x.value(), u, grain(z)),
        apart(y.value(), v, grain(z)),
    ensures
        is_bound((2 * z - 1071) as nat),
        (x * y).finite(),
        -pow2((2 * z - 1071) as nat) <= (x * y).value() <= pow2((2 * z - 1071) as nat),
        apart((x * y).value() * pow2(1074), u * v, 13 * (pow2(z) * grain(z))),
        pow2(1074) * grain((2 * z - 1071) as nat) == 8 * (pow2(z) * grain(z)),
{
    lemma_scale(z);
    lemma_pow2_pos(1074);
    lemma2_to64();
    let w = (2 * z - 1071) as nat;
    let (t, g, one) = (pow2(z) as int, grain(z), pow2(1074) as int);
    lemma_pow2_adds(z, z);
    lemma_pow2_adds(3, 2 * z);
    lemma_pow2_adds(1074, w);
    lemma_pow2_adds(z, (z - 50) as nat);
    lemma_pow2_adds(3, (2 * z - 50) as nat);
    lemma_pow2_adds(1074, (w - 50) as nat);
    let (a, b) = (x.value(), y.value());
    let off = a * b - u * v;
    assert(pow2(w) * one == 8 * (t * t)) by (nonlinear_arith)
        requires
            one * pow2(w) == 8 * (t * t),
    ;
    assert(-(5 * (t * g)) <= off && off <= 5 * (t * g)) by (nonlinear_arith)
        requires
            off == a * b - u * v,
            -g <= a - u <= g,
            -g <= b - v <= g,
            -2 * t <= u <= 2 * t,
            -2 * t <= v <= 2 * t,
            t == 0x4_0000_0000_0000 * g,
            g > 0,
    ;
    assert(-(8 * (t * t)) <= a * b && a * b <= 8 * (t * t)) by (nonlinear_arith)
        requires
            -(2 * t + g) <= a <= 2 * t + g,
            -(2 * t + g) <= b <= 2 * t + g,
            t == 0x4_0000_0000_0000 * g,
            g > 0,
    ;
    lemma_product(x, y, w);
}

/// Rounding leaves the side on which a triangle lies as it is, where the triangle is not
/// too flat.
pub proof fn law_side_of_triangle_is_told(o: Vertex, a: Vertex, b: Vertex, z: nat)
    requires
        is_bound(z) && z <= 1580,
        within(o[0], z) && within(o[1], z),
        within(a[0], z) && within(a[1], z),
        within(b[0], z) && within(b[1], z),
        not_flat(o, a, b, z),
    ensures
        true_turn(o, a, b),
{
    reveal(area);
    lemma_scale(z);
    lemma_pow2_pos(1074);
    lemma_count(0);
    assert(whole(0).value() == 0) by {
        assert(units(0) == 0) by (nonlinear_arith)
            requires
                units(0) == 0 * pow2(1074),
        ;
    }
    lemma_step(a[0], o[0], z);
    lemma_step(b[1], o[1], z);
    lemma_step(a[1], o[1], z);
    lemma_step(b[0], o[0], z);
    let (x, y, p, q) = (a[0] - o[0], b[1] - o[1], a[1] - o[1], b[0] - o[0]);
    let (xv, yv) = (a[0].value() - o[0].value(), b[1].value() - o[1].value());
    let (pv, qv) = (a[1].value() - o[1].value(), b[0].value() - o[0].value());
    lemma_area_part(x, y, xv, yv, z);
    lemma_area_part(p, q, pv, qv, z);
    let w = (2 * z - 1071) as nat;
    lemma_place_difference(x * y, p * q, w);
    let (one, k) = (pow2(1074) as int, pow2(z) * grain(z));
    let (m, n, c) = ((x * y).value(), (p * q).value(), cross(o, a, b).value());
    if same_spot(o, a) {
        lemma_no_difference(a[0], o[0]);
        lemma_no_difference(a[1], o[1]);
        lemma_no_product(x, y);
        lemma_no_product(p, q);
        lemma_no_difference(x * y, p * q);
        assert(xv * yv == 0 && pv * qv == 0) by (nonlinear_arith)
            requires
                xv == 0,
                pv == 0,
        ;
    } else if same_spot(o, b) {
        lemma_no_difference(b[0], o[0]);
        lemma_no_difference(b[1], o[1]);
        lemma_no_product(x, y);
        lemma_no_product(p, q);
        lemma_no_difference(x * y, p * q);
        assert(xv * yv == 0 && pv * qv == 0) by (nonlinear_arith)
            requires
                yv == 0,
                qv == 0,
        ;
    } else if same_spot(a, b) {
        lemma_swapped_product(x, y, p, q);
        lemma_no_difference(x * y, p * q);
        assert(xv * yv == pv * qv) by (nonlinear_arith)
            requires
                xv == qv,
                yv == pv,
        ;
    } else {
        let v = xv * yv - pv * qv;
        assert(-(34 * k) <= c * one - v && c * one - v <= 34 * k) by (nonlinear_arith)
            requires
                v == xv * yv - pv * qv,
                -(13 * k) <= m * one - xv * yv <= 13 * k,
                -(13 * k) <= n * one - pv * qv <= 13 * k,
                -grain(w) <= c - (m - n) <= grain(w),
                one * grain(w) == 8 * k,
                one > 0,
        ;
        assert(c > 0 <==> v > 0) by (nonlinear_arith)
            requires
                -(34 * k) <= c * one - v <= 34 * k,
                v > 64 * k || v < -(64 * k),
                k >= 0,
                one > 0,
        ;
    }
}

/// Every given point lies on the left of every side of the hull, or on the side itself,
/// where no three points lie nearly on a line.
pub proof fn law_hull_holds_scattered_points(
    points: Seq<Vertex>,
    s: Seq<Vertex>,
    i: int,
    j: int,
    z: nat,
)
    requires
        in_order(s) && same_points(s, points),
        plain_points(points),
        is_bound(z) && z <= 1580,
        scattered(points, z),
        0 <= i < hull_of(s).len(),
        0 <= j < points.len(),
    ensures
        ({
            let hull = hull_of(s);
            area(hull[i], hull[behind(i, hull.len() as int)], points[j]) >= 0
        }),
{
    assert forall|a: int, b: int, c: int|
        0 <= a < points.len() && 0 <= b < points.len() && 0 <= c
            < points.len() implies #[trigger] true_turn(points[a], points[b], points[c]) by {
        assert(not_flat(points[a], points[b], points[c], z));
        law_side_of_triangle_is_told(points[a], points[b], points[c], z);
    }
    law_hull_holds_its_points(points, s, i, j);
}

} // verus!
