//! A place is in a convex polygon where it is on the inner side of every edge.

use crate::crossing::{
    before, east, law_crossed_edge_has_place_on_its_side, left_by, lemma_sign, north, rise, spans,
};
use crate::corner::lemma_exchange_other;
use crate::exact::{lemma_order, num, size};
use crate::geometry::{crossings, inside_polygon, ray_crosses, rectangle_meets_polygon, Vertex};
use crate::ring::{lemma_is, lemma_minus, lemma_plus, lemma_swap, lemma_turn, prod};
use crate::scalar::Scalar;
use crate::widen::{modest, modest_corner};
use vstd::prelude::*;

verus! {

/// Whether every corner of a polygon lies on the left of every edge that it is not an end
/// of: the polygon is convex and runs anticlockwise.
pub open spec fn convex(v: Seq<Vertex>) -> bool {
    &&& v.len() >= 3
    &&& forall|e: int, k: int|
        0 <= e < v.len() && 0 <= k < v.len() && k != e && k != before(e, v.len() as int)
            ==> #[trigger] left_of(v, e, k) > 0real
}

/// The cross product of edge `e` with corner `k`.
pub open spec fn left_of(v: Seq<Vertex>, e: int, k: int) -> real {
    left_by(v, e, east(v, k), north(v, k))
}

/// The ends of an edge lie on it.
proof fn lemma_ends(v: Seq<Vertex>, e: int)
    requires
        0 <= e < v.len(),
    ensures
        left_of(v, e, e) == 0real,
        left_of(v, e, before(e, v.len() as int)) == 0real,
{
    let a = before(e, v.len() as int);
    let (dx, dy) = (east(v, e) - east(v, a), rise(v, e));
    lemma_turn(dx, dy);
    lemma_sign(dx, 0real);
    lemma_sign(dy, 0real);
}

/// No corner of a convex polygon lies on the right of an edge.
proof fn lemma_not_right(v: Seq<Vertex>, e: int, k: int)
    requires
        convex(v),
        0 <= e < v.len(),
        0 <= k < v.len(),
    ensures
        left_of(v, e, k) >= 0real,
        left_of(v, e, k) == 0real ==> k == e || k == before(e, v.len() as int),
{
    lemma_ends(v, e);
}

/// Where edge `e` meets a height that it spans.
proof fn lemma_place_on(v: Seq<Vertex>, e: int, y: real) -> (x: real)
    requires
        0 <= e < v.len(),
        spans(v, e, y),
    ensures
        ({
            let a = before(e, v.len() as int);
            prod(rise(v, e), x - east(v, a)) == prod(east(v, e) - east(v, a), y - north(v, a))
        }),
{
    let a = before(e, v.len() as int);
    let (h, m) = (rise(v, e), prod(east(v, e) - east(v, a), y - north(v, a)));
    let q = m / h;
    assert(h * q == m) by (nonlinear_arith)
        requires
            q == m / h,
            h != 0real,
    ;
    lemma_is(h, q);
    q + east(v, a)
}

/// The side of a place beside an edge that spans its height.
proof fn lemma_beside(v: Seq<Vertex>, e: int, x: real, y: real, at: real)
    requires
        0 <= e < v.len(),
        ({
            let a = before(e, v.len() as int);
            prod(rise(v, e), at - east(v, a)) == prod(east(v, e) - east(v, a), y - north(v, a))
        }),
    ensures
        left_by(v, e, x, y) == prod(rise(v, e), at - x),
{
    let a = before(e, v.len() as int);
    lemma_minus(rise(v, e), at - east(v, a), x - east(v, a));
    assert(at - east(v, a) - (x - east(v, a)) == at - x);
}

/// What holds of both ends of an edge holds of where it meets a height.
#[verifier::rlimit(50)]
proof fn lemma_between(v: Seq<Vertex>, e: int, f: int, y: real, at: real)
    requires
        convex(v),
        0 <= e < v.len(),
        0 <= f < v.len(),
        spans(v, f, y),
        ({
            let c = before(f, v.len() as int);
            prod(rise(v, f), at - east(v, c)) == prod(east(v, f) - east(v, c), y - north(v, c))
        }),
    ensures
        left_by(v, e, at, y) >= 0real,
        left_by(v, e, at, y) == 0real ==> ({
            let c = before(f, v.len() as int);
            // The end that is above lies on the edge, or the one that is not.
            if north(v, f) > y {
                left_of(v, e, c) == 0real
            } else {
                left_of(v, e, f) == 0real
            }
        }),
{
    let n = v.len() as int;
    let (c, d) = (before(f, n), f);
    let (w, s, t) = (rise(v, f), north(v, d) - y, y - north(v, c));
    lemma_not_right(v, e, c);
    lemma_not_right(v, e, d);
    let (lc, ld, lp) = (left_of(v, e, c), left_of(v, e, d), left_by(v, e, at, y));
    lemma_weights(v, e, east(v, c), north(v, c), east(v, d), north(v, d), at, y);
    assert(prod(w, lp) == prod(s, lc) + prod(t, ld));
    lemma_sign(w, lp);
    lemma_sign(s, lc);
    lemma_sign(t, ld);
    lemma_sign(-w, lp);
    lemma_sign(-s, lc);
    lemma_sign(-t, ld);
    lemma_opposite(w, lp);
    lemma_opposite(s, lc);
    lemma_opposite(t, ld);
}

proof fn lemma_opposite(a: real, b: real)
    ensures
        prod(-a, b) == -prod(a, b),
{
    lemma_is(-a, b);
    lemma_is(a, b);
    assert((-a) * b == -(a * b)) by (nonlinear_arith);
}

/// The cross product of a place between two others.
#[verifier::rlimit(50)]
proof fn lemma_weights(
    v: Seq<Vertex>,
    e: int,
    cx: real,
    cy: real,
    dx: real,
    dy: real,
    x: real,
    y: real,
)
    requires
        prod(dy - cy, x - cx) == prod(dx - cx, y - cy),
    ensures
        prod(dy - cy, left_by(v, e, x, y)) == prod(dy - y, left_by(v, e, cx, cy)) + prod(
            y - cy,
            left_by(v, e, dx, dy),
        ),
{
    let a = before(e, v.len() as int);
    let (ax, ay) = (east(v, a), north(v, a));
    let (p, q) = (east(v, e) - ax, rise(v, e));
    let (w, s, t) = (dy - cy, dy - y, y - cy);
    lemma_minus(w, prod(p, y - ay), prod(q, x - ax));
    lemma_minus(s, prod(p, cy - ay), prod(q, cx - ax));
    lemma_minus(t, prod(p, dy - ay), prod(q, dx - ax));
    lemma_swap(w, p, y - ay);
    lemma_swap(w, q, x - ax);
    lemma_swap(s, p, cy - ay);
    lemma_swap(s, q, cx - ax);
    lemma_swap(t, p, dy - ay);
    lemma_swap(t, q, dx - ax);
    // Weighed heights and places.
    lemma_heights(dy, cy, y, ay);
    lemma_places(cx, cy, dx, dy, x, y, ax);
    lemma_plus(p, prod(s, cy - ay), prod(t, dy - ay));
    lemma_plus(q, prod(s, cx - ax), prod(t, dx - ax));
}

proof fn lemma_heights(dy: real, cy: real, y: real, ay: real)
    ensures
        prod(dy - cy, y - ay) == prod(dy - y, cy - ay) + prod(y - cy, dy - ay),
{
    let (a, b, c) = (cy - ay, dy - ay, y - ay);
    // (b - a) c == (b - c) a + (c - a) b.
    assert(dy - cy == b - a && dy - y == b - c && y - cy == c - a);
    lemma_minus(c, b, a);
    lemma_minus(a, b, c);
    lemma_minus(b, c, a);
    lemma_turn(c, b - a);
    lemma_turn(a, b - c);
    lemma_turn(b, c - a);
    lemma_turn(a, b);
    lemma_turn(b, c);
    lemma_turn(a, c);
}

proof fn lemma_places(cx: real, cy: real, dx: real, dy: real, x: real, y: real, ax: real)
    requires
        prod(dy - cy, x - cx) == prod(dx - cx, y - cy),
    ensures
        prod(dy - cy, x - ax) == prod(dy - y, cx - ax) + prod(y - cy, dx - ax),
{
    let (w, s, t) = (dy - cy, dy - y, y - cy);
    lemma_plus(w, x - cx, cx - ax);
    assert(x - cx + (cx - ax) == x - ax);
    lemma_turn(dx - cx, t);
    lemma_minus(t, dx - ax, cx - ax);
    assert(dx - ax - (cx - ax) == dx - cx);
    // w == s + t.
    lemma_plus(cx - ax, s, t);
    lemma_turn(cx - ax, s);
    lemma_turn(cx - ax, t);
    lemma_turn(cx - ax, w);
    assert(s + t == w);
}

/// Two edges of a convex polygon that span a height in the same sense are one.
proof fn lemma_one_way(v: Seq<Vertex>, e: int, f: int, y: real)
    requires
        convex(v),
        0 <= e < v.len(),
        0 <= f < v.len(),
        spans(v, e, y) && spans(v, f, y),
        (north(v, e) > y) == (north(v, f) > y),
    ensures
        e == f,
{
    let n = v.len() as int;
    let xe = lemma_place_on(v, e, y);
    let xf = lemma_place_on(v, f, y);
    lemma_between(v, e, f, y, xf);
    lemma_between(v, f, e, y, xe);
    lemma_beside(v, e, xf, y, xe);
    lemma_beside(v, f, xe, y, xf);
    lemma_sign(rise(v, e), xe - xf);
    lemma_sign(rise(v, f), xf - xe);
    lemma_sign(-rise(v, e), xe - xf);
    lemma_sign(-rise(v, f), xf - xe);
    lemma_opposite(rise(v, e), xe - xf);
    lemma_opposite(rise(v, f), xf - xe);
    assert(xe == xf);
    assert(left_by(v, e, xf, y) == 0real);
    lemma_not_right(v, e, before(f, n));
    lemma_not_right(v, e, f);
}

/// Whether edge `e` leads from a corner that is not above a height to one that is.
pub open spec fn goes_up(v: Seq<Vertex>, e: int, y: real) -> bool {
    spans(v, e, y) && north(v, e) > y
}

/// Without an edge that leads up, the corners behind one that is not above a height are
/// not above it either.
proof fn lemma_stays_down(v: Seq<Vertex>, y: real, i: int, j: int)
    requires
        0 <= i <= j < v.len(),
        forall|e: int| 0 <= e < v.len() ==> !#[trigger] goes_up(v, e, y),
        !(north(v, i) > y),
    ensures
        !(north(v, j) > y),
    decreases j - i,
{
    if i < j {
        lemma_stays_down(v, y, i, j - 1);
        assert(!goes_up(v, j, y));
    }
}

/// Without an edge that leads up, all corners are above a height, or none.
proof fn lemma_all_or_none(v: Seq<Vertex>, y: real)
    requires
        v.len() >= 3,
        forall|e: int| 0 <= e < v.len() ==> !#[trigger] goes_up(v, e, y),
    ensures
        (forall|k: int| 0 <= k < v.len() ==> #[trigger] north(v, k) > y) || (forall|k: int|
            0 <= k < v.len() ==> !(#[trigger] north(v, k) > y)),
{
    let n = v.len() as int;
    if exists|k: int| 0 <= k < n && !(#[trigger] north(v, k) > y) {
        let k = choose|k: int| 0 <= k < n && !(#[trigger] north(v, k) > y);
        lemma_stays_down(v, y, k, n - 1);
        assert(!goes_up(v, 0, y));
        assert forall|j: int| 0 <= j < n implies !(#[trigger] north(v, j) > y) by {
            lemma_stays_down(v, y, 0, j);
        }
    }
}

/// Height, or depth.
spec fn level(v: Seq<Vertex>, k: int, top: bool) -> real {
    if top {
        north(v, k)
    } else {
        -north(v, k)
    }
}

/// The highest or the lowest of the first corners.
proof fn lemma_extreme(v: Seq<Vertex>, k: int, top: bool) -> (m: int)
    requires
        1 <= k <= v.len(),
    ensures
        0 <= m < k,
        forall|j: int| 0 <= j < k ==> #[trigger] level(v, j, top) <= level(v, m, top),
    decreases k,
{
    if k == 1 {
        0
    } else {
        let m = lemma_extreme(v, k - 1, top);
        if level(v, k - 1, top) > level(v, m, top) {
            k - 1
        } else {
            m
        }
    }
}

/// The side of a place beside the edge that ends in corner `m`, seen from there.
proof fn lemma_seen_from_end(v: Seq<Vertex>, m: int, x: real, y: real)
    requires
        0 <= m < v.len(),
    ensures
        ({
            let a = before(m, v.len() as int);
            let (ax, ay) = (east(v, a) - east(v, m), north(v, a) - north(v, m));
            left_by(v, m, x, y) == prod(x - east(v, m), ay) - prod(y - north(v, m), ax)
        }),
{
    let a = before(m, v.len() as int);
    let (ax, ay) = (east(v, a) - east(v, m), north(v, a) - north(v, m));
    let (px, py) = (x - east(v, m), y - north(v, m));
    assert(east(v, m) - east(v, a) == -ax && rise(v, m) == -ay);
    assert(x - east(v, a) == px - ax && y - north(v, a) == py - ay);
    lemma_opposite(ax, py - ay);
    lemma_opposite(ay, px - ax);
    lemma_minus(ax, py, ay);
    lemma_minus(ay, px, ax);
    lemma_turn(ax, ay);
    lemma_turn(ax, py);
    lemma_turn(ay, px);
}

/// A place below or above all corners is not on the left of all edges.
#[verifier::rlimit(50)]
proof fn lemma_in_height(v: Seq<Vertex>, x: real, y: real, top: bool)
    requires
        convex(v),
        forall|k: int| 0 <= k < v.len() ==> (#[trigger] north(v, k) > y) == !top,
    ensures
        exists|e: int| 0 <= e < v.len() && !(#[trigger] left_by(v, e, x, y) > 0real),
{
    let n = v.len() as int;
    let m = lemma_extreme(v, n, top);
    let a = before(m, n);
    let f = if m == n - 1 {
        0
    } else {
        m + 1
    };
    let (mx, my) = (east(v, m), north(v, m));
    let (ax, ay) = (east(v, a) - mx, north(v, a) - my);
    let (bx, by) = (east(v, f) - mx, north(v, f) - my);
    let (px, py) = (x - mx, y - my);
    assert(before(f, n) == m);
    lemma_seen_from_end(v, m, x, y);
    lemma_seen_from_end(v, m, east(v, f), north(v, f));
    assert(0 <= f < n && 0 <= m < n);
    let (lf, lm, lb) = (left_by(v, f, x, y), left_by(v, m, x, y), left_of(v, m, f));
    assert(lb > 0real);
    assert(lf == prod(bx, py) - prod(by, px));
    assert(lm == prod(px, ay) - prod(py, ax));
    assert(lb == prod(bx, ay) - prod(by, ax));
    lemma_minus(ay, prod(bx, py), prod(by, px));
    lemma_minus(by, prod(px, ay), prod(py, ax));
    lemma_minus(py, prod(bx, ay), prod(by, ax));
    lemma_exchange_other(ay, bx, py);
    lemma_swap(ay, by, px);
    lemma_turn(ay, px);
    lemma_swap(by, py, ax);
    assert(prod(ay, lf) + prod(by, lm) == prod(py, lb));
    assert(level(v, a, top) <= level(v, m, top) && level(v, f, top) <= level(v, m, top));
    assert((north(v, m) > y) == !top);
    lemma_sign(ay, lf);
    lemma_sign(by, lm);
    lemma_sign(py, lb);
    lemma_sign(-ay, lf);
    lemma_sign(-by, lm);
    lemma_opposite(ay, lf);
    lemma_opposite(by, lm);
    lemma_sign(-py, lb);
    lemma_opposite(py, lb);
    lemma_sign(bx, ay);
    lemma_sign(by, ax);
}

/// Whether no edge that spans the height of a place is nearly level there, or so near to
/// the place that rounding could tell its side wrongly.
pub open spec fn clear_of_edges(px: Scalar, py: Scalar, v: Seq<Vertex>) -> bool {
    &&& modest(px) && modest(py)
    &&& forall|k: int| 0 <= k < v.len() ==> modest_corner(#[trigger] v[k])
    &&& forall|e: int|
        0 <= e < v.len() && #[trigger] spans(v, e, num(py)) ==> size(rise(v, e)) >= 1real
            / 1000000000real && size(left_by(v, e, num(px), num(py))) > size(rise(v, e))
            / 10000000000real
}

/// One edge that is crossed, or two.
proof fn lemma_counted(px: Scalar, py: Scalar, v: Seq<Vertex>, k: int, u: int, d: int)
    requires
        0 <= k <= v.len(),
        forall|e: int|
            0 <= e < v.len() && e != u && e != d ==> !#[trigger] ray_crosses(px, py, v, e),
        u != d,
    ensures
        crossings(px, py, v, k) == (if 0 <= u < k && ray_crosses(px, py, v, u) {
            1int
        } else {
            0
        }) + (if 0 <= d < k && ray_crosses(px, py, v, d) {
            1int
        } else {
            0
        }),
    decreases k,
{
    if k > 0 {
        lemma_counted(px, py, v, k - 1, u, d);
    }
}

proof fn lemma_told(px: Scalar, py: Scalar, v: Seq<Vertex>, e: int)
    requires
        v.len() >= 3,
        clear_of_edges(px, py, v),
        0 <= e < v.len(),
    ensures
        ray_crosses(px, py, v, e) <==> spans(v, e, num(py)) && (left_by(v, e, num(px), num(py))
            > 0real) == (rise(v, e) > 0real),
{
    let a = before(e, v.len() as int);
    assert(modest_corner(v[e]) && modest_corner(v[a]));
    law_crossed_edge_has_place_on_its_side(px, py, v, e);
}

/// A place on the inner side of every edge of a convex polygon is in it.
pub proof fn law_place_within_all_edges_is_inside(px: Scalar, py: Scalar, v: Seq<Vertex>)
    requires
        convex(v),
        clear_of_edges(px, py, v),
        forall|e: int| 0 <= e < v.len() ==> #[trigger] left_by(v, e, num(px), num(py)) > 0real,
    ensures
        inside_polygon(px, py, v),
{
    let n = v.len() as int;
    let y = num(py);
    if forall|e: int| 0 <= e < n ==> !#[trigger] goes_up(v, e, y) {
        lemma_all_or_none(v, y);
        if north(v, 0) > y {
            lemma_in_height(v, num(px), y, false);
        } else {
            lemma_in_height(v, num(px), y, true);
        }
    }
    let u = choose|e: int| 0 <= e < n && #[trigger] goes_up(v, e, y);
    assert forall|e: int| 0 <= e < n && e != u && e != -1 implies !#[trigger] ray_crosses(
        px,
        py,
        v,
        e,
    ) by {
        lemma_told(px, py, v, e);
        assert(left_by(v, e, num(px), num(py)) > 0real);
        if spans(v, e, y) && rise(v, e) > 0real {
            lemma_one_way(v, e, u, y);
        }
    }
    lemma_told(px, py, v, u);
    assert(left_by(v, u, num(px), num(py)) > 0real);
    lemma_counted(px, py, v, n, u, -1);
}

/// Without an edge that leads down, there is none that leads up.
proof fn lemma_up_and_down(v: Seq<Vertex>, y: real, u: int) -> (d: int)
    requires
        v.len() >= 3,
        0 <= u < v.len(),
        goes_up(v, u, y),
    ensures
        0 <= d < v.len(),
        spans(v, d, y) && !(north(v, d) > y),
{
    let n = v.len() as int;
    let a = before(u, n);
    if forall|e: int| 0 <= e < n ==> !(spans(v, e, y) && !(#[trigger] north(v, e) > y)) {
        lemma_stays_up(v, y, u, n - 1);
        assert(!(spans(v, 0, y) && !(north(v, 0) > y)));
        lemma_stays_up(v, y, 0, a);
    }
    choose|e: int| 0 <= e < n && spans(v, e, y) && !(#[trigger] north(v, e) > y)
}

proof fn lemma_stays_up(v: Seq<Vertex>, y: real, i: int, j: int)
    requires
        0 <= i <= j < v.len(),
        forall|e: int| 0 <= e < v.len() ==> !(spans(v, e, y) && !(#[trigger] north(v, e) > y)),
        north(v, i) > y,
    ensures
        north(v, j) > y,
    decreases j - i,
{
    if i < j {
        lemma_stays_up(v, y, i, j - 1);
        assert(!(spans(v, j, y) && !(north(v, j) > y)));
    }
}

/// A place on the outer side of some edge of a convex polygon is not in it.
pub proof fn law_place_beyond_an_edge_is_outside(px: Scalar, py: Scalar, v: Seq<Vertex>, m: int)
    requires
        convex(v),
        clear_of_edges(px, py, v),
        0 <= m < v.len(),
        left_by(v, m, num(px), num(py)) < 0real,
    ensures
        !inside_polygon(px, py, v),
{
    let n = v.len() as int;
    let (x, y) = (num(px), num(py));
    if exists|e: int| 0 <= e < n && #[trigger] goes_up(v, e, y) {
        let u = choose|e: int| 0 <= e < n && #[trigger] goes_up(v, e, y);
        let d = lemma_up_and_down(v, y, u);
        lemma_two_edges(px, py, v, m, u, d);
    } else {
        lemma_all_or_none(v, y);
        assert forall|e: int| 0 <= e < n && e != -1 && e != -2 implies !#[trigger] ray_crosses(
            px,
            py,
            v,
            e,
        ) by {
            lemma_told(px, py, v, e);
            assert((north(v, e) > y) == (north(v, before(e, n)) > y));
        }
        lemma_counted(px, py, v, n, -1, -2);
    }
}

/// A place between two edges is beyond none.
proof fn lemma_not_beyond(v: Seq<Vertex>, m: int, x: real, y: real, left: real, right: real)
    requires
        left_by(v, m, left, y) >= 0real,
        left_by(v, m, right, y) >= 0real,
        left <= x <= right,
    ensures
        left_by(v, m, x, y) >= 0real,
{
    let a = before(m, v.len() as int);
    let (ax, b) = (east(v, a), rise(v, m));
    lemma_minus(b, right - ax, x - ax);
    lemma_minus(b, x - ax, left - ax);
    assert(right - ax - (x - ax) == right - x && x - ax - (left - ax) == x - left);
    lemma_sign(b, right - x);
    lemma_sign(b, x - left);
    lemma_sign(-b, right - x);
    lemma_sign(-b, x - left);
    lemma_opposite(b, right - x);
    lemma_opposite(b, x - left);
}

/// The two edges that span the height of a place beyond an edge are both crossed, or
/// neither is.
#[verifier::rlimit(50)]
proof fn lemma_two_edges(px: Scalar, py: Scalar, v: Seq<Vertex>, m: int, u: int, d: int)
    requires
        convex(v),
        clear_of_edges(px, py, v),
        0 <= m < v.len(),
        left_by(v, m, num(px), num(py)) < 0real,
        0 <= u < v.len(),
        0 <= d < v.len(),
        goes_up(v, u, num(py)),
        spans(v, d, num(py)) && !(north(v, d) > num(py)),
    ensures
        !inside_polygon(px, py, v),
{
    let n = v.len() as int;
    let (x, y) = (num(px), num(py));
    assert forall|e: int| 0 <= e < n && e != u && e != d implies !#[trigger] ray_crosses(
        px,
        py,
        v,
        e,
    ) by {
        lemma_told(px, py, v, e);
        if spans(v, e, y) {
            if north(v, e) > y {
                lemma_one_way(v, e, u, y);
            } else {
                lemma_one_way(v, e, d, y);
            }
        }
    }
    lemma_counted(px, py, v, n, u, d);
    lemma_told(px, py, v, u);
    lemma_told(px, py, v, d);
    let xu = lemma_place_on(v, u, y);
    let xd = lemma_place_on(v, d, y);
    lemma_beside(v, u, x, y, xu);
    lemma_beside(v, d, x, y, xd);
    lemma_between(v, m, u, y, xu);
    lemma_between(v, m, d, y, xd);
    lemma_between(v, u, d, y, xd);
    lemma_beside(v, u, xd, y, xu);
    lemma_sign(rise(v, u), xu - x);
    lemma_sign(rise(v, d), xd - x);
    lemma_sign(rise(v, u), xu - xd);
    lemma_sign(-rise(v, u), xu - xd);
    lemma_opposite(rise(v, u), xu - xd);
    assert(xu >= xd);
    if xd <= x && x <= xu {
        lemma_not_beyond(v, m, x, y, xd, xu);
    }
    assert(spans(v, u, y) && spans(v, d, y));
}

/// A rectangle meets a polygon that has a corner in it, and one that holds a corner of it.
pub proof fn law_rectangle_meets_what_it_shares(
    x0: Scalar,
    y0: Scalar,
    x1: Scalar,
    y1: Scalar,
    v: Seq<Vertex>,
    i: int,
)
    requires
        v.len() >= 3,
        x0.finite() && y0.finite() && x1.finite() && y1.finite(),
        0 <= i < v.len(),
    ensures
        v[i][0].finite() && v[i][1].finite() && num(x0) <= num(v[i][0]) <= num(x1) && num(y0)
            <= num(v[i][1]) <= num(y1) ==> rectangle_meets_polygon(x0, y0, x1, y1, v),
        convex(v) && clear_of_edges(x0, y0, v) && (forall|e: int|
            0 <= e < v.len() ==> #[trigger] left_by(v, e, num(x0), num(y0))
                > 0real) ==> rectangle_meets_polygon(x0, y0, x1, y1, v),
        convex(v) && clear_of_edges(x1, y1, v) && (forall|e: int|
            0 <= e < v.len() ==> #[trigger] left_by(v, e, num(x1), num(y1))
                > 0real) ==> rectangle_meets_polygon(x0, y0, x1, y1, v),
{
    lemma_order(x0, v[i][0]);
    lemma_order(v[i][0], x1);
    lemma_order(y0, v[i][1]);
    lemma_order(v[i][1], y1);
    if convex(v) && clear_of_edges(x0, y0, v) && (forall|e: int|
        0 <= e < v.len() ==> #[trigger] left_by(v, e, num(x0), num(y0)) > 0real) {
        law_place_within_all_edges_is_inside(x0, y0, v);
    }
    if convex(v) && clear_of_edges(x1, y1, v) && (forall|e: int|
        0 <= e < v.len() ==> #[trigger] left_by(v, e, num(x1), num(y1)) > 0real) {
        law_place_within_all_edges_is_inside(x1, y1, v);
    }
}

} // verus!
