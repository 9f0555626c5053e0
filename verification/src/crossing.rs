//! Which edges of a polygon a ray crosses.

use crate::exact::{about, far, lemma_add, lemma_least, lemma_order, lemma_sub, num, size};
use crate::geometry::{ray_crosses, Vertex};
use crate::ring::{
    lemma_bound, lemma_is, lemma_minus, lemma_product, lemma_quotient, lemma_turn, prod,
};
use crate::scalar::Scalar;
use crate::widen::{modest, modest_corner};
use vstd::prelude::*;

verus! {

/// The corner before corner `i` of a polygon.
pub open spec fn before(i: int, n: int) -> int {
    if i == 0 {
        n - 1
    } else {
        i - 1
    }
}

/// The coordinates of corner `i`.
pub open spec fn east(v: Seq<Vertex>, i: int) -> real {
    num(v[i][0])
}

pub open spec fn north(v: Seq<Vertex>, i: int) -> real {
    num(v[i][1])
}

/// How far edge `e`, which ends in corner `e`, rises.
pub open spec fn rise(v: Seq<Vertex>, e: int) -> real {
    north(v, e) - north(v, before(e, v.len() as int))
}

/// The cross product of edge `e` with a place: positive on its left.
pub open spec fn left_by(v: Seq<Vertex>, e: int, x: real, y: real) -> real {
    let a = before(e, v.len() as int);
    prod(east(v, e) - east(v, a), y - north(v, a)) - prod(rise(v, e), x - east(v, a))
}

/// Whether an edge has one end above a height and the other not.
pub open spec fn spans(v: Seq<Vertex>, e: int, y: real) -> bool {
    (north(v, e) > y) != (north(v, before(e, v.len() as int)) > y)
}

/// The sign of a product.
pub proof fn lemma_sign(a: real, b: real)
    ensures
        prod(a, b) > 0real <==> (a > 0real && b > 0real) || (a < 0real && b < 0real),
        prod(a, b) == 0real <==> a == 0real || b == 0real,
{
    lemma_is(a, b);
    if a > 0real && b > 0real {
        assert(a * b > 0real) by (nonlinear_arith)
            requires
                a > 0real,
                b > 0real,
        ;
    } else if a < 0real && b < 0real {
        assert(a * b > 0real) by (nonlinear_arith)
            requires
                a < 0real,
                b < 0real,
        ;
    } else if a == 0real || b == 0real {
        assert(a * b == 0real) by (nonlinear_arith)
            requires
                a == 0real || b == 0real,
        ;
    } else if a > 0real {
        assert(a * b < 0real) by (nonlinear_arith)
            requires
                a > 0real,
                b < 0real,
        ;
    } else {
        assert(a * b < 0real) by (nonlinear_arith)
            requires
                a < 0real,
                b > 0real,
        ;
    }
}

/// A factor of a product that is known.
proof fn lemma_factor(q: real, h: real, a: real)
    requires
        a > 0real,
        size(prod(q, h)) <= 2006real * a,
        100real * size(h) >= 99real * a,
    ensures
        size(q) <= 2100real,
{
    lemma_is(q, h);
    let (s, t) = (size(q), size(h));
    assert(size(q * h) == s * t) by (nonlinear_arith)
        requires
            s == size(q),
            t == size(h),
    ;
    if s > 2100real {
        assert(s * t >= 2079real * a) by (nonlinear_arith)
            requires
                s > 2100real,
                100real * t >= 99real * a,
                a > 0real,
        ;
    }
}

/// Where an edge is met, as a share of how far it runs.
#[verifier::rlimit(50)]
proof fn lemma_run(xi: Scalar, yi: Scalar, xj: Scalar, yj: Scalar, py: Scalar)
    requires
        modest(xi) && modest(yi) && modest(xj) && modest(yj) && modest(py),
        1real / 1000000000real <= size(num(yj) - num(yi)),
        size(num(py) - num(yi)) <= size(num(yj) - num(yi)),
    ensures
        ({
            let m = (xj - xi) * (py - yi);
            let a = size(num(yj) - num(yi));
            &&& m.finite()
            &&& about(
                num(m),
                prod(num(xj) - num(xi), num(py) - num(yi)),
                a / 200000000000real,
            )
            &&& size(num(m)) <= 2005real * a
        }),
{
    lemma_least();
    let a = size(num(yj) - num(yi));
    lemma_sub(xj, xi);
    lemma_sub(py, yi);
    let (dx, dy) = (num(xj - xi), num(py - yi));
    let (bx, by) = (num(xj) - num(xi), num(py) - num(yi));
    let f = a / 1000000000000000real;
    let e = 1real / 1000000000000real;
    assert(size(dy - by) <= f);
    assert(size(dx - bx) <= e);
    lemma_is(2001real, f);
    lemma_is(a, e);
    lemma_turn(a, e);
    lemma_is(e, a);
    lemma_bound(dx, dy - by, 2001real, f);
    lemma_bound(by, dx - bx, a, e);
    lemma_minus(dx, dy, by);
    lemma_minus(by, dx, bx);
    lemma_turn(dx, by);
    lemma_turn(bx, by);
    lemma_is(2000real, a);
    lemma_bound(bx, by, 2000real, a);
    assert(prod(a, e) == a / 1000000000000real);
    assert(size(prod(dx, dy)) <= 2004real * a);
    lemma_product(xj - xi, py - yi);
}

/// Where an edge is met.
#[verifier::rlimit(50)]
proof fn lemma_met(xi: Scalar, yi: Scalar, xj: Scalar, yj: Scalar, py: Scalar)
    requires
        modest(xi) && modest(yi) && modest(xj) && modest(yj) && modest(py),
        1real / 1000000000real <= size(num(yj) - num(yi)),
        size(num(py) - num(yi)) <= size(num(yj) - num(yi)),
    ensures
        ({
            let t = (xj - xi) * (py - yi) / (yj - yi) + xi;
            let h = num(yj) - num(yi);
            &&& t.finite()
            &&& about(
                prod(h, num(t) - num(xi)),
                prod(num(xj) - num(xi), num(py) - num(yi)),
                size(h) / 20000000000real,
            )
        }),
{
    lemma_least();
    lemma_run(xi, yi, xj, yj, py);
    let h = num(yj) - num(yi);
    let a = size(h);
    let m = (xj - xi) * (py - yi);
    lemma_sub(yj, yi);
    let g = num(yj - yi);
    let f = a / 1000000000000000real;
    assert(size(g - h) <= f);
    let small = a / 2real;
    lemma_is(far(), small);
    lemma_quotient(m, yj - yi, small);
    let q = num(m / (yj - yi));
    assert(size(prod(q, g)) <= 2006real * a);
    lemma_factor(q, g, a);
    lemma_is(2100real, f);
    lemma_bound(q, h - g, 2100real, f);
    lemma_minus(q, h, g);
    lemma_add(m / (yj - yi), xi);
    let t = num(m / (yj - yi) + xi);
    let e = 1real / 500000000000real;
    let d = t - num(xi) - q;
    assert(size(d) <= e);
    lemma_is(e, a);
    lemma_turn(e, a);
    lemma_bound(h, d, a, e);
    lemma_minus(h, t - num(xi), q);
    lemma_turn(h, q);
    assert(prod(a, e) == a / 500000000000real);
}

/// An edge counts as crossed by the ray from a place towards greater `x` exactly where it
/// spans the height of the place and the place lies on its left, if it rises, or on its
/// right, if it sinks; but for rounding.
#[verifier::rlimit(50)]
pub proof fn law_crossed_edge_has_place_on_its_side(
    px: Scalar,
    py: Scalar,
    v: Seq<Vertex>,
    e: int,
)
    requires
        0 <= e < v.len(),
        modest(px) && modest(py),
        modest_corner(v[e]) && modest_corner(v[before(e, v.len() as int)]),
        spans(v, e, num(py)) ==> size(rise(v, e)) >= 1real / 1000000000real && size(
            left_by(v, e, num(px), num(py)),
        ) > size(rise(v, e)) / 10000000000real,
    ensures
        ray_crosses(px, py, v, e) <==> spans(v, e, num(py)) && (left_by(v, e, num(px), num(py))
            > 0real) == (rise(v, e) > 0real),
{
    let a = before(e, v.len() as int);
    let (xi, yi) = (v[e][0], v[e][1]);
    let (xj, yj) = (v[a][0], v[a][1]);
    lemma_order(py, yi);
    lemma_order(py, yj);
    if spans(v, e, num(py)) {
        lemma_met(xi, yi, xj, yj, py);
        let t = (xj - xi) * (py - yi) / (yj - yi) + xi;
        lemma_order(px, t);
        let (x, y) = (num(px), num(py));
        let h = num(yj) - num(yi);
        lemma_same_side(num(xi), num(yi), num(xj), num(yj), x, y);
        let side = prod(num(xj) - num(xi), y - num(yi)) - prod(h, x - num(xi));
        assert(left_by(v, e, x, y) == -side);
        lemma_minus(h, num(t) - num(xi), x - num(xi));
        assert(num(t) - num(xi) - (x - num(xi)) == num(t) - x);
        lemma_sign(h, num(t) - x);
        lemma_sign(h, x - num(t));
    }
}

/// A cross product seen from the other end of the edge.
proof fn lemma_same_side(xi: real, yi: real, xj: real, yj: real, x: real, y: real)
    ensures
        prod(xi - xj, y - yj) - prod(yi - yj, x - xj) == -(prod(xj - xi, y - yi) - prod(
            yj - yi,
            x - xi,
        )),
{
    let (dx, dy) = (xj - xi, yj - yi);
    lemma_minus(xi - xj, y - yi, yj - yi);
    lemma_minus(yi - yj, x - xi, xj - xi);
    assert(y - yi - (yj - yi) == y - yj && x - xi - (xj - xi) == x - xj);
    lemma_negated(dx, y - yi);
    lemma_negated(dy, x - xi);
    lemma_negated(dx, dy);
    lemma_negated(dy, dx);
    lemma_turn(dx, dy);
    assert(xi - xj == -dx && yi - yj == -dy);
}

proof fn lemma_negated(a: real, b: real)
    ensures
        prod(-a, b) == -prod(a, b),
{
    lemma_is(-a, b);
    lemma_is(a, b);
    assert((-a) * b == -(a * b)) by (nonlinear_arith);
}

} // verus!
