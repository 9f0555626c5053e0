//! Segments that cross, and places in convex polygons, told by cross products.

use crate::convex::{behind, cross, in_convex, inside_edge};
use crate::exact::{about, lemma_least, lemma_num, lemma_order, lemma_sub, num, size};
use crate::geometry::{cross_product, segments_meet, Vertex};
use crate::nearby::{lemma_gap, lemma_near_pair, on_map};
use crate::numeric::whole;
use crate::ring::{lemma_turn, prod};
use crate::scalar::Scalar;
use crate::values::lemma_num_whole;
use vstd::prelude::*;

verus! {

/// The cross product of the ways from `a` to `b` and from `a` to `c`: positive if `c`
/// lies on the left of the way to `b`.
pub open spec fn turn(
    ax: Scalar,
    ay: Scalar,
    bx: Scalar,
    by: Scalar,
    cx: Scalar,
    cy: Scalar,
) -> real {
    prod(num(bx) - num(ax), num(cy) - num(ay)) - prod(num(by) - num(ay), num(cx) - num(ax))
}

/// Whether two numbers are on the map and at most 700 apart.
pub open spec fn close(a: Scalar, b: Scalar) -> bool {
    on_map(a) && on_map(b) && size(num(a) - num(b)) <= 700real
}

/// A cross product of differences.
#[verifier::rlimit(50)]
proof fn lemma_cross(ax: Scalar, ay: Scalar, bx: Scalar, by: Scalar, cx: Scalar, cy: Scalar)
    requires
        close(ax, bx) && close(ax, cx) && close(ay, by) && close(ay, cy),
    ensures
        ({
            let d = cross_product(bx - ax, by - ay, cx - ax, cy - ay);
            &&& d.finite()
            &&& about(num(d), turn(ax, ay, bx, by, cx, cy), 1real / 100000000real)
        }),
{
    lemma_least();
    lemma_gap(bx, ax);
    lemma_gap(by, ay);
    lemma_gap(cx, ax);
    lemma_gap(cy, ay);
    lemma_near_pair(bx - ax, cy - ay, num(bx) - num(ax), num(cy) - num(ay));
    lemma_near_pair(by - ay, cx - ax, num(by) - num(ay), num(cx) - num(ax));
    lemma_sub((bx - ax) * (cy - ay), (by - ay) * (cx - ax));
}

/// Whether a cross product is farther from nothing than rounding.
pub open spec fn clear(x: real) -> bool {
    size(x) > 1real / 50000000real
}

/// The sign of a cross product is told.
proof fn lemma_told(ax: Scalar, ay: Scalar, bx: Scalar, by: Scalar, cx: Scalar, cy: Scalar)
    requires
        close(ax, bx) && close(ax, cx) && close(ay, by) && close(ay, cy),
        clear(turn(ax, ay, bx, by, cx, cy)),
    ensures
        ({
            let d = cross_product(cx - ax, cy - ay, bx - ax, by - ay);
            &&& !d.zero()
            &&& d > whole(0) <==> turn(ax, ay, bx, by, cx, cy) < 0real
            &&& d < whole(0) <==> turn(ax, ay, bx, by, cx, cy) > 0real
        }),
{
    lemma_cross(ax, ay, cx, cy, bx, by);
    let d = cross_product(cx - ax, cy - ay, bx - ax, by - ay);
    lemma_turn(num(cx) - num(ax), num(by) - num(ay));
    lemma_turn(num(cy) - num(ay), num(bx) - num(ax));
    assert(turn(ax, ay, cx, cy, bx, by) == -turn(ax, ay, bx, by, cx, cy));
    lemma_num_whole(0);
    lemma_order(d, whole(0));
    lemma_order(whole(0), d);
    lemma_num(d);
    assert(crate::scalar::magnitude_value(0) == 0);
}

/// Two segments meet exactly where the ends of each lie on different sides of the other,
/// if no end is so near to the line through the other that rounding counts.
pub proof fn law_crossing_segments_meet(
    ax: Scalar,
    ay: Scalar,
    bx: Scalar,
    by: Scalar,
    cx: Scalar,
    cy: Scalar,
    dx: Scalar,
    dy: Scalar,
)
    requires
        close(ax, bx) && close(ax, cx) && close(ax, dx) && close(bx, cx) && close(cx, dx),
        close(ay, by) && close(ay, cy) && close(ay, dy) && close(by, cy) && close(cy, dy),
        clear(turn(ax, ay, bx, by, cx, cy)) && clear(turn(ax, ay, bx, by, dx, dy)),
        clear(turn(cx, cy, dx, dy, ax, ay)) && clear(turn(cx, cy, dx, dy, bx, by)),
    ensures
        segments_meet(ax, ay, bx, by, cx, cy, dx, dy) <==> {
            &&& (turn(ax, ay, bx, by, cx, cy) > 0real) != (turn(ax, ay, bx, by, dx, dy) > 0real)
            &&& (turn(cx, cy, dx, dy, ax, ay) > 0real) != (turn(cx, cy, dx, dy, bx, by) > 0real)
        },
{
    lemma_told(ax, ay, bx, by, cx, cy);
    lemma_told(ax, ay, bx, by, dx, dy);
    lemma_told(cx, cy, dx, dy, ax, ay);
    lemma_told(cx, cy, dx, dy, bx, by);
}

/// The cross product of edge `i` of a polygon with a place.
pub open spec fn edge_turn(p: Vertex, poly: Seq<Vertex>, i: int) -> real {
    let (a, b) = (poly[i], poly[behind(i, poly.len() as int)]);
    turn(a[0], a[1], b[0], b[1], p[0], p[1])
}

/// Whether a place and an edge are close to each other.
pub open spec fn edge_close(p: Vertex, poly: Seq<Vertex>, i: int) -> bool {
    let (a, b) = (poly[i], poly[behind(i, poly.len() as int)]);
    close(a[0], b[0]) && close(a[1], b[1]) && close(a[0], p[0]) && close(a[1], p[1])
}

/// The side of an edge.
proof fn lemma_inside_edge(p: Vertex, poly: Seq<Vertex>, eps: Scalar, i: int)
    requires
        0 <= i < poly.len(),
        edge_close(p, poly, i),
        eps.finite(),
    ensures
        edge_turn(p, poly, i) >= -num(eps) + 1real / 100000000real ==> inside_edge(
            p,
            poly,
            eps,
            i,
        ),
        edge_turn(p, poly, i) < -num(eps) - 1real / 100000000real ==> !inside_edge(p, poly, eps, i),
{
    let (a, b) = (poly[i], poly[behind(i, poly.len() as int)]);
    lemma_cross(a[0], a[1], b[0], b[1], p[0], p[1]);
    let c = eps.opposite();
    assert(c.magnitude_bits() == eps.magnitude_bits());
    assert(c.value() == -eps.value());
    lemma_num(eps);
    lemma_num(c);
    lemma_least();
    let u = vstd::arithmetic::power2::pow2(1074) as real;
    assert(num(c) == -num(eps)) by (nonlinear_arith)
        requires
            num(c) * u == -(num(eps) * u),
            u > 0real,
    ;
    lemma_order(cross(a, b, p), c);
}

/// A place is in a convex polygon where no edge has it on its right by more than the
/// tolerance, and is not in it where some edge has; but for rounding.
pub proof fn law_place_in_convex_polygon(p: Vertex, poly: Seq<Vertex>, eps: Scalar)
    requires
        poly.len() >= 3,
        eps.finite(),
        forall|i: int| 0 <= i < poly.len() ==> #[trigger] edge_close(p, poly, i),
    ensures
        (forall|i: int|
            0 <= i < poly.len() ==> #[trigger] edge_turn(p, poly, i) >= -num(eps) + 1real
                / 100000000real) ==> in_convex(p, poly, eps),
        (exists|i: int|
            0 <= i < poly.len() && #[trigger] edge_turn(p, poly, i) < -num(eps) - 1real
                / 100000000real) ==> !in_convex(p, poly, eps),
{
    assert forall|i: int| 0 <= i < poly.len() implies {
        &&& #[trigger] edge_turn(p, poly, i) >= -num(eps) + 1real / 100000000real ==> inside_edge(
            p,
            poly,
            eps,
            i,
        )
        &&& edge_turn(p, poly, i) < -num(eps) - 1real / 100000000real ==> !inside_edge(
            p,
            poly,
            eps,
            i,
        )
    } by {
        assert(edge_close(p, poly, i));
        lemma_inside_edge(p, poly, eps, i);
    }
    if forall|i: int|
        0 <= i < poly.len() ==> #[trigger] edge_turn(p, poly, i) >= -num(eps) + 1real
            / 100000000real {
        assert forall|i: int| 0 <= i < poly.len() implies #[trigger] inside_edge(
            p,
            poly,
            eps,
            i,
        ) by {
            assert(edge_turn(p, poly, i) >= -num(eps) + 1real / 100000000real);
        }
    }
    if exists|i: int|
        0 <= i < poly.len() && #[trigger] edge_turn(p, poly, i) < -num(eps) - 1real
            / 100000000real {
        let i = choose|i: int|
            0 <= i < poly.len() && #[trigger] edge_turn(p, poly, i) < -num(eps) - 1real
                / 100000000real;
        assert(!inside_edge(p, poly, eps, i));
    }
}

} // verus!
