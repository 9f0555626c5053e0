//! The corners of a widened polygon lie the distance asked for from the edges.

use crate::convex::{
    behind, can_widen, corner_stands, lines_det, lines_meet, moved_corner, moved_edge,
};
use crate::ends::lemma_absolute_value;
use crate::exact::{about, far, least, lemma_least, lemma_num, lemma_order, lemma_sub, num, size};
use crate::geometry::Vertex;
use crate::numeric::{frac, whole};
use crate::ring::{
    lemma_bound, lemma_is, lemma_minus, lemma_plus, lemma_product, lemma_quotient, lemma_swap,
    lemma_turn, prod,
};
use crate::scalar::Scalar;
use crate::values::lemma_num_frac;
use crate::widen::{is_length, lemma_moved_edge, modest, modest_corner};
use vstd::prelude::*;

verus! {

/// A difference of two products.
#[verifier::rlimit(50)]
proof fn lemma_difference(a: Scalar, b: Scalar, c: Scalar, d: Scalar, x: real)
    requires
        a.finite() && b.finite() && c.finite() && d.finite(),
        size(prod(num(a), num(b))) <= x,
        size(prod(num(c), num(d))) <= x,
        x == 4real || x == 6002real,
    ensures
        (a * b - c * d).finite(),
        about(
            num(a * b - c * d),
            prod(num(a), num(b)) - prod(num(c), num(d)),
            if x == 4real {
                1real / 100000000000000real
            } else {
                1real / 100000000000real
            },
        ),
        size(num(a * b - c * d)) <= 2real * x + 1real,
{
    lemma_least();
    lemma_product(a, b);
    lemma_product(c, d);
    lemma_sub(a * b, c * d);
}

/// A quotient, back.
proof fn lemma_quotient_back(n: Scalar, det: Scalar, whole_n: real, whole_det: real)
    requires
        n.finite() && det.finite(),
        size(num(n)) <= 12005real,
        1real / 2000000000000real <= size(num(det)) <= 9real,
        about(num(n), whole_n, 1real / 100000000000real),
        about(num(det), whole_det, 1real / 100000000000000real),
        (n / det).finite() ==> size(num(n / det)) <= 2000real,
    ensures
        (n / det).finite(),
        about(prod(num(n / det), whole_det), whole_n, 1real / 20000000000real),
{
    lemma_least();
    let small = 1real / 2000000000000real;
    lemma_is(far(), small);
    lemma_quotient(n, det, small);
    let q = num(n / det);
    lemma_bound(q, whole_det - num(det), 2000real, 1real / 100000000000000real);
    lemma_is(2000real, 1real / 100000000000000real);
    lemma_minus(q, whole_det, num(det));
}

/// A point where two lines meet lies on one of them, in the measure in which they
/// cross.
proof fn lemma_on_line(
    g0: real,
    g1: real,
    g2: real,
    nx: real,
    ny: real,
    det: real,
    x: real,
    y: real,
)
    requires
        prod(g0, nx) + prod(g1, ny) == prod(g2, det),
        size(g0) <= 2real && size(g1) <= 2real,
        about(prod(x, det), nx, 1real / 20000000000real),
        about(prod(y, det), ny, 1real / 20000000000real),
    ensures
        size(prod(det, prod(g0, x) + prod(g1, y) - g2)) <= 1real / 4000000000real,
{
    let (xd, yd) = (prod(x, det), prod(y, det));
    let e = 1real / 20000000000real;
    lemma_bound(g0, xd - nx, 2real, e);
    lemma_bound(g1, yd - ny, 2real, e);
    lemma_is(2real, e);
    lemma_minus(g0, xd, nx);
    lemma_minus(g1, yd, ny);
    lemma_minus(det, prod(g0, x) + prod(g1, y), g2);
    lemma_plus(det, prod(g0, x), prod(g1, y));
    lemma_swap(det, g0, x);
    lemma_swap(det, g1, y);
    lemma_turn(det, x);
    lemma_turn(det, y);
    lemma_turn(det, g2);
}

/// The solution of two equations, by determinants.
#[verifier::rlimit(50)]
proof fn lemma_solution(u0: real, u1: real, u2: real, w0: real, w1: real, w2: real)
    ensures
        ({
            let nx = prod(u2, w1) - prod(w2, u1);
            let ny = prod(u0, w2) - prod(w0, u2);
            let det = prod(u0, w1) - prod(w0, u1);
            &&& prod(u0, nx) + prod(u1, ny) == prod(u2, det)
            &&& prod(w0, nx) + prod(w1, ny) == prod(w2, det)
        }),
{
    lemma_minus(u0, prod(u2, w1), prod(w2, u1));
    lemma_minus(u1, prod(u0, w2), prod(w0, u2));
    lemma_minus(u2, prod(u0, w1), prod(w0, u1));
    lemma_minus(w0, prod(u2, w1), prod(w2, u1));
    lemma_minus(w1, prod(u0, w2), prod(w0, u2));
    lemma_minus(w2, prod(u0, w1), prod(w0, u1));
    lemma_swap(u0, u2, w1);
    lemma_exchange(u0, w2, u1);
    lemma_exchange_other(u1, w0, u2);
    lemma_exchange(w0, u2, w1);
    lemma_swap(w0, w2, u1);
    lemma_exchange_other(w1, u0, w2);
}

proof fn lemma_exchange(a: real, b: real, c: real)
    ensures
        prod(a, prod(b, c)) == prod(c, prod(a, b)),
{
    lemma_turn(b, c);
    lemma_swap(a, c, b);
}

pub proof fn lemma_exchange_other(a: real, b: real, c: real)
    ensures
        prod(a, prod(b, c)) == prod(c, prod(b, a)),
{
    lemma_exchange(a, b, c);
    lemma_turn(a, b);
}

pub proof fn lemma_magnitude(d: Scalar)
    requires
        d.finite(),
    ensures
        d.magnitude().finite(),
        num(d.magnitude()) == size(num(d)),
{
    lemma_absolute_value(d);
    let m = d.magnitude();
    assert(m.magnitude_bits() == d.magnitude_bits());
    assert(m.value() == crate::arith::absolute(d.value()));
    lemma_num(d);
    lemma_num(m);
    lemma_least();
    let u = vstd::arithmetic::power2::pow2(1074) as real;
    let (x, y) = (num(m), num(d));
    assert(x == size(y)) by (nonlinear_arith)
        requires
            x * u == size(y * u),
            u > 0real,
    ;
}

/// A determinant that is not too small.
proof fn lemma_not_small(d: Scalar)
    requires
        d.finite(),
        !(d.magnitude() < frac(1, 1_000_000_000_000)),
    ensures
        1real / 2000000000000real <= size(num(d)),
{
    let f = frac(1, 1_000_000_000_000);
    lemma_trillionth();
    lemma_magnitude(d);
    lemma_order(d.magnitude(), f);
    assert(!f.nan() && !d.magnitude().nan());
}

pub proof fn lemma_trillionth()
    ensures
        frac(1, 1_000_000_000_000).finite(),
        1real / 2000000000000real <= num(frac(1, 1_000_000_000_000)) <= 1real / 500000000000real,
{
    lemma_least();
    lemma_num_frac(1, 1_000_000_000_000);
    let (f, t, l) = (num(frac(1, 1_000_000_000_000)), 1_000_000_000_000int as real, least());
    assert(t == 1000000000000real);
    let lt = l * t;
    assert(lt <= 1real / 1000real) by (nonlinear_arith)
        requires
            lt == l * t,
            t == 1000000000000real,
            l <= 1real / 1267650600228229401496703205376real,
    ;
    assert(1real / 2000000000000real <= f <= 1real / 500000000000real) by (nonlinear_arith)
        requires
            t == 1000000000000real,
            99real / 100real <= f * t <= 101real / 100real,
    ;
}

/// Whether a corner of a widened polygon is not too far off.
pub open spec fn near_corner(c: (Scalar, Scalar)) -> bool {
    &&& c.0.finite() ==> size(num(c.0)) <= 2000real
    &&& c.1.finite() ==> size(num(c.1)) <= 2000real
}

/// Whether a line is given by finite numbers of the usual size.
spec fn usual_line(u: (Scalar, Scalar, Scalar)) -> bool {
    &&& u.0.finite() && u.1.finite() && u.2.finite()
    &&& size(num(u.0)) <= 2real && size(num(u.1)) <= 2real && size(num(u.2)) <= 3001real
}

/// Where the edges of a widened polygon meet.
#[verifier::rlimit(50)]
proof fn lemma_meeting(u: (Scalar, Scalar, Scalar), w: (Scalar, Scalar, Scalar))
    requires
        usual_line(u) && usual_line(w),
        !(lines_det(u, w).magnitude() < frac(1, 1_000_000_000_000)),
        near_corner(lines_meet(u, w)),
    ensures
        ({
            let m = lines_meet(u, w);
            let det = prod(num(u.0), num(w.1)) - prod(num(w.0), num(u.1));
            let (x, y) = (num(m.0), num(m.1));
            &&& m.0.finite() && m.1.finite()
            &&& size(prod(det, prod(num(u.0), x) + prod(num(u.1), y) - num(u.2))) <= 1real
                / 4000000000real
            &&& size(prod(det, prod(num(w.0), x) + prod(num(w.1), y) - num(w.2))) <= 1real
                / 4000000000real
        }),
{
    let (u0, u1, u2) = (num(u.0), num(u.1), num(u.2));
    let (w0, w1, w2) = (num(w.0), num(w.1), num(w.2));
    lemma_is(2real, 2real);
    lemma_is(3001real, 2real);
    lemma_is(2real, 3001real);
    lemma_bound(u0, w1, 2real, 2real);
    lemma_bound(w0, u1, 2real, 2real);
    lemma_bound(u2, w1, 3001real, 2real);
    lemma_bound(w2, u1, 3001real, 2real);
    lemma_bound(u0, w2, 2real, 3001real);
    lemma_bound(w0, u2, 2real, 3001real);
    let nx = prod(u2, w1) - prod(w2, u1);
    let ny = prod(u0, w2) - prod(w0, u2);
    let det = prod(u0, w1) - prod(w0, u1);
    lemma_difference(u.0, w.1, w.0, u.1, 4real);
    lemma_difference(u.2, w.1, w.2, u.1, 6002real);
    lemma_difference(u.0, w.2, w.0, u.2, 6002real);
    let d = lines_det(u, w);
    lemma_not_small(d);
    let m = lines_meet(u, w);
    lemma_quotient_back(u.2 * w.1 - w.2 * u.1, d, nx, det);
    lemma_quotient_back(u.0 * w.2 - w.0 * u.2, d, ny, det);
    lemma_solution(u0, u1, u2, w0, w1, w2);
    lemma_on_line(u0, u1, u2, nx, ny, det, num(m.0), num(m.1));
    lemma_on_line(w0, w1, w2, nx, ny, det, num(m.0), num(m.1));
}

/// The distance of such a point from the edge that was moved.
#[verifier::rlimit(50)]
proof fn lemma_from_edge(
    g0: real,
    g1: real,
    g2: real,
    n0: real,
    n1: real,
    p0: real,
    p1: real,
    dist: real,
    det: real,
    s: real,
    x: real,
    y: real,
)
    requires
        size(n0) <= 1real && size(n1) <= 1real,
        about(g0, n0, 1real / 10000000000000real),
        about(g1, n1, 1real / 10000000000000real),
        about(g2, prod(n0, p0) + prod(n1, p1) + dist, 1real / 1000000000real),
        size(p0) <= 1000real && size(p1) <= 1000real && size(dist) <= 1000real,
        size(x) <= 2000real && size(y) <= 2000real,
        size(prod(det, prod(g0, x) + prod(g1, y) - g2)) <= 1real / 4000000000real,
        about(det, s, 1real / 1000000000000real),
        size(det) <= 3real,
    ensures
        size(prod(s, prod(n0, x - p0) + prod(n1, y - p1) - dist)) <= 1real / 50000000real,
{
    let t = prod(n0, x - p0) + prod(n1, y - p1) - dist;
    let own = prod(g0, x) + prod(g1, y) - g2;
    let e = 1real / 10000000000000real;
    lemma_is(2000real, e);
    lemma_bound(x, g0 - n0, 2000real, e);
    lemma_bound(y, g1 - n1, 2000real, e);
    lemma_minus(x, g0, n0);
    lemma_minus(y, g1, n1);
    lemma_turn(x, g0);
    lemma_turn(x, n0);
    lemma_turn(y, g1);
    lemma_turn(y, n1);
    lemma_minus(n0, x, p0);
    lemma_minus(n1, y, p1);
    let f = own - t;
    assert(size(f) <= 1real / 500000000real);
    lemma_is(1real, 3000real);
    lemma_bound(n0, x - p0, 1real, 3000real);
    lemma_bound(n1, y - p1, 1real, 3000real);
    assert(size(t) <= 7000real);
    lemma_is(3real, 1real / 500000000real);
    lemma_bound(det, f, 3real, 1real / 500000000real);
    lemma_is(7000real, 1real / 1000000000000real);
    lemma_bound(t, s - det, 7000real, 1real / 1000000000000real);
    lemma_minus(t, s, det);
    lemma_turn(t, s);
    lemma_turn(t, det);
    lemma_minus(det, own, t);
}

/// By how much a place lies beyond a line through `p`, along its outward normal `n`.
pub open spec fn beyond(p: Vertex, n: (real, real), x: real, y: real) -> real {
    prod(n.0, x - num(p[0])) + prod(n.1, y - num(p[1]))
}

/// The sine of the angle between two directions.
pub open spec fn sine(n: (real, real), m: (real, real)) -> real {
    prod(n.0, m.1) - prod(m.0, n.1)
}

/// Whether `n` is the outward normal of the edge from `p` to `q` of a polygon that runs
/// anticlockwise, of length one, and `l` the length of the edge, a metre at least.
pub open spec fn is_normal(p: Vertex, q: Vertex, n: (real, real), l: real) -> bool {
    let (x, y) = (num(q[0]) - num(p[0]), num(q[1]) - num(p[1]));
    &&& l >= 1real / 100000real
    &&& prod(l, l) == prod(x, x) + prod(y, y)
    &&& prod(n.0, l) == y
    &&& prod(n.1, l) == -x
}

/// A moved edge.
proof fn lemma_edge(poly: Seq<Vertex>, dist: Scalar, i: int, n: (real, real), l: real)
    requires
        0 <= i < poly.len(),
        modest_corner(poly[i]) && modest_corner(poly[behind(i, poly.len() as int)]),
        modest(dist),
        is_normal(poly[i], poly[behind(i, poly.len() as int)], n, l),
    ensures
        !(crate::convex::edge_length(poly, i) <= whole(0)),
        usual_line(moved_edge(poly, dist, i)),
        size(n.0) <= 1real && size(n.1) <= 1real,
        ({
            let (p, m) = (poly[i], moved_edge(poly, dist, i));
            &&& about(num(m.0), n.0, 1real / 10000000000000real)
            &&& about(num(m.1), n.1, 1real / 10000000000000real)
            &&& about(
                num(m.2),
                prod(n.0, num(p[0])) + prod(n.1, num(p[1])) + num(dist),
                1real / 1000000000real,
            )
        }),
{
    let (p, q) = (poly[i], poly[behind(i, poly.len() as int)]);
    let (x, y) = (num(q[0]) - num(p[0]), num(q[1]) - num(p[1]));
    lemma_is(l, l);
    lemma_is(x, x);
    lemma_is(y, y);
    lemma_is(n.0, l);
    lemma_is(n.1, l);
    lemma_is(n.0, num(p[0]));
    lemma_is(n.1, num(p[1]));
    assert(is_length(p, q, l));
    lemma_moved_edge(poly, dist, i, l, n.0, n.1);
}

/// The sine of two directions that are nearly known.
proof fn lemma_sine(u: (real, real), w: (real, real), n: (real, real), m: (real, real))
    requires
        size(n.0) <= 1real && size(n.1) <= 1real && size(m.0) <= 1real && size(m.1) <= 1real,
        about(u.0, n.0, 1real / 10000000000000real) && about(u.1, n.1, 1real / 10000000000000real),
        about(w.0, m.0, 1real / 10000000000000real) && about(w.1, m.1, 1real / 10000000000000real),
    ensures
        about(prod(u.0, w.1) - prod(w.0, u.1), sine(n, m), 1real / 1000000000000real),
        size(sine(n, m)) <= 2real,
{
    lemma_product_off(u.0, w.1, n.0, m.1);
    lemma_product_off(w.0, u.1, m.0, n.1);
    lemma_is(1real, 1real);
    lemma_bound(n.0, m.1, 1real, 1real);
    lemma_bound(m.0, n.1, 1real, 1real);
}

proof fn lemma_product_off(u: real, w: real, a: real, b: real)
    requires
        size(a) <= 1real && size(b) <= 1real,
        about(u, a, 1real / 10000000000000real),
        about(w, b, 1real / 10000000000000real),
    ensures
        about(prod(u, w), prod(a, b), 3real / 10000000000000real),
{
    let e = 1real / 10000000000000real;
    lemma_is(2real, e);
    lemma_is(1real, e);
    lemma_bound(w, u - a, 2real, e);
    lemma_bound(a, w - b, 1real, e);
    lemma_minus(w, u, a);
    lemma_minus(a, w, b);
    lemma_turn(w, u);
    lemma_turn(w, a);
}

/// Each corner of a widened polygon lies, but for rounding, exactly the distance asked
/// for beyond the two edges that meet in it. The flatter the corner, the more rounding
/// counts: the distance is off by at most 2e-8 over the sine of the angle.
#[verifier::rlimit(50)]
pub proof fn law_widened_corner_keeps_distance(
    poly: Seq<Vertex>,
    dist: Scalar,
    i: int,
    n: (real, real),
    l: real,
    m: (real, real),
    k: real,
)
    requires
        can_widen(poly, dist),
        0 <= i < poly.len(),
        modest(dist),
        ({
            let z = poly.len() as int;
            let (p, q, r) = (poly[i], poly[behind(i, z)], poly[behind(behind(i, z), z)]);
            &&& modest_corner(p) && modest_corner(q) && modest_corner(r)
            &&& is_normal(p, q, n, l) && is_normal(q, r, m, k)
        }),
        near_corner(moved_corner(poly, dist, i)),
    ensures
        ({
            let z = poly.len() as int;
            let (p, q) = (poly[i], poly[behind(i, z)]);
            let c = moved_corner(poly, dist, i);
            let (x, y) = (num(c.0), num(c.1));
            &&& c.0.finite() && c.1.finite()
            &&& size(prod(sine(n, m), beyond(p, n, x, y) - num(dist))) <= 1real / 50000000real
            &&& size(prod(sine(n, m), beyond(q, m, x, y) - num(dist))) <= 1real / 50000000real
        }),
{
    let z = poly.len() as int;
    let j = behind(i, z);
    let (p, q) = (poly[i], poly[j]);
    lemma_edge(poly, dist, i, n, l);
    lemma_edge(poly, dist, j, m, k);
    let (u, w) = (moved_edge(poly, dist, i), moved_edge(poly, dist, j));
    assert(corner_stands(poly, dist, i));
    lemma_meeting(u, w);
    let c = moved_corner(poly, dist, i);
    let (x, y, d) = (num(c.0), num(c.1), num(dist));
    lemma_sine((num(u.0), num(u.1)), (num(w.0), num(w.1)), n, m);
    let (s, det) = (sine(n, m), prod(num(u.0), num(w.1)) - prod(num(w.0), num(u.1)));
    lemma_from_edge(
        num(u.0),
        num(u.1),
        num(u.2),
        n.0,
        n.1,
        num(p[0]),
        num(p[1]),
        d,
        det,
        s,
        x,
        y,
    );
    lemma_from_edge(
        num(w.0),
        num(w.1),
        num(w.2),
        m.0,
        m.1,
        num(q[0]),
        num(q[1]),
        d,
        det,
        s,
        x,
        y,
    );
}

/// A polygon can be widened by any positive distance where each edge is a metre long at
/// least and no two neighbouring edges are nearly parallel.
pub proof fn law_sound_polygon_can_be_widened(
    poly: Seq<Vertex>,
    dist: Scalar,
    normals: Seq<(real, real)>,
    lengths: Seq<real>,
)
    requires
        poly.len() >= 3,
        modest(dist) && num(dist) > 0real,
        normals.len() == poly.len() && lengths.len() == poly.len(),
        forall|i: int| 0 <= i < poly.len() ==> modest_corner(#[trigger] poly[i]),
        forall|i: int|
            0 <= i < poly.len() ==> is_normal(
                #[trigger] poly[i],
                poly[behind(i, poly.len() as int)],
                normals[i],
                lengths[i],
            ),
        forall|i: int|
            0 <= i < poly.len() ==> size(
                sine(#[trigger] normals[i], normals[behind(i, poly.len() as int)]),
            ) >= 1real / 1000000real,
    ensures
        can_widen(poly, dist),
{
    let z = poly.len() as int;
    crate::values::lemma_num_whole(0);
    lemma_order(dist, whole(0));
    assert forall|i: int| 0 <= i < z implies !(#[trigger] crate::convex::edge_length(poly, i)
        <= whole(0)) by {
        assert(modest_corner(poly[i]) && modest_corner(poly[behind(i, z)]));
        lemma_edge(poly, dist, i, normals[i], lengths[i]);
    }
    assert forall|i: int| 0 <= i < z implies #[trigger] corner_stands(poly, dist, i) by {
        let j = behind(i, z);
        assert(modest_corner(poly[i]) && modest_corner(poly[j]) && modest_corner(
            poly[behind(j, z)],
        ));
        lemma_edge(poly, dist, i, normals[i], lengths[i]);
        lemma_edge(poly, dist, j, normals[j], lengths[j]);
        assert(size(sine(normals[i], normals[j])) >= 1real / 1000000real);
        lemma_stands(moved_edge(poly, dist, i), moved_edge(poly, dist, j), normals[i], normals[j]);
    }
}

/// Lines that cross clearly have a determinant that is not small.
proof fn lemma_stands(
    u: (Scalar, Scalar, Scalar),
    w: (Scalar, Scalar, Scalar),
    n: (real, real),
    m: (real, real),
)
    requires
        usual_line(u) && usual_line(w),
        size(n.0) <= 1real && size(n.1) <= 1real && size(m.0) <= 1real && size(m.1) <= 1real,
        about(num(u.0), n.0, 1real / 10000000000000real),
        about(num(u.1), n.1, 1real / 10000000000000real),
        about(num(w.0), m.0, 1real / 10000000000000real),
        about(num(w.1), m.1, 1real / 10000000000000real),
        size(sine(n, m)) >= 1real / 1000000real,
    ensures
        !(lines_det(u, w).magnitude() < frac(1, 1_000_000_000_000)),
{
    lemma_sine((num(u.0), num(u.1)), (num(w.0), num(w.1)), n, m);
    lemma_is(2real, 2real);
    lemma_bound(num(u.0), num(w.1), 2real, 2real);
    lemma_bound(num(w.0), num(u.1), 2real, 2real);
    lemma_difference(u.0, w.1, w.0, u.1, 4real);
    let d = lines_det(u, w);
    lemma_magnitude(d);
    lemma_trillionth();
    lemma_order(d.magnitude(), frac(1, 1_000_000_000_000));
}

} // verus!
