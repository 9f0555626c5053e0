//! How far the corners of a widened polygon lie from the edges.

use crate::convex::{behind, edge_length, moved_edge};
use crate::exact::{
    about, far, least, lemma_add, lemma_div, lemma_least, lemma_mul, lemma_num, lemma_order,
    lemma_sub, num, part, size,
};
use crate::geometry::Vertex;
use crate::numeric::whole;
use crate::scalar::Scalar;
use crate::spacing::lemma_size_product;
use crate::values::{lemma_num_whole, lemma_root};
use vstd::prelude::*;

verus! {

/// Whether a number is finite and at most a thousand.
pub open spec fn modest(x: Scalar) -> bool {
    x.finite() && size(num(x)) <= 1000real
}

pub open spec fn modest_corner(p: Vertex) -> bool {
    modest(p[0]) && modest(p[1])
}

/// A number and its square.
#[verifier::rlimit(50)]
proof fn lemma_square(x: Scalar, big: real)
    requires
        x.finite(),
        size(num(x) - big) <= part() * size(big) + least(),
        size(big) <= 2000real,
    ensures
        (x * x).finite(),
        about(
            num(x * x),
            big * big,
            4real * (part() * (big * big)) + 1real / 100000000000000000000000000real,
        ),
        num(x * x) >= 0real,
{
    lemma_least();
    let (v, b) = (num(x), size(big));
    let bb = big * big;
    assert(b * b == bb) by (nonlinear_arith)
        requires
            bb == big * big,
            b == size(big),
    ;
    let d = v - big;
    lemma_size_product(v, v, 2001real, 2001real);
    lemma_mul(x, x);
    let e = part() * b + least();
    let (vv, dd, bd) = (v * v, d * d, big * d);
    assert(vv == bb + 2real * bd + dd) by (nonlinear_arith)
        requires
            vv == v * v,
            bb == big * big,
            bd == big * d,
            dd == d * d,
            d == v - big,
    ;
    lemma_size_product(big, d, b, e);
    lemma_size_product(d, d, e, e);
    let (be, ee, lb) = (b * e, e * e, b * least());
    assert(be == part() * bb + lb) by (nonlinear_arith)
        requires
            be == b * e,
            e == part() * b + least(),
            lb == b * least(),
            b * b == bb,
    ;
    assert(0real <= lb <= 1real / 500000000000000000000000000real) by (nonlinear_arith)
        requires
            lb == b * least(),
            0real <= b <= 2000real,
            0real < least() <= 1real / 1267650600228229401496703205376real,
    ;
    assert(bb >= 0real && dd >= 0real && vv >= 0real) by (nonlinear_arith)
        requires
            bb == big * big,
            dd == d * d,
            vv == v * v,
    ;
    let pb = part() * b;
    assert(ee == pb * pb + 2real * (pb * least()) + least() * least()) by (nonlinear_arith)
        requires
            ee == e * e,
            e == pb + least(),
    ;
    assert(pb * pb == part() * (part() * bb)) by (nonlinear_arith)
        requires
            pb == part() * b,
            b * b == bb,
    ;
    assert(0real <= pb * least() <= least() && least() * least() <= least()) by (nonlinear_arith)
        requires
            0real <= pb <= 1real,
            0real < least() <= 1real,
    ;
    crate::detection::lemma_square_not_negative(x);
    lemma_num(x * x);
}

/// The length of an edge.
#[verifier::rlimit(50)]
proof fn lemma_length(ex: Scalar, ey: Scalar, bx: real, by: real, l: real)
    requires
        ex.finite() && ey.finite(),
        size(num(ex) - bx) <= part() * size(bx) + least(),
        size(num(ey) - by) <= part() * size(by) + least(),
        size(bx) <= 2000real && size(by) <= 2000real,
        l * l == bx * bx + by * by,
        1real / 100000real <= l,
    ensures
        ({
            let r = (ex * ex + ey * ey).root();
            &&& r.finite()
            &&& about(num(r), l, l / 50000000000000real)
        }),
{
    lemma_least();
    lemma_square(ex, bx);
    lemma_square(ey, by);
    let (xx, yy, ll) = (num(ex * ex), num(ey * ey), l * l);
    lemma_size_product(bx, bx, 2000real, 2000real);
    lemma_size_product(by, by, 2000real, 2000real);
    lemma_add(ex * ex, ey * ey);
    let s = ex * ex + ey * ey;
    let ss = num(s);
    assert(bx * bx >= 0real && by * by >= 0real) by (nonlinear_arith);
    assert(ll >= 1real / 10000000000real) by (nonlinear_arith)
        requires
            ll == l * l,
            l >= 1real / 100000real,
    ;
    assert(about(ss, ll, ll / 500000000000000real));
    assert(ss >= 0real);
    lemma_root(s);
    let r = num(s.root());
    let e = part() * r + least();
    let (rr, re, ee) = (r * r, r * e, e * e);
    lemma_root_of_near(l, ll, ss, r, e, rr, re, ee);
}

/// The root of a number that is nearly a square.
proof fn lemma_root_of_near(
    l: real,
    ll: real,
    ss: real,
    r: real,
    e: real,
    rr: real,
    re: real,
    ee: real,
)
    requires
        l >= 1real / 100000real,
        ll == l * l,
        about(ss, ll, ll / 500000000000000real),
        r >= 0real,
        0real < least() <= 1real / 1267650600228229401496703205376real,
        e == part() * r + least(),
        rr == r * r,
        re == r * e,
        ee == e * e,
        about(rr, ss, re + ee),
    ensures
        about(r, l, l / 50000000000000real),
{
    let lr = r * least();
    assert(re == part() * rr + lr) by (nonlinear_arith)
        requires
            re == r * e,
            e == part() * r + least(),
            rr == r * r,
            lr == r * least(),
    ;
    let pr = part() * r;
    assert(ee == pr * pr + 2real * (part() * lr) + least() * least()) by (nonlinear_arith)
        requires
            ee == e * e,
            e == pr + least(),
            pr == part() * r,
            lr == r * least(),
    ;
    assert(pr * pr == part() * (part() * rr)) by (nonlinear_arith)
        requires
            pr == part() * r,
            rr == r * r,
    ;
    assert(least() * least() <= least()) by (nonlinear_arith)
        requires
            0real < least() <= 1real,
    ;
    assert(rr >= 0real && ll >= 1real / 10000000000real) by (nonlinear_arith)
        requires
            rr == r * r,
            ll == l * l,
            l >= 1real / 100000real,
    ;
    // The smallest double does not count beside the length.
    assert(0real <= lr <= (rr + 1real) / 1267650600228229401496703205376real) by (nonlinear_arith)
        requires
            lr == r * least(),
            rr == r * r,
            r >= 0real,
            0real < least() <= 1real / 1267650600228229401496703205376real,
    ;
    assert(rr <= 2real * ll);
    assert(about(rr, ll, ll / 100000000000000real));
    let (d, s) = (r - l, r + l);
    assert(d * s == rr - ll) by (nonlinear_arith)
        requires
            d == r - l,
            s == r + l,
            rr == r * r,
            ll == l * l,
    ;
    let t = l / 50000000000000real;
    assert(size(d) <= t) by (nonlinear_arith)
        requires
            -(ll / 100000000000000real) <= d * s <= ll / 100000000000000real,
            ll == l * l,
            s == r + l,
            r >= 0real,
            l > 0real,
            t == l / 50000000000000real,
    ;
}

/// A side of a unit vector.
#[verifier::rlimit(50)]
proof fn lemma_side(ey: Scalar, r: Scalar, by: real, l: real, alpha: real)
    requires
        ey.finite() && r.finite(),
        size(num(ey) - by) <= part() * size(by) + least(),
        1real / 100000real <= l <= 3000real,
        size(by) <= l,
        about(num(r), l, l / 50000000000000real),
        alpha * l == by,
    ensures
        (ey / r).finite(),
        about(num(ey / r), alpha, 1real / 10000000000000real),
        size(alpha) <= 1real,
{
    lemma_least();
    let (y, x) = (num(ey), num(r));
    assert(size(y) <= 3001real);
    assert(far() * x >= 3001real) by (nonlinear_arith)
        requires
            x >= 1real / 200000real,
            far() == 1267650600228229401496703205376real,
    ;
    lemma_div(ey, r);
    let a = num(ey / r);
    let (lx, ax, al, ad) = (least() * x, a * x, a * l, a * (l - x));
    assert(0real <= lx <= l / 1000000000000000000real) by (nonlinear_arith)
        requires
            lx == least() * x,
            0real < least() <= 1real / 1267650600228229401496703205376real,
            0real < x <= 2real * l,
    ;
    assert(al == ax + ad) by (nonlinear_arith)
        requires
            al == a * l,
            ax == a * x,
            ad == a * (l - x),
    ;
    assert(size(ax) <= l + l / 1000000000000real);
    assert(size(a) <= 2real) by (nonlinear_arith)
        requires
            ax == a * x,
            size(ax) <= l + l / 1000000000000real,
            x >= l - l / 50000000000000real,
            l > 0real,
    ;
    lemma_size_product(a, l - x, 2real, l / 50000000000000real);
    let off = a - alpha;
    let t = l / 10000000000000real;
    assert(off * l == al - by) by (nonlinear_arith)
        requires
            off == a - alpha,
            al == a * l,
            alpha * l == by,
    ;
    assert(size(al - by) <= t);
    assert(size(off) <= 1real / 10000000000000real) by (nonlinear_arith)
        requires
            size(off * l) <= t,
            t == l / 10000000000000real,
            l > 0real,
    ;
    assert(size(alpha) <= 1real) by (nonlinear_arith)
        requires
            alpha * l == by,
            size(by) <= l,
            l > 0real,
    ;
}

/// A vector and its opposite.
proof fn lemma_opposite(x: Scalar)
    requires
        x.finite(),
    ensures
        x.opposite().finite(),
        num(x.opposite()) == -num(x),
{
    let c = x.opposite();
    assert(c.magnitude_bits() == x.magnitude_bits());
    assert(c.value() == -x.value());
    lemma_num(x);
    lemma_num(c);
    lemma_least();
    let u = vstd::arithmetic::power2::pow2(1074) as real;
    assert(num(c) == -num(x)) by (nonlinear_arith)
        requires
            num(c) * u == -(num(x) * u),
            u > 0real,
    ;
}

/// Whether `l` is the distance of two points.
pub open spec fn is_length(p: Vertex, q: Vertex, l: real) -> bool {
    let (x, y) = (num(q[0]) - num(p[0]), num(q[1]) - num(p[1]));
    l >= 1real / 100000real && l * l == x * x + y * y
}

/// An edge moved outwards: its direction, and where it lies.
#[verifier::rlimit(50)]
pub proof fn lemma_moved_edge(
    poly: Seq<Vertex>,
    dist: Scalar,
    i: int,
    l: real,
    alpha: real,
    beta: real,
)
    requires
        0 <= i < poly.len(),
        modest_corner(poly[i]) && modest_corner(poly[behind(i, poly.len() as int)]),
        modest(dist),
        is_length(poly[i], poly[behind(i, poly.len() as int)], l),
        alpha * l == num(poly[behind(i, poly.len() as int)][1]) - num(poly[i][1]),
        beta * l == -(num(poly[behind(i, poly.len() as int)][0]) - num(poly[i][0])),
    ensures
        !(edge_length(poly, i) <= whole(0)),
        l <= 3000real,
        size(alpha) <= 1real && size(beta) <= 1real,
        ({
            let (p, m) = (poly[i], moved_edge(poly, dist, i));
            &&& m.0.finite() && m.1.finite() && m.2.finite()
            &&& about(num(m.0), alpha, 1real / 10000000000000real)
            &&& about(num(m.1), beta, 1real / 10000000000000real)
            &&& about(
                num(m.2),
                alpha * num(p[0]) + beta * num(p[1]) + num(dist),
                1real / 1000000000real,
            )
            &&& size(num(m.2)) <= 3001real
        }),
{
    lemma_least();
    let (p, q) = (poly[i], poly[behind(i, poly.len() as int)]);
    lemma_sub(q[0], p[0]);
    lemma_sub(q[1], p[1]);
    let (ex, ey) = (q[0] - p[0], q[1] - p[1]);
    let (bx, by) = (num(q[0]) - num(p[0]), num(q[1]) - num(p[1]));
    lemma_length(ex, ey, bx, by, l);
    let len = edge_length(poly, i);
    assert(bx * bx >= 0real && by * by >= 0real) by (nonlinear_arith);
    lemma_size_product(bx, bx, 2000real, 2000real);
    lemma_size_product(by, by, 2000real, 2000real);
    assert(l <= 3000real) by (nonlinear_arith)
        requires
            l * l <= 8000000real,
            l > 0real,
    ;
    assert(size(bx) <= l && size(by) <= l) by (nonlinear_arith)
        requires
            l * l == bx * bx + by * by,
            l > 0real,
    ;
    lemma_num_whole(0);
    lemma_order(len, whole(0));
    lemma_side(ey, len, by, l, alpha);
    lemma_opposite(ex);
    lemma_side(ex.opposite(), len, -bx, l, beta);
    lemma_offset(ey / len, ex.opposite() / len, p, dist, alpha, beta);
}

/// Where a moved edge lies.
proof fn lemma_offset(a: Scalar, b: Scalar, p: Vertex, dist: Scalar, alpha: real, beta: real)
    requires
        a.finite() && b.finite(),
        modest_corner(p),
        modest(dist),
        size(alpha) <= 1real && size(beta) <= 1real,
        about(num(a), alpha, 1real / 10000000000000real),
        about(num(b), beta, 1real / 10000000000000real),
    ensures
        ({
            let c = a * p[0] + b * p[1] + dist;
            &&& c.finite()
            &&& about(
                num(c),
                alpha * num(p[0]) + beta * num(p[1]) + num(dist),
                1real / 1000000000real,
            )
            &&& size(num(c)) <= 3001real
        }),
{
    let (ar, br, x, y) = (num(a), num(b), num(p[0]), num(p[1]));
    lemma_near_product(a, p[0], alpha);
    lemma_near_product(b, p[1], beta);
    lemma_near_sum(a * p[0], b * p[1], 2000real);
    lemma_near_sum(a * p[0] + b * p[1], dist, 3001real);
}

/// A product with a number that is nearly known.
#[verifier::rlimit(50)]
proof fn lemma_near_product(a: Scalar, x: Scalar, alpha: real)
    requires
        a.finite() && modest(x),
        size(alpha) <= 1real,
        about(num(a), alpha, 1real / 10000000000000real),
    ensures
        (a * x).finite(),
        about(num(a * x), alpha * num(x), 1real / 5000000000real),
        size(alpha * num(x)) <= 1000real,
{
    lemma_least();
    let (ar, xr) = (num(a), num(x));
    lemma_size_product(ar, xr, 2real, 1000real);
    lemma_mul(a, x);
    let d = ar - alpha;
    lemma_size_product(d, xr, 1real / 10000000000000real, 1000real);
    let (ax, bx, dx) = (ar * xr, alpha * xr, d * xr);
    assert(ax == bx + dx) by (nonlinear_arith)
        requires
            ax == ar * xr,
            bx == alpha * xr,
            dx == d * xr,
            d == ar - alpha,
    ;
    lemma_size_product(alpha, xr, 1real, 1000real);
}

/// A sum within a bound.
proof fn lemma_near_sum(a: Scalar, b: Scalar, bound: real)
    requires
        a.finite() && b.finite(),
        size(num(a) + num(b)) <= bound + 1real,
        bound <= 10000real,
    ensures
        (a + b).finite(),
        about(num(a + b), num(a) + num(b), 1real / 100000000000real),
{
    lemma_least();
    lemma_add(a, b);
}

} // verus!
