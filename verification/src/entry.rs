//! Whether a segment enters a convex polygon.

use crate::convex::{behind, clip_at, clipped_to, enters_convex};
use crate::corner::lemma_trillionth;
use crate::crossing::lemma_sign;
use crate::detection::lemma_sums_in_order;
use crate::exact::{about, far, lemma_add, lemma_least, lemma_order, lemma_sub, num, size};
use crate::geometry::Vertex;
use crate::nearby::{lemma_gap, lemma_near_pair};
use crate::numeric::{frac, whole};
use crate::ring::{lemma_bound, lemma_is, lemma_minus, lemma_quotient, lemma_turn, prod};
use crate::scalar::Scalar;
use crate::sides::{close, edge_turn};
use crate::values::{lemma_num_frac, lemma_num_whole};
use vstd::prelude::*;

verus! {

/// Whether the ends of a segment and an edge are close to each other.
pub open spec fn all_close(a: Vertex, b: Vertex, poly: Seq<Vertex>, i: int) -> bool {
    let (p, q) = (poly[i], poly[behind(i, poly.len() as int)]);
    &&& close(p[0], q[0]) && close(p[1], q[1])
    &&& close(p[0], a[0]) && close(p[1], a[1])
    &&& close(p[0], b[0]) && close(p[1], b[1])
    &&& close(a[0], b[0]) && close(a[1], b[1])
}

/// The side of the start of a segment, and how it changes along it.
spec fn start_side(a: Vertex, poly: Seq<Vertex>, i: int) -> Scalar {
    let (p, q) = (poly[i], poly[behind(i, poly.len() as int)]);
    (q[0] - p[0]) * (a[1] - p[1]) - (q[1] - p[1]) * (a[0] - p[0])
}

spec fn side_change(a: Vertex, b: Vertex, poly: Seq<Vertex>, i: int) -> Scalar {
    let (p, q) = (poly[i], poly[behind(i, poly.len() as int)]);
    (q[0] - p[0]) * (b[1] - a[1]) - (q[1] - p[1]) * (b[0] - a[0])
}

#[verifier::rlimit(50)]
proof fn lemma_sides(a: Vertex, b: Vertex, poly: Seq<Vertex>, i: int)
    requires
        0 <= i < poly.len(),
        all_close(a, b, poly, i),
    ensures
        start_side(a, poly, i).finite(),
        side_change(a, b, poly, i).finite(),
        about(num(start_side(a, poly, i)), edge_turn(a, poly, i), 1real / 100000000real),
        about(
            num(side_change(a, b, poly, i)),
            edge_turn(b, poly, i) - edge_turn(a, poly, i),
            1real / 100000000real,
        ),
        size(num(start_side(a, poly, i))) <= 990000real,
        size(num(side_change(a, b, poly, i))) <= 990000real,
{
    lemma_least();
    let (p, q) = (poly[i], poly[behind(i, poly.len() as int)]);
    let (ex, ey) = (num(q[0]) - num(p[0]), num(q[1]) - num(p[1]));
    lemma_gap(q[0], p[0]);
    lemma_gap(q[1], p[1]);
    lemma_gap(a[0], p[0]);
    lemma_gap(a[1], p[1]);
    lemma_gap(b[0], a[0]);
    lemma_gap(b[1], a[1]);
    lemma_near_pair(q[0] - p[0], a[1] - p[1], ex, num(a[1]) - num(p[1]));
    lemma_near_pair(q[1] - p[1], a[0] - p[0], ey, num(a[0]) - num(p[0]));
    lemma_near_pair(q[0] - p[0], b[1] - a[1], ex, num(b[1]) - num(a[1]));
    lemma_near_pair(q[1] - p[1], b[0] - a[0], ey, num(b[0]) - num(a[0]));
    lemma_sub((q[0] - p[0]) * (a[1] - p[1]), (q[1] - p[1]) * (a[0] - p[0]));
    lemma_sub((q[0] - p[0]) * (b[1] - a[1]), (q[1] - p[1]) * (b[0] - a[0]));
    lemma_minus(ex, num(b[1]) - num(p[1]), num(a[1]) - num(p[1]));
    lemma_minus(ey, num(b[0]) - num(p[0]), num(a[0]) - num(p[0]));
    assert(num(b[1]) - num(p[1]) - (num(a[1]) - num(p[1])) == num(b[1]) - num(a[1]));
    assert(num(b[0]) - num(p[0]) - (num(a[0]) - num(p[0])) == num(b[0]) - num(a[0]));
}

/// A quadrillionth.
proof fn lemma_tiny()
    ensures
        frac(1, 1_000_000_000_000_000).finite(),
        1real / 2000000000000000real <= num(frac(1, 1_000_000_000_000_000)) <= 1real
            / 500000000000000real,
{
    lemma_least();
    lemma_num_frac(1, 1_000_000_000_000_000);
    let l = crate::exact::least();
    let (f, t) = (num(frac(1, 1_000_000_000_000_000)), 1_000_000_000_000_000int as real);
    assert(t == 1000000000000000real);
    let lt = l * t;
    assert(lt <= 1real / 1000real) by (nonlinear_arith)
        requires
            lt == l * t,
            t == 1000000000000000real,
            l <= 1real / 1267650600228229401496703205376real,
    ;
    assert(1real / 2000000000000000real <= f <= 1real / 500000000000000real) by (nonlinear_arith)
        requires
            t == 1000000000000000real,
            99real / 100real <= f * t <= 101real / 100real,
    ;
}

/// Where a segment meets the line of an edge, by the equation that it solves.
proof fn lemma_share_of_edge(eps: Scalar, f0: Scalar, f1: Scalar)
    requires
        eps.finite() && size(num(eps)) <= 1real,
        f0.finite() && size(num(f0)) <= 990000real,
        f1.finite() && 1real / 2000000000000000real <= size(num(f1)) <= 990000real,
    ensures
        ((eps - f0) / f1).finite(),
        about(prod(num((eps - f0) / f1), num(f1)), num(eps) - num(f0), 1real / 1000000000real),
{
    lemma_least();
    lemma_sub(eps, f0);
    let small = 1real / 2000000000000000real;
    lemma_is(far(), small);
    lemma_quotient(eps - f0, f1, small);
}

/// Whether a part of a segment is one.
spec fn is_part(part: (Scalar, Scalar)) -> bool {
    &&& part.0.finite() && part.1.finite()
    &&& 0real <= num(part.0) && num(part.1) <= 1real
}

/// The magnitude of a number.
proof fn lemma_magnitude(d: Scalar)
    requires
        d.finite(),
    ensures
        d.magnitude().finite(),
        num(d.magnitude()) == size(num(d)),
{
    crate::corner::lemma_magnitude(d);
}

/// What an edge leaves of a part.
#[verifier::rlimit(50)]
proof fn lemma_clip(
    a: Vertex,
    b: Vertex,
    poly: Seq<Vertex>,
    eps: Scalar,
    part: (Scalar, Scalar),
    i: int,
    at: real,
)
    requires
        0 <= i < poly.len(),
        all_close(a, b, poly, i),
        eps.finite() && size(num(eps)) <= 1real,
        is_part(part),
        0real <= at <= 1real,
    ensures
        clip_at(a, b, poly, eps, part, i) is Some ==> is_part(
            clip_at(a, b, poly, eps, part, i)->0,
        ),
        edge_turn(a, poly, i) <= num(eps) - 1real / 100000real && edge_turn(b, poly, i) <= num(eps)
            - 1real / 100000real ==> clip_at(a, b, poly, eps, part, i) is None,
        num(part.0) <= at <= num(part.1) && edge_turn(a, poly, i) + prod(
            at,
            edge_turn(b, poly, i) - edge_turn(a, poly, i),
        ) >= num(eps) + 1real / 100000real ==> {
            let left = clip_at(a, b, poly, eps, part, i)->0;
            &&& clip_at(a, b, poly, eps, part, i) is Some
            &&& num(left.0) <= at <= num(left.1)
        },
{
    lemma_sides(a, b, poly, i);
    let (f0, f1) = (start_side(a, poly, i), side_change(a, b, poly, i));
    let (x, y) = (num(f0), num(f1));
    let (ta, tb) = (edge_turn(a, poly, i), edge_turn(b, poly, i));
    lemma_tiny();
    lemma_trillionth();
    lemma_magnitude(f1);
    lemma_num_whole(0);
    lemma_num_whole(1);
    lemma_order(f1.magnitude(), frac(1, 1_000_000_000_000_000));
    lemma_order(f0, eps);
    lemma_order(whole(0), f1);
    let t = (eps - f0) / f1;
    let flat = f1.magnitude() < frac(1, 1_000_000_000_000_000);
    // The side at the share `at`, as it is computed and as it is.
    let e = 1real / 100000000real;
    lemma_bound(at, y - (tb - ta), 1real, e);
    lemma_is(1real, e);
    lemma_minus(at, y, tb - ta);
    if flat {
        let z = 1real / 500000000000000real;
        lemma_bound(at, y, 1real, z);
        lemma_is(1real, z);
        lemma_room(part.0, part.1);
    } else {
        lemma_share_of_edge(eps, f0, f1);
        let tn = num(t);
        lemma_order(part.0, t);
        lemma_order(t, part.1);
        lemma_turn(y, tn);
        lemma_turn(y, at);
        lemma_minus(y, tn, at);
        lemma_sign(y, tn - at);
        lemma_sign(y, at - tn);
        lemma_minus(y, at, tn);
        lemma_minus(y, tn, 1real);
        lemma_is(1real, y);
        lemma_turn(y, 1real);
        let (lo, hi) = if f1 > whole(0) {
            (part.0.larger(t), part.1)
        } else {
            (part.0, part.1.smaller(t))
        };
        assert(lo.finite() && hi.finite());
        lemma_room(lo, hi);
        if ta <= num(eps) - 1real / 100000real && tb <= num(eps) - 1real / 100000real {
            lemma_beyond(tn, y, f1 > whole(0));
        }
    }
}

/// A segment that does not reach the line of an edge.
proof fn lemma_beyond(t: real, y: real, up: bool)
    requires
        size(y) <= 990000real,
        up ==> y > 0real && prod(y, t - 1real) >= 1real / 200000real,
        !up ==> y <= 0real && prod(y, t) >= 1real / 200000real,
    ensures
        up ==> t >= 1real + 5real / 1000000000000real,
        !up ==> t <= -5real / 1000000000000real,
{
    let z = 5real / 1000000000000real;
    if up {
        lemma_sign(y, t - 1real);
        if t < 1real + z {
            lemma_bound(y, t - 1real, 990000real, z);
            lemma_is(990000real, z);
        }
    } else {
        lemma_sign(y, t);
        if t > -z {
            lemma_bound(y, t, 990000real, z);
            lemma_is(990000real, z);
        }
    }
}

/// When a part is empty.
#[verifier::rlimit(50)]
proof fn lemma_room(lo: Scalar, hi: Scalar)
    requires
        lo.finite() && hi.finite(),
        num(hi) <= 1real,
        0real <= num(lo),
    ensures
        num(lo) <= num(hi) ==> !(lo > hi + frac(1, 1_000_000_000_000)),
        num(lo) >= num(hi) + 4real / 1000000000000real && num(lo) >= 1real + 4real
            / 1000000000000real ==> lo > hi + frac(1, 1_000_000_000_000),
        num(hi) <= -4real / 1000000000000real ==> lo > hi + frac(1, 1_000_000_000_000),
{
    lemma_least();
    lemma_trillionth();
    lemma_num_whole(0);
    lemma_num_whole(1);
    let c = frac(1, 1_000_000_000_000);
    crate::exact::lemma_num(c);
    crate::exact::lemma_num(hi);
    crate::exact::lemma_num(whole(0));
    lemma_order(hi, whole(1));
    lemma_order(whole(0), c);
    // hi <= hi + c <= 1 + c.
    lemma_sums_in_order(hi, c, whole(1), c);
    lemma_sums_in_order(hi, whole(0), hi, c);
    lemma_same(hi);
    lemma_add(whole(1), c);
    lemma_order(whole(1) + c, lo);
    lemma_order(lo, hi);
    if num(hi) <= -4real / 1000000000000real {
        let n = frac(1, 1_000_000_000_000);
        let m = n.opposite();
        assert(m.magnitude_bits() == n.magnitude_bits());
        assert(m.value() == -n.value());
        lemma_negative(hi, c);
        crate::exact::lemma_num(lo);
    }
}

/// A number with nothing added.
proof fn lemma_same(x: Scalar)
    requires
        x.finite(),
    ensures
        (x + whole(0)).value() == x.value(),
{
    reveal(Scalar::plus);
    crate::order::lemma_whole_zero();
    crate::ends::lemma_absolute_value(x);
    crate::order::lemma_nearest_exact(x.magnitude_bits());
}

/// A sum below nothing.
proof fn lemma_negative(hi: Scalar, c: Scalar)
    requires
        hi.finite() && c.finite(),
        num(hi) <= -4real / 1000000000000real,
        0real <= num(c) <= 1real / 500000000000real,
    ensures
        (hi + c).value() < 0,
        !(hi + c).nan(),
{
    crate::exact::lemma_num(hi);
    crate::exact::lemma_num(c);
    lemma_least();
    let u = vstd::arithmetic::power2::pow2(1074) as real;
    let v = hi.value() + c.value();
    assert(num(hi) + num(c) < 0real);
    assert((v as real) < 0real) by (nonlinear_arith)
        requires
            v as real == num(hi) * u + num(c) * u,
            num(hi) + num(c) < 0real,
            u > 0real,
    ;
    reveal(Scalar::plus);
    crate::rounding::lemma_nearest_exists(-v, 1);
    crate::order::lemma_nearest_exact(1);
    assert(crate::scalar::magnitude_value(1) == 1);
    crate::order::lemma_nearest_monotone(1, -v, 1);
    let m = crate::rounding::nearest(-v, 1);
    crate::scalar::lemma_magnitude_monotone(0, m);
    assert(crate::scalar::magnitude_value(0) == 0);
}

/// The cross product of edge `i` with the place at a share of a segment.
pub open spec fn turn_along(a: Vertex, b: Vertex, poly: Seq<Vertex>, i: int, at: real) -> real {
    edge_turn(a, poly, i) + prod(at, edge_turn(b, poly, i) - edge_turn(a, poly, i))
}

/// What the first edges leave of a segment.
proof fn lemma_left(a: Vertex, b: Vertex, poly: Seq<Vertex>, eps: Scalar, k: int, at: real)
    requires
        0 <= k <= poly.len(),
        forall|i: int| 0 <= i < poly.len() ==> #[trigger] all_close(a, b, poly, i),
        eps.finite() && size(num(eps)) <= 1real,
        0real <= at <= 1real,
    ensures
        clipped_to(a, b, poly, eps, k) is Some ==> is_part(clipped_to(a, b, poly, eps, k)->0),
        (forall|i: int|
            0 <= i < poly.len() ==> #[trigger] turn_along(a, b, poly, i, at) >= num(eps) + 1real
                / 100000real) ==> {
            let left = clipped_to(a, b, poly, eps, k)->0;
            &&& clipped_to(a, b, poly, eps, k) is Some
            &&& num(left.0) <= at <= num(left.1)
        },
    decreases k,
{
    lemma_num_whole(0);
    lemma_num_whole(1);
    if k > 0 {
        lemma_left(a, b, poly, eps, k - 1, at);
        assert(all_close(a, b, poly, k - 1));
        if clipped_to(a, b, poly, eps, k - 1) is Some {
            lemma_clip(a, b, poly, eps, clipped_to(a, b, poly, eps, k - 1)->0, k - 1, at);
        }
        if forall|i: int|
            0 <= i < poly.len() ==> #[trigger] turn_along(a, b, poly, i, at) >= num(eps) + 1real
                / 100000real {
            assert(turn_along(a, b, poly, k - 1, at) >= num(eps) + 1real / 100000real);
        }
    }
}

/// A segment with a place well inside every edge enters the polygon.
pub proof fn law_segment_through_polygon_enters(
    a: Vertex,
    b: Vertex,
    poly: Seq<Vertex>,
    eps: Scalar,
    at: real,
)
    requires
        poly.len() >= 3,
        forall|i: int| 0 <= i < poly.len() ==> #[trigger] all_close(a, b, poly, i),
        eps.finite() && size(num(eps)) <= 1real,
        0real <= at <= 1real,
        forall|i: int|
            0 <= i < poly.len() ==> #[trigger] turn_along(a, b, poly, i, at) >= num(eps) + 1real
                / 100000real,
    ensures
        enters_convex(a, b, poly, eps),
{
    lemma_left(a, b, poly, eps, poly.len() as int, at);
}

/// Nothing is left of a segment behind an edge that leaves nothing.
proof fn lemma_nothing_left(a: Vertex, b: Vertex, poly: Seq<Vertex>, eps: Scalar, i: int, k: int)
    requires
        0 <= i < k <= poly.len(),
        forall|j: int| 0 <= j < poly.len() ==> #[trigger] all_close(a, b, poly, j),
        eps.finite() && size(num(eps)) <= 1real,
        edge_turn(a, poly, i) <= num(eps) - 1real / 100000real,
        edge_turn(b, poly, i) <= num(eps) - 1real / 100000real,
    ensures
        clipped_to(a, b, poly, eps, k) is None,
    decreases k,
{
    if i == k - 1 {
        lemma_left(a, b, poly, eps, i, 0real);
        assert(all_close(a, b, poly, i));
        if clipped_to(a, b, poly, eps, i) is Some {
            lemma_clip(a, b, poly, eps, clipped_to(a, b, poly, eps, i)->0, i, 0real);
        }
    } else {
        lemma_nothing_left(a, b, poly, eps, i, k - 1);
    }
}

/// A segment both of whose ends lie clearly beyond one edge does not enter the polygon.
pub proof fn law_segment_beyond_an_edge_does_not_enter(
    a: Vertex,
    b: Vertex,
    poly: Seq<Vertex>,
    eps: Scalar,
    i: int,
)
    requires
        0 <= i < poly.len(),
        forall|j: int| 0 <= j < poly.len() ==> #[trigger] all_close(a, b, poly, j),
        eps.finite() && size(num(eps)) <= 1real,
        edge_turn(a, poly, i) <= num(eps) - 1real / 100000real,
        edge_turn(b, poly, i) <= num(eps) - 1real / 100000real,
    ensures
        !enters_convex(a, b, poly, eps),
{
    lemma_nothing_left(a, b, poly, eps, i, poly.len() as int);
}

} // verus!
