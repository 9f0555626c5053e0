//! Convex hulls and convex polygons.

use crate::geometry::Vertex;
use crate::numeric::{frac, number, ratio, whole};
use crate::passage::infinity;
use crate::scalar::{Scalar, INFINITY_BITS};
use vstd::prelude::*;

verus! {

/// Twice the area of a triangle, positive if it runs anticlockwise.
pub open spec fn cross(o: Vertex, a: Vertex, b: Vertex) -> Scalar {
    (a[0] - o[0]) * (b[1] - o[1]) - (a[1] - o[1]) * (b[0] - o[0])
}

fn compute_cross(o: &Vertex, a: &Vertex, b: &Vertex) -> (r: Scalar)
    ensures
        r == cross(*o, *a, *b),
{
    (a[0] - o[0]) * (b[1] - o[1]) - (a[1] - o[1]) * (b[0] - o[0])
}

/// Whether two points have the same coordinates, bit for bit.
pub open spec fn same_spot(a: Vertex, b: Vertex) -> bool {
    a[0] == b[0] && a[1] == b[1]
}

/// Whether a point comes before another: by longitude, then by latitude, in the
/// total order of doubles.
pub open spec fn comes_before(a: Vertex, b: Vertex) -> bool {
    a[0].rank() < b[0].rank() || (a[0].rank() == b[0].rank() && a[1].rank() < b[1].rank())
}

fn is_before(a: &Vertex, b: &Vertex) -> (r: bool)
    ensures
        r == comes_before(*a, *b),
{
    let (ax, ay): (Scalar, Scalar) = (a[0], a[1]);
    let (bx, by): (Scalar, Scalar) = (b[0], b[1]);
    if ax.ranks_below(&bx) {
        return true;
    }
    !bx.ranks_below(&ax) && ay.ranks_below(&by)
}

/// Points in order, none of them twice.
pub open spec fn in_order(s: Seq<Vertex>) -> bool {
    forall|i: int, j: int|
        0 <= i < j < s.len() ==> comes_before(#[trigger] s[i], #[trigger] s[j])
}

/// Whether two lists hold the same points.
pub open spec fn same_points(s: Seq<Vertex>, points: Seq<Vertex>) -> bool {
    &&& forall|i: int| 0 <= i < s.len() ==> points.contains(#[trigger] s[i])
    &&& forall|i: int|
        0 <= i < points.len() ==> exists|j: int|
            0 <= j < s.len() && same_spot(s[j], #[trigger] points[i])
}

proof fn lemma_rank_tells(a: Scalar, b: Scalar)
    requires
        a.rank() == b.rank(),
    ensures
        a == b,
{
}

/// Where a point is to be put into points in order: its place, and whether it is
/// there already.
fn find_slot(s: &Vec<Vertex>, p: &Vertex) -> (r: (usize, bool))
    requires
        in_order(s@),
    ensures
        r.0 <= s@.len(),
        forall|i: int| 0 <= i < r.0 ==> comes_before(#[trigger] s@[i], *p),
        r.1 ==> r.0 < s@.len() && same_spot(s@[r.0 as int], *p),
        !r.1 ==> forall|i: int| r.0 <= i < s@.len() ==> comes_before(*p, #[trigger] s@[i]),
{
    let mut i: usize = 0;
    while i < s.len()
        invariant
            in_order(s@),
            i <= s@.len(),
            forall|k: int| 0 <= k < i ==> comes_before(#[trigger] s@[k], *p),
        decreases s.len() - i,
    {
        if !is_before(&s[i], p) {
            if is_before(p, &s[i]) {
                assert forall|k: int| i <= k < s@.len() implies comes_before(
                    *p,
                    #[trigger] s@[k],
                ) by {
                    if k > i {
                        assert(comes_before(s@[i as int], s@[k]));
                    }
                }
                return (i, false);
            }
            proof {
                lemma_rank_tells(s@[i as int][0], p[0]);
                lemma_rank_tells(s@[i as int][1], p[1]);
            }
            return (i, true);
        }
        i = i + 1;
    }
    (i, false)
}

proof fn lemma_insert_in_order(s: Seq<Vertex>, at: int, p: Vertex)
    requires
        in_order(s),
        0 <= at <= s.len(),
        forall|i: int| 0 <= i < at ==> comes_before(#[trigger] s[i], p),
        forall|i: int| at <= i < s.len() ==> comes_before(p, #[trigger] s[i]),
    ensures
        in_order(s.insert(at, p)),
{
    let t = s.insert(at, p);
    assert forall|i: int, j: int| 0 <= i < j < t.len() implies comes_before(
        #[trigger] t[i],
        #[trigger] t[j],
    ) by {
        if j < at {
            assert(t[i] == s[i] && t[j] == s[j]);
        } else if j == at {
            assert(t[i] == s[i]);
        } else if i < at {
            assert(t[i] == s[i] && t[j] == s[j - 1]);
        } else if i == at {
            assert(t[j] == s[j - 1]);
        } else {
            assert(t[i] == s[i - 1] && t[j] == s[j - 1]);
        }
    }
}

proof fn lemma_more_points(s: Seq<Vertex>, t: Seq<Vertex>, at: int, p: Vertex, seen: Seq<Vertex>)
    requires
        same_points(s, seen),
        0 <= at < t.len(),
        same_spot(t[at], p),
        forall|i: int| 0 <= i < t.len() ==> s.contains(#[trigger] t[i]) || t[i] == p,
        forall|i: int| 0 <= i < s.len() ==> t.contains(#[trigger] s[i]),
    ensures
        same_points(t, seen.push(p)),
{
    let next = seen.push(p);
    assert(next[seen.len() as int] == p);
    assert forall|i: int| 0 <= i < t.len() implies next.contains(#[trigger] t[i]) by {
        if t[i] != p {
            let k = choose|k: int| 0 <= k < s.len() && s[k] == t[i];
            assert(seen.contains(s[k]));
            let w = choose|w: int| 0 <= w < seen.len() && seen[w] == s[k];
            assert(next[w] == t[i]);
        }
    }
    assert forall|i: int| 0 <= i < next.len() implies exists|j: int|
        0 <= j < t.len() && same_spot(t[j], #[trigger] next[i]) by {
        if i < seen.len() {
            assert(next[i] == seen[i]);
            let j = choose|j: int| 0 <= j < s.len() && same_spot(s[j], seen[i]);
            assert(t.contains(s[j]));
            let k = choose|k: int| 0 <= k < t.len() && t[k] == s[j];
            assert(same_spot(t[k], next[i]));
        } else {
            assert(same_spot(t[at], next[i]));
        }
    }
}

fn sort_points(points: &Vec<Vertex>) -> (s: Vec<Vertex>)
    ensures
        in_order(s@),
        same_points(s@, points@),
{
    let mut s: Vec<Vertex> = Vec::new();
    let mut k: usize = 0;
    while k < points.len()
        invariant
            k <= points@.len(),
            in_order(s@),
            same_points(s@, points@.take(k as int)),
        decreases points.len() - k,
    {
        put_in(&mut s, points[k], Ghost(points@.take(k as int)));
        assert(points@.take(k + 1) =~= points@.take(k as int).push(points@[k as int]));
        k = k + 1;
    }
    assert(points@.take(k as int) =~= points@);
    s
}

/// Puts a point into points in order, unless it is there.
fn put_in(s: &mut Vec<Vertex>, p: Vertex, Ghost(seen): Ghost<Seq<Vertex>>)
    requires
        in_order(old(s)@),
        same_points(old(s)@, seen),
    ensures
        in_order(final(s)@),
        same_points(final(s)@, seen.push(p)),
{
    let ghost before = s@;
    let (at, there): (usize, bool) = find_slot(s, &p);
    if !there {
        s.insert(at, p);
        proof {
            lemma_insert_in_order(before, at as int, p);
            assert(s@ =~= before.insert(at as int, p));
            assert forall|i: int| 0 <= i < s@.len() implies before.contains(#[trigger] s@[i]) || s@[i]
                == p by {
                if i < at {
                    assert(s@[i] == before[i]);
                } else if i > at {
                    assert(s@[i] == before[i - 1]);
                }
            }
            assert forall|i: int| 0 <= i < before.len() implies s@.contains(#[trigger] before[i]) by {
                if i < at {
                    assert(s@[i] == before[i]);
                } else {
                    assert(s@[i + 1] == before[i]);
                }
            }
            lemma_more_points(before, s@, at as int, p, seen);
        }
    } else {
        proof {
            lemma_more_points(before, s@, at as int, p, seen);
        }
    }
}

/// A chain without the points at its end at which the way to `p` would not turn
/// left.
pub open spec fn trimmed(chain: Seq<Vertex>, p: Vertex) -> Seq<Vertex>
    decreases chain.len(),
{
    if chain.len() >= 2 && cross(chain[chain.len() - 2], chain[chain.len() - 1], p) <= whole(0) {
        trimmed(chain.drop_last(), p)
    } else {
        chain
    }
}

/// The chain along the right-hand side of the first `k` points in order.
pub open spec fn side_chain(s: Seq<Vertex>, k: int) -> Seq<Vertex>
    decreases k,
{
    if k <= 0 {
        Seq::empty()
    } else {
        trimmed(side_chain(s, k - 1), s[k - 1]).push(s[k - 1])
    }
}

/// The hull of points in order: the chain along one side, then the one back
/// along the other.
pub open spec fn hull_of(s: Seq<Vertex>) -> Seq<Vertex> {
    if s.len() <= 2 {
        s
    } else {
        side_chain(s, s.len() as int).drop_last() + side_chain(
            s.reverse(),
            s.len() as int,
        ).drop_last()
    }
}

fn extend_chain(chain: &mut Vec<Vertex>, p: Vertex)
    ensures
        final(chain)@ == trimmed(old(chain)@, p).push(p),
{
    let ghost before = chain@;
    loop
        invariant
            trimmed(before, p) == trimmed(chain@, p),
        ensures
            trimmed(before, p) == chain@,
        decreases chain@.len(),
    {
        let n: usize = chain.len();
        if n < 2 {
            break;
        }
        if !compute_cross(&chain[n - 2], &chain[n - 1], &p).le(&number(0)) {
            break;
        }
        chain.pop();
        assert(chain@ =~= chain@.take(n - 1));
    }
    chain.push(p);
}

fn make_chain(s: &Vec<Vertex>, backwards: bool) -> (chain: Vec<Vertex>)
    ensures
        chain@ == side_chain(
            if backwards {
                s@.reverse()
            } else {
                s@
            },
            s@.len() as int,
        ),
        s@.len() > 0 ==> chain@.len() > 0,
{
    let n: usize = s.len();
    let ghost way = if backwards {
        s@.reverse()
    } else {
        s@
    };
    let mut chain: Vec<Vertex> = Vec::new();
    let mut k: usize = 0;
    while k < n
        invariant
            n == s@.len(),
            way == (if backwards {
                s@.reverse()
            } else {
                s@
            }),
            k <= n,
            chain@ == side_chain(way, k as int),
            k > 0 ==> chain@.len() > 0,
        decreases n - k,
    {
        let at: usize = if backwards { n - 1 - k } else { k };
        assert(way[k as int] == s@[at as int]);
        extend_chain(&mut chain, s[at]);
        k = k + 1;
    }
    chain
}

/// The convex hull of some points, anticlockwise, without points on its edges.
/// Two points or fewer are returned as they are.
pub fn convex_hull(points: &Vec<Vertex>) -> (r: Vec<Vertex>)
    ensures
        points@.len() <= 2 ==> r@ == points@,
        points@.len() > 2 ==> exists|s: Seq<Vertex>| #[trigger]
            in_order(s) && same_points(s, points@) && r@ == hull_of(s),
{
    if points.len() <= 2 {
        return copy_vertices(points);
    }
    let s: Vec<Vertex> = sort_points(points);
    if s.len() <= 2 {
        assert(in_order(s@) && same_points(s@, points@) && s@ == hull_of(s@));
        return s;
    }
    let mut lower: Vec<Vertex> = make_chain(&s, false);
    let mut upper: Vec<Vertex> = make_chain(&s, true);
    let ghost down = lower@;
    let ghost up = upper@;
    lower.pop();
    upper.pop();
    lower.append(&mut upper);
    proof {
        assert(lower@ =~= down.drop_last() + up.drop_last());
        assert(in_order(s@) && same_points(s@, points@) && lower@ == hull_of(s@));
    }
    lower
}

pub fn copy_vertices(points: &Vec<Vertex>) -> (r: Vec<Vertex>)
    ensures
        r@ == points@,
{
    let mut copy: Vec<Vertex> = Vec::new();
    let mut k: usize = 0;
    while k < points.len()
        invariant
            k <= points@.len(),
            copy@ == points@.take(k as int),
        decreases points.len() - k,
    {
        copy.push(points[k]);
        k = k + 1;
        assert(copy@ =~= points@.take(k as int));
    }
    assert(points@.take(k as int) =~= points@);
    copy
}

/// A chain turns left at each of its points.
pub open spec fn turns_left(chain: Seq<Vertex>) -> bool {
    forall|i: int|
        0 <= i < chain.len() - 2 ==> !(#[trigger] turn_in(chain, i) <= whole(0))
}

/// The turn of a chain behind point `i`.
pub open spec fn turn_in(chain: Seq<Vertex>, i: int) -> Scalar {
    cross(chain[i], chain[i + 1], chain[i + 2])
}

proof fn lemma_trimmed(chain: Seq<Vertex>, p: Vertex)
    requires
        turns_left(chain),
    ensures
        trimmed(chain, p).is_prefix_of(chain),
        turns_left(trimmed(chain, p)),
        turns_left(trimmed(chain, p).push(p)),
        chain.len() > 0 ==> trimmed(chain, p).len() > 0,
    decreases chain.len(),
{
    let kept = trimmed(chain, p);
    if chain.len() >= 2 && cross(chain[chain.len() - 2], chain[chain.len() - 1], p) <= whole(0) {
        let less = chain.drop_last();
        assert forall|i: int| 0 <= i < less.len() - 2 implies !(#[trigger] turn_in(less, i)
            <= whole(0)) by {
            assert(turn_in(less, i) == turn_in(chain, i));
        }
        lemma_trimmed(less, p);
        assert(kept =~= chain.subrange(0, kept.len() as int)) by {
            assert(kept =~= less.subrange(0, kept.len() as int));
        }
    } else {
        assert(kept =~= chain.subrange(0, kept.len() as int));
        let more = kept.push(p);
        assert forall|i: int| 0 <= i < more.len() - 2 implies !(#[trigger] turn_in(more, i)
            <= whole(0)) by {
            if i < chain.len() - 2 {
                assert(turn_in(more, i) == turn_in(chain, i));
            }
        }
    }
}

/// Each side of a hull turns left at every point of it.
pub proof fn law_hull_turns_left(s: Seq<Vertex>, k: int)
    requires
        0 <= k <= s.len(),
    ensures
        turns_left(side_chain(s, k)),
    decreases k,
{
    if k > 0 {
        law_hull_turns_left(s, k - 1);
        lemma_trimmed(side_chain(s, k - 1), s[k - 1]);
    }
}

/// The points of each side of a hull are points that were given, and it ends at
/// the last of them.
pub proof fn law_hull_of_given_points(s: Seq<Vertex>, k: int)
    requires
        0 < k <= s.len(),
    ensures
        side_chain(s, k).len() > 0,
        side_chain(s, k).last() == s[k - 1],
        forall|i: int|
            0 <= i < side_chain(s, k).len() ==> s.contains(#[trigger] side_chain(s, k)[i]),
    decreases k,
{
    let before = side_chain(s, k - 1);
    let kept = trimmed(before, s[k - 1]);
    if k > 1 {
        law_hull_of_given_points(s, k - 1);
        law_hull_turns_left(s, k - 1);
        lemma_trimmed(before, s[k - 1]);
    } else {
        assert(before =~= Seq::<Vertex>::empty());
        assert(kept =~= Seq::<Vertex>::empty());
    }
    let chain = side_chain(s, k);
    assert forall|i: int| 0 <= i < chain.len() implies s.contains(#[trigger] chain[i]) by {
        if i < kept.len() {
            assert(chain[i] == kept[i]);
            assert(kept =~= before.subrange(0, kept.len() as int));
            assert(kept[i] == before[i]);
        } else {
            assert(chain[i] == s[k - 1]);
        }
    }
}

/// The corner behind corner `i` of a polygon.
pub open spec fn behind(i: int, n: int) -> int {
    if i + 1 == n {
        0
    } else {
        i + 1
    }
}

fn go_on(i: usize, n: usize) -> (r: usize)
    requires
        i < n,
    ensures
        r == behind(i as int, n as int),
        r < n,
{
    if i + 1 == n {
        0
    } else {
        i + 1
    }
}

/// Length of edge `i` of a polygon.
pub open spec fn edge_length(poly: Seq<Vertex>, i: int) -> Scalar {
    let (p, q) = (poly[i], poly[behind(i, poly.len() as int)]);
    let (ex, ey) = (q[0] - p[0], q[1] - p[1]);
    (ex * ex + ey * ey).root()
}

/// Edge `i` of a polygon moved outwards, as a line `a x + b y = c`.
pub open spec fn moved_edge(poly: Seq<Vertex>, dist: Scalar, i: int) -> (Scalar, Scalar, Scalar) {
    let (p, q) = (poly[i], poly[behind(i, poly.len() as int)]);
    let (ex, ey) = (q[0] - p[0], q[1] - p[1]);
    let len = edge_length(poly, i);
    let (a, b) = (ey / len, ex.opposite() / len);
    (a, b, a * p[0] + b * p[1] + dist)
}

/// The determinant of two lines, small if they are nearly parallel.
pub open spec fn lines_det(u: (Scalar, Scalar, Scalar), w: (Scalar, Scalar, Scalar)) -> Scalar {
    u.0 * w.1 - w.0 * u.1
}

/// Where two lines meet.
pub open spec fn lines_meet(u: (Scalar, Scalar, Scalar), w: (Scalar, Scalar, Scalar)) -> (
    Scalar,
    Scalar,
) {
    let det = lines_det(u, w);
    ((u.2 * w.1 - w.2 * u.1) / det, (u.0 * w.2 - w.0 * u.2) / det)
}

/// Whether a polygon can be widened: it has three corners, the distance is
/// positive, no edge is without length, and no two neighbouring edges are
/// parallel.
pub open spec fn can_widen(poly: Seq<Vertex>, dist: Scalar) -> bool {
    &&& poly.len() >= 3
    &&& !(dist <= whole(0))
    &&& forall|i: int| 0 <= i < poly.len() ==> !(#[trigger] edge_length(poly, i) <= whole(0))
    &&& forall|i: int| 0 <= i < poly.len() ==> #[trigger] corner_stands(poly, dist, i)
}

/// Whether the moved edges at the end of edge `i` meet.
pub open spec fn corner_stands(poly: Seq<Vertex>, dist: Scalar, i: int) -> bool {
    !(lines_det(
        moved_edge(poly, dist, i),
        moved_edge(poly, dist, behind(i, poly.len() as int)),
    ).magnitude() < frac(1, 1_000_000_000_000))
}

/// Corner `i` of a widened polygon.
pub open spec fn moved_corner(poly: Seq<Vertex>, dist: Scalar, i: int) -> (Scalar, Scalar) {
    lines_meet(
        moved_edge(poly, dist, i),
        moved_edge(poly, dist, behind(i, poly.len() as int)),
    )
}

fn move_edge(poly: &Vec<Vertex>, dist: Scalar, i: usize) -> (r: Option<(Scalar, Scalar, Scalar)>)
    requires
        i < poly@.len(),
    ensures
        r is None <==> edge_length(poly@, i as int) <= whole(0),
        r is Some ==> r->0 == moved_edge(poly@, dist, i as int),
{
    let n: usize = poly.len();
    let p: Vertex = poly[i];
    let q: Vertex = poly[go_on(i, n)];
    let ex: Scalar = q[0] - p[0];
    let ey: Scalar = q[1] - p[1];
    let len: Scalar = (ex * ex + ey * ey).sqrt();
    if len.le(&number(0)) {
        return None;
    }
    let a: Scalar = ey / len;
    let b: Scalar = ex.neg() / len;
    Some((a, b, a * p[0] + b * p[1] + dist))
}

/// Widens a convex polygon that runs anticlockwise by moving its edges outwards;
/// empty where that cannot be done.
pub fn inflate_convex(poly: &Vec<Vertex>, dist_deg: Scalar) -> (r: Vec<Vertex>)
    ensures
        !can_widen(poly@, dist_deg) ==> r@.len() == 0,
        can_widen(poly@, dist_deg) ==> r@.len() == poly@.len() && forall|i: int|
            0 <= i < r@.len() ==> (#[trigger] r@[i][0], r@[i][1]) == moved_corner(
                poly@,
                dist_deg,
                i,
            ),
{
    let n: usize = poly.len();
    if n < 3 || dist_deg.le(&number(0)) {
        return Vec::new();
    }
    let mut lines: Vec<(Scalar, Scalar, Scalar)> = Vec::new();
    let mut i: usize = 0;
    while i < n
        invariant
            n == poly@.len(),
            n >= 3,
            i <= n,
            lines@.len() == i,
            forall|k: int|
                0 <= k < i ==> !(#[trigger] edge_length(poly@, k) <= whole(0)),
            forall|k: int|
                0 <= k < i ==> #[trigger] lines@[k] == moved_edge(poly@, dist_deg, k),
        decreases n - i,
    {
        match move_edge(poly, dist_deg, i) {
            None => {
                assert(edge_length(poly@, i as int) <= whole(0));
                return Vec::new();
            },
            Some(line) => {
                lines.push(line);
            },
        }
        i = i + 1;
    }
    let mut out: Vec<Vertex> = Vec::new();
    let mut i: usize = 0;
    while i < n
        invariant
            n == poly@.len(),
            n >= 3,
            i <= n,
            lines@.len() == n,
            forall|k: int|
                0 <= k < n ==> #[trigger] lines@[k] == moved_edge(poly@, dist_deg, k),
            out@.len() == i,
            forall|k: int| 0 <= k < i ==> #[trigger] corner_stands(poly@, dist_deg, k),
            forall|k: int|
                0 <= k < i ==> (#[trigger] out@[k][0], out@[k][1]) == moved_corner(
                    poly@,
                    dist_deg,
                    k,
                ),
        decreases n - i,
    {
        let u: (Scalar, Scalar, Scalar) = lines[i];
        let w: (Scalar, Scalar, Scalar) = lines[go_on(i, n)];
        let det: Scalar = u.0 * w.1 - w.0 * u.1;
        if det.abs().lt(&ratio(1, 1_000_000_000_000)) {
            assert(!corner_stands(poly@, dist_deg, i as int));
            return Vec::new();
        }
        assert(corner_stands(poly@, dist_deg, i as int));
        let x: Scalar = (u.2 * w.1 - w.2 * u.1) / det;
        let y: Scalar = (u.0 * w.2 - w.0 * u.2) / det;
        out.push([x, y]);
        i = i + 1;
    }
    out
}

/// Whether a point is on the inner side of edge `i`, or at most `eps` beyond it.
pub open spec fn inside_edge(p: Vertex, poly: Seq<Vertex>, eps: Scalar, i: int) -> bool {
    !(cross(poly[i], poly[behind(i, poly.len() as int)], p) < eps.opposite())
}

/// Whether a point lies in a convex polygon, its edge included.
pub open spec fn in_convex(p: Vertex, poly: Seq<Vertex>, eps: Scalar) -> bool {
    poly.len() >= 3 && forall|i: int|
        0 <= i < poly.len() ==> #[trigger] inside_edge(p, poly, eps, i)
}

pub fn point_in_convex(p: &Vertex, poly: &Vec<Vertex>, eps: Scalar) -> (r: bool)
    ensures
        r == in_convex(*p, poly@, eps),
{
    let n: usize = poly.len();
    if n < 3 {
        return false;
    }
    let mut i: usize = 0;
    while i < n
        invariant
            n == poly@.len(),
            n >= 3,
            i <= n,
            forall|k: int| 0 <= k < i ==> #[trigger] inside_edge(*p, poly@, eps, k),
        decreases n - i,
    {
        if compute_cross(&poly[i], &poly[go_on(i, n)], p).lt(&eps.neg()) {
            assert(!inside_edge(*p, poly@, eps, i as int));
            return false;
        }
        i = i + 1;
    }
    true
}

/// The part of a segment, as fractions from its start, that is inside edge `i`
/// and inside a part found before; none if it is empty.
pub open spec fn clip_at(
    a: Vertex,
    b: Vertex,
    poly: Seq<Vertex>,
    eps: Scalar,
    part: (Scalar, Scalar),
    i: int,
) -> Option<(Scalar, Scalar)> {
    let (p, q) = (poly[i], poly[behind(i, poly.len() as int)]);
    let (ex, ey) = (q[0] - p[0], q[1] - p[1]);
    let f0 = ex * (a[1] - p[1]) - ey * (a[0] - p[0]);
    let f1 = ex * (b[1] - a[1]) - ey * (b[0] - a[0]);
    let t = (eps - f0) / f1;
    let flat = f1.magnitude() < frac(1, 1_000_000_000_000_000);
    let (lo, hi) = if flat {
        part
    } else if f1 > whole(0) {
        (part.0.larger(t), part.1)
    } else {
        (part.0, part.1.smaller(t))
    };
    if (flat && f0 < eps) || lo > hi + frac(1, 1_000_000_000_000) {
        None
    } else {
        Some((lo, hi))
    }
}

/// The part of a segment inside the first `k` edges.
pub open spec fn clipped_to(a: Vertex, b: Vertex, poly: Seq<Vertex>, eps: Scalar, k: int) -> Option<
    (Scalar, Scalar),
>
    decreases k,
{
    if k <= 0 {
        Some((whole(0), whole(1)))
    } else {
        match clipped_to(a, b, poly, eps, k - 1) {
            None => None,
            Some(part) => clip_at(a, b, poly, eps, part, k - 1),
        }
    }
}

/// Whether a segment enters a convex polygon by more than `eps`; to run along its
/// edge is not to enter it.
pub open spec fn enters_convex(a: Vertex, b: Vertex, poly: Seq<Vertex>, eps: Scalar) -> bool {
    poly.len() >= 3 && clipped_to(a, b, poly, eps, poly.len() as int) is Some
}

proof fn lemma_clipped_away(a: Vertex, b: Vertex, poly: Seq<Vertex>, eps: Scalar, i: int, k: int)
    requires
        0 < i <= k,
        clipped_to(a, b, poly, eps, i) is None,
    ensures
        clipped_to(a, b, poly, eps, k) is None,
    decreases k,
{
    if i < k {
        lemma_clipped_away(a, b, poly, eps, i, k - 1);
    }
}

fn clip_segment(
    a: &Vertex,
    b: &Vertex,
    poly: &Vec<Vertex>,
    eps: Scalar,
    part: (Scalar, Scalar),
    i: usize,
) -> (r: Option<(Scalar, Scalar)>)
    requires
        i < poly@.len(),
    ensures
        r == clip_at(*a, *b, poly@, eps, part, i as int),
{
    let n: usize = poly.len();
    let p: Vertex = poly[i];
    let q: Vertex = poly[go_on(i, n)];
    let ex: Scalar = q[0] - p[0];
    let ey: Scalar = q[1] - p[1];
    let f0: Scalar = ex * (a[1] - p[1]) - ey * (a[0] - p[0]);
    let f1: Scalar = ex * (b[1] - a[1]) - ey * (b[0] - a[0]);
    let mut lo: Scalar = part.0;
    let mut hi: Scalar = part.1;
    if f1.abs().lt(&ratio(1, 1_000_000_000_000_000)) {
        if f0.lt(&eps) {
            return None;
        }
    } else {
        let t: Scalar = (eps - f0) / f1;
        if number(0).lt(&f1) {
            lo = lo.max(&t);
        } else {
            hi = hi.min(&t);
        }
    }
    if (hi + ratio(1, 1_000_000_000_000)).lt(&lo) {
        return None;
    }
    Some((lo, hi))
}

pub fn seg_intersects_convex(a: &Vertex, b: &Vertex, poly: &Vec<Vertex>, eps: Scalar) -> (r: bool)
    ensures
        r == enters_convex(*a, *b, poly@, eps),
{
    let n: usize = poly.len();
    if n < 3 {
        return false;
    }
    let mut part: (Scalar, Scalar) = (number(0), number(1));
    let mut i: usize = 0;
    while i < n
        invariant
            n == poly@.len(),
            n >= 3,
            i <= n,
            clipped_to(*a, *b, poly@, eps, i as int) == Some(part),
        decreases n - i,
    {
        match clip_segment(a, b, poly, eps, part, i) {
            None => {
                proof {
                    lemma_clipped_away(*a, *b, poly@, eps, i + 1, n as int);
                }
                return false;
            },
            Some(left) => {
                part = left;
            },
        }
        i = i + 1;
    }
    true
}

/// Distance of a point from edge `i` of a polygon.
pub open spec fn edge_distance(p: Vertex, poly: Seq<Vertex>, i: int) -> Scalar {
    let (u, w) = (poly[i], poly[behind(i, poly.len() as int)]);
    let (ex, ey) = (w[0] - u[0], w[1] - u[1]);
    let len2 = ex * ex + ey * ey;
    let t = (((p[0] - u[0]) * ex + (p[1] - u[1]) * ey) / len2).clamped(whole(0), whole(1));
    let (qx, qy) = if len2 <= whole(0) {
        (u[0], u[1])
    } else {
        (u[0] + t * ex, u[1] + t * ey)
    };
    let (dx, dy) = (p[0] - qx, p[1] - qy);
    (dx * dx + dy * dy).root()
}

fn measure_edge(p: &Vertex, poly: &Vec<Vertex>, i: usize) -> (r: Scalar)
    requires
        i < poly@.len(),
    ensures
        r == edge_distance(*p, poly@, i as int),
{
    let n: usize = poly.len();
    let u: Vertex = poly[i];
    let w: Vertex = poly[go_on(i, n)];
    let ex: Scalar = w[0] - u[0];
    let ey: Scalar = w[1] - u[1];
    let len2: Scalar = ex * ex + ey * ey;
    let mut qx: Scalar = u[0];
    let mut qy: Scalar = u[1];
    if !len2.le(&number(0)) {
        let t: Scalar = (((p[0] - u[0]) * ex + (p[1] - u[1]) * ey) / len2).clamp(
            &number(0),
            &number(1),
        );
        qx = u[0] + t * ex;
        qy = u[1] + t * ey;
    }
    let dx: Scalar = p[0] - qx;
    let dy: Scalar = p[1] - qy;
    (dx * dx + dy * dy).sqrt()
}

/// The smallest distance of the ends of a segment from the first `k` edges of a
/// polygon; without end if there is none.
pub open spec fn ends_distance(a: Vertex, b: Vertex, poly: Seq<Vertex>, k: int) -> Scalar
    decreases k,
{
    if k <= 0 {
        infinity()
    } else {
        ends_distance(a, b, poly, k - 1).smaller(edge_distance(a, poly, k - 1)).smaller(
            edge_distance(b, poly, k - 1),
        )
    }
}

/// How close the ends of a segment come to the edge of a polygon, in degrees.
pub fn seg_poly_dist_deg(a: &Vertex, b: &Vertex, poly: &Vec<Vertex>) -> (r: Scalar)
    ensures
        poly@.len() < 3 ==> r == infinity(),
        poly@.len() >= 3 ==> r == ends_distance(*a, *b, poly@, poly@.len() as int),
{
    let n: usize = poly.len();
    let mut best: Scalar = Scalar { bits: INFINITY_BITS };
    if n < 3 {
        return best;
    }
    let mut i: usize = 0;
    while i < n
        invariant
            n == poly@.len(),
            i <= n,
            best == ends_distance(*a, *b, poly@, i as int),
        decreases n - i,
    {
        best = best.min(&measure_edge(a, poly, i)).min(&measure_edge(b, poly, i));
        i = i + 1;
    }
    best
}

} // verus!
