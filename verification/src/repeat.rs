//! Planning round an obstacle gives the same result every time.

use crate::convex::{
    can_widen, comes_before, hull_of, in_order, moved_corner, same_points, same_spot,
};
use crate::geometry::Vertex;
use crate::oracle::Calc;
use crate::patch::{
    found_way, is_hull, is_widened, seen_at, Frontier, PatchOutcome, Sights, MAX_VIS_VERTICES,
};
use crate::scalar::Scalar;
use vstd::prelude::*;

verus! {

proof fn lemma_same_spot(a: Vertex, b: Vertex)
    requires
        same_spot(a, b),
    ensures
        a == b,
{
    assert forall|i: int| 0 <= i < 2 implies a[i] == b[i] by {
        assert(i == 0 || i == 1);
    }
    assert(a =~= b);
}

/// Whether every point of one list is in another one.
#[verifier::opaque]
spec fn listed(s: Seq<Vertex>, t: Seq<Vertex>) -> bool {
    forall|i: int| 0 <= i < s.len() ==> t.contains(#[trigger] s[i])
}

proof fn lemma_given(s: Seq<Vertex>, points: Seq<Vertex>)
    requires
        same_points(s, points),
    ensures
        listed(s, points),
{
    reveal(listed);
}

proof fn lemma_kept(t: Seq<Vertex>, points: Seq<Vertex>)
    requires
        same_points(t, points),
    ensures
        listed(points, t),
{
    reveal(listed);
    assert forall|i: int| 0 <= i < points.len() implies t.contains(#[trigger] points[i]) by {
        let k = choose|k: int| 0 <= k < t.len() && same_spot(t[k], points[i]);
        assert(same_spot(t[k], points[i]));
        lemma_same_spot(t[k], points[i]);
    }
}

proof fn lemma_listed_on(s: Seq<Vertex>, points: Seq<Vertex>, t: Seq<Vertex>)
    requires
        listed(s, points),
        listed(points, t),
    ensures
        listed(s, t),
{
    reveal(listed);
    assert forall|i: int| 0 <= i < s.len() implies t.contains(#[trigger] s[i]) by {
        assert(points.contains(s[i]));
        let j = choose|j: int| 0 <= j < points.len() && points[j] == s[i];
        assert(t.contains(points[j]));
    }
}

proof fn lemma_find(s: Seq<Vertex>, t: Seq<Vertex>, i: int) -> (k: int)
    requires
        listed(s, t),
        0 <= i < s.len(),
    ensures
        0 <= k < t.len(),
        t[k] == s[i],
{
    reveal(listed);
    assert(t.contains(s[i]));
    choose|k: int| 0 <= k < t.len() && t[k] == s[i]
}

/// Two ordered lists of the same points agree at a place if they agree before it.
proof fn lemma_same_next(s: Seq<Vertex>, t: Seq<Vertex>, n: int)
    requires
        in_order(s) && in_order(t),
        listed(s, t) && listed(t, s),
        0 <= n < s.len(),
        n <= t.len(),
        forall|i: int| 0 <= i < n ==> #[trigger] s[i] == t[i],
    ensures
        n < t.len(),
        s[n] == t[n],
{
    let k = lemma_find(s, t, n);
    if k < n {
        assert(s[k] == t[k]);
        assert(comes_before(s[k], s[n]));
    }
    assert(n <= k);
    if n < k {
        let m = lemma_find(t, s, n);
        assert(comes_before(t[n], t[k]));
        if m < n {
            assert(s[m] == t[m]);
            assert(comes_before(t[m], t[n]));
        } else if m > n {
            assert(comes_before(s[n], s[m]));
        }
    }
}

proof fn lemma_same_first(s: Seq<Vertex>, t: Seq<Vertex>, n: int)
    requires
        in_order(s) && in_order(t),
        listed(s, t) && listed(t, s),
        0 <= n <= s.len(),
    ensures
        n <= t.len(),
        forall|i: int| 0 <= i < n ==> #[trigger] s[i] == t[i],
    decreases n,
{
    if n > 0 {
        lemma_same_first(s, t, n - 1);
        lemma_same_next(s, t, n - 1);
    }
}

proof fn lemma_same_lists(s: Seq<Vertex>, t: Seq<Vertex>)
    requires
        in_order(s) && in_order(t),
        listed(s, t) && listed(t, s),
    ensures
        s == t,
{
    lemma_same_first(s, t, s.len() as int);
    lemma_same_first(t, s, t.len() as int);
    assert(s =~= t);
}

/// Points can be put in order in one way only.
pub proof fn law_order_is_unique(s: Seq<Vertex>, t: Seq<Vertex>, points: Seq<Vertex>)
    requires
        in_order(s) && in_order(t),
        same_points(s, points),
        same_points(t, points),
    ensures
        s == t,
{
    lemma_given(s, points);
    lemma_kept(t, points);
    lemma_listed_on(s, points, t);
    lemma_given(t, points);
    lemma_kept(s, points);
    lemma_listed_on(t, points, s);
    lemma_same_lists(s, t);
}

/// Points have one hull.
pub proof fn law_hull_is_unique(points: Seq<Vertex>, a: Seq<Vertex>, b: Seq<Vertex>)
    requires
        is_hull(points, a),
        is_hull(points, b),
    ensures
        a == b,
{
    if points.len() > 2 {
        let s = choose|s: Seq<Vertex>| #[trigger]
            in_order(s) && same_points(s, points) && a == hull_of(s);
        let t = choose|t: Seq<Vertex>| #[trigger]
            in_order(t) && same_points(t, points) && b == hull_of(t);
        law_order_is_unique(s, t, points);
    }
}

/// Whether two searches have the same places and the same obstacle.
spec fn alike(g: Sights, h: Sights) -> bool {
    g.nodes@ == h.nodes@ && g.obstacle@ == h.obstacle@
}

proof fn lemma_looked_alike<C: Fn(Calc) -> Scalar>(
    calc: C,
    g: Sights,
    h: Sights,
    f: Frontier,
    id: int,
    k: int,
)
    requires
        alike(g, h),
    ensures
        f.looked(calc, g, id, k) == f.looked(calc, h, id, k),
    decreases k,
{
    if k > 0 {
        lemma_looked_alike(calc, g, h, f, id, k - 1);
        assert(seen_at(calc, g, id, k - 1) == seen_at(calc, h, id, k - 1));
    }
}

proof fn lemma_finished_alike<C: Fn(Calc) -> Scalar>(
    calc: C,
    g: Sights,
    h: Sights,
    f: Frontier,
    left: nat,
)
    requires
        alike(g, h),
    ensures
        f.finished(calc, g, left) == f.finished(calc, h, left),
    decreases left,
{
    let n = f.dist.len() as int;
    let id = f.closest(n);
    if left > 0 && id is Some && id->0 != 1 {
        lemma_looked_alike(calc, g, h, f.closing(id->0), id->0, n);
        lemma_finished_alike(
            calc,
            g,
            h,
            f.closing(id->0).looked(calc, g, id->0, n),
            (left - 1) as nat,
        );
    }
}

/// Whether two outcomes tell the same.
pub open spec fn same_outcome(a: PatchOutcome, b: PatchOutcome) -> bool {
    match a {
        PatchOutcome::Path(p, km) => b is Path && b->Path_0@ == p@ && b->Path_1 == km,
        PatchOutcome::SearchTruncated => b is SearchTruncated,
        PatchOutcome::GeometricImpossible => b is GeometricImpossible,
    }
}

proof fn lemma_same_way<C: Fn(Calc) -> Scalar>(
    calc: C,
    g: Sights,
    h: Sights,
    a: PatchOutcome,
    b: PatchOutcome,
)
    requires
        alike(g, h),
        a.goes(calc, g),
        b.goes(calc, h),
    ensures
        same_outcome(a, b),
{
    reveal(PatchOutcome::goes);
    let n = g.nodes@.len();
    lemma_finished_alike(calc, g, h, Frontier::begin(n), n);
    assert(found_way(calc, g) == found_way(calc, h));
}

proof fn lemma_same_widened(hull: Seq<Vertex>, dist: Scalar, a: Seq<Vertex>, b: Seq<Vertex>)
    requires
        is_widened(hull, dist, a),
        is_widened(hull, dist, b),
    ensures
        a == b,
{
    assert forall|i: int| 0 <= i < a.len() implies a[i] == b[i] by {
        assert((a[i][0], a[i][1]) == moved_corner(hull, dist, i));
        assert((b[i][0], b[i][1]) == moved_corner(hull, dist, i));
        lemma_same_spot(a[i], b[i]);
    }
    assert(a =~= b);
}

/// Planning twice round the same obstacle gives the same outcome twice, bit for bit.
pub proof fn law_patch_is_repeatable<C: Fn(Calc) -> Scalar>(
    calc: C,
    start: Vertex,
    target: Vertex,
    points: Seq<Vertex>,
    dist: Scalar,
    first: Seq<Vertex>,
    a: PatchOutcome,
    second: Seq<Vertex>,
    b: PatchOutcome,
)
    requires
        is_hull(points, first) && a.rounds(calc, start, target, first, dist),
        is_hull(points, second) && b.rounds(calc, start, target, second, dist),
    ensures
        same_outcome(a, b),
{
    law_hull_is_unique(points, first, second);
    let hull = first;
    if hull.len() >= 3 && can_widen(hull, dist) && hull.len() + 2
        <= MAX_VIS_VERTICES {
        let g = choose|g: Sights| #[trigger]
            a.goes(calc, g) && is_widened(hull, dist, g.obstacle@) && g.nodes@ == seq![
                start,
                target,
            ] + g.obstacle@;
        let h = choose|h: Sights| #[trigger]
            b.goes(calc, h) && is_widened(hull, dist, h.obstacle@) && h.nodes@ == seq![
                start,
                target,
            ] + h.obstacle@;
        lemma_same_widened(hull, dist, g.obstacle@, h.obstacle@);
        lemma_same_way(calc, g, h, a, b);
    }
}

} // verus!
