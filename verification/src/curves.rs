//! Corner cutting, splines and thinning.

use crate::numeric::{frac, number, ratio, whole};
use crate::oracle::{is_function, Calc};
use crate::path::{chord_distance_m, slice_points, Path, PathPoint};
use crate::scalar::Scalar;
use vstd::prelude::*;

verus! {

/// The point a fraction `t` along a segment, without a heading.
pub open spec fn between(a: PathPoint, b: PathPoint, t: Scalar) -> PathPoint {
    PathPoint {
        lon: a.lon + (b.lon - a.lon) * t,
        lat: a.lat + (b.lat - a.lat) * t,
        alt_m: a.alt_m + (b.alt_m - a.alt_m) * t,
        heading_deg: None,
    }
}

pub fn interpolate(a: &PathPoint, b: &PathPoint, t: Scalar) -> (r: PathPoint)
    ensures
        r == between(*a, *b, t),
{
    PathPoint {
        lon: a.lon + (b.lon - a.lon) * t,
        lat: a.lat + (b.lat - a.lat) * t,
        alt_m: a.alt_m + (b.alt_m - a.alt_m) * t,
        heading_deg: None,
    }
}

/// The first point of a route and the quarter points of its first `k` segments.
pub open spec fn quarter_points(pts: Seq<PathPoint>, k: int) -> Seq<PathPoint>
    decreases k,
{
    if k <= 0 {
        seq![pts[0]]
    } else {
        quarter_points(pts, k - 1).push(between(pts[k - 1], pts[k], frac(1, 4))).push(
            between(pts[k - 1], pts[k], frac(3, 4)),
        )
    }
}

/// A route with its corners cut once: the ends stay, and each segment is
/// replaced by its quarter points.
pub open spec fn corners_cut(pts: Seq<PathPoint>) -> Seq<PathPoint> {
    quarter_points(pts, pts.len() - 1).push(pts.last())
}

/// A route with its corners cut a number of times. Fewer than three points stay.
pub open spec fn chaikin_route(pts: Seq<PathPoint>, iterations: nat) -> Seq<PathPoint>
    decreases iterations,
{
    if iterations == 0 || pts.len() < 3 {
        pts
    } else {
        chaikin_route(corners_cut(pts), (iterations - 1) as nat)
    }
}

fn cut_corners(pts: &Vec<PathPoint>) -> (r: Vec<PathPoint>)
    requires
        pts@.len() >= 1,
    ensures
        r@ == corners_cut(pts@),
{
    let n: usize = pts.len();
    let mut out: Vec<PathPoint> = Vec::new();
    out.push(pts[0]);
    assert(out@ =~= quarter_points(pts@, 0));
    let mut k: usize = 1;
    while k < n
        invariant
            n == pts@.len(),
            1 <= k <= n,
            out@ == quarter_points(pts@, k - 1),
        decreases n - k,
    {
        let a: PathPoint = pts[k - 1];
        let b: PathPoint = pts[k];
        out.push(interpolate(&a, &b, ratio(1, 4)));
        out.push(interpolate(&a, &b, ratio(3, 4)));
        k = k + 1;
    }
    out.push(pts[n - 1]);
    out
}

/// Cuts the corners of a route a number of times; the ends stay.
pub fn chaikin_smooth(path: &Path, iterations: usize) -> (r: Path)
    ensures
        r@ == chaikin_route(path@, iterations as nat),
{
    let n: usize = path.points.len();
    let mut cur: Vec<PathPoint> = slice_points(&path.points, 0, n);
    assert(cur@ =~= path@);
    let mut k: usize = 0;
    while k < iterations
        invariant
            k <= iterations,
            chaikin_route(path@, iterations as nat) == chaikin_route(
                cur@,
                (iterations - k) as nat,
            ),
        decreases iterations - k,
    {
        if cur.len() < 3 {
            return Path::new(cur);
        }
        cur = cut_corners(&cur);
        k = k + 1;
    }
    Path::new(cur)
}

proof fn lemma_quarter_points(pts: Seq<PathPoint>, k: int)
    requires
        0 <= k,
    ensures
        quarter_points(pts, k).len() == 2 * k + 1,
        quarter_points(pts, k)[0] == pts[0],
    decreases k,
{
    if k > 0 {
        lemma_quarter_points(pts, k - 1);
    }
}

/// Cutting corners keeps both ends of a route and never shortens it.
pub proof fn law_chaikin_keeps_ends(pts: Seq<PathPoint>, iterations: nat)
    requires
        pts.len() > 0,
    ensures
        chaikin_route(pts, iterations).len() >= pts.len(),
        chaikin_route(pts, iterations)[0] == pts[0],
        chaikin_route(pts, iterations).last() == pts.last(),
    decreases iterations,
{
    if iterations > 0 && pts.len() >= 3 {
        lemma_quarter_points(pts, pts.len() - 1);
        law_chaikin_keeps_ends(corners_cut(pts), (iterations - 1) as nat);
    }
}

/// The cubic through `b` and `c` whose slopes come from `a` and `d`, at `t`.
pub open spec fn spline(a: Scalar, b: Scalar, c: Scalar, d: Scalar, t: Scalar) -> Scalar {
    let t2 = t * t;
    let t3 = t2 * t;
    frac(1, 2) * (whole(2) * b + (a.opposite() + c) * t + (whole(2) * a - whole(5) * b + whole(4)
        * c - d) * t2 + (a.opposite() + whole(3) * b - whole(3) * c + d) * t3)
}

fn make_spline(a: Scalar, b: Scalar, c: Scalar, d: Scalar, t: Scalar) -> (r: Scalar)
    ensures
        r == spline(a, b, c, d, t),
{
    let t2: Scalar = t * t;
    let t3: Scalar = t2 * t;
    ratio(1, 2) * (number(2) * b + (a.neg() + c) * t + (number(2) * a - number(5) * b + number(4)
        * c - d) * t2 + (a.neg() + number(3) * b - number(3) * c + d) * t3)
}

/// Sample `k` of `m` on segment `i`; the ends of the route count twice.
pub open spec fn spline_point(pts: Seq<PathPoint>, i: int, k: int, m: int) -> PathPoint {
    let p0 = if i == 0 {
        pts[0]
    } else {
        pts[i - 1]
    };
    let (p1, p2) = (pts[i], pts[i + 1]);
    let p3 = if i + 2 < pts.len() {
        pts[i + 2]
    } else {
        pts[i + 1]
    };
    let t = whole(k) / whole(m);
    PathPoint {
        lon: spline(p0.lon, p1.lon, p2.lon, p3.lon, t),
        lat: spline(p0.lat, p1.lat, p2.lat, p3.lat, t),
        alt_m: spline(p0.alt_m, p1.alt_m, p2.alt_m, p3.alt_m, t),
        heading_deg: None,
    }
}

/// The first point and the samples of the first `i` segments.
pub open spec fn spline_route(pts: Seq<PathPoint>, i: int, m: int) -> Seq<PathPoint>
    decreases i,
{
    if i <= 0 {
        seq![pts[0]]
    } else {
        spline_route(pts, i - 1, m) + Seq::new(
            m as nat,
            |k: int| spline_point(pts, i - 1, k + 1, m),
        )
    }
}

/// A Catmull-Rom spline through a route with `m` samples for each segment.
pub open spec fn catmull_route(pts: Seq<PathPoint>, m: int) -> Seq<PathPoint> {
    if pts.len() < 3 || m == 0 {
        pts
    } else {
        spline_route(pts, pts.len() - 1, m)
    }
}

fn make_spline_point(pts: &Vec<PathPoint>, i: usize, k: u64, m: u64) -> (r: PathPoint)
    requires
        i + 1 < pts@.len(),
    ensures
        r == spline_point(pts@, i as int, k as int, m as int),
{
    let n: usize = pts.len();
    let p0: PathPoint = if i == 0 { pts[0] } else { pts[i - 1] };
    let p1: PathPoint = pts[i];
    let p2: PathPoint = pts[i + 1];
    let p3: PathPoint = if i < n - 2 { pts[i + 2] } else { pts[i + 1] };
    let t: Scalar = number(k) / number(m);
    PathPoint {
        lon: make_spline(p0.lon, p1.lon, p2.lon, p3.lon, t),
        lat: make_spline(p0.lat, p1.lat, p2.lat, p3.lat, t),
        alt_m: make_spline(p0.alt_m, p1.alt_m, p2.alt_m, p3.alt_m, t),
        heading_deg: None,
    }
}

/// A Catmull-Rom spline through a route.
pub fn catmull_rom_spline(path: &Path, samples_per_seg: usize) -> (r: Path)
    ensures
        r@ == catmull_route(path@, samples_per_seg as int),
{
    let pts: &Vec<PathPoint> = &path.points;
    let n: usize = pts.len();
    if n < 3 || samples_per_seg == 0 {
        let same: Vec<PathPoint> = slice_points(pts, 0, n);
        assert(same@ =~= path@);
        return Path::new(same);
    }
    let m: u64 = samples_per_seg as u64;
    let mut out: Vec<PathPoint> = Vec::new();
    out.push(pts[0]);
    assert(out@ =~= spline_route(pts@, 0, m as int));
    let mut i: usize = 0;
    while i < n - 1
        invariant
            pts@ == path@,
            n == pts@.len(),
            n >= 3,
            i <= n - 1,
            out@ == spline_route(pts@, i as int, m as int),
        decreases n - 1 - i,
    {
        let mut k: u64 = 0;
        let ghost before = out@;
        while k < m
            invariant
                n == pts@.len(),
                n >= 3,
                i < n - 1,
                k <= m,
                before == spline_route(pts@, i as int, m as int),
                out@ == before + Seq::new(
                    k as nat,
                    |j: int| spline_point(pts@, i as int, j + 1, m as int),
                ),
            decreases m - k,
        {
            out.push(make_spline_point(pts, i, k + 1, m));
            k = k + 1;
            proof {
                assert(out@ =~= before + Seq::new(
                    k as nat,
                    |j: int| spline_point(pts@, i as int, j + 1, m as int),
                ));
            }
        }
        i = i + 1;
        assert(out@ == spline_route(pts@, i as int, m as int));
    }
    Path::new(out)
}

/// A spline starts at the first point of the route.
pub proof fn law_spline_keeps_first(pts: Seq<PathPoint>, m: int)
    requires
        pts.len() > 0,
        m >= 0,
    ensures
        catmull_route(pts, m).len() > 0,
        catmull_route(pts, m)[0] == pts[0],
{
    if pts.len() >= 3 && m > 0 {
        lemma_spline_first(pts, pts.len() - 1, m);
    }
}

proof fn lemma_spline_first(pts: Seq<PathPoint>, i: int, m: int)
    requires
        m > 0,
    ensures
        spline_route(pts, i, m).len() > 0,
        spline_route(pts, i, m)[0] == pts[0],
    decreases i,
{
    if i > 0 {
        lemma_spline_first(pts, i - 1, m);
    }
}

/// Whether point `k` lies too far from the chord between points `i` and `j`.
pub open spec fn off_chord<C: Fn(Calc) -> Scalar>(
    calc: C,
    pts: Seq<PathPoint>,
    k: int,
    i: int,
    j: int,
    tol_m: Scalar,
) -> bool {
    chord_distance_m(
        calc,
        pts[k].lon,
        pts[k].lat,
        pts[i].lon,
        pts[i].lat,
        pts[j].lon,
        pts[j].lat,
    ) > tol_m
}

/// Whether all points between `i` and `j` lie near the chord between them.
pub open spec fn chord_fits<C: Fn(Calc) -> Scalar>(
    calc: C,
    pts: Seq<PathPoint>,
    i: int,
    j: int,
    tol_m: Scalar,
) -> bool {
    forall|k: int| i < k < j ==> !(#[trigger] off_chord(calc, pts, k, i, j, tol_m))
}

/// The farthest point up to number `j` whose chord from point `i` fits; the
/// next point always does.
pub open spec fn farthest_fit<C: Fn(Calc) -> Scalar>(
    calc: C,
    pts: Seq<PathPoint>,
    i: int,
    j: int,
    tol_m: Scalar,
) -> int
    decreases j - i,
{
    if j <= i + 1 {
        i + 1
    } else if chord_fits(calc, pts, i, j, tol_m) {
        j
    } else {
        farthest_fit(calc, pts, i, j - 1, tol_m)
    }
}

/// The numbers of the points kept by thinning, from number `i` on.
pub open spec fn kept_from<C: Fn(Calc) -> Scalar>(
    calc: C,
    pts: Seq<PathPoint>,
    i: int,
    tol_m: Scalar,
) -> Seq<int>
    decreases pts.len() - i,
{
    if !(0 <= i < pts.len() - 1) {
        seq![i]
    } else {
        let j = farthest_fit(calc, pts, i, pts.len() - 1, tol_m);
        if i < j <= pts.len() {
            seq![i] + kept_from(calc, pts, j, tol_m)
        } else {
            seq![i]
        }
    }
}

proof fn lemma_farthest_fit<C: Fn(Calc) -> Scalar>(
    calc: C,
    pts: Seq<PathPoint>,
    i: int,
    j: int,
    tol_m: Scalar,
)
    requires
        0 <= i < j < pts.len(),
    ensures
        i < farthest_fit(calc, pts, i, j, tol_m) <= j,
        chord_fits(calc, pts, i, farthest_fit(calc, pts, i, j, tol_m), tol_m),
    decreases j - i,
{
    if j > i + 1 && !chord_fits(calc, pts, i, j, tol_m) {
        lemma_farthest_fit(calc, pts, i, j - 1, tol_m);
    }
}

/// The thinned route. Fewer than three points stay as they are.
pub open spec fn thinned<C: Fn(Calc) -> Scalar>(calc: C, pts: Seq<PathPoint>, tol_m: Scalar) -> Seq<
    PathPoint,
> {
    if pts.len() < 3 {
        pts
    } else {
        kept_from(calc, pts, 0, tol_m).map_values(|k: int| pts[k])
    }
}

fn fits_chord<C: Fn(Calc) -> Scalar>(path: &Path, i: usize, j: usize, tol_m: Scalar, calc: &C) -> (r:
    bool)
    requires
        is_function(*calc),
        i < j < path@.len(),
    ensures
        r == chord_fits(*calc, path@, i as int, j as int, tol_m),
{
    let mut k: usize = i + 1;
    while k < j
        invariant
            is_function(*calc),
            i < k <= j < path@.len(),
            forall|m: int|
                i < m < k ==> !(#[trigger] off_chord(
                    *calc,
                    path@,
                    m,
                    i as int,
                    j as int,
                    tol_m,
                )),
        decreases j - k,
    {
        if let Some(e) = path.chord_error_m(k, i, j, calc) {
            if tol_m.lt(&e) {
                assert(off_chord(*calc, path@, k as int, i as int, j as int, tol_m));
                return false;
            }
        }
        k = k + 1;
    }
    true
}

/// Thins a route: from each point it keeps the farthest one to which all points
/// in between lie within the tolerance of the chord.
pub fn greedy_simplify<C: Fn(Calc) -> Scalar>(path: &Path, chord_tol_m: Scalar, calc: &C) -> (r: Path)
    requires
        is_function(*calc),
    ensures
        r@ == thinned(*calc, path@, chord_tol_m),
{
    let n: usize = path.points.len();
    if n < 3 {
        let same: Vec<PathPoint> = slice_points(&path.points, 0, n);
        assert(same@ =~= path@);
        return Path::new(same);
    }
    let mut out: Vec<PathPoint> = Vec::new();
    let ghost pick = |k: int| path@[k];
    out.push(path.points[0]);
    let mut i: usize = 0;
    proof {
        assert(out@.drop_last() + kept_from(*calc, path@, 0, chord_tol_m).map_values(pick)
            =~= kept_from(*calc, path@, 0, chord_tol_m).map_values(pick));
    }
    while i < n - 1
        invariant
            is_function(*calc),
            n == path@.len(),
            n >= 3,
            i <= n - 1,
            pick == |k: int| path@[k],
            out@.len() > 0,
            out@.last() == path@[i as int],
            out@.drop_last() + kept_from(*calc, path@, i as int, chord_tol_m).map_values(pick)
                == kept_from(*calc, path@, 0, chord_tol_m).map_values(pick),
        decreases n - 1 - i,
    {
        let mut j: usize = n - 1;
        while j > i + 1 && !fits_chord(path, i, j, chord_tol_m, calc)
            invariant
                is_function(*calc),
                n == path@.len(),
                i < j <= n - 1,
                farthest_fit(*calc, path@, i as int, n - 1, chord_tol_m) == farthest_fit(
                    *calc,
                    path@,
                    i as int,
                    j as int,
                    chord_tol_m,
                ),
            decreases j,
        {
            j = j - 1;
        }
        let ghost before = out@;
        out.push(path.points[j]);
        proof {
            let rest = kept_from(*calc, path@, j as int, chord_tol_m);
            let all = kept_from(*calc, path@, i as int, chord_tol_m);
            assert(all == seq![i as int] + rest);
            assert(out@.drop_last() + rest.map_values(pick) =~= before.drop_last() + all.map_values(
                pick,
            ));
        }
        i = j;
    }
    proof {
        let end = kept_from(*calc, path@, i as int, chord_tol_m);
        assert(end == seq![i as int]);
        assert(out@ =~= out@.drop_last() + end.map_values(pick));
    }
    Path::new(out)
}

spec fn well_kept<C: Fn(Calc) -> Scalar>(
    calc: C,
    pts: Seq<PathPoint>,
    kept: Seq<int>,
    tol_m: Scalar,
) -> bool {
    &&& kept.len() > 0
    &&& forall|a: int| 0 <= a < kept.len() ==> 0 <= #[trigger] kept[a] < pts.len()
    &&& forall|a: int, b: int|
        0 <= a && b == a + 1 && b < kept.len() ==> #[trigger] kept[a] < #[trigger] kept[b]
            && chord_fits(calc, pts, kept[a], kept[b], tol_m)
}

proof fn lemma_kept<C: Fn(Calc) -> Scalar>(calc: C, pts: Seq<PathPoint>, i: int, tol_m: Scalar)
    requires
        0 <= i < pts.len(),
    ensures
        well_kept(calc, pts, kept_from(calc, pts, i, tol_m), tol_m),
        kept_from(calc, pts, i, tol_m)[0] == i,
        kept_from(calc, pts, i, tol_m).last() == pts.len() - 1,
    decreases pts.len() - i,
{
    if i < pts.len() - 1 {
        lemma_farthest_fit(calc, pts, i, pts.len() - 1, tol_m);
        let j = farthest_fit(calc, pts, i, pts.len() - 1, tol_m);
        lemma_kept(calc, pts, j, tol_m);
        let rest = kept_from(calc, pts, j, tol_m);
        let all = kept_from(calc, pts, i, tol_m);
        assert(all == seq![i] + rest);
        assert forall|a: int, b: int|
            0 <= a && b == a + 1 && b < all.len() implies #[trigger] all[a] < #[trigger] all[b]
            && chord_fits(calc, pts, all[a], all[b], tol_m) by {
            if a == 0 {
                assert(all[b] == rest[0]);
            } else {
                assert(all[a] == rest[a - 1] && all[b] == rest[b - 1]);
            }
        }
        assert forall|a: int| 0 <= a < all.len() implies 0 <= #[trigger] all[a] < pts.len() by {
            if a > 0 {
                assert(all[a] == rest[a - 1]);
            }
        }
        assert(all.last() == rest.last());
    } else {
        assert(kept_from(calc, pts, i, tol_m) == seq![i]);
    }
}

/// Thinning keeps both ends, keeps points in order, and leaves out only points
/// that lie within the tolerance of the chord that replaces them.
pub proof fn law_thinning_within_tolerance<C: Fn(Calc) -> Scalar>(
    calc: C,
    pts: Seq<PathPoint>,
    tol_m: Scalar,
    a: int,
)
    requires
        pts.len() >= 3,
    ensures
        ({
            let kept = kept_from(calc, pts, 0, tol_m);
            &&& kept[0] == 0 && kept.last() == pts.len() - 1
            &&& thinned(calc, pts, tol_m).len() == kept.len()
            &&& 0 <= a < kept.len() - 1 ==> kept[a] < kept[a + 1] && chord_fits(
                calc,
                pts,
                kept[a],
                kept[a + 1],
                tol_m,
            )
            &&& 0 <= a < kept.len() ==> thinned(calc, pts, tol_m)[a] == pts[kept[a]]
        }),
{
    lemma_kept(calc, pts, 0, tol_m);
    let kept = kept_from(calc, pts, 0, tol_m);
    if 0 <= a < kept.len() - 1 {
        assert(kept[a] < kept[a + 1]);
    }
}

} // verus!
