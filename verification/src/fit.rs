//! Fitting a flyable curve to a route.

use crate::dubins::{dubins_path, shortest_path, DubinsPath, Spot, QUARTER_BITS};
use crate::geometry::{hypotenuse, radians, to_radians};
use crate::numeric::{number, whole};
use crate::options::LocalProjection;
use crate::oracle::{is_function, Calc};
use crate::path::{bearing, Path, PathPoint, EPSILON_BITS};
use crate::passage::infinity;
use crate::scalar::{Scalar, INFINITY_BITS};
use vstd::prelude::*;

verus! {

/// How far a place is from a leg in metres, and the height of the leg there,
/// seen in the plane round the place.
pub open spec fn seen_leg(proj: LocalProjection, u: PathPoint, v: PathPoint) -> (Scalar, Scalar) {
    let (a, b) = (proj.plane(u.lon, u.lat), proj.plane(v.lon, v.lat));
    let (vx, vy) = (b.0 - a.0, b.1 - a.1);
    let len2 = vx * vx + vy * vy;
    let t = if len2 <= (Scalar { bits: EPSILON_BITS }) {
        whole(0)
    } else {
        (((whole(0) - a.0) * vx + (whole(0) - a.1) * vy) / len2).clamped(whole(0), whole(1))
    };
    let (cx, cy) = (a.0 + vx * t, a.1 + vy * t);
    (hypotenuse(whole(0) - cx, whole(0) - cy), u.alt_m + (v.alt_m - u.alt_m) * t)
}

/// The distance to the nearest of the first `k` legs, and the height there.
pub open spec fn nearest_leg(proj: LocalProjection, pts: Seq<PathPoint>, k: int) -> (Scalar, Scalar)
    decreases k,
{
    if k <= 0 {
        (infinity(), pts[0].alt_m)
    } else {
        let best = nearest_leg(proj, pts, k - 1);
        let leg = seen_leg(proj, pts[k - 1], pts[k]);
        if leg.0 < best.0 {
            leg
        } else {
            best
        }
    }
}

/// The height of a route at the place nearest to the given one.
pub open spec fn height_near<C: Fn(Calc) -> Scalar>(
    calc: C,
    pts: Seq<PathPoint>,
    lon: Scalar,
    lat: Scalar,
) -> Scalar {
    if pts.len() == 0 {
        whole(0)
    } else {
        nearest_leg(LocalProjection::round(calc, lon, lat), pts, pts.len() - 1).1
    }
}

fn see_leg(proj: &LocalProjection, u: &PathPoint, v: &PathPoint) -> (r: (Scalar, Scalar))
    ensures
        r == seen_leg(*proj, *u, *v),
{
    let a: (Scalar, Scalar) = proj.to_xy(u.lon, u.lat);
    let b: (Scalar, Scalar) = proj.to_xy(v.lon, v.lat);
    let vx: Scalar = b.0 - a.0;
    let vy: Scalar = b.1 - a.1;
    let len2: Scalar = vx * vx + vy * vy;
    let t: Scalar = if len2.le(&Scalar { bits: EPSILON_BITS }) {
        number(0)
    } else {
        (((number(0) - a.0) * vx + (number(0) - a.1) * vy) / len2).clamp(&number(0), &number(1))
    };
    let dx: Scalar = number(0) - (a.0 + vx * t);
    let dy: Scalar = number(0) - (a.1 + vy * t);
    ((dx * dx + dy * dy).sqrt(), u.alt_m + (v.alt_m - u.alt_m) * t)
}

/// The height of a route at the place nearest to the given one; zero for a
/// route without points.
pub fn height_on_polyline<C: Fn(Calc) -> Scalar>(path: &Path, lon: Scalar, lat: Scalar, calc: &C) -> (r:
    Scalar)
    requires
        is_function(*calc),
    ensures
        r == height_near(*calc, path@, lon, lat),
{
    let n: usize = path.points.len();
    if n == 0 {
        return number(0);
    }
    let proj: LocalProjection = LocalProjection::new(lon, lat, calc);
    let mut best: (Scalar, Scalar) = (Scalar { bits: INFINITY_BITS }, path.points[0].alt_m);
    let mut k: usize = 0;
    while k < n - 1
        invariant
            n == path@.len(),
            n >= 1,
            k <= n - 1,
            best == nearest_leg(proj, path@, k as int),
        decreases n - k,
    {
        let leg: (Scalar, Scalar) = see_leg(&proj, &path.points[k], &path.points[k + 1]);
        if leg.0.lt(&best.0) {
            best = leg;
        }
        k = k + 1;
    }
    best.1
}

/// The heading of a route at its start: the one set there, else that of its
/// first leg.
pub open spec fn heading_out<C: Fn(Calc) -> Scalar>(calc: C, pts: Seq<PathPoint>) -> Scalar {
    match pts[0].heading_deg {
        Some(h) => h,
        None => bearing(calc, pts[0].lon, pts[0].lat, pts[1].lon, pts[1].lat),
    }
}

/// The heading of a route at its end: the one set there, else that of its last
/// leg.
pub open spec fn heading_in<C: Fn(Calc) -> Scalar>(calc: C, pts: Seq<PathPoint>) -> Scalar {
    let (u, v) = (pts[pts.len() - 2], pts.last());
    match v.heading_deg {
        Some(h) => h,
        None => bearing(calc, u.lon, u.lat, v.lon, v.lat),
    }
}

/// A heading, clockwise from the north, as an angle of the plane, anticlockwise from the
/// east.
pub open spec fn plane_angle(heading_deg: Scalar) -> Scalar {
    Scalar { bits: QUARTER_BITS } - radians(heading_deg)
}

fn to_plane_angle(heading_deg: Scalar) -> (r: Scalar)
    ensures
        r == plane_angle(heading_deg),
{
    Scalar { bits: QUARTER_BITS } - to_radians(heading_deg)
}

/// The plane of a fit: round the middle of the ends of the route.
pub open spec fn fit_plane<C: Fn(Calc) -> Scalar>(calc: C, pts: Seq<PathPoint>) -> LocalProjection {
    let (u, v) = (pts[0], pts.last());
    LocalProjection::round(calc, (u.lon + v.lon) / whole(2), (u.lat + v.lat) / whole(2))
}

/// The curve in the plane that joins the ends of a route.
pub open spec fn fit_curve<C: Fn(Calc) -> Scalar>(calc: C, pts: Seq<PathPoint>, r_m: Scalar) -> Option<
    DubinsPath,
> {
    let (u, v) = (pts[0], pts.last());
    let proj = fit_plane(calc, pts);
    shortest_path(
        calc,
        proj.plane(u.lon, u.lat),
        plane_angle(heading_out(calc, pts)),
        proj.plane(v.lon, v.lat),
        plane_angle(heading_in(calc, pts)),
        r_m,
    )
}

/// Whether a curve of arcs and one line joins the ends of a route: the ends and
/// the radius are finite, the radius is positive, and no third arc is needed.
pub open spec fn can_fit<C: Fn(Calc) -> Scalar>(calc: C, pts: Seq<PathPoint>, r_m: Scalar) -> bool {
    &&& pts.len() >= 2
    &&& pts[0].lon.finite() && pts[0].lat.finite() && pts[0].alt_m.finite()
    &&& pts.last().lon.finite() && pts.last().lat.finite() && pts.last().alt_m.finite()
    &&& r_m.finite() && !(r_m <= whole(0))
    &&& fit_curve(calc, pts, r_m) is Some
    &&& fit_curve(calc, pts, r_m)->0.ccc is None
}

/// A point of the plane brought back to the ground, at the height of the route
/// near it.
pub open spec fn lifted<C: Fn(Calc) -> Scalar>(
    calc: C,
    pts: Seq<PathPoint>,
    proj: LocalProjection,
    s: Spot,
) -> PathPoint {
    let (lon, lat) = proj.ground(s.0, s.1);
    PathPoint { lon, lat, alt_m: height_near(calc, pts, lon, lat), heading_deg: None }
}

/// The points of the fitted curve.
pub open spec fn fitted<C: Fn(Calc) -> Scalar>(
    calc: C,
    pts: Seq<PathPoint>,
    r_m: Scalar,
    sample_n: int,
) -> Seq<PathPoint> {
    let spots = fit_curve(calc, pts, r_m)->0.samples(
        calc,
        if sample_n < 4 {
            4
        } else {
            sample_n
        },
    );
    Seq::new(spots.len(), |k: int| lifted(calc, pts, fit_plane(calc, pts), spots[k]))
}

fn lift_all<C: Fn(Calc) -> Scalar>(path: &Path, proj: &LocalProjection, spots: &Vec<Spot>, calc: &C) -> (r:
    Vec<PathPoint>)
    requires
        is_function(*calc),
    ensures
        r@ == Seq::new(spots@.len(), |k: int| lifted(*calc, path@, *proj, spots@[k])),
{
    let mut out: Vec<PathPoint> = Vec::new();
    let mut k: usize = 0;
    while k < spots.len()
        invariant
            is_function(*calc),
            k <= spots@.len(),
            out@.len() == k,
            forall|j: int|
                0 <= j < k ==> #[trigger] out@[j] == lifted(*calc, path@, *proj, spots@[j]),
        decreases spots.len() - k,
    {
        let s: Spot = spots[k];
        let (lon, lat) = proj.to_lonlat(s.0, s.1);
        let alt_m: Scalar = height_on_polyline(path, lon, lat, calc);
        out.push(PathPoint::new(lon, lat, alt_m));
        k = k + 1;
    }
    assert(out@ =~= Seq::new(spots@.len(), |j: int| lifted(*calc, path@, *proj, spots@[j])));
    out
}

/// Replaces a route by a curve of two arcs and a line between its ends, with the
/// headings it has there and the heights it has nearby. None where the ends are
/// too close for that.
pub fn dubins_fit<C: Fn(Calc) -> Scalar>(path: &Path, r_m: Scalar, sample_n: usize, calc: &C) -> (r:
    Option<Path>)
    requires
        is_function(*calc),
        sample_n < usize::MAX,
    ensures
        r is Some <==> can_fit(*calc, path@, r_m),
        r is Some ==> r->0@ == fitted(*calc, path@, r_m, sample_n as int),
{
    let n: usize = path.points.len();
    if n < 2 {
        return None;
    }
    let first: PathPoint = path.points[0];
    let last: PathPoint = path.points[n - 1];
    if !first.is_finite() || !last.is_finite() || !r_m.is_finite() || r_m.le(&number(0)) {
        return None;
    }
    let th0: Scalar = match first.heading_deg {
        Some(h) => h,
        None => match path.segment_heading_deg(0, calc) {
            Some(h) => h,
            None => return None,
        },
    };
    let th1: Scalar = match last.heading_deg {
        Some(h) => h,
        None => match path.segment_heading_deg(n - 2, calc) {
            Some(h) => h,
            None => return None,
        },
    };
    let proj: LocalProjection = LocalProjection::new(
        (first.lon + last.lon) / number(2),
        (first.lat + last.lat) / number(2),
        calc,
    );
    let curve: DubinsPath = match dubins_path(
        proj.to_xy(first.lon, first.lat),
        to_plane_angle(th0),
        proj.to_xy(last.lon, last.lat),
        to_plane_angle(th1),
        r_m,
        calc,
    ) {
        Some(c) => c,
        None => return None,
    };
    if curve.ccc.is_some() {
        return None;
    }
    let spots: Vec<Spot> = curve.sample(
        if sample_n < 4 {
            4
        } else {
            sample_n
        },
        calc,
    );
    Some(Path::new(lift_all(path, &proj, &spots, calc)))
}

} // verus!
