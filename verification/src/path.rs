//! Routes as polylines of points.

use crate::geometry::{radians, to_degrees, to_radians};
use crate::numeric::{frac, number, ratio, whole};
use crate::oracle::{ask, image, is_function, Calc};
use crate::scalar::Scalar;
use vstd::prelude::*;

verus! {

/// A route point: longitude and latitude in degrees, height above mean sea
/// level in metres, and the heading in degrees from true north where one is set.
#[derive(Clone, Copy, Debug, PartialEq, Eq, Structural)]
pub struct PathPoint {
    pub lon: Scalar,
    pub lat: Scalar,
    pub alt_m: Scalar,
    pub heading_deg: Option<Scalar>,
}

impl PathPoint {
    pub fn new(lon: Scalar, lat: Scalar, alt_m: Scalar) -> (r: PathPoint)
        ensures
            r == (PathPoint { lon, lat, alt_m, heading_deg: None }),
    {
        PathPoint { lon, lat, alt_m, heading_deg: None }
    }

    /// The same point with a heading set.
    pub fn with_heading(self, heading_deg: Scalar) -> (r: PathPoint)
        ensures
            r == (PathPoint { heading_deg: Some(heading_deg), ..self }),
    {
        PathPoint { lon: self.lon, lat: self.lat, alt_m: self.alt_m, heading_deg: Some(heading_deg) }
    }

    /// Whether position and height are finite; the heading is not looked at.
    pub fn is_finite(&self) -> (r: bool)
        ensures
            r == (self.lon.finite() && self.lat.finite() && self.alt_m.finite()),
    {
        self.lon.is_finite() && self.lat.is_finite() && self.alt_m.is_finite()
    }

    /// Whether two points lie above the same ground position, bit for bit.
    pub open spec fn above(self, other: PathPoint) -> bool {
        self.lon == other.lon && self.lat == other.lat
    }
}

/// A polyline.
#[derive(Clone, Debug)]
pub struct Path {
    pub points: Vec<PathPoint>,
}

impl View for Path {
    type V = Seq<PathPoint>;

    open spec fn view(&self) -> Seq<PathPoint> {
        self.points@
    }
}

impl Path {
    pub fn new(points: Vec<PathPoint>) -> (r: Path)
        ensures
            r@ == points@,
    {
        Path { points }
    }

    pub fn is_empty(&self) -> (r: bool)
        ensures
            r == (self@.len() == 0),
    {
        self.points.len() == 0
    }

    pub fn len(&self) -> (r: usize)
        ensures
            r == self@.len(),
    {
        self.points.len()
    }

    pub fn first(&self) -> (r: Option<&PathPoint>)
        ensures
            self@.len() == 0 ==> r is None,
            self@.len() > 0 ==> r == Some(&self@[0]),
    {
        if self.points.len() == 0 {
            None
        } else {
            Some(&self.points[0])
        }
    }

    pub fn last(&self) -> (r: Option<&PathPoint>)
        ensures
            self@.len() == 0 ==> r is None,
            self@.len() > 0 ==> r == Some(&self@.last()),
    {
        let n: usize = self.points.len();
        if n == 0 {
            None
        } else {
            Some(&self.points[n - 1])
        }
    }

    /// The two ends of segment `i`, where the route has one.
    pub fn segment(&self, i: usize) -> (r: Option<(PathPoint, PathPoint)>)
        ensures
            r == (if i + 1 < self@.len() {
                Some((self@[i as int], self@[i + 1]))
            } else {
                None
            }),
    {
        let n: usize = self.points.len();
        if n >= 1 && i < n - 1 {
            Some((self.points[i], self.points[i + 1]))
        } else {
            None
        }
    }

    /// The two ends of the last segment; none on fewer than two points.
    pub fn last_segment(&self) -> (r: Option<(PathPoint, PathPoint)>)
        ensures
            r == (if self@.len() < 2 {
                None
            } else {
                Some((self@[self@.len() - 2], self@.last()))
            }),
    {
        let n: usize = self.points.len();
        if n < 2 {
            None
        } else {
            self.segment(n - 2)
        }
    }
}

/// The points `from..to` of a route.
pub fn slice_points(points: &Vec<PathPoint>, from: usize, to: usize) -> (r: Vec<PathPoint>)
    requires
        from <= to <= points@.len(),
    ensures
        r@ == points@.subrange(from as int, to as int),
{
    let mut out: Vec<PathPoint> = Vec::new();
    let mut i: usize = from;
    while i < to
        invariant
            from <= i <= to <= points@.len(),
            out@ == points@.subrange(from as int, i as int),
        decreases to - i,
    {
        out.push(points[i]);
        i = i + 1;
        proof {
            assert(points@.subrange(from as int, i as int) =~= points@.subrange(
                from as int,
                i - 1,
            ).push(points@[i - 1]));
        }
    }
    out
}

/// Half the angle between two bearings, squared sine of it: the haversine sum.
pub open spec fn haversine_term<C: Fn(Calc) -> Scalar>(
    calc: C,
    lon1: Scalar,
    lat1: Scalar,
    lon2: Scalar,
    lat2: Scalar,
) -> Scalar {
    let s_lat = image(calc, Calc::Sin(radians(lat2 - lat1) / whole(2)));
    let s_lon = image(calc, Calc::Sin(radians(lon2 - lon1) / whole(2)));
    let c1 = image(calc, Calc::Cos(radians(lat1)));
    let c2 = image(calc, Calc::Cos(radians(lat2)));
    s_lat * s_lat + c1 * c2 * (s_lon * s_lon)
}

/// Distance of two places on a sphere of 6371 km, in metres.
pub open spec fn sphere_distance_m<C: Fn(Calc) -> Scalar>(
    calc: C,
    lon1: Scalar,
    lat1: Scalar,
    lon2: Scalar,
    lat2: Scalar,
) -> Scalar {
    let a = haversine_term(calc, lon1, lat1, lon2, lat2);
    whole(6_371_000) * whole(2) * image(calc, Calc::Asin(a.root().smaller(whole(1))))
}

/// Distance of two places on a sphere, in metres.
pub fn haversine_m<C: Fn(Calc) -> Scalar>(
    lon1: Scalar,
    lat1: Scalar,
    lon2: Scalar,
    lat2: Scalar,
    calc: &C,
) -> (r: Scalar)
    requires
        is_function(*calc),
    ensures
        r == sphere_distance_m(*calc, lon1, lat1, lon2, lat2),
{
    let two: Scalar = number(2);
    let s_lat: Scalar = ask(calc, Calc::Sin(to_radians(lat2 - lat1) / two));
    let s_lon: Scalar = ask(calc, Calc::Sin(to_radians(lon2 - lon1) / two));
    let c1: Scalar = ask(calc, Calc::Cos(to_radians(lat1)));
    let c2: Scalar = ask(calc, Calc::Cos(to_radians(lat2)));
    let a: Scalar = s_lat * s_lat + c1 * c2 * (s_lon * s_lon);
    number(6_371_000) * two * ask(calc, Calc::Asin(a.sqrt().min(&number(1))))
}

/// Initial bearing from one place to another, in degrees from true north.
pub open spec fn bearing<C: Fn(Calc) -> Scalar>(
    calc: C,
    lon1: Scalar,
    lat1: Scalar,
    lon2: Scalar,
    lat2: Scalar,
) -> Scalar {
    let (p1, l1, p2, l2) = (radians(lat1), radians(lon1), radians(lat2), radians(lon2));
    let y = image(calc, Calc::Sin(l2 - l1)) * image(calc, Calc::Cos(p2));
    let x = image(calc, Calc::Cos(p1)) * image(calc, Calc::Sin(p2)) - image(calc, Calc::Sin(p1))
        * image(calc, Calc::Cos(p2)) * image(calc, Calc::Cos(l2 - l1));
    let deg = crate::geometry::degrees(image(calc, Calc::Atan2(y, x)));
    if deg < whole(0) {
        deg + whole(360)
    } else {
        deg
    }
}

/// Initial bearing from one place to another, in degrees from true north.
pub fn bearing_deg<C: Fn(Calc) -> Scalar>(
    lon1: Scalar,
    lat1: Scalar,
    lon2: Scalar,
    lat2: Scalar,
    calc: &C,
) -> (r: Scalar)
    requires
        is_function(*calc),
    ensures
        r == bearing(*calc, lon1, lat1, lon2, lat2),
{
    let p1: Scalar = to_radians(lat1);
    let l1: Scalar = to_radians(lon1);
    let p2: Scalar = to_radians(lat2);
    let l2: Scalar = to_radians(lon2);
    let y: Scalar = ask(calc, Calc::Sin(l2 - l1)) * ask(calc, Calc::Cos(p2));
    let x: Scalar = ask(calc, Calc::Cos(p1)) * ask(calc, Calc::Sin(p2)) - ask(calc, Calc::Sin(p1))
        * ask(calc, Calc::Cos(p2)) * ask(calc, Calc::Cos(l2 - l1));
    let deg: Scalar = to_degrees(ask(calc, Calc::Atan2(y, x)));
    if deg.lt(&number(0)) {
        deg + number(360)
    } else {
        deg
    }
}

impl Path {
    /// Sum of the lengths of the first `k` segments, in metres.
    pub open spec fn length_of<C: Fn(Calc) -> Scalar>(points: Seq<PathPoint>, calc: C, k: int) -> Scalar
        decreases k,
    {
        if k <= 0 {
            whole(0)
        } else {
            let (a, b) = (points[k - 1], points[k]);
            Path::length_of(points, calc, k - 1) + sphere_distance_m(
                calc,
                a.lon,
                a.lat,
                b.lon,
                b.lat,
            )
        }
    }

    /// Length over a sphere in metres; zero on fewer than two points.
    pub fn length_m<C: Fn(Calc) -> Scalar>(&self, calc: &C) -> (r: Scalar)
        requires
            is_function(*calc),
        ensures
            r == Path::length_of(self@, *calc, self@.len() - 1),
    {
        let n: usize = self.points.len();
        let mut sum: Scalar = number(0);
        if n < 2 {
            return sum;
        }
        let mut i: usize = 0;
        while i < n - 1
            invariant
                is_function(*calc),
                n == self@.len(),
                n >= 2,
                i <= n - 1,
                sum == Path::length_of(self@, *calc, i as int),
            decreases n - 1 - i,
        {
            let a: PathPoint = self.points[i];
            let b: PathPoint = self.points[i + 1];
            sum = sum + haversine_m(a.lon, a.lat, b.lon, b.lat, calc);
            i = i + 1;
        }
        sum
    }

    /// Bearing along segment `i`, where the route has one.
    pub fn segment_heading_deg<C: Fn(Calc) -> Scalar>(&self, i: usize, calc: &C) -> (r: Option<Scalar>)
        requires
            is_function(*calc),
        ensures
            r == (if i + 1 < self@.len() {
                Some(
                    bearing(
                        *calc,
                        self@[i as int].lon,
                        self@[i as int].lat,
                        self@[i + 1].lon,
                        self@[i + 1].lat,
                    ),
                )
            } else {
                None
            }),
    {
        match self.segment(i) {
            Some((a, b)) => Some(bearing_deg(a.lon, a.lat, b.lon, b.lat, calc)),
            None => None,
        }
    }

    /// Bearing along the last segment, where the route has one.
    pub fn last_segment_heading<C: Fn(Calc) -> Scalar>(&self, calc: &C) -> (r: Option<Scalar>)
        requires
            is_function(*calc),
        ensures
            r == (if self@.len() < 2 {
                None
            } else {
                let (a, b) = (self@[self@.len() - 2], self@.last());
                Some(bearing(*calc, a.lon, a.lat, b.lon, b.lat))
            }),
    {
        match self.last_segment() {
            Some((a, b)) => Some(bearing_deg(a.lon, a.lat, b.lon, b.lat, calc)),
            None => None,
        }
    }

    /// Distance of point `idx` from the chord between two others, in metres,
    /// where the route has all three.
    pub fn chord_error_m<C: Fn(Calc) -> Scalar>(
        &self,
        idx: usize,
        a_idx: usize,
        b_idx: usize,
        calc: &C,
    ) -> (r: Option<Scalar>)
        requires
            is_function(*calc),
        ensures
            r == (if idx < self@.len() && a_idx < self@.len() && b_idx < self@.len() {
                let (p, a, b) = (self@[idx as int], self@[a_idx as int], self@[b_idx as int]);
                Some(chord_distance_m(*calc, p.lon, p.lat, a.lon, a.lat, b.lon, b.lat))
            } else {
                None
            }),
    {
        let n: usize = self.points.len();
        if idx < n && a_idx < n && b_idx < n {
            let p: PathPoint = self.points[idx];
            let a: PathPoint = self.points[a_idx];
            let b: PathPoint = self.points[b_idx];
            Some(point_seg_distance_m(p.lon, p.lat, a.lon, a.lat, b.lon, b.lat, calc))
        } else {
            None
        }
    }
}

/// Distance of a place from a segment in metres, longitudes scaled at the
/// middle of the segment.
pub open spec fn chord_distance_m<C: Fn(Calc) -> Scalar>(
    calc: C,
    px: Scalar,
    py: Scalar,
    ax: Scalar,
    ay: Scalar,
    bx: Scalar,
    by: Scalar,
) -> Scalar {
    let k = image(calc, Calc::Cos(radians((ay + by) / whole(2)))).larger(frac(1, 1_000_000));
    let (qx, ux, wx) = (px * k, ax * k, bx * k);
    let (vx, vy) = (wx - ux, by - ay);
    let len2 = vx * vx + vy * vy;
    let t = if len2 <= (Scalar { bits: EPSILON_BITS }) {
        whole(0)
    } else {
        (((qx - ux) * vx + (py - ay) * vy) / len2).clamped(whole(0), whole(1))
    };
    let (dx, dy) = (qx - (ux + vx * t), py - (ay + vy * t));
    (dx * dx + dy * dy).root() * whole(111_320)
}

/// The gap between one and the next double.
pub const EPSILON_BITS: u64 = 0x3cb0_0000_0000_0000;

/// Distance of a place from a segment in metres.
pub fn point_seg_distance_m<C: Fn(Calc) -> Scalar>(
    px: Scalar,
    py: Scalar,
    ax: Scalar,
    ay: Scalar,
    bx: Scalar,
    by: Scalar,
    calc: &C,
) -> (r: Scalar)
    requires
        is_function(*calc),
    ensures
        r == chord_distance_m(*calc, px, py, ax, ay, bx, by),
{
    let k: Scalar = ask(calc, Calc::Cos(to_radians((ay + by) / number(2)))).max(
        &ratio(1, 1_000_000),
    );
    let qx: Scalar = px * k;
    let ux: Scalar = ax * k;
    let wx: Scalar = bx * k;
    let vx: Scalar = wx - ux;
    let vy: Scalar = by - ay;
    let len2: Scalar = vx * vx + vy * vy;
    let t: Scalar = if len2.le(&Scalar { bits: EPSILON_BITS }) {
        number(0)
    } else {
        (((qx - ux) * vx + (py - ay) * vy) / len2).clamp(&number(0), &number(1))
    };
    let dx: Scalar = qx - (ux + vx * t);
    let dy: Scalar = py - (ay + vy * t);
    (dx * dx + dy * dy).sqrt() * number(111_320)
}

/// Difference of two angles in degrees, brought to the half turn round zero.
pub open spec fn angle_gap(a: Scalar, b: Scalar) -> Scalar {
    let d = (a - b).remainder(whole(360));
    if d >= whole(180) {
        d - whole(360)
    } else if d < whole(180).opposite() {
        d + whole(360)
    } else {
        d
    }
}

/// Difference of two angles in degrees, from -180 up to but without 180.
pub fn angle_diff_deg(a: Scalar, b: Scalar) -> (r: Scalar)
    ensures
        r == angle_gap(a, b),
{
    let d: Scalar = (a - b).rem(&number(360));
    let half: Scalar = number(180);
    if half.le(&d) {
        d - number(360)
    } else if d.lt(&half.neg()) {
        d + number(360)
    } else {
        d
    }
}

} // verus!
