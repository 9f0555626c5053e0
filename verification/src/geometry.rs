//! Plane geometry on longitudes and latitudes.

use crate::numeric::{frac, number, ratio, whole};
use crate::oracle::{ask, image, is_function, Calc};
use crate::scalar::Scalar;
use vstd::prelude::*;

verus! {

/// The double nearest to pi.
pub const PI_BITS: u64 = 0x4009_21fb_5444_2d18;

/// The largest finite double.
pub const MAX_BITS: u64 = 0x7fef_ffff_ffff_ffff;

/// An angle in degrees, in radians.
pub open spec fn radians(deg: Scalar) -> Scalar {
    deg * (Scalar { bits: PI_BITS } / whole(180))
}

pub fn to_radians(deg: Scalar) -> (r: Scalar)
    ensures
        r == radians(deg),
{
    deg * (Scalar { bits: PI_BITS } / number(180))
}

/// An angle in radians, in degrees.
pub open spec fn degrees(rad: Scalar) -> Scalar {
    rad * (whole(180) / Scalar { bits: PI_BITS })
}

pub fn to_degrees(rad: Scalar) -> (r: Scalar)
    ensures
        r == degrees(rad),
{
    rad * (number(180) / Scalar { bits: PI_BITS })
}

/// Cross product of two plane vectors.
pub open spec fn cross_product(ax: Scalar, ay: Scalar, bx: Scalar, by: Scalar) -> Scalar {
    ax * by - ay * bx
}

fn cross2(ax: Scalar, ay: Scalar, bx: Scalar, by: Scalar) -> (r: Scalar)
    ensures
        r == cross_product(ax, ay, bx, by),
{
    ax * by - ay * bx
}

/// Whether a point lies in the box spanned by two others, widened by 1e-9.
pub open spec fn in_span(px: Scalar, py: Scalar, ax: Scalar, ay: Scalar, bx: Scalar, by: Scalar) -> bool {
    let eps = frac(1, 1_000_000_000);
    &&& px >= ax.smaller(bx) - eps
    &&& px <= ax.larger(bx) + eps
    &&& py >= ay.smaller(by) - eps
    &&& py <= ay.larger(by) + eps
}

fn on_seg2(px: Scalar, py: Scalar, ax: Scalar, ay: Scalar, bx: Scalar, by: Scalar) -> (r: bool)
    ensures
        r == in_span(px, py, ax, ay, bx, by),
{
    let eps: Scalar = ratio(1, 1_000_000_000);
    (ax.min(&bx) - eps).le(&px) && px.le(&(ax.max(&bx) + eps)) && (ay.min(&by) - eps).le(&py)
        && py.le(&(ay.max(&by) + eps))
}

/// Strictly on different sides of zero.
pub open spec fn opposite_signs(a: Scalar, b: Scalar) -> bool {
    (a > whole(0) && b < whole(0)) || (a < whole(0) && b > whole(0))
}

/// Whether two plane segments meet; touching counts.
pub open spec fn segments_meet(
    ax: Scalar,
    ay: Scalar,
    bx: Scalar,
    by: Scalar,
    cx: Scalar,
    cy: Scalar,
    dx: Scalar,
    dy: Scalar,
) -> bool {
    let d1 = cross_product(cx - ax, cy - ay, bx - ax, by - ay);
    let d2 = cross_product(dx - ax, dy - ay, bx - ax, by - ay);
    let d3 = cross_product(ax - cx, ay - cy, dx - cx, dy - cy);
    let d4 = cross_product(bx - cx, by - cy, dx - cx, dy - cy);
    ||| opposite_signs(d1, d2) && opposite_signs(d3, d4)
    ||| d1.zero() && in_span(cx, cy, ax, ay, bx, by)
    ||| d2.zero() && in_span(dx, dy, ax, ay, bx, by)
    ||| d3.zero() && in_span(ax, ay, cx, cy, dx, dy)
    ||| d4.zero() && in_span(bx, by, cx, cy, dx, dy)
}

fn signs_differ(a: Scalar, b: Scalar) -> (r: bool)
    ensures
        r == opposite_signs(a, b),
{
    let z: Scalar = number(0);
    (z.lt(&a) && b.lt(&z)) || (a.lt(&z) && z.lt(&b))
}

/// Whether two plane segments meet; touching counts.
pub fn segs_intersect_plane(
    ax: Scalar,
    ay: Scalar,
    bx: Scalar,
    by: Scalar,
    cx: Scalar,
    cy: Scalar,
    dx: Scalar,
    dy: Scalar,
) -> (r: bool)
    ensures
        r == segments_meet(ax, ay, bx, by, cx, cy, dx, dy),
{
    let d1: Scalar = cross2(cx - ax, cy - ay, bx - ax, by - ay);
    let d2: Scalar = cross2(dx - ax, dy - ay, bx - ax, by - ay);
    let d3: Scalar = cross2(ax - cx, ay - cy, dx - cx, dy - cy);
    let d4: Scalar = cross2(bx - cx, by - cy, dx - cx, dy - cy);
    if signs_differ(d1, d2) && signs_differ(d3, d4) {
        return true;
    }
    if d1.is_zero() && on_seg2(cx, cy, ax, ay, bx, by) {
        return true;
    }
    if d2.is_zero() && on_seg2(dx, dy, ax, ay, bx, by) {
        return true;
    }
    if d3.is_zero() && on_seg2(ax, ay, cx, cy, dx, dy) {
        return true;
    }
    d4.is_zero() && on_seg2(bx, by, cx, cy, dx, dy)
}

/// A plane point.
pub type Vertex = [Scalar; 2];

/// Whether the ray from a point towards greater `x` crosses the edge that ends
/// in vertex `i`.
pub open spec fn ray_crosses(px: Scalar, py: Scalar, vertices: Seq<Vertex>, i: int) -> bool {
    let j = if i == 0 {
        vertices.len() - 1
    } else {
        i - 1
    };
    let (xi, yi) = (vertices[i][0], vertices[i][1]);
    let (xj, yj) = (vertices[j][0], vertices[j][1]);
    (yi > py) != (yj > py) && px < (xj - xi) * (py - yi) / (yj - yi) + xi
}

/// How many of the first `k` edges the ray crosses.
pub open spec fn crossings(px: Scalar, py: Scalar, vertices: Seq<Vertex>, k: int) -> int
    decreases k,
{
    if k <= 0 {
        0
    } else {
        crossings(px, py, vertices, k - 1) + if ray_crosses(px, py, vertices, k - 1) {
            1int
        } else {
            0
        }
    }
}

/// Inside by the even-odd rule; fewer than three vertices enclose nothing.
pub open spec fn inside_polygon(px: Scalar, py: Scalar, vertices: Seq<Vertex>) -> bool {
    vertices.len() >= 3 && crossings(px, py, vertices, vertices.len() as int) % 2 == 1
}

/// Whether a point lies in a polygon, by casting a ray.
pub fn point_in_polygon_xy(px: Scalar, py: Scalar, vertices: &Vec<Vertex>) -> (r: bool)
    ensures
        r == inside_polygon(px, py, vertices@),
{
    let n: usize = vertices.len();
    if n < 3 {
        return false;
    }
    let mut inside: bool = false;
    let mut j: usize = n - 1;
    let mut i: usize = 0;
    while i < n
        invariant
            n == vertices@.len(),
            n >= 3,
            i <= n,
            j == (if i == 0 {
                n - 1
            } else {
                i - 1
            }),
            inside == (crossings(px, py, vertices@, i as int) % 2 == 1),
        decreases n - i,
    {
        let xi: Scalar = vertices[i][0];
        let yi: Scalar = vertices[i][1];
        let xj: Scalar = vertices[j][0];
        let yj: Scalar = vertices[j][1];
        if py.lt(&yi) != py.lt(&yj) && px.lt(&((xj - xi) * (py - yi) / (yj - yi) + xi)) {
            inside = !inside;
        }
        j = i;
        i = i + 1;
    }
    inside
}

/// The foot of the perpendicular from a point, as a fraction of a segment from
/// its start; zero on a segment without length.
pub open spec fn foot_fraction(wx: Scalar, wy: Scalar, vx: Scalar, vy: Scalar) -> Scalar {
    let l2 = vx * vx + vy * vy;
    if l2 > whole(0) {
        ((wx * vx + wy * vy) / l2).clamped(whole(0), whole(1))
    } else {
        whole(0)
    }
}

/// Length of a plane vector.
pub open spec fn hypotenuse(x: Scalar, y: Scalar) -> Scalar {
    (x * x + y * y).root()
}

/// Distance of a plane point from a plane segment.
pub open spec fn plane_distance(
    px: Scalar,
    py: Scalar,
    ax: Scalar,
    ay: Scalar,
    bx: Scalar,
    by: Scalar,
) -> Scalar {
    let (vx, vy) = (bx - ax, by - ay);
    let t = foot_fraction(px - ax, py - ay, vx, vy);
    hypotenuse(px - (ax + t * vx), py - (ay + t * vy))
}

/// Distance of a plane point from a plane segment.
pub fn pt_seg_plane(px: Scalar, py: Scalar, ax: Scalar, ay: Scalar, bx: Scalar, by: Scalar) -> (r:
    Scalar)
    ensures
        r == plane_distance(px, py, ax, ay, bx, by),
{
    let vx: Scalar = bx - ax;
    let vy: Scalar = by - ay;
    let wx: Scalar = px - ax;
    let wy: Scalar = py - ay;
    let l2: Scalar = vx * vx + vy * vy;
    let t: Scalar = if number(0).lt(&l2) {
        ((wx * vx + wy * vy) / l2).clamp(&number(0), &number(1))
    } else {
        number(0)
    };
    let dx: Scalar = px - (ax + t * vx);
    let dy: Scalar = py - (ay + t * vy);
    (dx * dx + dy * dy).sqrt()
}

/// Kilometres per degree of longitude where the cosine of the latitude, in
/// radians, is taken at `lat`.
pub open spec fn km_per_lon_degree<C: Fn(Calc) -> Scalar>(calc: C, lat: Scalar) -> Scalar {
    frac(11132, 100) * image(calc, Calc::Cos(radians(lat)))
}

/// Kilometres per degree of latitude in clearance checks.
pub open spec fn km_per_lat_degree() -> Scalar {
    whole(111)
}

/// Distance of a place from a segment in kilometres, longitudes scaled at the
/// start of the segment.
pub open spec fn place_distance_km<C: Fn(Calc) -> Scalar>(
    calc: C,
    lon1: Scalar,
    lat1: Scalar,
    lon2: Scalar,
    lat2: Scalar,
    plon: Scalar,
    plat: Scalar,
) -> Scalar {
    let kx = km_per_lon_degree(calc, lat1);
    let ky = km_per_lat_degree();
    plane_distance(plon * kx, plat * ky, lon1 * kx, lat1 * ky, lon2 * kx, lat2 * ky)
}

/// Distance of a place from a segment in kilometres.
pub fn pt_seg_dist_km<C: Fn(Calc) -> Scalar>(
    calc: &C,
    lon1: Scalar,
    lat1: Scalar,
    lon2: Scalar,
    lat2: Scalar,
    plon: Scalar,
    plat: Scalar,
) -> (r: Scalar)
    requires
        is_function(*calc),
    ensures
        r == place_distance_km(*calc, lon1, lat1, lon2, lat2, plon, plat),
{
    let kx: Scalar = ratio(11132, 100) * ask(calc, Calc::Cos(to_radians(lat1)));
    let ky: Scalar = number(111);
    pt_seg_plane(plon * kx, plat * ky, lon1 * kx, lat1 * ky, lon2 * kx, lat2 * ky)
}

/// Distance of two segments in kilometres: zero where they meet, else the
/// smallest distance of an end of one from the other.
pub open spec fn segment_distance_km<C: Fn(Calc) -> Scalar>(
    calc: C,
    ax1: Scalar,
    ay1: Scalar,
    ax2: Scalar,
    ay2: Scalar,
    bx1: Scalar,
    by1: Scalar,
    bx2: Scalar,
    by2: Scalar,
) -> Scalar {
    let kx = km_per_lon_degree(calc, (ay1 + by1) / whole(2));
    let ky = km_per_lat_degree();
    let (ux1, uy1, ux2, uy2) = (ax1 * kx, ay1 * ky, ax2 * kx, ay2 * ky);
    let (wx1, wy1, wx2, wy2) = (bx1 * kx, by1 * ky, bx2 * kx, by2 * ky);
    if segments_meet(ux1, uy1, ux2, uy2, wx1, wy1, wx2, wy2) {
        whole(0)
    } else {
        plane_distance(ux1, uy1, wx1, wy1, wx2, wy2).smaller(
            plane_distance(ux2, uy2, wx1, wy1, wx2, wy2),
        ).smaller(plane_distance(wx1, wy1, ux1, uy1, ux2, uy2)).smaller(
            plane_distance(wx2, wy2, ux1, uy1, ux2, uy2),
        )
    }
}

/// Distance of two segments in kilometres.
pub fn seg_seg_dist_km<C: Fn(Calc) -> Scalar>(
    calc: &C,
    ax1: Scalar,
    ay1: Scalar,
    ax2: Scalar,
    ay2: Scalar,
    bx1: Scalar,
    by1: Scalar,
    bx2: Scalar,
    by2: Scalar,
) -> (r: Scalar)
    requires
        is_function(*calc),
    ensures
        r == segment_distance_km(*calc, ax1, ay1, ax2, ay2, bx1, by1, bx2, by2),
{
    let lat0: Scalar = (ay1 + by1) / number(2);
    let kx: Scalar = ratio(11132, 100) * ask(calc, Calc::Cos(to_radians(lat0)));
    let ky: Scalar = number(111);
    let ux1: Scalar = ax1 * kx;
    let uy1: Scalar = ay1 * ky;
    let ux2: Scalar = ax2 * kx;
    let uy2: Scalar = ay2 * ky;
    let wx1: Scalar = bx1 * kx;
    let wy1: Scalar = by1 * ky;
    let wx2: Scalar = bx2 * kx;
    let wy2: Scalar = by2 * ky;
    if segs_intersect_plane(ux1, uy1, ux2, uy2, wx1, wy1, wx2, wy2) {
        return number(0);
    }
    let d1: Scalar = pt_seg_plane(ux1, uy1, wx1, wy1, wx2, wy2);
    let d2: Scalar = pt_seg_plane(ux2, uy2, wx1, wy1, wx2, wy2);
    let d3: Scalar = pt_seg_plane(wx1, wy1, ux1, uy1, ux2, uy2);
    let d4: Scalar = pt_seg_plane(wx2, wy2, ux1, uy1, ux2, uy2);
    d1.min(&d2).min(&d3).min(&d4)
}

/// Whether a point lies in an axis-parallel rectangle, its border included.
pub open spec fn in_rectangle(x: Scalar, y: Scalar, x0: Scalar, y0: Scalar, x1: Scalar, y1: Scalar) -> bool {
    x >= x0 && x <= x1 && y >= y0 && y <= y1
}

/// Whether the edge from vertex `i` to the next meets a side of the rectangle.
pub open spec fn edge_meets_rectangle(
    vertices: Seq<Vertex>,
    i: int,
    x0: Scalar,
    y0: Scalar,
    x1: Scalar,
    y1: Scalar,
) -> bool {
    let k = if i + 1 == vertices.len() {
        0
    } else {
        i + 1
    };
    let (ax, ay) = (vertices[i][0], vertices[i][1]);
    let (bx, by) = (vertices[k][0], vertices[k][1]);
    ||| segments_meet(ax, ay, bx, by, x0, y0, x1, y0)
    ||| segments_meet(ax, ay, bx, by, x1, y0, x1, y1)
    ||| segments_meet(ax, ay, bx, by, x1, y1, x0, y1)
    ||| segments_meet(ax, ay, bx, by, x0, y1, x0, y0)
}

/// Whether a rectangle and a polygon meet: a vertex lies in the rectangle, a
/// corner lies in the polygon, or an edge meets a side.
pub open spec fn rectangle_meets_polygon(
    x0: Scalar,
    y0: Scalar,
    x1: Scalar,
    y1: Scalar,
    vertices: Seq<Vertex>,
) -> bool {
    vertices.len() >= 3 && {
        ||| exists|i: int|
            0 <= i < vertices.len() && in_rectangle(
                (#[trigger] vertices[i])[0],
                vertices[i][1],
                x0,
                y0,
                x1,
                y1,
            )
        ||| inside_polygon(x0, y0, vertices)
        ||| inside_polygon(x1, y0, vertices)
        ||| inside_polygon(x0, y1, vertices)
        ||| inside_polygon(x1, y1, vertices)
        ||| exists|i: int|
            0 <= i < vertices.len() && #[trigger] edge_meets_rectangle(vertices, i, x0, y0, x1, y1)
    }
}

/// Whether an axis-parallel rectangle and a polygon meet.
pub fn rect_intersects_polygon(
    rx0: Scalar,
    ry0: Scalar,
    rx1: Scalar,
    ry1: Scalar,
    vertices: &Vec<Vertex>,
) -> (r: bool)
    ensures
        r == rectangle_meets_polygon(rx0, ry0, rx1, ry1, vertices@),
{
    let n: usize = vertices.len();
    if n < 3 {
        return false;
    }
    let mut i: usize = 0;
    while i < n
        invariant
            n == vertices@.len(),
            n >= 3,
            i <= n,
            forall|k: int|
                0 <= k < i ==> !in_rectangle(
                    (#[trigger] vertices@[k])[0],
                    vertices@[k][1],
                    rx0,
                    ry0,
                    rx1,
                    ry1,
                ),
        decreases n - i,
    {
        let x: Scalar = vertices[i][0];
        let y: Scalar = vertices[i][1];
        if rx0.le(&x) && x.le(&rx1) && ry0.le(&y) && y.le(&ry1) {
            assert(in_rectangle(vertices@[i as int][0], vertices@[i as int][1], rx0, ry0, rx1, ry1));
            return true;
        }
        i = i + 1;
    }
    if point_in_polygon_xy(rx0, ry0, vertices) || point_in_polygon_xy(rx1, ry0, vertices)
        || point_in_polygon_xy(rx0, ry1, vertices) || point_in_polygon_xy(rx1, ry1, vertices) {
        return true;
    }
    let mut e: usize = 0;
    while e < n
        invariant
            n == vertices@.len(),
            n >= 3,
            e <= n,
            forall|k: int|
                0 <= k < e ==> !(#[trigger] edge_meets_rectangle(
                    vertices@,
                    k,
                    rx0,
                    ry0,
                    rx1,
                    ry1,
                )),
        decreases n - e,
    {
        let k: usize = if e + 1 == n { 0 } else { e + 1 };
        let ax: Scalar = vertices[e][0];
        let ay: Scalar = vertices[e][1];
        let bx: Scalar = vertices[k][0];
        let by: Scalar = vertices[k][1];
        if segs_intersect_plane(ax, ay, bx, by, rx0, ry0, rx1, ry0) || segs_intersect_plane(
            ax,
            ay,
            bx,
            by,
            rx1,
            ry0,
            rx1,
            ry1,
        ) || segs_intersect_plane(ax, ay, bx, by, rx1, ry1, rx0, ry1) || segs_intersect_plane(
            ax,
            ay,
            bx,
            by,
            rx0,
            ry1,
            rx0,
            ry0,
        ) {
            assert(edge_meets_rectangle(vertices@, e as int, rx0, ry0, rx1, ry1));
            return true;
        }
        e = e + 1;
    }
    false
}

} // verus!
