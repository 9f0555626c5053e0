//! What the outlines of zones hold, and how far legs stay clear of them.

use crate::config::{Zone, ZoneShape};
use crate::coord::{legal_coordinate, Geo};
use crate::exact::{about, lemma_least, lemma_order, lemma_sub, num, size};
use crate::geometry::{
    km_per_lat_degree, km_per_lon_degree, place_distance_km, radians, segment_distance_km, Vertex,
};
use crate::nearby::{law_distance_from_segment, on_map, square_to};
use crate::numeric::{frac, whole};
use crate::oracle::{image, Calc};
use crate::plane::lemma_degree;
use crate::ring::{lemma_bound, lemma_is, lemma_minus, lemma_product, lemma_turn, prod};
use crate::scalar::Scalar;
use crate::values::lemma_num_whole;
use crate::zone::{clearance_km, end_inside, holds, nearest_edge_km};
use vstd::prelude::*;

verus! {

/// A round zone holds a place exactly where the geodesic from its centre is not longer
/// than its radius, but for a micrometre.
pub proof fn law_circle_holds_places_in_reach<C: Fn(Calc) -> Scalar>(
    calc: C,
    z: Zone,
    center: Vertex,
    radius_km: Scalar,
    p: Geo,
)
    requires
        z.shape == (ZoneShape::Circle { center, radius_km }),
        legal_coordinate(center[0], center[1]),
        radius_km.finite() && size(num(radius_km)) <= 100000real,
        image(calc, Calc::Geodesic(Geo { lon: center[0], lat: center[1] }, p)).finite(),
    ensures
        ({
            let d = num(image(calc, Calc::Geodesic(Geo { lon: center[0], lat: center[1] }, p)));
            &&& holds(calc, z, p) ==> d <= 1000real * num(radius_km) + 1real / 1000000real
            &&& d <= 1000real * num(radius_km) - 1real / 1000000real ==> holds(calc, z, p)
        }),
{
    lemma_least();
    lemma_num_whole(1000);
    let g = image(calc, Calc::Geodesic(Geo { lon: center[0], lat: center[1] }, p));
    lemma_is(num(radius_km), 1000real);
    lemma_turn(num(radius_km), 1000real);
    lemma_is(1000real, num(radius_km));
    assert(num(whole(1000)) == 1000real);
    lemma_product(radius_km, whole(1000));
    lemma_order(g, radius_km * whole(1000));
}

/// The clearance of a leg from a round zone is what its distance from the centre leaves
/// of the radius, and nothing where it is less; but for 1e-9 km.
pub proof fn law_clearance_of_circle<C: Fn(Calc) -> Scalar>(
    calc: C,
    lon1: Scalar,
    lat1: Scalar,
    lon2: Scalar,
    lat2: Scalar,
    z: Zone,
    center: Vertex,
    radius_km: Scalar,
)
    requires
        z.shape == (ZoneShape::Circle { center, radius_km }),
        legal_coordinate(center[0], center[1]),
        on_map(radius_km),
        on_map(place_distance_km(calc, lon1, lat1, lon2, lat2, center[0], center[1])),
    ensures
        ({
            let c = clearance_km(calc, lon1, lat1, lon2, lat2, z);
            let out = num(
                place_distance_km(calc, lon1, lat1, lon2, lat2, center[0], center[1]),
            ) - num(radius_km);
            &&& c.finite()
            &&& about(
                num(c),
                if out > 0real {
                    out
                } else {
                    0real
                },
                1real / 1000000000real,
            )
        }),
{
    lemma_least();
    let d = place_distance_km(calc, lon1, lat1, lon2, lat2, center[0], center[1]);
    lemma_sub(d, radius_km);
    lemma_num_whole(0);
    lemma_order(d - radius_km, whole(0));
}

/// The nearest of some edges is not farther than any of them.
proof fn lemma_nearest<C: Fn(Calc) -> Scalar>(
    calc: C,
    lon1: Scalar,
    lat1: Scalar,
    lon2: Scalar,
    lat2: Scalar,
    v: Seq<Vertex>,
    k: int,
    i: int,
)
    requires
        0 <= i < k <= v.len(),
    ensures
        ({
            let j = crate::crossing::before(i, v.len() as int);
            let d = segment_distance_km(
                calc,
                lon1,
                lat1,
                lon2,
                lat2,
                v[j][0],
                v[j][1],
                v[i][0],
                v[i][1],
            );
            let best = nearest_edge_km(calc, lon1, lat1, lon2, lat2, v, k);
            !best.nan() && (!d.nan() ==> best.value() <= d.value())
        }),
    decreases k,
{
    lemma_never_nan(calc, lon1, lat1, lon2, lat2, v, k - 1);
    if i < k - 1 {
        lemma_nearest(calc, lon1, lat1, lon2, lat2, v, k - 1, i);
    }
}

proof fn lemma_never_nan<C: Fn(Calc) -> Scalar>(
    calc: C,
    lon1: Scalar,
    lat1: Scalar,
    lon2: Scalar,
    lat2: Scalar,
    v: Seq<Vertex>,
    k: int,
)
    ensures
        !nearest_edge_km(calc, lon1, lat1, lon2, lat2, v, k).nan(),
    decreases k,
{
    if k > 0 {
        lemma_never_nan(calc, lon1, lat1, lon2, lat2, v, k - 1);
    }
}

/// The clearance of a leg from a polygon is never more than its distance from any edge,
/// and nothing where the leg meets an edge or an end of it lies in the polygon.
pub proof fn law_clearance_of_polygon<C: Fn(Calc) -> Scalar>(
    calc: C,
    lon1: Scalar,
    lat1: Scalar,
    lon2: Scalar,
    lat2: Scalar,
    z: Zone,
    v: Seq<Vertex>,
    i: int,
)
    requires
        z.shape is Polygon,
        v == z.shape->Polygon_vertices@,
        v.len() >= 3,
        0 <= i < v.len(),
    ensures
        ({
            let c = clearance_km(calc, lon1, lat1, lon2, lat2, z);
            let j = crate::crossing::before(i, v.len() as int);
            let d = segment_distance_km(
                calc,
                lon1,
                lat1,
                lon2,
                lat2,
                v[j][0],
                v[j][1],
                v[i][0],
                v[i][1],
            );
            &&& !c.nan() && c.value() >= 0
            &&& d.finite() && num(d) >= 0real ==> c.value() <= d.value()
            &&& end_inside(lon1, lat1, v) || end_inside(lon2, lat2, v) ==> c.value() == 0
        }),
{
    crate::order::lemma_whole_zero();
    lemma_nearest(calc, lon1, lat1, lon2, lat2, v, v.len() as int, i);
    let j = crate::crossing::before(i, v.len() as int);
    let d = segment_distance_km(
        calc,
        lon1,
        lat1,
        lon2,
        lat2,
        v[j][0],
        v[j][1],
        v[i][0],
        v[i][1],
    );
    crate::exact::lemma_num(d);
}

/// Kilometres in a degree of longitude and of latitude, where clearances are measured.
#[verifier::rlimit(50)]
pub proof fn law_scale_of_clearances<C: Fn(Calc) -> Scalar>(calc: C, lat: Scalar)
    requires
        image(calc, Calc::Cos(radians(lat))).finite(),
        size(num(image(calc, Calc::Cos(radians(lat))))) <= 1real,
    ensures
        km_per_lon_degree(calc, lat).finite(),
        about(
            num(km_per_lon_degree(calc, lat)),
            11132real / 100real * num(image(calc, Calc::Cos(radians(lat)))),
            1real / 1000000000000real,
        ),
        size(num(km_per_lon_degree(calc, lat))) <= 112real,
        km_per_lat_degree().finite(),
        num(km_per_lat_degree()) == 111real,
{
    lemma_least();
    lemma_degree();
    lemma_num_whole(111);
    let c = image(calc, Calc::Cos(radians(lat)));
    let (k, f, g) = (num(frac(11132, 100)), num(c), 11132real / 100real);
    let e = 1real / 20000000000000real;
    lemma_bound(f, k - g, 1real, e);
    lemma_is(1real, e);
    lemma_minus(f, k, g);
    lemma_turn(f, k);
    lemma_turn(f, g);
    lemma_is(g, f);
    lemma_product(frac(11132, 100), c);
}

/// A coordinate on the map.
#[verifier::rlimit(50)]
proof fn lemma_on_map(deg: Scalar, k: Scalar, scale: real)
    requires
        deg.finite() && size(num(deg)) <= 400real,
        k.finite() && size(num(k)) <= 112real,
        about(num(k), scale, 1real / 1000000000000real),
    ensures
        on_map(deg * k),
        about(num(deg * k), prod(scale, num(deg)), 1real / 1000000000real),
{
    lemma_least();
    let e = 1real / 1000000000000real;
    lemma_bound(num(deg), num(k) - scale, 400real, e);
    lemma_is(400real, e);
    lemma_minus(num(deg), num(k), scale);
    lemma_turn(num(deg), scale);
    lemma_bound(num(deg), num(k), 400real, 112real);
    lemma_is(400real, 112real);
    lemma_product(deg, k);
}

/// Whether a place of the map is that of a place in degrees, but for 1e-9 km: `east`
/// kilometres in a degree of longitude and 111 in one of latitude.
pub open spec fn mapped(m: (real, real), lon: Scalar, lat: Scalar, east: real) -> bool {
    &&& about(m.0, prod(east, num(lon)), 1real / 1000000000real)
    &&& about(m.1, 111real * num(lat), 1real / 1000000000real)
}

/// Whether a number is one of degrees.
pub open spec fn degree(x: Scalar) -> bool {
    x.finite() && size(num(x)) <= 400real
}

/// Whether two places of the map are at most 700 km apart in each direction.
pub open spec fn neighbours(a: (real, real), b: (real, real)) -> bool {
    size(a.0 - b.0) <= 700real && size(a.1 - b.1) <= 700real
}

/// The distance in kilometres of a place from a leg is that of the places on the map:
/// the smallest to any place on the leg, by the squares, but for 2e-5.
#[verifier::rlimit(50)]
pub proof fn law_distance_from_leg<C: Fn(Calc) -> Scalar>(
    calc: C,
    lon1: Scalar,
    lat1: Scalar,
    lon2: Scalar,
    lat2: Scalar,
    lon: Scalar,
    lat: Scalar,
    any: real,
) -> (r: ((real, real), (real, real), (real, real), real))
    requires
        degree(lon1) && degree(lat1) && degree(lon2) && degree(lat2) && degree(lon) && degree(lat),
        image(calc, Calc::Cos(radians(lat1))).finite(),
        size(num(image(calc, Calc::Cos(radians(lat1))))) <= 1real,
        0real <= any <= 1real,
    ensures
        ({
            let east = 11132real / 100real * num(image(calc, Calc::Cos(radians(lat1))));
            let (a, b, p, foot) = r;
            let d = place_distance_km(calc, lon1, lat1, lon2, lat2, lon, lat);
            let (wx, wy, vx, vy) = (p.0 - a.0, p.1 - a.1, b.0 - a.0, b.1 - a.1);
            &&& mapped(a, lon1, lat1, east) && mapped(b, lon2, lat2, east) && mapped(p, lon, lat, east)
            &&& neighbours(a, b) && neighbours(a, p) && prod(vx, vx) + prod(vy, vy) >= 1real
                / 10000000000real ==> {
                &&& d.finite() && num(d) >= 0real && 0real <= foot <= 1real
                &&& prod(num(d), num(d)) <= square_to(wx, wy, vx, vy, any) + 1real / 50000real
                &&& about(
                    prod(num(d), num(d)),
                    square_to(wx, wy, vx, vy, foot),
                    1real / 50000real,
                )
            }
        }),
{
    law_scale_of_clearances(calc, lat1);
    let east = 11132real / 100real * num(image(calc, Calc::Cos(radians(lat1))));
    let (kx, ky) = (km_per_lon_degree(calc, lat1), km_per_lat_degree());
    lemma_on_map(lon1, kx, east);
    lemma_on_map(lon2, kx, east);
    lemma_on_map(lon, kx, east);
    lemma_on_map(lat1, ky, 111real);
    lemma_on_map(lat2, ky, 111real);
    lemma_on_map(lat, ky, 111real);
    lemma_is(111real, num(lat1));
    lemma_is(111real, num(lat2));
    lemma_is(111real, num(lat));
    let a = (num(lon1 * kx), num(lat1 * ky));
    let b = (num(lon2 * kx), num(lat2 * ky));
    let p = (num(lon * kx), num(lat * ky));
    let (vx, vy) = (b.0 - a.0, b.1 - a.1);
    if neighbours(a, b) && neighbours(a, p) && prod(vx, vx) + prod(vy, vy) >= 1real
        / 10000000000real {
        let foot = law_distance_from_segment(
            lon * kx,
            lat * ky,
            lon1 * kx,
            lat1 * ky,
            lon2 * kx,
            lat2 * ky,
            any,
        );
        (a, b, p, foot)
    } else {
        (a, b, p, 0real)
    }
}

} // verus!
