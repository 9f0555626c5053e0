//! Where zones are and what they forbid.

use crate::config::{Zone, ZoneShape, ZoneType};
use crate::coord::{legal_coordinate, Geo};
use crate::geometry::{
    inside_polygon, place_distance_km, point_in_polygon_xy, pt_seg_dist_km, seg_seg_dist_km,
    segment_distance_km, Vertex, MAX_BITS,
};
use crate::numeric::{number, whole};
use crate::oracle::{ask, image, is_function, Calc};
use crate::scalar::Scalar;
use vstd::prelude::*;

verus! {

/// Whether a place lies within the outline of a zone. A circle round an illegal
/// centre holds nothing.
pub open spec fn holds<C: Fn(Calc) -> Scalar>(calc: C, z: Zone, p: Geo) -> bool {
    match z.shape {
        ZoneShape::Circle { center, radius_km } => {
            legal_coordinate(center[0], center[1]) && image(
                calc,
                Calc::Geodesic(Geo { lon: center[0], lat: center[1] }, p),
            ) <= radius_km * whole(1000)
        },
        ZoneShape::Polygon { vertices } => inside_polygon(p.lon, p.lat, vertices@),
    }
}

/// Whether a place lies within the outline of a zone.
pub fn zone_contains<C: Fn(Calc) -> Scalar>(z: &Zone, p: &Geo, calc: &C) -> (r: bool)
    requires
        is_function(*calc),
    ensures
        r == holds(*calc, *z, *p),
{
    match &z.shape {
        ZoneShape::Circle { center, radius_km } => {
            match Geo::new(center[0], center[1]) {
                Ok(c) => ask(calc, Calc::Geodesic(c, *p)).le(&(*radius_km * number(1000))),
                Err(_) => false,
            }
        },
        ZoneShape::Polygon { vertices } => point_in_polygon(p, vertices),
    }
}

/// Whether a place lies within a polygon.
pub fn point_in_polygon(p: &Geo, vertices: &Vec<Vertex>) -> (r: bool)
    ensures
        r == inside_polygon(p.lon, p.lat, vertices@),
{
    point_in_polygon_xy(p.lon, p.lat, vertices)
}

/// Whether a height lies in the band of a zone; a zone that does not give both
/// ends has all heights in it.
pub open spec fn forbids_height(z: Zone, alt_m: Scalar) -> bool {
    z.alt_min_m is Some && z.alt_max_m is Some ==> z.alt_min_m->0 <= alt_m && alt_m
        <= z.alt_max_m->0
}

/// Whether a zone forbids being at a place and a height: within its outline, a wall
/// forbids every height and another zone those of its band.
pub fn zone_contains_at<C: Fn(Calc) -> Scalar>(
    z: &Zone,
    p: &Geo,
    alt_m: Scalar,
    calc: &C,
) -> (r: bool)
    requires
        is_function(*calc),
    ensures
        r == (holds(*calc, *z, *p) && (z.wall() || forbids_height(*z, alt_m))),
{
    if !zone_contains(z, p, calc) {
        return false;
    }
    if z.is_wall() {
        return true;
    }
    match (z.alt_min_m, z.alt_max_m) {
        (Some(lo), Some(hi)) => lo.le(&alt_m) && alt_m.le(&hi),
        _ => true,
    }
}

/// Whether a height is inside the band of a restricted zone, so that an
/// aircraft at that height has to go round or change height.
pub open spec fn blocks_height(z: Zone, alt_m: Scalar) -> bool {
    z.zone_type == ZoneType::Restricted && forbids_height(z, alt_m)
}

pub fn restricted_blocks_alt(z: &Zone, alt_m: Scalar) -> (r: bool)
    ensures
        r == blocks_height(*z, alt_m),
{
    match z.zone_type {
        ZoneType::Restricted => match (z.alt_min_m, z.alt_max_m) {
            (Some(lo), Some(hi)) => lo.le(&alt_m) && alt_m.le(&hi),
            _ => true,
        },
        _ => false,
    }
}

/// The smallest distance in kilometres from a segment to the first `k` edges
/// of a polygon, edge `i` ending in vertex `i`; the largest double for none.
pub open spec fn nearest_edge_km<C: Fn(Calc) -> Scalar>(
    calc: C,
    lon1: Scalar,
    lat1: Scalar,
    lon2: Scalar,
    lat2: Scalar,
    vertices: Seq<Vertex>,
    k: int,
) -> Scalar
    decreases k,
{
    if k <= 0 {
        Scalar { bits: MAX_BITS }
    } else {
        let i = k - 1;
        let j = if i == 0 {
            vertices.len() - 1
        } else {
            i - 1
        };
        nearest_edge_km(calc, lon1, lat1, lon2, lat2, vertices, k - 1).smaller(
            segment_distance_km(
                calc,
                lon1,
                lat1,
                lon2,
                lat2,
                vertices[j][0],
                vertices[j][1],
                vertices[i][0],
                vertices[i][1],
            ),
        )
    }
}

/// A legal end of a segment inside a polygon.
pub open spec fn end_inside(lon: Scalar, lat: Scalar, vertices: Seq<Vertex>) -> bool {
    legal_coordinate(lon, lat) && inside_polygon(lon, lat, vertices)
}

/// Horizontal clearance of a segment from a zone in kilometres; zero where it
/// touches or enters, and the largest double for a zone without an inside.
pub open spec fn clearance_km<C: Fn(Calc) -> Scalar>(
    calc: C,
    lon1: Scalar,
    lat1: Scalar,
    lon2: Scalar,
    lat2: Scalar,
    z: Zone,
) -> Scalar {
    match z.shape {
        ZoneShape::Circle { center, radius_km } => if legal_coordinate(center[0], center[1]) {
            (place_distance_km(calc, lon1, lat1, lon2, lat2, center[0], center[1])
                - radius_km).larger(whole(0))
        } else {
            Scalar { bits: MAX_BITS }
        },
        ZoneShape::Polygon { vertices } => if vertices@.len() < 3 {
            Scalar { bits: MAX_BITS }
        } else if end_inside(lon1, lat1, vertices@) || end_inside(lon2, lat2, vertices@) {
            whole(0)
        } else {
            nearest_edge_km(
                calc,
                lon1,
                lat1,
                lon2,
                lat2,
                vertices@,
                vertices@.len() as int,
            ).larger(whole(0))
        },
    }
}

fn is_end_inside(lon: Scalar, lat: Scalar, vertices: &Vec<Vertex>) -> (r: bool)
    ensures
        r == end_inside(lon, lat, vertices@),
{
    match Geo::new(lon, lat) {
        Ok(_) => point_in_polygon_xy(lon, lat, vertices),
        Err(_) => false,
    }
}

/// Horizontal clearance of a segment from a zone in kilometres.
pub fn zone_segment_clearance_km<C: Fn(Calc) -> Scalar>(
    lon1: Scalar,
    lat1: Scalar,
    lon2: Scalar,
    lat2: Scalar,
    z: &Zone,
    calc: &C,
) -> (r: Scalar)
    requires
        is_function(*calc),
    ensures
        r == clearance_km(*calc, lon1, lat1, lon2, lat2, *z),
{
    match &z.shape {
        ZoneShape::Circle { center, radius_km } => match Geo::new(center[0], center[1]) {
            Ok(c) => (pt_seg_dist_km(calc, lon1, lat1, lon2, lat2, c.lon, c.lat) - *radius_km).max(
                &number(0),
            ),
            Err(_) => Scalar { bits: MAX_BITS },
        },
        ZoneShape::Polygon { vertices } => {
            let n: usize = vertices.len();
            if n < 3 {
                return Scalar { bits: MAX_BITS };
            }
            if is_end_inside(lon1, lat1, vertices) || is_end_inside(lon2, lat2, vertices) {
                return number(0);
            }
            let mut best: Scalar = Scalar { bits: MAX_BITS };
            let mut j: usize = n - 1;
            let mut i: usize = 0;
            while i < n
                invariant
                    is_function(*calc),
                    n == vertices@.len(),
                    n >= 3,
                    i <= n,
                    j == (if i == 0 {
                        n - 1
                    } else {
                        i - 1
                    }),
                    best == nearest_edge_km(*calc, lon1, lat1, lon2, lat2, vertices@, i as int),
                decreases n - i,
            {
                let d: Scalar = seg_seg_dist_km(
                    calc,
                    lon1,
                    lat1,
                    lon2,
                    lat2,
                    vertices[j][0],
                    vertices[j][1],
                    vertices[i][0],
                    vertices[i][1],
                );
                best = best.min(&d);
                j = i;
                i = i + 1;
            }
            best.max(&number(0))
        },
    }
}

} // verus!
