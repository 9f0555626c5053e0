//! Projections between places and metres in the plane.

use crate::coord::{Geo, ProjectionCodec, TransverseMercator, WebMercator};
use crate::dubins::QUARTER_BITS;
use crate::geometry::{degrees, radians, to_degrees, to_radians};
use crate::numeric::{frac, number, ratio, whole};
use crate::oracle::{ask, image, is_function, Calc};
use crate::scalar::Scalar;
use vstd::prelude::*;

verus! {

/// An eighth of a turn, in radians.
pub const EIGHTH_BITS: u64 = 0x3fe9_21fb_5444_2d18;

impl Geo {
    /// Distance to another place over the ground, in metres.
    pub fn distance_m<C: Fn(Calc) -> Scalar>(&self, other: &Geo, calc: &C) -> (r: Scalar)
        requires
            is_function(*calc),
        ensures
            r == image(*calc, Calc::Geodesic(*self, *other)),
    {
        ask(calc, Calc::Geodesic(*self, *other))
    }
}

/// Share of the latitude in the length of the meridian, for a squared eccentricity.
pub open spec fn meridian_share(e2: Scalar) -> Scalar {
    whole(1) - e2 / whole(4) - whole(3) * e2 * e2 / whole(64) - whole(5) * e2 * e2 * e2 / whole(256)
}

fn find_meridian_share(e2: Scalar) -> (r: Scalar)
    ensures
        r == meridian_share(e2),
{
    number(1) - e2 / number(4) - number(3) * e2 * e2 / number(64) - number(5) * e2 * e2 * e2
        / number(256)
}

/// Length of the meridian from the equator to a latitude in radians, by a series up
/// to the third power of the squared eccentricity.
pub open spec fn meridian_m<C: Fn(Calc) -> Scalar>(calc: C, a: Scalar, e2: Scalar, phi: Scalar) -> Scalar {
    a * (meridian_share(e2) * phi - (whole(3) * e2 / whole(8) + whole(3) * e2 * e2 / whole(32)
        + whole(45) * e2 * e2 * e2 / whole(1024)) * image(calc, Calc::Sin(whole(2) * phi)) + (whole(
        15,
    ) * e2 * e2 / whole(256) + whole(45) * e2 * e2 * e2 / whole(1024)) * image(
        calc,
        Calc::Sin(whole(4) * phi),
    ) - (whole(35) * e2 * e2 * e2 / whole(3072)) * image(calc, Calc::Sin(whole(6) * phi)))
}

fn find_meridian<C: Fn(Calc) -> Scalar>(calc: &C, a: Scalar, e2: Scalar, phi: Scalar) -> (r: Scalar)
    requires
        is_function(*calc),
    ensures
        r == meridian_m(*calc, a, e2, phi),
{
    a * (find_meridian_share(e2) * phi - (number(3) * e2 / number(8) + number(3) * e2 * e2 / number(
        32,
    ) + number(45) * e2 * e2 * e2 / number(1024)) * ask(calc, Calc::Sin(number(2) * phi)) + (number(
        15,
    ) * e2 * e2 / number(256) + number(45) * e2 * e2 * e2 / number(1024)) * ask(
        calc,
        Calc::Sin(number(4) * phi),
    ) - (number(35) * e2 * e2 * e2 / number(3072)) * ask(calc, Calc::Sin(number(6) * phi)))
}

/// Radius of curvature across the meridian.
pub open spec fn across_m(a: Scalar, e2: Scalar, sin_phi: Scalar) -> Scalar {
    a / (whole(1) - e2 * sin_phi * sin_phi).root()
}

impl TransverseMercator {
    /// Easting of a place: `n` is the radius across the meridian, `t` the squared
    /// tangent of the latitude, `q` the distance from the central meridian in radii.
    pub open spec fn east<C: Fn(Calc) -> Scalar>(
        self,
        calc: C,
        n: Scalar,
        t: Scalar,
        c: Scalar,
        q: Scalar,
        ep2: Scalar,
    ) -> Scalar {
        self.scale_factor * n * (q + (whole(1) - t + c) * image(calc, Calc::Powi(q, 3)) / whole(6)
            + (whole(5) - whole(18) * t + t * t + whole(72) * c - whole(58) * ep2) * image(
            calc,
            Calc::Powi(q, 5),
        ) / whole(120)) + self.false_easting
    }

    /// Northing of a place whose meridian is `m` metres long.
    pub open spec fn north<C: Fn(Calc) -> Scalar>(
        self,
        calc: C,
        m: Scalar,
        n_tan: Scalar,
        t: Scalar,
        c: Scalar,
        q: Scalar,
        ep2: Scalar,
    ) -> Scalar {
        self.scale_factor * (m + n_tan * (q * q / whole(2) + (whole(5) - t + whole(9) * c + whole(4)
            * c * c) * image(calc, Calc::Powi(q, 4)) / whole(24) + (whole(61) - whole(58) * t + t
            * t + whole(600) * c - whole(330) * ep2) * image(calc, Calc::Powi(q, 6)) / whole(720)))
            + self.false_northing
    }

    /// Where a place lies in the plane.
    pub open spec fn plane<C: Fn(Calc) -> Scalar>(self, calc: C, lon: Scalar, lat: Scalar) -> (
        Scalar,
        Scalar,
    ) {
        let a = self.ellipsoid.a;
        let e2 = self.ellipsoid.eccentricity2();
        let ep2 = e2 / (whole(1) - e2);
        let phi = radians(lat);
        let lam = radians(lon - self.central_meridian);
        let cos_phi = image(calc, Calc::Cos(phi));
        let tan_phi = image(calc, Calc::Tan(phi));
        let n = across_m(a, e2, image(calc, Calc::Sin(phi)));
        let t = tan_phi * tan_phi;
        let c = ep2 * cos_phi * cos_phi;
        let q = lam * cos_phi;
        (
            self.east(calc, n, t, c, q, ep2),
            self.north(calc, meridian_m(calc, a, e2, phi), n * tan_phi, t, c, q, ep2),
        )
    }

    fn find_east<C: Fn(Calc) -> Scalar>(
        &self,
        calc: &C,
        n: Scalar,
        t: Scalar,
        c: Scalar,
        q: Scalar,
        ep2: Scalar,
    ) -> (r: Scalar)
        requires
            is_function(*calc),
        ensures
            r == self.east(*calc, n, t, c, q, ep2),
    {
        self.scale_factor * n * (q + (number(1) - t + c) * ask(calc, Calc::Powi(q, 3)) / number(6)
            + (number(5) - number(18) * t + t * t + number(72) * c - number(58) * ep2) * ask(
            calc,
            Calc::Powi(q, 5),
        ) / number(120)) + self.false_easting
    }

    fn find_north<C: Fn(Calc) -> Scalar>(
        &self,
        calc: &C,
        m: Scalar,
        n_tan: Scalar,
        t: Scalar,
        c: Scalar,
        q: Scalar,
        ep2: Scalar,
    ) -> (r: Scalar)
        requires
            is_function(*calc),
        ensures
            r == self.north(*calc, m, n_tan, t, c, q, ep2),
    {
        self.scale_factor * (m + n_tan * (q * q / number(2) + (number(5) - t + number(9) * c
            + number(4) * c * c) * ask(calc, Calc::Powi(q, 4)) / number(24) + (number(61) - number(
            58,
        ) * t + t * t + number(600) * c - number(330) * ep2) * ask(calc, Calc::Powi(q, 6))
            / number(720))) + self.false_northing
    }

    /// Easting and northing of a place, in metres.
    pub fn forward<C: Fn(Calc) -> Scalar>(&self, lon_deg: Scalar, lat_deg: Scalar, calc: &C) -> (r: (
        Scalar,
        Scalar,
    ))
        requires
            is_function(*calc),
        ensures
            r == self.plane(*calc, lon_deg, lat_deg),
    {
        let a: Scalar = self.ellipsoid.a;
        let e2: Scalar = self.ellipsoid.e2();
        let ep2: Scalar = self.ellipsoid.e_prime2();
        let phi: Scalar = to_radians(lat_deg);
        let lam: Scalar = to_radians(lon_deg - self.central_meridian);
        let cos_phi: Scalar = ask(calc, Calc::Cos(phi));
        let sin_phi: Scalar = ask(calc, Calc::Sin(phi));
        let tan_phi: Scalar = ask(calc, Calc::Tan(phi));
        let n: Scalar = a / (number(1) - e2 * sin_phi * sin_phi).sqrt();
        let t: Scalar = tan_phi * tan_phi;
        let c: Scalar = ep2 * cos_phi * cos_phi;
        let q: Scalar = lam * cos_phi;
        let m: Scalar = find_meridian(calc, a, e2, phi);
        (
            self.find_east(calc, n, t, c, q, ep2),
            self.find_north(calc, m, n * tan_phi, t, c, q, ep2),
        )
    }

    /// Latitude whose meridian is as long as a northing, after `k` corrections of a
    /// first guess.
    pub open spec fn footpoint<C: Fn(Calc) -> Scalar>(self, calc: C, y: Scalar, k: int) -> Scalar
        decreases k,
    {
        let a = self.ellipsoid.a;
        let e2 = self.ellipsoid.eccentricity2();
        if k <= 0 {
            y / (self.scale_factor * a * meridian_share(e2))
        } else {
            let phi = self.footpoint(calc, y, k - 1);
            phi + (y - self.scale_factor * meridian_m(calc, a, e2, phi)) / (a * meridian_share(e2))
        }
    }

    fn find_footpoint<C: Fn(Calc) -> Scalar>(&self, calc: &C, y: Scalar) -> (r: Scalar)
        requires
            is_function(*calc),
        ensures
            r == self.footpoint(*calc, y, 8),
    {
        let a: Scalar = self.ellipsoid.a;
        let e2: Scalar = self.ellipsoid.e2();
        let share: Scalar = find_meridian_share(e2);
        let mut phi: Scalar = y / (self.scale_factor * a * share);
        let mut k: u8 = 0;
        while k < 8
            invariant
                is_function(*calc),
                a == self.ellipsoid.a,
                e2 == self.ellipsoid.eccentricity2(),
                share == meridian_share(e2),
                k <= 8,
                phi == self.footpoint(*calc, y, k as int),
            decreases 8 - k,
        {
            let m: Scalar = find_meridian(calc, a, e2, phi);
            phi = phi + (y - self.scale_factor * m) / (a * share);
            k = k + 1;
        }
        phi
    }

    /// Place of a point of the plane.
    pub open spec fn ground<C: Fn(Calc) -> Scalar>(self, calc: C, easting: Scalar, northing: Scalar) -> (
        Scalar,
        Scalar,
    ) {
        let a = self.ellipsoid.a;
        let e2 = self.ellipsoid.eccentricity2();
        let ep2 = e2 / (whole(1) - e2);
        let x = easting - self.false_easting;
        let phi1 = self.footpoint(calc, northing - self.false_northing, 8);
        let sin1 = image(calc, Calc::Sin(phi1));
        let cos1 = image(calc, Calc::Cos(phi1));
        let tan1 = image(calc, Calc::Tan(phi1));
        let n1 = across_m(a, e2, sin1);
        let r1 = a * (whole(1) - e2) / image(
            calc,
            Calc::Powf(whole(1) - e2 * sin1 * sin1, frac(3, 2)),
        );
        let t1 = tan1 * tan1;
        let c1 = ep2 * cos1 * cos1;
        let d = x / (self.scale_factor * n1);
        let lam = back_lon(calc, t1, c1, d, ep2) / cos1;
        let phi = phi1 - (n1 * tan1 / r1) * back_lat(calc, t1, c1, d, ep2);
        (self.central_meridian + degrees(lam), degrees(phi))
    }

    /// Longitude and latitude of a point of the plane, in degrees.
    pub fn inverse<C: Fn(Calc) -> Scalar>(&self, easting: Scalar, northing: Scalar, calc: &C) -> (r: (
        Scalar,
        Scalar,
    ))
        requires
            is_function(*calc),
        ensures
            r == self.ground(*calc, easting, northing),
    {
        let a: Scalar = self.ellipsoid.a;
        let e2: Scalar = self.ellipsoid.e2();
        let ep2: Scalar = self.ellipsoid.e_prime2();
        let x: Scalar = easting - self.false_easting;
        let y: Scalar = northing - self.false_northing;
        let phi1: Scalar = self.find_footpoint(calc, y);
        let sin1: Scalar = ask(calc, Calc::Sin(phi1));
        let cos1: Scalar = ask(calc, Calc::Cos(phi1));
        let tan1: Scalar = ask(calc, Calc::Tan(phi1));
        let n1: Scalar = a / (number(1) - e2 * sin1 * sin1).sqrt();
        let r1: Scalar = a * (number(1) - e2) / ask(
            calc,
            Calc::Powf(number(1) - e2 * sin1 * sin1, ratio(3, 2)),
        );
        let t1: Scalar = tan1 * tan1;
        let c1: Scalar = ep2 * cos1 * cos1;
        let d: Scalar = x / (self.scale_factor * n1);
        let phi: Scalar = phi1 - (n1 * tan1 / r1) * find_back_lat(calc, t1, c1, d, ep2);
        let lam: Scalar = find_back_lon(calc, t1, c1, d, ep2) / cos1;
        (self.central_meridian + to_degrees(lam), to_degrees(phi))
    }
}

/// Series that takes the latitude back from the footpoint.
pub open spec fn back_lat<C: Fn(Calc) -> Scalar>(
    calc: C,
    t1: Scalar,
    c1: Scalar,
    d: Scalar,
    ep2: Scalar,
) -> Scalar {
    d * d / whole(2) - (whole(5) + whole(3) * t1 + whole(10) * c1 - whole(4) * c1 * c1 - whole(9)
        * ep2) * image(calc, Calc::Powi(d, 4)) / whole(24) + (whole(61) + whole(90) * t1 + whole(
        298,
    ) * c1 + whole(45) * t1 * t1 - whole(252) * ep2 - whole(3) * c1 * c1) * image(
        calc,
        Calc::Powi(d, 6),
    ) / whole(720)
}

fn find_back_lat<C: Fn(Calc) -> Scalar>(
    calc: &C,
    t1: Scalar,
    c1: Scalar,
    d: Scalar,
    ep2: Scalar,
) -> (r: Scalar)
    requires
        is_function(*calc),
    ensures
        r == back_lat(*calc, t1, c1, d, ep2),
{
    d * d / number(2) - (number(5) + number(3) * t1 + number(10) * c1 - number(4) * c1 * c1 - number(
        9,
    ) * ep2) * ask(calc, Calc::Powi(d, 4)) / number(24) + (number(61) + number(90) * t1 + number(
        298,
    ) * c1 + number(45) * t1 * t1 - number(252) * ep2 - number(3) * c1 * c1) * ask(
        calc,
        Calc::Powi(d, 6),
    ) / number(720)
}

/// Series that takes the longitude back from the footpoint.
pub open spec fn back_lon<C: Fn(Calc) -> Scalar>(
    calc: C,
    t1: Scalar,
    c1: Scalar,
    d: Scalar,
    ep2: Scalar,
) -> Scalar {
    d - (whole(1) + whole(2) * t1 + c1) * image(calc, Calc::Powi(d, 3)) / whole(6) + (whole(5)
        - whole(2) * c1 + whole(28) * t1 - whole(3) * c1 * c1 + whole(8) * ep2 + whole(24) * t1
        * t1) * image(calc, Calc::Powi(d, 5)) / whole(120)
}

fn find_back_lon<C: Fn(Calc) -> Scalar>(
    calc: &C,
    t1: Scalar,
    c1: Scalar,
    d: Scalar,
    ep2: Scalar,
) -> (r: Scalar)
    requires
        is_function(*calc),
    ensures
        r == back_lon(*calc, t1, c1, d, ep2),
{
    d - (number(1) + number(2) * t1 + c1) * ask(calc, Calc::Powi(d, 3)) / number(6) + (number(5)
        - number(2) * c1 + number(28) * t1 - number(3) * c1 * c1 + number(8) * ep2 + number(24) * t1
        * t1) * ask(calc, Calc::Powi(d, 5)) / number(120)
}

/// Radius of the sphere, in metres.
pub open spec fn sphere_m() -> Scalar {
    whole(6_378_137)
}

impl WebMercator {
    /// Where a place lies in the plane; latitudes count up to 85.06 degrees.
    pub open spec fn plane<C: Fn(Calc) -> Scalar>(calc: C, lon: Scalar, lat: Scalar) -> (
        Scalar,
        Scalar,
    ) {
        let phi = radians(lat.clamped(frac(8506, 100).opposite(), frac(8506, 100)));
        (
            sphere_m() * radians(lon),
            sphere_m() * image(
                calc,
                Calc::Ln(image(calc, Calc::Tan((Scalar { bits: EIGHTH_BITS }) + phi / whole(2)))),
            ),
        )
    }

    /// Place of a point of the plane.
    pub open spec fn ground<C: Fn(Calc) -> Scalar>(calc: C, x: Scalar, y: Scalar) -> (
        Scalar,
        Scalar,
    ) {
        (
            degrees(x / sphere_m()),
            degrees(
                whole(2) * image(calc, Calc::Atan(image(calc, Calc::Exp(y / sphere_m()))))
                    - Scalar { bits: QUARTER_BITS },
            ),
        )
    }

    /// Where a place lies in the plane, in metres.
    pub fn forward<C: Fn(Calc) -> Scalar>(lon_deg: Scalar, lat_deg: Scalar, calc: &C) -> (r: (
        Scalar,
        Scalar,
    ))
        requires
            is_function(*calc),
        ensures
            r == WebMercator::plane(*calc, lon_deg, lat_deg),
    {
        let most: Scalar = ratio(8506, 100);
        let phi: Scalar = to_radians(lat_deg.clamp(&most.neg(), &most));
        let radius: Scalar = number(6_378_137);
        let tan: Scalar = ask(
            calc,
            Calc::Tan(Scalar { bits: EIGHTH_BITS } + phi / number(2)),
        );
        (radius * to_radians(lon_deg), radius * ask(calc, Calc::Ln(tan)))
    }

    /// Longitude and latitude of a point of the plane, in degrees.
    pub fn inverse<C: Fn(Calc) -> Scalar>(x: Scalar, y: Scalar, calc: &C) -> (r: (Scalar, Scalar))
        requires
            is_function(*calc),
        ensures
            r == WebMercator::ground(*calc, x, y),
    {
        let radius: Scalar = number(6_378_137);
        let up: Scalar = ask(calc, Calc::Exp(y / radius));
        let lat: Scalar = number(2) * ask(calc, Calc::Atan(up)) - Scalar { bits: QUARTER_BITS };
        (to_degrees(x / radius), to_degrees(lat))
    }
}

/// East and north of a place nearby, on a sphere.
#[derive(Clone, Copy, Debug)]
pub struct EnuFrame {
    pub origin: Geo,
}

impl EnuFrame {
    /// Metres east and north of the origin.
    pub open spec fn plane<C: Fn(Calc) -> Scalar>(self, calc: C, p: Geo) -> (Scalar, Scalar) {
        (
            radians(p.lon - self.origin.lon) * sphere_m() * image(
                calc,
                Calc::Cos(radians(self.origin.lat)),
            ),
            radians(p.lat - self.origin.lat) * sphere_m(),
        )
    }

    /// Place so many metres east and north of the origin.
    pub open spec fn ground<C: Fn(Calc) -> Scalar>(self, calc: C, east: Scalar, north: Scalar) -> Geo {
        let cos_lat = image(calc, Calc::Cos(radians(self.origin.lat))).larger(
            frac(1, 1_000_000_000),
        );
        Geo {
            lon: self.origin.lon + degrees(east / (sphere_m() * cos_lat)),
            lat: self.origin.lat + degrees(north / sphere_m()),
        }
    }

    pub fn new(origin: Geo) -> (r: EnuFrame)
        ensures
            r.origin == origin,
    {
        EnuFrame { origin }
    }

    pub fn to_enu<C: Fn(Calc) -> Scalar>(&self, p: &Geo, calc: &C) -> (r: (Scalar, Scalar))
        requires
            is_function(*calc),
        ensures
            r == self.plane(*calc, *p),
    {
        let radius: Scalar = number(6_378_137);
        let north: Scalar = to_radians(p.lat - self.origin.lat) * radius;
        let cos_lat: Scalar = ask(calc, Calc::Cos(to_radians(self.origin.lat)));
        (to_radians(p.lon - self.origin.lon) * radius * cos_lat, north)
    }

    pub fn from_enu<C: Fn(Calc) -> Scalar>(&self, east: Scalar, north: Scalar, calc: &C) -> (r: Geo)
        requires
            is_function(*calc),
        ensures
            r == self.ground(*calc, east, north),
    {
        let radius: Scalar = number(6_378_137);
        let lat: Scalar = self.origin.lat + to_degrees(north / radius);
        let cos_lat: Scalar = ask(calc, Calc::Cos(to_radians(self.origin.lat))).max(
            &ratio(1, 1_000_000_000),
        );
        let lon: Scalar = self.origin.lon + to_degrees(east / (radius * cos_lat));
        Geo { lon, lat }
    }
}

impl ProjectionCodec {
    /// Where a place lies in the projection.
    pub open spec fn plane<C: Fn(Calc) -> Scalar>(self, calc: C, lon: Scalar, lat: Scalar) -> (
        Scalar,
        Scalar,
    ) {
        match self {
            ProjectionCodec::LonLat => (lon, lat),
            ProjectionCodec::Utm(tm) | ProjectionCodec::Gk3(tm) => tm.plane(calc, lon, lat),
            ProjectionCodec::WebMercator => WebMercator::plane(calc, lon, lat),
        }
    }

    /// Place of a point of the projection.
    pub open spec fn ground<C: Fn(Calc) -> Scalar>(self, calc: C, x: Scalar, y: Scalar) -> (
        Scalar,
        Scalar,
    ) {
        match self {
            ProjectionCodec::LonLat => (x, y),
            ProjectionCodec::Utm(tm) | ProjectionCodec::Gk3(tm) => tm.ground(calc, x, y),
            ProjectionCodec::WebMercator => WebMercator::ground(calc, x, y),
        }
    }

    pub fn forward<C: Fn(Calc) -> Scalar>(&self, lon_deg: Scalar, lat_deg: Scalar, calc: &C) -> (r: (
        Scalar,
        Scalar,
    ))
        requires
            is_function(*calc),
        ensures
            r == self.plane(*calc, lon_deg, lat_deg),
    {
        match self {
            ProjectionCodec::LonLat => (lon_deg, lat_deg),
            ProjectionCodec::Utm(tm) => tm.forward(lon_deg, lat_deg, calc),
            ProjectionCodec::Gk3(tm) => tm.forward(lon_deg, lat_deg, calc),
            ProjectionCodec::WebMercator => WebMercator::forward(lon_deg, lat_deg, calc),
        }
    }

    pub fn inverse<C: Fn(Calc) -> Scalar>(&self, x: Scalar, y: Scalar, calc: &C) -> (r: (
        Scalar,
        Scalar,
    ))
        requires
            is_function(*calc),
        ensures
            r == self.ground(*calc, x, y),
    {
        match self {
            ProjectionCodec::LonLat => (x, y),
            ProjectionCodec::Utm(tm) => tm.inverse(x, y, calc),
            ProjectionCodec::Gk3(tm) => tm.inverse(x, y, calc),
            ProjectionCodec::WebMercator => WebMercator::inverse(x, y, calc),
        }
    }
}

/// Without a projection, a place comes back as it went.
pub proof fn law_lonlat_round_trip<C: Fn(Calc) -> Scalar>(calc: C, lon: Scalar, lat: Scalar)
    ensures
        ({
            let p = ProjectionCodec::LonLat.plane(calc, lon, lat);
            ProjectionCodec::LonLat.ground(calc, p.0, p.1) == (lon, lat)
        }),
{
}

} // verus!
