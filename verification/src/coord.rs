//! Coordinates, reference ellipsoids and the choice of an output projection.

use crate::error::InputInvalidReason;
use crate::numeric::{frac, number, ratio, whole};
use crate::scalar::{units, Scalar};
use crate::text::{append_number, decimal};
use vstd::prelude::*;

verus! {

/// An ellipsoid of revolution.
#[derive(Clone, Copy, Debug)]
pub struct Ellipsoid {
    pub name: &'static str,
    /// Semi-major axis in metres.
    pub a: Scalar,
    /// Inverse flattening.
    pub inv_f: Scalar,
}

impl Ellipsoid {
    /// EPSG:4326, WGS 84.
    pub fn wgs84() -> (r: Ellipsoid)
        ensures
            r.name@ == "WGS 84"@,
            r.a == whole(6_378_137),
            r.inv_f == frac(298_257_223_563, 1_000_000_000),
    {
        Ellipsoid {
            name: "WGS 84",
            a: number(6_378_137),
            inv_f: ratio(298_257_223_563, 1_000_000_000),
        }
    }

    /// EPSG:4490, CGCS2000.
    pub fn cgcs2000() -> (r: Ellipsoid)
        ensures
            r.name@ == "CGCS2000"@,
            r.a == whole(6_378_137),
            r.inv_f == frac(298_257_222_101, 1_000_000_000),
    {
        Ellipsoid {
            name: "CGCS2000",
            a: number(6_378_137),
            inv_f: ratio(298_257_222_101, 1_000_000_000),
        }
    }

    /// GRS 1980, of the same shape as CGCS2000.
    pub fn grs80() -> (r: Ellipsoid)
        ensures
            r.name@ == "GRS 1980"@,
            r.a == whole(6_378_137),
            r.inv_f == frac(298_257_222_101, 1_000_000_000),
    {
        Ellipsoid {
            name: "GRS 1980",
            a: number(6_378_137),
            inv_f: ratio(298_257_222_101, 1_000_000_000),
        }
    }

    /// First eccentricity squared, `f (2 - f)` for the flattening `f`.
    pub open spec fn eccentricity2(self) -> Scalar {
        let f = whole(1) / self.inv_f;
        f * (whole(2) - f)
    }

    /// Semi-minor axis in metres.
    pub fn b(&self) -> (r: Scalar)
        ensures
            r == self.a * (whole(1) - whole(1) / self.inv_f),
    {
        self.a * (number(1) - number(1) / self.inv_f)
    }

    pub fn e2(&self) -> (r: Scalar)
        ensures
            r == self.eccentricity2(),
    {
        let f: Scalar = number(1) / self.inv_f;
        f * (number(2) - f)
    }

    /// Second eccentricity squared.
    pub fn e_prime2(&self) -> (r: Scalar)
        ensures
            r == self.eccentricity2() / (whole(1) - self.eccentricity2()),
    {
        self.e2() / (number(1) - self.e2())
    }
}

/// The geodetic datum of the input.
#[derive(Clone, Copy, Debug, PartialEq, Eq, Structural)]
pub enum Datum {
    Wgs84,
    Cgcs2000,
}

impl Datum {
    pub fn ellipsoid(&self) -> (r: Ellipsoid)
        ensures
            r.name@ == (match *self {
                Datum::Wgs84 => "WGS 84"@,
                Datum::Cgcs2000 => "CGCS2000"@,
            }),
            r.a == whole(6_378_137),
            r.inv_f == (match *self {
                Datum::Wgs84 => frac(298_257_223_563, 1_000_000_000),
                Datum::Cgcs2000 => frac(298_257_222_101, 1_000_000_000),
            }),
    {
        match self {
            Datum::Wgs84 => Ellipsoid::wgs84(),
            Datum::Cgcs2000 => Ellipsoid::cgcs2000(),
        }
    }

    /// The EPSG code.
    pub fn epsg(&self) -> (r: u32)
        ensures
            r == (match *self {
                Datum::Wgs84 => 4326u32,
                Datum::Cgcs2000 => 4490u32,
            }),
    {
        match self {
            Datum::Wgs84 => 4326,
            Datum::Cgcs2000 => 4490,
        }
    }
}

/// A place on the ground, in degrees.
#[derive(Clone, Copy, Debug, PartialEq, Eq, Structural)]
pub struct Geo {
    pub lon: Scalar,
    pub lat: Scalar,
}

/// Whether the pair is a longitude in [-180, 180] and a latitude in [-90, 90].
pub open spec fn legal_coordinate(lon: Scalar, lat: Scalar) -> bool {
    &&& lon.finite() && lat.finite()
    &&& -units(180) <= lon.value() <= units(180)
    &&& -units(90) <= lat.value() <= units(90)
}

impl Geo {
    /// The place at the given coordinates; refused if they are out of range or
    /// not finite.
    pub fn new(lon: Scalar, lat: Scalar) -> (r: Result<Geo, InputInvalidReason>)
        ensures
            legal_coordinate(lon, lat) ==> r == Ok::<Geo, InputInvalidReason>(Geo { lon, lat }),
            !legal_coordinate(lon, lat) ==> r == Err::<Geo, InputInvalidReason>(
                InputInvalidReason::IllegalCoordinate,
            ),
    {
        let half_turn: Scalar = Scalar::from_u32(180);
        let quarter_turn: Scalar = Scalar::from_u32(90);
        if !lon.is_finite() || !lat.is_finite() || lon.lt(&half_turn.neg()) || half_turn.lt(&lon)
            || lat.lt(&quarter_turn.neg()) || quarter_turn.lt(&lat) {
            return Err(InputInvalidReason::IllegalCoordinate);
        }
        Ok(Geo { lon, lat })
    }
}

/// What heights are measured from.
#[derive(Clone, Copy, Debug, PartialEq, Eq, Structural)]
pub enum VerticalDatum {
    /// The ellipsoid; the built-in terrain uses it.
    Ellipsoid,
    /// The EGM96 geoid, which needs a table of offsets.
    Egm96,
}

impl VerticalDatum {
    pub fn as_str(&self) -> (s: &'static str)
        ensures
            s@ == (match *self {
                VerticalDatum::Ellipsoid => "ellipsoid"@,
                VerticalDatum::Egm96 => "egm96"@,
            }),
    {
        match self {
            VerticalDatum::Ellipsoid => "ellipsoid",
            VerticalDatum::Egm96 => "egm96",
        }
    }
}

/// A transverse Mercator projection.
#[derive(Clone, Copy, Debug)]
pub struct TransverseMercator {
    pub ellipsoid: Ellipsoid,
    /// In degrees.
    pub central_meridian: Scalar,
    pub scale_factor: Scalar,
    pub false_easting: Scalar,
    pub false_northing: Scalar,
}

/// The UTM zone of a longitude: six degrees wide, counted from the date line,
/// and kept between 1 and 60.
pub open spec fn utm_zone_of(lon: Scalar) -> int {
    let k = (lon + whole(180)) / whole(6);
    let zone = if k.nan() {
        1
    } else if k.infinite() {
        if k.negative() {
            1
        } else {
            60
        }
    } else {
        k.floor_value() + 1
    };
    if zone < 1 {
        1
    } else if zone > 60 {
        60
    } else {
        zone
    }
}

/// The central meridian of a UTM zone.
pub open spec fn utm_meridian(zone: int) -> Scalar {
    whole(183).opposite() + whole(6) * whole(zone)
}

impl TransverseMercator {
    pub fn utm_zone(lon_deg: Scalar) -> (r: u8)
        ensures
            r == utm_zone_of(lon_deg),
            1 <= r <= 60,
    {
        let k: Scalar = (lon_deg + number(180)) / number(6);
        let zone: i64 = k.floor_i64();
        if zone < 1 {
            1
        } else if zone >= 60 {
            60
        } else {
            (zone + 1) as u8
        }
    }

    /// The northern UTM projection of the zone that holds `lon_deg`.
    pub fn utm(ellipsoid: Ellipsoid, lon_deg: Scalar) -> (r: TransverseMercator)
        ensures
            r.ellipsoid == ellipsoid,
            r.central_meridian == utm_meridian(utm_zone_of(lon_deg)),
            r.scale_factor == frac(9996, 10000),
            r.false_easting == whole(500_000),
            r.false_northing == whole(0),
    {
        let zone: u8 = TransverseMercator::utm_zone(lon_deg);
        TransverseMercator {
            ellipsoid,
            central_meridian: number(183).neg() + number(6) * number(zone as u64),
            scale_factor: ratio(9996, 10000),
            false_easting: number(500_000),
            false_northing: number(0),
        }
    }

    /// The three-degree Gauss-Krueger projection of a zone.
    pub fn gk3(ellipsoid: Ellipsoid, zone: u8) -> (r: TransverseMercator)
        ensures
            r.ellipsoid == ellipsoid,
            r.central_meridian == whole(3) * whole(zone as int),
            r.scale_factor == whole(1),
            r.false_easting == whole(500_000),
            r.false_northing == whole(0),
    {
        TransverseMercator {
            ellipsoid,
            central_meridian: number(3) * number(zone as u64),
            scale_factor: number(1),
            false_easting: number(500_000),
            false_northing: number(0),
        }
    }
}

/// The spherical web projection, EPSG:3857.
pub struct WebMercator;

/// The projection an answer is given in.
#[derive(Clone, Copy, Debug, PartialEq, Eq, Structural)]
pub enum OutputProjection {
    LonLat,
    Utm(u8),
    Gk3(u8),
    WebMercator,
}

impl OutputProjection {
    pub open spec fn label(self) -> Seq<char> {
        match self {
            OutputProjection::LonLat => "lonlat"@,
            OutputProjection::Utm(z) => "utm"@ + decimal(z as nat) + "-n"@,
            OutputProjection::Gk3(z) => "gk3-"@ + decimal(z as nat),
            OutputProjection::WebMercator => "web_mercator"@,
        }
    }

    pub fn as_str(&self) -> (s: String)
        ensures
            s@ == self.label(),
    {
        match self {
            OutputProjection::LonLat => "lonlat".to_owned(),
            OutputProjection::Utm(z) => {
                let mut s: String = "utm".to_owned();
                append_number(&mut s, *z as u64);
                s.append("-n");
                s
            },
            OutputProjection::Gk3(z) => {
                let mut s: String = "gk3-".to_owned();
                append_number(&mut s, *z as u64);
                s
            },
            OutputProjection::WebMercator => "web_mercator".to_owned(),
        }
    }
}

/// A projection with its parameters bound.
#[derive(Clone, Copy, Debug)]
pub enum ProjectionCodec {
    LonLat,
    Utm(TransverseMercator),
    Gk3(TransverseMercator),
    WebMercator,
}

impl ProjectionCodec {
    /// Binds the ellipsoid to a projection. A UTM projection takes the zone it
    /// was asked for, whatever zone the anchor lies in.
    pub fn new(proj: OutputProjection, ellipsoid: Ellipsoid, anchor: &Geo) -> (r: ProjectionCodec)
        ensures
            match proj {
                OutputProjection::LonLat => r is LonLat,
                OutputProjection::WebMercator => r is WebMercator,
                OutputProjection::Utm(z) => r matches ProjectionCodec::Utm(tm) && tm.ellipsoid
                    == ellipsoid && tm.central_meridian == utm_meridian(z as int)
                    && tm.scale_factor == frac(9996, 10000) && tm.false_easting == whole(500_000)
                    && tm.false_northing == whole(0),
                OutputProjection::Gk3(z) => r matches ProjectionCodec::Gk3(tm) && tm.ellipsoid
                    == ellipsoid && tm.central_meridian == whole(3) * whole(z as int)
                    && tm.scale_factor == whole(1) && tm.false_easting == whole(500_000)
                    && tm.false_northing == whole(0),
            },
    {
        match proj {
            OutputProjection::LonLat => ProjectionCodec::LonLat,
            OutputProjection::Utm(z) => {
                let mut tm: TransverseMercator = TransverseMercator::utm(ellipsoid, anchor.lon);
                tm.central_meridian = number(183).neg() + number(6) * number(z as u64);
                ProjectionCodec::Utm(tm)
            },
            OutputProjection::Gk3(z) => ProjectionCodec::Gk3(TransverseMercator::gk3(ellipsoid, z)),
            OutputProjection::WebMercator => ProjectionCodec::WebMercator,
        }
    }
}

} // verus!
