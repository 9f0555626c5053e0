use aircraft_router_planner::coord::{
    Datum, Ellipsoid, Geo, OutputProjection, ProjectionCodec, TransverseMercator, VerticalDatum,
    WebMercator,
};
use aircraft_router_planner::error::InputInvalidReason;
use aircraft_router_planner::oracle::Calc;
use aircraft_router_planner::projection::EnuFrame;
use aircraft_router_planner::scalar::Scalar;
use geo::{Distance, Geodesic};

fn s(x: f64) -> Scalar {
    Scalar { bits: x.to_bits() }
}

fn f(x: Scalar) -> f64 {
    f64::from_bits(x.bits)
}

fn calc(q: Calc) -> Scalar {
    s(match q {
        Calc::Sin(x) => f(x).sin(),
        Calc::Cos(x) => f(x).cos(),
        Calc::Tan(x) => f(x).tan(),
        Calc::Asin(x) => f(x).asin(),
        Calc::Acos(x) => f(x).acos(),
        Calc::Atan(x) => f(x).atan(),
        Calc::Atan2(y, x) => f(y).atan2(f(x)),
        Calc::Ln(x) => f(x).ln(),
        Calc::Exp(x) => f(x).exp(),
        Calc::Powi(x, n) => f(x).powi(n),
        Calc::Powf(x, y) => f(x).powf(f(y)),
        Calc::Geodesic(a, b) => Geodesic.distance(
            geo::Point::new(f(a.lon), f(a.lat)),
            geo::Point::new(f(b.lon), f(b.lat)),
        ),
    })
}

fn place(lon: f64, lat: f64) -> Geo {
    Geo::new(s(lon), s(lat)).unwrap()
}

#[test]
fn geo_rejects_invalid() {
    assert!(Geo::new(s(116.0), s(39.0)).is_ok());
    assert_eq!(Geo::new(s(f64::NAN), s(39.0)), Err(InputInvalidReason::IllegalCoordinate));
    assert_eq!(Geo::new(s(181.0), s(39.0)), Err(InputInvalidReason::IllegalCoordinate));
    assert_eq!(Geo::new(s(116.0), s(-91.0)), Err(InputInvalidReason::IllegalCoordinate));
    assert_eq!(Geo::new(s(116.0), s(f64::INFINITY)), Err(InputInvalidReason::IllegalCoordinate));
}

#[test]
fn geo_takes_the_edges() {
    assert!(Geo::new(s(180.0), s(90.0)).is_ok());
    assert!(Geo::new(s(-180.0), s(-90.0)).is_ok());
    assert!(Geo::new(s(180.00000000000003), s(0.0)).is_err());
    assert!(Geo::new(s(0.0), s(90.00000000000001)).is_err());
}

#[test]
fn tm_forward_inverse_roundtrip() {
    let tm = TransverseMercator::utm(Ellipsoid::wgs84(), s(116.0));
    for (lon, lat) in [(116.397, 39.909), (113.5, 30.0), (120.0, 45.0), (116.397, 40.221)] {
        let (x, y) = tm.forward(s(lon), s(lat), &calc);
        let (lon2, lat2) = tm.inverse(x, y, &calc);
        assert!((lon - f(lon2)).abs() < 1e-7, "lon drift {} vs {}", lon, f(lon2));
        assert!((lat - f(lat2)).abs() < 1e-7, "lat drift {} vs {}", lat, f(lat2));
    }
}

#[test]
fn utm_zone_calculation() {
    assert_eq!(TransverseMercator::utm_zone(s(116.397)), 50);
    assert_eq!(TransverseMercator::utm_zone(s(-179.0)), 1);
    assert_eq!(TransverseMercator::utm_zone(s(179.0)), 60);
}

#[test]
fn utm_zone_is_kept_in_range() {
    assert_eq!(TransverseMercator::utm_zone(s(180.0)), 60);
    assert_eq!(TransverseMercator::utm_zone(s(-180.0)), 1);
    assert_eq!(TransverseMercator::utm_zone(s(-500.0)), 1);
    assert_eq!(TransverseMercator::utm_zone(s(f64::INFINITY)), 60);
}

#[test]
fn beijing_utm_zone50_range() {
    let tm = TransverseMercator::utm(Ellipsoid::wgs84(), s(116.397));
    let (x, y) = tm.forward(s(116.397), s(39.909), &calc);
    assert!((440_000.0..455_000.0).contains(&f(x)), "x={}", f(x));
    assert!((4_415_000.0..4_425_000.0).contains(&f(y)), "y={}", f(y));
}

#[test]
fn gk3_beijing_zone40_range() {
    let tm = TransverseMercator::gk3(Ellipsoid::cgcs2000(), 40);
    let (x, y) = tm.forward(s(116.397), s(39.909), &calc);
    assert!((185_000.0..200_000.0).contains(&f(x)), "x={}", f(x));
    assert!((4_420_000.0..4_430_000.0).contains(&f(y)), "y={}", f(y));
}

#[test]
fn web_mercator_beijing() {
    let (x, y) = WebMercator::forward(s(116.397), s(39.909), &calc);
    assert!((f(x) - 12_957_254.8).abs() < 1.0, "x={}", f(x));
    assert!((f(y) - 4_852_727.2).abs() < 1.0, "y={}", f(y));
    let (lon, lat) = WebMercator::inverse(x, y, &calc);
    assert!((f(lon) - 116.397).abs() < 1e-9);
    assert!((f(lat) - 39.909).abs() < 1e-9);
}

#[test]
fn web_mercator_is_machine_arithmetic() {
    let (x, y) = WebMercator::forward(s(116.397), s(89.0), &calc);
    let r = 6_378_137.0_f64;
    assert_eq!(f(x), r * 116.397_f64.to_radians());
    let lat = 85.06_f64.to_radians();
    assert_eq!(f(y), r * (std::f64::consts::FRAC_PI_4 + lat / 2.0).tan().ln());
}

#[test]
fn datum_epsg_codes() {
    assert_eq!(Datum::Wgs84.epsg(), 4326);
    assert_eq!(Datum::Cgcs2000.epsg(), 4490);
}

#[test]
fn ellipsoids_are_those_of_their_datum() {
    let w = Datum::Wgs84.ellipsoid();
    assert_eq!((w.name, f(w.a), f(w.inv_f)), ("WGS 84", 6378137.0, 298.257223563));
    let c = Datum::Cgcs2000.ellipsoid();
    assert_eq!((c.name, f(c.a), f(c.inv_f)), ("CGCS2000", 6378137.0, 298.257222101));
    let flat: f64 = 1.0 / 298.257223563;
    assert_eq!(f(w.b()), 6378137.0 * (1.0 - flat));
    assert_eq!(f(w.e2()), flat * (2.0 - flat));
    let e2 = flat * (2.0 - flat);
    assert_eq!(f(w.e_prime2()), e2 / (1.0 - e2));
    assert_eq!(Ellipsoid::grs80().name, "GRS 1980");
}

#[test]
fn enu_roundtrip() {
    let origin = place(116.397, 39.909);
    let frame = EnuFrame::new(origin);
    let p = place(116.50, 40.0);
    let (e, n) = frame.to_enu(&p, &calc);
    let back = frame.from_enu(e, n, &calc);
    assert!((f(back.lon) - f(p.lon)).abs() < 1e-7, "lon drift {}", f(back.lon) - f(p.lon));
    assert!((f(back.lat) - f(p.lat)).abs() < 1e-7, "lat drift {}", f(back.lat) - f(p.lat));
}

#[test]
fn codecs_forward_to_their_projection() {
    let anchor = place(116.0, 39.0);
    let wgs = Ellipsoid::wgs84();
    let plain = ProjectionCodec::new(OutputProjection::LonLat, wgs, &anchor);
    let (x, y) = plain.forward(s(116.5), s(39.5), &calc);
    assert_eq!((f(x), f(y)), (116.5, 39.5));
    let (x, y) = plain.inverse(x, y, &calc);
    assert_eq!((f(x), f(y)), (116.5, 39.5));
    // The zone that was asked for counts, not that of the anchor.
    let utm = ProjectionCodec::new(OutputProjection::Utm(51), wgs, &anchor);
    let mut tm = TransverseMercator::utm(wgs, s(116.0));
    tm.central_meridian = s(123.0);
    assert_eq!(utm.forward(s(116.5), s(39.5), &calc), tm.forward(s(116.5), s(39.5), &calc));
    let gk = ProjectionCodec::new(OutputProjection::Gk3(39), wgs, &anchor);
    let tm = TransverseMercator::gk3(wgs, 39);
    assert_eq!(gk.inverse(s(5.0e5), s(4.4e6), &calc), tm.inverse(s(5.0e5), s(4.4e6), &calc));
    let web = ProjectionCodec::new(OutputProjection::WebMercator, wgs, &anchor);
    assert_eq!(
        web.forward(s(116.5), s(39.5), &calc),
        WebMercator::forward(s(116.5), s(39.5), &calc)
    );
}

#[test]
fn distances_follow_the_ellipsoid() {
    // One degree of longitude on the equator is a 360th of its length.
    let d = f(place(0.0, 0.0).distance_m(&place(1.0, 0.0), &calc));
    assert!((d - 111_319.490793).abs() < 1e-3, "d={d}");
    assert_eq!(f(place(1.0, 2.0).distance_m(&place(1.0, 2.0), &calc)), 0.0);
}

#[test]
fn projection_labels() {
    assert_eq!(OutputProjection::LonLat.as_str(), "lonlat");
    assert_eq!(OutputProjection::Utm(50).as_str(), "utm50-n");
    assert_eq!(OutputProjection::Gk3(40).as_str(), "gk3-40");
    assert_eq!(OutputProjection::Gk3(7).as_str(), "gk3-7");
    assert_eq!(OutputProjection::WebMercator.as_str(), "web_mercator");
    assert_eq!(VerticalDatum::Ellipsoid.as_str(), "ellipsoid");
    assert_eq!(VerticalDatum::Egm96.as_str(), "egm96");
}

#[test]
fn the_central_meridian_comes_back() {
    for lon in [3.0, 117.0, -177.0] {
        let tm = TransverseMercator::utm(Ellipsoid::wgs84(), s(lon));
        assert_eq!(f(tm.central_meridian), lon);
        for lat in [-89.0, -60.0, -33.3, -0.001, 0.0, 12.5, 45.0, 59.999, 84.0] {
            let (x, y) = tm.forward(s(lon), s(lat), &calc);
            assert_eq!(f(x), 500_000.0);
            let (back_lon, back_lat) = tm.inverse(x, y, &calc);
            assert_eq!(f(back_lon), lon);
            assert!((f(back_lat) - lat).abs() < 1e-7, "{} {lat}", f(back_lat));
        }
    }
}
