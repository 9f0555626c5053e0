use aircraft_router_planner::config::{AircraftProfile, Zone, ZoneShape, ZoneType};
use aircraft_router_planner::coord::Geo;
use aircraft_router_planner::cost::{shared_cost, to_single, vehicle_cost};
use aircraft_router_planner::field::{
    band_width, closed_for, ground_cost, radar_factor, shared_field, vehicle_field, walls_of,
};
use aircraft_router_planner::grid::{apply_inflation_and_band, dilate, wall_distances};
use aircraft_router_planner::ground::{find_vehicle_costs, lay_ground};
use aircraft_router_planner::mission::VehicleSpec;
use aircraft_router_planner::oracle::Calc;
use aircraft_router_planner::passage::Performance;
use aircraft_router_planner::region::{
    cell_lonlat, cell_m, count_inflation_cells, grid_for, lonlat_cell, region_of, Region,
};
use aircraft_router_planner::scalar::Scalar;
use aircraft_router_planner::terrain::Sample;
use geo::{Distance, Geodesic};

fn s(x: f64) -> Scalar {
    Scalar { bits: x.to_bits() }
}

fn f(x: Scalar) -> f64 {
    f64::from_bits(x.bits)
}

fn calc(q: Calc) -> Scalar {
    s(match q {
        Calc::Sin(x) => f(x).sin(),
        Calc::Cos(x) => f(x).cos(),
        Calc::Tan(x) => f(x).tan(),
        Calc::Asin(x) => f(x).asin(),
        Calc::Acos(x) => f(x).acos(),
        Calc::Atan(x) => f(x).atan(),
        Calc::Atan2(y, x) => f(y).atan2(f(x)),
        Calc::Ln(x) => f(x).ln(),
        Calc::Exp(x) => f(x).exp(),
        Calc::Powi(x, n) => f(x).powi(n),
        Calc::Powf(x, y) => f(x).powf(f(y)),
        Calc::Geodesic(a, b) => Geodesic.distance(
            geo::Point::new(f(a.lon), f(a.lat)),
            geo::Point::new(f(b.lon), f(b.lat)),
        ),
    })
}

type Terrain = fn((Scalar, Scalar)) -> Sample;

fn one_wall(grid: usize, r: usize, c: usize) -> Vec<bool> {
    let mut cells = vec![false; grid * grid];
    cells[r * grid + c] = true;
    cells
}

#[test]
fn walls_grow_by_rings() {
    let wide = dilate(&one_wall(7, 3, 3), 7, 2);
    for r in 0..7usize {
        for c in 0..7usize {
            let near = r.abs_diff(3) <= 2 && c.abs_diff(3) <= 2;
            assert_eq!(wide[r * 7 + c], near, "({r},{c})");
        }
    }
    // Growing twice is growing by the sum.
    let twice = dilate(&dilate(&one_wall(7, 0, 0), 7, 1), 7, 2);
    assert_eq!(twice, dilate(&one_wall(7, 0, 0), 7, 3));
}

#[test]
fn distances_count_king_moves() {
    let dist = wall_distances(&one_wall(9, 0, 0), 9);
    for r in 0..9usize {
        for c in 0..9usize {
            assert_eq!(dist[r * 9 + c] as usize, r.max(c));
        }
    }
    assert!(wall_distances(&vec![false; 4], 2).iter().all(|d| *d == u32::MAX));
}

#[test]
fn the_band_lies_beside_the_wall() {
    let field = apply_inflation_and_band(&one_wall(9, 4, 4), 9, 1, 2);
    for r in 0..9usize {
        for c in 0..9usize {
            let d = r.abs_diff(4).max(c.abs_diff(4));
            assert_eq!(field.walls[r * 9 + c], d <= 1);
            let band = if d == 2 || d == 3 { d as u32 - 1 } else { 0 };
            assert_eq!(field.band[r * 9 + c], band, "({r},{c})");
        }
    }
}

#[test]
fn ground_has_its_cost() {
    let cost = |g: Sample| ground_cost(g).map(f);
    assert_eq!(cost(Sample::Land(s(10.0))), Some(1.0));
    assert_eq!(cost(Sample::Water), Some(1.0));
    assert_eq!(cost(Sample::Lake(s(10.0))), Some(1.0));
    assert_eq!(cost(Sample::NoData), Some(5.0));
    assert_eq!(cost(Sample::OutOfBounds), Some(5.0));
    assert_eq!(cost(Sample::Forbidden), None);
}

#[test]
fn single_precision_rounds_like_the_machine() {
    let mut bits: u64 = 0x9e37_79b9_7f4a_7c15;
    for _ in 0..100_000 {
        bits = bits.wrapping_mul(6364136223846793005).wrapping_add(1442695040888963407);
        // Between 2^-126 and 2^129.
        let exponent = 1023 - 126 + (bits >> 33) % 255;
        let x = f64::from_bits((bits & 0x800f_ffff_ffff_ffff) | exponent << 52);
        assert_eq!(f(to_single(s(x))), x as f32 as f64, "{x:e}");
        assert_eq!(to_single(to_single(s(x))), to_single(s(x)));
    }
    assert_eq!(f(to_single(s(0.0))), 0.0);
    assert_eq!(f(to_single(s(f64::INFINITY))), f64::INFINITY);
    assert_eq!(f(to_single(s(1.0 + 2f64.powi(-24)))), 1.0);
    assert_eq!(f(to_single(s(1.0 + 3.0 * 2f64.powi(-24)))), 1.0 + 2f64.powi(-22));
}

#[test]
fn costs_follow_single_precision_arithmetic() {
    for width in 1..8u32 {
        for d in 0..10u32 {
            for radar in [None, Some(3.7f64), Some(1e39)] {
                let mut want = 5.0f32;
                if d >= 1 && d <= width {
                    let t = 1.0 - (d as f32 - 1.0) / width as f32;
                    want *= 1.0 + 0.5 * t;
                }
                if let Some(x) = radar {
                    want *= x as f32;
                }
                let got = shared_cost(Sample::NoData, false, d, width, radar.map(s));
                assert_eq!(f(got), want as f64);
                if want.is_finite() && d >= 1 && d <= width {
                    let t = 1.0 - (d as f32 - 1.0) / width as f32;
                    let again = vehicle_cost(got, false, Some(d), width);
                    assert_eq!(f(again), (want * (1.0 + 0.5 * t)) as f64);
                }
                assert_eq!(vehicle_cost(got, false, None, width), got);
            }
        }
    }
    let wall = shared_cost(Sample::Land(s(1.0)), true, 0, 3, None);
    assert_eq!(f(wall), f64::INFINITY);
    assert_eq!(f(shared_cost(Sample::Forbidden, false, 0, 3, None)), f64::INFINITY);
    assert_eq!(f(vehicle_cost(s(1.0), true, Some(0), 3)), f64::INFINITY);
}

#[test]
fn radars_cost_by_chance_and_depth() {
    let factor = |p: f64, u: f64| radar_factor(s(p), s(u), s(200.0)).map(f);
    assert_eq!(factor(0.0, 0.5), None);
    assert_eq!(factor(0.1, 1.5), Some(1.0 + 200.0 * (0.1 + 0.0)));
    assert_eq!(factor(0.1, 0.25), Some(1.0 + 200.0 * (0.1 + 0.75)));
}

fn vehicle(start: (f64, f64), target: (f64, f64)) -> VehicleSpec {
    VehicleSpec {
        id: "v".into(),
        start: Geo::new(s(start.0), s(start.1)).unwrap(),
        target: Geo::new(s(target.0), s(target.1)).unwrap(),
        alt_m: s(3000.0),
        profile: AircraftProfile::default(),
        mid_waypoints: vec![],
    }
}

#[test]
fn the_region_has_room_round_all_places() {
    let places = [
        ((115.0, 39.0), (116.5, 39.9)),
        ((-180.0, -90.0), (180.0, 90.0)),
        ((0.0, 0.0), (0.0, 0.0)),
        ((179.99, 12.3), (-3.2, 11.0)),
    ];
    for (a, b) in places {
        let v = vehicle(a, b);
        let target = v.target;
        let r = region_of(&vec![v], &target);
        for (lon, lat) in [a, b] {
            assert!(f(r.min_lon) < lon && lon < f(r.min_lon) + f(r.span_deg));
            assert!(f(r.min_lat) < lat && lat < f(r.min_lat) + f(r.span_deg));
        }
    }
    let v = vehicle((115.0, 39.0), (116.5, 39.9));
    let target = v.target;
    let r = region_of(&vec![v], &target);
    assert_eq!(f(r.min_lon), 115.0 - 0.15);
    assert_eq!(f(r.min_lat), 39.0 - 0.15);
    assert_eq!(f(r.span_deg), (116.5 - (115.0 - 0.15)) + 2.0 * 0.15);
}

fn square(span: f64) -> Region {
    Region { min_lon: s(115.0), min_lat: s(39.0), span_deg: s(span) }
}

#[test]
fn cells_and_places_correspond() {
    let r = square(2.0);
    for (row, col) in [(0, 0), (3, 7), (255, 255)] {
        let (lon, lat) = cell_lonlat(row, col, &r, 256);
        assert_eq!(f(lon), 115.0 + (col as f64 + 0.5) / 256.0 * 2.0);
        assert_eq!(lonlat_cell(lon, lat, &r, 256), (row, col));
    }
    assert_eq!(lonlat_cell(s(200.0), s(-80.0), &r, 256), (0, 255));
    assert_eq!(lonlat_cell(s(f64::NAN), s(39.0), &r, 256), (0, 0));
}

#[test]
fn the_middle_of_a_cell_leads_back_to_it() {
    for span in [0.010001, 0.3, 2.0, 7.3, 360.0, 1e300] {
        for (min_lon, min_lat) in [(-180.0, -90.0), (-0.1, 0.3), (115.2, 39.7), (180.0, 90.0)] {
            let r = Region { min_lon: s(min_lon), min_lat: s(min_lat), span_deg: s(span) };
            for grid in [1, 2, 7, 100, 1023, 1024] {
                for i in 0..grid {
                    let (row, col) = (i, (i * 7 + 3) % grid);
                    let (lon, lat) = cell_lonlat(row, col, &r, grid);
                    assert_eq!(lonlat_cell(lon, lat, &r, grid), (row, col));
                }
            }
        }
    }
}

fn polygon_wall() -> Zone {
    Zone {
        id: "w".into(),
        zone_type: ZoneType::NoFly,
        shape: ZoneShape::Polygon {
            vertices: vec![[s(115.2), s(39.2)], [s(115.4), s(39.2)], [s(115.3), s(39.4)]],
        },
        alt_min_m: None,
        alt_max_m: None,
    }
}

#[test]
fn the_grid_gets_finer_in_wide_regions() {
    assert_eq!(grid_for(256, &square(2.0), &vec![]), 256);
    assert_eq!(grid_for(1, &square(2.0), &vec![]), 8);
    let wide = (3.0f64 * 111.32 * 1000.0 / 1100.0).ceil() as usize;
    assert_eq!(grid_for(256, &square(3.0), &vec![]), wide);
    let finer = (3.0f64 * 111.32 * 1000.0 / 600.0).ceil() as usize;
    assert_eq!(grid_for(256, &square(3.0), &vec![polygon_wall()]), finer);
    assert_eq!(grid_for(256, &square(90.0), &vec![]), 1024);
}

#[test]
fn walls_are_widened_by_whole_cells() {
    let r = square(2.0);
    let cell = 2.0 * 111_320.0 / 256.0;
    assert_eq!(f(cell_m(&r, 256)), cell);
    assert_eq!(count_inflation_cells(&r, 256, s(5000.0)), (5000.0f64 / cell).ceil() as u64);
    let r = square(5.0);
    let cell: f64 = 5.0 * 111_320.0 / 256.0;
    let want = ((5000.0 + 0.71 * cell) / cell).ceil() as u64 + 1;
    assert_eq!(count_inflation_cells(&r, 256, s(5000.0)), want);
    assert_eq!(band_width(s(cell)), (1500.0 / cell).ceil() as u32);
    assert_eq!(band_width(s(0.0)), 1500);
}

fn low_band() -> Zone {
    Zone {
        id: "r".into(),
        zone_type: ZoneType::Restricted,
        shape: ZoneShape::Polygon {
            vertices: vec![[s(115.6), s(39.6)], [s(115.8), s(39.6)], [s(115.7), s(39.8)]],
        },
        alt_min_m: Some(s(0.0)),
        alt_max_m: Some(s(5000.0)),
    }
}

#[test]
fn a_vehicle_meets_the_shared_walls_and_its_own() {
    let zones = vec![polygon_wall(), low_band()];
    assert_eq!(walls_of(&zones), vec![true, false]);
    let r = square(1.0);
    let none: Option<&Terrain> = None;
    let shared = shared_field(&r, 32, none, &zones, 1, 2, &calc);
    assert!(shared.walls.iter().any(|w| *w));
    let v = vehicle((115.1, 39.1), (115.9, 39.9));
    let limits = |alt: f64| Performance {
        alt_m: s(alt),
        max_climb_deg: s(15.0),
        ceiling_m: None,
    };
    // A polygon cannot be passed below or above, so it is closed at its heights.
    let closed = closed_for(&zones, &v, &limits(3000.0), false, none, &calc);
    assert_eq!(closed, vec![false, true]);
    assert_eq!(closed_for(&zones, &v, &limits(6000.0), false, none, &calc), vec![false, false]);
    assert_eq!(closed_for(&zones, &v, &limits(6000.0), true, none, &calc), vec![true, true]);
    let own = vehicle_field(
        &r, 32, &zones, &closed, &shared.walls, 1, 2, none, false, s(3000.0), s(100.0), &calc,
    );
    assert!(own.band.is_some());
    for i in 0..32 * 32 {
        assert!(!shared.walls[i] || own.walls[i]);
    }
    let (row, col) = lonlat_cell(s(115.7), s(39.65), &r, 32);
    assert!(own.walls[row * 32 + col] && !shared.walls[row * 32 + col]);
    let free = vehicle_field(
        &r, 32, &zones, &vec![false, false], &shared.walls, 1, 2, none, false, s(6000.0), s(100.0), &calc,
    );
    assert!(free.band.is_none());
    assert_eq!(free.walls, shared.walls);
}

fn hill(place: (Scalar, Scalar)) -> Sample {
    if f(place.0) > 115.5 {
        Sample::Land(s(2000.0))
    } else {
        Sample::Land(s(100.0))
    }
}

#[test]
fn high_ground_is_closed_for_low_flights() {
    let r = square(1.0);
    let ground: Terrain = hill;
    let zones = vec![];
    let shared = shared_field(&r, 16, Some(&ground), &zones, 1, 2, &calc);
    assert!(shared.walls.iter().all(|w| !w));
    let field = |masked: bool, alt: f64| {
        vehicle_field(
            &r, 16, &zones, &vec![], &shared.walls, 1, 2, Some(&ground), masked, s(alt), s(100.0), &calc,
        )
        .walls
    };
    let low = field(true, 1000.0);
    for i in 0..256 {
        assert_eq!(low[i], i % 16 >= 8, "cell {i}");
    }
    assert!(field(true, 3000.0).iter().all(|w| !w));
    assert!(field(false, 1000.0).iter().all(|w| !w));
}

fn nowhere(_: (Scalar, Scalar)) -> Scalar {
    s(0.0)
}

fn far(_: (Scalar, Scalar, Scalar)) -> Scalar {
    s(f64::INFINITY)
}

#[test]
fn walls_and_closed_zones_cost_infinity() {
    let zones = vec![polygon_wall(), low_band()];
    let r = square(1.0);
    let none: Option<&Terrain> = None;
    let ground = lay_ground(&r, 32, 1, 2, &zones, s(200.0), none, &nowhere, &far, &calc);
    let shared = shared_field(&r, 32, none, &zones, 1, 2, &calc);
    assert_eq!(ground.walls, shared.walls);
    for i in 0..32 * 32 {
        let want = match (shared.walls[i], shared.band[i]) {
            (true, _) => f64::INFINITY,
            (false, 0) => 1.0,
            (false, d) => (1.0f32 + 0.5 * (1.0 - (d as f32 - 1.0) / 2.0)) as f64,
        };
        assert_eq!(f(ground.cost[i]), want, "cell {i}");
    }
    let costs = |closed: Vec<bool>, alt: f64| {
        find_vehicle_costs(
            &r, 32, &zones, &closed, &ground, none, true, s(alt), s(100.0), &calc,
        )
    };
    let open = costs(vec![false, false], 6000.0);
    assert_eq!(open, ground.cost);
    let shut = costs(vec![false, true], 3000.0);
    let (row, col) = lonlat_cell(s(115.7), s(39.65), &r, 32);
    assert_eq!(f(open[row * 32 + col]), 1.0);
    assert_eq!(f(shut[row * 32 + col]), f64::INFINITY);
    // A wall stays a wall at every height.
    for i in 0..32 * 32 {
        assert!(!ground.walls[i] || f(shut[i]).is_infinite());
        assert!(!ground.walls[i] || f(open[i]).is_infinite());
    }
}

fn watched(place: (Scalar, Scalar)) -> Scalar {
    s(if f(place.0) > 115.5 { 0.25 } else { 0.0 })
}

fn halfway(_: (Scalar, Scalar, Scalar)) -> Scalar {
    s(0.5)
}

#[test]
fn radars_raise_the_cost_of_the_cells_they_see() {
    let r = square(1.0);
    let lake: Terrain = |_| Sample::NoData;
    let zones = vec![];
    let ground = lay_ground(&r, 16, 1, 2, &zones, s(200.0), Some(&lake), &watched, &halfway, &calc);
    for i in 0..256 {
        let want = if i % 16 >= 8 { 5.0 * (1.0 + 200.0 * 0.75) } else { 5.0 };
        assert_eq!(f(ground.cost[i]), want, "cell {i}");
    }
}
