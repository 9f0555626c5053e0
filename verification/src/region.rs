//! The area of a search and its grid.

use crate::config::{DefaultParams, Zone, ZoneShape};
use crate::coord::Geo;
use crate::mission::VehicleSpec;
use crate::numeric::{frac, number, ratio, whole};
use crate::options::{planning_radius, smooth_options_for, SmoothOptions};
use crate::oracle::{is_function, Calc};
use crate::passage::infinity;
use crate::scalar::{Scalar, INFINITY_BITS, SIGN_BIT};
use vstd::arithmetic::div_mod::lemma_div_pos_is_pos;
use vstd::arithmetic::power2::{lemma_pow2_pos, pow2};
use vstd::prelude::*;

verus! {

/// A square of longitudes and latitudes.
#[derive(Clone, Copy, Debug, PartialEq, Eq, Structural)]
pub struct Region {
    pub min_lon: Scalar,
    pub min_lat: Scalar,
    /// Length of a side in degrees.
    pub span_deg: Scalar,
}

/// The least and the largest longitude and latitude of some places.
#[derive(Clone, Copy, Debug, PartialEq, Eq, Structural)]
pub struct Extent {
    pub min_lon: Scalar,
    pub max_lon: Scalar,
    pub min_lat: Scalar,
    pub max_lat: Scalar,
}

impl Extent {
    /// The extent of no place.
    pub open spec fn nothing() -> Extent {
        Extent {
            min_lon: infinity(),
            max_lon: infinity().opposite(),
            min_lat: infinity(),
            max_lat: infinity().opposite(),
        }
    }

    /// The extent with one more place.
    pub open spec fn with(self, g: Geo) -> Extent {
        Extent {
            min_lon: self.min_lon.smaller(g.lon),
            max_lon: self.max_lon.larger(g.lon),
            min_lat: self.min_lat.smaller(g.lat),
            max_lat: self.max_lat.larger(g.lat),
        }
    }

    fn empty() -> (r: Extent)
        ensures
            r == Extent::nothing(),
    {
        let inf: Scalar = Scalar { bits: INFINITY_BITS };
        Extent { min_lon: inf, max_lon: inf.neg(), min_lat: inf, max_lat: inf.neg() }
    }

    fn add(&mut self, g: &Geo)
        ensures
            *final(self) == old(self).with(*g),
    {
        self.min_lon = self.min_lon.min(&g.lon);
        self.max_lon = self.max_lon.max(&g.lon);
        self.min_lat = self.min_lat.min(&g.lat);
        self.max_lat = self.max_lat.max(&g.lat);
    }
}

/// The extent of the starts and targets of the first `k` vehicles.
pub open spec fn extent_of(specs: Seq<VehicleSpec>, k: int) -> Extent
    decreases k,
{
    if k <= 0 {
        Extent::nothing()
    } else {
        extent_of(specs, k - 1).with(specs[k - 1].start).with(specs[k - 1].target)
    }
}

/// The square to search: round all starts and targets, with a margin.
pub open spec fn search_region(specs: Seq<VehicleSpec>, target: Geo) -> Region {
    let e = extent_of(specs, specs.len() as int).with(target);
    let pad = frac(15, 100);
    let (min_lon, min_lat) = (e.min_lon - pad, e.min_lat - pad);
    Region {
        min_lon,
        min_lat,
        span_deg: (e.max_lon - min_lon).larger(e.max_lat - min_lat) + whole(2) * pad,
    }
}

pub fn region_of(specs: &Vec<VehicleSpec>, target: &Geo) -> (r: Region)
    ensures
        r == search_region(specs@, *target),
{
    let mut e: Extent = Extent::empty();
    let mut k: usize = 0;
    while k < specs.len()
        invariant
            k <= specs@.len(),
            e == extent_of(specs@, k as int),
        decreases specs.len() - k,
    {
        e.add(&specs[k].start);
        e.add(&specs[k].target);
        k = k + 1;
    }
    e.add(target);
    let pad: Scalar = ratio(15, 100);
    let min_lon: Scalar = e.min_lon - pad;
    let min_lat: Scalar = e.min_lat - pad;
    let span_deg: Scalar = (e.max_lon - min_lon).max(&(e.max_lat - min_lat)) + number(2) * pad;
    Region { min_lon, min_lat, span_deg }
}

impl Region {
    /// The middle of a cell of the grid.
    pub open spec fn cell_center(self, row: int, col: int, grid: int) -> (Scalar, Scalar) {
        let u = (whole(col) + frac(1, 2)) / whole(grid);
        let v = (whole(row) + frac(1, 2)) / whole(grid);
        (self.min_lon + u * self.span_deg, self.min_lat + v * self.span_deg)
    }

    /// The row and column of a place; outside the region those of the edge.
    pub open spec fn cell_of(self, lon: Scalar, lat: Scalar, grid: int) -> (int, int) {
        let g = whole(grid);
        (
            clipped((lat - self.min_lat) / self.span_deg * g, grid),
            clipped((lon - self.min_lon) / self.span_deg * g, grid),
        )
    }
}

/// A number cut down to a whole number from zero to one below the limit; zero
/// for a NaN.
pub open spec fn clipped(x: Scalar, limit: int) -> int {
    if x.nan() || x.negative() {
        0
    } else if x.infinite() || x.floor_value() >= limit {
        limit - 1
    } else {
        x.floor_value()
    }
}

fn clip(x: Scalar, limit: usize) -> (r: usize)
    requires
        1 <= limit <= i64::MAX,
    ensures
        r == clipped(x, limit as int),
        r < limit,
{
    if x.is_nan() || x.is_negative() {
        return 0;
    }
    if !x.is_finite() {
        return limit - 1;
    }
    let n: i64 = x.floor_i64();
    proof {
        lemma_pow2_pos(1074);
        lemma_div_pos_is_pos(x.value(), pow2(1074) as int);
    }
    if n as u64 >= limit as u64 {
        limit - 1
    } else {
        n as usize
    }
}

pub fn cell_lonlat(r: usize, c: usize, region: &Region, grid: usize) -> (p: (Scalar, Scalar))
    ensures
        p == region.cell_center(r as int, c as int, grid as int),
{
    let g: Scalar = number(grid as u64);
    let u: Scalar = (number(c as u64) + ratio(1, 2)) / g;
    let v: Scalar = (number(r as u64) + ratio(1, 2)) / g;
    (region.min_lon + u * region.span_deg, region.min_lat + v * region.span_deg)
}

pub fn lonlat_cell(lon: Scalar, lat: Scalar, region: &Region, grid: usize) -> (p: (usize, usize))
    requires
        1 <= grid <= i64::MAX,
    ensures
        (p.0 as int, p.1 as int) == region.cell_of(lon, lat, grid as int),
        p.0 < grid,
        p.1 < grid,
{
    let g: Scalar = number(grid as u64);
    let c: usize = clip((lon - region.min_lon) / region.span_deg * g, grid);
    let r: usize = clip((lat - region.min_lat) / region.span_deg * g, grid);
    (r, c)
}

/// Whether some zone is a wall with corners.
pub open spec fn has_cornered_wall(zones: Seq<Zone>) -> bool {
    exists|k: int|
        0 <= k < zones.len() && (#[trigger] zones[k]).wall() && zones[k].shape is Polygon
}

fn find_cornered_wall(zones: &Vec<Zone>) -> (r: bool)
    ensures
        r == has_cornered_wall(zones@),
{
    let mut k: usize = 0;
    while k < zones.len()
        invariant
            k <= zones@.len(),
            forall|j: int|
                0 <= j < k ==> !((#[trigger] zones@[j]).wall() && zones@[j].shape is Polygon),
        decreases zones.len() - k,
    {
        if zones[k].is_wall() {
            match &zones[k].shape {
                ZoneShape::Polygon { .. } => {
                    assert(zones@[k as int].wall());
                    return true;
                },
                ZoneShape::Circle { .. } => {},
            }
        }
        k = k + 1;
    }
    false
}

/// A length counted in steps, rounded up; zero for a NaN or a negative length.
pub open spec fn steps_up(x: Scalar) -> int {
    if x.nan() || x.negative() {
        0
    } else if x.infinite() || x.ceil_value() > SIGN_BIT {
        SIGN_BIT as int
    } else {
        x.ceil_value()
    }
}

/// Cells along a side that keep a wide region fine enough: 600 metres each where
/// a wall has corners, else 1100. A region up to 2.5 degrees asks for none.
pub open spec fn wanted_cells(region: Region, zones: Seq<Zone>) -> int {
    let cell = if has_cornered_wall(zones) {
        whole(600)
    } else {
        whole(1100)
    };
    if region.span_deg > frac(25, 10) {
        steps_up(region.span_deg * frac(11132, 100) * whole(1000) / cell)
    } else {
        0
    }
}

/// Cells along a side: as many as asked for and as the region wants, 8 to 1024.
pub open spec fn grid_cells(asked: int, region: Region, zones: Seq<Zone>) -> int {
    let wanted = wanted_cells(region, zones);
    let n = if asked < wanted {
        wanted
    } else {
        asked
    };
    if n < 8 {
        8
    } else if n > 1024 {
        1024
    } else {
        n
    }
}

pub fn grid_for(asked: usize, region: &Region, zones: &Vec<Zone>) -> (r: usize)
    ensures
        r == grid_cells(asked as int, *region, zones@),
        8 <= r <= 1024,
{
    let span_km: Scalar = region.span_deg * ratio(11132, 100);
    let cell: Scalar = if find_cornered_wall(zones) { number(600) } else { number(1100) };
    let wanted: u64 = if ratio(25, 10).lt(&region.span_deg) {
        (span_km * number(1000) / cell).ceil_u64()
    } else {
        0
    };
    let asked: u64 = asked as u64;
    let n: u64 = if asked < wanted { wanted } else { asked };
    if n < 8 {
        8
    } else if n > 1024 {
        1024
    } else {
        n as usize
    }
}

/// Room for a turn that a vehicle needs beside a wall, in metres: half its
/// planned radius, 2 to 10 kilometres.
pub open spec fn turning_room_m(v: VehicleSpec, params: DefaultParams) -> Scalar {
    (planning_radius(v.profile, params) * frac(5, 10)).clamped(whole(2000), whole(10_000))
}

/// The most room that one of the first `k` vehicles needs.
pub open spec fn most_room_m(specs: Seq<VehicleSpec>, params: DefaultParams, k: int) -> Scalar
    decreases k,
{
    if k <= 0 {
        whole(0)
    } else {
        most_room_m(specs, params, k - 1).larger(turning_room_m(specs[k - 1], params))
    }
}

/// How far walls are widened, in metres: by the most room that a vehicle needs.
pub fn inflation_for<C: Fn(Calc) -> Scalar>(
    specs: &Vec<VehicleSpec>,
    params: &DefaultParams,
    calc: &C,
) -> (r: Scalar)
    requires
        is_function(*calc),
    ensures
        r == most_room_m(specs@, *params, specs@.len() as int),
{
    let mut most: Scalar = number(0);
    let mut k: usize = 0;
    while k < specs.len()
        invariant
            is_function(*calc),
            k <= specs@.len(),
            most == most_room_m(specs@, *params, k as int),
        decreases specs.len() - k,
    {
        let (opts, _phys): (SmoothOptions, Scalar) = smooth_options_for(
            &specs[k].profile,
            params,
            calc,
        );
        let room: Scalar = (opts.turn_radius_m * ratio(5, 10)).clamp(&number(2000), &number(10_000));
        most = most.max(&room);
        k = k + 1;
    }
    most
}

impl Region {
    /// Length of the side of a cell in metres.
    pub open spec fn cell_size_m(self, grid: int) -> Scalar {
        self.span_deg * whole(111_320) / whole(grid)
    }
}

pub fn cell_m(region: &Region, grid: usize) -> (r: Scalar)
    ensures
        r == region.cell_size_m(grid as int),
{
    region.span_deg * number(111_320) / number(grid as u64)
}

/// How many cells walls are widened by. In a wide region the steps of a grid
/// route cut corners by up to 0.71 cells, and blunt corners ask for one cell more.
pub open spec fn inflation_cells(region: Region, grid: int, inflation_m: Scalar) -> int {
    let cell = region.cell_size_m(grid);
    if region.span_deg > frac(25, 10) {
        steps_up((inflation_m + frac(71, 100) * cell) / cell.larger(whole(1))) + 1
    } else {
        steps_up(inflation_m / cell.larger(whole(1)))
    }
}

pub fn count_inflation_cells(region: &Region, grid: usize, inflation_m: Scalar) -> (r: u64)
    ensures
        r == inflation_cells(*region, grid as int, inflation_m),
{
    let cell: Scalar = cell_m(region, grid);
    let least: Scalar = cell.max(&number(1));
    if ratio(25, 10).lt(&region.span_deg) {
        ((inflation_m + ratio(71, 100) * cell) / least).ceil_u64() + 1
    } else {
        (inflation_m / least).ceil_u64()
    }
}

} // verus!
