//! One vehicle's task: where it flies, what it knows of the world, and the raw
//! routes that a search gives it.

use crate::config::{DefaultParams, Zone};
use crate::coord::Geo;
use crate::field::{closed_for, closes};
use crate::ground::{find_vehicle_costs, vehicle_costs, Ground};
use crate::mission::{push_point, with_point, VehicleSpec};
use crate::numeric::{frac, number, ratio, whole};
use crate::options::SmoothOptions;
use crate::oracle::{ask, image, is_function, Calc};
use crate::passage::{dist_km, flat_km, place_between, Performance};
use crate::path::{haversine_m, slice_points, sphere_distance_m, Path, PathPoint};
use crate::profile::part_views;
use crate::region::{cell_lonlat, cell_m, lonlat_cell, steps_up, Region};
use crate::scalar::Scalar;
use crate::segment::SegmentCheck;
use crate::terrain::Sample;
use crate::verify::{Note, ThreatReading, VerifyContext};
use vstd::prelude::*;

verus! {

/// What the answer to a request warns of.
#[derive(Clone, Copy, Debug, PartialEq, Eq, Structural)]
pub enum Warning {
    /// No smoothed route passed verification.
    SmoothingFailed,
    /// What verification notes of a route.
    Noted(Note),
    /// A turn at a place where parts meet is sharper than the limit, since an
    /// arc would come too close to a wall.
    SharpJoint { lon: Scalar, lat: Scalar, max_deg: Scalar },
    /// The raw route made a detour that only the grid asked for.
    GridArtifact,
    /// A radar could not be avoided and is crossed straight.
    RadarTransit { p: Scalar },
    /// The height was raised to clear the ground.
    AltitudeRaised { from_m: Scalar, to_m: Scalar, terrain_m: Scalar },
    /// Turns have to be flown more slowly.
    SlowDown { radius_m: Scalar, from_mps: Scalar, to_mps: Scalar },
    /// The height of the ground is not known at some samples.
    HeightsUnknown { samples: usize },
    /// The search found no way.
    NoPath,
}

/// A search for the cheapest way over a grid, by moves between cells that touch.
#[derive(Debug)]
pub struct Search {
    /// What the cells cost, row by row.
    pub cost: Vec<Scalar>,
    /// Cells along a side of the grid.
    pub grid: usize,
    /// Row and column to start from.
    pub from: (usize, usize),
    /// Row and column to reach.
    pub to: (usize, usize),
}

impl Search {
    /// Whether this search is over the given costs, between the given cells.
    pub open spec fn asks(
        self,
        cost: Seq<Scalar>,
        grid: usize,
        from: (usize, usize),
        to: (usize, usize),
    ) -> bool {
        self.cost@ == cost && self.grid == grid && self.from == from && self.to == to
    }
}

/// Cells of a way over the grid, from its end back to its start.
pub type Cells = Vec<(usize, usize)>;

/// The cells of a way, where there is one.
pub open spec fn way(found: Option<Cells>) -> Option<Seq<(usize, usize)>> {
    match found {
        Some(cells) => Some(cells@),
        None => None,
    }
}

/// Whether `f` takes every search, and finds the same way over the same costs.
pub open spec fn searches<F: Fn(Search) -> Option<Cells>>(f: F) -> bool {
    &&& forall|q: Search| #[trigger] f.requires((q,))
    &&& forall|p: Search, q: Search, a: Option<Cells>, b: Option<Cells>|
        p.asks(q.cost@, q.grid, q.from, q.to) && #[trigger] f.ensures((p,), a)
            && #[trigger] f.ensures((q,), b) ==> way(a) == way(b)
}

/// Whether `f` may find the given way.
pub open spec fn may_find<F: Fn(Search) -> Option<Cells>>(
    f: F,
    cost: Seq<Scalar>,
    grid: usize,
    from: (usize, usize),
    to: (usize, usize),
    w: Option<Seq<(usize, usize)>>,
) -> bool {
    exists|q: Search, r: Option<Cells>|
        q.asks(cost, grid, from, to) && #[trigger] f.ensures((q,), r) && way(r) == w
}

/// The way that `f` finds.
pub open spec fn found_way<F: Fn(Search) -> Option<Cells>>(
    f: F,
    cost: Seq<Scalar>,
    grid: usize,
    from: (usize, usize),
    to: (usize, usize),
) -> Option<Seq<(usize, usize)>> {
    choose|w: Option<Seq<(usize, usize)>>| may_find(f, cost, grid, from, to, w)
}

/// Asks `f` for a way.
pub fn find_way<F: Fn(Search) -> Option<Cells>>(
    f: &F,
    cost: &Vec<Scalar>,
    grid: usize,
    from: (usize, usize),
    to: (usize, usize),
) -> (r: Option<Cells>)
    requires
        searches(*f),
    ensures
        way(r) == found_way(*f, cost@, grid, from, to),
{
    let mut copy: Vec<Scalar> = Vec::new();
    let mut i: usize = 0;
    while i < cost.len()
        invariant
            i <= cost@.len(),
            copy@.len() == i,
            forall|j: int| 0 <= j < i ==> #[trigger] copy@[j] == cost@[j],
        decreases cost.len() - i,
    {
        copy.push(cost[i]);
        i = i + 1;
    }
    assert(copy@ =~= cost@);
    let q: Search = Search { cost: copy, grid, from, to };
    let ghost asked = q;
    let r: Option<Cells> = f(q);
    proof {
        assert(asked.asks(cost@, grid, from, to) && f.ensures((asked,), r) && way(r) == way(r));
        assert(may_find(*f, cost@, grid, from, to, way(r)));
        let w = found_way(*f, cost@, grid, from, to);
        assert(may_find(*f, cost@, grid, from, to, w));
        let (p, s) = choose|p: Search, s: Option<Cells>|
            p.asks(cost@, grid, from, to) && #[trigger] f.ensures((p,), s) && way(s) == w;
        assert(f.ensures((p,), s) && p.asks(asked.cost@, asked.grid, asked.from, asked.to));
    }
    r
}

/// Whether `f` takes every route, and judges routes with the same points alike.
pub open spec fn judges<E: Fn(Path) -> ThreatReading>(f: E) -> bool {
    &&& forall|p: Path| #[trigger] f.requires((p,))
    &&& forall|p: Path, q: Path, a: ThreatReading, b: ThreatReading|
        p@ == q@ && #[trigger] f.ensures((p,), a) && #[trigger] f.ensures((q,), b) ==> a == b
}

/// Whether `f` may judge a route in the given way.
pub open spec fn may_judge<E: Fn(Path) -> ThreatReading>(f: E, pts: Seq<PathPoint>, r: ThreatReading) -> bool {
    exists|p: Path| p@ == pts && #[trigger] f.ensures((p,), r)
}

/// How `f` judges a route.
pub open spec fn judged<E: Fn(Path) -> ThreatReading>(f: E, pts: Seq<PathPoint>) -> ThreatReading {
    choose|r: ThreatReading| may_judge(f, pts, r)
}

/// Asks `f` to judge a route.
pub fn judge_route<E: Fn(Path) -> ThreatReading>(f: &E, pts: &Vec<PathPoint>) -> (r: ThreatReading)
    requires
        judges(*f),
    ensures
        r == judged(*f, pts@),
{
    let copy: Vec<PathPoint> = slice_points(pts, 0, pts.len());
    assert(copy@ =~= pts@);
    let path: Path = Path::new(copy);
    let ghost asked = path;
    let r: ThreatReading = f(path);
    proof {
        assert(f.ensures((asked,), r));
        assert(may_judge(*f, pts@, r));
        let other = judged(*f, pts@);
        assert(may_judge(*f, pts@, other));
        let p = choose|p: Path| p@ == pts@ && #[trigger] f.ensures((p,), other);
        assert(f.ensures((p,), other) && p@ == asked@);
    }
    r
}

/// The task of one vehicle: the functions that know the world, the airspace, and
/// the vehicle with the options it is planned with.
pub struct Task<
    'a,
    C: Fn(Calc) -> Scalar,
    T: Fn((Scalar, Scalar)) -> Sample,
    N: Fn((Scalar, Scalar)) -> bool,
    P: Fn((Scalar, Scalar, Scalar)) -> Scalar,
    E: Fn(Path) -> ThreatReading,
> {
    pub calc: &'a C,
    pub terrain: Option<&'a T>,
    pub nofly: Option<&'a N>,
    /// How deep a place and height lie in a radar.
    pub depth: &'a P,
    /// How likely a route is to be detected.
    pub judge: &'a E,
    pub zones: &'a Vec<Zone>,
    /// Clearance to keep from walls, in metres.
    pub inflation_m: Scalar,
    pub region: Region,
    pub grid: usize,
    /// The grid that all vehicles share.
    pub ground: &'a Ground,
    pub vehicle: &'a VehicleSpec,
    pub params: &'a DefaultParams,
    pub opts: SmoothOptions,
    /// Smallest radius that the vehicle can fly, in metres.
    pub phys_m: Scalar,
}

/// The places of a flight: start, places to pass, target.
pub open spec fn flight_ends(v: VehicleSpec) -> Seq<Geo> {
    seq![v.start] + v.mid_waypoints@ + seq![v.target]
}

/// One attempt at a route.
#[derive(Clone, Copy, Debug, PartialEq, Eq, Structural)]
pub struct Attempt {
    /// Whether a search without regard to high ground was tried.
    pub probed: bool,
    /// Whether the height was raised.
    pub raised: bool,
    /// Whether high ground is disregarded for good.
    pub unmasked: bool,
    /// Whether all restricted zones are closed.
    pub forced: bool,
    /// Height flown, in metres.
    pub alt_m: Scalar,
}

impl Attempt {
    /// Whether the search keeps off high ground.
    pub open spec fn masked(self) -> bool {
        !self.unmasked && (self.raised || !self.probed)
    }

    pub fn is_masked(&self) -> (r: bool)
        ensures
            r == self.masked(),
    {
        !self.unmasked && (self.raised || !self.probed)
    }

    /// The attempt made after a search found no way: one without regard to high
    /// ground, if this one had any.
    pub open spec fn after_no_way(self) -> Option<Attempt> {
        if self.masked() && !self.probed {
            Some(Attempt { probed: true, ..self })
        } else if self.masked() {
            Some(Attempt { unmasked: true, ..self })
        } else {
            None
        }
    }

    pub fn retry_after_no_way(&self) -> (r: Option<Attempt>)
        ensures
            r == self.after_no_way(),
    {
        let mut next: Attempt = *self;
        if self.is_masked() && !self.probed {
            next.probed = true;
            Some(next)
        } else if self.is_masked() {
            next.unmasked = true;
            Some(next)
        } else {
            None
        }
    }
}

/// The way back over cells as a route over their middles, at a height.
pub open spec fn route_over(region: Region, grid: int, cells: Seq<(usize, usize)>, alt_m: Scalar) -> Seq<
    PathPoint,
> {
    Seq::new(
        cells.len(),
        |i: int|
            {
                let cell = cells[cells.len() - 1 - i];
                let (lon, lat) = region.cell_center(cell.0 as int, cell.1 as int, grid);
                PathPoint { lon, lat, alt_m, heading_deg: None }
            },
    )
}

fn make_route(region: &Region, grid: usize, cells: &Cells, alt_m: Scalar) -> (r: Path)
    ensures
        r@ == route_over(*region, grid as int, cells@, alt_m),
{
    let n: usize = cells.len();
    let mut pts: Vec<PathPoint> = Vec::new();
    let mut i: usize = 0;
    while i < n
        invariant
            n == cells@.len(),
            i <= n,
            pts@.len() == i,
            forall|j: int|
                0 <= j < i ==> #[trigger] pts@[j] == route_over(
                    *region,
                    grid as int,
                    cells@,
                    alt_m,
                )[j],
        decreases n - i,
    {
        let cell: (usize, usize) = cells[n - 1 - i];
        let (lon, lat) = cell_lonlat(cell.0, cell.1, region, grid);
        pts.push(PathPoint::new(lon, lat, alt_m));
        i = i + 1;
    }
    assert(pts@ =~= route_over(*region, grid as int, cells@, alt_m));
    Path::new(pts)
}

/// How many pieces a line is sampled in for its highest ground: one for every
/// kilometre begun, at least two.
pub open spec fn line_pieces(length_m: Scalar) -> int {
    let n = steps_up(length_m / whole(1000));
    if n < 2 {
        2
    } else {
        n
    }
}

/// The highest land under the first `k` samples of a line, or the height given.
pub open spec fn highest_along_line<T: Fn((Scalar, Scalar)) -> Sample>(
    terrain: T,
    a: Geo,
    b: Geo,
    pieces: int,
    highest: Scalar,
    k: int,
) -> Scalar
    decreases k,
{
    if k <= 0 {
        highest
    } else {
        let before = highest_along_line(terrain, a, b, pieces, highest, k - 1);
        match image(terrain, place_between(a, b, whole(k - 1) / whole(pieces))) {
            Sample::Land(h) => before.larger(h),
            _ => before,
        }
    }
}

fn find_highest_along<T: Fn((Scalar, Scalar)) -> Sample>(
    terrain: &T,
    a: &Geo,
    b: &Geo,
    pieces: u64,
    highest: Scalar,
) -> (r: Scalar)
    requires
        is_function(*terrain),
    ensures
        r == highest_along_line(*terrain, *a, *b, pieces as int, highest, pieces + 1),
{
    let mut top: Scalar = highest;
    let mut k: u64 = 0;
    while k < pieces
        invariant
            is_function(*terrain),
            k <= pieces,
            top == highest_along_line(*terrain, *a, *b, pieces as int, highest, k as int),
        decreases pieces - k,
    {
        top = raise_at(terrain, a, b, number(k) / number(pieces), top);
        k = k + 1;
    }
    raise_at(terrain, a, b, number(pieces) / number(pieces), top)
}

fn raise_at<T: Fn((Scalar, Scalar)) -> Sample>(
    terrain: &T,
    a: &Geo,
    b: &Geo,
    u: Scalar,
    top: Scalar,
) -> (r: Scalar)
    requires
        is_function(*terrain),
    ensures
        r == (match image(*terrain, place_between(*a, *b, u)) {
            Sample::Land(h) => top.larger(h),
            _ => top,
        }),
{
    let lon: Scalar = a.lon + (b.lon - a.lon) * u;
    let lat: Scalar = a.lat + (b.lat - a.lat) * u;
    match ask(terrain, (lon, lat)) {
        Sample::Land(h) => top.max(&h),
        _ => top,
    }
}

/// The highest land under the straight lines between the first `k + 1` places.
pub open spec fn highest_on_lines<C: Fn(Calc) -> Scalar, T: Fn((Scalar, Scalar)) -> Sample>(
    calc: C,
    terrain: T,
    ends: Seq<Geo>,
    k: int,
) -> Scalar
    decreases k,
{
    if k <= 0 {
        whole(0)
    } else {
        let (a, b) = (ends[k - 1], ends[k]);
        let pieces = line_pieces(sphere_distance_m(calc, a.lon, a.lat, b.lon, b.lat));
        highest_along_line(
            terrain,
            a,
            b,
            pieces,
            highest_on_lines(calc, terrain, ends, k - 1),
            pieces + 1,
        )
    }
}

fn find_highest_on_lines<C: Fn(Calc) -> Scalar, T: Fn((Scalar, Scalar)) -> Sample>(
    terrain: &T,
    ends: &Vec<Geo>,
    calc: &C,
) -> (r: Scalar)
    requires
        is_function(*calc),
        is_function(*terrain),
        ends@.len() >= 1,
    ensures
        r == highest_on_lines(*calc, *terrain, ends@, ends@.len() - 1),
{
    let n: usize = ends.len();
    let mut top: Scalar = number(0);
    let mut k: usize = 0;
    while k < n - 1
        invariant
            is_function(*calc),
            is_function(*terrain),
            n == ends@.len(),
            n >= 1,
            k <= n - 1,
            top == highest_on_lines(*calc, *terrain, ends@, k as int),
        decreases n - k,
    {
        let a: Geo = ends[k];
        let b: Geo = ends[k + 1];
        let steps: u64 = (haversine_m(a.lon, a.lat, b.lon, b.lat, calc) / number(1000)).ceil_u64();
        let pieces: u64 = if steps < 2 { 2 } else { steps };
        top = find_highest_along(terrain, &a, &b, pieces, top);
        k = k + 1;
    }
    top
}

/// The height to fly at to clear ground of the given height, not below the
/// height asked for.
pub open spec fn clearing_height(highest: Scalar, clearance_m: Scalar, asked_m: Scalar) -> Scalar {
    (highest + clearance_m.larger(whole(1)) + whole(100)).larger(asked_m)
}

/// Whether a height is above the one flown and within the ceiling.
pub open spec fn can_raise(new_m: Scalar, alt_m: Scalar, ceiling_m: Option<Scalar>) -> bool {
    new_m > alt_m + frac(5, 10) && (ceiling_m is None || new_m <= ceiling_m->0)
}

/// The height to raise the flight to, to clear ground of the given height, where
/// that is possible.
pub fn raise_over(
    highest: Scalar,
    clearance_m: Scalar,
    asked_m: Scalar,
    alt_m: Scalar,
    ceiling_m: Option<Scalar>,
) -> (r: Option<Scalar>)
    ensures
        ({
            let new_m = clearing_height(highest, clearance_m, asked_m);
            r == if can_raise(new_m, alt_m, ceiling_m) {
                Some(new_m)
            } else {
                None
            }
        }),
{
    let new_m: Scalar = (highest + clearance_m.max(&number(1)) + number(100)).max(&asked_m);
    let under: bool = match ceiling_m {
        None => true,
        Some(c) => new_m.le(&c),
    };
    if (alt_m + ratio(5, 10)).lt(&new_m) && under {
        Some(new_m)
    } else {
        None
    }
}

/// A flight is never raised to less than the height asked for, nor above the
/// ceiling. (Left out: a height asked for that is not a number.)
pub proof fn law_raising_goes_up(
    highest: Scalar,
    clearance_m: Scalar,
    asked_m: Scalar,
    alt_m: Scalar,
    ceiling_m: Option<Scalar>,
)
    requires
        !asked_m.nan(),
        can_raise(clearing_height(highest, clearance_m, asked_m), alt_m, ceiling_m),
    ensures
        clearing_height(highest, clearance_m, asked_m) >= asked_m,
        ceiling_m is Some ==> clearing_height(highest, clearance_m, asked_m) <= ceiling_m->0,
{
}

impl<
    'a,
    C: Fn(Calc) -> Scalar,
    T: Fn((Scalar, Scalar)) -> Sample,
    N: Fn((Scalar, Scalar)) -> bool,
    P: Fn((Scalar, Scalar, Scalar)) -> Scalar,
    E: Fn(Path) -> ThreatReading,
> Task<'a, C, T, N, P, E> {
    /// The functions handed in give one answer to one question, and the grid has
    /// cells that can be counted.
    pub open spec fn settled(self) -> bool {
        &&& is_function(*self.calc)
        &&& self.terrain is Some ==> is_function(*self.terrain->0)
        &&& self.nofly is Some ==> is_function(*self.nofly->0)
        &&& is_function(*self.depth)
        &&& judges(*self.judge)
        &&& 1 <= self.grid <= 0xffff
        &&& self.ground.sized(self.grid as int)
        &&& self.opts.dubins_sample_n < usize::MAX
    }

    pub open spec fn ends(self) -> Seq<Geo> {
        flight_ends(*self.vehicle)
    }

    pub fn list_ends(&self) -> (r: Vec<Geo>)
        ensures
            r@ == self.ends(),
            r@.len() >= 2,
    {
        let mut ends: Vec<Geo> = Vec::new();
        ends.push(self.vehicle.start);
        let mut k: usize = 0;
        while k < self.vehicle.mid_waypoints.len()
            invariant
                k <= self.vehicle.mid_waypoints@.len(),
                ends@ == seq![self.vehicle.start] + self.vehicle.mid_waypoints@.take(k as int),
            decreases self.vehicle.mid_waypoints.len() - k,
        {
            ends.push(self.vehicle.mid_waypoints[k]);
            k = k + 1;
            proof {
                assert(ends@ =~= seq![self.vehicle.start] + self.vehicle.mid_waypoints@.take(
                    k as int,
                ));
            }
        }
        ends.push(self.vehicle.target);
        assert(ends@ =~= self.ends());
        ends
    }

    /// Which zones an attempt closes.
    pub open spec fn closed_zones(self, a: Attempt) -> Seq<bool> {
        let limits = self.performance(a.alt_m);
        self.zones@.map_values(
            |z: Zone| closes(*self.calc, self.terrain, z, *self.vehicle, limits, a.forced),
        )
    }

    /// What the cells of the grid cost in an attempt.
    #[verifier::opaque]
    pub open spec fn costs(self, a: Attempt) -> Seq<Scalar> {
        vehicle_costs(
            *self.calc,
            self.region,
            self.grid as int,
            self.terrain,
            self.zones@,
            self.closed_zones(a),
            *self.ground,
            a.masked(),
            a.alt_m,
            self.opts.clearance_m,
        )
    }

    fn make_costs(&self, a: &Attempt) -> (r: Vec<Scalar>)
        requires
            self.settled(),
        ensures
            r@ == self.costs(*a),
    {
        proof {
            reveal(Task::costs);
        }
        let limits: Performance = Performance {
            alt_m: a.alt_m,
            max_climb_deg: self.opts.max_climb_deg,
            ceiling_m: self.vehicle.profile.ceiling_m,
        };
        let closed: Vec<bool> = closed_for(
            self.zones,
            self.vehicle,
            &limits,
            a.forced,
            self.terrain,
            self.calc,
        );
        assert(closed@ =~= self.closed_zones(*a));
        find_vehicle_costs(
            &self.region,
            self.grid,
            self.zones,
            &closed,
            self.ground,
            self.terrain,
            a.is_masked(),
            a.alt_m,
            self.opts.clearance_m,
            self.calc,
        )
    }

    /// The cell of place `i` of the flight.
    pub open spec fn end_cell(self, i: int) -> (usize, usize) {
        let g = self.ends()[i];
        let cell = self.region.cell_of(g.lon, g.lat, self.grid as int);
        (cell.0 as usize, cell.1 as usize)
    }

    /// The raw routes of the first `k` legs, where the search finds all of them.
    pub open spec fn raw_legs<F: Fn(Search) -> Option<Cells>>(self, search: F, a: Attempt, k: int) -> Option<
        Seq<Seq<PathPoint>>,
    >
        decreases k,
    {
        if k <= 0 {
            Some(Seq::empty())
        } else {
            let before = self.raw_legs(search, a, k - 1);
            let found = found_way(
                search,
                self.costs(a),
                self.grid,
                self.end_cell(k - 1),
                self.end_cell(k),
            );
            if before is None || found is None {
                None
            } else {
                Some(
                    before->0.push(route_over(self.region, self.grid as int, found->0, a.alt_m)),
                )
            }
        }
    }

    /// Searches the raw routes of all legs.
    pub fn search_legs<F: Fn(Search) -> Option<Cells>>(&self, search: &F, a: &Attempt) -> (r: Option<
        Vec<Path>,
    >)
        requires
            self.settled(),
            searches(*search),
        ensures
            r is Some <==> self.raw_legs(*search, *a, self.ends().len() - 1) is Some,
            r is Some ==> part_views(r->0@) == self.raw_legs(
                *search,
                *a,
                self.ends().len() - 1,
            )->0,
    {
        let ends: Vec<Geo> = self.list_ends();
        let n: usize = ends.len();
        let cost: Vec<Scalar> = self.make_costs(a);
        let mut legs: Vec<Path> = Vec::new();
        assert(part_views(legs@) =~= Seq::empty());
        let mut k: usize = 0;
        while k < n - 1
            invariant
                self.settled(),
                searches(*search),
                ends@ == self.ends(),
                n == ends@.len(),
                n >= 2,
                cost@ == self.costs(*a),
                k <= n - 1,
                self.raw_legs(*search, *a, k as int) == Some(part_views(legs@)),
            decreases n - k,
        {
            let s: Geo = ends[k];
            let e: Geo = ends[k + 1];
            let from: (usize, usize) = lonlat_cell(s.lon, s.lat, &self.region, self.grid);
            let to: (usize, usize) = lonlat_cell(e.lon, e.lat, &self.region, self.grid);
            assert(from == self.end_cell(k as int) && to == self.end_cell(k + 1));
            match find_way(search, &cost, self.grid, from, to) {
                None => {
                    proof {
                        self.lemma_missing_leg(*search, *a, k + 1, n - 1);
                    }
                    return None;
                },
                Some(cells) => {
                    let ghost before = legs@;
                    legs.push(make_route(&self.region, self.grid, &cells, a.alt_m));
                    proof {
                        assert(part_views(legs@) =~= part_views(before).push(legs@.last()@));
                    }
                },
            }
            k = k + 1;
        }
        Some(legs)
    }

    proof fn lemma_missing_leg<F: Fn(Search) -> Option<Cells>>(
        self,
        search: F,
        a: Attempt,
        i: int,
        k: int,
    )
        requires
            i <= k,
            self.raw_legs(search, a, i) is None,
        ensures
            self.raw_legs(search, a, k) is None,
        decreases k,
    {
        if i < k {
            self.lemma_missing_leg(search, a, i, k - 1);
            if k <= 0 {
                assert(self.raw_legs(search, a, i) is Some);
            }
        } else if k <= 0 {
            assert(self.raw_legs(search, a, i) is Some);
        }
    }

    /// The height to raise a flight to before its route is cut and smoothed: the
    /// straight lines between its places meet ground too high for it.
    pub open spec fn raise_at_first(self, a: Attempt) -> Option<Scalar> {
        if a.raised || self.terrain is None {
            None
        } else {
            let top = highest_on_lines(
                *self.calc,
                *self.terrain->0,
                self.ends(),
                self.ends().len() - 1,
            );
            let new_m = clearing_height(top, self.opts.clearance_m, self.vehicle.alt_m);
            if top > whole(0) && top + self.opts.clearance_m.larger(whole(1)) >= a.alt_m + whole(
                300,
            ) && can_raise(new_m, a.alt_m, self.vehicle.profile.ceiling_m) {
                Some(new_m)
            } else {
                None
            }
        }
    }

    pub fn find_raise_at_first(&self, a: &Attempt) -> (r: Option<Scalar>)
        requires
            self.settled(),
        ensures
            r == self.raise_at_first(*a),
    {
        if a.raised {
            return None;
        }
        match self.terrain {
            None => None,
            Some(t) => {
                let ends: Vec<Geo> = self.list_ends();
                let top: Scalar = find_highest_on_lines(t, &ends, self.calc);
                let clearance: Scalar = self.opts.clearance_m.max(&number(1));
                if number(0).lt(&top) && (a.alt_m + number(300)).le(&(top + clearance)) {
                    raise_over(
                        top,
                        self.opts.clearance_m,
                        self.vehicle.alt_m,
                        a.alt_m,
                        self.vehicle.profile.ceiling_m,
                    )
                } else {
                    None
                }
            },
        }
    }

    /// What a flight at a height asks of the vehicle.
    pub open spec fn performance(self, alt_m: Scalar) -> Performance {
        Performance {
            alt_m,
            max_climb_deg: self.opts.max_climb_deg,
            ceiling_m: self.vehicle.profile.ceiling_m,
        }
    }

    /// The straight route between the places of the flight, at a height.
    pub open spec fn straight(self, alt_m: Scalar, k: int) -> Seq<PathPoint>
        decreases k,
    {
        if k <= 0 {
            Seq::empty()
        } else {
            let g = self.ends()[k - 1];
            with_point(
                self.straight(alt_m, k - 1),
                PathPoint { lon: g.lon, lat: g.lat, alt_m, heading_deg: None },
            )
        }
    }

    pub fn make_straight(&self, alt_m: Scalar) -> (r: Path)
        ensures
            r@ == self.straight(alt_m, self.ends().len() as int),
    {
        let ends: Vec<Geo> = self.list_ends();
        let mut pts: Vec<PathPoint> = Vec::new();
        let mut k: usize = 0;
        while k < ends.len()
            invariant
                ends@ == self.ends(),
                k <= ends@.len(),
                pts@ == self.straight(alt_m, k as int),
            decreases ends.len() - k,
        {
            push_point(&mut pts, PathPoint::new(ends[k].lon, ends[k].lat, alt_m));
            k = k + 1;
        }
        Path::new(pts)
    }

    /// Whether a point of a route is a place of the flight, but for the grid.
    pub open spec fn is_place(self, p: PathPoint) -> bool {
        exists|k: int|
            0 <= k < self.ends().len() && flat_km(
                *self.calc,
                (#[trigger] self.ends()[k]).lon,
                self.ends()[k].lat,
                p.lon,
                p.lat,
            ) * whole(1000) < (self.region.cell_size_m(self.grid as int) * frac(75, 100)).larger(
                whole(250),
            )
    }

    pub fn find_place(&self, p: &PathPoint) -> (r: bool)
        requires
            self.settled(),
        ensures
            r == self.is_place(*p),
    {
        let ends: Vec<Geo> = self.list_ends();
        let cell: Scalar = cell_m(&self.region, self.grid);
        let near: Scalar = (cell * ratio(75, 100)).max(&number(250));
        let mut k: usize = 0;
        while k < ends.len()
            invariant
                self.settled(),
                ends@ == self.ends(),
                k <= ends@.len(),
                near == (self.region.cell_size_m(self.grid as int) * frac(75, 100)).larger(
                    whole(250),
                ),
                forall|j: int|
                    0 <= j < k ==> !(flat_km(
                        *self.calc,
                        (#[trigger] self.ends()[j]).lon,
                        self.ends()[j].lat,
                        p.lon,
                        p.lat,
                    ) * whole(1000) < near),
            decreases ends.len() - k,
        {
            let g: Geo = ends[k];
            if (dist_km(g.lon, g.lat, p.lon, p.lat, self.calc) * number(1000)).lt(&near) {
                assert(g == self.ends()[k as int]);
                return true;
            }
            k = k + 1;
        }
        false
    }

    /// The rule on the legs of this flight.
    pub open spec fn leg_check(self) -> SegmentCheck<'a, C, T, P> {
        SegmentCheck {
            zones: self.zones,
            threat: Some(self.depth),
            inflation_km: self.inflation_m / whole(1000),
            terrain: self.terrain,
            clearance_m: self.opts.clearance_m,
            calc: self.calc,
        }
    }

    pub fn make_leg_check(&self) -> (r: SegmentCheck<'a, C, T, P>)
        ensures
            r == self.leg_check(),
    {
        SegmentCheck {
            zones: self.zones,
            threat: Some(self.depth),
            inflation_km: self.inflation_m / number(1000),
            terrain: self.terrain,
            clearance_m: self.opts.clearance_m,
            calc: self.calc,
        }
    }

    /// What routes of this flight are verified against.
    pub open spec fn context(self) -> VerifyContext<'a, T, N> {
        VerifyContext {
            terrain: self.terrain,
            nofly: self.nofly,
            zones: Some(self.zones),
            zone_inflation_m: self.inflation_m,
        }
    }

    pub fn make_context(&self) -> (r: VerifyContext<'a, T, N>)
        ensures
            r == self.context(),
    {
        VerifyContext {
            terrain: self.terrain,
            nofly: self.nofly,
            zones: Some(self.zones),
            zone_inflation_m: self.inflation_m,
        }
    }
}

} // verus!
