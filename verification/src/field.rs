//! Which cells of the search grid are closed, and what the others cost.

use crate::config::Zone;
use crate::coord::{legal_coordinate, Geo};
use crate::grid::{
    apply_inflation_and_band, band_entry, in_grid, is_dilation, law_dilation_keeps_walls, marked,
    BandedGrid,
};
use crate::mission::VehicleSpec;
use crate::numeric::{number, whole};
use crate::oracle::{ask, image, is_function, Calc};
use crate::passage::{pass_height, restricted_detour_required, Performance};
use crate::path::PathPoint;
use crate::region::{cell_lonlat, Region};
use crate::scalar::Scalar;
use crate::terrain::Sample;
use crate::zone::{blocks_height, holds, zone_contains};
use vstd::prelude::*;

verus! {

/// What it costs to cross a cell over the given ground, compared with land; none
/// where the cell is closed.
pub open spec fn crossing_cost(ground: Sample) -> Option<Scalar> {
    match ground {
        Sample::Land(_) | Sample::Water | Sample::Lake(_) => Some(whole(1)),
        Sample::NoData | Sample::OutOfBounds => Some(whole(5)),
        Sample::Forbidden => None,
    }
}

pub fn ground_cost(ground: Sample) -> (r: Option<Scalar>)
    ensures
        r == crossing_cost(ground),
{
    match ground {
        Sample::Land(_) | Sample::Water | Sample::Lake(_) => Some(number(1)),
        Sample::NoData | Sample::OutOfBounds => Some(number(5)),
        Sample::Forbidden => None,
    }
}

/// Whether a place lies in a zone that is marked as closed.
pub open spec fn in_closed_zone<C: Fn(Calc) -> Scalar>(
    calc: C,
    zones: Seq<Zone>,
    closed: Seq<bool>,
    lon: Scalar,
    lat: Scalar,
) -> bool {
    legal_coordinate(lon, lat) && exists|k: int|
        0 <= k < zones.len() && closed[k] && holds(calc, #[trigger] zones[k], Geo { lon, lat })
}

/// Whether a place lies in a zone that is marked as closed.
pub fn is_in_closed_zone<C: Fn(Calc) -> Scalar>(
    zones: &Vec<Zone>,
    closed: &Vec<bool>,
    lon: Scalar,
    lat: Scalar,
    calc: &C,
) -> (r: bool)
    requires
        is_function(*calc),
        closed@.len() == zones@.len(),
    ensures
        r == in_closed_zone(*calc, zones@, closed@, lon, lat),
{
    match Geo::new(lon, lat) {
        Err(_) => false,
        Ok(g) => {
            let mut k: usize = 0;
            while k < zones.len()
                invariant
                    is_function(*calc),
                    closed@.len() == zones@.len(),
                    legal_coordinate(lon, lat),
                    g == (Geo { lon, lat }),
                    k <= zones@.len(),
                    forall|j: int|
                        0 <= j < k ==> !(closed@[j] && holds(*calc, #[trigger] zones@[j], g)),
                decreases zones.len() - k,
            {
                if closed[k] && zone_contains(&zones[k], &g, calc) {
                    assert(holds(*calc, zones@[k as int], g));
                    return true;
                }
                k = k + 1;
            }
            false
        },
    }
}

/// The walls among the zones.
pub fn walls_of(zones: &Vec<Zone>) -> (r: Vec<bool>)
    ensures
        r@ == zones@.map_values(|z: Zone| z.wall()),
{
    let mut marks: Vec<bool> = Vec::new();
    let mut k: usize = 0;
    while k < zones.len()
        invariant
            k <= zones@.len(),
            marks@.len() == k,
            forall|j: int| 0 <= j < k ==> #[trigger] marks@[j] == zones@[j].wall(),
        decreases zones.len() - k,
    {
        marks.push(zones[k].is_wall());
        k = k + 1;
    }
    assert(marks@ =~= zones@.map_values(|z: Zone| z.wall()));
    marks
}

/// Whether a restricted zone has to be closed for a vehicle at a height: it is
/// forced to be, or blocks the height and can be passed neither below nor above.
pub open spec fn closes<C: Fn(Calc) -> Scalar, T: Fn((Scalar, Scalar)) -> Sample>(
    calc: C,
    ground: Option<&T>,
    z: Zone,
    v: VehicleSpec,
    p: Performance,
    forced: bool,
) -> bool {
    forced || (blocks_height(z, p.alt_m) && pass_height(
        calc,
        ground,
        z,
        p,
        v.start,
        v.target,
        Seq::<PathPoint>::empty(),
        None,
    ) is None)
}

/// The zones to be closed for a vehicle at a height.
pub fn closed_for<C: Fn(Calc) -> Scalar, T: Fn((Scalar, Scalar)) -> Sample>(
    zones: &Vec<Zone>,
    v: &VehicleSpec,
    p: &Performance,
    forced: bool,
    ground: Option<&T>,
    calc: &C,
) -> (r: Vec<bool>)
    requires
        is_function(*calc),
        ground is Some ==> is_function(*ground->0),
    ensures
        r@ == zones@.map_values(|z: Zone| closes(*calc, ground, z, *v, *p, forced)),
{
    let mut marks: Vec<bool> = Vec::new();
    let mut k: usize = 0;
    while k < zones.len()
        invariant
            is_function(*calc),
            ground is Some ==> is_function(*ground->0),
            k <= zones@.len(),
            marks@.len() == k,
            forall|j: int|
                0 <= j < k ==> #[trigger] marks@[j] == closes(
                    *calc,
                    ground,
                    zones@[j],
                    *v,
                    *p,
                    forced,
                ),
        decreases zones.len() - k,
    {
        let closed: bool = forced || restricted_detour_required(
            &zones[k],
            p,
            ground,
            &v.start,
            &v.target,
            calc,
        );
        marks.push(closed);
        k = k + 1;
    }
    assert(marks@ =~= zones@.map_values(|z: Zone| closes(*calc, ground, z, *v, *p, forced)));
    marks
}

/// The row and column of a cell by its number.
pub open spec fn row_of(i: int, grid: int) -> int {
    i / grid
}

pub open spec fn col_of(i: int, grid: int) -> int {
    i % grid
}

/// Whether the middle of a cell lies in a closed zone.
pub open spec fn cell_closed<C: Fn(Calc) -> Scalar>(
    calc: C,
    region: Region,
    grid: int,
    zones: Seq<Zone>,
    closed: Seq<bool>,
    i: int,
) -> bool {
    let (lon, lat) = region.cell_center(row_of(i, grid), col_of(i, grid), grid);
    in_closed_zone(calc, zones, closed, lon, lat)
}

/// Marks the cells whose middle lies in a closed zone, besides those marked
/// already.
pub fn close_cells<C: Fn(Calc) -> Scalar>(
    region: &Region,
    grid: usize,
    zones: &Vec<Zone>,
    closed: &Vec<bool>,
    cells: &Vec<bool>,
    calc: &C,
) -> (r: Vec<bool>)
    requires
        is_function(*calc),
        closed@.len() == zones@.len(),
        cells@.len() == grid * grid,
    ensures
        r@.len() == grid * grid,
        forall|i: int|
            0 <= i < r@.len() ==> #[trigger] r@[i] == (cells@[i] || cell_closed(
                *calc,
                *region,
                grid as int,
                zones@,
                closed@,
                i,
            )),
{
    let n: usize = cells.len();
    let mut marks: Vec<bool> = Vec::new();
    let mut i: usize = 0;
    while i < n
        invariant
            is_function(*calc),
            closed@.len() == zones@.len(),
            n == cells@.len(),
            n == grid * grid,
            i <= n,
            marks@.len() == i,
            forall|j: int|
                0 <= j < i ==> #[trigger] marks@[j] == (cells@[j] || cell_closed(
                    *calc,
                    *region,
                    grid as int,
                    zones@,
                    closed@,
                    j,
                )),
        decreases n - i,
    {
        assert(grid > 0) by (nonlinear_arith)
            requires
                0 <= i < n,
                n == grid * grid,
        ;
        let (lon, lat) = cell_lonlat(i / grid, i % grid, region, grid);
        let inside: bool = is_in_closed_zone(zones, closed, lon, lat, calc);
        marks.push(cells[i] || inside);
        i = i + 1;
    }
    marks
}

/// Whether the middle of a cell is land too high to cross at a height: with the
/// clearance it reaches 300 metres above it.
pub open spec fn cell_too_high<T: Fn((Scalar, Scalar)) -> Sample>(
    region: Region,
    grid: int,
    terrain: T,
    alt_m: Scalar,
    clearance_m: Scalar,
    i: int,
) -> bool {
    let (lon, lat) = region.cell_center(row_of(i, grid), col_of(i, grid), grid);
    match image(terrain, (lon, lat)) {
        Sample::Land(h) => h + clearance_m.larger(whole(1)) >= alt_m + whole(300),
        _ => false,
    }
}

/// Marks the cells over land too high to cross, besides those marked already.
pub fn close_high_ground<T: Fn((Scalar, Scalar)) -> Sample>(
    region: &Region,
    grid: usize,
    terrain: &T,
    alt_m: Scalar,
    clearance_m: Scalar,
    cells: &Vec<bool>,
) -> (r: Vec<bool>)
    requires
        is_function(*terrain),
        cells@.len() == grid * grid,
    ensures
        r@.len() == grid * grid,
        forall|i: int|
            0 <= i < r@.len() ==> #[trigger] r@[i] == (cells@[i] || cell_too_high(
                *region,
                grid as int,
                *terrain,
                alt_m,
                clearance_m,
                i,
            )),
{
    let n: usize = cells.len();
    let clearance: Scalar = clearance_m.max(&number(1));
    let mut marks: Vec<bool> = Vec::new();
    let mut i: usize = 0;
    while i < n
        invariant
            is_function(*terrain),
            n == cells@.len(),
            n == grid * grid,
            i <= n,
            clearance == clearance_m.larger(whole(1)),
            marks@.len() == i,
            forall|j: int|
                0 <= j < i ==> #[trigger] marks@[j] == (cells@[j] || cell_too_high(
                    *region,
                    grid as int,
                    *terrain,
                    alt_m,
                    clearance_m,
                    j,
                )),
        decreases n - i,
    {
        assert(grid > 0) by (nonlinear_arith)
            requires
                0 <= i < n,
                n == grid * grid,
        ;
        let (lon, lat) = cell_lonlat(i / grid, i % grid, region, grid);
        let high: bool = match ask(terrain, (lon, lat)) {
            Sample::Land(h) => (alt_m + number(300)).le(&(h + clearance)),
            _ => false,
        };
        marks.push(cells[i] || high);
        i = i + 1;
    }
    marks
}

/// Whether the ground at the middle of a cell closes it.
pub open spec fn cell_forbidden<T: Fn((Scalar, Scalar)) -> Sample>(
    region: Region,
    grid: int,
    terrain: Option<&T>,
    i: int,
) -> bool {
    let (lon, lat) = region.cell_center(row_of(i, grid), col_of(i, grid), grid);
    terrain is Some && crossing_cost(image(*terrain->0, (lon, lat))) is None
}

/// The cells that the ground closes.
pub fn forbidden_cells<T: Fn((Scalar, Scalar)) -> Sample>(
    region: &Region,
    grid: usize,
    terrain: Option<&T>,
) -> (r: Vec<bool>)
    requires
        grid <= 0xffff,
        terrain is Some ==> is_function(*terrain->0),
    ensures
        r@.len() == grid * grid,
        forall|i: int|
            0 <= i < r@.len() ==> #[trigger] r@[i] == cell_forbidden(
                *region,
                grid as int,
                terrain,
                i,
            ),
{
    assert(grid * grid <= 0xffff * 0xffff) by (nonlinear_arith)
        requires
            0 <= grid <= 0xffff,
    ;
    let n: usize = grid * grid;
    let mut marks: Vec<bool> = Vec::new();
    let mut i: usize = 0;
    while i < n
        invariant
            n == grid * grid,
            terrain is Some ==> is_function(*terrain->0),
            i <= n,
            marks@.len() == i,
            forall|j: int|
                0 <= j < i ==> #[trigger] marks@[j] == cell_forbidden(
                    *region,
                    grid as int,
                    terrain,
                    j,
                ),
        decreases n - i,
    {
        assert(grid > 0) by (nonlinear_arith)
            requires
                0 <= i < n,
                n == grid * grid,
        ;
        let (lon, lat) = cell_lonlat(i / grid, i % grid, region, grid);
        let closed: bool = match terrain {
            Some(t) => ground_cost(ask(t, (lon, lat))).is_none(),
            None => false,
        };
        marks.push(closed);
        i = i + 1;
    }
    marks
}

/// Width in cells of the band beside a wall in which crossing costs more: 1500
/// metres, rounded up.
pub open spec fn band_cells(cell_m: Scalar) -> int {
    let x = whole(1500) / cell_m.larger(whole(1));
    if x.nan() || x.negative() {
        0
    } else if x.infinite() || x.ceil_value() > u32::MAX {
        u32::MAX as int
    } else {
        x.ceil_value()
    }
}

pub fn band_width(cell_m: Scalar) -> (r: u32)
    ensures
        r == band_cells(cell_m),
{
    let n: u64 = (number(1500) / cell_m.max(&number(1))).ceil_u64();
    if n > 0xffff_ffff {
        0xffff_ffff
    } else {
        n as u32
    }
}

/// Whether a grid is the given cells widened, with the band beside them.
pub open spec fn widened(cells: Seq<bool>, field: BandedGrid, grid: int, rings: int, band: u32) -> bool {
    &&& is_dilation(cells, field.walls@, grid, rings)
    &&& field.band@.len() == grid * grid
    &&& forall|r: int, c: int|
        #![trigger in_grid(grid, r, c)]
        in_grid(grid, r, c) ==> band_entry(
            field.walls@,
            grid,
            r,
            c,
            band,
            field.band@[r * grid + c],
        )
}

/// Whether cells are those that the ground or a wall closes.
pub open spec fn closed_at_all_heights<C: Fn(Calc) -> Scalar, T: Fn((Scalar, Scalar)) -> Sample>(
    calc: C,
    region: Region,
    grid: int,
    terrain: Option<&T>,
    zones: Seq<Zone>,
    cells: Seq<bool>,
) -> bool {
    &&& cells.len() == grid * grid
    &&& forall|i: int|
        0 <= i < cells.len() ==> #[trigger] cells[i] == (cell_forbidden(region, grid, terrain, i)
            || cell_closed(calc, region, grid, zones, zones.map_values(|z: Zone| z.wall()), i))
}

/// The grid that all vehicles share: closed where the ground or a wall closes
/// it, walls widened.
pub fn shared_field<C: Fn(Calc) -> Scalar, T: Fn((Scalar, Scalar)) -> Sample>(
    region: &Region,
    grid: usize,
    terrain: Option<&T>,
    zones: &Vec<Zone>,
    rings: usize,
    band: u32,
    calc: &C,
) -> (r: BandedGrid)
    requires
        is_function(*calc),
        terrain is Some ==> is_function(*terrain->0),
        grid <= 0xffff,
    ensures
        exists|cells: Seq<bool>| #[trigger]
            closed_at_all_heights(*calc, *region, grid as int, terrain, zones@, cells) && widened(
                cells,
                r,
                grid as int,
                rings as int,
                band,
            ),
{
    let ground: Vec<bool> = forbidden_cells(region, grid, terrain);
    let walls: Vec<bool> = walls_of(zones);
    let cells: Vec<bool> = close_cells(region, grid, zones, &walls, &ground, calc);
    let field: BandedGrid = apply_inflation_and_band(&cells, grid, rings, band);
    assert(closed_at_all_heights(*calc, *region, grid as int, terrain, zones@, cells@));
    field
}

/// The grid of one vehicle.
pub struct VehicleField {
    pub walls: Vec<bool>,
    /// The band beside the walls that were closed for this vehicle, where any
    /// were; it comes on top of the one of the shared grid.
    pub band: Option<Vec<u32>>,
}

/// Whether some zone is closed.
pub open spec fn some_closed(closed: Seq<bool>) -> bool {
    exists|k: int| 0 <= k < closed.len() && #[trigger] closed[k]
}

pub fn any_closed(closed: &Vec<bool>) -> (r: bool)
    ensures
        r == some_closed(closed@),
{
    let mut k: usize = 0;
    while k < closed.len()
        invariant
            k <= closed@.len(),
            forall|j: int| 0 <= j < k ==> !#[trigger] closed@[j],
        decreases closed.len() - k,
    {
        if closed[k] {
            return true;
        }
        k = k + 1;
    }
    false
}

/// Whether cells are those of a grid and those that zones close besides.
pub open spec fn also_closed<C: Fn(Calc) -> Scalar>(
    calc: C,
    region: Region,
    grid: int,
    zones: Seq<Zone>,
    closed: Seq<bool>,
    shared: Seq<bool>,
    cells: Seq<bool>,
) -> bool {
    &&& cells.len() == grid * grid
    &&& forall|i: int|
        0 <= i < cells.len() ==> #[trigger] cells[i] == (shared[i] || cell_closed(
            calc,
            region,
            grid,
            zones,
            closed,
            i,
        ))
}

/// The walls of a vehicle before high ground is closed: those of the shared
/// grid, and where a zone is closed for the vehicle, that too, all of it widened.
pub open spec fn vehicle_walls<C: Fn(Calc) -> Scalar>(
    calc: C,
    region: Region,
    grid: int,
    zones: Seq<Zone>,
    closed: Seq<bool>,
    shared: Seq<bool>,
    rings: int,
    band: u32,
    field: BandedGrid,
) -> bool {
    exists|cells: Seq<bool>| #[trigger]
        also_closed(calc, region, grid, zones, closed, shared, cells) && widened(
            cells,
            field,
            grid,
            rings,
            band,
        )
}

/// Closes zones for one vehicle on top of the shared grid and widens the result.
pub fn close_for_vehicle<C: Fn(Calc) -> Scalar>(
    region: &Region,
    grid: usize,
    zones: &Vec<Zone>,
    closed: &Vec<bool>,
    shared: &Vec<bool>,
    rings: usize,
    band: u32,
    calc: &C,
) -> (r: BandedGrid)
    requires
        is_function(*calc),
        closed@.len() == zones@.len(),
        shared@.len() == grid * grid,
    ensures
        vehicle_walls(
            *calc,
            *region,
            grid as int,
            zones@,
            closed@,
            shared@,
            rings as int,
            band,
            r,
        ),
{
    let cells: Vec<bool> = close_cells(region, grid, zones, closed, shared, calc);
    let field: BandedGrid = apply_inflation_and_band(&cells, grid, rings, band);
    assert(also_closed(
        *calc,
        *region,
        grid as int,
        zones@,
        closed@,
        shared@,
        cells@,
    ));
    field
}

/// Whether a search keeps off high ground: it was asked to, and there is terrain.
pub open spec fn avoids_high_ground<T: Fn((Scalar, Scalar)) -> Sample>(masked: bool, terrain: Option<&T>) -> bool {
    masked && terrain is Some
}

/// Whether walls are the given ones, and where asked for, high ground.
pub open spec fn with_high_ground<T: Fn((Scalar, Scalar)) -> Sample>(
    region: Region,
    grid: int,
    terrain: Option<&T>,
    masked: bool,
    alt_m: Scalar,
    clearance_m: Scalar,
    base: Seq<bool>,
    walls: Seq<bool>,
) -> bool {
    &&& walls.len() == base.len()
    &&& forall|i: int|
        0 <= i < walls.len() ==> #[trigger] walls[i] == (base[i] || (avoids_high_ground(
            masked,
            terrain,
        ) && cell_too_high(region, grid, *terrain->0, alt_m, clearance_m, i)))
}

/// The grid that one vehicle searches at a height: the shared one; the zones that
/// have to be closed for the vehicle, widened with it; and where asked for, land
/// that is too high. High ground is not widened, so that valleys stay open.
pub fn vehicle_field<C: Fn(Calc) -> Scalar, T: Fn((Scalar, Scalar)) -> Sample>(
    region: &Region,
    grid: usize,
    zones: &Vec<Zone>,
    closed: &Vec<bool>,
    shared: &Vec<bool>,
    rings: usize,
    band: u32,
    terrain: Option<&T>,
    masked: bool,
    alt_m: Scalar,
    clearance_m: Scalar,
    calc: &C,
) -> (r: VehicleField)
    requires
        is_function(*calc),
        terrain is Some ==> is_function(*terrain->0),
        closed@.len() == zones@.len(),
        shared@.len() == grid * grid,
    ensures
        !some_closed(closed@) ==> r.band is None && with_high_ground(
            *region,
            grid as int,
            terrain,
            masked,
            alt_m,
            clearance_m,
            shared@,
            r.walls@,
        ),
        some_closed(closed@) ==> r.band is Some && exists|field: BandedGrid| #[trigger]
            vehicle_walls(
                *calc,
                *region,
                grid as int,
                zones@,
                closed@,
                shared@,
                rings as int,
                band,
                field,
            ) && field.band == r.band->0 && with_high_ground(
                *region,
                grid as int,
                terrain,
                masked,
                alt_m,
                clearance_m,
                field.walls@,
                r.walls@,
            ),
{
    if any_closed(closed) {
        let field: BandedGrid = close_for_vehicle(
            region,
            grid,
            zones,
            closed,
            shared,
            rings,
            band,
            calc,
        );
        let walls: Vec<bool> = add_high_ground(
            region,
            grid,
            terrain,
            masked,
            alt_m,
            clearance_m,
            &field.walls,
        );
        let ghost whole_field = field;
        assert(vehicle_walls(
            *calc,
            *region,
            grid as int,
            zones@,
            closed@,
            shared@,
            rings as int,
            band,
            whole_field,
        ));
        VehicleField { walls, band: Some(field.band) }
    } else {
        let walls: Vec<bool> = add_high_ground(
            region,
            grid,
            terrain,
            masked,
            alt_m,
            clearance_m,
            shared,
        );
        VehicleField { walls, band: None }
    }
}

fn add_high_ground<T: Fn((Scalar, Scalar)) -> Sample>(
    region: &Region,
    grid: usize,
    terrain: Option<&T>,
    masked: bool,
    alt_m: Scalar,
    clearance_m: Scalar,
    base: &Vec<bool>,
) -> (r: Vec<bool>)
    requires
        terrain is Some ==> is_function(*terrain->0),
        base@.len() == grid * grid,
    ensures
        with_high_ground(
            *region,
            grid as int,
            terrain,
            masked,
            alt_m,
            clearance_m,
            base@,
            r@,
        ),
{
    if masked {
        if let Some(t) = terrain {
            return close_high_ground(region, grid, t, alt_m, clearance_m, base);
        }
    }
    let n: usize = base.len();
    let mut walls: Vec<bool> = Vec::new();
    let mut i: usize = 0;
    while i < n
        invariant
            n == base@.len(),
            i <= n,
            walls@.len() == i,
            forall|j: int| 0 <= j < i ==> #[trigger] walls@[j] == base@[j],
        decreases n - i,
    {
        walls.push(base[i]);
        i = i + 1;
    }
    walls
}

/// Whatever is closed on the shared grid is closed for every vehicle.
pub proof fn law_vehicle_keeps_shared_walls<C: Fn(Calc) -> Scalar>(
    calc: C,
    region: Region,
    grid: int,
    zones: Seq<Zone>,
    closed: Seq<bool>,
    shared: Seq<bool>,
    rings: int,
    band: u32,
    field: BandedGrid,
    r: int,
    c: int,
)
    requires
        rings >= 0,
        vehicle_walls(calc, region, grid, zones, closed, shared, rings, band, field),
        marked(shared, grid, r, c),
    ensures
        marked(field.walls@, grid, r, c),
{
    let cells = choose|cells: Seq<bool>| #[trigger]
        also_closed(calc, region, grid, zones, closed, shared, cells) && widened(
            cells,
            field,
            grid,
            rings,
            band,
        );
    assert(0 <= r * grid + c < grid * grid) by (nonlinear_arith)
        requires
            0 <= r < grid,
            0 <= c < grid,
    ;
    assert(cells[r * grid + c]);
    assert(marked(cells, grid, r, c));
    law_dilation_keeps_walls(cells, field.walls@, grid, rings, r, c);
}

/// The factor by which radars raise the cost of a cell, from the chance of
/// detection there and the depth in the nearest radar: none where no radar sees.
pub open spec fn radar_cost_factor(p: Scalar, depth: Scalar, coef: Scalar) -> Option<Scalar> {
    if p > whole(0) {
        let inside = if depth < whole(1) {
            whole(1) - depth
        } else {
            whole(0)
        };
        Some(whole(1) + coef * (p + inside))
    } else {
        None
    }
}

pub fn radar_factor(p: Scalar, depth: Scalar, coef: Scalar) -> (r: Option<Scalar>)
    ensures
        r == radar_cost_factor(p, depth, coef),
{
    if number(0).lt(&p) {
        let inside: Scalar = if depth.lt(&number(1)) { number(1) - depth } else { number(0) };
        Some(number(1) + coef * (p + inside))
    } else {
        None
    }
}

} // verus!
