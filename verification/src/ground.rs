//! The grids of costs that vehicles search.

use crate::config::Zone;
use crate::cost::{common_cost, own_cost, shared_cost, vehicle_cost};
use crate::field::{
    also_closed, avoids_high_ground, cell_closed, cell_forbidden, cell_too_high,
    closed_at_all_heights, col_of, radar_cost_factor, radar_factor, row_of, shared_field,
    some_closed, vehicle_field, vehicle_walls, widened, with_high_ground, VehicleField,
};
use crate::grid::{
    band_beside, grown, in_grid, king_distance, lemma_grown, lemma_wall_distance, marked,
    BandedGrid,
};
use crate::numeric::{number, whole};
use crate::oracle::{ask, image, is_function, Calc};
use crate::passage::infinity;
use crate::region::{cell_lonlat, Region};
use crate::scalar::Scalar;
use crate::terrain::Sample;
use vstd::arithmetic::div_mod::lemma_fundamental_div_mod;
use vstd::prelude::*;

verus! {

/// The ground at the middle of a cell; land at sea level where there is no terrain.
pub open spec fn ground_at<T: Fn((Scalar, Scalar)) -> Sample>(
    region: Region,
    grid: int,
    terrain: Option<&T>,
    i: int,
) -> Sample {
    match terrain {
        Some(t) => image(*t, region.cell_center(row_of(i, grid), col_of(i, grid), grid)),
        None => Sample::Land(whole(0)),
    }
}

/// The factor by which radars raise the cost of a cell.
pub open spec fn radar_at<
    R: Fn((Scalar, Scalar)) -> Scalar,
    P: Fn((Scalar, Scalar, Scalar)) -> Scalar,
>(region: Region, grid: int, chance: R, depth: P, coef: Scalar, i: int) -> Option<Scalar> {
    let (lon, lat) = region.cell_center(row_of(i, grid), col_of(i, grid), grid);
    radar_cost_factor(image(chance, (lon, lat)), image(depth, (lon, lat, whole(0))), coef)
}

/// The cells that the ground or a wall closes at all heights.
pub open spec fn closed_cells<C: Fn(Calc) -> Scalar, T: Fn((Scalar, Scalar)) -> Sample>(
    calc: C,
    region: Region,
    grid: int,
    terrain: Option<&T>,
    zones: Seq<Zone>,
) -> Seq<bool> {
    Seq::new(
        (grid * grid) as nat,
        |i: int|
            cell_forbidden(region, grid, terrain, i) || cell_closed(
                calc,
                region,
                grid,
                zones,
                zones.map_values(|z: Zone| z.wall()),
                i,
            ),
    )
}

/// What the cells of a grid cost all vehicles.
pub open spec fn shared_costs<
    T: Fn((Scalar, Scalar)) -> Sample,
    R: Fn((Scalar, Scalar)) -> Scalar,
    P: Fn((Scalar, Scalar, Scalar)) -> Scalar,
>(
    region: Region,
    grid: int,
    terrain: Option<&T>,
    chance: R,
    depth: P,
    coef: Scalar,
    walls: Seq<bool>,
    band: int,
) -> Seq<Scalar> {
    Seq::new(
        (grid * grid) as nat,
        |i: int|
            common_cost(
                ground_at(region, grid, terrain, i),
                walls[i],
                band_beside(walls, grid, band)[i],
                band,
                radar_at(region, grid, chance, depth, coef, i),
            ),
    )
}

/// The grid that all vehicles share.
pub struct Ground {
    pub walls: Vec<bool>,
    /// What the cells cost, row by row.
    pub cost: Vec<Scalar>,
    /// How many cells walls are widened by.
    pub rings: usize,
    /// Width in cells of the band beside a wall.
    pub band: u32,
}

impl Ground {
    /// Whether this grid is closed and costs what the ground, the walls and the radars
    /// of a region make it.
    pub open spec fn lies<
        C: Fn(Calc) -> Scalar,
        T: Fn((Scalar, Scalar)) -> Sample,
        R: Fn((Scalar, Scalar)) -> Scalar,
        P: Fn((Scalar, Scalar, Scalar)) -> Scalar,
    >(
        self,
        calc: C,
        region: Region,
        grid: int,
        terrain: Option<&T>,
        zones: Seq<Zone>,
        chance: R,
        depth: P,
        coef: Scalar,
    ) -> bool {
        &&& self.walls@ == grown(
            closed_cells(calc, region, grid, terrain, zones),
            grid,
            self.rings as int,
        )
        &&& self.cost@ == shared_costs(
            region,
            grid,
            terrain,
            chance,
            depth,
            coef,
            self.walls@,
            self.band as int,
        )
    }

    /// Whether this is a grid with so many cells along a side.
    pub open spec fn sized(self, grid: int) -> bool {
        self.walls@.len() == grid * grid && self.cost@.len() == grid * grid
    }
}

proof fn lemma_cell(grid: int, i: int)
    requires
        0 <= i < grid * grid,
        0 < grid,
    ensures
        in_grid(grid, i / grid, i % grid),
        (i / grid) * grid + i % grid == i,
{
    lemma_fundamental_div_mod(i, grid);
    assert(grid * (i / grid) == (i / grid) * grid) by (nonlinear_arith);
    assert(0 <= i / grid < grid) by (nonlinear_arith)
        requires
            i == grid * (i / grid) + i % grid,
            0 <= i < grid * grid,
            0 <= i % grid < grid,
            grid > 0,
    ;
}

/// Walls that were widened are those of the widened grid, and so is the band beside
/// them.
proof fn lemma_widened(cells: Seq<bool>, field: BandedGrid, grid: int, rings: int, band: u32)
    requires
        0 < grid,
        widened(cells, field, grid, rings, band),
    ensures
        field.walls@ == grown(cells, grid, rings),
        field.walls@.len() == grid * grid,
        field.band@.len() == grid * grid,
        forall|i: int|
            0 <= i < grid * grid ==> #[trigger] field.band@[i] == band_beside(
                field.walls@,
                grid,
                band as int,
            )[i],
{
    lemma_grown(cells, field.walls@, grid, rings);
    assert forall|i: int| 0 <= i < grid * grid implies #[trigger] field.band@[i] == band_beside(
        field.walls@,
        grid,
        band as int,
    )[i] by {
        lemma_cell(grid, i);
        assert(in_grid(grid, i / grid, i % grid));
        lemma_wall_distance(field.walls@, grid, i / grid, i % grid, band, field.band@[i]);
    }
}

fn sample_ground<T: Fn((Scalar, Scalar)) -> Sample>(terrain: Option<&T>, place: (Scalar, Scalar)) -> (r:
    Sample)
    requires
        terrain is Some ==> is_function(*terrain->0),
    ensures
        r == (match terrain {
            Some(t) => image(*t, place),
            None => Sample::Land(whole(0)),
        }),
{
    match terrain {
        Some(t) => ask(t, place),
        None => Sample::Land(number(0)),
    }
}

/// Lays out the grid that all vehicles share.
pub fn lay_ground<
    C: Fn(Calc) -> Scalar,
    T: Fn((Scalar, Scalar)) -> Sample,
    R: Fn((Scalar, Scalar)) -> Scalar,
    P: Fn((Scalar, Scalar, Scalar)) -> Scalar,
>(
    region: &Region,
    grid: usize,
    rings: usize,
    band: u32,
    zones: &Vec<Zone>,
    coef: Scalar,
    terrain: Option<&T>,
    chance: &R,
    depth: &P,
    calc: &C,
) -> (r: Ground)
    requires
        is_function(*calc),
        terrain is Some ==> is_function(*terrain->0),
        is_function(*chance),
        is_function(*depth),
        1 <= grid <= 0xffff,
    ensures
        r.lies(*calc, *region, grid as int, terrain, zones@, *chance, *depth, coef),
        r.sized(grid as int),
        r.rings == rings,
        r.band == band,
{
    let field: BandedGrid = shared_field(region, grid, terrain, zones, rings, band, calc);
    let ghost g = grid as int;
    let ghost cells = choose|cells: Seq<bool>| #[trigger]
        closed_at_all_heights(*calc, *region, g, terrain, zones@, cells) && widened(
            cells,
            field,
            g,
            rings as int,
            band,
        );
    proof {
        lemma_widened(cells, field, g, rings as int, band);
        assert(cells =~= closed_cells(*calc, *region, g, terrain, zones@));
    }
    let n: usize = field.walls.len();
    let mut cost: Vec<Scalar> = Vec::new();
    let ghost want = shared_costs(
        *region,
        g,
        terrain,
        *chance,
        *depth,
        coef,
        field.walls@,
        band as int,
    );
    let mut i: usize = 0;
    while i < n
        invariant
            terrain is Some ==> is_function(*terrain->0),
            is_function(*chance),
            is_function(*depth),
            1 <= grid,
            g == grid,
            n == field.walls@.len(),
            n == field.band@.len(),
            n == g * g,
            forall|j: int|
                0 <= j < g * g ==> #[trigger] field.band@[j] == band_beside(
                    field.walls@,
                    g,
                    band as int,
                )[j],
            want == shared_costs(
                *region,
                g,
                terrain,
                *chance,
                *depth,
                coef,
                field.walls@,
                band as int,
            ),
            i <= n,
            cost@.len() == i,
            forall|j: int| 0 <= j < i ==> #[trigger] cost@[j] == want[j],
        decreases n - i,
    {
        let place: (Scalar, Scalar) = cell_lonlat(i / grid, i % grid, region, grid);
        let factor: Option<Scalar> = radar_factor(
            ask(chance, place),
            ask(depth, (place.0, place.1, number(0))),
            coef,
        );
        let ground: Sample = sample_ground(terrain, place);
        cost.push(shared_cost(ground, field.walls[i], field.band[i], band, factor));
        i = i + 1;
    }
    assert(cost@ =~= want);
    Ground { walls: field.walls, cost, rings, band }
}

/// The cells closed on a grid and those that zones close besides.
pub open spec fn besides<C: Fn(Calc) -> Scalar>(
    calc: C,
    region: Region,
    grid: int,
    zones: Seq<Zone>,
    closed: Seq<bool>,
    walls: Seq<bool>,
) -> Seq<bool> {
    Seq::new(
        (grid * grid) as nat,
        |i: int| walls[i] || cell_closed(calc, region, grid, zones, closed, i),
    )
}

/// The walls of a vehicle before high ground is closed.
pub open spec fn own_walls<C: Fn(Calc) -> Scalar>(
    calc: C,
    region: Region,
    grid: int,
    zones: Seq<Zone>,
    closed: Seq<bool>,
    ground: Ground,
) -> Seq<bool> {
    if some_closed(closed) {
        grown(
            besides(calc, region, grid, zones, closed, ground.walls@),
            grid,
            ground.rings as int,
        )
    } else {
        ground.walls@
    }
}

/// What the cells of a grid cost one vehicle at a height: what they cost all of them,
/// but for the zones that are closed for this vehicle and, where it keeps off high
/// ground, land that is too high.
pub open spec fn vehicle_costs<C: Fn(Calc) -> Scalar, T: Fn((Scalar, Scalar)) -> Sample>(
    calc: C,
    region: Region,
    grid: int,
    terrain: Option<&T>,
    zones: Seq<Zone>,
    closed: Seq<bool>,
    ground: Ground,
    masked: bool,
    alt_m: Scalar,
    clearance_m: Scalar,
) -> Seq<Scalar> {
    let walls = own_walls(calc, region, grid, zones, closed, ground);
    Seq::new(
        (grid * grid) as nat,
        |i: int|
            own_cost(
                ground.cost@[i],
                walls[i] || (avoids_high_ground(masked, terrain) && cell_too_high(
                    region,
                    grid,
                    *terrain->0,
                    alt_m,
                    clearance_m,
                    i,
                )),
                if some_closed(closed) {
                    Some(band_beside(walls, grid, ground.band as int)[i])
                } else {
                    None
                },
                ground.band as int,
            ),
    )
}

/// What the cells of a grid cost one vehicle at a height.
pub fn find_vehicle_costs<C: Fn(Calc) -> Scalar, T: Fn((Scalar, Scalar)) -> Sample>(
    region: &Region,
    grid: usize,
    zones: &Vec<Zone>,
    closed: &Vec<bool>,
    ground: &Ground,
    terrain: Option<&T>,
    masked: bool,
    alt_m: Scalar,
    clearance_m: Scalar,
    calc: &C,
) -> (r: Vec<Scalar>)
    requires
        is_function(*calc),
        terrain is Some ==> is_function(*terrain->0),
        closed@.len() == zones@.len(),
        1 <= grid <= 0xffff,
        ground.sized(grid as int),
    ensures
        r@ == vehicle_costs(
            *calc,
            *region,
            grid as int,
            terrain,
            zones@,
            closed@,
            *ground,
            masked,
            alt_m,
            clearance_m,
        ),
{
    let own: VehicleField = vehicle_field(
        region,
        grid,
        zones,
        closed,
        &ground.walls,
        ground.rings,
        ground.band,
        terrain,
        masked,
        alt_m,
        clearance_m,
        calc,
    );
    let ghost g = grid as int;
    let ghost base = own_walls(*calc, *region, g, zones@, closed@, *ground);
    proof {
        if some_closed(closed@) {
            let field = choose|field: BandedGrid| #[trigger]
                vehicle_walls(
                    *calc,
                    *region,
                    g,
                    zones@,
                    closed@,
                    ground.walls@,
                    ground.rings as int,
                    ground.band,
                    field,
                ) && field.band == own.band->0 && with_high_ground(
                    *region,
                    g,
                    terrain,
                    masked,
                    alt_m,
                    clearance_m,
                    field.walls@,
                    own.walls@,
                );
            let cells = choose|cells: Seq<bool>| #[trigger]
                also_closed(*calc, *region, g, zones@, closed@, ground.walls@, cells) && widened(
                    cells,
                    field,
                    g,
                    ground.rings as int,
                    ground.band,
                );
            lemma_widened(cells, field, g, ground.rings as int, ground.band);
            assert(cells =~= besides(*calc, *region, g, zones@, closed@, ground.walls@));
            assert(field.walls@ == base);
        }
        assert(with_high_ground(
            *region,
            g,
            terrain,
            masked,
            alt_m,
            clearance_m,
            base,
            own.walls@,
        ));
    }
    let ghost want = vehicle_costs(
        *calc,
        *region,
        g,
        terrain,
        zones@,
        closed@,
        *ground,
        masked,
        alt_m,
        clearance_m,
    );
    let n: usize = ground.cost.len();
    let mut cost: Vec<Scalar> = Vec::new();
    let mut i: usize = 0;
    while i < n
        invariant
            n == g * g,
            ground.sized(g),
            own.walls@.len() == n,
            own.band is Some <==> some_closed(closed@),
            own.band is Some ==> own.band->0@.len() == n && forall|j: int|
                0 <= j < n ==> #[trigger] own.band->0@[j] == band_beside(
                    base,
                    g,
                    ground.band as int,
                )[j],
            base == own_walls(*calc, *region, g, zones@, closed@, *ground),
            with_high_ground(*region, g, terrain, masked, alt_m, clearance_m, base, own.walls@),
            want == vehicle_costs(
                *calc,
                *region,
                g,
                terrain,
                zones@,
                closed@,
                *ground,
                masked,
                alt_m,
                clearance_m,
            ),
            i <= n,
            cost@.len() == i,
            forall|j: int| 0 <= j < i ==> #[trigger] cost@[j] == want[j],
        decreases n - i,
    {
        let near: Option<u32> = match &own.band {
            Some(b) => Some(b[i]),
            None => None,
        };
        cost.push(vehicle_cost(ground.cost[i], own.walls[i], near, ground.band));
        i = i + 1;
    }
    assert(cost@ =~= want);
    cost
}

proof fn lemma_grown_keeps(cells: Seq<bool>, grid: int, rings: int, i: int)
    requires
        0 < grid,
        0 <= rings,
        0 <= i < grid * grid,
        cells.len() == grid * grid,
        cells[i],
    ensures
        grown(cells, grid, rings)[i],
{
    lemma_cell(grid, i);
    let (r, c) = (i / grid, i % grid);
    assert(marked(cells, grid, r, c) && king_distance(r, c, r, c) <= rings);
}

/// A wall is closed to every vehicle at every height: a cell whose middle lies in a
/// no-fly zone or an obstacle costs infinity.
pub proof fn law_walls_cost_infinity<
    C: Fn(Calc) -> Scalar,
    T: Fn((Scalar, Scalar)) -> Sample,
    R: Fn((Scalar, Scalar)) -> Scalar,
    P: Fn((Scalar, Scalar, Scalar)) -> Scalar,
>(
    calc: C,
    region: Region,
    grid: int,
    terrain: Option<&T>,
    zones: Seq<Zone>,
    chance: R,
    depth: P,
    coef: Scalar,
    ground: Ground,
    closed: Seq<bool>,
    masked: bool,
    alt_m: Scalar,
    clearance_m: Scalar,
    i: int,
)
    requires
        0 < grid,
        0 <= i < grid * grid,
        ground.lies(calc, region, grid, terrain, zones, chance, depth, coef),
        cell_closed(calc, region, grid, zones, zones.map_values(|z: Zone| z.wall()), i),
    ensures
        ground.cost@[i] == infinity(),
        vehicle_costs(
            calc,
            region,
            grid,
            terrain,
            zones,
            closed,
            ground,
            masked,
            alt_m,
            clearance_m,
        )[i] == infinity(),
{
    let cells = closed_cells(calc, region, grid, terrain, zones);
    assert(cells[i]);
    lemma_grown_keeps(cells, grid, ground.rings as int, i);
    assert(ground.walls@[i]);
    let more = besides(calc, region, grid, zones, closed, ground.walls@);
    assert(more[i]);
    lemma_grown_keeps(more, grid, ground.rings as int, i);
}

/// A zone that is closed for a vehicle costs it infinity.
pub proof fn law_closed_zones_cost_infinity<
    C: Fn(Calc) -> Scalar,
    T: Fn((Scalar, Scalar)) -> Sample,
>(
    calc: C,
    region: Region,
    grid: int,
    terrain: Option<&T>,
    zones: Seq<Zone>,
    closed: Seq<bool>,
    ground: Ground,
    masked: bool,
    alt_m: Scalar,
    clearance_m: Scalar,
    i: int,
)
    requires
        0 < grid,
        0 <= i < grid * grid,
        closed.len() == zones.len(),
        cell_closed(calc, region, grid, zones, closed, i),
    ensures
        vehicle_costs(
            calc,
            region,
            grid,
            terrain,
            zones,
            closed,
            ground,
            masked,
            alt_m,
            clearance_m,
        )[i] == infinity(),
{
    let more = besides(calc, region, grid, zones, closed, ground.walls@);
    assert(more[i]);
    lemma_grown_keeps(more, grid, ground.rings as int, i);
}

} // verus!
