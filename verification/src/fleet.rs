//! Planning all vehicles of a request.

use crate::config::{AircraftInput, DefaultParams, ParamsOverride, Zone};
use crate::coord::Geo;
use crate::error::{AppError, InputInvalidReason};
use crate::field::{band_cells, band_width};
use crate::ground::{lay_ground, Ground};
use crate::mission::{
    legal_flight, param_faults, radar_param_degradations, vehicles_of, ParamFault, VehicleSpec,
};
use crate::options::{
    bank_radius, or_else, planning_radius, planning_speed, smooth_options_for, SmoothOptions,
};
use crate::oracle::{is_function, Calc};
use crate::path::Path;
use crate::plan::VehiclePlan;
use crate::region::{
    cell_m, count_inflation_cells, grid_cells, grid_for, inflation_cells, inflation_for,
    most_room_m, region_of, search_region, Region,
};
use crate::scalar::Scalar;
use crate::task::{judges, searches, Cells, Search, Task, Warning};
use crate::terrain::Sample;
use crate::verify::ThreatReading;
use vstd::prelude::*;

verus! {

/// How a request is solved.
#[derive(Clone, Debug)]
pub struct SolveParams {
    pub terrain_path: Option<String>,
    /// Coast mask; a default one is looked for if none is named.
    pub mask_path: Option<String>,
    /// Cells along a side of the grid that are asked for.
    pub grid: usize,
}

impl Default for SolveParams {
    fn default() -> (r: SolveParams)
        ensures
            r.terrain_path is None,
            r.mask_path is None,
            r.grid == 256,
    {
        SolveParams { terrain_path: None, mask_path: None, grid: 256 }
    }
}

/// What all vehicles of a request share.
pub struct Survey {
    pub vehicles: Vec<VehicleSpec>,
    pub params: DefaultParams,
    pub region: Region,
    /// Cells along a side of the grid.
    pub grid: usize,
    /// Clearance to keep from walls, in metres.
    pub inflation_m: Scalar,
    /// How many cells walls are widened by.
    pub rings: u64,
    /// Width in cells of the band beside a wall.
    pub band: u32,
}

impl Survey {
    /// Whether the measures follow from the vehicles, the zones and the grid that
    /// was asked for.
    pub open spec fn measured(self, zones: Seq<Zone>, asked: int) -> bool {
        let n = self.vehicles@.len() as int;
        &&& n > 0
        &&& self.region == search_region(self.vehicles@, self.vehicles@[0].target)
        &&& self.grid == grid_cells(asked, self.region, zones)
        &&& self.inflation_m == most_room_m(self.vehicles@, self.params, n)
        &&& self.rings == inflation_cells(self.region, self.grid as int, self.inflation_m)
        &&& self.band == band_cells(self.region.cell_size_m(self.grid as int))
        &&& 8 <= self.grid <= 1024
    }

    /// Whether these are the vehicles of the aircraft, the merged parameters, and the
    /// measures that follow from them.
    pub open spec fn takes_stock(
        self,
        aircraft: Seq<AircraftInput>,
        zones: Seq<Zone>,
        overrides: ParamsOverride,
        asked: int,
    ) -> bool {
        &&& self.vehicles@.len() == aircraft.len()
        &&& forall|k: int|
            0 <= k < aircraft.len() ==> (#[trigger] self.vehicles@[k]).flies(aircraft[k])
        &&& exists|d: DefaultParams| #[trigger] d.merged(overrides) == self.params && d.usual()
        &&& self.measured(zones, asked)
    }
}

/// Why aircraft cannot be planned for: there are none, or one of them has an illegal
/// coordinate.
pub open spec fn flights_fault(aircraft: Seq<AircraftInput>) -> Option<InputInvalidReason> {
    if aircraft.len() == 0 {
        Some(InputInvalidReason::MissingAircraft)
    } else if forall|k: int| 0 <= k < aircraft.len() ==> legal_flight(#[trigger] aircraft[k]) {
        None
    } else {
        Some(InputInvalidReason::IllegalCoordinate)
    }
}

/// Takes stock of a request: its vehicles, the region to search and its grid.
pub fn survey<C: Fn(Calc) -> Scalar>(
    aircraft: &Vec<AircraftInput>,
    zones: &Vec<Zone>,
    overrides: &ParamsOverride,
    asked: usize,
    calc: &C,
) -> (r: Result<Survey, AppError>)
    requires
        is_function(*calc),
    ensures
        match flights_fault(aircraft@) {
            Some(fault) => r == Err::<Survey, AppError>(AppError::InputInvalid(fault)),
            None => r is Ok && r->Ok_0.takes_stock(
                aircraft@,
                zones@,
                *overrides,
                asked as int,
            ),
        },
{
    if aircraft.len() == 0 {
        return Err(AppError::InputInvalid(InputInvalidReason::MissingAircraft));
    }
    let vehicles: Vec<VehicleSpec> = match vehicles_of(aircraft) {
        Ok(v) => v,
        Err(e) => {
            return Err(e);
        },
    };
    let table: DefaultParams = DefaultParams::default();
    let params: DefaultParams = table.merge(overrides);
    assert(table.merged(*overrides) == params);
    let target: Geo = vehicles[0].target;
    let region: Region = region_of(&vehicles, &target);
    let grid: usize = grid_for(asked, &region, zones);
    let inflation_m: Scalar = inflation_for(&vehicles, &params, calc);
    let rings: u64 = count_inflation_cells(&region, grid, inflation_m);
    let band: u32 = band_width(cell_m(&region, grid));
    Ok(Survey { vehicles, params, region, grid, inflation_m, rings, band })
}

/// The functions that know the world.
pub struct World<
    'a,
    C: Fn(Calc) -> Scalar,
    T: Fn((Scalar, Scalar)) -> Sample,
    N: Fn((Scalar, Scalar)) -> bool,
    R: Fn((Scalar, Scalar)) -> Scalar,
    P: Fn((Scalar, Scalar, Scalar)) -> Scalar,
    E: Fn(Path) -> ThreatReading,
> {
    pub calc: &'a C,
    pub terrain: Option<&'a T>,
    pub nofly: Option<&'a N>,
    /// How likely detection is at a place.
    pub chance: &'a R,
    /// How deep a place and height lie in a radar.
    pub depth: &'a P,
    /// How likely a route is to be detected.
    pub judge: &'a E,
}

impl<
    'a,
    C: Fn(Calc) -> Scalar,
    T: Fn((Scalar, Scalar)) -> Sample,
    N: Fn((Scalar, Scalar)) -> bool,
    R: Fn((Scalar, Scalar)) -> Scalar,
    P: Fn((Scalar, Scalar, Scalar)) -> Scalar,
    E: Fn(Path) -> ThreatReading,
> World<'a, C, T, N, R, P, E> {
    /// The functions give one answer to one question.
    pub open spec fn settled(self) -> bool {
        &&& is_function(*self.calc)
        &&& self.terrain is Some ==> is_function(*self.terrain->0)
        &&& self.nofly is Some ==> is_function(*self.nofly->0)
        &&& is_function(*self.chance)
        &&& is_function(*self.depth)
        &&& judges(*self.judge)
    }

    /// Whether a grid is the one that the vehicles of a survey share.
    pub open spec fn grounds(self, ground: Ground, survey: Survey, zones: Seq<Zone>) -> bool {
        &&& ground.lies(
            *self.calc,
            survey.region,
            survey.grid as int,
            self.terrain,
            zones,
            *self.chance,
            *self.depth,
            survey.params.radar_cost_coef,
        )
        &&& ground.sized(survey.grid as int)
        &&& ground.rings == (if survey.rings < 0xffff {
            survey.rings
        } else {
            0xffff
        })
        &&& ground.band == survey.band
    }

    /// Lays out the grid that the vehicles of a survey share. More rings than the grid
    /// has cells would change nothing.
    pub fn make_ground(&self, survey: &Survey, zones: &Vec<Zone>) -> (r: Ground)
        requires
            self.settled(),
            1 <= survey.grid <= 1024,
        ensures
            self.grounds(r, *survey, zones@),
    {
        let rings: usize = if survey.rings < 0xffff { survey.rings as usize } else { 0xffff };
        lay_ground(
            &survey.region,
            survey.grid,
            rings,
            survey.band,
            zones,
            survey.params.radar_cost_coef,
            self.terrain,
            self.chance,
            self.depth,
            self.calc,
        )
    }
}

/// All vehicles of a request, and the world they fly in.
pub struct Fleet<
    'a,
    C: Fn(Calc) -> Scalar,
    T: Fn((Scalar, Scalar)) -> Sample,
    N: Fn((Scalar, Scalar)) -> bool,
    R: Fn((Scalar, Scalar)) -> Scalar,
    P: Fn((Scalar, Scalar, Scalar)) -> Scalar,
    E: Fn(Path) -> ThreatReading,
> {
    pub world: &'a World<'a, C, T, N, R, P, E>,
    pub zones: &'a Vec<Zone>,
    pub survey: &'a Survey,
    pub ground: &'a Ground,
}

impl<
    'a,
    C: Fn(Calc) -> Scalar,
    T: Fn((Scalar, Scalar)) -> Sample,
    N: Fn((Scalar, Scalar)) -> bool,
    R: Fn((Scalar, Scalar)) -> Scalar,
    P: Fn((Scalar, Scalar, Scalar)) -> Scalar,
    E: Fn(Path) -> ThreatReading,
> Fleet<'a, C, T, N, R, P, E> {
    /// The functions of the world give one answer to one question, and the grid has
    /// cells that can be counted.
    pub open spec fn settled(self) -> bool {
        &&& self.world.settled()
        &&& 1 <= self.survey.grid <= 0xffff
        &&& self.ground.sized(self.survey.grid as int)
    }

    /// The task of vehicle `k`.
    pub open spec fn task(self, k: int) -> Task<'a, C, T, N, P, E> {
        let v = &self.survey.vehicles@[k];
        let params = self.survey.params;
        Task {
            calc: self.world.calc,
            terrain: self.world.terrain,
            nofly: self.world.nofly,
            depth: self.world.depth,
            judge: self.world.judge,
            zones: self.zones,
            inflation_m: self.survey.inflation_m,
            region: self.survey.region,
            grid: self.survey.grid,
            ground: self.ground,
            vehicle: v,
            params: &self.survey.params,
            opts: SmoothOptions {
                aircraft_type: v.profile.aircraft_type,
                turn_radius_m: planning_radius(v.profile, params),
                max_climb_deg: or_else(
                    v.profile.max_climb_angle_deg,
                    params.default_max_climb_angle_deg,
                ),
                ..SmoothOptions::usual()
            },
            phys_m: bank_radius(
                *self.world.calc,
                planning_speed(v.profile, params),
                or_else(v.profile.max_bank_deg, params.default_max_bank_deg),
            ).smaller(planning_radius(v.profile, params)),
        }
    }

    /// Sets up the task of vehicle `k`.
    pub fn make_task(&self, k: usize) -> (r: Task<'a, C, T, N, P, E>)
        requires
            self.settled(),
            k < self.survey.vehicles@.len(),
        ensures
            r == self.task(k as int),
            r.settled(),
    {
        let vehicle: &'a VehicleSpec = &self.survey.vehicles[k];
        let (opts, phys_m): (SmoothOptions, Scalar) = smooth_options_for(
            &vehicle.profile,
            &self.survey.params,
            self.world.calc,
        );
        Task {
            calc: self.world.calc,
            terrain: self.world.terrain,
            nofly: self.world.nofly,
            depth: self.world.depth,
            judge: self.world.judge,
            zones: self.zones,
            inflation_m: self.survey.inflation_m,
            region: self.survey.region,
            grid: self.survey.grid,
            ground: self.ground,
            vehicle,
            params: &self.survey.params,
            opts,
            phys_m,
        }
    }

    /// Whether plans are those of the first vehicles, with the degradations that
    /// stand after each of them.
    pub open spec fn are_plans<F: Fn(Search) -> Option<Cells>>(
        self,
        search: F,
        plans: Seq<VehiclePlan>,
        logs: Seq<Seq<Warning>>,
    ) -> bool {
        &&& logs.len() == plans.len() + 1
        &&& logs[0] == Seq::<Warning>::empty()
        &&& forall|k: int|
            0 <= k < plans.len() ==> #[trigger] self.plans_one(search, plans, logs, k)
    }

    /// Whether plan `k` is that of vehicle `k`.
    pub open spec fn plans_one<F: Fn(Search) -> Option<Cells>>(
        self,
        search: F,
        plans: Seq<VehiclePlan>,
        logs: Seq<Seq<Warning>>,
        k: int,
    ) -> bool {
        self.task(k).is_plan(search, plans[k], logs[k], logs[k + 1])
    }
    /// Plans all vehicles, one after the other. Returns their plans and the
    /// degradations of the whole run.
    pub fn plan_all<F: Fn(Search) -> Option<Cells>>(&self, search: &F) -> (r: (
        Vec<VehiclePlan>,
        Vec<Warning>,
    ))
        requires
            self.settled(),
            searches(*search),
        ensures
            self.plans_all(*search, r.0@, r.1@),
    {
        let mut plans: Vec<VehiclePlan> = Vec::new();
        let mut degradations: Vec<Warning> = Vec::new();
        let ghost mut logs: Seq<Seq<Warning>> = seq![Seq::<Warning>::empty()];
        assert(degradations@ =~= Seq::<Warning>::empty());
        let mut k: usize = 0;
        while k < self.survey.vehicles.len()
            invariant
                self.settled(),
                searches(*search),
                k <= self.survey.vehicles@.len(),
                plans@.len() == k,
                self.are_plans(*search, plans@, logs),
                logs.last() == degradations@,
            decreases self.survey.vehicles.len() - k,
        {
            let ghost had = plans@;
            let ghost told = logs;
            let task: Task<'a, C, T, N, P, E> = self.make_task(k);
            let plan: VehiclePlan = task.plan(search, &mut degradations);
            plans.push(plan);
            proof {
                logs = logs.push(degradations@);
                assert forall|i: int| 0 <= i < plans@.len() implies #[trigger] self.plans_one(
                    *search,
                    plans@,
                    logs,
                    i,
                ) by {
                    if i < had.len() {
                        assert(self.plans_one(*search, had, told, i));
                        assert(plans@[i] == had[i]);
                        assert(logs[i] == told[i] && logs[i + 1] == told[i + 1]);
                    }
                }
            }
            k = k + 1;
        }
        (plans, degradations)
    }

    /// Whether plans are those of all vehicles, with the degradations that stand after
    /// the last of them.
    pub open spec fn plans_all<F: Fn(Search) -> Option<Cells>>(
        self,
        search: F,
        plans: Seq<VehiclePlan>,
        degradations: Seq<Warning>,
    ) -> bool {
        &&& plans.len() == self.survey.vehicles@.len()
        &&& exists|logs: Seq<Seq<Warning>>| #[trigger]
            self.are_plans(search, plans, logs) && logs.last() == degradations
    }
}

/// The routes planned for a request.
pub struct Solution {
    pub survey: Survey,
    /// The parameters that fell back to their defaults.
    pub faults: Vec<ParamFault>,
    /// One plan for each vehicle of the survey.
    pub plans: Vec<VehiclePlan>,
    pub degradations: Vec<Warning>,
}

impl Solution {
    /// Whether the plans are those of the vehicles, each searched for over the grid of
    /// costs that the world makes.
    pub open spec fn solves<
        'a,
        C: Fn(Calc) -> Scalar,
        T: Fn((Scalar, Scalar)) -> Sample,
        N: Fn((Scalar, Scalar)) -> bool,
        R: Fn((Scalar, Scalar)) -> Scalar,
        P: Fn((Scalar, Scalar, Scalar)) -> Scalar,
        E: Fn(Path) -> ThreatReading,
        F: Fn(Search) -> Option<Cells>,
    >(
        self,
        world: &'a World<'a, C, T, N, R, P, E>,
        zones: &'a Vec<Zone>,
        search: F,
    ) -> bool {
        exists|ground: Ground| #[trigger]
            world.grounds(ground, self.survey, zones@) && (Fleet {
                world,
                zones,
                survey: &self.survey,
                ground: &ground,
            }).plans_all(search, self.plans@, self.degradations@)
    }
}

/// Plans a request: takes stock of it, lays out the grid and plans all vehicles. The
/// search finds the cheapest way over a grid of costs.
pub fn solve<
    'a,
    C: Fn(Calc) -> Scalar,
    T: Fn((Scalar, Scalar)) -> Sample,
    N: Fn((Scalar, Scalar)) -> bool,
    R: Fn((Scalar, Scalar)) -> Scalar,
    P: Fn((Scalar, Scalar, Scalar)) -> Scalar,
    E: Fn(Path) -> ThreatReading,
    F: Fn(Search) -> Option<Cells>,
>(
    aircraft: &Vec<AircraftInput>,
    zones: &'a Vec<Zone>,
    overrides: &ParamsOverride,
    params: &SolveParams,
    world: &'a World<'a, C, T, N, R, P, E>,
    search: &F,
) -> (r: Result<Solution, AppError>)
    requires
        world.settled(),
        searches(*search),
    ensures
        match flights_fault(aircraft@) {
            Some(fault) => r == Err::<Solution, AppError>(AppError::InputInvalid(fault)),
            None => {
                &&& r is Ok
                &&& r->Ok_0.survey.takes_stock(
                    aircraft@,
                    zones@,
                    *overrides,
                    params.grid as int,
                )
                &&& r->Ok_0.faults@ == param_faults(*overrides)
                &&& r->Ok_0.solves(world, zones, *search)
            },
        },
{
    let survey: Survey = match survey(aircraft, zones, overrides, params.grid, world.calc) {
        Ok(s) => s,
        Err(e) => {
            return Err(e);
        },
    };
    let faults: Vec<ParamFault> = radar_param_degradations(overrides);
    let ground: Ground = world.make_ground(&survey, zones);
    let (plans, degradations): (Vec<VehiclePlan>, Vec<Warning>) = {
        let fleet = Fleet { world, zones, survey: &survey, ground: &ground };
        fleet.plan_all(search)
    };
    assert(world.grounds(ground, survey, zones@));
    Ok(Solution { survey, faults, plans, degradations })
}

} // verus!
