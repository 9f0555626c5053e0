//! Planning a request twice gives the same routes, whatever heights are given for the
//! walls.

use crate::airspace::{
    lemma_same_besides, lemma_same_choice, lemma_same_closed_cells, lemma_same_findings,
    lemma_same_grid, lemma_same_pass, lemma_same_profiles, lemma_same_stage_findings,
    same_airspace, same_zone,
};
use crate::chain::usual_chain;
use crate::config::{AircraftInput, DefaultParams, ParamsOverride, Zone};
use crate::fleet::{Fleet, Solution, Survey, World};
use crate::ground::{own_walls, Ground};
use crate::legrule::{lemma_same_joint, lemma_same_segments, lemma_same_stages};
use crate::mission::{joined, VehicleSpec};
use crate::numeric::whole;
use crate::oracle::Calc;
use crate::parts::Smoothed;
use crate::path::{Path, PathPoint};
use crate::plan::{Flight, Step, VehiclePlan};
use crate::region::{extent_of, most_room_m};
use crate::scalar::Scalar;
use crate::task::{Attempt, Cells, Search, Task, Warning};
use crate::terrain::Sample;
use crate::verify::ThreatReading;
use vstd::prelude::*;

verus! {

/// Whether two vehicles fly the same, whatever they are called.
pub open spec fn same_flight(v: VehicleSpec, w: VehicleSpec) -> bool {
    &&& v.start == w.start
    &&& v.target == w.target
    &&& v.alt_m == w.alt_m
    &&& v.profile == w.profile
    &&& v.mid_waypoints@ == w.mid_waypoints@
}

/// Whether two grids are closed and cost the same.
pub open spec fn same_ground(g: Ground, h: Ground) -> bool {
    &&& g.walls@ == h.walls@
    &&& g.cost@ == h.cost@
    &&& g.rings == h.rings
    &&& g.band == h.band
}

impl<
    'a,
    C: Fn(Calc) -> Scalar,
    T: Fn((Scalar, Scalar)) -> Sample,
    N: Fn((Scalar, Scalar)) -> bool,
    P: Fn((Scalar, Scalar, Scalar)) -> Scalar,
    E: Fn(Path) -> ThreatReading,
> Task<'a, C, T, N, P, E> {
    /// Whether another task is the same but for the name of the vehicle, and for what
    /// is not read of the zones.
    pub open spec fn alike(self, u: Self) -> bool {
        &&& self == (Task {
            vehicle: self.vehicle,
            ground: self.ground,
            zones: self.zones,
            ..u
        })
        &&& same_airspace(self.zones@, u.zones@)
        &&& same_flight(*self.vehicle, *u.vehicle)
        &&& same_ground(*self.ground, *u.ground)
    }

    proof fn lemma_same_ends(self, u: Self)
        requires
            self.alike(u),
        ensures
            self.ends() == u.ends(),
            forall|i: int| #[trigger] self.end_cell(i) == u.end_cell(i),
            forall|p: PathPoint| #[trigger] self.is_place(p) == u.is_place(p),
    {
        assert(self.ends() =~= u.ends());
    }

    proof fn lemma_same_closed_zones(self, u: Self, a: Attempt)
        requires
            self.alike(u),
        ensures
            self.closed_zones(a) == u.closed_zones(a),
    {
        let (s, t) = (self.zones@, u.zones@);
        let limits = self.performance(a.alt_m);
        let v = *self.vehicle;
        assert forall|k: int| 0 <= k < s.len() implies self.closed_zones(a)[k] == u.closed_zones(
            a,
        )[k] by {
            assert(same_zone(s[k], t[k]));
            if !s[k].wall() {
                lemma_same_pass(
                    *self.calc,
                    self.terrain,
                    s[k],
                    t[k],
                    limits,
                    v.start,
                    v.target,
                    Seq::<PathPoint>::empty(),
                    None,
                );
            }
        }
        assert(self.closed_zones(a) =~= u.closed_zones(a));
    }

    proof fn lemma_same_costs(self, u: Self, a: Attempt)
        requires
            self.alike(u),
        ensures
            self.costs(a) == u.costs(a),
    {
        reveal(Task::costs);
        self.lemma_same_closed_zones(u, a);
        let closed = self.closed_zones(a);
        let g = self.grid as int;
        let walls = self.ground.walls@;
        lemma_same_besides(*self.calc, self.region, g, self.zones@, u.zones@, closed, walls);
        let one = own_walls(*self.calc, self.region, g, self.zones@, closed, *self.ground);
        let other = own_walls(*self.calc, self.region, g, u.zones@, closed, *u.ground);
        assert(one == other);
        assert(self.costs(a) =~= u.costs(a));
    }

    proof fn lemma_same_legs<F: Fn(Search) -> Option<Cells>>(
        self,
        u: Self,
        search: F,
        a: Attempt,
        k: int,
    )
        requires
            self.alike(u),
        ensures
            self.raw_legs(search, a, k) == u.raw_legs(search, a, k),
        decreases k,
    {
        if k > 0 {
            self.lemma_same_legs(u, search, a, k - 1);
            self.lemma_same_costs(u, a);
            self.lemma_same_ends(u);
            assert(self.end_cell(k - 1) == u.end_cell(k - 1));
            assert(self.end_cell(k) == u.end_cell(k));
        }
    }

    proof fn lemma_same_cut(self, u: Self, legs: Seq<Seq<PathPoint>>, alt_m: Scalar, k: int)
        requires
            self.alike(u),
        ensures
            self.cut(legs, alt_m, k) == u.cut(legs, alt_m, k),
        decreases k,
    {
        if k > 0 {
            self.lemma_same_cut(u, legs, alt_m, k - 1);
            assert(self.zones.len() == self.zones@.len());
            lemma_same_profiles(
                *self.calc,
                self.terrain,
                legs[k - 1],
                self.zones@,
                u.zones@,
                self.performance(alt_m),
                self.vehicle.start,
                self.vehicle.target,
                self.inflation_m / whole(1000),
            );
        }
    }

    proof fn lemma_same_straight(self, u: Self, alt_m: Scalar, k: int)
        requires
            self.alike(u),
        ensures
            self.straight(alt_m, k) == u.straight(alt_m, k),
        decreases k,
    {
        if k > 0 {
            self.lemma_same_straight(u, alt_m, k - 1);
            self.lemma_same_ends(u);
        }
    }

    proof fn lemma_same_smoothing(self, u: Self, s: Smoothed, seg: Seq<PathPoint>, fixed: bool)
        requires
            self.alike(u),
        ensures
            self.after_smoothing(s, seg, fixed) == u.after_smoothing(s, seg, fixed),
    {
        reveal(Task::after_smoothing);
        self.lemma_same_ends(u);
        let (one, other) = (self.leg_check(), u.leg_check());
        lemma_same_segments(one, other);
        let limit = self.entry_limit(seg);
        assert(limit == u.entry_limit(seg));
        lemma_same_stages(
            self.opts,
            &one,
            &other,
            s.heading,
            limit,
            self.calc,
            seg,
            usual_chain(self.opts, &one, s.heading, limit, self.calc).len() as int,
        );
        let st = self.part_stages(seg, s.heading);
        assert(st == u.part_stages(seg, s.heading));
        let (c, d) = (self.context(), u.context());
        let phys = Some(self.phys_m);
        lemma_same_choice(*self.calc, c, d, self.opts, st, phys, 0);
        match self.part_choice(st) {
            Some(i) => lemma_same_stage_findings(*self.calc, c, d, self.opts, st, phys, i),
            None => lemma_same_findings(*self.calc, c, d, self.opts, st[0].1, None, phys),
        }
        assert(self.part_notes(st) == u.part_notes(st));
    }

    proof fn lemma_same_joining(self, u: Self, s: Smoothed, part: Seq<PathPoint>)
        requires
            self.alike(u),
        ensures
            self.after_joining(s, part) == u.after_joining(s, part),
    {
        reveal(Task::after_joining);
        self.lemma_same_ends(u);
        let prev = s.parts.last();
        let b = prev.last();
        lemma_same_segments(self.leg_check(), u.leg_check());
        assert(self.is_place(b) == u.is_place(b));
        lemma_same_joint(
            *self.calc,
            self.leg_check(),
            u.leg_check(),
            prev[prev.len() - 2],
            b,
            part[1],
            self.opts,
            self.zones@,
            u.zones@,
            self.inflation_m,
            self.is_place(b),
        );
    }

    proof fn lemma_same_smoothed(
        self,
        u: Self,
        parts: Seq<Seq<PathPoint>>,
        mask: Seq<bool>,
        k: int,
    )
        requires
            self.alike(u),
        ensures
            self.smoothed(parts, mask, k) == u.smoothed(parts, mask, k),
        decreases k,
    {
        if k > 0 {
            self.lemma_same_smoothed(u, parts, mask, k - 1);
            let before = self.smoothed(parts, mask, k - 1);
            self.lemma_same_smoothing(u, before, parts[k - 1], mask[k - 1]);
            let (s, part) = self.after_smoothing(before, parts[k - 1], mask[k - 1]);
            self.lemma_same_joining(u, s, part);
        }
    }

    proof fn lemma_same_found(self, u: Self)
        requires
            self.alike(u),
        ensures
            forall|pts: Seq<PathPoint>| #[trigger] self.findings(pts) == u.findings(pts),
    {
        assert forall|pts: Seq<PathPoint>| #[trigger] self.findings(pts) == u.findings(pts) by {
            lemma_same_findings(
                *self.calc,
                self.context(),
                u.context(),
                self.opts,
                pts,
                None,
                Some(self.phys_m),
            );
        }
    }

    proof fn lemma_same_settle(
        self,
        u: Self,
        a: Attempt,
        raw: Seq<PathPoint>,
        s: Smoothed,
        warnings: Seq<Warning>,
        degradations: Seq<Warning>,
    )
        requires
            self.alike(u),
        ensures
            self.settle(a, raw, s, warnings, degradations) == u.settle(
                a,
                raw,
                s,
                warnings,
                degradations,
            ),
    {
        self.lemma_same_found(u);
        self.lemma_same_ends(u);
        self.lemma_same_straight(u, a.alt_m, self.ends().len() as int);
        assert(self.straight_route(a.alt_m) == u.straight_route(a.alt_m));
    }

    proof fn lemma_same_given_up(
        self,
        u: Self,
        raw: Seq<PathPoint>,
        alt_m: Scalar,
        warnings: Seq<Warning>,
        degradations: Seq<Warning>,
    )
        requires
            self.alike(u),
        ensures
            self.given_up(raw, alt_m, warnings, degradations) == u.given_up(
                raw,
                alt_m,
                warnings,
                degradations,
            ),
    {
        self.lemma_same_found(u);
        self.lemma_same_ends(u);
        self.lemma_same_straight(u, alt_m, self.ends().len() as int);
        assert(self.straight_route(alt_m) == u.straight_route(alt_m));
    }

    proof fn lemma_same_step<F: Fn(Search) -> Option<Cells>>(
        self,
        u: Self,
        search: F,
        f: Flight,
        degradations: Seq<Warning>,
    )
        requires
            self.alike(u),
        ensures
            self.step(search, f, degradations) == u.step(search, f, degradations),
    {
        reveal(Task::step);
        let n = self.ends().len() as int;
        self.lemma_same_ends(u);
        self.lemma_same_legs(u, search, f.attempt, n - 1);
        if let Some(legs) = self.raw_legs(search, f.attempt, n - 1) {
            let alt_m = f.attempt.alt_m;
            self.lemma_same_cut(u, legs, alt_m, legs.len() as int);
            let cut = self.cut(legs, alt_m, legs.len() as int);
            self.lemma_same_smoothed(u, cut.parts, cut.mask, cut.parts.len() as int);
            assert(self.raise_at_first(f.attempt) == u.raise_at_first(f.attempt));
            self.lemma_same_given_up(
                u,
                joined(legs, legs.len() as int),
                alt_m,
                f.warnings,
                degradations,
            );
            self.lemma_same_settle(
                u,
                f.attempt,
                joined(legs, legs.len() as int),
                self.smoothed(cut.parts, cut.mask, cut.parts.len() as int),
                f.warnings,
                degradations,
            );
        }
    }

    proof fn lemma_same_flown<F: Fn(Search) -> Option<Cells>>(
        self,
        u: Self,
        search: F,
        f: Flight,
        degradations: Seq<Warning>,
        left: nat,
    )
        requires
            self.alike(u),
        ensures
            self.flown(search, f, degradations, left) == u.flown(search, f, degradations, left),
        decreases left,
    {
        if left > 0 {
            self.lemma_same_step(u, search, f, degradations);
            if let Step::Again(next) = self.step(search, f, degradations) {
                self.lemma_same_flown(u, search, next, degradations, (left - 1) as nat);
            }
        } else {
            self.lemma_same_given_up(u, f.raw, f.made.alt_m, f.warnings, degradations);
        }
    }

    proof fn lemma_same_plan<F: Fn(Search) -> Option<Cells>>(
        self,
        u: Self,
        search: F,
        p: VehiclePlan,
        q: VehiclePlan,
        before: Seq<Warning>,
        after_p: Seq<Warning>,
        after_q: Seq<Warning>,
    )
        requires
            self.alike(u),
            self.is_plan(search, p, before, after_p),
            u.is_plan(search, q, before, after_q),
        ensures
            same_plan(p, q),
            after_p == after_q,
    {
        self.lemma_same_flown(u, search, self.before_flight(), before, 6);
        assert(self.before_flight() == u.before_flight());
        if !p.planned {
            assert(p.path@ =~= q.path@);
        }
    }
}

/// Whether two plans say the same.
pub open spec fn same_plan(p: VehiclePlan, q: VehiclePlan) -> bool {
    &&& p.planned == q.planned
    &&& p.path@ == q.path@
    &&& p.distance_m == q.distance_m
    &&& p.warnings@ == q.warnings@
}

proof fn lemma_one_table(d: DefaultParams, e: DefaultParams)
    requires
        d.usual(),
        e.usual(),
    ensures
        d == e,
{
    let (a, b) = (d.default_weapon_range_km, e.default_weapon_range_km);
    assert forall|i: int| 0 <= i < 2 implies a[i] == b[i] by {
        assert(i == 0 || i == 1);
    }
    assert(a =~= b);
}

proof fn lemma_same_extent(s: Seq<VehicleSpec>, t: Seq<VehicleSpec>, k: int)
    requires
        k <= s.len(),
        forall|i: int| 0 <= i < k ==> #[trigger] same_flight(s[i], t[i]),
    ensures
        extent_of(s, k) == extent_of(t, k),
    decreases k,
{
    if k > 0 {
        assert(same_flight(s[k - 1], t[k - 1]));
        lemma_same_extent(s, t, k - 1);
    }
}

proof fn lemma_same_room(
    s: Seq<VehicleSpec>,
    t: Seq<VehicleSpec>,
    params: DefaultParams,
    k: int,
)
    requires
        k <= s.len(),
        forall|i: int| 0 <= i < k ==> #[trigger] same_flight(s[i], t[i]),
    ensures
        most_room_m(s, params, k) == most_room_m(t, params, k),
    decreases k,
{
    if k > 0 {
        assert(same_flight(s[k - 1], t[k - 1]));
        lemma_same_room(s, t, params, k - 1);
    }
}

/// Taking stock of a request twice gives the same measures.
proof fn lemma_same_survey(
    aircraft: Seq<AircraftInput>,
    zones: Seq<Zone>,
    others: Seq<Zone>,
    overrides: ParamsOverride,
    asked: int,
    s: Survey,
    t: Survey,
)
    requires
        same_airspace(zones, others),
        s.takes_stock(aircraft, zones, overrides, asked),
        t.takes_stock(aircraft, others, overrides, asked),
    ensures
        s.vehicles@.len() == t.vehicles@.len(),
        forall|i: int|
            0 <= i < s.vehicles@.len() ==> #[trigger] same_flight(s.vehicles@[i], t.vehicles@[i]),
        s.params == t.params,
        s.region == t.region,
        s.grid == t.grid,
        s.inflation_m == t.inflation_m,
        s.rings == t.rings,
        s.band == t.band,
{
    let d = choose|d: DefaultParams| #[trigger] d.merged(overrides) == s.params && d.usual();
    let e = choose|d: DefaultParams| #[trigger] d.merged(overrides) == t.params && d.usual();
    lemma_one_table(d, e);
    let (v, w) = (s.vehicles@, t.vehicles@);
    assert forall|i: int| 0 <= i < v.len() implies #[trigger] same_flight(v[i], w[i]) by {
        assert(v[i].flies(aircraft[i]));
        assert(w[i].flies(aircraft[i]));
    }
    assert(same_flight(v[0], w[0]));
    lemma_same_extent(v, w, v.len() as int);
    lemma_same_room(v, w, s.params, v.len() as int);
    lemma_same_grid(asked, s.region, zones, others);
}

impl<
    'a,
    C: Fn(Calc) -> Scalar,
    T: Fn((Scalar, Scalar)) -> Sample,
    N: Fn((Scalar, Scalar)) -> bool,
    R: Fn((Scalar, Scalar)) -> Scalar,
    P: Fn((Scalar, Scalar, Scalar)) -> Scalar,
    E: Fn(Path) -> ThreatReading,
> Fleet<'a, C, T, N, R, P, E> {
    /// Whether another fleet flies the same in the same world.
    pub open spec fn alike(self, u: Self) -> bool {
        &&& self.world == u.world
        &&& same_airspace(self.zones@, u.zones@)
        &&& self.survey.vehicles@.len() == u.survey.vehicles@.len()
        &&& forall|i: int|
            0 <= i < self.survey.vehicles@.len() ==> #[trigger] same_flight(
                self.survey.vehicles@[i],
                u.survey.vehicles@[i],
            )
        &&& self.survey.params == u.survey.params
        &&& self.survey.region == u.survey.region
        &&& self.survey.grid == u.survey.grid
        &&& self.survey.inflation_m == u.survey.inflation_m
        &&& same_ground(*self.ground, *u.ground)
    }

    proof fn lemma_same_plans<F: Fn(Search) -> Option<Cells>>(
        self,
        u: Self,
        search: F,
        p: Seq<VehiclePlan>,
        q: Seq<VehiclePlan>,
        told_p: Seq<Seq<Warning>>,
        told_q: Seq<Seq<Warning>>,
        k: int,
    )
        requires
            self.alike(u),
            self.are_plans(search, p, told_p),
            u.are_plans(search, q, told_q),
            p.len() == q.len() == self.survey.vehicles@.len(),
            0 <= k <= p.len(),
        ensures
            told_p[k] == told_q[k],
            forall|i: int| 0 <= i < k ==> #[trigger] same_plan(p[i], q[i]),
        decreases k,
    {
        if k > 0 {
            self.lemma_same_plans(u, search, p, q, told_p, told_q, k - 1);
            let i = k - 1;
            assert(self.plans_one(search, p, told_p, i));
            assert(u.plans_one(search, q, told_q, i));
            assert(same_flight(self.survey.vehicles@[i], u.survey.vehicles@[i]));
            assert(self.task(i).alike(u.task(i)));
            self.task(i).lemma_same_plan(
                u.task(i),
                search,
                p[i],
                q[i],
                told_p[i],
                told_p[i + 1],
                told_q[i + 1],
            );
        }
    }
}

/// The heights given for a wall, and the names of the zones, do not matter: two
/// requests whose zones forbid the same, in one world and over the same search, give
/// every vehicle the same route and report the same degradations.
pub proof fn law_heights_of_walls_do_not_matter<
    'a,
    C: Fn(Calc) -> Scalar,
    T: Fn((Scalar, Scalar)) -> Sample,
    N: Fn((Scalar, Scalar)) -> bool,
    R: Fn((Scalar, Scalar)) -> Scalar,
    P: Fn((Scalar, Scalar, Scalar)) -> Scalar,
    E: Fn(Path) -> ThreatReading,
    F: Fn(Search) -> Option<Cells>,
>(
    aircraft: Seq<AircraftInput>,
    zones: &'a Vec<Zone>,
    others: &'a Vec<Zone>,
    overrides: ParamsOverride,
    asked: int,
    world: &'a World<'a, C, T, N, R, P, E>,
    search: F,
    s: Solution,
    t: Solution,
)
    requires
        same_airspace(zones@, others@),
        s.survey.takes_stock(aircraft, zones@, overrides, asked),
        t.survey.takes_stock(aircraft, others@, overrides, asked),
        s.solves(world, zones, search),
        t.solves(world, others, search),
    ensures
        s.plans@.len() == t.plans@.len() == aircraft.len(),
        forall|i: int|
            0 <= i < aircraft.len() ==> #[trigger] same_plan(s.plans@[i], t.plans@[i]),
        s.degradations@ == t.degradations@,
{
    lemma_same_survey(aircraft, zones@, others@, overrides, asked, s.survey, t.survey);
    let g = choose|g: Ground| #[trigger]
        world.grounds(g, s.survey, zones@) && (Fleet {
            world,
            zones,
            survey: &s.survey,
            ground: &g,
        }).plans_all(search, s.plans@, s.degradations@);
    let h = choose|g: Ground| #[trigger]
        world.grounds(g, t.survey, others@) && (Fleet {
            world,
            zones: others,
            survey: &t.survey,
            ground: &g,
        }).plans_all(search, t.plans@, t.degradations@);
    lemma_same_closed_cells(
        *world.calc,
        s.survey.region,
        s.survey.grid as int,
        world.terrain,
        zones@,
        others@,
    );
    let one = Fleet { world, zones, survey: &s.survey, ground: &g };
    let other = Fleet { world, zones: others, survey: &t.survey, ground: &h };
    assert(one.alike(other));
    let told = choose|logs: Seq<Seq<Warning>>| #[trigger]
        one.are_plans(search, s.plans@, logs) && logs.last() == s.degradations@;
    let said = choose|logs: Seq<Seq<Warning>>| #[trigger]
        other.are_plans(search, t.plans@, logs) && logs.last() == t.degradations@;
    one.lemma_same_plans(
        other,
        search,
        s.plans@,
        t.plans@,
        told,
        said,
        aircraft.len() as int,
    );
}

/// Planning is repeatable: two solutions of one request in one world, over the same
/// search, give every vehicle the same route and report the same degradations.
pub proof fn law_solving_is_repeatable<
    'a,
    C: Fn(Calc) -> Scalar,
    T: Fn((Scalar, Scalar)) -> Sample,
    N: Fn((Scalar, Scalar)) -> bool,
    R: Fn((Scalar, Scalar)) -> Scalar,
    P: Fn((Scalar, Scalar, Scalar)) -> Scalar,
    E: Fn(Path) -> ThreatReading,
    F: Fn(Search) -> Option<Cells>,
>(
    aircraft: Seq<AircraftInput>,
    zones: &'a Vec<Zone>,
    overrides: ParamsOverride,
    asked: int,
    world: &'a World<'a, C, T, N, R, P, E>,
    search: F,
    s: Solution,
    t: Solution,
)
    requires
        s.survey.takes_stock(aircraft, zones@, overrides, asked),
        t.survey.takes_stock(aircraft, zones@, overrides, asked),
        s.solves(world, zones, search),
        t.solves(world, zones, search),
    ensures
        s.plans@.len() == t.plans@.len() == aircraft.len(),
        forall|i: int|
            0 <= i < aircraft.len() ==> #[trigger] same_plan(s.plans@[i], t.plans@[i]),
        s.degradations@ == t.degradations@,
{
    law_heights_of_walls_do_not_matter(
        aircraft,
        zones,
        zones,
        overrides,
        asked,
        world,
        search,
        s,
        t,
    );
}

} // verus!
