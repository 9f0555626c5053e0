//! The places that a flight has to pass stay in its route.

use crate::arc::{arc_at, ArcRule, LegCheck};
use crate::boundary::{first_led_arc, joint_at, joint_rule, Joint};
use crate::chain::{law_chosen_stage_passes, stages, usual_chain, Stage, Staged};
use crate::config::{AircraftType, Zone};
use crate::curves::{kept_from, law_thinning_within_tolerance};
use crate::mission::{joined, same_place, with_points};
use crate::numeric::whole;
use crate::options::SmoothOptions;
use crate::oracle::Calc;
use crate::parts::Smoothed;
use crate::path::{Path, PathPoint};
use crate::plan::Step;
use crate::profile::law_profiles_leave_no_gap;
use crate::scalar::Scalar;
use crate::smooth::{law_theta_keeps_first, law_theta_reaches_end};
use crate::task::{found_way, Attempt, Cells, Search, Task, Warning};
use crate::terrain::Sample;
use crate::verify::ThreatReading;
use vstd::prelude::*;

verus! {

/// Whether two points of a route stand at the same place and height, bit for bit.
pub open spec fn at_place(p: PathPoint, q: PathPoint) -> bool {
    p.lon == q.lon && p.lat == q.lat && p.alt_m == q.alt_m
}

/// Whether a route has a point at a place, but for rounding.
pub open spec fn passes(route: Seq<PathPoint>, b: PathPoint) -> bool {
    exists|i: int|
        0 <= i < route.len() && (at_place(#[trigger] route[i], b) || same_place(route[i], b))
}

/// Where a turn at a place to be passed is rounded off, the arc starts at the place.
pub proof fn law_hard_joint_keeps_point<C: Fn(Calc) -> Scalar, K: LegCheck>(
    calc: C,
    check: K,
    a: PathPoint,
    b: PathPoint,
    c: PathPoint,
    opts: SmoothOptions,
    zones: Seq<Zone>,
    inflation_m: Scalar,
)
    ensures
        joint_at(calc, check, a, b, c, opts, zones, inflation_m, true) matches Joint::Arc(arc)
            ==> arc.len() >= 2 && at_place(arc[0], b),
{
    lemma_arc_starts_at(calc, check, a, b, c, joint_rule(opts, true, 0));
    lemma_led_arc_starts_at(calc, check, a, b, c, opts, zones, inflation_m, 4);
}

proof fn lemma_arc_starts_at<C: Fn(Calc) -> Scalar, K: LegCheck>(
    calc: C,
    check: K,
    a: PathPoint,
    b: PathPoint,
    c: PathPoint,
    rule: ArcRule,
)
    requires
        rule.keep_b,
    ensures
        arc_at(calc, check, a, b, c, rule) matches Some(pts) ==> pts.len() >= 2 && at_place(
            pts[0],
            b,
        ),
{
}

proof fn lemma_led_arc_starts_at<C: Fn(Calc) -> Scalar, K: LegCheck>(
    calc: C,
    check: K,
    a: PathPoint,
    b: PathPoint,
    c: PathPoint,
    opts: SmoothOptions,
    zones: Seq<Zone>,
    inflation_m: Scalar,
    min_steps: int,
)
    ensures
        first_led_arc(calc, check, a, b, c, opts, zones, inflation_m, true, min_steps) matches Some(
            arc,
        ) ==> arc.len() >= 2 && at_place(arc[0], b),
    decreases 9 - min_steps,
{
    if min_steps <= 8 {
        lemma_arc_starts_at(calc, check, a, b, c, joint_rule(opts, true, min_steps as usize));
        lemma_led_arc_starts_at(calc, check, a, b, c, opts, zones, inflation_m, min_steps + 1);
    }
}

/// Joining routes leaves every point of them in place, but for rounding.
pub proof fn law_joining_keeps_points(segs: Seq<Seq<PathPoint>>, k: int, x: int, y: int)
    requires
        0 <= x < k <= segs.len(),
        0 <= y < segs[x].len(),
    ensures
        passes(joined(segs, k), segs[x][y]),
    decreases k,
{
    let before = joined(segs, k - 1);
    let n = segs[k - 1].len() as int;
    lemma_longer(before, segs[k - 1], n);
    let after = joined(segs, k);
    if x < k - 1 {
        law_joining_keeps_points(segs, k - 1, x, y);
        let b = segs[x][y];
        let i = choose|i: int|
            0 <= i < before.len() && (at_place(#[trigger] before[i], b) || same_place(before[i], b));
        assert(after[i] == before[i]);
    } else {
        lemma_put_behind(before, segs[x], y + 1, n);
    }
}

proof fn lemma_longer(pts: Seq<PathPoint>, more: Seq<PathPoint>, k: int)
    ensures
        pts.len() <= with_points(pts, more, k).len(),
        forall|i: int| 0 <= i < pts.len() ==> with_points(pts, more, k)[i] == #[trigger] pts[i],
    decreases k,
{
    if k > 0 {
        lemma_longer(pts, more, k - 1);
    }
}

proof fn lemma_put_behind(pts: Seq<PathPoint>, more: Seq<PathPoint>, j: int, k: int)
    requires
        0 < j <= k,
    ensures
        passes(with_points(pts, more, k), more[j - 1]),
    decreases k,
{
    let after = with_points(pts, more, k);
    let b = more[j - 1];
    if j == k {
        assert(at_place(after[after.len() - 1], b) || same_place(after[after.len() - 1], b));
    } else {
        lemma_put_behind(pts, more, j, k - 1);
        let before = with_points(pts, more, k - 1);
        let i = choose|i: int|
            0 <= i < before.len() && (at_place(#[trigger] before[i], b) || same_place(before[i], b));
        assert(after[i] == before[i]);
    }
}

/// Point `y` of part `x` stands at a place.
spec fn stands_at(parts: Seq<Seq<PathPoint>>, x: int, y: int, b: PathPoint) -> bool {
    0 <= x < parts.len() && 0 <= y < parts[x].len() && at_place(parts[x][y], b)
}

spec fn holds_place(parts: Seq<Seq<PathPoint>>, b: PathPoint) -> bool {
    exists|x: int, y: int| #[trigger] stands_at(parts, x, y, b)
}

proof fn lemma_joined_passes(parts: Seq<Seq<PathPoint>>, b: PathPoint)
    requires
        holds_place(parts, b),
    ensures
        passes(joined(parts, parts.len() as int), b),
{
    let (x, y) = choose|x: int, y: int| #[trigger] stands_at(parts, x, y, b);
    let n = parts.len() as int;
    law_joining_keeps_points(parts, n, x, y);
    let (route, p) = (joined(parts, n), parts[x][y]);
    let i = choose|i: int|
        0 <= i < route.len() && (at_place(#[trigger] route[i], p) || same_place(route[i], p));
    assert(at_place(route[i], b) || same_place(route[i], b));
}

/// Straightening keeps both ends of a route, and so does thinning after it: the first
/// two stages of every chain, and all stages of a rotorcraft, have the ends of the raw
/// route.
pub proof fn law_chain_keeps_ends<'a, C: Fn(Calc) -> Scalar, K: LegCheck>(
    opts: SmoothOptions,
    check: &'a K,
    entry_heading: Option<Scalar>,
    entry_max_deg: Scalar,
    calc: &'a C,
    input: Seq<PathPoint>,
    k: int,
    i: int,
)
    requires
        input.len() > 0,
        0 <= k <= usual_chain(opts, check, entry_heading, entry_max_deg, calc).len(),
        0 <= i < stages(
            input,
            usual_chain(opts, check, entry_heading, entry_max_deg, calc),
            k,
        ).len(),
        i <= 1 || opts.aircraft_type == AircraftType::Rotorcraft,
    ensures
        ({
            let st = stages(input, usual_chain(opts, check, entry_heading, entry_max_deg, calc), k);
            &&& st[i].1.len() > 0
            &&& st[i].1[0] == input[0]
            &&& st[i].1.last() == input.last()
        }),
    decreases k,
{
    let chain = usual_chain(opts, check, entry_heading, entry_max_deg, calc);
    if k > 0 {
        let before = stages(input, chain, k - 1);
        lemma_some_stage(input, chain, k - 1);
        if i < before.len() {
            law_chain_keeps_ends(
                opts,
                check,
                entry_heading,
                entry_max_deg,
                calc,
                input,
                k - 1,
                i,
            );
        } else {
            if k > 1 {
                lemma_straightened(opts, check, entry_heading, entry_max_deg, calc, input, k - 1);
            }
            law_chain_keeps_ends(
                opts,
                check,
                entry_heading,
                entry_max_deg,
                calc,
                input,
                k - 1,
                before.len() - 1,
            );
            let pts = before.last().1;
            match chain[k - 1] {
                Stage::Straighten(s) => {
                    law_theta_keeps_first(*s.calc, *s.check, pts, s.limits);
                    law_theta_reaches_end(*s.calc, *s.check, pts, s.limits);
                },
                Stage::Thin(s) => {
                    if pts.len() >= 3 {
                        law_thinning_within_tolerance(*s.calc, pts, s.tol_m, 0);
                        let kept = kept_from(*s.calc, pts, 0, s.tol_m);
                        law_thinning_within_tolerance(*s.calc, pts, s.tol_m, kept.len() - 1);
                    }
                },
                _ => {},
            }
        }
    }
}

pub proof fn lemma_some_stage<'a, C: Fn(Calc) -> Scalar, K: LegCheck>(
    input: Seq<PathPoint>,
    chain: Seq<Stage<'a, C, K>>,
    k: int,
)
    ensures
        stages(input, chain, k).len() > 0,
    decreases k,
{
    if k > 0 {
        lemma_some_stage(input, chain, k - 1);
    }
}

/// The first smoother always leaves a stage.
proof fn lemma_straightened<'a, C: Fn(Calc) -> Scalar, K: LegCheck>(
    opts: SmoothOptions,
    check: &'a K,
    entry_heading: Option<Scalar>,
    entry_max_deg: Scalar,
    calc: &'a C,
    input: Seq<PathPoint>,
    k: int,
)
    requires
        1 <= k,
    ensures
        stages(
            input,
            usual_chain(opts, check, entry_heading, entry_max_deg, calc),
            k,
        ).len() >= 2,
    decreases k,
{
    let chain = usual_chain(opts, check, entry_heading, entry_max_deg, calc);
    if k > 1 {
        lemma_straightened(opts, check, entry_heading, entry_max_deg, calc, input, k - 1);
    } else {
        assert(stages(input, chain, 0).len() == 1);
        assert(chain[0] is Straighten);
    }
}

/// Whether a search finds a way only from the one cell to the other: it comes back
/// over it.
pub open spec fn runs_between<F: Fn(Search) -> Option<Cells>>(
    search: F,
    cost: Seq<Scalar>,
    grid: usize,
    from: (usize, usize),
    to: (usize, usize),
) -> bool {
    found_way(search, cost, grid, from, to) matches Some(w) ==> w.len() > 0 && w[0] == to
        && w.last() == from
}

impl<
    'a,
    C: Fn(Calc) -> Scalar,
    T: Fn((Scalar, Scalar)) -> Sample,
    N: Fn((Scalar, Scalar)) -> bool,
    P: Fn((Scalar, Scalar, Scalar)) -> Scalar,
    E: Fn(Path) -> ThreatReading,
> Task<'a, C, T, N, P, E> {
    /// Part `j` of a route as it is delivered, before it is joined on.
    pub open spec fn delivered_part(
        self,
        parts: Seq<Seq<PathPoint>>,
        mask: Seq<bool>,
        j: int,
    ) -> Seq<PathPoint> {
        self.after_smoothing(self.smoothed(parts, mask, j), parts[j], mask[j]).1
    }

    /// A place that was held stays held when another part is joined on.
    proof fn lemma_join_holds(self, s: Smoothed, part: Seq<PathPoint>, b: PathPoint)
        requires
            holds_place(s.parts, b),
            self.is_place(b),
        ensures
            holds_place(self.after_joining(s, part).parts, b),
    {
        reveal(Task::after_joining);
        let (x, y) = choose|x: int, y: int| #[trigger] stands_at(s.parts, x, y, b);
        let more = self.after_joining(s, part).parts;
        let prev = s.parts.last();
        let last = s.parts.len() - 1;
        if prev.len() >= 2 && part.len() >= 2 {
            let e = prev.last();
            law_hard_joint_keeps_point(
                *self.calc,
                self.leg_check(),
                prev[prev.len() - 2],
                e,
                part[1],
                self.opts,
                self.zones@,
                self.inflation_m,
            );
            if x == last && y == prev.len() - 1 {
                lemma_same_spot_is_place(self, b, e);
            }
        }
        assert(stands_at(more, x, y, b));
    }

    /// A new part ends the route where it ends itself.
    proof fn lemma_join_ends(self, s: Smoothed, part: Seq<PathPoint>)
        requires
            part.len() > 0,
        ensures
            ({
                let more = self.after_joining(s, part).parts;
                &&& more.len() == s.parts.len() + 1
                &&& more.last().len() == part.len()
                &&& more.last().last() == part.last()
            }),
    {
        reveal(Task::after_joining);
    }

    proof fn lemma_parts_counted(self, parts: Seq<Seq<PathPoint>>, mask: Seq<bool>, k: int)
        requires
            0 <= k,
        ensures
            self.smoothed(parts, mask, k).parts.len() == k,
        decreases k,
    {
        if k > 0 {
            self.lemma_parts_counted(parts, mask, k - 1);
            reveal(Task::after_joining);
            reveal(Task::after_smoothing);
        }
    }

    proof fn lemma_place_held(
        self,
        parts: Seq<Seq<PathPoint>>,
        mask: Seq<bool>,
        j: int,
        k: int,
    )
        requires
            0 <= j < k,
            self.delivered_part(parts, mask, j).len() > 0,
            j == k - 1 || self.is_place(self.delivered_part(parts, mask, j).last()),
        ensures
            holds_place(
                self.smoothed(parts, mask, k).parts,
                self.delivered_part(parts, mask, j).last(),
            ),
        decreases k,
    {
        let b = self.delivered_part(parts, mask, j).last();
        let before = self.smoothed(parts, mask, k - 1);
        let (s, part) = self.after_smoothing(before, parts[k - 1], mask[k - 1]);
        assert(s.parts == before.parts) by {
            reveal(Task::after_smoothing);
        }
        if j == k - 1 {
            self.lemma_join_ends(s, part);
            let more = self.smoothed(parts, mask, k).parts;
            assert(stands_at(more, more.len() - 1, part.len() - 1, b));
        } else {
            self.lemma_place_held(parts, mask, j, k - 1);
            self.lemma_join_holds(s, part, b);
        }
    }

    /// Where a part ends at a place to be passed, the joined route passes the place;
    /// and it ends where its last part ends.
    pub proof fn law_required_places_stay(
        self,
        parts: Seq<Seq<PathPoint>>,
        mask: Seq<bool>,
        j: int,
    )
        requires
            0 <= j < parts.len(),
            self.delivered_part(parts, mask, j).len() > 0,
            j == parts.len() - 1 || self.is_place(self.delivered_part(parts, mask, j).last()),
        ensures
            ({
                let s = self.smoothed(parts, mask, parts.len() as int);
                passes(
                    joined(s.parts, s.parts.len() as int),
                    self.delivered_part(parts, mask, j).last(),
                )
            }),
    {
        let k = parts.len() as int;
        self.lemma_place_held(parts, mask, j, k);
        lemma_joined_passes(
            self.smoothed(parts, mask, k).parts,
            self.delivered_part(parts, mask, j).last(),
        );
    }

    /// Whether a part is delivered as it is, straightened, or as a rotorcraft flies it.
    pub open spec fn keeps_ends(self, parts: Seq<Seq<PathPoint>>, mask: Seq<bool>, j: int) -> bool {
        let st = self.part_stages(parts[j], self.smoothed(parts, mask, j).heading);
        ||| mask[j]
        ||| self.opts.aircraft_type == AircraftType::Rotorcraft
        ||| self.part_choice(st) is None
        ||| self.part_choice(st)->0 <= 1
    }

    /// Such a part has the ends of the raw one.
    pub proof fn law_part_keeps_ends(self, parts: Seq<Seq<PathPoint>>, mask: Seq<bool>, j: int)
        requires
            parts[j].len() > 0,
            self.keeps_ends(parts, mask, j),
        ensures
            ({
                let part = self.delivered_part(parts, mask, j);
                part.len() > 0 && part[0] == parts[j][0] && part.last() == parts[j].last()
            }),
    {
        let seg = parts[j];
        let heading = self.smoothed(parts, mask, j).heading;
        let st = self.part_stages(seg, heading);
        self.lemma_delivered(parts, mask, j);
        if !mask[j] {
            self.lemma_choice(st);
            let i = match self.part_choice(st) {
                Some(i) => i,
                None => 0,
            };
            self.lemma_stage_ends(seg, heading, i);
        }
    }

    pub proof fn lemma_delivered(self, parts: Seq<Seq<PathPoint>>, mask: Seq<bool>, j: int)
        ensures
            self.delivered_part(parts, mask, j) == (if mask[j] {
                parts[j]
            } else {
                self.smooth_part(self.part_stages(parts[j], self.smoothed(parts, mask, j).heading))
            }),
    {
        reveal(Task::after_smoothing);
    }

    pub proof fn lemma_choice(self, st: Seq<Staged>)
        ensures
            self.part_choice(st) matches Some(i) ==> 0 <= i < st.len(),
    {
        law_chosen_stage_passes(
            *self.calc,
            self.context(),
            self.opts,
            st,
            Some(self.phys_m),
            0,
        );
    }

    proof fn lemma_stage_ends(self, seg: Seq<PathPoint>, heading: Option<Scalar>, i: int)
        requires
            seg.len() > 0,
            0 <= i,
            i == 0 || i < self.part_stages(seg, heading).len(),
            i <= 1 || self.opts.aircraft_type == AircraftType::Rotorcraft,
        ensures
            ({
                let pts = self.part_stages(seg, heading)[i].1;
                pts.len() > 0 && pts[0] == seg[0] && pts.last() == seg.last()
            }),
    {
        let check = self.leg_check();
        let chain = usual_chain(self.opts, &check, heading, self.entry_limit(seg), self.calc);
        let n = chain.len() as int;
        lemma_some_stage(seg, chain, n);
        law_chain_keeps_ends(
            self.opts,
            &check,
            heading,
            self.entry_limit(seg),
            self.calc,
            seg,
            n,
            i,
        );
    }

    /// The part in which a raw route ends, and where the cutting of it starts.
    pub proof fn lemma_cut_ends(self, legs: Seq<Seq<PathPoint>>, alt_m: Scalar, i: int, k: int)
        requires
            0 <= i < k <= legs.len(),
            legs[i].len() > 0,
        ensures
            ({
                let cut = self.cut(legs, alt_m, k);
                let j = self.cut(legs, alt_m, i + 1).parts.len() - 1;
                &&& self.cut(legs, alt_m, i).parts.len() <= j < cut.parts.len()
                &&& cut.parts[j].len() > 0
                &&& cut.parts[j].last() == legs[i].last()
                &&& k == i + 1 ==> j == cut.parts.len() - 1
            }),
        decreases k,
    {
        if k == i + 1 {
            law_profiles_leave_no_gap(
                *self.calc,
                self.terrain,
                legs[i],
                self.zones@,
                self.performance(alt_m),
                self.vehicle.start,
                self.vehicle.target,
                self.inflation_m / whole(1000),
            );
        } else {
            self.lemma_cut_ends(legs, alt_m, i, k - 1);
        }
    }

    /// The middle of the cell of place `i` of the flight, at a height.
    pub open spec fn place_point(self, i: int, alt_m: Scalar) -> PathPoint {
        let cell = self.end_cell(i);
        let (lon, lat) = self.region.cell_center(
            cell.0 as int,
            cell.1 as int,
            self.grid as int,
        );
        PathPoint { lon, lat, alt_m, heading_deg: None }
    }

    /// Whether the search finds every leg of the flight from the cell of the one place
    /// to the cell of the next.
    pub open spec fn search_runs<F: Fn(Search) -> Option<Cells>>(self, search: F, a: Attempt) -> bool {
        forall|i: int|
            0 < i < self.ends().len() ==> runs_between(
                search,
                self.costs(a),
                self.grid,
                self.end_cell(i - 1),
                #[trigger] self.end_cell(i),
            )
    }

    pub proof fn lemma_raw_ends<F: Fn(Search) -> Option<Cells>>(
        self,
        search: F,
        a: Attempt,
        i: int,
        k: int,
    )
        requires
            0 < i <= k < self.ends().len(),
            self.raw_legs(search, a, k) is Some,
            self.search_runs(search, a),
        ensures
            ({
                let legs = self.raw_legs(search, a, k)->0;
                &&& legs.len() == k
                &&& legs[i - 1].len() > 0
                &&& legs[i - 1][0] == self.place_point(i - 1, a.alt_m)
                &&& legs[i - 1].last() == self.place_point(i, a.alt_m)
            }),
        decreases k,
    {
        if i < k {
            self.lemma_raw_ends(search, a, i, k - 1);
        } else if k > 1 {
            self.lemma_raw_ends(search, a, k - 1, k - 1);
        }
        if i == k {
            assert(runs_between(
                search,
                self.costs(a),
                self.grid,
                self.end_cell(i - 1),
                self.end_cell(i),
            ));
            if k == 1 {
                assert(self.raw_legs(search, a, 0) == Some(Seq::<Seq<PathPoint>>::empty()));
            }
        }
    }

    /// The raw route passes the middle of the cell of every place of the flight.
    pub proof fn law_raw_route_passes_places<F: Fn(Search) -> Option<Cells>>(
        self,
        search: F,
        a: Attempt,
        i: int,
    )
        requires
            0 < i < self.ends().len(),
            self.raw_legs(search, a, self.ends().len() - 1) is Some,
            self.search_runs(search, a),
        ensures
            ({
                let legs = self.raw_legs(search, a, self.ends().len() - 1)->0;
                &&& passes(joined(legs, legs.len() as int), self.place_point(i, a.alt_m))
                &&& i == 1 ==> passes(joined(legs, legs.len() as int), self.place_point(0, a.alt_m))
            }),
    {
        let n = self.ends().len() - 1;
        let legs = self.raw_legs(search, a, n)->0;
        self.lemma_raw_ends(search, a, i, n);
        law_joining_keeps_points(legs, n, i - 1, legs[i - 1].len() - 1);
        law_joining_keeps_points(legs, n, i - 1, 0);
    }

    /// The smoothed route passes the middle of the cell of a place of the flight: of the
    /// target, and of each place on the way that the middle of its cell is taken for,
    /// where the part that ends there keeps its ends.
    pub proof fn law_smoothed_route_passes_places<F: Fn(Search) -> Option<Cells>>(
        self,
        search: F,
        a: Attempt,
        i: int,
    )
        requires
            0 < i < self.ends().len(),
            self.raw_legs(search, a, self.ends().len() - 1) is Some,
            self.search_runs(search, a),
            i == self.ends().len() - 1 || self.is_place(self.place_point(i, a.alt_m)),
            ({
                let legs = self.raw_legs(search, a, self.ends().len() - 1)->0;
                let cut = self.cut(legs, a.alt_m, legs.len() as int);
                let j = self.cut(legs, a.alt_m, i).parts.len() - 1;
                self.keeps_ends(cut.parts, cut.mask, j)
            }),
        ensures
            ({
                let legs = self.raw_legs(search, a, self.ends().len() - 1)->0;
                let cut = self.cut(legs, a.alt_m, legs.len() as int);
                let s = self.smoothed(cut.parts, cut.mask, cut.parts.len() as int);
                passes(joined(s.parts, s.parts.len() as int), self.place_point(i, a.alt_m))
            }),
    {
        let n = self.ends().len() - 1;
        let legs = self.raw_legs(search, a, n)->0;
        self.lemma_raw_ends(search, a, i, n);
        self.lemma_cut_ends(legs, a.alt_m, i - 1, n);
        let cut = self.cut(legs, a.alt_m, n);
        let j = self.cut(legs, a.alt_m, i).parts.len() - 1;
        self.law_part_keeps_ends(cut.parts, cut.mask, j);
        self.law_required_places_stay(cut.parts, cut.mask, j);
    }

    /// What an attempt delivers to a rotorcraft passes the middle of the cell of every
    /// place of the flight, unless it is the straight route between the places.
    pub proof fn law_rotorcraft_passes_places<F: Fn(Search) -> Option<Cells>>(
        self,
        search: F,
        a: Attempt,
        warnings: Seq<Warning>,
        degradations: Seq<Warning>,
        i: int,
    )
        requires
            self.opts.aircraft_type == AircraftType::Rotorcraft,
            0 < i < self.ends().len(),
            self.raw_legs(search, a, self.ends().len() - 1) is Some,
            self.search_runs(search, a),
            i == self.ends().len() - 1 || self.is_place(self.place_point(i, a.alt_m)),
        ensures
            self.step_with(
                a,
                self.raw_legs(search, a, self.ends().len() - 1)->0,
                warnings,
                degradations,
            ) matches Step::Done(d, _) ==> passes(d.pts, self.place_point(i, a.alt_m)) || d.pts
                == self.straight_route(a.alt_m),
    {
        self.law_raw_route_passes_places(search, a, i);
        self.law_smoothed_route_passes_places(search, a, i);
    }
}

/// Two points at one place are both places of a flight, or both not.
proof fn lemma_same_spot_is_place<
    'a,
    C: Fn(Calc) -> Scalar,
    T: Fn((Scalar, Scalar)) -> Sample,
    N: Fn((Scalar, Scalar)) -> bool,
    P: Fn((Scalar, Scalar, Scalar)) -> Scalar,
    E: Fn(Path) -> ThreatReading,
>(task: Task<'a, C, T, N, P, E>, p: PathPoint, q: PathPoint)
    requires
        at_place(q, p),
    ensures
        task.is_place(p) == task.is_place(q),
{
}

} // verus!
