//! How near the route of a fixed-wing aircraft comes to the places that it has to pass.

use crate::arc::LegCheck;
use crate::arith::absolute;
use crate::arrival::{ends_on_earth, law_fit_reaches_ends, law_spline_reaches_last, point_within};
use crate::chain::{stages, usual_chain, Smoother, Stage};
use crate::config::AircraftType;
use crate::curves::{kept_from, law_thinning_within_tolerance};
use crate::dubins::pivot_path;
use crate::ends::{apart, grain, is_bound, lemma_scale, true_circle};
use crate::fit::{can_fit, fit_curve, fit_plane, heading_in, heading_out, plane_angle};
use crate::mission::joined;
use crate::options::SmoothOptions;
use crate::oracle::Calc;
use crate::path::{Path, PathPoint};
use crate::places::{lemma_some_stage, passes};
use crate::scalar::Scalar;
use crate::smooth::law_theta_reaches_end;
use crate::task::{Attempt, Cells, Search, Task};
use crate::terrain::Sample;
use crate::verify::ThreatReading;
use vstd::arithmetic::power2::{lemma_pow2_pos, pow2};
use vstd::prelude::*;

verus! {

/// Whether a point stands at the place of another, but for some billionths of a degree,
/// in units of 2^-1074.
pub open spec fn nears(p: PathPoint, q: PathPoint, slack: int) -> bool {
    &&& p.lon.finite() && p.lat.finite()
    &&& apart(1_000_000_000 * p.lon.value(), 1_000_000_000 * q.lon.value(), slack)
    &&& apart(1_000_000_000 * p.lat.value(), 1_000_000_000 * q.lat.value(), slack)
}

/// Whether a curve fitted to a route reaches the ends of the route: they are places on
/// Earth, the radius is at most 2^18 metres, and the curve is no turn on the spot.
pub open spec fn fit_is_plain<C: Fn(Calc) -> Scalar>(
    calc: C,
    pts: Seq<PathPoint>,
    r_m: Scalar,
) -> bool {
    let (th0, th1) = (plane_angle(heading_out(calc, pts)), plane_angle(heading_in(calc, pts)));
    let proj = fit_plane(calc, pts);
    let path = fit_curve(calc, pts, r_m)->0;
    &&& true_circle(calc)
    &&& ends_on_earth(calc, pts)
    &&& r_m.value() <= 0x4_0000 * pow2(1074)
    &&& th0.finite() && -32 * pow2(1074) <= th0.value() <= 32 * pow2(1074)
    &&& th1.finite() && -32 * pow2(1074) <= th1.value() <= 32 * pow2(1074)
    &&& path.length().finite()
    &&& path != pivot_path(calc, proj.plane(pts[0].lon, pts[0].lat), th0, th1, r_m)
}

/// Whether a stage reaches the end of a route: the last points are within a bound for a
/// spline, and a fit, if there is one, is plain.
pub open spec fn stage_is_plain<'a, C: Fn(Calc) -> Scalar, K: LegCheck>(
    stage: Stage<'a, C, K>,
    pts: Seq<PathPoint>,
    y: nat,
) -> bool {
    match stage {
        Stage::Curve(s) => {
            &&& 1 <= s.samples_per_seg <= 1024
            &&& pts.len() >= 3 ==> point_within(pts[pts.len() - 3], y) && point_within(
                pts[pts.len() - 2],
                y,
            ) && point_within(pts.last(), y)
        },
        Stage::Fit(s) => can_fit(*s.calc, pts, s.r_m) ==> fit_is_plain(*s.calc, pts, s.r_m),
        _ => true,
    }
}

/// How far a stage moves the end of a route, at most.
pub open spec fn stage_slack<'a, C: Fn(Calc) -> Scalar, K: LegCheck>(
    stage: Stage<'a, C, K>,
    y: nat,
) -> int {
    match stage {
        Stage::Curve(_) => 10_000_000_000 * grain(y),
        Stage::Fit(s) => pow2(1074) + absolute(s.r_m.value()),
        _ => 0,
    }
}

/// A stage leaves the end of a route in place, but for the slack of the stage.
pub proof fn law_stage_keeps_end<'a, C: Fn(Calc) -> Scalar, K: LegCheck>(
    stage: Stage<'a, C, K>,
    pts: Seq<PathPoint>,
    y: nat,
)
    requires
        is_bound(y),
        pts.len() > 0,
        pts.last().lon.finite() && pts.last().lat.finite(),
        stage_is_plain(stage, pts, y),
    ensures
        stage.smoothed(pts) matches Some(q) ==> q.len() > 0 && nears(
            q.last(),
            pts.last(),
            stage_slack(stage, y),
        ),
{
    lemma_scale(y);
    match stage {
        Stage::Straighten(s) => {
            law_theta_reaches_end(*s.calc, *s.check, pts, s.limits);
        },
        Stage::Curve(s) => {
            if pts.len() >= 3 {
                law_spline_reaches_last(pts, s.samples_per_seg as int, y);
            }
        },
        Stage::Fit(s) => {
            if can_fit(*s.calc, pts, s.r_m) {
                law_fit_reaches_ends(*s.calc, pts, s.r_m, s.sample_n);
            }
        },
        Stage::Thin(s) => {
            if pts.len() >= 3 {
                let kept = kept_from(*s.calc, pts, 0, s.tol_m);
                law_thinning_within_tolerance(*s.calc, pts, s.tol_m, 0);
                law_thinning_within_tolerance(*s.calc, pts, s.tol_m, kept.len() - 1);
            }
        },
    }
}

/// How far the first `k` stages move the end of a route, at most.
pub open spec fn chain_slack<'a, C: Fn(Calc) -> Scalar, K: LegCheck>(
    chain: Seq<Stage<'a, C, K>>,
    k: int,
    y: nat,
) -> int
    decreases k,
{
    if k <= 0 {
        0
    } else {
        chain_slack(chain, k - 1, y) + stage_slack(chain[k - 1], y)
    }
}

/// Whether each stage of a chain reaches the end of what the stages before it leave.
pub open spec fn chain_is_plain<'a, C: Fn(Calc) -> Scalar, K: LegCheck>(
    input: Seq<PathPoint>,
    chain: Seq<Stage<'a, C, K>>,
    y: nat,
) -> bool {
    forall|k: int|
        0 <= k < chain.len() ==> stage_is_plain(
            #[trigger] chain[k],
            stages(input, chain, k).last().1,
            y,
        )
}

/// Every stage of a chain ends where the route does, but for the slack of the chain.
pub proof fn law_chain_keeps_end<'a, C: Fn(Calc) -> Scalar, K: LegCheck>(
    input: Seq<PathPoint>,
    chain: Seq<Stage<'a, C, K>>,
    k: int,
    i: int,
    y: nat,
)
    requires
        is_bound(y),
        input.len() > 0,
        input.last().lon.finite() && input.last().lat.finite(),
        0 <= k <= chain.len(),
        chain_is_plain(input, chain, y),
        0 <= i < stages(input, chain, k).len(),
    ensures
        stages(input, chain, k)[i].1.len() > 0,
        nears(stages(input, chain, k)[i].1.last(), input.last(), chain_slack(chain, k, y)),
        chain_slack(chain, k, y) >= 0,
    decreases k,
{
    lemma_scale(y);
    if k > 0 {
        let before = stages(input, chain, k - 1);
        lemma_some_stage(input, chain, k - 1);
        let n = before.len() - 1;
        law_chain_keeps_end(input, chain, k - 1, n, y);
        assert(stage_is_plain(chain[k - 1], before.last().1, y));
        law_stage_keeps_end(chain[k - 1], before.last().1, y);
        if i <= n {
            law_chain_keeps_end(input, chain, k - 1, i, y);
        }
    }
}

/// How far the usual chain moves the end of a route, at most.
proof fn lemma_usual_slack<'a, C: Fn(Calc) -> Scalar, K: LegCheck>(
    opts: SmoothOptions,
    check: &'a K,
    entry_heading: Option<Scalar>,
    entry_max_deg: Scalar,
    calc: &'a C,
    y: nat,
)
    requires
        is_bound(y),
    ensures
        ({
            let chain = usual_chain(opts, check, entry_heading, entry_max_deg, calc);
            chain_slack(chain, chain.len() as int, y) <= 10_000_000_000 * grain(y) + pow2(1074)
                + absolute(opts.turn_radius_m.value())
        }),
{
    lemma_scale(y);
    lemma_pow2_pos(1074);
    let chain = usual_chain(opts, check, entry_heading, entry_max_deg, calc);
    assert(chain_slack(chain, 0, y) == 0);
    assert(chain_slack(chain, 1, y) == 0);
    if opts.aircraft_type == AircraftType::Rotorcraft {
        assert(chain_slack(chain, 2, y) == 0);
    } else {
        assert(chain_slack(chain, 2, y) == 10_000_000_000 * grain(y));
        assert(chain[2] is Fit);
        assert(chain_slack(chain, 3, y) == chain_slack(chain, 2, y) + stage_slack(chain[2], y));
        assert(chain_slack(chain, 4, y) == chain_slack(chain, 3, y));
    }
}

impl<
    'a,
    C: Fn(Calc) -> Scalar,
    T: Fn((Scalar, Scalar)) -> Sample,
    N: Fn((Scalar, Scalar)) -> bool,
    P: Fn((Scalar, Scalar, Scalar)) -> Scalar,
    E: Fn(Path) -> ThreatReading,
> Task<'a, C, T, N, P, E> {
    /// Whether part `j` is delivered as it is, or each stage that smooths it is plain.
    pub open spec fn part_is_plain(
        self,
        parts: Seq<Seq<PathPoint>>,
        mask: Seq<bool>,
        j: int,
        y: nat,
    ) -> bool {
        mask[j] || chain_is_plain(
            parts[j],
            usual_chain(
                self.opts,
                &self.leg_check(),
                self.smoothed(parts, mask, j).heading,
                self.entry_limit(parts[j]),
                self.calc,
            ),
            y,
        )
    }

    /// How far smoothing moves the end of a part, at most: a rounding of the numbers, a
    /// billionth of a degree, and one for each metre of the turning radius.
    pub open spec fn end_slack(self, y: nat) -> int {
        10_000_000_000 * grain(y) + pow2(1074) + absolute(self.opts.turn_radius_m.value())
    }

    /// A part ends where the raw one does, but for the slack of smoothing.
    pub proof fn law_part_keeps_end(
        self,
        parts: Seq<Seq<PathPoint>>,
        mask: Seq<bool>,
        j: int,
        y: nat,
    )
        requires
            is_bound(y),
            parts[j].len() > 0,
            parts[j].last().lon.finite() && parts[j].last().lat.finite(),
            self.part_is_plain(parts, mask, j, y),
        ensures
            self.delivered_part(parts, mask, j).len() > 0,
            nears(
                self.delivered_part(parts, mask, j).last(),
                parts[j].last(),
                self.end_slack(y),
            ),
    {
        let seg = parts[j];
        let heading = self.smoothed(parts, mask, j).heading;
        self.lemma_delivered(parts, mask, j);
        if mask[j] {
            lemma_scale(y);
        } else {
            let st = self.part_stages(seg, heading);
            self.lemma_choice(st);
            let i = match self.part_choice(st) {
                Some(i) => i,
                None => 0,
            };
            self.lemma_stage_end(seg, heading, i, y);
        }
    }

    proof fn lemma_stage_end(
        self,
        seg: Seq<PathPoint>,
        heading: Option<Scalar>,
        i: int,
        y: nat,
    )
        requires
            is_bound(y),
            seg.len() > 0,
            seg.last().lon.finite() && seg.last().lat.finite(),
            chain_is_plain(
                seg,
                usual_chain(
                    self.opts,
                    &self.leg_check(),
                    heading,
                    self.entry_limit(seg),
                    self.calc,
                ),
                y,
            ),
            0 <= i,
            i == 0 || i < self.part_stages(seg, heading).len(),
        ensures
            self.part_stages(seg, heading)[i].1.len() > 0,
            nears(self.part_stages(seg, heading)[i].1.last(), seg.last(), self.end_slack(y)),
    {
        let check = self.leg_check();
        let limit = self.entry_limit(seg);
        let chain = usual_chain(self.opts, &check, heading, limit, self.calc);
        let n = chain.len() as int;
        lemma_some_stage(seg, chain, n);
        law_chain_keeps_end(seg, chain, n, i, y);
        lemma_usual_slack(self.opts, &check, heading, limit, self.calc, y);
    }

    /// The smoothed route comes near to the middle of the cell of a place of the flight: of
    /// the target, and of each place on the way where the part that ends there still ends
    /// at a place of the flight.
    pub proof fn law_smoothed_route_nears_places<F: Fn(Search) -> Option<Cells>>(
        self,
        search: F,
        a: Attempt,
        i: int,
        y: nat,
    )
        requires
            is_bound(y),
            0 < i < self.ends().len(),
            self.raw_legs(search, a, self.ends().len() - 1) is Some,
            self.search_runs(search, a),
            self.place_point(i, a.alt_m).lon.finite() && self.place_point(i, a.alt_m).lat.finite(),
            ({
                let legs = self.raw_legs(search, a, self.ends().len() - 1)->0;
                let cut = self.cut(legs, a.alt_m, legs.len() as int);
                let j = self.cut(legs, a.alt_m, i).parts.len() - 1;
                &&& self.part_is_plain(cut.parts, cut.mask, j, y)
                &&& i == self.ends().len() - 1 || self.is_place(
                    self.delivered_part(cut.parts, cut.mask, j).last(),
                )
            }),
        ensures
            ({
                let legs = self.raw_legs(search, a, self.ends().len() - 1)->0;
                let cut = self.cut(legs, a.alt_m, legs.len() as int);
                let j = self.cut(legs, a.alt_m, i).parts.len() - 1;
                let s = self.smoothed(cut.parts, cut.mask, cut.parts.len() as int);
                let end = self.delivered_part(cut.parts, cut.mask, j).last();
                &&& passes(joined(s.parts, s.parts.len() as int), end)
                &&& nears(end, self.place_point(i, a.alt_m), self.end_slack(y))
            }),
    {
        let n = self.ends().len() - 1;
        let legs = self.raw_legs(search, a, n)->0;
        self.lemma_raw_ends(search, a, i, n);
        self.lemma_cut_ends(legs, a.alt_m, i - 1, n);
        let cut = self.cut(legs, a.alt_m, n);
        let j = self.cut(legs, a.alt_m, i).parts.len() - 1;
        self.law_part_keeps_end(cut.parts, cut.mask, j, y);
        self.law_required_places_stay(cut.parts, cut.mask, j);
    }
}

} // verus!
