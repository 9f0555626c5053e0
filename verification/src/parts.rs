//! Cutting a raw route at restricted zones, smoothing its parts and joining them.

use crate::boundary::{
    ended_with, insert_arc, joint_at, plan_joint, started_after, Joint, JointPlan,
};
use crate::chain::{
    chosen_stage, default_chain, land_in_the_way, smooth_path_chain, stage_findings, stages,
    usual_chain, SmoothResult, Stage, Staged,
};
use crate::numeric::{number, whole};
use crate::oracle::Calc;
use crate::passage::Performance;
use crate::path::{bearing, slice_points, Path, PathPoint};
use crate::profile::{
    build_restricted_profiles, law_profiles_leave_no_gap, part_views, restricted_profiles,
};
use crate::scalar::Scalar;
use crate::segment::SegmentCheck;
use crate::task::{judge_route, judged, Task, Warning};
use crate::terrain::Sample;
use crate::verify::{
    route_findings, threat_notes, verify_path, Findings, Note, ThreatReading, VerifyContext,
    VerifyReport,
};
use vstd::prelude::*;

verus! {

/// Notes as warnings.
pub open spec fn as_warnings(notes: Seq<Note>) -> Seq<Warning> {
    notes.map_values(|n: Note| Warning::Noted(n))
}

/// Puts notes behind warnings.
pub fn push_notes(out: &mut Vec<Warning>, notes: &Vec<Note>)
    ensures
        final(out)@ == old(out)@ + as_warnings(notes@),
{
    let ghost before = out@;
    let mut k: usize = 0;
    while k < notes.len()
        invariant
            k <= notes@.len(),
            out@ == before + as_warnings(notes@.take(k as int)),
        decreases notes.len() - k,
    {
        out.push(Warning::Noted(notes[k]));
        k = k + 1;
        proof {
            assert(as_warnings(notes@.take(k as int)) =~= as_warnings(notes@.take(k - 1)).push(
                Warning::Noted(notes@[k - 1]),
            ));
            assert(out@ =~= before + as_warnings(notes@.take(k as int)));
        }
    }
    assert(notes@.take(k as int) =~= notes@);
}

/// The parts of raw routes: which of them are left unsmoothed, and whether a
/// zone has to be closed instead.
pub ghost struct Parts {
    pub parts: Seq<Seq<PathPoint>>,
    pub mask: Seq<bool>,
    pub need_wall: bool,
}

/// A route after some of its parts were smoothed.
pub ghost struct Smoothed {
    pub parts: Seq<Seq<PathPoint>>,
    pub warnings: Seq<Warning>,
    /// The highest land that a stage was too low over, in metres.
    pub land_m: Scalar,
    /// Places of sharp turns that are excused.
    pub excused: Seq<(Scalar, Scalar)>,
    /// The heading on which the next part is entered.
    pub heading: Option<Scalar>,
}

impl Smoothed {
    pub open spec fn nothing() -> Smoothed {
        Smoothed {
            parts: Seq::empty(),
            warnings: Seq::empty(),
            land_m: whole(0),
            excused: Seq::empty(),
            heading: None,
        }
    }
}

/// The heading on which a route ends.
pub open spec fn leaving_heading<C: Fn(Calc) -> Scalar>(calc: C, pts: Seq<PathPoint>) -> Option<Scalar> {
    if pts.len() < 2 {
        None
    } else {
        let (a, b) = (pts[pts.len() - 2], pts.last());
        Some(bearing(calc, a.lon, a.lat, b.lon, b.lat))
    }
}

/// A route after some of its parts were smoothed.
pub struct SmoothParts {
    pub parts: Vec<Path>,
    pub warnings: Vec<Warning>,
    pub land_m: Scalar,
    pub excused: Vec<(Scalar, Scalar)>,
    pub heading: Option<Scalar>,
}

impl SmoothParts {
    pub open spec fn view(self) -> Smoothed {
        Smoothed {
            parts: part_views(self.parts@),
            warnings: self.warnings@,
            land_m: self.land_m,
            excused: self.excused@,
            heading: self.heading,
        }
    }
}

impl<
    'a,
    C: Fn(Calc) -> Scalar,
    T: Fn((Scalar, Scalar)) -> Sample,
    N: Fn((Scalar, Scalar)) -> bool,
    P: Fn((Scalar, Scalar, Scalar)) -> Scalar,
    E: Fn(Path) -> ThreatReading,
> Task<'a, C, T, N, P, E> {
    /// The first `k` raw routes cut at the restricted zones that they meet.
    pub open spec fn cut(self, legs: Seq<Seq<PathPoint>>, alt_m: Scalar, k: int) -> Parts
        decreases k,
    {
        if k <= 0 {
            Parts { parts: Seq::empty(), mask: Seq::empty(), need_wall: false }
        } else {
            let before = self.cut(legs, alt_m, k - 1);
            let (parts, mask, need_wall) = restricted_profiles(
                *self.calc,
                self.terrain,
                legs[k - 1],
                self.zones@,
                self.performance(alt_m),
                self.vehicle.start,
                self.vehicle.target,
                self.inflation_m / whole(1000),
            );
            Parts {
                parts: before.parts + parts,
                mask: before.mask + mask,
                need_wall: before.need_wall || need_wall,
            }
        }
    }

    /// Cuts raw routes at the restricted zones that they meet.
    pub fn cut_legs(&self, legs: &Vec<Path>, alt_m: Scalar) -> (r: (Vec<Path>, Vec<bool>, bool))
        requires
            self.settled(),
        ensures
            ({
                let want = self.cut(part_views(legs@), alt_m, legs@.len() as int);
                &&& part_views(r.0@) == want.parts
                &&& r.1@ == want.mask
                &&& r.2 == want.need_wall
                &&& r.0@.len() == r.1@.len()
            }),
    {
        let mut parts: Vec<Path> = Vec::new();
        let mut mask: Vec<bool> = Vec::new();
        let mut need_wall: bool = false;
        let performance: Performance = Performance {
            alt_m,
            max_climb_deg: self.opts.max_climb_deg,
            ceiling_m: self.vehicle.profile.ceiling_m,
        };
        assert(part_views(parts@) =~= Seq::empty());
        let mut k: usize = 0;
        while k < legs.len()
            invariant
                self.settled(),
                performance == self.performance(alt_m),
                k <= legs@.len(),
                ({
                    let want = self.cut(part_views(legs@), alt_m, k as int);
                    &&& part_views(parts@) == want.parts
                    &&& mask@ == want.mask
                    &&& need_wall == want.need_wall
                    &&& parts@.len() == mask@.len()
                }),
            decreases legs.len() - k,
        {
            let (mut new_parts, mut new_mask, wall) = build_restricted_profiles(
                &legs[k],
                self.zones,
                &performance,
                self.terrain,
                &self.vehicle.start,
                &self.vehicle.target,
                self.inflation_m / number(1000),
                self.calc,
            );
            let ghost before = parts@;
            let ghost added = new_parts@;
            proof {
                let raw = legs@[k as int]@;
                if raw.len() > 0 {
                    law_profiles_leave_no_gap(
                        *self.calc,
                        self.terrain,
                        raw,
                        self.zones@,
                        performance,
                        self.vehicle.start,
                        self.vehicle.target,
                        self.inflation_m / whole(1000),
                    );
                }
                assert(part_views(added).len() == added.len());
            }
            parts.append(&mut new_parts);
            mask.append(&mut new_mask);
            need_wall = need_wall || wall;
            k = k + 1;
            proof {
                assert(part_views(parts@) =~= part_views(before) + part_views(added));
            }
        }
        (parts, mask, need_wall)
    }

    /// The largest turn at the start of a part: sharper where the part starts at
    /// a place of the flight.
    pub open spec fn entry_limit(self, seg: Seq<PathPoint>) -> Scalar {
        if seg.len() > 0 && self.is_place(seg[0]) {
            whole(175)
        } else {
            whole(95)
        }
    }

    /// The stages that a part goes through.
    pub open spec fn part_stages(self, seg: Seq<PathPoint>, heading: Option<Scalar>) -> Seq<Staged> {
        let chain = usual_chain(
            self.opts,
            &self.leg_check(),
            heading,
            self.entry_limit(seg),
            self.calc,
        );
        stages(seg, chain, chain.len() as int)
    }

    /// The stage of a part that is delivered.
    pub open spec fn part_choice(self, st: Seq<Staged>) -> Option<int> {
        chosen_stage(*self.calc, self.context(), self.opts, st, Some(self.phys_m), 0)
    }

    /// A part as it is delivered.
    pub open spec fn smooth_part(self, st: Seq<Staged>) -> Seq<PathPoint> {
        match self.part_choice(st) {
            Some(i) => st[i].1,
            None => st[0].1,
        }
    }

    /// What verification notes of a part as it is delivered.
    pub open spec fn part_notes(self, st: Seq<Staged>) -> Seq<Note> {
        let found = match self.part_choice(st) {
            Some(i) => stage_findings(
                *self.calc,
                self.context(),
                self.opts,
                st,
                Some(self.phys_m),
                i,
            ),
            None => route_findings(
                *self.calc,
                self.context(),
                self.opts,
                st[0].1,
                None,
                Some(self.phys_m),
            ),
        };
        found.notes + threat_notes(judged(*self.judge, self.smooth_part(st)))
    }

    /// What is known after a part was smoothed, before it is joined on; a part
    /// that is left unsmoothed stays as it is.
    #[verifier::opaque]
    pub open spec fn after_smoothing(self, s: Smoothed, seg: Seq<PathPoint>, fixed: bool) -> (
        Smoothed,
        Seq<PathPoint>,
    ) {
        if fixed {
            (s, seg)
        } else {
            let st = self.part_stages(seg, s.heading);
            let gap = land_in_the_way(
                *self.calc,
                self.context(),
                self.opts,
                st,
                Some(self.phys_m),
                0,
            );
            let failed = if self.part_choice(st) is None {
                seq![Warning::SmoothingFailed]
            } else {
                Seq::empty()
            };
            (
                Smoothed {
                    warnings: s.warnings + failed + as_warnings(self.part_notes(st)),
                    land_m: if gap is Some {
                        s.land_m.larger(gap->0)
                    } else {
                        s.land_m
                    },
                    ..s
                },
                self.smooth_part(st),
            )
        }
    }

    /// A part joined on to those before it: a sharp turn where they meet is
    /// rounded off or excused.
    #[verifier::opaque]
    pub open spec fn after_joining(self, s: Smoothed, part: Seq<PathPoint>) -> Smoothed {
        let prev = s.parts.last();
        if s.parts.len() > 0 && prev.len() >= 2 && part.len() >= 2 {
            let b = prev.last();
            match joint_at(
                *self.calc,
                self.leg_check(),
                prev[prev.len() - 2],
                b,
                part[1],
                self.opts,
                self.zones@,
                self.inflation_m,
                self.is_place(b),
            ) {
                Joint::Keep => Smoothed {
                    parts: s.parts.push(part),
                    heading: leaving_heading(*self.calc, part),
                    ..s
                },
                Joint::Excuse => Smoothed {
                    parts: s.parts.push(part),
                    excused: s.excused.push((b.lon, b.lat)),
                    heading: leaving_heading(*self.calc, part),
                    ..s
                },
                Joint::Arc(arc) => {
                    let next = started_after(part, b, arc);
                    Smoothed {
                        parts: s.parts.drop_last().push(ended_with(prev, arc)).push(next),
                        heading: leaving_heading(*self.calc, next),
                        ..s
                    }
                },
            }
        } else {
            Smoothed {
                parts: s.parts.push(part),
                heading: leaving_heading(*self.calc, part),
                ..s
            }
        }
    }

    /// What is known after the first `k` parts.
    pub open spec fn smoothed(self, parts: Seq<Seq<PathPoint>>, mask: Seq<bool>, k: int) -> Smoothed
        decreases k,
    {
        if k <= 0 {
            Smoothed::nothing()
        } else {
            let (s, part) = self.after_smoothing(
                self.smoothed(parts, mask, k - 1),
                parts[k - 1],
                mask[k - 1],
            );
            self.after_joining(s, part)
        }
    }

    /// Verifies a route of this flight, and notes how likely it is to be detected.
    pub open spec fn findings(self, pts: Seq<PathPoint>) -> Findings {
        let found = route_findings(
            *self.calc,
            self.context(),
            self.opts,
            pts,
            None,
            Some(self.phys_m),
        );
        Findings {
            issues: found.issues,
            notes: found.notes + threat_notes(judged(*self.judge, pts)),
        }
    }

    pub fn verify_route(&self, path: &Path) -> (r: VerifyReport)
        requires
            self.settled(),
        ensures
            r.tells(self.findings(path@)),
    {
        let ctx: VerifyContext<'a, T, N> = self.make_context();
        let mut report: VerifyReport = verify_path(
            path,
            None,
            &self.opts,
            &ctx,
            Some(self.phys_m),
            self.calc,
        );
        let reading: ThreatReading = judge_route(self.judge, &path.points);
        report.note_threat(&reading);
        report
    }

    fn smooth_one(&self, s: &mut SmoothParts, seg: &Path) -> (r: Path)
        requires
            self.settled(),
        ensures
            (final(s).view(), r@) == self.after_smoothing(old(s).view(), seg@, false),
    {
        let ghost before = s.view();
        proof {
            reveal(Task::after_smoothing);
        }
        let check: SegmentCheck<'a, C, T, P> = self.make_leg_check();
        let ctx: VerifyContext<'a, T, N> = self.make_context();
        let at_place: bool = if seg.points.len() > 0 {
            self.find_place(&seg.points[0])
        } else {
            false
        };
        let limit: Scalar = if at_place { number(175) } else { number(95) };
        let chain: Vec<Stage<C, SegmentCheck<'a, C, T, P>>> = default_chain(
            &self.opts,
            &check,
            s.heading,
            limit,
            self.calc,
        );
        let result: SmoothResult = smooth_path_chain(
            seg,
            &chain,
            &self.opts,
            &ctx,
            Some(self.phys_m),
            self.calc,
        );
        let ghost st = self.part_stages(seg@, before.heading);
        let mut verify: VerifyReport = result.verify;
        let reading: ThreatReading = judge_route(self.judge, &result.path.points);
        verify.note_threat(&reading);
        assert(verify.warnings@ == self.part_notes(st));
        if let Some(t) = result.terrain_gap_m {
            s.land_m = s.land_m.max(&t);
        }
        if result.warning.is_some() {
            s.warnings.push(Warning::SmoothingFailed);
        }
        push_notes(&mut s.warnings, &verify.warnings);
        assert(s.warnings@ =~= self.after_smoothing(before, seg@, false).0.warnings);
        result.path
    }

    fn join_on(&self, s: &mut SmoothParts, part: Path)
        requires
            self.settled(),
        ensures
            final(s).view() == self.after_joining(old(s).view(), part@),
    {
        let ghost before = s.view();
        let ghost given = part@;
        let ghost olds = s.parts@;
        proof {
            reveal(Task::after_joining);
        }
        let check: SegmentCheck<'a, C, T, P> = self.make_leg_check();
        let mut next: Path = part;
        let count: usize = s.parts.len();
        if count > 0 && s.parts[count - 1].points.len() >= 2 && next.points.len() >= 2 {
            assert(before.parts.last() == olds.last()@);
            let n: usize = s.parts[count - 1].points.len();
            let a: PathPoint = s.parts[count - 1].points[n - 2];
            let b: PathPoint = s.parts[count - 1].points[n - 1];
            let c: PathPoint = next.points[1];
            let hard: bool = self.find_place(&b);
            match plan_joint(
                &a,
                &b,
                &c,
                &self.opts,
                self.zones,
                self.inflation_m,
                hard,
                &check,
                self.calc,
            ) {
                JointPlan::Keep => {},
                JointPlan::Excuse => {
                    s.excused.push((b.lon, b.lat));
                },
                JointPlan::Arc(arc) => {
                    let ghost laid = arc@;
                    let mut prev: Vec<PathPoint> = slice_points(&s.parts[count - 1].points, 0, n);
                    assert(prev@ =~= olds.last()@);
                    insert_arc(&mut prev, &mut next.points, arc);
                    s.parts.set(count - 1, Path::new(prev));
                },
            }
        }
        let heading: Option<Scalar> = next.last_segment_heading(self.calc);
        s.parts.push(next);
        s.heading = heading;
        assert(part_views(s.parts@) =~= self.after_joining(before, given).parts);
    }

    /// Smooths the parts of a route and joins them.
    pub fn smooth_parts(&self, parts: &Vec<Path>, mask: &Vec<bool>) -> (r: SmoothParts)
        requires
            self.settled(),
            parts@.len() == mask@.len(),
        ensures
            r.view() == self.smoothed(part_views(parts@), mask@, parts@.len() as int),
    {
        let mut s: SmoothParts = SmoothParts {
            parts: Vec::new(),
            warnings: Vec::new(),
            land_m: number(0),
            excused: Vec::new(),
            heading: None,
        };
        assert(part_views(s.parts@) =~= Seq::empty());
        let mut k: usize = 0;
        while k < parts.len()
            invariant
                self.settled(),
                parts@.len() == mask@.len(),
                k <= parts@.len(),
                s.view() == self.smoothed(part_views(parts@), mask@, k as int),
            decreases parts.len() - k,
        {
            let part: Path = if mask[k] {
                let points: Vec<PathPoint> = slice_points(
                    &parts[k].points,
                    0,
                    parts[k].points.len(),
                );
                proof {
                    reveal(Task::after_smoothing);
                    assert(points@ =~= parts@[k as int]@);
                }
                Path::new(points)
            } else {
                self.smooth_one(&mut s, &parts[k])
            };
            self.join_on(&mut s, part);
            k = k + 1;
        }
        s
    }
}

} // verus!
