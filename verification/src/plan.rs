//! Planning the route of each vehicle: attempts at a raw route, smoothing, and
//! what is delivered where smoothing fails.

use crate::chain::{find_highest_land, highest_land};
use crate::config::AircraftType;
use crate::geometry::{radians, to_radians};
use crate::mission::{join_paths, joined, same_place};
use crate::numeric::{frac, number, ratio, whole};
use crate::options::{or_else, planning_speed};
use crate::oracle::{ask, image, is_function, Calc};
use crate::parts::{as_warnings, push_notes, SmoothParts, Smoothed};
use crate::passage::{dist_km, flat_km};
use crate::path::{slice_points, Path, PathPoint};
use crate::profile::part_views;
use crate::scalar::Scalar;
use crate::segment::{in_core, is_in_core};
use crate::task::{
    can_raise, clearing_height, judge_route, judged, raise_over, searches, Attempt, Cells, Search,
    Task, Warning,
};
use crate::terrain::Sample;
use crate::verify::{Findings, Issue, Note, ThreatReading, VerifyReport};
use vstd::prelude::*;

verus! {

/// A warning put behind others, unless it stands among them.
pub open spec fn noted_once(list: Seq<Warning>, w: Warning) -> Seq<Warning> {
    if list.contains(w) {
        list
    } else {
        list.push(w)
    }
}

pub fn note_once(list: &mut Vec<Warning>, w: Warning)
    ensures
        final(list)@ == noted_once(old(list)@, w),
{
    let mut k: usize = 0;
    while k < list.len()
        invariant
            k <= list@.len(),
            list@ == old(list)@,
            forall|j: int| 0 <= j < k ==> #[trigger] list@[j] != w,
        decreases list.len() - k,
    {
        if list[k] == w {
            assert(list@.contains(list@[k as int]));
            return;
        }
        k = k + 1;
    }
    list.push(w);
}

/// The first `k` warnings without those of failed smoothing.
pub open spec fn without_failure(list: Seq<Warning>, k: int) -> Seq<Warning>
    decreases k,
{
    if k <= 0 {
        Seq::empty()
    } else if list[k - 1] is SmoothingFailed {
        without_failure(list, k - 1)
    } else {
        without_failure(list, k - 1).push(list[k - 1])
    }
}

/// Warnings without those of failed smoothing.
pub open spec fn unfailed(list: Seq<Warning>) -> Seq<Warning> {
    without_failure(list, list.len() as int)
}

fn drop_failure(list: &Vec<Warning>) -> (r: Vec<Warning>)
    ensures
        r@ == unfailed(list@),
{
    let mut kept: Vec<Warning> = Vec::new();
    let mut k: usize = 0;
    while k < list.len()
        invariant
            k <= list@.len(),
            kept@ == without_failure(list@, k as int),
        decreases list.len() - k,
    {
        match list[k] {
            Warning::SmoothingFailed => {},
            w => {
                kept.push(w);
            },
        }
        k = k + 1;
    }
    kept
}

/// Whether a warning tells of a radar.
pub open spec fn tells_of_radar(w: Warning) -> bool {
    match w {
        Warning::Noted(n) => n is DetectionOver || n is DetectionSeen,
        Warning::RadarTransit { .. } => true,
        _ => false,
    }
}

/// A list with those of the first `k` warnings that tell of a radar put behind it,
/// each once.
pub open spec fn with_radar(list: Seq<Warning>, from: Seq<Warning>, k: int) -> Seq<Warning>
    decreases k,
{
    if k <= 0 {
        list
    } else {
        let before = with_radar(list, from, k - 1);
        if tells_of_radar(from[k - 1]) {
            noted_once(before, from[k - 1])
        } else {
            before
        }
    }
}

fn note_radar(list: &mut Vec<Warning>, from: &Vec<Warning>)
    ensures
        final(list)@ == with_radar(old(list)@, from@, from@.len() as int),
{
    let ghost before = list@;
    let mut k: usize = 0;
    while k < from.len()
        invariant
            k <= from@.len(),
            list@ == with_radar(before, from@, k as int),
        decreases from.len() - k,
    {
        let w: Warning = from[k];
        let radar: bool = match w {
            Warning::Noted(n) => match n {
                Note::DetectionOver { .. } | Note::DetectionSeen { .. } => true,
                _ => false,
            },
            Warning::RadarTransit { .. } => true,
            _ => false,
        };
        if radar {
            note_once(list, w);
        }
        k = k + 1;
    }
}

/// How many of the first `k` warnings tell of ground of unknown height.
pub open spec fn unknown_heights(list: Seq<Warning>, k: int) -> int
    decreases k,
{
    if k <= 0 {
        0
    } else {
        unknown_heights(list, k - 1) + (match list[k - 1] {
            Warning::Noted(n) => if n is NoData {
                1int
            } else {
                0
            },
            _ => 0,
        })
    }
}

fn count_unknown(list: &Vec<Warning>) -> (r: usize)
    ensures
        r == unknown_heights(list@, list@.len() as int),
{
    let mut n: usize = 0;
    let mut k: usize = 0;
    while k < list.len()
        invariant
            k <= list@.len(),
            n <= k,
            n == unknown_heights(list@, k as int),
        decreases list.len() - k,
    {
        match list[k] {
            Warning::Noted(note) => match note {
                Note::NoData { .. } => {
                    n = n + 1;
                },
                _ => {},
            },
            _ => {},
        }
        k = k + 1;
    }
    n
}

/// Whether an issue is a turn close to an excused place.
pub open spec fn is_excused<C: Fn(Calc) -> Scalar>(
    calc: C,
    pts: Seq<PathPoint>,
    excused: Seq<(Scalar, Scalar)>,
    issue: Issue,
) -> bool {
    match issue {
        Issue::Turn { vertex, .. } => vertex < pts.len() && exists|k: int|
            0 <= k < excused.len() && flat_km(
                calc,
                (#[trigger] excused[k]).0,
                excused[k].1,
                pts[vertex as int].lon,
                pts[vertex as int].lat,
            ) < whole(1),
        _ => false,
    }
}

fn find_excused<C: Fn(Calc) -> Scalar>(
    pts: &Vec<PathPoint>,
    excused: &Vec<(Scalar, Scalar)>,
    issue: &Issue,
    calc: &C,
) -> (r: bool)
    requires
        is_function(*calc),
    ensures
        r == is_excused(*calc, pts@, excused@, *issue),
{
    match issue {
        Issue::Turn { vertex, .. } => {
            if *vertex >= pts.len() {
                return false;
            }
            let p: PathPoint = pts[*vertex];
            let mut k: usize = 0;
            while k < excused.len()
                invariant
                    is_function(*calc),
                    issue is Turn,
                    issue->Turn_vertex < pts@.len(),
                    p == pts@[issue->Turn_vertex as int],
                    k <= excused@.len(),
                    forall|j: int|
                        0 <= j < k ==> !(flat_km(
                            *calc,
                            (#[trigger] excused@[j]).0,
                            excused@[j].1,
                            p.lon,
                            p.lat,
                        ) < whole(1)),
                decreases excused.len() - k,
            {
                let at: (Scalar, Scalar) = excused[k];
                if dist_km(at.0, at.1, p.lon, p.lat, calc).lt(&number(1)) {
                    assert(at == excused@[k as int]);
                    return true;
                }
                k = k + 1;
            }
            false
        },
        _ => false,
    }
}

/// How many of the first `k` issues are excused.
pub open spec fn excused_count<C: Fn(Calc) -> Scalar>(
    calc: C,
    pts: Seq<PathPoint>,
    excused: Seq<(Scalar, Scalar)>,
    issues: Seq<Issue>,
    k: int,
) -> int
    decreases k,
{
    if k <= 0 {
        0
    } else {
        excused_count(calc, pts, excused, issues, k - 1) + (if is_excused(
            calc,
            pts,
            excused,
            issues[k - 1],
        ) {
            1int
        } else {
            0
        })
    }
}

fn count_excused<C: Fn(Calc) -> Scalar>(
    pts: &Vec<PathPoint>,
    excused: &Vec<(Scalar, Scalar)>,
    issues: &Vec<Issue>,
    calc: &C,
) -> (r: usize)
    requires
        is_function(*calc),
    ensures
        r == excused_count(*calc, pts@, excused@, issues@, issues@.len() as int),
{
    let mut n: usize = 0;
    let mut k: usize = 0;
    while k < issues.len()
        invariant
            is_function(*calc),
            k <= issues@.len(),
            n <= k,
            n == excused_count(*calc, pts@, excused@, issues@, k as int),
        decreases issues.len() - k,
    {
        if find_excused(pts, excused, &issues[k], calc) {
            n = n + 1;
        }
        k = k + 1;
    }
    n
}

/// A route with the warnings and the degradations it comes with.
pub ghost struct Delivery {
    pub pts: Seq<PathPoint>,
    pub warnings: Seq<Warning>,
    pub degradations: Seq<Warning>,
}

/// How planning stands between attempts.
pub ghost struct Flight {
    pub attempt: Attempt,
    /// The raw route of the last attempt that found one.
    pub raw: Seq<PathPoint>,
    /// The attempt that found it.
    pub made: Attempt,
    pub warnings: Seq<Warning>,
}

/// What an attempt leads to.
pub enum Step {
    /// Another attempt.
    Again(Flight),
    /// There is no way.
    NoWay,
    /// A route, and the attempt that led to it.
    Done(Delivery, Attempt),
}

/// Whether a route is so much longer than the straight one that it winds for the
/// sake of the grid.
pub open spec fn winds<C: Fn(Calc) -> Scalar>(calc: C, pts: Seq<PathPoint>, straight: Seq<PathPoint>) -> bool {
    Path::length_of(pts, calc, pts.len() - 1) > Path::length_of(
        straight,
        calc,
        straight.len() - 1,
    ) * frac(105, 100) + whole(1000)
}

fn is_winding<C: Fn(Calc) -> Scalar>(path: &Path, straight: &Path, calc: &C) -> (r: bool)
    requires
        is_function(*calc),
    ensures
        r == winds(*calc, path@, straight@),
{
    let limit: Scalar = straight.length_m(calc) * ratio(105, 100) + number(1000);
    limit.lt(&path.length_m(calc))
}

/// Whether all points of a route are known to lie outside the cores of radars.
pub open spec fn outside_cores<P: Fn((Scalar, Scalar, Scalar)) -> Scalar>(depth: P, pts: Seq<PathPoint>) -> bool {
    forall|k: int|
        0 <= k < pts.len() ==> image(
            depth,
            ((#[trigger] pts[k]).lon, pts[k].lat, pts[k].alt_m),
        ) >= frac(7, 10)
}

fn is_outside_cores<P: Fn((Scalar, Scalar, Scalar)) -> Scalar>(depth: &P, pts: &Vec<PathPoint>) -> (r: bool)
    requires
        is_function(*depth),
    ensures
        r == outside_cores(*depth, pts@),
{
    let mut k: usize = 0;
    while k < pts.len()
        invariant
            is_function(*depth),
            k <= pts@.len(),
            forall|j: int|
                0 <= j < k ==> image(
                    *depth,
                    ((#[trigger] pts@[j]).lon, pts@[j].lat, pts@[j].alt_m),
                ) >= frac(7, 10),
        decreases pts.len() - k,
    {
        let p: PathPoint = pts[k];
        if !ratio(7, 10).le(&ask(depth, (p.lon, p.lat, p.alt_m))) {
            assert(p == pts@[k as int]);
            return false;
        }
        k = k + 1;
    }
    true
}

/// Whether some point of a route lies in the core of a radar.
pub open spec fn enters_core<P: Fn((Scalar, Scalar, Scalar)) -> Scalar>(depth: P, pts: Seq<PathPoint>) -> bool {
    exists|k: int| 0 <= k < pts.len() && in_core(depth, #[trigger] pts[k])
}

fn is_entering_core<P: Fn((Scalar, Scalar, Scalar)) -> Scalar>(depth: &P, pts: &Vec<PathPoint>) -> (r: bool)
    requires
        is_function(*depth),
    ensures
        r == enters_core(*depth, pts@),
{
    let mut k: usize = 0;
    while k < pts.len()
        invariant
            is_function(*depth),
            k <= pts@.len(),
            forall|j: int| 0 <= j < k ==> !in_core(*depth, #[trigger] pts@[j]),
        decreases pts.len() - k,
    {
        if is_in_core(depth, &pts[k]) {
            assert(in_core(*depth, pts@[k as int]));
            return true;
        }
        k = k + 1;
    }
    false
}

fn copy_points(pts: &Vec<PathPoint>) -> (r: Vec<PathPoint>)
    ensures
        r@ == pts@,
{
    let r: Vec<PathPoint> = slice_points(pts, 0, pts.len());
    assert(r@ =~= pts@);
    r
}

impl<
    'a,
    C: Fn(Calc) -> Scalar,
    T: Fn((Scalar, Scalar)) -> Sample,
    N: Fn((Scalar, Scalar)) -> bool,
    P: Fn((Scalar, Scalar, Scalar)) -> Scalar,
    E: Fn(Path) -> ThreatReading,
> Task<'a, C, T, N, P, E> {
    /// The straight route between all places of the flight.
    pub open spec fn straight_route(self, alt_m: Scalar) -> Seq<PathPoint> {
        self.straight(alt_m, self.ends().len() as int)
    }

    /// Delivers the raw route, smoothing having failed; or the straight route, if
    /// the raw one winds, the straight one passes verification and keeps outside
    /// the cores of radars.
    pub open spec fn unsmoothed(
        self,
        raw: Seq<PathPoint>,
        alt_m: Scalar,
        found: Findings,
        warnings: Seq<Warning>,
        degradations: Seq<Warning>,
    ) -> Delivery {
        let straight = self.straight_route(alt_m);
        let w = warnings.push(Warning::SmoothingFailed) + as_warnings(found.notes);
        let d = degradations.push(Warning::SmoothingFailed);
        let plain = self.findings(straight);
        if straight.len() >= 2 && winds(*self.calc, raw, straight) && outside_cores(
            *self.depth,
            straight,
        ) && plain.issues.len() == 0 {
            Delivery {
                pts: straight,
                warnings: (unfailed(w) + as_warnings(plain.notes)).push(Warning::GridArtifact),
                degradations: noted_once(unfailed(d), Warning::GridArtifact),
            }
        } else {
            Delivery { pts: raw, warnings: w, degradations: d }
        }
    }

    /// Crosses a radar straight where the route enters its core all the same, is
    /// too likely to be detected, and winds.
    pub open spec fn crossing(self, alt_m: Scalar, at: Delivery) -> Delivery {
        let straight = self.straight_route(alt_m);
        let now = judged(*self.judge, at.pts);
        if now.over_threshold && enters_core(*self.depth, at.pts) && straight.len() >= 2 && winds(
            *self.calc,
            at.pts,
            straight,
        ) && self.findings(straight).issues.len() == 0 {
            let told = Warning::RadarTransit { p: now.cumulative_p };
            Delivery {
                pts: straight,
                warnings: unfailed(at.warnings).push(told),
                degradations: noted_once(unfailed(at.degradations), told),
            }
        } else {
            at
        }
    }

    /// What is delivered where the smoothed route does not pass verification.
    pub open spec fn fallback(
        self,
        raw: Seq<PathPoint>,
        alt_m: Scalar,
        s: Smoothed,
        found: Findings,
        warnings: Seq<Warning>,
        degradations: Seq<Warning>,
    ) -> Delivery {
        let plain = self.unsmoothed(raw, alt_m, found, warnings, degradations);
        let seen = as_warnings(found.notes) + s.warnings;
        self.crossing(
            alt_m,
            Delivery {
                degradations: with_radar(plain.degradations, seen, seen.len() as int),
                ..plain
            },
        )
    }

    /// What is delivered where a raw route is not smoothed at all: it has no leg, or no
    /// attempt is left.
    pub open spec fn given_up(
        self,
        raw: Seq<PathPoint>,
        alt_m: Scalar,
        warnings: Seq<Warning>,
        degradations: Seq<Warning>,
    ) -> Delivery {
        self.fallback(
            raw,
            alt_m,
            Smoothed::nothing(),
            self.findings(raw),
            warnings,
            degradations,
        )
    }

    /// What an attempt leads to once its parts are smoothed.
    pub open spec fn settle(
        self,
        a: Attempt,
        raw: Seq<PathPoint>,
        s: Smoothed,
        warnings: Seq<Warning>,
        degradations: Seq<Warning>,
    ) -> Step {
        let route = joined(s.parts, s.parts.len() as int);
        let found = self.findings(route);
        let n = found.issues.len() as int;
        let excused = excused_count(*self.calc, route, s.excused, found.issues, n);
        let told = if s.excused.len() > 0 && excused > 0 {
            warnings.push(
                Warning::SharpJoint {
                    lon: s.excused[0].0,
                    lat: s.excused[0].1,
                    max_deg: self.opts.max_turn_deg,
                },
            )
        } else {
            warnings
        };
        let land = highest_land(found.issues, n).larger(s.land_m);
        let new_m = clearing_height(land, self.opts.clearance_m, self.vehicle.alt_m);
        if n == 0 || (s.excused.len() > 0 && excused == n) {
            Step::Done(Delivery { pts: route, warnings: told + s.warnings, degradations }, a)
        } else if land > whole(0) && can_raise(new_m, a.alt_m, self.vehicle.profile.ceiling_m) {
            Step::Again(
                Flight {
                    attempt: Attempt { raised: true, alt_m: new_m, ..a },
                    raw,
                    made: a,
                    warnings: told,
                },
            )
        } else {
            Step::Done(self.fallback(raw, a.alt_m, s, found, told, degradations), a)
        }
    }

    /// What an attempt leads to once its raw routes are found.
    pub open spec fn step_with(
        self,
        a: Attempt,
        legs: Seq<Seq<PathPoint>>,
        warnings: Seq<Warning>,
        degradations: Seq<Warning>,
    ) -> Step {
        let raw = joined(legs, legs.len() as int);
        let higher = self.raise_at_first(a);
        let cut = self.cut(legs, a.alt_m, legs.len() as int);
        if higher is Some {
            Step::Again(
                Flight {
                    attempt: Attempt { raised: true, alt_m: higher->0, ..a },
                    raw,
                    made: a,
                    warnings,
                },
            )
        } else if cut.need_wall {
            Step::Again(Flight { attempt: Attempt { forced: true, ..a }, raw, made: a, warnings })
        } else if raw.len() < 2 {
            Step::Done(self.given_up(raw, a.alt_m, warnings, degradations), a)
        } else {
            self.settle(
                a,
                raw,
                self.smoothed(cut.parts, cut.mask, cut.parts.len() as int),
                warnings,
                degradations,
            )
        }
    }

    /// What an attempt leads to.
    #[verifier::opaque]
    pub open spec fn step<F: Fn(Search) -> Option<Cells>>(
        self,
        search: F,
        f: Flight,
        degradations: Seq<Warning>,
    ) -> Step {
        match self.raw_legs(search, f.attempt, self.ends().len() - 1) {
            None => match f.attempt.after_no_way() {
                Some(next) => Step::Again(Flight { attempt: next, ..f }),
                None => Step::NoWay,
            },
            Some(legs) => self.step_with(f.attempt, legs, f.warnings, degradations),
        }
    }

    /// What planning leads to from where it stands. Where no attempt is left, smoothing
    /// has failed for the last raw route.
    pub open spec fn flown<F: Fn(Search) -> Option<Cells>>(
        self,
        search: F,
        f: Flight,
        degradations: Seq<Warning>,
        left: nat,
    ) -> Step
        decreases left,
    {
        if left == 0 {
            Step::Done(
                self.given_up(f.raw, f.made.alt_m, f.warnings, degradations),
                f.made,
            )
        } else {
            match self.step(search, f, degradations) {
                Step::Again(next) => self.flown(search, next, degradations, (left - 1) as nat),
                last => last,
            }
        }
    }

    fn deliver_unsmoothed(
        &self,
        raw: &Path,
        straight: &Path,
        alt_m: Scalar,
        found: &VerifyReport,
        warnings: &mut Vec<Warning>,
        degradations: &mut Vec<Warning>,
        Ghost(known): Ghost<Findings>,
    ) -> (r: Path)
        requires
            self.settled(),
            found.tells(known),
            straight@ == self.straight_route(alt_m),
        ensures
            (Delivery { pts: r@, warnings: final(warnings)@, degradations: final(degradations)@ })
                == self.unsmoothed(
                raw@,
                alt_m,
                known,
                old(warnings)@,
                old(degradations)@,
            ),
    {
        warnings.push(Warning::SmoothingFailed);
        degradations.push(Warning::SmoothingFailed);
        push_notes(warnings, &found.warnings);
        if straight.points.len() >= 2 && is_winding(raw, straight, self.calc) && is_outside_cores(
            self.depth,
            &straight.points,
        ) {
            let plain: VerifyReport = self.verify_route(straight);
            if plain.ok {
                let kept: Vec<Warning> = drop_failure(warnings);
                *warnings = kept;
                push_notes(warnings, &plain.warnings);
                warnings.push(Warning::GridArtifact);
                let left: Vec<Warning> = drop_failure(degradations);
                *degradations = left;
                note_once(degradations, Warning::GridArtifact);
                return Path::new(copy_points(&straight.points));
            }
        }
        Path::new(copy_points(&raw.points))
    }

    fn deliver_crossing(
        &self,
        at: Path,
        straight: &Path,
        alt_m: Scalar,
        warnings: &mut Vec<Warning>,
        degradations: &mut Vec<Warning>,
    ) -> (r: Path)
        requires
            self.settled(),
            straight@ == self.straight_route(alt_m),
        ensures
            (Delivery { pts: r@, warnings: final(warnings)@, degradations: final(degradations)@ })
                == self.crossing(
                alt_m,
                Delivery {
                    pts: at@,
                    warnings: old(warnings)@,
                    degradations: old(degradations)@,
                },
            ),
    {
        let now: ThreatReading = judge_route(self.judge, &at.points);
        if now.over_threshold && is_entering_core(self.depth, &at.points) {
            if straight.points.len() >= 2 && is_winding(&at, straight, self.calc) {
                let plain: VerifyReport = self.verify_route(straight);
                if plain.ok {
                    let told: Warning = Warning::RadarTransit { p: now.cumulative_p };
                    let kept: Vec<Warning> = drop_failure(warnings);
                    *warnings = kept;
                    warnings.push(told);
                    let left: Vec<Warning> = drop_failure(degradations);
                    *degradations = left;
                    note_once(degradations, told);
                    return Path::new(copy_points(&straight.points));
                }
            }
        }
        at
    }

    fn deliver_fallback(
        &self,
        raw: &Path,
        alt_m: Scalar,
        s: &SmoothParts,
        found: &VerifyReport,
        warnings: &mut Vec<Warning>,
        degradations: &mut Vec<Warning>,
        Ghost(known): Ghost<Findings>,
    ) -> (r: Path)
        requires
            self.settled(),
            found.tells(known),
        ensures
            (Delivery { pts: r@, warnings: final(warnings)@, degradations: final(degradations)@ })
                == self.fallback(
                raw@,
                alt_m,
                s.view(),
                known,
                old(warnings)@,
                old(degradations)@,
            ),
    {
        let straight: Path = self.make_straight(alt_m);
        let plain: Path = self.deliver_unsmoothed(
            raw,
            &straight,
            alt_m,
            found,
            warnings,
            degradations,
            Ghost(known),
        );
        let mut seen: Vec<Warning> = Vec::new();
        push_notes(&mut seen, &found.warnings);
        let mut k: usize = 0;
        while k < s.warnings.len()
            invariant
                k <= s.warnings@.len(),
                seen@ == as_warnings(known.notes) + s.warnings@.take(k as int),
            decreases s.warnings.len() - k,
        {
            seen.push(s.warnings[k]);
            k = k + 1;
            proof {
                assert(seen@ =~= as_warnings(known.notes) + s.warnings@.take(k as int));
            }
        }
        assert(seen@ =~= as_warnings(known.notes) + s.warnings@);
        note_radar(degradations, &seen);
        self.deliver_crossing(plain, &straight, alt_m, warnings, degradations)
    }

    fn give_up(
        &self,
        raw: &Path,
        alt_m: Scalar,
        warnings: &mut Vec<Warning>,
        degradations: &mut Vec<Warning>,
    ) -> (r: Path)
        requires
            self.settled(),
        ensures
            (Delivery { pts: r@, warnings: final(warnings)@, degradations: final(degradations)@ })
                == self.given_up(raw@, alt_m, old(warnings)@, old(degradations)@),
    {
        let found: VerifyReport = self.verify_route(raw);
        let ghost known = self.findings(raw@);
        let s: SmoothParts = SmoothParts {
            parts: Vec::new(),
            warnings: Vec::new(),
            land_m: number(0),
            excused: Vec::new(),
            heading: None,
        };
        proof {
            assert(s.view().parts =~= Smoothed::nothing().parts);
            assert(s.view().warnings =~= Smoothed::nothing().warnings);
            assert(s.view().excused =~= Smoothed::nothing().excused);
        }
        self.deliver_fallback(raw, alt_m, &s, &found, warnings, degradations, Ghost(known))
    }

    fn settle_route(
        &self,
        a: &Attempt,
        raw: &Path,
        s: SmoothParts,
        warnings: &mut Vec<Warning>,
        degradations: &mut Vec<Warning>,
    ) -> (r: Outcome)
        requires
            self.settled(),
        ensures
            r.is_step(
                self.settle(*a, raw@, s.view(), old(warnings)@, old(degradations)@),
                raw@,
                *a,
                final(warnings)@,
                final(degradations)@,
                old(degradations)@,
            ),
    {
        let ghost had = warnings@;
        let route: Path = join_paths(&s.parts);
        let found: VerifyReport = self.verify_route(&route);
        let ghost known = self.findings(route@);
        let n: usize = found.issues.len();
        let excused: usize = count_excused(&route.points, &s.excused, &found.issues, self.calc);
        let any: bool = s.excused.len() > 0 && excused > 0;
        if any {
            warnings.push(
                Warning::SharpJoint {
                    lon: s.excused[0].0,
                    lat: s.excused[0].1,
                    max_deg: self.opts.max_turn_deg,
                },
            );
        }
        let ghost told = warnings@;
        if n == 0 || (s.excused.len() > 0 && excused == n) {
            let mut more: Vec<Warning> = s.warnings;
            warnings.append(&mut more);
            return Outcome::Done(route, *a);
        }
        let land: Scalar = find_highest_land(&found.issues).max(&s.land_m);
        if number(0).lt(&land) {
            if let Some(new_m) = raise_over(
                land,
                self.opts.clearance_m,
                self.vehicle.alt_m,
                a.alt_m,
                self.vehicle.profile.ceiling_m,
            ) {
                let mut next: Attempt = *a;
                next.raised = true;
                next.alt_m = new_m;
                return Outcome::Again(next);
            }
        }
        let path: Path = self.deliver_fallback(
            raw,
            a.alt_m,
            &s,
            &found,
            warnings,
            degradations,
            Ghost(known),
        );
        Outcome::Done(path, *a)
    }

    fn attempt<F: Fn(Search) -> Option<Cells>>(
        &self,
        search: &F,
        a: &Attempt,
        raw: &mut Path,
        made: &mut Attempt,
        warnings: &mut Vec<Warning>,
        degradations: &mut Vec<Warning>,
    ) -> (r: Outcome)
        requires
            self.settled(),
            searches(*search),
        ensures
            r.is_step(
                self.step(
                    *search,
                    Flight {
                        attempt: *a,
                        raw: old(raw)@,
                        made: *old(made),
                        warnings: old(warnings)@,
                    },
                    old(degradations)@,
                ),
                final(raw)@,
                *final(made),
                final(warnings)@,
                final(degradations)@,
                old(degradations)@,
            ),
    {
        proof {
            reveal(Task::step);
        }
        let legs: Vec<Path> = match self.search_legs(search, a) {
            None => {
                return match a.retry_after_no_way() {
                    Some(next) => Outcome::Again(next),
                    None => Outcome::NoWay,
                };
            },
            Some(legs) => legs,
        };
        *raw = join_paths(&legs);
        *made = *a;
        if let Some(new_m) = self.find_raise_at_first(a) {
            let mut next: Attempt = *a;
            next.raised = true;
            next.alt_m = new_m;
            return Outcome::Again(next);
        }
        let (parts, mask, need_wall) = self.cut_legs(&legs, a.alt_m);
        assert(part_views(parts@).len() == parts@.len());
        assert(part_views(legs@).len() == legs@.len());
        if need_wall {
            let mut next: Attempt = *a;
            next.forced = true;
            return Outcome::Again(next);
        }
        if raw.points.len() < 2 {
            let path: Path = self.give_up(raw, a.alt_m, warnings, degradations);
            return Outcome::Done(path, *a);
        }
        let s: SmoothParts = self.smooth_parts(&parts, &mask);
        self.settle_route(a, raw, s, warnings, degradations)
    }

    /// The first attempt.
    pub open spec fn first_attempt(self) -> Attempt {
        Attempt {
            probed: false,
            raised: false,
            unmasked: false,
            forced: false,
            alt_m: self.vehicle.alt_m,
        }
    }

    /// How planning stands before the first attempt.
    pub open spec fn before_flight(self) -> Flight {
        Flight {
            attempt: self.first_attempt(),
            raw: Seq::empty(),
            made: self.first_attempt(),
            warnings: Seq::empty(),
        }
    }

    fn fly<F: Fn(Search) -> Option<Cells>>(
        &self,
        search: &F,
        warnings: &mut Vec<Warning>,
        degradations: &mut Vec<Warning>,
    ) -> (r: Outcome)
        requires
            self.settled(),
            searches(*search),
            old(warnings)@.len() == 0,
        ensures
            r !is Again,
            r.is_step(
                self.flown(*search, self.before_flight(), old(degradations)@, 6),
                Seq::empty(),
                self.first_attempt(),
                final(warnings)@,
                final(degradations)@,
                old(degradations)@,
            ),
    {
        let mut a: Attempt = Attempt {
            probed: false,
            raised: false,
            unmasked: false,
            forced: false,
            alt_m: self.vehicle.alt_m,
        };
        let mut made: Attempt = a;
        let mut raw: Path = Path::new(Vec::new());
        assert(raw@ =~= Seq::<PathPoint>::empty());
        assert(warnings@ =~= Seq::<Warning>::empty());
        let ghost had = degradations@;
        let mut left: u32 = 6;
        while left > 0
            invariant
                self.settled(),
                searches(*search),
                left <= 6,
                had == old(degradations)@,
                degradations@ == had,
                self.flown(*search, self.before_flight(), had, 6) == self.flown(
                    *search,
                    Flight { attempt: a, raw: raw@, made, warnings: warnings@ },
                    had,
                    left as nat,
                ),
            decreases left,
        {
            match self.attempt(search, &a, &mut raw, &mut made, warnings, degradations) {
                Outcome::Again(next) => {
                    a = next;
                },
                Outcome::NoWay => {
                    return Outcome::NoWay;
                },
                Outcome::Done(path, b) => {
                    return Outcome::Done(path, b);
                },
            }
            left = left - 1;
        }
        let path: Path = self.give_up(&raw, made.alt_m, warnings, degradations);
        Outcome::Done(path, made)
    }
}

/// The planned route of one vehicle.
pub struct VehiclePlan {
    /// Whether there is a route.
    pub planned: bool,
    pub path: Vec<PathPoint>,
    pub distance_m: Scalar,
    pub warnings: Vec<Warning>,
}

impl<
    'a,
    C: Fn(Calc) -> Scalar,
    T: Fn((Scalar, Scalar)) -> Sample,
    N: Fn((Scalar, Scalar)) -> bool,
    P: Fn((Scalar, Scalar, Scalar)) -> Scalar,
    E: Fn(Path) -> ThreatReading,
> Task<'a, C, T, N, P, E> {
    /// Whether the flight ends higher than was asked for.
    pub open spec fn flies_higher(self, a: Attempt) -> bool {
        a.raised && a.alt_m > self.vehicle.alt_m + frac(5, 10)
    }

    /// The warning of a flight that ends higher than was asked for.
    pub open spec fn height_warning(self, a: Attempt) -> Warning {
        Warning::AltitudeRaised {
            from_m: self.vehicle.alt_m,
            to_m: a.alt_m,
            terrain_m: (a.alt_m - self.opts.clearance_m.larger(whole(1)) - whole(100)).larger(
                whole(0),
            ),
        }
    }

    /// The speed at which the planned radius can be turned.
    pub open spec fn turn_speed(self) -> Scalar {
        let bank = or_else(self.vehicle.profile.max_bank_deg, self.params.default_max_bank_deg);
        (self.opts.turn_radius_m * frac(981, 100) * image(
            *self.calc,
            Calc::Tan(radians(bank)),
        )).root()
    }

    /// What is told of the speed in turns: that it has to be lower than the speed
    /// planned, where it has.
    pub open spec fn speed_warnings(self) -> Seq<Warning> {
        let cruise = planning_speed(self.vehicle.profile, *self.params);
        if self.opts.turn_radius_m > whole(0) && self.turn_speed() < cruise - frac(
            1,
            1_000_000_000,
        ) {
            seq![
                Warning::SlowDown {
                    radius_m: self.opts.turn_radius_m,
                    from_mps: cruise,
                    to_mps: self.turn_speed(),
                },
            ]
        } else {
            Seq::empty()
        }
    }

    /// A delivery with what is told of height, speed and unknown ground.
    pub open spec fn closed(self, d: Delivery, a: Attempt) -> Delivery {
        let higher = if self.flies_higher(a) {
            seq![self.height_warning(a)]
        } else {
            Seq::empty()
        };
        let warnings = d.warnings + higher + self.speed_warnings();
        let unknown = unknown_heights(warnings, warnings.len() as int);
        let degradations = d.degradations + higher;
        Delivery {
            pts: d.pts,
            warnings,
            degradations: if unknown > 0 {
                noted_once(degradations, Warning::HeightsUnknown { samples: unknown as usize })
            } else {
                degradations
            },
        }
    }

    fn close(
        &self,
        path: &Path,
        a: &Attempt,
        warnings: &mut Vec<Warning>,
        degradations: &mut Vec<Warning>,
    )
        requires
            self.settled(),
        ensures
            (Delivery {
                pts: path@,
                warnings: final(warnings)@,
                degradations: final(degradations)@,
            }) == self.closed(
                Delivery {
                    pts: path@,
                    warnings: old(warnings)@,
                    degradations: old(degradations)@,
                },
                *a,
            ),
    {
        let ghost w0 = warnings@;
        let ghost d0 = degradations@;
        let higher: bool = a.raised && (self.vehicle.alt_m + ratio(5, 10)).lt(&a.alt_m);
        if higher {
            let clearance: Scalar = self.opts.clearance_m.max(&number(1));
            let told: Warning = Warning::AltitudeRaised {
                from_m: self.vehicle.alt_m,
                to_m: a.alt_m,
                terrain_m: (a.alt_m - clearance - number(100)).max(&number(0)),
            };
            warnings.push(told);
            degradations.push(told);
        }
        let ghost added = if self.flies_higher(*a) {
            seq![self.height_warning(*a)]
        } else {
            Seq::empty()
        };
        assert(warnings@ =~= w0 + added);
        assert(degradations@ =~= d0 + added);
        if let Some(told) = self.find_speed_warning() {
            warnings.push(told);
        }
        assert(warnings@ =~= w0 + added + self.speed_warnings());
        let unknown: usize = count_unknown(warnings);
        if unknown > 0 {
            note_once(degradations, Warning::HeightsUnknown { samples: unknown });
        }
    }

    fn find_speed_warning(&self) -> (r: Option<Warning>)
        requires
            self.settled(),
        ensures
            self.speed_warnings() == (match r {
                None => Seq::<Warning>::empty(),
                Some(w) => seq![w],
            }),
    {
        if !number(0).lt(&self.opts.turn_radius_m) {
            return None;
        }
        let profile = &self.vehicle.profile;
        let bank: Scalar = match profile.max_bank_deg {
            Some(b) => b,
            None => self.params.default_max_bank_deg,
        };
        let to_mps: Scalar = (self.opts.turn_radius_m * ratio(981, 100) * ask(
            self.calc,
            Calc::Tan(to_radians(bank)),
        )).sqrt();
        let from_mps: Scalar = match profile.cruise_speed_mps {
            Some(v) => v,
            None => match profile.speed_range_mps {
                Some(range) => (range[0] + range[1]) / number(2),
                None => match profile.aircraft_type {
                    AircraftType::FixedWing => self.params.default_fixed_wing_speed_mps,
                    AircraftType::Rotorcraft => self.params.default_rotorcraft_speed_mps,
                },
            },
        };
        if to_mps.lt(&(from_mps - ratio(1, 1_000_000_000))) {
            Some(Warning::SlowDown { radius_m: self.opts.turn_radius_m, from_mps, to_mps })
        } else {
            None
        }
    }

    /// What planning of this flight leads to.
    pub open spec fn outcome<F: Fn(Search) -> Option<Cells>>(
        self,
        search: F,
        degradations: Seq<Warning>,
    ) -> Step {
        self.flown(search, self.before_flight(), degradations, 6)
    }

    /// Whether a plan is the one that planning leads to, with the degradations
    /// that stand before and after it.
    pub open spec fn is_plan<F: Fn(Search) -> Option<Cells>>(
        self,
        search: F,
        plan: VehiclePlan,
        before: Seq<Warning>,
        after: Seq<Warning>,
    ) -> bool {
        match self.outcome(search, before) {
            Step::Done(d, a) => {
                let c = self.closed(d, a);
                &&& plan.planned
                &&& plan.path@ == c.pts
                &&& plan.distance_m == Path::length_of(c.pts, *self.calc, c.pts.len() - 1)
                &&& plan.warnings@ == c.warnings
                &&& after == c.degradations
            },
            _ => {
                &&& !plan.planned
                &&& plan.path@.len() == 0
                &&& plan.distance_m == whole(0)
                &&& plan.warnings@ == seq![Warning::NoPath]
                &&& after == before
            },
        }
    }

    /// Plans the route of this flight.
    pub fn plan<F: Fn(Search) -> Option<Cells>>(&self, search: &F, degradations: &mut Vec<Warning>) -> (r:
        VehiclePlan)
        requires
            self.settled(),
            searches(*search),
        ensures
            self.is_plan(*search, r, old(degradations)@, final(degradations)@),
    {
        let ghost before = degradations@;
        let mut warnings: Vec<Warning> = Vec::new();
        match self.fly(search, &mut warnings, degradations) {
            Outcome::Done(path, a) => {
                self.close(&path, &a, &mut warnings, degradations);
                let distance_m: Scalar = path.length_m(self.calc);
                VehiclePlan { planned: true, path: path.points, distance_m, warnings }
            },
            _ => {
                let mut told: Vec<Warning> = Vec::new();
                told.push(Warning::NoPath);
                assert(told@ =~= seq![Warning::NoPath]);
                VehiclePlan {
                    planned: false,
                    path: Vec::new(),
                    distance_m: number(0),
                    warnings: told,
                }
            },
        }
    }
}

/// What an attempt leads to.
pub enum Outcome {
    Again(Attempt),
    NoWay,
    Done(Path, Attempt),
}

impl Outcome {
    /// Whether this is a step, with the raw route, the warnings and the
    /// degradations that stand after it.
    pub open spec fn is_step(
        self,
        step: Step,
        raw: Seq<PathPoint>,
        made: Attempt,
        warnings: Seq<Warning>,
        degradations: Seq<Warning>,
        before: Seq<Warning>,
    ) -> bool {
        match self {
            Outcome::Again(a) => {
                &&& step == Step::Again(Flight { attempt: a, raw, made, warnings })
                &&& degradations == before
            },
            Outcome::NoWay => step is NoWay && degradations == before,
            Outcome::Done(p, a) => step == Step::Done(
                Delivery { pts: p@, warnings, degradations },
                a,
            ),
        }
    }
}

/// Whether two steps lead to the same, degradations aside.
spec fn alike(s: Step, t: Step) -> bool {
    match s {
        Step::Done(d, a) => match t {
            Step::Done(e, b) => a == b && d.pts == e.pts && d.warnings == e.warnings,
            _ => false,
        },
        _ => s == t,
    }
}

impl<
    'a,
    C: Fn(Calc) -> Scalar,
    T: Fn((Scalar, Scalar)) -> Sample,
    N: Fn((Scalar, Scalar)) -> bool,
    P: Fn((Scalar, Scalar, Scalar)) -> Scalar,
    E: Fn(Path) -> ThreatReading,
> Task<'a, C, T, N, P, E> {
    /// Whether a route passes verification, or warnings say that it does not: that
    /// smoothing failed, or that a turn is too sharp.
    pub open spec fn is_sound(self, pts: Seq<PathPoint>, warnings: Seq<Warning>) -> bool {
        ||| self.findings(pts).issues.len() == 0
        ||| warnings.contains(Warning::SmoothingFailed)
        ||| exists|k: int| 0 <= k < warnings.len() && (#[trigger] warnings[k]) is SharpJoint
    }

    /// A route that is delivered once its parts are smoothed passes verification,
    /// or the warnings say that it does not.
    pub proof fn law_settled_route_is_sound(
        self,
        a: Attempt,
        raw: Seq<PathPoint>,
        s: Smoothed,
        warnings: Seq<Warning>,
        degradations: Seq<Warning>,
    )
        ensures
            match self.settle(a, raw, s, warnings, degradations) {
                Step::Done(d, _) => self.is_sound(d.pts, d.warnings),
                _ => true,
            },
    {
        let route = joined(s.parts, s.parts.len() as int);
        let found = self.findings(route);
        let n = found.issues.len() as int;
        let excused = excused_count(*self.calc, route, s.excused, found.issues, n);
        let told = if s.excused.len() > 0 && excused > 0 {
            warnings.push(
                Warning::SharpJoint {
                    lon: s.excused[0].0,
                    lat: s.excused[0].1,
                    max_deg: self.opts.max_turn_deg,
                },
            )
        } else {
            warnings
        };
        if s.excused.len() > 0 && excused > 0 {
            assert((told + s.warnings)[warnings.len() as int] is SharpJoint);
        }
        let w = told.push(Warning::SmoothingFailed) + as_warnings(found.notes);
        assert(w[told.len() as int] == Warning::SmoothingFailed);
    }

    /// A raw route that is given up is delivered with a warning, or replaced by one that
    /// passes verification.
    pub proof fn law_given_up_route_is_sound(
        self,
        raw: Seq<PathPoint>,
        alt_m: Scalar,
        warnings: Seq<Warning>,
        degradations: Seq<Warning>,
    )
        ensures
            ({
                let d = self.given_up(raw, alt_m, warnings, degradations);
                self.is_sound(d.pts, d.warnings)
            }),
    {
        let found = self.findings(raw);
        let w = warnings.push(Warning::SmoothingFailed) + as_warnings(found.notes);
        assert(w[warnings.len() as int] == Warning::SmoothingFailed);
    }

    proof fn lemma_flown_is_sound<F: Fn(Search) -> Option<Cells>>(
        self,
        search: F,
        f: Flight,
        degradations: Seq<Warning>,
        left: nat,
    )
        ensures
            match self.flown(search, f, degradations, left) {
                Step::Done(d, _) => self.is_sound(d.pts, d.warnings),
                _ => true,
            },
        decreases left,
    {
        if left > 0 {
            match self.step(search, f, degradations) {
                Step::Again(next) => {
                    self.lemma_flown_is_sound(search, next, degradations, (left - 1) as nat);
                },
                Step::Done(d, a) => {
                    reveal(Task::step);
                    let legs = self.raw_legs(search, f.attempt, self.ends().len() - 1)->0;
                    let raw = joined(legs, legs.len() as int);
                    let cut = self.cut(legs, f.attempt.alt_m, legs.len() as int);
                    let s = self.smoothed(cut.parts, cut.mask, cut.parts.len() as int);
                    self.law_settled_route_is_sound(f.attempt, raw, s, f.warnings, degradations);
                    self.law_given_up_route_is_sound(
                        raw,
                        f.attempt.alt_m,
                        f.warnings,
                        degradations,
                    );
                },
                _ => {},
            }
        } else {
            self.law_given_up_route_is_sound(f.raw, f.made.alt_m, f.warnings, degradations);
        }
    }

    /// No route is delivered that breaks the rules without a word: the route of a plan
    /// passes verification, or its warnings say that it does not.
    pub proof fn law_no_silent_violation<F: Fn(Search) -> Option<Cells>>(
        self,
        search: F,
        plan: VehiclePlan,
        before: Seq<Warning>,
        after: Seq<Warning>,
    )
        requires
            self.is_plan(search, plan, before, after),
            plan.planned,
        ensures
            self.is_sound(plan.path@, plan.warnings@),
    {
        self.lemma_flown_is_sound(search, self.before_flight(), before, 6);
        if let Step::Done(d, a) = self.outcome(search, before) {
            let c = self.closed(d, a);
            assert forall|k: int| 0 <= k < d.warnings.len() implies c.warnings[k]
                == #[trigger] d.warnings[k] by {}
            if d.warnings.contains(Warning::SmoothingFailed) {
                let k = choose|k: int|
                    0 <= k < d.warnings.len() && d.warnings[k] == Warning::SmoothingFailed;
                assert(c.warnings[k] == Warning::SmoothingFailed);
            }
            if exists|k: int|
                0 <= k < d.warnings.len() && (#[trigger] d.warnings[k]) is SharpJoint {
                let k = choose|k: int|
                    0 <= k < d.warnings.len() && (#[trigger] d.warnings[k]) is SharpJoint;
                assert(c.warnings[k] is SharpJoint);
            }
        }
    }

    /// Whether the height of an attempt is the one asked for or, if it was raised,
    /// within the ceiling.
    pub open spec fn fair_height(self, a: Attempt) -> bool {
        &&& !a.raised ==> a.alt_m == self.vehicle.alt_m
        &&& a.raised && self.vehicle.profile.ceiling_m is Some ==> a.alt_m
            <= self.vehicle.profile.ceiling_m->0
    }

    /// No flight is raised above the ceiling of its vehicle.
    pub proof fn law_raised_flight_keeps_ceiling<F: Fn(Search) -> Option<Cells>>(
        self,
        search: F,
        f: Flight,
        degradations: Seq<Warning>,
        left: nat,
    )
        requires
            self.fair_height(f.attempt) && self.fair_height(f.made),
        ensures
            match self.flown(search, f, degradations, left) {
                Step::Done(_, a) => self.fair_height(a),
                _ => true,
            },
        decreases left,
    {
        reveal(Task::step);
        if left > 0 {
            match self.step(search, f, degradations) {
                Step::Again(next) => {
                    assert(self.fair_height(next.attempt) && self.fair_height(next.made));
                    self.law_raised_flight_keeps_ceiling(
                        search,
                        next,
                        degradations,
                        (left - 1) as nat,
                    );
                },
                _ => {},
            }
        }
    }

    proof fn lemma_straight_grows(self, alt_m: Scalar, k: int, n: int)
        requires
            0 <= k <= n,
        ensures
            self.straight(alt_m, k).is_prefix_of(self.straight(alt_m, n)),
        decreases n,
    {
        if k < n {
            self.lemma_straight_grows(alt_m, k, n - 1);
            let (a, b) = (self.straight(alt_m, k), self.straight(alt_m, n - 1));
            let c = self.straight(alt_m, n);
            assert(b =~= c.subrange(0, b.len() as int));
            assert(a =~= c.subrange(0, a.len() as int)) by {
                assert(a =~= b.subrange(0, a.len() as int));
            }
        } else {
            let a = self.straight(alt_m, k);
            assert(a =~= a.subrange(0, a.len() as int));
        }
    }

    /// The straight route passes every place of the flight, but for rounding.
    pub proof fn law_straight_route_visits_places(self, alt_m: Scalar, i: int)
        requires
            0 <= i < self.ends().len(),
        ensures
            ({
                let g = self.ends()[i];
                let p = PathPoint { lon: g.lon, lat: g.lat, alt_m, heading_deg: None };
                exists|k: int|
                    0 <= k < self.straight_route(alt_m).len() && (
                    #[trigger] self.straight_route(alt_m)[k] == p || same_place(
                        self.straight_route(alt_m)[k],
                        p,
                    ))
            }),
    {
        let n = self.ends().len() as int;
        let g = self.ends()[i];
        let p = PathPoint { lon: g.lon, lat: g.lat, alt_m, heading_deg: None };
        let so_far = self.straight(alt_m, i + 1);
        self.lemma_straight_grows(alt_m, i + 1, n);
        let k = so_far.len() - 1;
        assert(so_far[k] == p || same_place(so_far[k], p));
        assert(self.straight_route(alt_m)[k] == so_far[k]);
    }

    proof fn lemma_step_alike<F: Fn(Search) -> Option<Cells>>(
        self,
        search: F,
        f: Flight,
        one: Seq<Warning>,
        other: Seq<Warning>,
    )
        ensures
            alike(self.step(search, f, one), self.step(search, f, other)),
    {
        reveal(Task::step);
    }

    proof fn lemma_flown_alike<F: Fn(Search) -> Option<Cells>>(
        self,
        search: F,
        f: Flight,
        one: Seq<Warning>,
        other: Seq<Warning>,
        left: nat,
    )
        ensures
            alike(self.flown(search, f, one, left), self.flown(search, f, other, left)),
        decreases left,
    {
        if left > 0 {
            self.lemma_step_alike(search, f, one, other);
            if let Step::Again(next) = self.step(search, f, one) {
                self.lemma_flown_alike(search, next, one, other, (left - 1) as nat);
            }
        }
    }

    /// What a vehicle is given does not depend on the vehicles planned before it: the
    /// degradations that stand already change nothing about its plan.
    pub proof fn law_plan_stands_alone<F: Fn(Search) -> Option<Cells>>(
        self,
        search: F,
        p: VehiclePlan,
        before_p: Seq<Warning>,
        after_p: Seq<Warning>,
        q: VehiclePlan,
        before_q: Seq<Warning>,
        after_q: Seq<Warning>,
    )
        requires
            self.is_plan(search, p, before_p, after_p),
            self.is_plan(search, q, before_q, after_q),
        ensures
            p.planned == q.planned,
            p.path@ == q.path@,
            p.distance_m == q.distance_m,
            p.warnings@ == q.warnings@,
    {
        self.lemma_flown_alike(search, self.before_flight(), before_p, before_q, 6);
        if !p.planned {
            assert(p.path@ =~= q.path@);
        }
    }
}

} // verus!
