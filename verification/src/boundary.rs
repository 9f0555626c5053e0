//! Rounding off the turns where the parts of a route meet.

use crate::arc::{arc_at, lay_arc, turn_at, ArcRule, LegCheck};
use crate::config::Zone;
use crate::geometry::{radians, to_radians};
use crate::numeric::{frac, number, ratio, whole};
use crate::options::SmoothOptions;
use crate::oracle::{ask, image, is_function, Calc};
use crate::passage::{clear_of_walls, leg_clear, seg_zone_clearance_ok_arc};
use crate::path::{
    angle_diff_deg, angle_gap, bearing, bearing_deg, haversine_m, sphere_distance_m, PathPoint,
};
use crate::scalar::Scalar;
use vstd::prelude::*;

verus! {

/// What is done where two parts of a route meet.
pub enum Joint {
    /// Nothing.
    Keep,
    /// Nothing, and the turn there is to be excused: an arc would come too close
    /// to a wall, and the turn is slight.
    Excuse,
    /// The last point of the first part is replaced by an arc.
    Arc(Seq<PathPoint>),
}

/// The arc where two parts meet: at the point itself where the point is one to be
/// passed.
pub open spec fn joint_rule(opts: SmoothOptions, hard: bool, min_steps: usize) -> ArcRule {
    ArcRule {
        max_turn_deg: opts.max_turn_deg,
        min_r_m: opts.turn_radius_m,
        keep_b: hard,
        min_steps,
    }
}

/// Whether an arc, and the way on from it, keep clear of walls.
pub open spec fn arc_clears<C: Fn(Calc) -> Scalar>(
    calc: C,
    arc: Seq<PathPoint>,
    c: PathPoint,
    zones: Seq<Zone>,
    inflation_m: Scalar,
) -> bool {
    &&& forall|k: int|
        0 <= k < arc.len() - 1 ==> #[trigger] leg_clear(calc, arc, k, zones, inflation_m)
    &&& clear_of_walls(
        calc,
        arc.last().lon,
        arc.last().lat,
        c.lon,
        c.lat,
        zones,
        inflation_m,
    )
}

/// How far an arc that comes too close to a wall is led on along the way from `b`
/// to `c`: four radii, at most three quarters of the way.
pub open spec fn lead_m<C: Fn(Calc) -> Scalar>(calc: C, b: PathPoint, c: PathPoint, opts: SmoothOptions) -> Scalar {
    (whole(4) * opts.turn_radius_m).smaller(
        sphere_distance_m(calc, b.lon, b.lat, c.lon, c.lat) * frac(75, 100),
    )
}

/// The end of an arc that is led on along the way from `b` to `c`.
pub open spec fn led_to<C: Fn(Calc) -> Scalar>(calc: C, b: PathPoint, c: PathPoint, lead: Scalar) -> PathPoint {
    let h = radians(bearing(calc, b.lon, b.lat, c.lon, c.lat));
    let kx = whole(111_320) * image(calc, Calc::Cos(radians(b.lat)));
    PathPoint {
        lon: b.lon + lead * image(calc, Calc::Sin(h)) / kx,
        lat: b.lat + lead * image(calc, Calc::Cos(h)) / whole(111_320),
        alt_m: b.alt_m,
        heading_deg: None,
    }
}

/// The heading on which point `k` of an arc is reached, coming from `a`.
pub open spec fn heading_before<C: Fn(Calc) -> Scalar>(
    calc: C,
    a: PathPoint,
    arc: Seq<PathPoint>,
    k: int,
) -> Scalar {
    let from = if k <= 0 {
        a
    } else {
        arc[k - 1]
    };
    let to = arc[if k <= 0 {
        0
    } else {
        k
    }];
    bearing(calc, from.lon, from.lat, to.lon, to.lat)
}

/// Whether the turn at point `k` of an arc is within the limit, but for rounding.
pub open spec fn turns_gently_at<C: Fn(Calc) -> Scalar>(
    calc: C,
    a: PathPoint,
    arc: Seq<PathPoint>,
    max_turn_deg: Scalar,
    k: int,
) -> bool {
    !(angle_gap(heading_before(calc, a, arc, k), heading_before(calc, a, arc, k + 1)).magnitude()
        > max_turn_deg + frac(1, 1_000_000))
}

/// An arc of at least the given number of legs that is led on along the way to
/// `c`, where it is allowed, keeps clear of walls and turns gently.
pub open spec fn led_arc<C: Fn(Calc) -> Scalar, K: LegCheck>(
    calc: C,
    check: K,
    a: PathPoint,
    b: PathPoint,
    c: PathPoint,
    opts: SmoothOptions,
    zones: Seq<Zone>,
    inflation_m: Scalar,
    hard: bool,
    min_steps: int,
) -> Option<Seq<PathPoint>> {
    match arc_at(calc, check, a, b, c, joint_rule(opts, hard, min_steps as usize)) {
        None => None,
        Some(pts) => {
            let arc = pts.update(
                pts.len() - 1,
                led_to(calc, b, c, lead_m(calc, b, c, opts)),
            );
            if arc_clears(calc, arc, c, zones, inflation_m) && forall|k: int|
                0 <= k < arc.len() - 1 ==> #[trigger] turns_gently_at(
                    calc,
                    a,
                    arc,
                    opts.max_turn_deg,
                    k,
                ) {
                Some(arc)
            } else {
                None
            }
        },
    }
}

/// The first of the arcs with more and more legs, up to eight, that works.
pub open spec fn first_led_arc<C: Fn(Calc) -> Scalar, K: LegCheck>(
    calc: C,
    check: K,
    a: PathPoint,
    b: PathPoint,
    c: PathPoint,
    opts: SmoothOptions,
    zones: Seq<Zone>,
    inflation_m: Scalar,
    hard: bool,
    min_steps: int,
) -> Option<Seq<PathPoint>>
    decreases 9 - min_steps,
{
    if min_steps > 8 {
        None
    } else {
        let arc = led_arc(calc, check, a, b, c, opts, zones, inflation_m, hard, min_steps);
        if arc is Some {
            arc
        } else {
            first_led_arc(
                calc,
                check,
                a,
                b,
                c,
                opts,
                zones,
                inflation_m,
                hard,
                min_steps + 1,
            )
        }
    }
}

/// What is done where two parts meet at `b`, on the way from `a` to `c`. A sharp
/// turn is rounded off with an arc. Where that comes too close to a wall, the
/// arc is led on along the way to `c`; where that fails too, a turn of up to 65
/// degrees is excused.
pub open spec fn joint_at<C: Fn(Calc) -> Scalar, K: LegCheck>(
    calc: C,
    check: K,
    a: PathPoint,
    b: PathPoint,
    c: PathPoint,
    opts: SmoothOptions,
    zones: Seq<Zone>,
    inflation_m: Scalar,
    hard: bool,
) -> Joint {
    let turn = turn_at(calc, a, b, c);
    let arc = arc_at(calc, check, a, b, c, joint_rule(opts, hard, 0));
    let led = if lead_m(calc, b, c, opts) > opts.turn_radius_m {
        first_led_arc(calc, check, a, b, c, opts, zones, inflation_m, hard, 4)
    } else {
        None
    };
    if !(turn > opts.max_turn_deg) || arc is None {
        Joint::Keep
    } else if arc_clears(calc, arc->0, c, zones, inflation_m) {
        Joint::Arc(arc->0)
    } else if led is Some {
        Joint::Arc(led->0)
    } else if turn <= whole(65) {
        Joint::Excuse
    } else {
        Joint::Keep
    }
}

/// What is to be done where two parts meet.
pub enum JointPlan {
    Keep,
    Excuse,
    Arc(Vec<PathPoint>),
}

impl JointPlan {
    pub open spec fn view(self) -> Joint {
        match self {
            JointPlan::Keep => Joint::Keep,
            JointPlan::Excuse => Joint::Excuse,
            JointPlan::Arc(v) => Joint::Arc(v@),
        }
    }
}

fn is_gentle<C: Fn(Calc) -> Scalar>(
    a: &PathPoint,
    arc: &Vec<PathPoint>,
    max_turn_deg: Scalar,
    calc: &C,
) -> (r: bool)
    requires
        is_function(*calc),
        arc@.len() > 0,
    ensures
        r == forall|k: int|
            0 <= k < arc@.len() - 1 ==> #[trigger] turns_gently_at(*calc, *a, arc@, max_turn_deg, k),
{
    let n: usize = arc.len();
    let limit: Scalar = max_turn_deg + ratio(1, 1_000_000);
    let mut before: Scalar = bearing_deg(a.lon, a.lat, arc[0].lon, arc[0].lat, calc);
    let mut k: usize = 0;
    while k < n - 1
        invariant
            is_function(*calc),
            n == arc@.len(),
            n > 0,
            k <= n - 1,
            limit == max_turn_deg + frac(1, 1_000_000),
            before == heading_before(*calc, *a, arc@, k as int),
            forall|j: int|
                0 <= j < k ==> #[trigger] turns_gently_at(*calc, *a, arc@, max_turn_deg, j),
        decreases n - k,
    {
        let u: PathPoint = arc[k];
        let w: PathPoint = arc[k + 1];
        let h: Scalar = bearing_deg(u.lon, u.lat, w.lon, w.lat, calc);
        assert(h == heading_before(*calc, *a, arc@, k + 1));
        if limit.lt(&angle_diff_deg(before, h).abs()) {
            assert(!turns_gently_at(*calc, *a, arc@, max_turn_deg, k as int));
            return false;
        }
        before = h;
        k = k + 1;
    }
    true
}

fn try_led_arc<C: Fn(Calc) -> Scalar, K: LegCheck>(
    a: &PathPoint,
    b: &PathPoint,
    c: &PathPoint,
    opts: &SmoothOptions,
    zones: &Vec<Zone>,
    inflation_m: Scalar,
    hard: bool,
    min_steps: usize,
    end: PathPoint,
    check: &K,
    calc: &C,
) -> (r: Option<Vec<PathPoint>>)
    requires
        is_function(*calc),
        check.settled(),
        end == led_to(*calc, *b, *c, lead_m(*calc, *b, *c, *opts)),
    ensures
        ({
            let want = led_arc(
                *calc,
                *check,
                *a,
                *b,
                *c,
                *opts,
                zones@,
                inflation_m,
                hard,
                min_steps as int,
            );
            &&& r is Some <==> want is Some
            &&& r is Some ==> r->0@ == want->0 && r->0@.len() > 0
        }),
{
    let rule: ArcRule = ArcRule {
        max_turn_deg: opts.max_turn_deg,
        min_r_m: opts.turn_radius_m,
        keep_b: hard,
        min_steps,
    };
    match lay_arc(a, b, c, &rule, check, calc) {
        None => None,
        Some(pts) => {
            let mut arc: Vec<PathPoint> = pts;
            let last: usize = arc.len() - 1;
            arc.set(last, end);
            if !seg_zone_clearance_ok_arc(&arc, &end, c, zones, inflation_m, calc) {
                return None;
            }
            if !is_gentle(a, &arc, opts.max_turn_deg, calc) {
                return None;
            }
            Some(arc)
        },
    }
}

fn find_led_arc<C: Fn(Calc) -> Scalar, K: LegCheck>(
    a: &PathPoint,
    b: &PathPoint,
    c: &PathPoint,
    opts: &SmoothOptions,
    zones: &Vec<Zone>,
    inflation_m: Scalar,
    hard: bool,
    lead: Scalar,
    check: &K,
    calc: &C,
) -> (r: Option<Vec<PathPoint>>)
    requires
        is_function(*calc),
        check.settled(),
        lead == lead_m(*calc, *b, *c, *opts),
    ensures
        ({
            let want = first_led_arc(
                *calc,
                *check,
                *a,
                *b,
                *c,
                *opts,
                zones@,
                inflation_m,
                hard,
                4,
            );
            &&& r is Some <==> want is Some
            &&& r is Some ==> r->0@ == want->0 && r->0@.len() > 0
        }),
{
    let h: Scalar = to_radians(bearing_deg(b.lon, b.lat, c.lon, c.lat, calc));
    let kx: Scalar = number(111_320) * ask(calc, Calc::Cos(to_radians(b.lat)));
    let end: PathPoint = PathPoint::new(
        b.lon + lead * ask(calc, Calc::Sin(h)) / kx,
        b.lat + lead * ask(calc, Calc::Cos(h)) / number(111_320),
        b.alt_m,
    );
    let mut steps: usize = 4;
    while steps <= 8
        invariant
            is_function(*calc),
            check.settled(),
            4 <= steps <= 9,
            end == led_to(*calc, *b, *c, lead_m(*calc, *b, *c, *opts)),
            first_led_arc(*calc, *check, *a, *b, *c, *opts, zones@, inflation_m, hard, 4)
                == first_led_arc(
                *calc,
                *check,
                *a,
                *b,
                *c,
                *opts,
                zones@,
                inflation_m,
                hard,
                steps as int,
            ),
        decreases 9 - steps,
    {
        let arc: Option<Vec<PathPoint>> = try_led_arc(
            a,
            b,
            c,
            opts,
            zones,
            inflation_m,
            hard,
            steps,
            end,
            check,
            calc,
        );
        if arc.is_some() {
            return arc;
        }
        steps = steps + 1;
    }
    None
}

/// Decides what is done where two parts of a route meet at `b`.
pub fn plan_joint<C: Fn(Calc) -> Scalar, K: LegCheck>(
    a: &PathPoint,
    b: &PathPoint,
    c: &PathPoint,
    opts: &SmoothOptions,
    zones: &Vec<Zone>,
    inflation_m: Scalar,
    hard: bool,
    check: &K,
    calc: &C,
) -> (r: JointPlan)
    requires
        is_function(*calc),
        check.settled(),
    ensures
        r.view() == joint_at(*calc, *check, *a, *b, *c, *opts, zones@, inflation_m, hard),
        r is Arc ==> r->Arc_0@.len() > 0,
{
    let h0: Scalar = bearing_deg(a.lon, a.lat, b.lon, b.lat, calc);
    let h1: Scalar = bearing_deg(b.lon, b.lat, c.lon, c.lat, calc);
    let turn: Scalar = angle_diff_deg(h0, h1).abs();
    if !opts.max_turn_deg.lt(&turn) {
        return JointPlan::Keep;
    }
    let rule: ArcRule = ArcRule {
        max_turn_deg: opts.max_turn_deg,
        min_r_m: opts.turn_radius_m,
        keep_b: hard,
        min_steps: 0,
    };
    let arc: Vec<PathPoint> = match lay_arc(a, b, c, &rule, check, calc) {
        None => {
            return JointPlan::Keep;
        },
        Some(arc) => arc,
    };
    let end: PathPoint = arc[arc.len() - 1];
    if seg_zone_clearance_ok_arc(&arc, &end, c, zones, inflation_m, calc) {
        return JointPlan::Arc(arc);
    }
    let way_m: Scalar = haversine_m(b.lon, b.lat, c.lon, c.lat, calc);
    let lead: Scalar = (number(4) * opts.turn_radius_m).min(&(way_m * ratio(75, 100)));
    if opts.turn_radius_m.lt(&lead) {
        if let Some(led) = find_led_arc(
            a,
            b,
            c,
            opts,
            zones,
            inflation_m,
            hard,
            lead,
            check,
            calc,
        ) {
            return JointPlan::Arc(led);
        }
    }
    if turn.le(&number(65)) {
        JointPlan::Excuse
    } else {
        JointPlan::Keep
    }
}

/// A route whose last point is replaced by an arc.
pub open spec fn ended_with(pts: Seq<PathPoint>, arc: Seq<PathPoint>) -> Seq<PathPoint> {
    pts.drop_last() + arc
}

/// A route that starts at the end of an arc, where it started at the point that
/// the arc replaced.
pub open spec fn started_after(pts: Seq<PathPoint>, b: PathPoint, arc: Seq<PathPoint>) -> Seq<PathPoint> {
    let tiny = frac(1, 1_000_000_000);
    if (pts[0].lon - b.lon).magnitude() < tiny && (pts[0].lat - b.lat).magnitude() < tiny {
        pts.update(0, arc.last())
    } else {
        pts
    }
}

/// Puts an arc between two parts of a route.
pub fn insert_arc(prev: &mut Vec<PathPoint>, next: &mut Vec<PathPoint>, arc: Vec<PathPoint>)
    requires
        old(prev)@.len() > 0,
        old(next)@.len() > 0,
        arc@.len() > 0,
    ensures
        final(prev)@ == ended_with(old(prev)@, arc@),
        final(next)@ == started_after(old(next)@, old(prev)@.last(), arc@),
{
    let n: usize = prev.len();
    let b: PathPoint = prev[n - 1];
    let end: PathPoint = arc[arc.len() - 1];
    let mut more: Vec<PathPoint> = arc;
    prev.truncate(n - 1);
    prev.append(&mut more);
    assert(prev@ =~= ended_with(old(prev)@, arc@));
    let tiny: Scalar = ratio(1, 1_000_000_000);
    let p0: PathPoint = next[0];
    if (p0.lon - b.lon).abs().lt(&tiny) && (p0.lat - b.lat).abs().lt(&tiny) {
        next.set(0, end);
    }
}

/// An arc between two parts of a route keeps clear of every wall, and so does the
/// way on from it.
pub proof fn law_joint_arc_keeps_clear<C: Fn(Calc) -> Scalar, K: LegCheck>(
    calc: C,
    check: K,
    a: PathPoint,
    b: PathPoint,
    c: PathPoint,
    opts: SmoothOptions,
    zones: Seq<Zone>,
    inflation_m: Scalar,
    hard: bool,
)
    requires
        joint_at(calc, check, a, b, c, opts, zones, inflation_m, hard) is Arc,
    ensures
        arc_clears(
            calc,
            joint_at(calc, check, a, b, c, opts, zones, inflation_m, hard)->Arc_0,
            c,
            zones,
            inflation_m,
        ),
{
    lemma_led_arc_clears(calc, check, a, b, c, opts, zones, inflation_m, hard, 4);
}

proof fn lemma_led_arc_clears<C: Fn(Calc) -> Scalar, K: LegCheck>(
    calc: C,
    check: K,
    a: PathPoint,
    b: PathPoint,
    c: PathPoint,
    opts: SmoothOptions,
    zones: Seq<Zone>,
    inflation_m: Scalar,
    hard: bool,
    min_steps: int,
)
    ensures
        ({
            let arc = first_led_arc(
                calc,
                check,
                a,
                b,
                c,
                opts,
                zones,
                inflation_m,
                hard,
                min_steps,
            );
            arc is Some ==> arc_clears(calc, arc->0, c, zones, inflation_m)
        }),
    decreases 9 - min_steps,
{
    if min_steps <= 8 {
        lemma_led_arc_clears(
            calc,
            check,
            a,
            b,
            c,
            opts,
            zones,
            inflation_m,
            hard,
            min_steps + 1,
        );
    }
}

} // verus!
