//! Two rules on straight legs that allow the same legs lead to the same routes.

use crate::airspace::{lemma_same_clear, lemma_same_leg_clear_of, same_airspace, same_zone};
use crate::arc::{
    arc_allowed, arc_at, arc_leg_ok, arc_points, arc_shape, fix, heading_of, leg_ok,
    rejoin, ArcRule, LegCheck,
};
use crate::boundary::{
    arc_clears, first_led_arc, joint_at, joint_rule, lead_m, led_arc, led_to,
};
use crate::chain::{stages, usual_chain, Smoother, Stage, ThetaStarSmoother};
use crate::config::Zone;
use crate::options::SmoothOptions;
use crate::oracle::Calc;
use crate::passage::leg_clear;
use crate::path::PathPoint;
use crate::scalar::Scalar;
use crate::segment::{as_point, leg_clear_of, SegmentCheck};
use crate::smooth::{
    best_jump, corner_rule, jump_arc, theta_from, theta_route, theta_step, Jump, TurnLimits,
};
use crate::terrain::Sample;
use vstd::prelude::*;

verus! {

/// Whether two rules allow the same legs.
pub open spec fn same_rule<K: LegCheck>(c: K, d: K) -> bool {
    forall|a: PathPoint, b: PathPoint| #[trigger] leg_ok(c, a, b) == leg_ok(d, a, b)
}

/// The rule on legs reads no more of the zones than what they forbid.
pub proof fn lemma_same_segments<
    'a,
    C: Fn(Calc) -> Scalar,
    T: Fn((Scalar, Scalar)) -> Sample,
    P: Fn((Scalar, Scalar, Scalar)) -> Scalar,
>(c: SegmentCheck<'a, C, T, P>, d: SegmentCheck<'a, C, T, P>)
    requires
        c == (SegmentCheck { zones: c.zones, ..d }),
        same_airspace(c.zones@, d.zones@),
    ensures
        same_rule(c, d),
{
    let (s, t) = (c.zones@, d.zones@);
    assert forall|a: PathPoint, b: PathPoint| #[trigger] leg_ok(c, a, b) == leg_ok(d, a, b) by {
        let (p, q) = (as_point(fix(a)), as_point(fix(b)));
        assert forall|k: int| 0 <= k < s.len() implies #[trigger] leg_clear_of(
            *c.calc,
            c.inflation_km,
            p,
            q,
            s[k],
        ) == leg_clear_of(*c.calc, c.inflation_km, p, q, t[k]) by {
            assert(same_zone(s[k], t[k]));
            lemma_same_leg_clear_of(*c.calc, c.inflation_km, p, q, s[k], t[k]);
        }
        let one = forall|k: int|
            0 <= k < s.len() ==> leg_clear_of(*c.calc, c.inflation_km, p, q, #[trigger] s[k]);
        let other = forall|k: int|
            0 <= k < t.len() ==> leg_clear_of(*c.calc, c.inflation_km, p, q, #[trigger] t[k]);
        if one {
            assert forall|k: int| 0 <= k < t.len() implies leg_clear_of(
                *c.calc,
                c.inflation_km,
                p,
                q,
                #[trigger] t[k],
            ) by {
                assert(leg_clear_of(*c.calc, c.inflation_km, p, q, s[k]));
            }
        }
        if other {
            assert forall|k: int| 0 <= k < s.len() implies leg_clear_of(
                *c.calc,
                c.inflation_km,
                p,
                q,
                #[trigger] s[k],
            ) by {
                assert(leg_clear_of(*c.calc, c.inflation_km, p, q, t[k]));
            }
        }
        assert(one == other);
    }
}

proof fn lemma_same_arc<C: Fn(Calc) -> Scalar, K: LegCheck>(
    calc: C,
    c: K,
    d: K,
    a: PathPoint,
    b: PathPoint,
    to: PathPoint,
    rule: ArcRule,
)
    requires
        same_rule(c, d),
    ensures
        arc_at(calc, c, a, b, to, rule) == arc_at(calc, d, a, b, to, rule),
{
    if let Some(s) = arc_shape(calc, a, b, to, rule) {
        let pts = arc_points(calc, s, b, rule);
        assert(leg_ok(c, a, pts[0]) == leg_ok(d, a, pts[0]));
        assert forall|k: int| #[trigger] arc_leg_ok(c, pts, k) == arc_leg_ok(d, pts, k) by {
            assert(leg_ok(c, pts[k], pts[k + 1]) == leg_ok(d, pts[k], pts[k + 1]));
        }
        assert forall|k: int| #[trigger] arc_leg_ok(d, pts, k) == arc_leg_ok(c, pts, k) by {
            assert(leg_ok(c, pts[k], pts[k + 1]) == leg_ok(d, pts[k], pts[k + 1]));
        }
        assert(arc_allowed(c, a, pts) == arc_allowed(d, a, pts));
    }
}

proof fn lemma_same_rejoin<C: Fn(Calc) -> Scalar, K: LegCheck>(
    calc: C,
    c: K,
    d: K,
    e: PathPoint,
    h_bc: Scalar,
    max_turn_deg: Scalar,
    path: Seq<PathPoint>,
    k: int,
)
    requires
        same_rule(c, d),
    ensures
        rejoin(calc, c, e, h_bc, max_turn_deg, path, k) == rejoin(
            calc,
            d,
            e,
            h_bc,
            max_turn_deg,
            path,
            k,
        ),
    decreases path.len() - k,
{
    if k < path.len() {
        assert(leg_ok(c, e, path[k]) == leg_ok(d, e, path[k]));
        lemma_same_rejoin(calc, c, d, e, h_bc, max_turn_deg, path, k + 1);
    }
}

proof fn lemma_same_jump_arc<C: Fn(Calc) -> Scalar, K: LegCheck>(
    calc: C,
    c: K,
    d: K,
    path: Seq<PathPoint>,
    limits: TurnLimits,
    out: Seq<PathPoint>,
    i: int,
    j: int,
)
    requires
        same_rule(c, d),
    ensures
        jump_arc(calc, c, path, limits, out, i, j) == jump_arc(calc, d, path, limits, out, i, j),
{
    if out.len() >= 2 {
        let (a, b) = (out[out.len() - 2], out.last());
        let rule = corner_rule(limits.max_turn_deg->0, limits.min_r_m);
        lemma_same_arc(calc, c, d, a, b, path[j], rule);
        if let Some(pts) = arc_at(calc, c, a, b, path[j], rule) {
            lemma_same_rejoin(
                calc,
                c,
                d,
                pts.last(),
                heading_of(calc, b, path[j]),
                rule.max_turn_deg,
                path,
                i + 1,
            );
        }
    }
}

proof fn lemma_same_best_jump<C: Fn(Calc) -> Scalar, K: LegCheck>(
    calc: C,
    c: K,
    d: K,
    path: Seq<PathPoint>,
    limits: TurnLimits,
    out: Seq<PathPoint>,
    i: int,
    j: int,
)
    requires
        same_rule(c, d),
    ensures
        best_jump(calc, c, path, limits, out, i, j) == best_jump(
            calc,
            d,
            path,
            limits,
            out,
            i,
            j,
        ),
    decreases j,
{
    if j > i + 1 && j > 0 {
        assert(leg_ok(c, out.last(), path[j]) == leg_ok(d, out.last(), path[j]));
        lemma_same_jump_arc(calc, c, d, path, limits, out, i, j);
        lemma_same_best_jump(calc, c, d, path, limits, out, i, j - 1);
    }
}

proof fn lemma_same_theta_from<C: Fn(Calc) -> Scalar, K: LegCheck>(
    calc: C,
    c: K,
    d: K,
    path: Seq<PathPoint>,
    limits: TurnLimits,
    out: Seq<PathPoint>,
    i: int,
)
    requires
        same_rule(c, d),
    ensures
        theta_from(calc, c, path, limits, out, i) == theta_from(calc, d, path, limits, out, i),
    decreases path.len() - i,
{
    if 0 <= i < path.len() - 1 {
        lemma_same_best_jump(calc, c, d, path, limits, out, i, path.len() - 1);
        lemma_same_jump_arc(calc, c, d, path, limits, out, i, i + 1);
        if let Jump::Arc(pts, j, k) = best_jump(calc, c, path, limits, out, i, path.len() - 1) {
            lemma_same_jump_arc(calc, c, d, path, limits, out.drop_last() + pts, k, k + 1);
        }
        assert(theta_step(calc, c, path, limits, out, i) == theta_step(
            calc,
            d,
            path,
            limits,
            out,
            i,
        ));
        let (longer, k) = theta_step(calc, c, path, limits, out, i);
        if i < k <= path.len() {
            lemma_same_theta_from(calc, c, d, path, limits, longer, k);
        }
    }
}

/// A stage of the usual chain makes the same of a route.
proof fn lemma_same_stage<'a, C: Fn(Calc) -> Scalar, K: LegCheck>(
    opts: SmoothOptions,
    c: &'a K,
    d: &'a K,
    entry_heading: Option<Scalar>,
    entry_max_deg: Scalar,
    calc: &'a C,
    limits: TurnLimits,
    pts: Seq<PathPoint>,
    i: int,
)
    requires
        limits == (TurnLimits {
            max_turn_deg: Some(opts.max_turn_deg),
            entry_heading,
            min_r_m: opts.turn_radius_m,
            entry_max_deg,
        }),
        theta_route(*calc, *c, pts, limits) == theta_route(*calc, *d, pts, limits),
        0 <= i < usual_chain(opts, c, entry_heading, entry_max_deg, calc).len(),
    ensures
        ({
            let one = usual_chain(opts, c, entry_heading, entry_max_deg, calc);
            let other = usual_chain(opts, d, entry_heading, entry_max_deg, calc);
            &&& one[i].smoothed(pts) == other[i].smoothed(pts)
            &&& one[i].label() == other[i].label()
        }),
{
    let one = usual_chain(opts, c, entry_heading, entry_max_deg, calc);
    let other = usual_chain(opts, d, entry_heading, entry_max_deg, calc);
    assert(one.len() == other.len());
    if i == 0 {
        let x = ThetaStarSmoother { check: c, limits, calc };
        let y = ThetaStarSmoother { check: d, limits, calc };
        assert(one[i] == Stage::Straighten(x));
        assert(other[i] == Stage::<C, K>::Straighten(y));
        assert(x.smoothed(pts) == y.smoothed(pts));
    } else {
        assert(one[i] is Curve || one[i] is Fit || one[i] is Thin);
        assert(one[i] is Curve ==> one[i]->Curve_0 == other[i]->Curve_0);
        assert(one[i] is Fit ==> one[i]->Fit_0 == other[i]->Fit_0);
        assert(one[i] is Thin ==> one[i]->Thin_0 == other[i]->Thin_0);
    }
}

/// The usual chain makes the same stages.
pub proof fn lemma_same_stages<'a, C: Fn(Calc) -> Scalar, K: LegCheck>(
    opts: SmoothOptions,
    c: &'a K,
    d: &'a K,
    entry_heading: Option<Scalar>,
    entry_max_deg: Scalar,
    calc: &'a C,
    input: Seq<PathPoint>,
    k: int,
)
    requires
        same_rule(*c, *d),
        k <= usual_chain(opts, c, entry_heading, entry_max_deg, calc).len(),
    ensures
        stages(input, usual_chain(opts, c, entry_heading, entry_max_deg, calc), k) == stages(
            input,
            usual_chain(opts, d, entry_heading, entry_max_deg, calc),
            k,
        ),
    decreases k,
{
    if k > 0 {
        lemma_same_stages(opts, c, d, entry_heading, entry_max_deg, calc, input, k - 1);
        let one = usual_chain(opts, c, entry_heading, entry_max_deg, calc);
        let other = usual_chain(opts, d, entry_heading, entry_max_deg, calc);
        let pts = stages(input, one, k - 1).last().1;
        let limits = TurnLimits {
            max_turn_deg: Some(opts.max_turn_deg),
            entry_heading,
            min_r_m: opts.turn_radius_m,
            entry_max_deg,
        };
        lemma_same_theta_from(*calc, *c, *d, pts, limits, seq![pts[0]], 0);
        assert(theta_route(*calc, *c, pts, limits) == theta_route(*calc, *d, pts, limits));
        lemma_same_stage(opts, c, d, entry_heading, entry_max_deg, calc, limits, pts, k - 1);
        assert(stages(input, one, k - 1) == stages(input, other, k - 1));
    }
}

proof fn lemma_same_arc_clears<C: Fn(Calc) -> Scalar>(
    calc: C,
    arc: Seq<PathPoint>,
    to: PathPoint,
    s: Seq<Zone>,
    t: Seq<Zone>,
    inflation_m: Scalar,
)
    requires
        same_airspace(s, t),
    ensures
        arc_clears(calc, arc, to, s, inflation_m) == arc_clears(calc, arc, to, t, inflation_m),
{
    assert forall|k: int| #[trigger]
        leg_clear(calc, arc, k, s, inflation_m) == leg_clear(calc, arc, k, t, inflation_m) by {
        lemma_same_clear(calc, arc[k], arc[k + 1], s, t, inflation_m);
    }
    assert forall|k: int| #[trigger]
        leg_clear(calc, arc, k, t, inflation_m) == leg_clear(calc, arc, k, s, inflation_m) by {
        lemma_same_clear(calc, arc[k], arc[k + 1], s, t, inflation_m);
    }
    lemma_same_clear(calc, arc.last(), to, s, t, inflation_m);
}

proof fn lemma_same_led_arc<C: Fn(Calc) -> Scalar, K: LegCheck>(
    calc: C,
    c: K,
    d: K,
    a: PathPoint,
    b: PathPoint,
    to: PathPoint,
    opts: SmoothOptions,
    s: Seq<Zone>,
    t: Seq<Zone>,
    inflation_m: Scalar,
    hard: bool,
    min_steps: int,
)
    requires
        same_rule(c, d),
        same_airspace(s, t),
    ensures
        first_led_arc(calc, c, a, b, to, opts, s, inflation_m, hard, min_steps) == first_led_arc(
            calc,
            d,
            a,
            b,
            to,
            opts,
            t,
            inflation_m,
            hard,
            min_steps,
        ),
    decreases 9 - min_steps,
{
    if min_steps <= 8 {
        let rule = joint_rule(opts, hard, min_steps as usize);
        lemma_same_arc(calc, c, d, a, b, to, rule);
        if let Some(pts) = arc_at(calc, c, a, b, to, rule) {
            let arc = pts.update(pts.len() - 1, led_to(calc, b, to, lead_m(calc, b, to, opts)));
            lemma_same_arc_clears(calc, arc, to, s, t, inflation_m);
        }
        assert(led_arc(calc, c, a, b, to, opts, s, inflation_m, hard, min_steps) == led_arc(
            calc,
            d,
            a,
            b,
            to,
            opts,
            t,
            inflation_m,
            hard,
            min_steps,
        ));
        lemma_same_led_arc(
            calc,
            c,
            d,
            a,
            b,
            to,
            opts,
            s,
            t,
            inflation_m,
            hard,
            min_steps + 1,
        );
    }
}

/// A joint of two parts is flown the same.
pub proof fn lemma_same_joint<C: Fn(Calc) -> Scalar, K: LegCheck>(
    calc: C,
    c: K,
    d: K,
    a: PathPoint,
    b: PathPoint,
    to: PathPoint,
    opts: SmoothOptions,
    s: Seq<Zone>,
    t: Seq<Zone>,
    inflation_m: Scalar,
    hard: bool,
)
    requires
        same_rule(c, d),
        same_airspace(s, t),
    ensures
        joint_at(calc, c, a, b, to, opts, s, inflation_m, hard) == joint_at(
            calc,
            d,
            a,
            b,
            to,
            opts,
            t,
            inflation_m,
            hard,
        ),
{
    let rule = joint_rule(opts, hard, 0);
    lemma_same_arc(calc, c, d, a, b, to, rule);
    lemma_same_led_arc(calc, c, d, a, b, to, opts, s, t, inflation_m, hard, 4);
    if let Some(pts) = arc_at(calc, c, a, b, to, rule) {
        lemma_same_arc_clears(calc, pts, to, s, t, inflation_m);
    }
}

} // verus!
