//! Straightening, thinning and rounding of raw routes.

use crate::arc::{
    arc_and_rejoin, arc_at, arc_leg_ok, arc_transition, heading_deg_pts, heading_of, is_leg_ok, leg_ok, rejoin,
    turn_at, ArcRule, LegCheck,
};
use crate::oracle::{is_function, Calc};
use crate::path::{angle_diff_deg, angle_gap, slice_points, Path, PathPoint};
use crate::scalar::Scalar;
use vstd::prelude::*;

verus! {

/// Limits on the turns that straightening may make.
#[derive(Clone, Copy)]
pub struct TurnLimits {
    /// Largest turn in degrees, if there is a limit.
    pub max_turn_deg: Option<Scalar>,
    /// Heading in degrees on which the route is entered, if it follows on another.
    pub entry_heading: Option<Scalar>,
    /// Smallest radius of an arc, in metres.
    pub min_r_m: Scalar,
    /// Largest turn in degrees at the start of a route that is entered on a heading.
    pub entry_max_deg: Scalar,
}

/// How a straightened route goes on.
pub enum Jump {
    /// To the next point of the raw route.
    Next,
    /// Straight to a later point.
    To(int),
    /// By an arc in place of the last point, laid towards a later point, to where the
    /// raw route is rejoined.
    Arc(Seq<PathPoint>, int, int),
}

/// The arcs that straightening lays: cutting the corner, in as few legs as may be.
pub open spec fn corner_rule(max_turn_deg: Scalar, min_r_m: Scalar) -> ArcRule {
    ArcRule { max_turn_deg, min_r_m, keep_b: false, min_steps: 0 }
}

/// The heading on which the straightened route arrives at its last point.
pub open spec fn arrival_heading<C: Fn(Calc) -> Scalar>(
    calc: C,
    out: Seq<PathPoint>,
    limits: TurnLimits,
) -> Option<Scalar> {
    if out.len() >= 2 {
        Some(heading_of(calc, out[out.len() - 2], out.last()))
    } else {
        limits.entry_heading
    }
}

/// The largest turn allowed at the last point of the straightened route.
pub open spec fn turn_limit(out: Seq<PathPoint>, limits: TurnLimits) -> Scalar {
    if out.len() == 1 && limits.entry_heading is Some {
        limits.entry_max_deg
    } else {
        limits.max_turn_deg->0
    }
}

/// Whether going from the last point of the straightened route straight to `b`
/// turns too sharply.
pub open spec fn turns_too_much<C: Fn(Calc) -> Scalar>(
    calc: C,
    out: Seq<PathPoint>,
    b: PathPoint,
    limits: TurnLimits,
) -> bool {
    limits.max_turn_deg is Some && arrival_heading(calc, out, limits) is Some && angle_gap(
        arrival_heading(calc, out, limits)->0,
        heading_of(calc, out.last(), b),
    ).magnitude() > turn_limit(out, limits)
}

/// The arc from the last leg of the straightened route towards point `j`.
pub open spec fn jump_arc<C: Fn(Calc) -> Scalar, K: LegCheck>(
    calc: C,
    check: K,
    path: Seq<PathPoint>,
    limits: TurnLimits,
    out: Seq<PathPoint>,
    i: int,
    j: int,
) -> Option<(Seq<PathPoint>, int)> {
    if out.len() >= 2 {
        arc_and_rejoin(
            calc,
            check,
            out[out.len() - 2],
            out.last(),
            path[j],
            corner_rule(limits.max_turn_deg->0, limits.min_r_m),
            path,
            i,
        )
    } else {
        None
    }
}

/// How the straightened route `out`, which has got to point `i` of the raw
/// route, goes on: the farthest point up to number `j` is tried first. A point
/// is passed over if the leg to it from the end of `out` is not allowed, or if
/// it turns too sharply and no arc can be laid towards it.
pub open spec fn best_jump<C: Fn(Calc) -> Scalar, K: LegCheck>(
    calc: C,
    check: K,
    path: Seq<PathPoint>,
    limits: TurnLimits,
    out: Seq<PathPoint>,
    i: int,
    j: int,
) -> Jump
    decreases j,
{
    if j <= i + 1 || j <= 0 {
        Jump::Next
    } else if !leg_ok(check, out.last(), path[j]) {
        best_jump(calc, check, path, limits, out, i, j - 1)
    } else if turns_too_much(calc, out, path[j], limits) {
        match jump_arc(calc, check, path, limits, out, i, j) {
            Some((pts, k)) => Jump::Arc(pts, j, k),
            None => best_jump(calc, check, path, limits, out, i, j - 1),
        }
    } else {
        Jump::To(j)
    }
}

/// The arc at the last point of the straightened route towards the next point of the
/// raw route, where the turn to it is too sharp.
pub open spec fn neighbour_arc<C: Fn(Calc) -> Scalar, K: LegCheck>(
    calc: C,
    check: K,
    path: Seq<PathPoint>,
    limits: TurnLimits,
    out: Seq<PathPoint>,
    i: int,
) -> Option<(Seq<PathPoint>, int)> {
    if limits.max_turn_deg is Some && out.len() >= 2 && turn_at(
        calc,
        out[out.len() - 2],
        out.last(),
        path[i + 1],
    ) > limits.max_turn_deg->0 {
        jump_arc(calc, check, path, limits, out, i, i + 1)
    } else {
        None
    }
}

/// A route whose last point gives way to an arc towards the next point, which leads
/// back to point `k` of the raw route. The route goes on from the end of the arc, as
/// if it stood at point `k`, which itself is left out; only the end of the raw route
/// is put behind an arc that leads back to it.
pub open spec fn rounded(
    path: Seq<PathPoint>,
    out: Seq<PathPoint>,
    pts: Seq<PathPoint>,
    k: int,
) -> Seq<PathPoint> {
    if k == path.len() - 1 {
        out.drop_last() + pts + seq![path.last()]
    } else {
        out.drop_last() + pts
    }
}

/// A route whose last point gives way to an arc towards a later point `j`, which leads
/// back to point `k` of the raw route, and the point that the route has then got to.
/// - Back at point `j` or behind it, point `k` is put behind the arc.
/// - Back before point `j`, the route goes on from the end of the arc, as if it stood
///   at point `k`. If `j` is the next point, and the turn towards it is still too
///   sharp, that corner is rounded off at once.
pub open spec fn after_jump_arc<C: Fn(Calc) -> Scalar, K: LegCheck>(
    calc: C,
    check: K,
    path: Seq<PathPoint>,
    limits: TurnLimits,
    out: Seq<PathPoint>,
    pts: Seq<PathPoint>,
    j: int,
    k: int,
) -> (Seq<PathPoint>, int) {
    let laid = out.drop_last() + pts;
    if k >= j {
        (laid.push(path[k]), k)
    } else if j == k + 1 {
        match neighbour_arc(calc, check, path, limits, laid, k) {
            Some((more, m)) => (rounded(path, laid, more, m), m),
            None => (laid, k),
        }
    } else {
        (laid, k)
    }
}

/// A route that has got to point `i` of the raw route goes on to the next point: straight,
/// if it stands at point `i` or the leg is allowed, else by way of point `i`.
pub open spec fn walked_on<K: LegCheck>(
    check: K,
    path: Seq<PathPoint>,
    out: Seq<PathPoint>,
    i: int,
) -> Seq<PathPoint> {
    if out.last() == path[i] || leg_ok(check, out.last(), path[i + 1]) {
        out.push(path[i + 1])
    } else {
        out.push(path[i]).push(path[i + 1])
    }
}

/// One step of straightening: the longer route and the point it has got to.
pub open spec fn theta_step<C: Fn(Calc) -> Scalar, K: LegCheck>(
    calc: C,
    check: K,
    path: Seq<PathPoint>,
    limits: TurnLimits,
    out: Seq<PathPoint>,
    i: int,
) -> (Seq<PathPoint>, int) {
    match best_jump(calc, check, path, limits, out, i, path.len() - 1) {
        Jump::To(j) => (out.push(path[j]), j),
        Jump::Arc(pts, j, k) => after_jump_arc(calc, check, path, limits, out, pts, j, k),
        Jump::Next => match neighbour_arc(calc, check, path, limits, out, i) {
            Some((pts, k)) => (rounded(path, out, pts, k), k),
            None => (walked_on(check, path, out, i), i + 1),
        },
    }
}

proof fn lemma_rejoin_ahead<C: Fn(Calc) -> Scalar, K: LegCheck>(
    calc: C,
    check: K,
    e: PathPoint,
    h: Scalar,
    max_turn_deg: Scalar,
    path: Seq<PathPoint>,
    k: int,
)
    ensures
        rejoin(calc, check, e, h, max_turn_deg, path, k) matches Some(m) ==> k <= m
            < path.len(),
    decreases path.len() - k,
{
    if k < path.len() {
        lemma_rejoin_ahead(calc, check, e, h, max_turn_deg, path, k + 1);
    }
}

proof fn lemma_jump_arc_ahead<C: Fn(Calc) -> Scalar, K: LegCheck>(
    calc: C,
    check: K,
    path: Seq<PathPoint>,
    limits: TurnLimits,
    out: Seq<PathPoint>,
    i: int,
    j: int,
)
    ensures
        jump_arc(calc, check, path, limits, out, i, j) matches Some((pts, k)) ==> i < k
            < path.len() && pts.len() > 0,
{
    if out.len() >= 2 {
        let rule = corner_rule(limits.max_turn_deg->0, limits.min_r_m);
        let (a, b) = (out[out.len() - 2], out.last());
        if arc_at(calc, check, a, b, path[j], rule) is Some {
            let pts = arc_at(calc, check, a, b, path[j], rule)->0;
            lemma_rejoin_ahead(
                calc,
                check,
                pts.last(),
                heading_of(calc, b, path[j]),
                rule.max_turn_deg,
                path,
                i + 1,
            );
        }
    }
}

proof fn lemma_best_jump_ahead<C: Fn(Calc) -> Scalar, K: LegCheck>(
    calc: C,
    check: K,
    path: Seq<PathPoint>,
    limits: TurnLimits,
    out: Seq<PathPoint>,
    i: int,
    j: int,
)
    requires
        0 <= i,
        j < path.len(),
    ensures
        match best_jump(calc, check, path, limits, out, i, j) {
            Jump::Next => true,
            Jump::To(k) => i + 1 < k < path.len(),
            Jump::Arc(pts, j, k) => i + 1 < j < path.len() && i < k < path.len() && jump_arc(
                calc,
                check,
                path,
                limits,
                out,
                i,
                j,
            ) == Some((pts, k)),
        },
    decreases j,
{
    if !(j <= i + 1 || j <= 0) {
        lemma_jump_arc_ahead(calc, check, path, limits, out, i, j);
        lemma_best_jump_ahead(calc, check, path, limits, out, i, j - 1);
    }
}

/// A step of straightening always moves ahead along the raw route.
pub proof fn law_theta_step_advances<C: Fn(Calc) -> Scalar, K: LegCheck>(
    calc: C,
    check: K,
    path: Seq<PathPoint>,
    limits: TurnLimits,
    out: Seq<PathPoint>,
    i: int,
)
    requires
        0 <= i < path.len() - 1,
    ensures
        i < theta_step(calc, check, path, limits, out, i).1 < path.len(),
{
    lemma_best_jump_ahead(calc, check, path, limits, out, i, path.len() - 1);
    lemma_jump_arc_ahead(calc, check, path, limits, out, i, i + 1);
    if let Jump::Arc(pts, j, k) = best_jump(calc, check, path, limits, out, i, path.len() - 1) {
        lemma_jump_arc_ahead(calc, check, path, limits, out.drop_last() + pts, k, k + 1);
    }
}

/// The straightened route, from `out` at point `i` of the raw route to its end.
pub open spec fn theta_from<C: Fn(Calc) -> Scalar, K: LegCheck>(
    calc: C,
    check: K,
    path: Seq<PathPoint>,
    limits: TurnLimits,
    out: Seq<PathPoint>,
    i: int,
) -> Seq<PathPoint>
    decreases path.len() - i,
{
    if !(0 <= i < path.len() - 1) {
        out
    } else {
        let (longer, k) = theta_step(calc, check, path, limits, out, i);
        if i < k <= path.len() {
            theta_from(calc, check, path, limits, longer, k)
        } else {
            longer
        }
    }
}

/// The straightened route. Fewer than three points stay as they are.
pub open spec fn theta_route<C: Fn(Calc) -> Scalar, K: LegCheck>(
    calc: C,
    check: K,
    path: Seq<PathPoint>,
    limits: TurnLimits,
) -> Seq<PathPoint> {
    if path.len() < 3 {
        path
    } else {
        theta_from(calc, check, path, limits, seq![path[0]], 0)
    }
}

/// A jump found in practice.
pub enum JumpPlan {
    Next,
    To(usize),
    Arc(Vec<PathPoint>, usize, usize),
}

impl View for JumpPlan {
    type V = Jump;

    open spec fn view(&self) -> Jump {
        match self {
            JumpPlan::Next => Jump::Next,
            JumpPlan::To(j) => Jump::To(*j as int),
            JumpPlan::Arc(pts, j, k) => Jump::Arc(pts@, *j as int, *k as int),
        }
    }
}

fn find_jump_arc<C: Fn(Calc) -> Scalar, K: LegCheck>(
    path: &Vec<PathPoint>,
    max_turn_deg: Scalar,
    limits: &TurnLimits,
    out: &Vec<PathPoint>,
    i: usize,
    j: usize,
    check: &K,
    calc: &C,
) -> (r: Option<(Vec<PathPoint>, usize)>)
    requires
        is_function(*calc),
        check.settled(),
        limits.max_turn_deg == Some(max_turn_deg),
        i < path@.len(),
        j < path@.len(),
    ensures
        ({
            let want = jump_arc(*calc, *check, path@, *limits, out@, i as int, j as int);
            &&& r is Some <==> want is Some
            &&& r matches Some((pts, k)) ==> pts@ == (want->0).0 && k == (want->0).1 && i < k
                < path@.len() && pts@.len() > 0
        }),
{
    let n: usize = out.len();
    if n < 2 {
        return None;
    }
    let rule: ArcRule = ArcRule {
        max_turn_deg,
        min_r_m: limits.min_r_m,
        keep_b: false,
        min_steps: 0,
    };
    arc_transition(&out[n - 2], &out[n - 1], &path[j], &rule, check, path, i, calc)
}

fn is_too_sharp<C: Fn(Calc) -> Scalar>(
    out: &Vec<PathPoint>,
    b: &PathPoint,
    limits: &TurnLimits,
    calc: &C,
) -> (r: bool)
    requires
        is_function(*calc),
        out@.len() > 0,
    ensures
        r == turns_too_much(*calc, out@, *b, *limits),
{
    let n: usize = out.len();
    match limits.max_turn_deg {
        None => false,
        Some(max_turn) => {
            let arrival: Option<Scalar> = if n >= 2 {
                Some(heading_deg_pts(&out[n - 2], &out[n - 1], calc))
            } else {
                limits.entry_heading
            };
            match arrival {
                None => false,
                Some(h0) => {
                    let h1: Scalar = heading_deg_pts(&out[n - 1], b, calc);
                    let entered: bool = match limits.entry_heading {
                        Some(_) => true,
                        None => false,
                    };
                    let limit: Scalar = if n == 1 && entered {
                        limits.entry_max_deg
                    } else {
                        max_turn
                    };
                    limit.lt(&angle_diff_deg(h0, h1).abs())
                },
            }
        },
    }
}

fn find_jump<C: Fn(Calc) -> Scalar, K: LegCheck>(
    path: &Vec<PathPoint>,
    limits: &TurnLimits,
    out: &Vec<PathPoint>,
    i: usize,
    check: &K,
    calc: &C,
) -> (r: JumpPlan)
    requires
        is_function(*calc),
        check.settled(),
        i < path@.len() - 1,
        out@.len() > 0,
    ensures
        r@ == best_jump(*calc, *check, path@, *limits, out@, i as int, path@.len() - 1),
        r matches JumpPlan::To(j) ==> i < j < path@.len(),
        r matches JumpPlan::Arc(pts, j, k) ==> i < j < path@.len() && i < k < path@.len() && pts@.len()
            > 0,
{
    let n: usize = path.len();
    let mut j: usize = n - 1;
    while j > i + 1
        invariant
            is_function(*calc),
            check.settled(),
            n == path@.len(),
            i < n - 1,
            j <= n - 1,
            out@.len() > 0,
            best_jump(*calc, *check, path@, *limits, out@, i as int, path@.len() - 1) == best_jump(
                *calc,
                *check,
                path@,
                *limits,
                out@,
                i as int,
                j as int,
            ),
        decreases j,
    {
        let last: PathPoint = out[out.len() - 1];
        if is_leg_ok(check, &last, &path[j]) {
            if is_too_sharp(out, &path[j], limits, calc) {
                if let Some(max_turn) = limits.max_turn_deg {
                    if let Some((pts, k)) = find_jump_arc(
                        path,
                        max_turn,
                        limits,
                        out,
                        i,
                        j,
                        check,
                        calc,
                    ) {
                        return JumpPlan::Arc(pts, j, k);
                    }
                }
            } else {
                return JumpPlan::To(j);
            }
        }
        j = j - 1;
    }
    JumpPlan::Next
}

/// Takes the last point off a route and puts an arc in its place; the end of the
/// raw route is put behind an arc that leads to it.
fn splice(path: &Vec<PathPoint>, out: &mut Vec<PathPoint>, pts: Vec<PathPoint>, k: usize)
    requires
        old(out)@.len() > 0,
        k < path@.len(),
    ensures
        final(out)@ == rounded(path@, old(out)@, pts@, k as int),
{
    let ghost spliced = out@.drop_last() + pts@;
    let n: usize = path.len();
    let mut more: Vec<PathPoint> = pts;
    out.pop();
    out.append(&mut more);
    if k == n - 1 {
        out.push(path[n - 1]);
        assert(out@ =~= spliced + seq![path@.last()]);
    }
}

fn next_arc<C: Fn(Calc) -> Scalar, K: LegCheck>(
    path: &Vec<PathPoint>,
    limits: &TurnLimits,
    out: &Vec<PathPoint>,
    i: usize,
    check: &K,
    calc: &C,
) -> (r: Option<(Vec<PathPoint>, usize)>)
    requires
        is_function(*calc),
        check.settled(),
        i < path@.len() - 1,
        out@.len() > 0,
    ensures
        ({
            let want = neighbour_arc(*calc, *check, path@, *limits, out@, i as int);
            &&& r is Some <==> want is Some
            &&& r matches Some((pts, k)) ==> pts@ == (want->0).0 && k == (want->0).1 && i < k
                < path@.len() && pts@.len() > 0
        }),
{
    let n: usize = out.len();
    assert(path.len() == path@.len());
    match limits.max_turn_deg {
        None => None,
        Some(max_turn) => {
            if n < 2 {
                return None;
            }
            let h0: Scalar = heading_deg_pts(&out[n - 2], &out[n - 1], calc);
            let h1: Scalar = heading_deg_pts(&out[n - 1], &path[i + 1], calc);
            if !max_turn.lt(&angle_diff_deg(h0, h1).abs()) {
                return None;
            }
            find_jump_arc(path, max_turn, limits, out, i, i + 1, check, calc)
        },
    }
}

/// Takes the last point off a route and puts an arc towards point `j` in its place,
/// and returns the point of the raw route that it has then got to.
fn splice_jump<C: Fn(Calc) -> Scalar, K: LegCheck>(
    path: &Vec<PathPoint>,
    limits: &TurnLimits,
    out: &mut Vec<PathPoint>,
    pts: Vec<PathPoint>,
    j: usize,
    k: usize,
    check: &K,
    calc: &C,
) -> (m: usize)
    requires
        is_function(*calc),
        check.settled(),
        j < path@.len(),
        k < path@.len(),
        old(out)@.len() > 0,
        pts@.len() > 0,
    ensures
        (final(out)@, m as int) == after_jump_arc(
            *calc,
            *check,
            path@,
            *limits,
            old(out)@,
            pts@,
            j as int,
            k as int,
        ),
        k <= m < path@.len(),
        final(out)@.len() > 0,
{
    let ghost laid = out@.drop_last() + pts@;
    let n: usize = path.len();
    let mut more: Vec<PathPoint> = pts;
    out.pop();
    out.append(&mut more);
    assert(out@ == laid);
    if k >= j {
        out.push(path[k]);
        k
    } else if j == k + 1 {
        match next_arc(path, limits, out, k, check, calc) {
            Some((arc, m)) => {
                splice(path, out, arc, m);
                m
            },
            None => k,
        }
    } else {
        k
    }
}

fn is_same_point(a: &PathPoint, b: &PathPoint) -> (r: bool)
    ensures
        r == (*a == *b),
{
    let same_heading: bool = match (a.heading_deg, b.heading_deg) {
        (None, None) => true,
        (Some(x), Some(y)) => x.bits == y.bits,
        _ => false,
    };
    a.lon.bits == b.lon.bits && a.lat.bits == b.lat.bits && a.alt_m.bits == b.alt_m.bits
        && same_heading
}

/// Puts the point after point `i` of the raw route on a route that has got to point `i`.
fn walk_on<K: LegCheck>(path: &Vec<PathPoint>, out: &mut Vec<PathPoint>, i: usize, check: &K)
    requires
        check.settled(),
        i < path@.len() - 1,
        old(out)@.len() > 0,
    ensures
        final(out)@ == walked_on(*check, path@, old(out)@, i as int),
        final(out)@.len() > 0,
{
    assert(path.len() == path@.len());
    let last: PathPoint = out[out.len() - 1];
    if !is_same_point(&last, &path[i]) && !is_leg_ok(check, &last, &path[i + 1]) {
        out.push(path[i]);
    }
    out.push(path[i + 1]);
}

/// Makes one step of straightening, and returns the point it has got to.
fn advance<C: Fn(Calc) -> Scalar, K: LegCheck>(
    path: &Vec<PathPoint>,
    limits: &TurnLimits,
    out: &mut Vec<PathPoint>,
    i: usize,
    check: &K,
    calc: &C,
) -> (k: usize)
    requires
        is_function(*calc),
        check.settled(),
        i < path@.len() - 1,
        old(out)@.len() > 0,
    ensures
        (final(out)@, k as int) == theta_step(
            *calc,
            *check,
            path@,
            *limits,
            old(out)@,
            i as int,
        ),
        i < k < path@.len(),
        final(out)@.len() > 0,
{
    assert(path.len() == path@.len());
    match find_jump(path, limits, out, i, check, calc) {
        JumpPlan::To(j) => {
            out.push(path[j]);
            j
        },
        JumpPlan::Arc(arc, j, k) => splice_jump(path, limits, out, arc, j, k, check, calc),
        JumpPlan::Next => match next_arc(path, limits, out, i, check, calc) {
            Some((arc, k)) => {
                splice(path, out, arc, k);
                k
            },
            None => {
                walk_on(path, out, i, check);
                i + 1
            },
        },
    }
}

/// Straightens a raw route: from each point it goes as far ahead as an allowed
/// leg without a sharp turn leads, and rounds off a sharp turn where it can.
pub fn theta_star_smooth<C: Fn(Calc) -> Scalar, K: LegCheck>(
    path: &Path,
    check: &K,
    limits: &TurnLimits,
    calc: &C,
) -> (r: Path)
    requires
        is_function(*calc),
        check.settled(),
    ensures
        r@ == theta_route(*calc, *check, path@, *limits),
{
    let pts: &Vec<PathPoint> = &path.points;
    let n: usize = pts.len();
    if n < 3 {
        let same: Vec<PathPoint> = slice_points(pts, 0, n);
        assert(same@ =~= path@);
        return Path::new(same);
    }
    let mut out: Vec<PathPoint> = Vec::new();
    out.push(pts[0]);
    assert(out@ =~= seq![path@[0]]);
    let mut i: usize = 0;
    while i < n - 1
        invariant
            is_function(*calc),
            check.settled(),
            pts@ == path@,
            n == path@.len(),
            n >= 3,
            i <= n - 1,
            out@.len() > 0,
            theta_route(*calc, *check, path@, *limits) == theta_from(
                *calc,
                *check,
                path@,
                *limits,
                out@,
                i as int,
            ),
        decreases n - 1 - i,
    {
        i = advance(pts, limits, &mut out, i, check, calc);
    }
    Path::new(out)
}

/// A leg that is allowed, or that the raw route has itself.
pub open spec fn sound_leg<K: LegCheck>(
    check: K,
    path: Seq<PathPoint>,
    a: PathPoint,
    b: PathPoint,
) -> bool {
    leg_ok(check, a, b) || exists|m: int|
        0 <= m < path.len() - 1 && a == #[trigger] path[m] && b == path[m + 1]
}

spec fn sound_legs<K: LegCheck>(
    check: K,
    path: Seq<PathPoint>,
    out: Seq<PathPoint>,
) -> bool {
    forall|k: int, j: int|
        0 <= k && j == k + 1 && j < out.len() ==> sound_leg(
            check,
            path,
            #[trigger] out[k],
            #[trigger] out[j],
        )
}

/// The route has got to point `i`: it ends there, or where an allowed leg leads there.
spec fn got_to<K: LegCheck>(check: K, path: Seq<PathPoint>, out: Seq<PathPoint>, i: int) -> bool {
    out.last() == path[i] || leg_ok(check, out.last(), path[i])
}

proof fn lemma_rejoin_allowed<C: Fn(Calc) -> Scalar, K: LegCheck>(
    calc: C,
    check: K,
    e: PathPoint,
    h: Scalar,
    max_turn_deg: Scalar,
    path: Seq<PathPoint>,
    k: int,
)
    ensures
        rejoin(calc, check, e, h, max_turn_deg, path, k) matches Some(m) ==> leg_ok(
            check,
            e,
            path[m],
        ),
    decreases path.len() - k,
{
    if k < path.len() {
        lemma_rejoin_allowed(calc, check, e, h, max_turn_deg, path, k + 1);
    }
}

/// An arc in place of the last point: its legs are allowed, and it leads back.
proof fn lemma_arc_laid<C: Fn(Calc) -> Scalar, K: LegCheck>(
    calc: C,
    check: K,
    path: Seq<PathPoint>,
    limits: TurnLimits,
    out: Seq<PathPoint>,
    i: int,
    j: int,
)
    requires
        jump_arc(calc, check, path, limits, out, i, j) is Some,
        sound_legs(check, path, out),
    ensures
        ({
            let (pts, k) = jump_arc(calc, check, path, limits, out, i, j)->0;
            let laid = out.drop_last() + pts;
            &&& laid.len() >= 2
            &&& sound_legs(check, path, laid)
            &&& leg_ok(check, laid.last(), path[k])
            &&& i < k < path.len()
        }),
{
    lemma_jump_arc_ahead(calc, check, path, limits, out, i, j);
    let rule = corner_rule(limits.max_turn_deg->0, limits.min_r_m);
    let (a, b) = (out[out.len() - 2], out.last());
    let (pts, k) = jump_arc(calc, check, path, limits, out, i, j)->0;
    let laid = out.drop_last() + pts;
    assert(arc_at(calc, check, a, b, path[j], rule) == Some(pts));
    assert(laid.last() == pts.last());
    lemma_rejoin_allowed(
        calc,
        check,
        pts.last(),
        heading_of(calc, b, path[j]),
        rule.max_turn_deg,
        path,
        i + 1,
    );
    assert forall|x: int, y: int| 0 <= x && y == x + 1 && y < laid.len() implies sound_leg(
        check,
        path,
        #[trigger] laid[x],
        #[trigger] laid[y],
    ) by {
        let n = out.len() - 1;
        if y < n {
            assert(laid[x] == out[x] && laid[y] == out[y]);
        } else if y == n {
            assert(laid[x] == a && laid[y] == pts[0]);
        } else {
            assert(laid[x] == pts[x - n] && laid[y] == pts[x - n + 1]);
            assert(arc_leg_ok(check, pts, x - n));
        }
    }
}

/// One more point on a route.
proof fn lemma_one_more<K: LegCheck>(
    check: K,
    path: Seq<PathPoint>,
    out: Seq<PathPoint>,
    p: PathPoint,
)
    requires
        out.len() > 0,
        sound_legs(check, path, out),
        sound_leg(check, path, out.last(), p),
    ensures
        sound_legs(check, path, out.push(p)),
{
    let more = out.push(p);
    assert forall|x: int, y: int| 0 <= x && y == x + 1 && y < more.len() implies sound_leg(
        check,
        path,
        #[trigger] more[x],
        #[trigger] more[y],
    ) by {
        if y < out.len() {
            assert(more[x] == out[x] && more[y] == out[y]);
        }
    }
}

/// The point after the one that the route has got to.
proof fn lemma_walked_on<K: LegCheck>(
    check: K,
    path: Seq<PathPoint>,
    out: Seq<PathPoint>,
    i: int,
)
    requires
        0 <= i < path.len() - 1,
        out.len() > 0,
        sound_legs(check, path, out),
        got_to(check, path, out, i),
    ensures
        sound_legs(check, path, walked_on(check, path, out, i)),
        walked_on(check, path, out, i).last() == path[i + 1],
{
    assert(sound_leg(check, path, path[i], path[i + 1]));
    if out.last() == path[i] || leg_ok(check, out.last(), path[i + 1]) {
        lemma_one_more(check, path, out, path[i + 1]);
    } else {
        lemma_one_more(check, path, out, path[i]);
        lemma_one_more(check, path, out.push(path[i]), path[i + 1]);
    }
}

/// A corner rounded off towards the next point.
proof fn lemma_rounded_legs<C: Fn(Calc) -> Scalar, K: LegCheck>(
    calc: C,
    check: K,
    path: Seq<PathPoint>,
    limits: TurnLimits,
    out: Seq<PathPoint>,
    i: int,
)
    requires
        neighbour_arc(calc, check, path, limits, out, i) is Some,
        sound_legs(check, path, out),
    ensures
        ({
            let (pts, k) = neighbour_arc(calc, check, path, limits, out, i)->0;
            let more = rounded(path, out, pts, k);
            &&& i < k < path.len()
            &&& more.len() > 0
            &&& sound_legs(check, path, more)
            &&& got_to(check, path, more, k)
        }),
{
    lemma_arc_laid(calc, check, path, limits, out, i, i + 1);
    let (pts, k) = neighbour_arc(calc, check, path, limits, out, i)->0;
    let laid = out.drop_last() + pts;
    if k == path.len() - 1 {
        assert(sound_leg(check, path, laid.last(), path.last()));
        lemma_one_more(check, path, laid, path.last());
        assert(rounded(path, out, pts, k) =~= laid.push(path.last()));
    }
}

proof fn lemma_theta_legs<C: Fn(Calc) -> Scalar, K: LegCheck>(
    calc: C,
    check: K,
    path: Seq<PathPoint>,
    limits: TurnLimits,
    out: Seq<PathPoint>,
    i: int,
)
    requires
        0 <= i < path.len(),
        out.len() > 0,
        sound_legs(check, path, out),
        got_to(check, path, out, i),
    ensures
        sound_legs(check, path, theta_from(calc, check, path, limits, out, i)),
    decreases path.len() - i,
{
    if i < path.len() - 1 {
        let n = path.len();
        lemma_best_jump_ahead(calc, check, path, limits, out, i, n - 1);
        law_theta_step_advances(calc, check, path, limits, out, i);
        let (longer, m) = theta_step(calc, check, path, limits, out, i);
        match best_jump(calc, check, path, limits, out, i, n - 1) {
            Jump::To(j) => {
                lemma_jump_allowed(calc, check, path, limits, out, i, n - 1);
                assert(sound_leg(check, path, out.last(), path[j]));
                lemma_one_more(check, path, out, path[j]);
            },
            Jump::Next => {
                if neighbour_arc(calc, check, path, limits, out, i) is Some {
                    lemma_rounded_legs(calc, check, path, limits, out, i);
                } else {
                    lemma_walked_on(check, path, out, i);
                }
            },
            Jump::Arc(pts, j, k) => {
                let laid = out.drop_last() + pts;
                lemma_arc_laid(calc, check, path, limits, out, i, j);
                if k >= j {
                    assert(sound_leg(check, path, laid.last(), path[k]));
                    lemma_one_more(check, path, laid, path[k]);
                } else if j == k + 1 && neighbour_arc(
                    calc,
                    check,
                    path,
                    limits,
                    laid,
                    k,
                ) is Some {
                    lemma_rounded_legs(calc, check, path, limits, laid, k);
                }
            },
        }
        lemma_theta_legs(calc, check, path, limits, longer, m);
    }
}

proof fn lemma_jump_allowed<C: Fn(Calc) -> Scalar, K: LegCheck>(
    calc: C,
    check: K,
    path: Seq<PathPoint>,
    limits: TurnLimits,
    out: Seq<PathPoint>,
    i: int,
    j: int,
)
    ensures
        best_jump(calc, check, path, limits, out, i, j) matches Jump::To(k) ==> leg_ok(
            check,
            out.last(),
            path[k],
        ),
    decreases j,
{
    if !(j <= i + 1 || j <= 0) {
        lemma_jump_allowed(calc, check, path, limits, out, i, j - 1);
    }
}

/// Whatever the limits, every leg of the straightened route is allowed, or a leg of
/// the raw route.
pub proof fn law_theta_legs<C: Fn(Calc) -> Scalar, K: LegCheck>(
    calc: C,
    check: K,
    path: Seq<PathPoint>,
    limits: TurnLimits,
    k: int,
)
    ensures
        ({
            let r = theta_route(calc, check, path, limits);
            0 <= k < r.len() - 1 ==> sound_leg(check, path, r[k], r[k + 1])
        }),
{
    let r = theta_route(calc, check, path, limits);
    if path.len() >= 3 {
        let out = seq![path[0]];
        assert(out.last() == path[0]);
        lemma_theta_legs(calc, check, path, limits, out, 0);
        if 0 <= k < r.len() - 1 {
            assert(sound_leg(check, path, r[k], r[k + 1]));
        }
    } else if 0 <= k < path.len() - 1 {
        assert(sound_leg(check, path, path[k], path[k + 1]));
    }
}

proof fn lemma_arcs_not_empty<C: Fn(Calc) -> Scalar, K: LegCheck>(
    calc: C,
    check: K,
    path: Seq<PathPoint>,
    limits: TurnLimits,
    out: Seq<PathPoint>,
    i: int,
    j: int,
)
    ensures
        jump_arc(calc, check, path, limits, out, i, j) matches Some((pts, k)) ==> pts.len() > 0
            && out.len() >= 2,
{
}

proof fn lemma_best_jump_arc<C: Fn(Calc) -> Scalar, K: LegCheck>(
    calc: C,
    check: K,
    path: Seq<PathPoint>,
    limits: TurnLimits,
    out: Seq<PathPoint>,
    i: int,
    j: int,
)
    ensures
        best_jump(calc, check, path, limits, out, i, j) matches Jump::Arc(pts, m, k) ==> pts.len()
            > 0 && out.len() >= 2,
    decreases j,
{
    if !(j <= i + 1 || j <= 0) {
        lemma_arcs_not_empty(calc, check, path, limits, out, i, j);
        lemma_best_jump_arc(calc, check, path, limits, out, i, j - 1);
    }
}

proof fn lemma_theta_first<C: Fn(Calc) -> Scalar, K: LegCheck>(
    calc: C,
    check: K,
    path: Seq<PathPoint>,
    limits: TurnLimits,
    out: Seq<PathPoint>,
    i: int,
)
    requires
        out.len() > 0,
    ensures
        theta_from(calc, check, path, limits, out, i).len() > 0,
        theta_from(calc, check, path, limits, out, i)[0] == out[0],
    decreases path.len() - i,
{
    if 0 <= i < path.len() - 1 {
        lemma_best_jump_arc(calc, check, path, limits, out, i, path.len() - 1);
        lemma_arcs_not_empty(calc, check, path, limits, out, i, i + 1);
        if let Jump::Arc(pts, j, k) = best_jump(
            calc,
            check,
            path,
            limits,
            out,
            i,
            path.len() - 1,
        ) {
            lemma_arcs_not_empty(calc, check, path, limits, out.drop_last() + pts, k, k + 1);
        }
        let (longer, k) = theta_step(calc, check, path, limits, out, i);
        assert(longer.len() > 0 && longer[0] == out[0]);
        if i < k <= path.len() {
            lemma_theta_first(calc, check, path, limits, longer, k);
        }
    }
}

/// Straightening keeps the first point, whatever the limits.
pub proof fn law_theta_keeps_first<C: Fn(Calc) -> Scalar, K: LegCheck>(
    calc: C,
    check: K,
    path: Seq<PathPoint>,
    limits: TurnLimits,
)
    requires
        path.len() > 0,
    ensures
        theta_route(calc, check, path, limits).len() > 0,
        theta_route(calc, check, path, limits)[0] == path[0],
{
    if path.len() >= 3 {
        let out = seq![path[0]];
        assert(out[0] == path[0]);
        lemma_theta_first(calc, check, path, limits, out, 0);
    }
}

proof fn lemma_theta_reaches<C: Fn(Calc) -> Scalar, K: LegCheck>(
    calc: C,
    check: K,
    path: Seq<PathPoint>,
    limits: TurnLimits,
    out: Seq<PathPoint>,
    i: int,
)
    requires
        out.len() > 0,
        0 <= i < path.len(),
        i == path.len() - 1 ==> out.last() == path.last(),
    ensures
        ({
            let r = theta_from(calc, check, path, limits, out, i);
            r.len() > 0 && r.last() == path.last()
        }),
    decreases path.len() - i,
{
    if i < path.len() - 1 {
        law_theta_step_advances(calc, check, path, limits, out, i);
        lemma_best_jump_ahead(calc, check, path, limits, out, i, path.len() - 1);
        lemma_best_jump_arc(calc, check, path, limits, out, i, path.len() - 1);
        lemma_jump_arc_ahead(calc, check, path, limits, out, i, i + 1);
        let (longer, k) = theta_step(calc, check, path, limits, out, i);
        lemma_theta_reaches(calc, check, path, limits, longer, k);
    }
}

/// The straightened route ends where the raw route ends, whatever the limits.
pub proof fn law_theta_reaches_end<C: Fn(Calc) -> Scalar, K: LegCheck>(
    calc: C,
    check: K,
    path: Seq<PathPoint>,
    limits: TurnLimits,
)
    requires
        path.len() > 0,
    ensures
        ({
            let r = theta_route(calc, check, path, limits);
            r.len() > 0 && r.last() == path.last()
        }),
{
    if path.len() >= 3 {
        let out = seq![path[0]];
        assert(out.last() == path[0]);
        lemma_theta_reaches(calc, check, path, limits, out, 0);
    }
}

} // verus!
