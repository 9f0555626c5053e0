//! A way round one convex obstacle: the shortest way over the places from which
//! each other can be seen.

use crate::config::{Zone, ZoneShape};
use crate::convex::{
    can_widen, convex_hull, copy_vertices, enters_convex, hull_of, in_convex, in_order,
    inflate_convex, moved_corner, point_in_convex, same_points, seg_intersects_convex,
};
use crate::detour::{degrees_of, lemma_degrees_of};
use crate::geometry::Vertex;
use crate::numeric::{frac, number, ratio, whole};
use crate::oracle::{is_function, Calc};
use crate::passage::infinity;
use crate::path::{haversine_m, sphere_distance_m};
use crate::scalar::{Scalar, INFINITY_BITS};
use crate::text::{characters, same_text};
use vstd::prelude::*;

verus! {

/// The most places that a search looks at.
pub const MAX_VIS_VERTICES: usize = 64;

/// Slack of geometric decisions, in degrees.
pub open spec fn geom_eps() -> Scalar {
    frac(1, 1_000_000_000)
}

fn make_geom_eps() -> (r: Scalar)
    ensures
        r == geom_eps(),
{
    ratio(1, 1_000_000_000)
}

/// Radius within which failures are taken to be one: 30 kilometres, in degrees.
pub fn patch_radius_deg() -> (r: Scalar)
    ensures
        r == whole(30) / frac(11132, 100),
{
    number(30) / ratio(11132, 100)
}

/// Whether patches are switched on, by the value of the switch.
pub fn patch_enabled(switch: Option<&str>) -> (r: bool)
    ensures
        r == (switch is Some && switch->0@ == "1"@),
{
    match switch {
        Some(v) => same_text(v, "1"),
        None => false,
    }
}

/// Whether a patch may be tried: there is no terrain, no place to pass on the way,
/// and every zone is a wall with corners.
pub fn patch_applicable(zones: &Vec<Zone>, has_terrain: bool, has_mid_waypoints: bool) -> (r: bool)
    ensures
        r == (!has_terrain && !has_mid_waypoints && forall|k: int|
            0 <= k < zones@.len() ==> (#[trigger] zones@[k]).wall() && zones@[k].shape is Polygon),
{
    if has_terrain || has_mid_waypoints {
        return false;
    }
    let mut k: usize = 0;
    while k < zones.len()
        invariant
            k <= zones@.len(),
            forall|j: int|
                0 <= j < k ==> (#[trigger] zones@[j]).wall() && zones@[j].shape is Polygon,
        decreases zones.len() - k,
    {
        let cornered: bool = match &zones[k].shape {
            ZoneShape::Polygon { .. } => true,
            ZoneShape::Circle { .. } => false,
        };
        if !zones[k].is_wall() || !cornered {
            assert(!(zones@[k as int].wall() && zones@[k as int].shape is Polygon));
            return false;
        }
        k = k + 1;
    }
    true
}

/// Why a patched route fails verification.
#[derive(Clone, Copy, Debug, PartialEq, Eq, Structural)]
pub enum PatchFailureClass {
    /// The route itself is at fault: there is no way.
    GeometricImpossible,
    /// The route fails close to one of its corners: there is no room to turn.
    FittingDefect,
}

/// The result of planning round an obstacle.
#[derive(Debug)]
pub enum PatchOutcome {
    /// A way, and its length in kilometres.
    Path(Vec<Vertex>, Scalar),
    /// The search would look at too many places.
    SearchTruncated,
    /// There is no way.
    GeometricImpossible,
}

/// The places of a search: start, target, then the corners of the obstacle.
pub struct Sights {
    pub nodes: Vec<Vertex>,
    pub obstacle: Vec<Vertex>,
}

/// Whether place `j` can be seen from place `i`, and at what distance in
/// kilometres. Asked from the place with the smaller number.
pub open spec fn seen_at<C: Fn(Calc) -> Scalar>(calc: C, g: Sights, i: int, j: int) -> Option<Scalar> {
    let (a, b) = if i < j {
        (g.nodes@[i], g.nodes@[j])
    } else {
        (g.nodes@[j], g.nodes@[i])
    };
    if i == j || enters_convex(a, b, g.obstacle@, geom_eps()) {
        None
    } else {
        Some(sphere_distance_m(calc, a[0], a[1], b[0], b[1]) / whole(1000))
    }
}

fn look<C: Fn(Calc) -> Scalar>(g: &Sights, i: usize, j: usize, calc: &C) -> (r: Option<Scalar>)
    requires
        is_function(*calc),
        i < g.nodes@.len(),
        j < g.nodes@.len(),
    ensures
        r == seen_at(*calc, *g, i as int, j as int),
{
    if i == j {
        return None;
    }
    let (a, b): (Vertex, Vertex) = if i < j {
        (g.nodes[i], g.nodes[j])
    } else {
        (g.nodes[j], g.nodes[i])
    };
    if seg_intersects_convex(&a, &b, &g.obstacle, make_geom_eps()) {
        None
    } else {
        Some(haversine_m(a[0], a[1], b[0], b[1], calc) / number(1000))
    }
}

/// How a search stands.
pub ghost struct Frontier {
    /// The shortest distance found so far to each place.
    pub dist: Seq<Scalar>,
    /// The place before each place on the way to it.
    pub prev: Seq<Option<int>>,
    /// Whether a place was reached and not gone on from.
    pub open: Seq<bool>,
    /// The places gone on from, in order.
    pub done: Seq<int>,
}

impl Frontier {
    /// How a search among `n` places begins: at place zero.
    pub open spec fn begin(n: nat) -> Frontier {
        Frontier {
            dist: Seq::new(
                n,
                |i: int|
                    if i == 0 {
                        whole(0)
                    } else {
                        infinity()
                    },
            ),
            prev: Seq::new(n, |i: int| None),
            open: Seq::new(n, |i: int| i == 0),
            done: Seq::empty(),
        }
    }

    /// The open place among the first `k` that is closest; of several the first.
    pub open spec fn closest(self, k: int) -> Option<int>
        decreases k,
    {
        if k <= 0 {
            None
        } else {
            let before = self.closest(k - 1);
            if self.open[k - 1] && (before is None || self.dist[k - 1].rank()
                < self.dist[before->0].rank()) {
                Some(k - 1)
            } else {
                before
            }
        }
    }

    /// The search after looking from place `id` at the first `k` places.
    pub open spec fn looked<C: Fn(Calc) -> Scalar>(self, calc: C, g: Sights, id: int, k: int) -> Frontier
        decreases k,
    {
        if k <= 0 {
            self
        } else {
            let before = self.looked(calc, g, id, k - 1);
            let w = seen_at(calc, g, id, k - 1);
            if w is Some && self.dist[id] + w->0 < before.dist[k - 1] {
                Frontier {
                    dist: before.dist.update(k - 1, self.dist[id] + w->0),
                    prev: before.prev.update(k - 1, Some(id)),
                    open: before.open.update(k - 1, true),
                    ..before
                }
            } else {
                before
            }
        }
    }

    /// The search after a place is gone on from.
    pub open spec fn closing(self, id: int) -> Frontier {
        Frontier { open: self.open.update(id, false), done: self.done.push(id), ..self }
    }

    /// The search after at most `left` places are gone on from: it ends where no
    /// place is open, or the target, place one, is the closest.
    pub open spec fn finished<C: Fn(Calc) -> Scalar>(self, calc: C, g: Sights, left: nat) -> Frontier
        decreases left,
    {
        let n = self.dist.len() as int;
        let id = self.closest(n);
        if left == 0 || id is None {
            self
        } else if id->0 == 1 {
            self.closing(1)
        } else {
            self.closing(id->0).looked(calc, g, id->0, n).finished(calc, g, (left - 1) as nat)
        }
    }

    /// The places on the way to place `at`, back to place zero, at most `left`.
    pub open spec fn way_back(self, at: int, left: nat) -> Seq<int>
        decreases left,
    {
        if left == 0 || at == 0 || self.prev[at] is None {
            seq![at]
        } else {
            seq![at] + self.way_back(self.prev[at]->0, (left - 1) as nat)
        }
    }
}

/// How a search stands.
struct SearchState {
    dist: Vec<Scalar>,
    /// The place before each place; the number of places where there is none.
    prev: Vec<usize>,
    open: Vec<bool>,
}

impl SearchState {
    spec fn stands(self, f: Frontier) -> bool {
        let n = f.dist.len();
        &&& self.dist@ == f.dist
        &&& self.open@ == f.open
        &&& self.prev@.len() == n
        &&& f.prev.len() == n
        &&& f.open.len() == n
        &&& forall|i: int|
            0 <= i < n ==> (#[trigger] self.prev@[i] < n) == (f.prev[i] is Some) && (f.prev[i] is Some
                ==> f.prev[i]->0 == self.prev@[i])
    }

    fn begin(n: usize) -> (r: SearchState)
        requires
            n > 0,
        ensures
            r.stands(Frontier::begin(n as nat)),
    {
        let mut dist: Vec<Scalar> = Vec::new();
        let mut prev: Vec<usize> = Vec::new();
        let mut open: Vec<bool> = Vec::new();
        let mut i: usize = 0;
        while i < n
            invariant
                i <= n,
                dist@.len() == i,
                prev@.len() == i,
                open@.len() == i,
                forall|k: int|
                    0 <= k < i ==> #[trigger] dist@[k] == Frontier::begin(n as nat).dist[k],
                forall|k: int| 0 <= k < i ==> #[trigger] prev@[k] == n,
                forall|k: int| 0 <= k < i ==> #[trigger] open@[k] == (k == 0),
            decreases n - i,
        {
            dist.push(if i == 0 { number(0) } else { Scalar { bits: INFINITY_BITS } });
            prev.push(n);
            open.push(i == 0);
            i = i + 1;
        }
        assert(dist@ =~= Frontier::begin(n as nat).dist);
        assert(open@ =~= Frontier::begin(n as nat).open);
        SearchState { dist, prev, open }
    }

    fn find_closest(&self, Ghost(f): Ghost<Frontier>) -> (r: Option<usize>)
        requires
            self.stands(f),
        ensures
            f.closest(f.dist.len() as int) == (match r {
                None => None,
                Some(i) => Some(i as int),
            }),
            r is Some ==> r->0 < f.dist.len(),
    {
        let n: usize = self.dist.len();
        let mut best: Option<usize> = None;
        let mut k: usize = 0;
        while k < n
            invariant
                self.stands(f),
                n == f.dist.len(),
                k <= n,
                best is Some ==> best->0 < n,
                f.closest(k as int) == (match best {
                    None => None,
                    Some(i) => Some(i as int),
                }),
            decreases n - k,
        {
            if self.open[k] {
                let closer: bool = match best {
                    None => true,
                    Some(b) => self.dist[k].ranks_below(&self.dist[b]),
                };
                if closer {
                    best = Some(k);
                }
            }
            k = k + 1;
        }
        best
    }

    fn look_round<C: Fn(Calc) -> Scalar>(
        &mut self,
        g: &Sights,
        id: usize,
        calc: &C,
        Ghost(f): Ghost<Frontier>,
    )
        requires
            is_function(*calc),
            old(self).stands(f),
            f.dist.len() == g.nodes@.len(),
            id < f.dist.len(),
        ensures
            final(self).stands(f.looked(*calc, *g, id as int, f.dist.len() as int)),
    {
        let n: usize = self.dist.len();
        let from: Scalar = self.dist[id];
        let mut k: usize = 0;
        while k < n
            invariant
                is_function(*calc),
                n == f.dist.len(),
                n == g.nodes@.len(),
                id < n,
                k <= n,
                from == f.dist[id as int],
                f.looked(*calc, *g, id as int, k as int).dist.len() == n,
                self.stands(f.looked(*calc, *g, id as int, k as int)),
            decreases n - k,
        {
            if let Some(w) = look(g, id, k, calc) {
                let there: Scalar = from + w;
                if there.lt(&self.dist[k]) {
                    self.dist.set(k, there);
                    self.prev.set(k, id);
                    self.open.set(k, true);
                }
            }
            k = k + 1;
        }
    }
}

/// The way that a search finds to the target, and its length; none if it finds
/// none.
pub open spec fn found_way<C: Fn(Calc) -> Scalar>(calc: C, g: Sights) -> Option<(Seq<int>, Scalar)> {
    let n = g.nodes@.len();
    let f = Frontier::begin(n).finished(calc, g, n);
    if f.dist[1].finite() {
        Some((f.way_back(1, n).reverse(), f.dist[1]))
    } else {
        None
    }
}

fn search_way<C: Fn(Calc) -> Scalar>(g: &Sights, calc: &C) -> (r: Option<(Vec<Vertex>, Scalar)>)
    requires
        is_function(*calc),
        g.nodes@.len() >= 2,
    ensures
        ({
            let way = found_way(*calc, *g);
            &&& r is Some <==> way is Some
            &&& r is Some ==> (r->0).1 == (way->0).1 && (r->0).0@ == Seq::new(
                (way->0).0.len(),
                |k: int| g.nodes@[(way->0).0[k]],
            )
        }),
{
    let n: usize = g.nodes.len();
    let mut s: SearchState = SearchState::begin(n);
    let ghost mut f: Frontier = Frontier::begin(n as nat);
    let ghost end: Frontier = Frontier::begin(n as nat).finished(*calc, *g, n as nat);
    let mut left: usize = n;
    while left > 0
        invariant_except_break
            f.finished(*calc, *g, left as nat) == end,
        invariant
            is_function(*calc),
            n == g.nodes@.len(),
            n >= 2,
            f.dist.len() == n,
            left <= n,
            s.stands(f),
        ensures
            s.stands(end),
            end.dist.len() == n,
        decreases left,
    {
        match s.find_closest(Ghost(f)) {
            None => {
                break;
            },
            Some(id) => {
                let ghost before = f;
                s.open.set(id, false);
                proof {
                    f = f.closing(id as int);
                }
                assert(s.stands(f));
                if id == 1 {
                    break;
                }
                s.look_round(g, id, calc, Ghost(f));
                proof {
                    lemma_looked_size(*calc, *g, f, id as int, n as int);
                    f = f.looked(*calc, *g, id as int, n as int);
                }
            },
        }
        left = left - 1;
    }
    if !s.dist[1].is_finite() {
        return None;
    }
    let mut back: Vec<Vertex> = Vec::new();
    let ghost whole_way = end.way_back(1, n as nat);
    let mut at: usize = 1;
    let mut left: usize = n;
    back.push(g.nodes[1]);
    let ghost mut ids: Seq<int> = seq![1int];
    while left > 0 && at != 0 && s.prev[at] < n
        invariant
            n == g.nodes@.len(),
            n >= 2,
            s.stands(end),
            end.dist.len() == n,
            at < n,
            left <= n,
            ids.len() > 0,
            ids.last() == at,
            forall|k: int| 0 <= k < ids.len() ==> 0 <= #[trigger] ids[k] < n,
            whole_way == ids.drop_last() + end.way_back(at as int, left as nat),
            back@ == Seq::new(ids.len(), |k: int| g.nodes@[ids[k]]),
        decreases left,
    {
        let ghost had = ids;
        let u: usize = s.prev[at];
        back.push(g.nodes[u]);
        proof {
            assert(end.prev[at as int] == Some(u as int));
            ids = ids.push(u as int);
            assert(ids.drop_last() =~= had);
            assert(whole_way =~= ids.drop_last() + end.way_back(u as int, (left - 1) as nat));
            assert(back@ =~= Seq::new(ids.len(), |k: int| g.nodes@[ids[k]]));
        }
        at = u;
        left = left - 1;
    }
    assert(whole_way =~= ids);
    let path: Vec<Vertex> = reversed(&back);
    proof {
        assert(path@ =~= Seq::new(
            whole_way.reverse().len(),
            |k: int| g.nodes@[whole_way.reverse()[k]],
        ));
    }
    Some((path, s.dist[1]))
}

proof fn lemma_looked_size<C: Fn(Calc) -> Scalar>(calc: C, g: Sights, f: Frontier, id: int, k: int)
    requires
        k <= f.dist.len(),
        f.prev.len() == f.dist.len(),
        f.open.len() == f.dist.len(),
    ensures
        f.looked(calc, g, id, k).dist.len() == f.dist.len(),
        f.looked(calc, g, id, k).prev.len() == f.dist.len(),
        f.looked(calc, g, id, k).open.len() == f.dist.len(),
    decreases k,
{
    if k > 0 {
        lemma_looked_size(calc, g, f, id, k - 1);
    }
}

fn reversed(v: &Vec<Vertex>) -> (r: Vec<Vertex>)
    ensures
        r@ == v@.reverse(),
{
    let n: usize = v.len();
    let mut r: Vec<Vertex> = Vec::new();
    let mut k: usize = 0;
    while k < n
        invariant
            n == v@.len(),
            k <= n,
            r@.len() == k,
            forall|j: int| 0 <= j < k ==> #[trigger] r@[j] == v@[n - 1 - j],
        decreases n - k,
    {
        r.push(v[n - 1 - k]);
        k = k + 1;
    }
    assert(r@ =~= v@.reverse());
    r
}

/// Whether a polygon is the hull of some points.
pub open spec fn is_hull(points: Seq<Vertex>, hull: Seq<Vertex>) -> bool {
    if points.len() <= 2 {
        hull == points
    } else {
        exists|s: Seq<Vertex>| #[trigger]
            in_order(s) && same_points(s, points) && hull == hull_of(s)
    }
}

/// Whether a polygon is another one widened.
pub open spec fn is_widened(hull: Seq<Vertex>, dist: Scalar, wide: Seq<Vertex>) -> bool {
    wide.len() == hull.len() && forall|i: int|
        0 <= i < wide.len() ==> (#[trigger] wide[i][0], wide[i][1]) == moved_corner(hull, dist, i)
}

/// The straight way from start to target, and its length in kilometres.
pub open spec fn straight_km<C: Fn(Calc) -> Scalar>(calc: C, start: Vertex, target: Vertex) -> Scalar {
    sphere_distance_m(calc, start[0], start[1], target[0], target[1]) / whole(1000)
}

impl PatchOutcome {
    /// Whether this is what planning among the given places leads to: no way if
    /// start or target lies in the obstacle, else the way that the search finds.
    #[verifier::opaque]
    pub open spec fn goes<C: Fn(Calc) -> Scalar>(self, calc: C, g: Sights) -> bool {
        let swallowed = in_convex(g.nodes@[0], g.obstacle@, geom_eps()) || in_convex(
            g.nodes@[1],
            g.obstacle@,
            geom_eps(),
        );
        let way = found_way(calc, g);
        if swallowed || way is None {
            self is GeometricImpossible
        } else {
            &&& self is Path
            &&& self->Path_0@ == Seq::new((way->0).0.len(), |k: int| g.nodes@[(way->0).0[k]])
            &&& self->Path_1 == (way->0).1
        }
    }

    /// Whether this is what planning round the hull of an obstacle leads to: the
    /// straight way round nothing, no way if the hull cannot be widened, a search
    /// that is not made if it would look at too many places.
    pub open spec fn rounds<C: Fn(Calc) -> Scalar>(
        self,
        calc: C,
        start: Vertex,
        target: Vertex,
        hull: Seq<Vertex>,
        dist: Scalar,
    ) -> bool {
        if hull.len() < 3 {
            &&& self is Path
            &&& self->Path_0@ == seq![start, target]
            &&& self->Path_1 == straight_km(calc, start, target)
        } else if !can_widen(hull, dist) {
            self is GeometricImpossible
        } else if hull.len() + 2 > MAX_VIS_VERTICES {
            self is SearchTruncated
        } else {
            exists|g: Sights| #[trigger]
                self.goes(calc, g) && is_widened(hull, dist, g.obstacle@) && g.nodes@ == seq![
                    start,
                    target,
                ] + g.obstacle@
        }
    }
}

fn plan_among<C: Fn(Calc) -> Scalar>(g: &Sights, calc: &C) -> (r: PatchOutcome)
    requires
        is_function(*calc),
        g.nodes@.len() >= 2,
    ensures
        r.goes(*calc, *g),
{
    proof {
        reveal(PatchOutcome::goes);
    }
    let eps: Scalar = make_geom_eps();
    if point_in_convex(&g.nodes[0], &g.obstacle, eps) || point_in_convex(
        &g.nodes[1],
        &g.obstacle,
        eps,
    ) {
        return PatchOutcome::GeometricImpossible;
    }
    match search_way(g, calc) {
        None => PatchOutcome::GeometricImpossible,
        Some((way, km)) => PatchOutcome::Path(way, km),
    }
}

fn plan_straight<C: Fn(Calc) -> Scalar>(start: &Vertex, target: &Vertex, calc: &C) -> (r:
    PatchOutcome)
    requires
        is_function(*calc),
    ensures
        r is Path,
        r->Path_0@ == seq![*start, *target],
        r->Path_1 == straight_km(*calc, *start, *target),
{
    let mut way: Vec<Vertex> = Vec::new();
    way.push(*start);
    way.push(*target);
    assert(way@ =~= seq![*start, *target]);
    let km: Scalar = haversine_m(start[0], start[1], target[0], target[1], calc) / number(1000);
    PatchOutcome::Path(way, km)
}

fn set_out(start: &Vertex, target: &Vertex, obstacle: Vec<Vertex>) -> (g: Sights)
    ensures
        g.obstacle == obstacle,
        g.nodes@ == seq![*start, *target] + obstacle@,
{
    let mut nodes: Vec<Vertex> = Vec::new();
    nodes.push(*start);
    nodes.push(*target);
    let mut corners: Vec<Vertex> = copy_vertices(&obstacle);
    nodes.append(&mut corners);
    assert(nodes@ =~= seq![*start, *target] + obstacle@);
    Sights { nodes, obstacle }
}

fn plan_round<C: Fn(Calc) -> Scalar>(
    start: &Vertex,
    target: &Vertex,
    hull: &Vec<Vertex>,
    dist: Scalar,
    calc: &C,
) -> (r: PatchOutcome)
    requires
        is_function(*calc),
    ensures
        r.rounds(*calc, *start, *target, hull@, dist),
{
    if hull.len() < 3 {
        return plan_straight(start, target, calc);
    }
    let obstacle: Vec<Vertex> = inflate_convex(hull, dist);
    if obstacle.len() < 3 {
        return PatchOutcome::GeometricImpossible;
    }
    if obstacle.len() > MAX_VIS_VERTICES - 2 {
        return PatchOutcome::SearchTruncated;
    }
    let g: Sights = set_out(start, target, obstacle);
    let r: PatchOutcome = plan_among(&g, calc);
    assert(r.goes(*calc, g));
    assert(is_widened(hull@, dist, g.obstacle@));
    r
}

/// Plans the shortest way round one obstacle: round its hull, widened by the room
/// that a turn needs.
pub fn plan_patch<C: Fn(Calc) -> Scalar>(
    start: &Vertex,
    target: &Vertex,
    obstacle_poly: &Vec<Vertex>,
    inflation_m: Scalar,
    calc: &C,
) -> (r: PatchOutcome)
    requires
        is_function(*calc),
    ensures
        exists|hull: Seq<Vertex>| #[trigger]
            is_hull(obstacle_poly@, hull) && r.rounds(
                *calc,
                *start,
                *target,
                hull,
                inflation_m / whole(111_320),
            ),
        exists|hull: Seq<Vertex>, dist: Scalar| #[trigger]
            r.rounds(*calc, *start, *target, hull, dist) && is_hull(obstacle_poly@, hull)
                && degrees_of(dist, inflation_m),
{
    let hull: Vec<Vertex> = convex_hull(obstacle_poly);
    assert(is_hull(obstacle_poly@, hull@));
    proof {
        lemma_degrees_of(inflation_m);
    }
    plan_round(start, target, &hull, inflation_m / number(111_320), calc)
}

/// Whether a failure lies close enough to the first one, with a kilometre to
/// spare.
pub open spec fn near_first<C: Fn(Calc) -> Scalar>(
    calc: C,
    first: Vertex,
    p: Vertex,
    radius_deg: Scalar,
) -> bool {
    !(straight_km(calc, first, p) > radius_deg * frac(11132, 100) + whole(1))
}

/// The place of a single cluster of failures: that of the first one, if all others
/// lie within the radius.
pub fn locate_single_cluster<C: Fn(Calc) -> Scalar>(
    failures: &Vec<Vertex>,
    patch_r_deg: Scalar,
    calc: &C,
) -> (r: Option<Vertex>)
    requires
        is_function(*calc),
    ensures
        r is Some <==> failures@.len() > 0 && forall|k: int|
            0 < k < failures@.len() ==> near_first(
                *calc,
                failures@[0],
                #[trigger] failures@[k],
                patch_r_deg,
            ),
        r is Some ==> r->0 == failures@[0],
{
    if failures.len() == 0 {
        return None;
    }
    let first: Vertex = failures[0];
    let limit: Scalar = patch_r_deg * ratio(11132, 100) + number(1);
    let mut k: usize = 1;
    while k < failures.len()
        invariant
            is_function(*calc),
            1 <= k <= failures@.len(),
            first == failures@[0],
            limit == patch_r_deg * frac(11132, 100) + whole(1),
            forall|j: int|
                0 < j < k ==> near_first(*calc, first, #[trigger] failures@[j], patch_r_deg),
        decreases failures.len() - k,
    {
        let p: Vertex = failures[k];
        let km: Scalar = haversine_m(first[0], first[1], p[0], p[1], calc) / number(1000);
        if limit.lt(&km) {
            assert(!near_first(*calc, first, failures@[k as int], patch_r_deg));
            return None;
        }
        k = k + 1;
    }
    Some(first)
}

/// Distance of two points in degrees.
pub open spec fn apart_deg(a: Vertex, b: Vertex) -> Scalar {
    let (dx, dy) = (a[0] - b[0], a[1] - b[1]);
    (dx * dx + dy * dy).root()
}

/// Whether a failure lies close to a corner of a route.
pub open spec fn near_corner(path: Seq<Vertex>, failure: Vertex, defect_deg: Scalar) -> bool {
    exists|k: int| 0 <= k < path.len() && apart_deg(#[trigger] path[k], failure) < defect_deg
}

fn is_near_corner(path: &Vec<Vertex>, failure: &Vertex, defect_deg: Scalar) -> (r: bool)
    ensures
        r == near_corner(path@, *failure, defect_deg),
{
    let mut k: usize = 0;
    while k < path.len()
        invariant
            k <= path@.len(),
            forall|j: int|
                0 <= j < k ==> !(apart_deg(#[trigger] path@[j], *failure) < defect_deg),
        decreases path.len() - k,
    {
        let v: Vertex = path[k];
        let dx: Scalar = v[0] - failure[0];
        let dy: Scalar = v[1] - failure[1];
        if (dx * dx + dy * dy).sqrt().lt(&defect_deg) {
            assert(apart_deg(path@[k as int], *failure) < defect_deg);
            return true;
        }
        k = k + 1;
    }
    false
}

/// The class of the failures from number `k` on: the first one that lies close to
/// a corner of the route or in the obstacle decides.
pub open spec fn failure_class(
    path: Seq<Vertex>,
    failures: Seq<Vertex>,
    inflated: Seq<Vertex>,
    defect_deg: Scalar,
    k: int,
) -> PatchFailureClass
    decreases failures.len() - k,
{
    if k >= failures.len() {
        PatchFailureClass::GeometricImpossible
    } else if near_corner(path, failures[k], defect_deg) {
        PatchFailureClass::FittingDefect
    } else if in_convex(failures[k], inflated, geom_eps()) {
        PatchFailureClass::GeometricImpossible
    } else {
        failure_class(path, failures, inflated, defect_deg, k + 1)
    }
}

/// Tells whether a route fails for want of room to turn or for lack of a way.
pub fn classify_verify_failure(
    path: &Vec<Vertex>,
    failures: &Vec<Vertex>,
    inflated: &Vec<Vertex>,
    defect_deg: Scalar,
) -> (r: PatchFailureClass)
    ensures
        r == failure_class(path@, failures@, inflated@, defect_deg, 0),
{
    let mut k: usize = 0;
    while k < failures.len()
        invariant
            k <= failures@.len(),
            failure_class(path@, failures@, inflated@, defect_deg, 0) == failure_class(
                path@,
                failures@,
                inflated@,
                defect_deg,
                k as int,
            ),
        decreases failures.len() - k,
    {
        if is_near_corner(path, &failures[k], defect_deg) {
            return PatchFailureClass::FittingDefect;
        }
        if point_in_convex(&failures[k], inflated, make_geom_eps()) {
            return PatchFailureClass::GeometricImpossible;
        }
        k = k + 1;
    }
    PatchFailureClass::GeometricImpossible
}

/// Whether a text holds a key at a place.
pub open spec fn key_at(text: Seq<char>, key: Seq<char>, i: int) -> bool {
    i + key.len() <= text.len() && forall|k: int|
        0 <= k < key.len() ==> #[trigger] key[k] == text[i + k]
}

/// Whether a place is the first one at which a text holds a key.
pub open spec fn first_key(text: Seq<char>, key: Seq<char>, i: int) -> bool {
    &&& 0 <= i
    &&& key_at(text, key, i)
    &&& forall|j: int| 0 <= j < i ==> !#[trigger] key_at(text, key, j)
}

/// Whether a text holds a key.
pub open spec fn has_key(text: Seq<char>, key: Seq<char>) -> bool {
    exists|i: int| 0 <= i <= text.len() && #[trigger] key_at(text, key, i)
}

/// Whether a character may stand in a number.
pub open spec fn in_number(c: char) -> bool {
    ('0' <= c && c <= '9') || c == '.' || c == '-' || c == '+' || c == 'e' || c == 'E'
}

/// Whether a text is the longest run of characters of a number behind the first
/// place at which another text holds a key.
pub open spec fn number_behind(text: Seq<char>, key: Seq<char>, num: Seq<char>) -> bool {
    exists|i: int|
        {
            let at = i + key.len();
            &&& #[trigger] first_key(text, key, i)
            &&& at + num.len() <= text.len()
            &&& num == text.subrange(at, at + num.len())
            &&& forall|k: int| 0 <= k < num.len() ==> in_number(#[trigger] num[k])
            &&& at + num.len() < text.len() ==> !in_number(text[at + num.len()])
        }
}

fn holds_key(text: &Vec<char>, key: &str, i: usize) -> (r: bool)
    requires
        i <= text@.len(),
    ensures
        r == key_at(text@, key@, i as int),
{
    let n: usize = key.unicode_len();
    if n > text.len() - i {
        return false;
    }
    let mut k: usize = 0;
    while k < n
        invariant
            n == key@.len(),
            i + n <= text@.len(),
            k <= n,
            forall|j: int| 0 <= j < k ==> #[trigger] key@[j] == text@[i + j],
        decreases n - k,
    {
        assert(text.len() == text@.len());
        if key.get_char(k) != text[i + k] {
            assert(key@[k as int] != text@[i + k]);
            return false;
        }
        k = k + 1;
    }
    true
}

fn may_stand_in_number(c: char) -> (r: bool)
    ensures
        r == in_number(c),
{
    ('0' <= c && c <= '9') || c == '.' || c == '-' || c == '+' || c == 'e' || c == 'E'
}

fn find_number(text: &Vec<char>, key: &str) -> (r: Option<Vec<char>>)
    ensures
        r is Some <==> has_key(text@, key@),
        r is Some ==> number_behind(text@, key@, r->0@),
{
    let n: usize = text.len();
    let len: usize = key.unicode_len();
    let mut i: usize = 0;
    while i < n && !holds_key(text, key, i)
        invariant
            n == text@.len(),
            i <= n,
            forall|j: int| 0 <= j < i ==> !#[trigger] key_at(text@, key@, j),
        decreases n - i,
    {
        i = i + 1;
    }
    if !holds_key(text, key, i) {
        return None;
    }
    assert(first_key(text@, key@, i as int));
    let mut num: Vec<char> = Vec::new();
    let mut k: usize = i + len;
    while k < n && may_stand_in_number(text[k])
        invariant
            n == text@.len(),
            len == key@.len(),
            i + len <= k <= n,
            num@ == text@.subrange(i + len, k as int),
            forall|j: int| 0 <= j < num@.len() ==> in_number(#[trigger] num@[j]),
        decreases n - k,
    {
        num.push(text[k]);
        k = k + 1;
        assert(num@ =~= text@.subrange(i + len, k as int));
    }
    assert(num@ =~= text@.subrange(i + len, i + len + num@.len()));
    Some(num)
}

/// The texts of the longitude and the latitude that an issue tells, behind `lon=`
/// and `lat=`; none if one of them is missing.
pub fn extract_issue_coord(s: &str) -> (r: Option<(Vec<char>, Vec<char>)>)
    ensures
        r is Some <==> has_key(s@, "lon="@) && has_key(s@, "lat="@),
        r is Some ==> number_behind(s@, "lon="@, (r->0).0@) && number_behind(
            s@,
            "lat="@,
            (r->0).1@,
        ),
{
    let text: Vec<char> = characters(s);
    match (find_number(&text, "lon="), find_number(&text, "lat=")) {
        (Some(lon), Some(lat)) => Some((lon, lat)),
        _ => None,
    }
}

} // verus!
