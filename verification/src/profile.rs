//! Climb and descent profiles across round restricted zones.
//!
//! A raw route that crosses a round restricted zone at a forbidden height is
//! cut where it does: it keeps its height up to an anchor before the zone,
//! changes height on a straight line, crosses the zone level, and comes back
//! on another straight line.

use crate::config::{Zone, ZoneShape};
use crate::coord::{legal_coordinate, Geo};
use crate::geometry::{degrees, radians, to_degrees, to_radians};
use crate::numeric::{frac, number, ratio, whole};
use crate::oracle::{ask, image, is_function, Calc};
use crate::passage::{
    chord_frame, chord_quadratic, discriminant, dist_km, flat_km, infinity,
    line_hits_restricted_band_km, line_hits_wall_km, line_meets_band, line_meets_wall,
    make_chord_frame, make_discriminant, make_quadratic, make_roots, ordered, pass_height,
    push_out_of_walls, pushed_point, quadratic_roots, restricted_pass_alt, ChordFrame, Performance,
    Stretch,
};
use crate::path::{slice_points, Path, PathPoint};
use crate::scalar::{Scalar, INFINITY_BITS};
use crate::terrain::Sample;
use crate::zone::{
    blocks_height, clearance_km, holds, restricted_blocks_alt, zone_contains,
    zone_segment_clearance_km,
};
use vstd::prelude::*;

verus! {

/// Whether a point of a route lies within the outline of a zone.
pub open spec fn over_zone<C: Fn(Calc) -> Scalar>(calc: C, p: PathPoint, z: Zone) -> bool {
    legal_coordinate(p.lon, p.lat) && holds(calc, z, Geo { lon: p.lon, lat: p.lat })
}

fn is_over_zone<C: Fn(Calc) -> Scalar>(p: &PathPoint, z: &Zone, calc: &C) -> (r: bool)
    requires
        is_function(*calc),
    ensures
        r == over_zone(*calc, *p, *z),
{
    match Geo::new(p.lon, p.lat) {
        Ok(g) => zone_contains(z, &g, calc),
        Err(_) => false,
    }
}

/// Whether leg `i` of a route touches a zone.
pub open spec fn leg_touches<C: Fn(Calc) -> Scalar>(
    calc: C,
    points: Seq<PathPoint>,
    i: int,
    z: Zone,
) -> bool {
    let (a, b) = (points[i], points[i + 1]);
    ||| clearance_km(calc, a.lon, a.lat, b.lon, b.lat, z) <= frac(1, 1_000_000_000)
    ||| over_zone(calc, a, z)
    ||| over_zone(calc, b, z)
}

fn is_touching<C: Fn(Calc) -> Scalar>(points: &Vec<PathPoint>, i: usize, z: &Zone, calc: &C) -> (r:
    bool)
    requires
        is_function(*calc),
        i + 1 < points@.len(),
    ensures
        r == leg_touches(*calc, points@, i as int, *z),
{
    assert(points.len() == points@.len());
    let a: PathPoint = points[i];
    let b: PathPoint = points[i + 1];
    zone_segment_clearance_km(a.lon, a.lat, b.lon, b.lat, z, calc).le(&ratio(1, 1_000_000_000))
        || is_over_zone(&a, z, calc) || is_over_zone(&b, z, calc)
}

/// The first leg from number `i` on that touches a zone.
pub open spec fn first_touch<C: Fn(Calc) -> Scalar>(
    calc: C,
    points: Seq<PathPoint>,
    z: Zone,
    i: int,
) -> Option<int>
    decreases points.len() - i,
{
    if i + 1 >= points.len() {
        None
    } else if leg_touches(calc, points, i, z) {
        Some(i)
    } else {
        first_touch(calc, points, z, i + 1)
    }
}

/// The last of the first `k` legs that touches a zone.
pub open spec fn last_touch<C: Fn(Calc) -> Scalar>(
    calc: C,
    points: Seq<PathPoint>,
    z: Zone,
    k: int,
) -> Option<int>
    decreases k,
{
    if k <= 0 {
        None
    } else if leg_touches(calc, points, k - 1, z) {
        Some(k - 1)
    } else {
        last_touch(calc, points, z, k - 1)
    }
}

fn find_first_touch<C: Fn(Calc) -> Scalar>(points: &Vec<PathPoint>, z: &Zone, calc: &C) -> (r: Option<
    usize,
>)
    requires
        is_function(*calc),
    ensures
        r is Some <==> first_touch(*calc, points@, *z, 0) is Some,
        r is Some ==> first_touch(*calc, points@, *z, 0) == Some(r->0 as int) && r->0 + 1
            < points@.len(),
{
    let n: usize = points.len();
    let mut i: usize = 0;
    while n >= 1 && i < n - 1
        invariant
            is_function(*calc),
            n == points@.len(),
            i <= n,
            n >= 1 ==> i <= n - 1,
            first_touch(*calc, points@, *z, 0) == first_touch(*calc, points@, *z, i as int),
        decreases n - i,
    {
        if is_touching(points, i, z, calc) {
            return Some(i);
        }
        i = i + 1;
    }
    None
}

fn find_last_touch<C: Fn(Calc) -> Scalar>(points: &Vec<PathPoint>, z: &Zone, calc: &C) -> (r: Option<
    usize,
>)
    requires
        is_function(*calc),
        points@.len() >= 1,
    ensures
        r is Some <==> last_touch(*calc, points@, *z, points@.len() - 1) is Some,
        r is Some ==> last_touch(*calc, points@, *z, points@.len() - 1) == Some(r->0 as int) && r->0
            + 1 < points@.len(),
{
    let n: usize = points.len();
    let mut k: usize = n - 1;
    while k > 0
        invariant
            is_function(*calc),
            n == points@.len(),
            k <= n - 1,
            last_touch(*calc, points@, *z, points@.len() - 1) == last_touch(
                *calc,
                points@,
                *z,
                k as int,
            ),
        decreases k,
    {
        if is_touching(points, k - 1, z, calc) {
            return Some(k - 1);
        }
        k = k - 1;
    }
    None
}

pub proof fn lemma_touches_agree<C: Fn(Calc) -> Scalar>(calc: C, points: Seq<PathPoint>, z: Zone, i: int)
    requires
        0 <= i,
        first_touch(calc, points, z, i) is Some,
    ensures
        ({
            let f = first_touch(calc, points, z, i)->0;
            i <= f && f + 1 < points.len() && leg_touches(calc, points, f, z)
        }),
    decreases points.len() - i,
{
    if !leg_touches(calc, points, i, z) {
        lemma_touches_agree(calc, points, z, i + 1);
    }
}

pub proof fn lemma_last_touch_reaches<C: Fn(Calc) -> Scalar>(
    calc: C,
    points: Seq<PathPoint>,
    z: Zone,
    k: int,
    f: int,
)
    requires
        0 <= f < k,
        leg_touches(calc, points, f, z),
    ensures
        last_touch(calc, points, z, k) is Some,
        f <= last_touch(calc, points, z, k)->0 < k,
    decreases k,
{
    if !leg_touches(calc, points, k - 1, z) {
        lemma_last_touch_reaches(calc, points, z, k - 1, f);
    }
}

/// A round zone that forbids the height flown.
pub open spec fn is_hit(z: Zone, alt_m: Scalar) -> bool {
    z.shape is Circle && blocks_height(z, alt_m)
}

/// Where a zone comes along a route: its first touching leg, or past every leg.
pub open spec fn touch_rank<C: Fn(Calc) -> Scalar>(calc: C, points: Seq<PathPoint>, z: Zone) -> int {
    match first_touch(calc, points, z, 0) {
        Some(i) => i,
        None => usize::MAX as int,
    }
}

/// Puts zone `i` into an order by rank, behind those of the same rank.
pub open spec fn insert_by_rank<C: Fn(Calc) -> Scalar>(
    calc: C,
    points: Seq<PathPoint>,
    zones: Seq<Zone>,
    order: Seq<usize>,
    i: usize,
) -> Seq<usize>
    decreases order.len(),
{
    if order.len() == 0 {
        seq![i]
    } else if touch_rank(calc, points, zones[order.last() as int]) <= touch_rank(
        calc,
        points,
        zones[i as int],
    ) {
        order.push(i)
    } else {
        insert_by_rank(calc, points, zones, order.drop_last(), i).push(order.last())
    }
}

/// The round zones among the first `k` that forbid the height flown, in the
/// order in which the route meets them.
pub open spec fn hit_order<C: Fn(Calc) -> Scalar>(
    calc: C,
    points: Seq<PathPoint>,
    zones: Seq<Zone>,
    alt_m: Scalar,
    k: int,
) -> Seq<usize>
    decreases k,
{
    if k <= 0 {
        Seq::empty()
    } else if is_hit(zones[k - 1], alt_m) {
        insert_by_rank(
            calc,
            points,
            zones,
            hit_order(calc, points, zones, alt_m, k - 1),
            (k - 1) as usize,
        )
    } else {
        hit_order(calc, points, zones, alt_m, k - 1)
    }
}

fn rank_of<C: Fn(Calc) -> Scalar>(points: &Vec<PathPoint>, z: &Zone, calc: &C) -> (r: usize)
    requires
        is_function(*calc),
    ensures
        r == touch_rank(*calc, points@, *z),
{
    match find_first_touch(points, z, calc) {
        Some(i) => i,
        None => usize::MAX,
    }
}

fn insert_zone<C: Fn(Calc) -> Scalar>(
    points: &Vec<PathPoint>,
    zones: &Vec<Zone>,
    order: &mut Vec<usize>,
    i: usize,
    calc: &C,
)
    requires
        is_function(*calc),
        i < zones@.len(),
        forall|k: int| 0 <= k < old(order)@.len() ==> #[trigger] old(order)@[k] < zones@.len(),
    ensures
        final(order)@ == insert_by_rank(*calc, points@, zones@, old(order)@, i),
{
    let rank: usize = rank_of(points, &zones[i], calc);
    let ghost start = order@;
    let mut at: usize = order.len();
    let ghost mut rest: Seq<usize> = Seq::empty();
    proof {
        assert(start.subrange(0, start.len() as int) =~= start);
        assert(insert_by_rank(*calc, points@, zones@, start, i) + rest =~= insert_by_rank(
            *calc,
            points@,
            zones@,
            start,
            i,
        ));
    }
    while at > 0
        invariant_except_break
            is_function(*calc),
        invariant
            i < zones@.len(),
            rank == touch_rank(*calc, points@, zones@[i as int]),
            order@ == start,
            at <= start.len(),
            forall|k: int| 0 <= k < start.len() ==> #[trigger] start[k] < zones@.len(),
            rest == start.subrange(at as int, start.len() as int),
            insert_by_rank(*calc, points@, zones@, start, i) == insert_by_rank(
                *calc,
                points@,
                zones@,
                start.subrange(0, at as int),
                i,
            ) + rest,
        ensures
            at == 0 || touch_rank(*calc, points@, zones@[start[at - 1] as int]) <= rank,
        decreases at,
    {
        let before: usize = order[at - 1];
        let other: usize = rank_of(points, &zones[before], calc);
        if other <= rank {
            break;
        }
        proof {
            let head = start.subrange(0, at as int);
            assert(head.drop_last() =~= start.subrange(0, at - 1));
            assert(head.last() == before);
            let inner = insert_by_rank(*calc, points@, zones@, start.subrange(0, at - 1), i);
            assert(inner.push(before) + rest =~= inner + start.subrange(
                at - 1,
                start.len() as int,
            ));
            rest = start.subrange(at - 1, start.len() as int);
        }
        at = at - 1;
    }
    order.insert(at, i);
    proof {
        let head = start.subrange(0, at as int);
        if at == 0 {
            assert(head =~= Seq::<usize>::empty());
            assert(insert_by_rank(*calc, points@, zones@, head, i) == seq![i]);
        } else {
            assert(head.last() == start[at - 1]);
            assert(insert_by_rank(*calc, points@, zones@, head, i) == head.push(i));
        }
        assert(head.push(i) =~= if at == 0 {
            seq![i]
        } else {
            head.push(i)
        });
        assert(order@ =~= head.push(i) + rest);
    }
}

proof fn lemma_insert_keeps_below<C: Fn(Calc) -> Scalar>(
    calc: C,
    points: Seq<PathPoint>,
    zones: Seq<Zone>,
    order: Seq<usize>,
    i: usize,
    bound: int,
)
    requires
        i < bound,
        forall|k: int| 0 <= k < order.len() ==> #[trigger] order[k] < bound,
    ensures
        forall|k: int|
            0 <= k < insert_by_rank(calc, points, zones, order, i).len()
                ==> #[trigger] insert_by_rank(calc, points, zones, order, i)[k] < bound,
    decreases order.len(),
{
    let all = insert_by_rank(calc, points, zones, order, i);
    if order.len() == 0 {
        assert(all == seq![i]);
    } else if touch_rank(calc, points, zones[order.last() as int]) <= touch_rank(
        calc,
        points,
        zones[i as int],
    ) {
        assert(all == order.push(i));
    } else {
        lemma_insert_keeps_below(calc, points, zones, order.drop_last(), i, bound);
        let inner = insert_by_rank(calc, points, zones, order.drop_last(), i);
        assert(all == inner.push(order.last()));
        assert forall|k: int| 0 <= k < all.len() implies #[trigger] all[k] < bound by {
            if k < inner.len() {
                assert(inner[k] < bound);
            } else {
                assert(order[order.len() - 1] < bound);
            }
        }
    }
}

fn order_hits<C: Fn(Calc) -> Scalar>(
    points: &Vec<PathPoint>,
    zones: &Vec<Zone>,
    alt_m: Scalar,
    calc: &C,
) -> (order: Vec<usize>)
    requires
        is_function(*calc),
    ensures
        order@ == hit_order(*calc, points@, zones@, alt_m, zones@.len() as int),
        forall|k: int| 0 <= k < order@.len() ==> #[trigger] order@[k] < zones@.len(),
{
    let mut order: Vec<usize> = Vec::new();
    let mut i: usize = 0;
    while i < zones.len()
        invariant
            is_function(*calc),
            i <= zones@.len(),
            order@ == hit_order(*calc, points@, zones@, alt_m, i as int),
            forall|k: int| 0 <= k < order@.len() ==> #[trigger] order@[k] < i,
        decreases zones.len() - i,
    {
        let circle: bool = match &zones[i].shape {
            ZoneShape::Circle { .. } => true,
            ZoneShape::Polygon { .. } => false,
        };
        if circle && restricted_blocks_alt(&zones[i], alt_m) {
            proof {
                lemma_insert_keeps_below(*calc, points@, zones@, order@, i, i + 1);
            }
            insert_zone(points, zones, &mut order, i, calc);
        }
        i = i + 1;
    }
    order
}

/// Heading of the plane line between two places, in degrees from east, between
/// zero and a full turn.
pub open spec fn flat_heading<C: Fn(Calc) -> Scalar>(
    calc: C,
    lon1: Scalar,
    lat1: Scalar,
    lon2: Scalar,
    lat2: Scalar,
) -> Scalar {
    let kx = image(calc, Calc::Cos(radians((lat1 + lat2) / whole(2)))) * frac(11132, 100);
    let dx = (lon2 - lon1) * kx;
    let dy = (lat2 - lat1) * frac(11132, 100);
    let h = degrees(image(calc, Calc::Atan2(dy, dx))).remainder(whole(360));
    if h < whole(0) {
        h + whole(360)
    } else {
        h
    }
}

fn heading<C: Fn(Calc) -> Scalar>(
    lon1: Scalar,
    lat1: Scalar,
    lon2: Scalar,
    lat2: Scalar,
    calc: &C,
) -> (r: Scalar)
    requires
        is_function(*calc),
    ensures
        r == flat_heading(*calc, lon1, lat1, lon2, lat2),
{
    let kx: Scalar = ask(calc, Calc::Cos(to_radians((lat1 + lat2) / number(2)))) * ratio(11132, 100);
    let dx: Scalar = (lon2 - lon1) * kx;
    let dy: Scalar = (lat2 - lat1) * ratio(11132, 100);
    let h: Scalar = to_degrees(ask(calc, Calc::Atan2(dy, dx))).rem(&number(360));
    if h.lt(&number(0)) {
        h + number(360)
    } else {
        h
    }
}

/// The turn between two headings, at most half a turn.
pub open spec fn turn_between(h1: Scalar, h2: Scalar) -> Scalar {
    let d = (h1 - h2).magnitude().remainder(whole(360));
    if d > whole(180) {
        whole(360) - d
    } else {
        d
    }
}

fn angle_between(h1: Scalar, h2: Scalar) -> (r: Scalar)
    ensures
        r == turn_between(h1, h2),
{
    let d: Scalar = (h1 - h2).abs().rem(&number(360));
    if number(180).lt(&d) {
        number(360) - d
    } else {
        d
    }
}

/// Whether a point lies over another round zone that forbids the height flown.
pub open spec fn over_other_hit<C: Fn(Calc) -> Scalar>(
    calc: C,
    p: PathPoint,
    zones: Seq<Zone>,
    own: int,
    alt_m: Scalar,
) -> bool {
    exists|i: int|
        0 <= i < zones.len() && i != own && is_hit(#[trigger] zones[i], alt_m) && over_zone(
            calc,
            p,
            zones[i],
        )
}

fn in_other_band<C: Fn(Calc) -> Scalar>(
    p: &PathPoint,
    zones: &Vec<Zone>,
    own: usize,
    alt_m: Scalar,
    calc: &C,
) -> (r: bool)
    requires
        is_function(*calc),
    ensures
        r == over_other_hit(*calc, *p, zones@, own as int, alt_m),
{
    let mut i: usize = 0;
    while i < zones.len()
        invariant
            is_function(*calc),
            i <= zones@.len(),
            forall|k: int|
                0 <= k < i && k != own ==> !(is_hit(#[trigger] zones@[k], alt_m) && over_zone(
                    *calc,
                    *p,
                    zones@[k],
                )),
        decreases zones.len() - i,
    {
        let circle: bool = match &zones[i].shape {
            ZoneShape::Circle { .. } => true,
            ZoneShape::Polygon { .. } => false,
        };
        if i != own && circle && restricted_blocks_alt(&zones[i], alt_m) && is_over_zone(
            p,
            &zones[i],
            calc,
        ) {
            assert(is_hit(zones@[i as int], alt_m) && over_zone(*calc, *p, zones@[i as int]));
            return true;
        }
        i = i + 1;
    }
    false
}

/// Whether the change of height can have its outer end at point `a`. It lies
/// over no other zone, far enough from `edge`, the point at the border of the
/// zone, and the route turns there by at most 55 degrees on its way between
/// `edge` and `far`, the other end of the level part. `leaving` is set behind
/// the zone.
pub open spec fn anchor_fits<C: Fn(Calc) -> Scalar>(
    calc: C,
    a: PathPoint,
    edge: PathPoint,
    far: PathPoint,
    leaving: bool,
    zones: Seq<Zone>,
    own: int,
    alt_m: Scalar,
    climb_km: Scalar,
) -> bool {
    let (d, turn) = if leaving {
        (
            flat_km(calc, edge.lon, edge.lat, a.lon, a.lat),
            turn_between(
                flat_heading(calc, edge.lon, edge.lat, a.lon, a.lat),
                flat_heading(calc, a.lon, a.lat, far.lon, far.lat),
            ),
        )
    } else {
        (
            flat_km(calc, a.lon, a.lat, edge.lon, edge.lat),
            turn_between(
                flat_heading(calc, far.lon, far.lat, a.lon, a.lat),
                flat_heading(calc, a.lon, a.lat, edge.lon, edge.lat),
            ),
        )
    };
    &&& !over_other_hit(calc, a, zones, own, alt_m)
    &&& d >= climb_km
    &&& turn <= whole(55)
}

fn is_anchor<C: Fn(Calc) -> Scalar>(
    a: &PathPoint,
    edge: &PathPoint,
    far: &PathPoint,
    leaving: bool,
    zones: &Vec<Zone>,
    own: usize,
    alt_m: Scalar,
    climb_km: Scalar,
    calc: &C,
) -> (r: bool)
    requires
        is_function(*calc),
    ensures
        r == anchor_fits(
            *calc,
            *a,
            *edge,
            *far,
            leaving,
            zones@,
            own as int,
            alt_m,
            climb_km,
        ),
{
    if in_other_band(a, zones, own, alt_m, calc) {
        return false;
    }
    if leaving {
        climb_km.le(&dist_km(edge.lon, edge.lat, a.lon, a.lat, calc)) && angle_between(
            heading(edge.lon, edge.lat, a.lon, a.lat, calc),
            heading(a.lon, a.lat, far.lon, far.lat, calc),
        ).le(&number(55))
    } else {
        climb_km.le(&dist_km(a.lon, a.lat, edge.lon, edge.lat, calc)) && angle_between(
            heading(far.lon, far.lat, a.lon, a.lat, calc),
            heading(a.lon, a.lat, edge.lon, edge.lat, calc),
        ).le(&number(55))
    }
}

/// The last point before number `k` at which a descent can start, else `none`.
pub open spec fn descent_anchor<C: Fn(Calc) -> Scalar>(
    calc: C,
    points: Seq<PathPoint>,
    edge: PathPoint,
    zones: Seq<Zone>,
    own: int,
    alt_m: Scalar,
    climb_km: Scalar,
    k: int,
    none: int,
) -> int
    decreases k,
{
    if k <= 0 {
        none
    } else if anchor_fits(
        calc,
        points[k - 1],
        edge,
        points[0],
        false,
        zones,
        own,
        alt_m,
        climb_km,
    ) {
        k - 1
    } else {
        descent_anchor(calc, points, edge, zones, own, alt_m, climb_km, k - 1, none)
    }
}

/// The first point from number `k` on at which a climb can end, else `none`.
pub open spec fn climb_anchor<C: Fn(Calc) -> Scalar>(
    calc: C,
    points: Seq<PathPoint>,
    edge: PathPoint,
    zones: Seq<Zone>,
    own: int,
    alt_m: Scalar,
    climb_km: Scalar,
    k: int,
    none: int,
) -> int
    decreases points.len() - k,
{
    if k >= points.len() {
        none
    } else if anchor_fits(
        calc,
        points[k],
        edge,
        points.last(),
        true,
        zones,
        own,
        alt_m,
        climb_km,
    ) {
        k
    } else {
        climb_anchor(calc, points, edge, zones, own, alt_m, climb_km, k + 1, none)
    }
}

fn find_descent<C: Fn(Calc) -> Scalar>(
    points: &Vec<PathPoint>,
    edge: &PathPoint,
    zones: &Vec<Zone>,
    own: usize,
    alt_m: Scalar,
    climb_km: Scalar,
    i_in: usize,
    calc: &C,
) -> (r: usize)
    requires
        is_function(*calc),
        i_in < points@.len(),
    ensures
        r == descent_anchor(
            *calc,
            points@,
            *edge,
            zones@,
            own as int,
            alt_m,
            climb_km,
            i_in as int,
            i_in as int,
        ),
        r <= i_in,
{
    let mut k: usize = i_in;
    while k > 0
        invariant
            is_function(*calc),
            k <= i_in < points@.len(),
            descent_anchor(
                *calc,
                points@,
                *edge,
                zones@,
                own as int,
                alt_m,
                climb_km,
                i_in as int,
                i_in as int,
            ) == descent_anchor(
                *calc,
                points@,
                *edge,
                zones@,
                own as int,
                alt_m,
                climb_km,
                k as int,
                i_in as int,
            ),
        decreases k,
    {
        if is_anchor(&points[k - 1], edge, &points[0], false, zones, own, alt_m, climb_km, calc) {
            return k - 1;
        }
        k = k - 1;
    }
    i_in
}

fn find_climb<C: Fn(Calc) -> Scalar>(
    points: &Vec<PathPoint>,
    edge: &PathPoint,
    zones: &Vec<Zone>,
    own: usize,
    alt_m: Scalar,
    climb_km: Scalar,
    i_out: usize,
    calc: &C,
) -> (r: usize)
    requires
        is_function(*calc),
        i_out < points@.len(),
    ensures
        r == climb_anchor(
            *calc,
            points@,
            *edge,
            zones@,
            own as int,
            alt_m,
            climb_km,
            i_out + 1,
            i_out as int,
        ),
        i_out <= r < points@.len(),
{
    let n: usize = points.len();
    let mut k: usize = i_out + 1;
    while k < n
        invariant
            is_function(*calc),
            n == points@.len(),
            i_out < k <= n,
            climb_anchor(
                *calc,
                points@,
                *edge,
                zones@,
                own as int,
                alt_m,
                climb_km,
                i_out + 1,
                i_out as int,
            ) == climb_anchor(
                *calc,
                points@,
                *edge,
                zones@,
                own as int,
                alt_m,
                climb_km,
                k as int,
                i_out as int,
            ),
        decreases n - k,
    {
        if is_anchor(&points[k], edge, &points[n - 1], true, zones, own, alt_m, climb_km, calc) {
            return k;
        }
        k = k + 1;
    }
    i_out
}

/// Ground needed in kilometres to change height, with a tenth to spare;
/// without end if the aircraft cannot climb.
pub open spec fn climb_base_km<C: Fn(Calc) -> Scalar>(calc: C, p: Performance, pass: Scalar) -> Scalar {
    if p.max_climb_deg > frac(1, 10) {
        (p.alt_m - pass).magnitude() / image(calc, Calc::Tan(radians(p.max_climb_deg))) / whole(
            1000,
        ) * frac(11, 10)
    } else {
        infinity()
    }
}

fn climb_base<C: Fn(Calc) -> Scalar>(p: &Performance, pass: Scalar, calc: &C) -> (r: Scalar)
    requires
        is_function(*calc),
    ensures
        r == climb_base_km(*calc, *p, pass),
{
    if ratio(1, 10).lt(&p.max_climb_deg) {
        (p.alt_m - pass).abs() / ask(calc, Calc::Tan(to_radians(p.max_climb_deg))) / number(1000)
            * ratio(11, 10)
    } else {
        Scalar { bits: INFINITY_BITS }
    }
}

/// A stretch of a route flown level at `pass` and pushed out of the walls.
pub open spec fn level_stretch<C: Fn(Calc) -> Scalar>(
    calc: C,
    points: Seq<PathPoint>,
    from: int,
    to: int,
    pass: Scalar,
    zones: Seq<Zone>,
    inflation_km: Scalar,
) -> Seq<PathPoint> {
    Seq::new(
        (to - from + 1) as nat,
        |i: int|
            pushed_point(
                calc,
                PathPoint {
                    lon: points[from + i].lon,
                    lat: points[from + i].lat,
                    alt_m: pass,
                    heading_deg: None,
                },
                zones,
                inflation_km,
                frac(5, 10),
            ),
    )
}

fn make_level_stretch<C: Fn(Calc) -> Scalar>(
    points: &Vec<PathPoint>,
    from: usize,
    to: usize,
    pass: Scalar,
    zones: &Vec<Zone>,
    inflation_km: Scalar,
    calc: &C,
) -> (r: Vec<PathPoint>)
    requires
        is_function(*calc),
        from <= to < points@.len(),
    ensures
        r@ == level_stretch(*calc, points@, from as int, to as int, pass, zones@, inflation_km),
        r@.len() > 0,
{
    let n: usize = points.len();
    let mut level: Vec<PathPoint> = Vec::new();
    let mut i: usize = from;
    while i <= to
        invariant
            n == points@.len(),
            from <= i <= to + 1,
            to < n,
            level@.len() == i - from,
            forall|k: int|
                0 <= k < level@.len() ==> #[trigger] level@[k] == (PathPoint {
                    lon: points@[from + k].lon,
                    lat: points@[from + k].lat,
                    alt_m: pass,
                    heading_deg: None,
                }),
        decreases to + 1 - i,
    {
        level.push(PathPoint::new(points[i].lon, points[i].lat, pass));
        i = i + 1;
    }
    let r: Vec<PathPoint> = push_out_of_walls(&level, zones, inflation_km, ratio(5, 10), calc);
    assert(r@ =~= level_stretch(
        *calc,
        points@,
        from as int,
        to as int,
        pass,
        zones@,
        inflation_km,
    ));
    r
}

/// The point above the same place at another height.
pub open spec fn at_height(p: PathPoint, alt_m: Scalar) -> PathPoint {
    PathPoint { lon: p.lon, lat: p.lat, alt_m, heading_deg: None }
}

/// What becomes of the last part of a route at a zone.
pub enum HitOutcome {
    /// It stays as it is.
    Skip,
    /// No profile works; the zone has to be walled off.
    NeedWall,
    /// Straight lines replace it all.
    Straight(Seq<Seq<PathPoint>>),
    /// It is cut into five parts.
    Cut(Seq<Seq<PathPoint>>),
}

/// The place below a route point, or another one where that is illegal.
pub open spec fn place_or(p: PathPoint, other: Geo) -> Geo {
    if legal_coordinate(p.lon, p.lat) {
        Geo { lon: p.lon, lat: p.lat }
    } else {
        other
    }
}

/// The point a fraction along the line between two places, at a height.
pub open spec fn point_between(p0: PathPoint, p1: PathPoint, u: Scalar, h: Scalar) -> PathPoint {
    PathPoint {
        lon: p0.lon + (p1.lon - p0.lon) * u,
        lat: p0.lat + (p1.lat - p0.lat) * u,
        alt_m: h,
        heading_deg: None,
    }
}

/// The straight profile from the first to the last point of a raw route, which
/// itself misses the zone: level flight at `pass` across the circle.
pub open spec fn straight_parts<C: Fn(Calc) -> Scalar>(
    calc: C,
    raw: Seq<PathPoint>,
    tail: Seq<PathPoint>,
    center: [Scalar; 2],
    radius_km: Scalar,
    p: Performance,
    pass: Scalar,
) -> Option<Seq<Seq<PathPoint>>> {
    let (p0, p1) = (raw[0], raw.last());
    let f = chord_frame(calc, p0.lon, p0.lat, p1.lon, p1.lat, center[0], center[1]);
    let q = chord_quadratic(f, radius_km);
    let (t1, t2) = quadratic_roots(q);
    let (u1, u2) = (t1.clamped(whole(0), whole(1)), t2.clamped(whole(0), whole(1)));
    let base = climb_base_km(calc, p, pass);
    let len = q.0.root();
    let desc = point_between(p0, p1, (u1 - base / len).larger(whole(0)), p.alt_m);
    let enter = point_between(p0, p1, u1, pass);
    let leave = point_between(p0, p1, u2, pass);
    let climb = point_between(p0, p1, (u2 + base / len).smaller(whole(1)), p.alt_m);
    if discriminant(q) <= whole(0) || u2 <= whole(0) || u1 >= whole(1) {
        None
    } else {
        Some(
            seq![
                seq![tail[0], desc],
                seq![desc, enter],
                seq![enter, leave],
                seq![leave, climb],
                seq![climb, tail.last()],
            ],
        )
    }
}

/// What becomes of a route whose legs all miss the zone.
pub open spec fn missed_outcome<C: Fn(Calc) -> Scalar, T: Fn((Scalar, Scalar)) -> Sample>(
    calc: C,
    ground: Option<&T>,
    raw: Seq<PathPoint>,
    tail: Seq<PathPoint>,
    zones: Seq<Zone>,
    z: Zone,
    p: Performance,
    start: Geo,
    target: Geo,
    inflation_km: Scalar,
) -> HitOutcome {
    let (p0, p1) = (raw[0], raw.last());
    match (
        pass_height(calc, ground, z, p, place_or(p0, start), place_or(p1, target), tail, None),
        z.shape,
    ) {
        (Some(pass), ZoneShape::Circle { center, radius_km }) => if line_meets_wall(
            calc,
            p0.lon,
            p0.lat,
            p1.lon,
            p1.lat,
            zones,
            inflation_km,
        ) {
            HitOutcome::Skip
        } else {
            match straight_parts(calc, raw, tail, center, radius_km, p, pass) {
                Some(parts) => HitOutcome::Straight(parts),
                None => HitOutcome::Skip,
            }
        },
        _ => HitOutcome::Skip,
    }
}

/// Whether a straight change of height is too short, or meets a wall or a band.
pub open spec fn change_fails<C: Fn(Calc) -> Scalar>(
    calc: C,
    a: PathPoint,
    b: PathPoint,
    zones: Seq<Zone>,
    inflation_km: Scalar,
    base_km: Scalar,
) -> bool {
    ||| line_meets_wall(calc, a.lon, a.lat, b.lon, b.lat, zones, inflation_km)
    ||| line_meets_band(calc, a, b, zones)
    ||| flat_km(calc, a.lon, a.lat, b.lon, b.lat) < base_km
}

/// The two anchors and the five parts of a route cut at a zone: up to the
/// first anchor, the change of height, the level stretch, the change back, and
/// on from the second anchor.
pub open spec fn cut_parts(
    tail: Seq<PathPoint>,
    level: Seq<PathPoint>,
    i_desc: int,
    i_climb: int,
    alt_m: Scalar,
) -> Seq<Seq<PathPoint>> {
    seq![
        tail.subrange(0, i_desc + 1),
        seq![at_height(tail[i_desc], alt_m), level[0]],
        level,
        seq![level.last(), at_height(tail[i_climb], alt_m)],
        tail.subrange(i_climb, tail.len() as int),
    ]
}

/// What becomes of a route that crosses the zone between points `i_in` and `i_out`.
pub open spec fn crossed_outcome<C: Fn(Calc) -> Scalar, T: Fn((Scalar, Scalar)) -> Sample>(
    calc: C,
    ground: Option<&T>,
    tail: Seq<PathPoint>,
    zones: Seq<Zone>,
    own: int,
    p: Performance,
    start: Geo,
    target: Geo,
    inflation_km: Scalar,
    i_in: int,
    i_out: int,
) -> HitOutcome {
    match pass_height(calc, ground, zones[own], p, start, target, tail, Some((i_in, i_out))) {
        None => HitOutcome::Skip,
        Some(pass) => {
            let base = climb_base_km(calc, p, pass);
            let level = level_stretch(calc, tail, i_in, i_out, pass, zones, inflation_km);
            let i_desc = descent_anchor(
                calc,
                tail,
                level[0],
                zones,
                own,
                p.alt_m,
                base,
                i_in,
                i_in,
            );
            let i_climb = climb_anchor(
                calc,
                tail,
                level.last(),
                zones,
                own,
                p.alt_m,
                base,
                i_out + 1,
                i_out,
            );
            if change_fails(
                calc,
                at_height(tail[i_desc], p.alt_m),
                level[0],
                zones,
                inflation_km,
                base,
            ) || change_fails(
                calc,
                level.last(),
                at_height(tail[i_climb], p.alt_m),
                zones,
                inflation_km,
                base,
            ) {
                HitOutcome::NeedWall
            } else {
                HitOutcome::Cut(cut_parts(tail, level, i_desc, i_climb, p.alt_m))
            }
        },
    }
}

/// What becomes of the last part of a route at zone number `own`.
pub open spec fn hit_outcome<C: Fn(Calc) -> Scalar, T: Fn((Scalar, Scalar)) -> Sample>(
    calc: C,
    ground: Option<&T>,
    raw: Seq<PathPoint>,
    tail: Seq<PathPoint>,
    zones: Seq<Zone>,
    own: int,
    p: Performance,
    start: Geo,
    target: Geo,
    inflation_km: Scalar,
) -> HitOutcome {
    match first_touch(calc, tail, zones[own], 0) {
        None => missed_outcome(
            calc,
            ground,
            raw,
            tail,
            zones,
            zones[own],
            p,
            start,
            target,
            inflation_km,
        ),
        Some(i_in) => crossed_outcome(
            calc,
            ground,
            tail,
            zones,
            own,
            p,
            start,
            target,
            inflation_km,
            i_in,
            last_touch(calc, tail, zones[own], tail.len() - 1)->0 + 1,
        ),
    }
}

/// A route cut at zones: its parts, which of them are left unsmoothed, and
/// whether a zone has to be walled off instead.
pub open spec fn profiles_from<C: Fn(Calc) -> Scalar, T: Fn((Scalar, Scalar)) -> Sample>(
    calc: C,
    ground: Option<&T>,
    raw: Seq<PathPoint>,
    zones: Seq<Zone>,
    p: Performance,
    start: Geo,
    target: Geo,
    inflation_km: Scalar,
    order: Seq<usize>,
    k: int,
    parts: Seq<Seq<PathPoint>>,
    mask: Seq<bool>,
) -> (Seq<Seq<PathPoint>>, Seq<bool>, bool)
    decreases order.len() - k,
{
    if k >= order.len() {
        (parts, mask, false)
    } else {
        match hit_outcome(
            calc,
            ground,
            raw,
            parts.last(),
            zones,
            order[k] as int,
            p,
            start,
            target,
            inflation_km,
        ) {
            HitOutcome::Skip => profiles_from(
                calc,
                ground,
                raw,
                zones,
                p,
                start,
                target,
                inflation_km,
                order,
                k + 1,
                parts,
                mask,
            ),
            HitOutcome::NeedWall => (seq![raw], seq![false], true),
            HitOutcome::Straight(five) => (
                parts.drop_last() + five,
                mask.drop_last() + seq![true, true, true, true, true],
                false,
            ),
            HitOutcome::Cut(five) => profiles_from(
                calc,
                ground,
                raw,
                zones,
                p,
                start,
                target,
                inflation_km,
                order,
                k + 1,
                parts.drop_last() + five,
                mask.drop_last() + seq![false, true, false, true, false],
            ),
        }
    }
}

/// A raw route cut at the round restricted zones that it meets, in the order in
/// which it meets them.
pub open spec fn restricted_profiles<C: Fn(Calc) -> Scalar, T: Fn((Scalar, Scalar)) -> Sample>(
    calc: C,
    ground: Option<&T>,
    raw: Seq<PathPoint>,
    zones: Seq<Zone>,
    p: Performance,
    start: Geo,
    target: Geo,
    inflation_km: Scalar,
) -> (Seq<Seq<PathPoint>>, Seq<bool>, bool) {
    if raw.len() < 2 {
        (seq![raw], seq![false], false)
    } else {
        profiles_from(
            calc,
            ground,
            raw,
            zones,
            p,
            start,
            target,
            inflation_km,
            hit_order(calc, raw, zones, p.alt_m, zones.len() as int),
            0,
            seq![raw],
            seq![false],
        )
    }
}

/// The points of each part.
pub open spec fn part_views(parts: Seq<Path>) -> Seq<Seq<PathPoint>> {
    Seq::new(parts.len(), |i: int| parts[i]@)
}

/// A decision at a zone, with the parts it makes.
pub enum HitPlan {
    Skip,
    NeedWall,
    Straight(Vec<Path>),
    Cut(Vec<Path>),
}

impl View for HitPlan {
    type V = HitOutcome;

    open spec fn view(&self) -> HitOutcome {
        match self {
            HitPlan::Skip => HitOutcome::Skip,
            HitPlan::NeedWall => HitOutcome::NeedWall,
            HitPlan::Straight(parts) => HitOutcome::Straight(part_views(parts@)),
            HitPlan::Cut(parts) => HitOutcome::Cut(part_views(parts@)),
        }
    }
}

fn make_point_between(p0: &PathPoint, p1: &PathPoint, u: Scalar, h: Scalar) -> (r: PathPoint)
    ensures
        r == point_between(*p0, *p1, u, h),
{
    PathPoint::new(p0.lon + (p1.lon - p0.lon) * u, p0.lat + (p1.lat - p0.lat) * u, h)
}

fn pair(a: PathPoint, b: PathPoint) -> (r: Path)
    ensures
        r@ == seq![a, b],
{
    let mut v: Vec<PathPoint> = Vec::new();
    v.push(a);
    v.push(b);
    assert(v@ =~= seq![a, b]);
    Path::new(v)
}

fn five(a: Path, b: Path, c: Path, d: Path, e: Path) -> (r: Vec<Path>)
    ensures
        part_views(r@) == seq![a@, b@, c@, d@, e@],
        r@.len() == 5,
{
    let mut v: Vec<Path> = Vec::new();
    v.push(a);
    v.push(b);
    v.push(c);
    v.push(d);
    v.push(e);
    assert(part_views(v@) =~= seq![a@, b@, c@, d@, e@]);
    v
}

fn make_straight<C: Fn(Calc) -> Scalar>(
    raw: &Vec<PathPoint>,
    tail: &Vec<PathPoint>,
    center: [Scalar; 2],
    radius_km: Scalar,
    p: &Performance,
    pass: Scalar,
    calc: &C,
) -> (r: Option<Vec<Path>>)
    requires
        is_function(*calc),
        raw@.len() > 0,
        tail@.len() > 0,
    ensures
        r is Some <==> straight_parts(*calc, raw@, tail@, center, radius_km, *p, pass) is Some,
        r is Some ==> part_views(r->0@) == straight_parts(
            *calc,
            raw@,
            tail@,
            center,
            radius_km,
            *p,
            pass,
        )->0,
{
    let p0: PathPoint = raw[0];
    let p1: PathPoint = raw[raw.len() - 1];
    let f: ChordFrame = make_chord_frame(
        p0.lon,
        p0.lat,
        p1.lon,
        p1.lat,
        center[0],
        center[1],
        calc,
    );
    let q: (Scalar, Scalar, Scalar) = make_quadratic(&f, radius_km);
    if make_discriminant(q).le(&number(0)) {
        return None;
    }
    let (t1, t2) = make_roots(q);
    let u1: Scalar = t1.clamp(&number(0), &number(1));
    let u2: Scalar = t2.clamp(&number(0), &number(1));
    if u2.le(&number(0)) || number(1).le(&u1) {
        return None;
    }
    let base: Scalar = climb_base(p, pass, calc);
    let len: Scalar = q.0.sqrt();
    let desc: PathPoint = make_point_between(
        &p0,
        &p1,
        (u1 - base / len).max(&number(0)),
        p.alt_m,
    );
    let enter: PathPoint = make_point_between(&p0, &p1, u1, pass);
    let leave: PathPoint = make_point_between(&p0, &p1, u2, pass);
    let climb: PathPoint = make_point_between(
        &p0,
        &p1,
        (u2 + base / len).min(&number(1)),
        p.alt_m,
    );
    Some(
        five(
            pair(tail[0], desc),
            pair(desc, enter),
            pair(enter, leave),
            pair(leave, climb),
            pair(climb, tail[tail.len() - 1]),
        ),
    )
}

fn find_place_or(p: &PathPoint, other: &Geo) -> (r: Geo)
    ensures
        r == place_or(*p, *other),
{
    match Geo::new(p.lon, p.lat) {
        Ok(g) => g,
        Err(_) => *other,
    }
}

fn plan_missed<C: Fn(Calc) -> Scalar, T: Fn((Scalar, Scalar)) -> Sample>(
    ground: Option<&T>,
    raw: &Vec<PathPoint>,
    tail: &Vec<PathPoint>,
    zones: &Vec<Zone>,
    z: &Zone,
    p: &Performance,
    start: &Geo,
    target: &Geo,
    inflation_km: Scalar,
    calc: &C,
) -> (r: HitPlan)
    requires
        is_function(*calc),
        ground is Some ==> is_function(*ground->0),
        raw@.len() > 0,
        tail@.len() > 0,
    ensures
        r@ == missed_outcome(
            *calc,
            ground,
            raw@,
            tail@,
            zones@,
            *z,
            *p,
            *start,
            *target,
            inflation_km,
        ),
{
    let p0: PathPoint = raw[0];
    let p1: PathPoint = raw[raw.len() - 1];
    let s: Geo = find_place_or(&p0, start);
    let t: Geo = find_place_or(&p1, target);
    match restricted_pass_alt(z, p, ground, &s, &t, tail, None, calc) {
        None => HitPlan::Skip,
        Some(pass) => match &z.shape {
            ZoneShape::Polygon { .. } => HitPlan::Skip,
            ZoneShape::Circle { center, radius_km } => {
                if line_hits_wall_km(p0.lon, p0.lat, p1.lon, p1.lat, zones, inflation_km, calc) {
                    return HitPlan::Skip;
                }
                match make_straight(raw, tail, *center, *radius_km, p, pass, calc) {
                    Some(parts) => HitPlan::Straight(parts),
                    None => HitPlan::Skip,
                }
            },
        },
    }
}

fn change_is_bad<C: Fn(Calc) -> Scalar>(
    a: &PathPoint,
    b: &PathPoint,
    zones: &Vec<Zone>,
    inflation_km: Scalar,
    base_km: Scalar,
    calc: &C,
) -> (r: bool)
    requires
        is_function(*calc),
    ensures
        r == change_fails(*calc, *a, *b, zones@, inflation_km, base_km),
{
    line_hits_wall_km(a.lon, a.lat, b.lon, b.lat, zones, inflation_km, calc)
        || line_hits_restricted_band_km(a, b, zones, calc) || dist_km(
        a.lon,
        a.lat,
        b.lon,
        b.lat,
        calc,
    ).lt(&base_km)
}

fn plan_crossed<C: Fn(Calc) -> Scalar, T: Fn((Scalar, Scalar)) -> Sample>(
    ground: Option<&T>,
    tail: &Vec<PathPoint>,
    zones: &Vec<Zone>,
    own: usize,
    p: &Performance,
    start: &Geo,
    target: &Geo,
    inflation_km: Scalar,
    i_in: usize,
    i_out: usize,
    calc: &C,
) -> (r: HitPlan)
    requires
        is_function(*calc),
        ground is Some ==> is_function(*ground->0),
        own < zones@.len(),
        i_in < i_out < tail@.len(),
    ensures
        r@ == crossed_outcome(
            *calc,
            ground,
            tail@,
            zones@,
            own as int,
            *p,
            *start,
            *target,
            inflation_km,
            i_in as int,
            i_out as int,
        ),
        !(r is Straight),
        r matches HitPlan::Cut(parts) ==> parts@.len() == 5 && parts@.last()@.len() > 0,
{
    let band: Option<Stretch> = Some(Stretch { from: i_in, to: i_out });
    assert(ordered(band) == Some((i_in as int, i_out as int)));
    match restricted_pass_alt(&zones[own], p, ground, start, target, tail, band, calc) {
        None => HitPlan::Skip,
        Some(pass) => {
            let base: Scalar = climb_base(p, pass, calc);
            let level: Vec<PathPoint> = make_level_stretch(
                tail,
                i_in,
                i_out,
                pass,
                zones,
                inflation_km,
                calc,
            );
            let first: PathPoint = level[0];
            let last: PathPoint = level[level.len() - 1];
            let i_desc: usize = find_descent(tail, &first, zones, own, p.alt_m, base, i_in, calc);
            let i_climb: usize = find_climb(tail, &last, zones, own, p.alt_m, base, i_out, calc);
            let d: PathPoint = PathPoint::new(tail[i_desc].lon, tail[i_desc].lat, p.alt_m);
            let c: PathPoint = PathPoint::new(tail[i_climb].lon, tail[i_climb].lat, p.alt_m);
            if change_is_bad(&d, &first, zones, inflation_km, base, calc) || change_is_bad(
                &last,
                &c,
                zones,
                inflation_km,
                base,
                calc,
            ) {
                return HitPlan::NeedWall;
            }
            let n: usize = tail.len();
            let head: Path = Path::new(slice_points(tail, 0, i_desc + 1));
            let rest: Path = Path::new(slice_points(tail, i_climb, n));
            HitPlan::Cut(five(head, pair(d, first), Path::new(level), pair(last, c), rest))
        },
    }
}

fn plan_hit<C: Fn(Calc) -> Scalar, T: Fn((Scalar, Scalar)) -> Sample>(
    ground: Option<&T>,
    raw: &Vec<PathPoint>,
    tail: &Vec<PathPoint>,
    zones: &Vec<Zone>,
    own: usize,
    p: &Performance,
    start: &Geo,
    target: &Geo,
    inflation_km: Scalar,
    calc: &C,
) -> (r: HitPlan)
    requires
        is_function(*calc),
        ground is Some ==> is_function(*ground->0),
        own < zones@.len(),
        raw@.len() > 0,
        tail@.len() > 0,
    ensures
        r@ == hit_outcome(
            *calc,
            ground,
            raw@,
            tail@,
            zones@,
            own as int,
            *p,
            *start,
            *target,
            inflation_km,
        ),
        r matches HitPlan::Cut(parts) ==> parts@.len() == 5 && parts@.last()@.len() > 0,
{
    match find_first_touch(tail, &zones[own], calc) {
        None => plan_missed(
            ground,
            raw,
            tail,
            zones,
            &zones[own],
            p,
            start,
            target,
            inflation_km,
            calc,
        ),
        Some(i_in) => {
            proof {
                lemma_touches_agree(*calc, tail@, zones@[own as int], 0);
                lemma_last_touch_reaches(
                    *calc,
                    tail@,
                    zones@[own as int],
                    tail@.len() - 1,
                    i_in as int,
                );
            }
            assert(tail.len() == tail@.len());
            match find_last_touch(tail, &zones[own], calc) {
                Some(last) => plan_crossed(
                    ground,
                    tail,
                    zones,
                    own,
                    p,
                    start,
                    target,
                    inflation_km,
                    i_in,
                    last + 1,
                    calc,
                ),
                None => HitPlan::Skip,
            }
        },
    }
}

/// Replaces the last part by others.
fn replace_last(parts: &mut Vec<Path>, new_parts: Vec<Path>)
    requires
        old(parts)@.len() > 0,
    ensures
        part_views(final(parts)@) == part_views(old(parts)@).drop_last() + part_views(new_parts@),
        final(parts)@.len() == old(parts)@.len() - 1 + new_parts@.len(),
        new_parts@.len() > 0 ==> final(parts)@.last() == new_parts@.last(),
{
    let ghost before = parts@;
    let ghost added = new_parts@;
    let mut more: Vec<Path> = new_parts;
    parts.pop();
    parts.append(&mut more);
    proof {
        assert(parts@ == before.drop_last() + added);
        assert(part_views(parts@) =~= part_views(before).drop_last() + part_views(added));
    }
}

fn replace_mask(mask: &mut Vec<bool>, changes: bool, level: bool)
    requires
        old(mask)@.len() > 0,
    ensures
        final(mask)@ == old(mask)@.drop_last() + seq![level, changes, level, changes, level],
{
    let ghost before = mask@;
    mask.pop();
    mask.push(level);
    mask.push(changes);
    mask.push(level);
    mask.push(changes);
    mask.push(level);
    proof {
        assert(mask@ =~= before.drop_last() + seq![level, changes, level, changes, level]);
    }
}

fn copy_path(points: &Vec<PathPoint>) -> (r: Path)
    ensures
        r@ == points@,
{
    let n: usize = points.len();
    let v: Vec<PathPoint> = slice_points(points, 0, n);
    assert(points@.subrange(0, n as int) =~= points@);
    Path::new(v)
}

/// The answer that leaves a route uncut.
fn uncut(points: &Vec<PathPoint>, need_wall: bool) -> (r: (Vec<Path>, Vec<bool>, bool))
    ensures
        part_views(r.0@) == seq![points@],
        r.1@ == seq![false],
        r.2 == need_wall,
        r.0@.len() == 1,
        r.0@[0]@ == points@,
{
    let mut parts: Vec<Path> = Vec::new();
    parts.push(copy_path(points));
    let mut mask: Vec<bool> = Vec::new();
    mask.push(false);
    assert(part_views(parts@) =~= seq![points@]);
    assert(mask@ =~= seq![false]);
    (parts, mask, need_wall)
}

/// Cuts a raw route at the round restricted zones it meets. Returns the parts,
/// which of them are to be left unsmoothed, and whether no profile works and a
/// zone has to be walled off; the route is then left uncut.
pub fn build_restricted_profiles<C: Fn(Calc) -> Scalar, T: Fn((Scalar, Scalar)) -> Sample>(
    seg: &Path,
    zones: &Vec<Zone>,
    p: &Performance,
    ground: Option<&T>,
    start: &Geo,
    target: &Geo,
    inflation_km: Scalar,
    calc: &C,
) -> (r: (Vec<Path>, Vec<bool>, bool))
    requires
        is_function(*calc),
        ground is Some ==> is_function(*ground->0),
    ensures
        (part_views(r.0@), r.1@, r.2) == restricted_profiles(
            *calc,
            ground,
            seg@,
            zones@,
            *p,
            *start,
            *target,
            inflation_km,
        ),
{
    let raw: &Vec<PathPoint> = &seg.points;
    if raw.len() < 2 {
        return uncut(raw, false);
    }
    let order: Vec<usize> = order_hits(raw, zones, p.alt_m, calc);
    let (mut parts, mut mask, _none) = uncut(raw, false);
    let mut k: usize = 0;
    while k < order.len()
        invariant
            is_function(*calc),
            ground is Some ==> is_function(*ground->0),
            raw@ == seg@,
            raw@.len() >= 2,
            k <= order@.len(),
            forall|i: int| 0 <= i < order@.len() ==> #[trigger] order@[i] < zones@.len(),
            parts@.len() > 0,
            parts@.last()@.len() > 0,
            mask@.len() > 0,
            restricted_profiles(
                *calc,
                ground,
                seg@,
                zones@,
                *p,
                *start,
                *target,
                inflation_km,
            ) == profiles_from(
                *calc,
                ground,
                seg@,
                zones@,
                *p,
                *start,
                *target,
                inflation_km,
                order@,
                k as int,
                part_views(parts@),
                mask@,
            ),
        decreases order.len() - k,
    {
        let own: usize = order[k];
        let at: usize = parts.len() - 1;
        let plan: HitPlan = plan_hit(
            ground,
            raw,
            &parts[at].points,
            zones,
            own,
            p,
            start,
            target,
            inflation_km,
            calc,
        );
        assert(part_views(parts@).last() == parts@.last()@);
        match plan {
            HitPlan::Skip => {},
            HitPlan::NeedWall => {
                return uncut(raw, true);
            },
            HitPlan::Straight(new_parts) => {
                replace_last(&mut parts, new_parts);
                replace_mask(&mut mask, true, true);
                return (parts, mask, false);
            },
            HitPlan::Cut(new_parts) => {
                replace_last(&mut parts, new_parts);
                replace_mask(&mut mask, true, false);
            },
        }
        k = k + 1;
    }
    (parts, mask, false)
}

/// Parts of a route that follow on each other: none is empty, and each starts
/// over the place where the one before it ends.
pub open spec fn joined(parts: Seq<Seq<PathPoint>>) -> bool {
    &&& parts.len() > 0
    &&& forall|i: int| 0 <= i < parts.len() ==> (#[trigger] parts[i]).len() > 0
    &&& forall|i: int, j: int|
        0 <= i && j == i + 1 && j < parts.len() ==> (#[trigger] parts[i]).last().above(
            (#[trigger] parts[j])[0],
        )
}

/// Parts that are left unsmoothed are single straight lines.
pub open spec fn straight_where(parts: Seq<Seq<PathPoint>>, mask: Seq<bool>) -> bool {
    &&& mask.len() == parts.len()
    &&& forall|i: int| 0 <= i < parts.len() && #[trigger] mask[i] ==> parts[i].len() == 2
}

spec fn sound_cut(raw: Seq<PathPoint>, parts: Seq<Seq<PathPoint>>, mask: Seq<bool>) -> bool {
    &&& joined(parts)
    &&& straight_where(parts, mask)
    &&& parts[0][0] == raw[0]
    &&& parts.last().last() == raw.last()
}

proof fn lemma_replace_keeps_sound(
    raw: Seq<PathPoint>,
    parts: Seq<Seq<PathPoint>>,
    mask: Seq<bool>,
    more: Seq<Seq<PathPoint>>,
    more_mask: Seq<bool>,
)
    requires
        sound_cut(raw, parts, mask),
        joined(more),
        straight_where(more, more_mask),
        more[0][0] == parts.last()[0],
        more.last().last() == parts.last().last(),
    ensures
        sound_cut(raw, parts.drop_last() + more, mask.drop_last() + more_mask),
{
    let all = parts.drop_last() + more;
    let all_mask = mask.drop_last() + more_mask;
    let n = parts.len() - 1;
    assert forall|i: int| 0 <= i < all.len() implies (#[trigger] all[i]).len() > 0 by {
        if i < n {
            assert(all[i] == parts[i]);
        } else {
            assert(all[i] == more[i - n]);
        }
    }
    assert forall|i: int, j: int|
        0 <= i && j == i + 1 && j < all.len() implies (#[trigger] all[i]).last().above(
        (#[trigger] all[j])[0],
    ) by {
        if j < n {
            assert(all[i] == parts[i] && all[j] == parts[j]);
        } else if i < n {
            assert(all[i] == parts[i] && all[j] == more[0]);
            assert(parts[i].last().above(parts[j][0]));
        } else {
            assert(all[i] == more[i - n] && all[j] == more[j - n]);
        }
    }
    assert forall|i: int| 0 <= i < all.len() && #[trigger] all_mask[i] implies all[i].len() == 2 by {
        if i < n {
            assert(mask[i]);
            assert(all[i] == parts[i]);
        } else {
            assert(more_mask[i - n]);
            assert(all[i] == more[i - n]);
        }
    }
    if n > 0 {
        assert(all[0] == parts[0]);
    } else {
        assert(all[0] == more[0]);
    }
    assert(all.last() == more.last());
}

proof fn lemma_descent_bounds<C: Fn(Calc) -> Scalar>(
    calc: C,
    points: Seq<PathPoint>,
    edge: PathPoint,
    zones: Seq<Zone>,
    own: int,
    alt_m: Scalar,
    climb_km: Scalar,
    k: int,
    none: int,
)
    requires
        0 <= k <= none,
    ensures
        0 <= descent_anchor(calc, points, edge, zones, own, alt_m, climb_km, k, none) <= none,
    decreases k,
{
    if k > 0 {
        lemma_descent_bounds(calc, points, edge, zones, own, alt_m, climb_km, k - 1, none);
    }
}

proof fn lemma_climb_bounds<C: Fn(Calc) -> Scalar>(
    calc: C,
    points: Seq<PathPoint>,
    edge: PathPoint,
    zones: Seq<Zone>,
    own: int,
    alt_m: Scalar,
    climb_km: Scalar,
    k: int,
    none: int,
)
    requires
        0 <= none < k <= points.len(),
    ensures
        none <= climb_anchor(calc, points, edge, zones, own, alt_m, climb_km, k, none)
            < points.len(),
    decreases points.len() - k,
{
    if k < points.len() {
        lemma_climb_bounds(calc, points, edge, zones, own, alt_m, climb_km, k + 1, none);
    }
}

proof fn lemma_cut_sound(
    tail: Seq<PathPoint>,
    level: Seq<PathPoint>,
    i_desc: int,
    i_climb: int,
    alt_m: Scalar,
)
    requires
        0 <= i_desc < tail.len(),
        0 <= i_climb < tail.len(),
        level.len() > 0,
    ensures
        ({
            let more = cut_parts(tail, level, i_desc, i_climb, alt_m);
            &&& joined(more)
            &&& straight_where(more, seq![false, true, false, true, false])
            &&& more[0][0] == tail[0]
            &&& more.last().last() == tail.last()
        }),
{
    let more = cut_parts(tail, level, i_desc, i_climb, alt_m);
    assert(more[0].last() == tail[i_desc]);
    assert(more[4][0] == tail[i_climb]);
    assert(more.len() == 5);
}

proof fn lemma_profiles_sound<C: Fn(Calc) -> Scalar, T: Fn((Scalar, Scalar)) -> Sample>(
    calc: C,
    ground: Option<&T>,
    raw: Seq<PathPoint>,
    zones: Seq<Zone>,
    p: Performance,
    start: Geo,
    target: Geo,
    inflation_km: Scalar,
    order: Seq<usize>,
    k: int,
    parts: Seq<Seq<PathPoint>>,
    mask: Seq<bool>,
)
    requires
        raw.len() >= 2,
        0 <= k,
        sound_cut(raw, parts, mask),
    ensures
        ({
            let (new_parts, new_mask, _wall) = profiles_from(
                calc,
                ground,
                raw,
                zones,
                p,
                start,
                target,
                inflation_km,
                order,
                k,
                parts,
                mask,
            );
            sound_cut(raw, new_parts, new_mask)
        }),
    decreases order.len() - k,
{
    if k < order.len() {
        let tail = parts.last();
        let own = order[k] as int;
        match hit_outcome(
            calc,
            ground,
            raw,
            tail,
            zones,
            own,
            p,
            start,
            target,
            inflation_km,
        ) {
            HitOutcome::Skip => {
                lemma_profiles_sound(
                    calc,
                    ground,
                    raw,
                    zones,
                    p,
                    start,
                    target,
                    inflation_km,
                    order,
                    k + 1,
                    parts,
                    mask,
                );
            },
            HitOutcome::NeedWall => {
                let one = seq![raw];
                assert(one[0] == raw && one.last() == raw);
            },
            HitOutcome::Straight(more) => {
                let more_mask = seq![true, true, true, true, true];
                assert(more.len() == 5);
                assert(more[0][0] == tail[0] && more[4].last() == tail.last());
                assert(joined(more));
                assert(straight_where(more, more_mask));
                lemma_replace_keeps_sound(raw, parts, mask, more, more_mask);
            },
            HitOutcome::Cut(more) => {
                let i_in = first_touch(calc, tail, zones[own], 0)->0;
                lemma_touches_agree(calc, tail, zones[own], 0);
                lemma_last_touch_reaches(calc, tail, zones[own], tail.len() - 1, i_in);
                let i_out = last_touch(calc, tail, zones[own], tail.len() - 1)->0 + 1;
                let pass = pass_height(
                    calc,
                    ground,
                    zones[own],
                    p,
                    start,
                    target,
                    tail,
                    Some((i_in, i_out)),
                )->0;
                let base = climb_base_km(calc, p, pass);
                let level = level_stretch(calc, tail, i_in, i_out, pass, zones, inflation_km);
                lemma_descent_bounds(
                    calc,
                    tail,
                    level[0],
                    zones,
                    own,
                    p.alt_m,
                    base,
                    i_in,
                    i_in,
                );
                lemma_climb_bounds(
                    calc,
                    tail,
                    level.last(),
                    zones,
                    own,
                    p.alt_m,
                    base,
                    i_out + 1,
                    i_out,
                );
                let i_desc = descent_anchor(
                    calc,
                    tail,
                    level[0],
                    zones,
                    own,
                    p.alt_m,
                    base,
                    i_in,
                    i_in,
                );
                let i_climb = climb_anchor(
                    calc,
                    tail,
                    level.last(),
                    zones,
                    own,
                    p.alt_m,
                    base,
                    i_out + 1,
                    i_out,
                );
                assert(more == cut_parts(tail, level, i_desc, i_climb, p.alt_m));
                lemma_cut_sound(tail, level, i_desc, i_climb, p.alt_m);
                let more_mask = seq![false, true, false, true, false];
                lemma_replace_keeps_sound(raw, parts, mask, more, more_mask);
                lemma_profiles_sound(
                    calc,
                    ground,
                    raw,
                    zones,
                    p,
                    start,
                    target,
                    inflation_km,
                    order,
                    k + 1,
                    parts.drop_last() + more,
                    mask.drop_last() + more_mask,
                );
            },
        }
    }
}

/// Cutting a route leaves no gap: the parts follow on each other from the first
/// to the last point of the raw route, there is one mark for each part, and a
/// part left unsmoothed is a single straight line. Where a wall is asked for,
/// the route is returned whole.
pub proof fn law_profiles_leave_no_gap<C: Fn(Calc) -> Scalar, T: Fn((Scalar, Scalar)) -> Sample>(
    calc: C,
    ground: Option<&T>,
    raw: Seq<PathPoint>,
    zones: Seq<Zone>,
    p: Performance,
    start: Geo,
    target: Geo,
    inflation_km: Scalar,
)
    requires
        raw.len() > 0,
    ensures
        ({
            let (parts, mask, need_wall) = restricted_profiles(
                calc,
                ground,
                raw,
                zones,
                p,
                start,
                target,
                inflation_km,
            );
            &&& joined(parts)
            &&& straight_where(parts, mask)
            &&& parts[0][0] == raw[0]
            &&& parts.last().last() == raw.last()
            &&& need_wall ==> parts == seq![raw] && mask == seq![false]
        }),
{
    let one = seq![raw];
    let flat = seq![false];
    assert(one[0] == raw && one.last() == raw);
    assert(sound_cut(raw, one, flat));
    if raw.len() >= 2 {
        let order = hit_order(calc, raw, zones, p.alt_m, zones.len() as int);
        lemma_profiles_sound(
            calc,
            ground,
            raw,
            zones,
            p,
            start,
            target,
            inflation_km,
            order,
            0,
            one,
            flat,
        );
        lemma_wall_leaves_whole(
            calc,
            ground,
            raw,
            zones,
            p,
            start,
            target,
            inflation_km,
            order,
            0,
            one,
            flat,
        );
    }
}

proof fn lemma_wall_leaves_whole<C: Fn(Calc) -> Scalar, T: Fn((Scalar, Scalar)) -> Sample>(
    calc: C,
    ground: Option<&T>,
    raw: Seq<PathPoint>,
    zones: Seq<Zone>,
    p: Performance,
    start: Geo,
    target: Geo,
    inflation_km: Scalar,
    order: Seq<usize>,
    k: int,
    parts: Seq<Seq<PathPoint>>,
    mask: Seq<bool>,
)
    ensures
        ({
            let r = profiles_from(
                calc,
                ground,
                raw,
                zones,
                p,
                start,
                target,
                inflation_km,
                order,
                k,
                parts,
                mask,
            );
            r.2 ==> r.0 == seq![raw] && r.1 == seq![false]
        }),
    decreases order.len() - k,
{
    if k < order.len() {
        match hit_outcome(
            calc,
            ground,
            raw,
            parts.last(),
            zones,
            order[k] as int,
            p,
            start,
            target,
            inflation_km,
        ) {
            HitOutcome::Skip => {
                lemma_wall_leaves_whole(
                    calc,
                    ground,
                    raw,
                    zones,
                    p,
                    start,
                    target,
                    inflation_km,
                    order,
                    k + 1,
                    parts,
                    mask,
                );
            },
            HitOutcome::NeedWall => {},
            HitOutcome::Straight(more) => {},
            HitOutcome::Cut(more) => {
                lemma_wall_leaves_whole(
                    calc,
                    ground,
                    raw,
                    zones,
                    p,
                    start,
                    target,
                    inflation_km,
                    order,
                    k + 1,
                    parts.drop_last() + more,
                    mask.drop_last() + seq![false, true, false, true, false],
                );
            },
        }
    }
}

/// Zone `a` comes before zone `b`: the route meets it first, or both at the
/// same leg and `a` stands first in the list.
pub open spec fn comes_before<C: Fn(Calc) -> Scalar>(
    calc: C,
    points: Seq<PathPoint>,
    zones: Seq<Zone>,
    a: usize,
    b: usize,
) -> bool {
    let (ra, rb) = (
        touch_rank(calc, points, zones[a as int]),
        touch_rank(calc, points, zones[b as int]),
    );
    ra < rb || (ra == rb && a < b)
}

spec fn in_route_order<C: Fn(Calc) -> Scalar>(
    calc: C,
    points: Seq<PathPoint>,
    zones: Seq<Zone>,
    order: Seq<usize>,
) -> bool {
    forall|a: int, b: int|
        0 <= a < b < order.len() ==> comes_before(
            calc,
            points,
            zones,
            #[trigger] order[a],
            #[trigger] order[b],
        )
}

proof fn lemma_insert_in_order<C: Fn(Calc) -> Scalar>(
    calc: C,
    points: Seq<PathPoint>,
    zones: Seq<Zone>,
    order: Seq<usize>,
    i: usize,
)
    requires
        in_route_order(calc, points, zones, order),
        forall|k: int| 0 <= k < order.len() ==> #[trigger] order[k] < i,
    ensures
        in_route_order(calc, points, zones, insert_by_rank(calc, points, zones, order, i)),
        forall|x: usize| #[trigger]
            insert_by_rank(calc, points, zones, order, i).contains(x) <==> (order.contains(x) || x
                == i),
    decreases order.len(),
{
    let all = insert_by_rank(calc, points, zones, order, i);
    let rank = touch_rank(calc, points, zones[i as int]);
    if order.len() == 0 {
        assert(all == seq![i]);
        assert(all[0] == i);
    } else if touch_rank(calc, points, zones[order.last() as int]) <= rank {
        assert(all == order.push(i));
        assert forall|a: int, b: int| 0 <= a < b < all.len() implies comes_before(
            calc,
            points,
            zones,
            #[trigger] all[a],
            #[trigger] all[b],
        ) by {
            if b == order.len() {
                if a < order.len() - 1 {
                    assert(comes_before(calc, points, zones, order[a], order[order.len() - 1]));
                }
            } else {
                assert(comes_before(calc, points, zones, order[a], order[b]));
            }
        }
        assert(all[order.len() as int] == i);
        assert forall|x: usize| #[trigger] all.contains(x) <==> (order.contains(x) || x == i) by {
            if order.contains(x) {
                let k = choose|k: int| 0 <= k < order.len() && order[k] == x;
                assert(all[k] == x);
            }
        }
    } else {
        let head = order.drop_last();
        lemma_insert_in_order(calc, points, zones, head, i);
        let inner = insert_by_rank(calc, points, zones, head, i);
        assert(all == inner.push(order.last()));
        assert forall|a: int, b: int| 0 <= a < b < all.len() implies comes_before(
            calc,
            points,
            zones,
            #[trigger] all[a],
            #[trigger] all[b],
        ) by {
            if b == inner.len() {
                assert(inner.contains(inner[a]));
                if inner[a] != i {
                    assert(head.contains(inner[a]));
                    let k = choose|k: int| 0 <= k < head.len() && head[k] == inner[a];
                    assert(comes_before(calc, points, zones, order[k], order[order.len() - 1]));
                }
            } else {
                assert(comes_before(calc, points, zones, inner[a], inner[b]));
            }
        }
        assert forall|x: usize| #[trigger] all.contains(x) <==> (order.contains(x) || x == i) by {
            if all.contains(x) {
                let k = choose|k: int| 0 <= k < all.len() && all[k] == x;
                if k < inner.len() {
                    assert(inner.contains(x));
                    if x != i {
                        let h = choose|h: int| 0 <= h < head.len() && head[h] == x;
                        assert(order[h] == x);
                    }
                } else {
                    assert(order[order.len() - 1] == x);
                }
            }
            if order.contains(x) || x == i {
                if x != i {
                    let k = choose|k: int| 0 <= k < order.len() && order[k] == x;
                    if k < head.len() {
                        assert(head[k] == x);
                        assert(inner.contains(x));
                        let h = choose|h: int| 0 <= h < inner.len() && inner[h] == x;
                        assert(all[h] == x);
                    } else {
                        assert(all[inner.len() as int] == x);
                    }
                } else {
                    assert(inner.contains(x));
                    let h = choose|h: int| 0 <= h < inner.len() && inner[h] == x;
                    assert(all[h] == x);
                }
            }
        }
    }
}

proof fn lemma_hit_order<C: Fn(Calc) -> Scalar>(
    calc: C,
    points: Seq<PathPoint>,
    zones: Seq<Zone>,
    alt_m: Scalar,
    k: int,
)
    requires
        0 <= k <= zones.len() <= usize::MAX,
    ensures
        in_route_order(calc, points, zones, hit_order(calc, points, zones, alt_m, k)),
        forall|x: usize| #[trigger]
            hit_order(calc, points, zones, alt_m, k).contains(x) <==> (x < k && is_hit(
                zones[x as int],
                alt_m,
            )),
    decreases k,
{
    if k > 0 {
        lemma_hit_order(calc, points, zones, alt_m, k - 1);
        let before = hit_order(calc, points, zones, alt_m, k - 1);
        if is_hit(zones[k - 1], alt_m) {
            assert forall|j: int| 0 <= j < before.len() implies #[trigger] before[j] < (k
                - 1) as usize by {
                assert(before.contains(before[j]));
            }
            lemma_insert_in_order(calc, points, zones, before, (k - 1) as usize);
            assert forall|x: usize| #[trigger]
                hit_order(calc, points, zones, alt_m, k).contains(x) <==> (x < k && is_hit(
                    zones[x as int],
                    alt_m,
                )) by {
                assert(before.contains(x) <==> (x < k - 1 && is_hit(zones[x as int], alt_m)));
            }
        }
    }
}

/// The zones are taken in the order in which the route meets them, ties in the
/// order of the list, and each round zone that forbids the height flown is
/// taken exactly once.
pub proof fn law_hits_in_route_order<C: Fn(Calc) -> Scalar>(
    calc: C,
    points: Seq<PathPoint>,
    zones: Seq<Zone>,
    alt_m: Scalar,
    a: int,
    b: int,
    x: usize,
)
    requires
        zones.len() <= usize::MAX,
    ensures
        ({
            let order = hit_order(calc, points, zones, alt_m, zones.len() as int);
            &&& 0 <= a < b < order.len() ==> comes_before(calc, points, zones, order[a], order[b])
            &&& order.contains(x) <==> (x < zones.len() && is_hit(zones[x as int], alt_m))
        }),
{
    lemma_hit_order(calc, points, zones, alt_m, zones.len() as int);
}

} // verus!
