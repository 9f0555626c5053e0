//! What the planner reads of the zones: the heights given for a wall, and the names of
//! zones, are not part of it.

use crate::chain::{
    chosen_stage, land_in_the_way, reference_route, stage_findings, stage_options, Staged,
};
use crate::config::{Zone, ZoneShape};
use crate::coord::Geo;
use crate::curves::between;
use crate::field::{cell_closed, col_of, in_closed_zone, row_of};
use crate::ground::{besides, closed_cells};
use crate::numeric::{frac, whole};
use crate::options::SmoothOptions;
use crate::oracle::Calc;
use crate::passage::{
    circle_span, clear_of_walls, line_meets_band, line_meets_band_of, line_meets_wall,
    pass_height, pushed, sample_fraction, Performance,
};
use crate::path::{sphere_distance_m, PathPoint};
use crate::profile::{
    at_height, change_fails, climb_anchor, climb_base_km, crossed_outcome, descent_anchor, first_touch,
    hit_order, hit_outcome, insert_by_rank, is_hit, last_touch, leg_touches, level_stretch,
    missed_outcome, over_other_hit, over_zone, place_or, profiles_from, restricted_profiles,
    HitOutcome,
};
use crate::region::{grid_cells, has_cornered_wall, Region};
use crate::scalar::Scalar;
use crate::segment::{leg_clear_of, leg_out_of_band, out_of_band};
use crate::terrain::Sample;
use crate::verify::{
    after_leg, after_legs, after_samples, all_finite, all_motion_issues, band_issue, band_issues,
    first_in_band, in_band, in_some_band, leg_pieces, place_issue, route_findings, wall_issues,
    Findings, VerifyContext,
};
use crate::zone::{clearance_km, forbids_height, holds};
use vstd::prelude::*;

verus! {

/// Whether two zones have the same outline.
pub open spec fn same_shape(s: ZoneShape, t: ZoneShape) -> bool {
    match (s, t) {
        (
            ZoneShape::Circle { center: a, radius_km: r },
            ZoneShape::Circle { center: b, radius_km: q },
        ) => a == b && r == q,
        (ZoneShape::Polygon { vertices: a }, ZoneShape::Polygon { vertices: b }) => a@ == b@,
        _ => false,
    }
}

/// Whether two zones forbid the same: a wall every height, whatever heights are
/// given for it.
pub open spec fn same_zone(z: Zone, w: Zone) -> bool {
    &&& z.zone_type == w.zone_type
    &&& same_shape(z.shape, w.shape)
    &&& z.wall() || (z.alt_min_m == w.alt_min_m && z.alt_max_m == w.alt_max_m)
}

/// Whether two lists of zones forbid the same.
pub open spec fn same_airspace(s: Seq<Zone>, t: Seq<Zone>) -> bool {
    s.len() == t.len() && forall|i: int|
        0 <= i < s.len() ==> same_zone(#[trigger] s[i], #[trigger] t[i])
}

proof fn lemma_same_outline<C: Fn(Calc) -> Scalar>(calc: C, z: Zone, w: Zone)
    requires
        same_zone(z, w),
    ensures
        z.wall() == w.wall(),
        forall|p: Geo| #[trigger] holds(calc, z, p) == holds(calc, w, p),
        forall|a: Scalar, b: Scalar, c: Scalar, d: Scalar| #[trigger]
            clearance_km(calc, a, b, c, d, z) == clearance_km(calc, a, b, c, d, w),
{
}

proof fn lemma_same_first_touch<C: Fn(Calc) -> Scalar>(
    calc: C,
    points: Seq<PathPoint>,
    z: Zone,
    w: Zone,
    i: int,
)
    requires
        same_zone(z, w),
    ensures
        first_touch(calc, points, z, i) == first_touch(calc, points, w, i),
    decreases points.len() - i,
{
    if i + 1 < points.len() {
        lemma_same_outline(calc, z, w);
        assert(leg_touches(calc, points, i, z) == leg_touches(calc, points, i, w));
        lemma_same_first_touch(calc, points, z, w, i + 1);
    }
}

proof fn lemma_same_last_touch<C: Fn(Calc) -> Scalar>(
    calc: C,
    points: Seq<PathPoint>,
    z: Zone,
    w: Zone,
    k: int,
)
    requires
        same_zone(z, w),
    ensures
        last_touch(calc, points, z, k) == last_touch(calc, points, w, k),
    decreases k,
{
    if k > 0 {
        lemma_same_outline(calc, z, w);
        assert(leg_touches(calc, points, k - 1, z) == leg_touches(calc, points, k - 1, w));
        lemma_same_last_touch(calc, points, z, w, k - 1);
    }
}

/// The grid is as fine for the one list as for the other.
pub proof fn lemma_same_grid(asked: int, region: Region, s: Seq<Zone>, t: Seq<Zone>)
    requires
        same_airspace(s, t),
    ensures
        grid_cells(asked, region, s) == grid_cells(asked, region, t),
{
    if has_cornered_wall(s) {
        let k = choose|k: int|
            0 <= k < s.len() && (#[trigger] s[k]).wall() && s[k].shape is Polygon;
        assert(same_zone(s[k], t[k]));
        assert(t[k].wall() && t[k].shape is Polygon);
    }
    if has_cornered_wall(t) {
        let k = choose|k: int|
            0 <= k < t.len() && (#[trigger] t[k]).wall() && t[k].shape is Polygon;
        assert(same_zone(s[k], t[k]));
        assert(s[k].wall() && s[k].shape is Polygon);
    }
}

proof fn lemma_same_closed<C: Fn(Calc) -> Scalar>(
    calc: C,
    s: Seq<Zone>,
    t: Seq<Zone>,
    closed: Seq<bool>,
    lon: Scalar,
    lat: Scalar,
)
    requires
        same_airspace(s, t),
    ensures
        in_closed_zone(calc, s, closed, lon, lat) == in_closed_zone(calc, t, closed, lon, lat),
{
    let p = Geo { lon, lat };
    assert forall|k: int| 0 <= k < s.len() implies #[trigger] holds(calc, s[k], p) == holds(
        calc,
        t[k],
        p,
    ) by {
        assert(same_zone(s[k], t[k]));
        lemma_same_outline(calc, s[k], t[k]);
    }
    if in_closed_zone(calc, s, closed, lon, lat) {
        let k = choose|k: int| 0 <= k < s.len() && closed[k] && holds(calc, #[trigger] s[k], p);
        assert(holds(calc, t[k], p));
    }
    if in_closed_zone(calc, t, closed, lon, lat) {
        let k = choose|k: int| 0 <= k < t.len() && closed[k] && holds(calc, #[trigger] t[k], p);
        assert(holds(calc, s[k], p));
    }
}

/// The walls close the same cells.
pub proof fn lemma_same_closed_cells<C: Fn(Calc) -> Scalar, T: Fn((Scalar, Scalar)) -> Sample>(
    calc: C,
    region: Region,
    grid: int,
    terrain: Option<&T>,
    s: Seq<Zone>,
    t: Seq<Zone>,
)
    requires
        same_airspace(s, t),
    ensures
        closed_cells(calc, region, grid, terrain, s) == closed_cells(
            calc,
            region,
            grid,
            terrain,
            t,
        ),
{
    let walls = s.map_values(|z: Zone| z.wall());
    assert forall|k: int| 0 <= k < s.len() implies (#[trigger] s[k]).wall() == t[k].wall() by {
        assert(same_zone(s[k], t[k]));
    }
    assert(walls =~= t.map_values(|z: Zone| z.wall()));
    assert forall|i: int| #[trigger]
        cell_closed(calc, region, grid, s, walls, i) == cell_closed(
            calc,
            region,
            grid,
            t,
            walls,
            i,
        ) by {
        let (lon, lat) = region.cell_center(row_of(i, grid), col_of(i, grid), grid);
        lemma_same_closed(calc, s, t, walls, lon, lat);
    }
    assert(closed_cells(calc, region, grid, terrain, s) =~= closed_cells(
        calc,
        region,
        grid,
        terrain,
        t,
    ));
}

/// The zones that are closed to a vehicle close the same cells.
pub proof fn lemma_same_besides<C: Fn(Calc) -> Scalar>(
    calc: C,
    region: Region,
    grid: int,
    s: Seq<Zone>,
    t: Seq<Zone>,
    closed: Seq<bool>,
    walls: Seq<bool>,
)
    requires
        same_airspace(s, t),
    ensures
        besides(calc, region, grid, s, closed, walls) == besides(
            calc,
            region,
            grid,
            t,
            closed,
            walls,
        ),
{
    assert forall|i: int| #[trigger]
        cell_closed(calc, region, grid, s, closed, i) == cell_closed(
            calc,
            region,
            grid,
            t,
            closed,
            i,
        ) by {
        let (lon, lat) = region.cell_center(row_of(i, grid), col_of(i, grid), grid);
        lemma_same_closed(calc, s, t, closed, lon, lat);
    }
    assert(besides(calc, region, grid, s, closed, walls) =~= besides(
        calc,
        region,
        grid,
        t,
        closed,
        walls,
    ));
}

/// A band that blocks a height is passed at the same height.
pub proof fn lemma_same_pass<C: Fn(Calc) -> Scalar, T: Fn((Scalar, Scalar)) -> Sample>(
    calc: C,
    ground: Option<&T>,
    z: Zone,
    w: Zone,
    p: Performance,
    start: Geo,
    target: Geo,
    raw: Seq<PathPoint>,
    band: Option<(int, int)>,
)
    requires
        same_zone(z, w),
        !z.wall(),
    ensures
        pass_height(calc, ground, z, p, start, target, raw, band) == pass_height(
            calc,
            ground,
            w,
            p,
            start,
            target,
            raw,
            band,
        ),
{
}

proof fn lemma_same_hit(z: Zone, w: Zone, alt_m: Scalar)
    requires
        same_zone(z, w),
    ensures
        is_hit(z, alt_m) == is_hit(w, alt_m),
        is_hit(z, alt_m) ==> !z.wall(),
{
}

proof fn lemma_same_insert<C: Fn(Calc) -> Scalar>(
    calc: C,
    points: Seq<PathPoint>,
    s: Seq<Zone>,
    t: Seq<Zone>,
    order: Seq<usize>,
    i: usize,
)
    requires
        same_airspace(s, t),
        i < s.len(),
        forall|j: int| 0 <= j < order.len() ==> #[trigger] order[j] < s.len(),
    ensures
        insert_by_rank(calc, points, s, order, i) == insert_by_rank(calc, points, t, order, i),
    decreases order.len(),
{
    if order.len() > 0 {
        let last = order.last() as int;
        assert(order[order.len() - 1] < s.len());
        assert(same_zone(s[last], t[last]));
        assert(same_zone(s[i as int], t[i as int]));
        lemma_same_first_touch(calc, points, s[last], t[last], 0);
        lemma_same_first_touch(calc, points, s[i as int], t[i as int], 0);
        lemma_same_insert(calc, points, s, t, order.drop_last(), i);
    }
}

/// What is put into an order by rank are the zones that were in it and the new one.
proof fn lemma_insert_holds<C: Fn(Calc) -> Scalar>(
    calc: C,
    points: Seq<PathPoint>,
    s: Seq<Zone>,
    alt_m: Scalar,
    order: Seq<usize>,
    i: usize,
)
    requires
        forall|j: int|
            0 <= j < order.len() ==> #[trigger] order[j] < s.len() && is_hit(
                s[order[j] as int],
                alt_m,
            ),
        i < s.len(),
        is_hit(s[i as int], alt_m),
    ensures
        ({
            let r = insert_by_rank(calc, points, s, order, i);
            forall|j: int|
                0 <= j < r.len() ==> #[trigger] r[j] < s.len() && is_hit(s[r[j] as int], alt_m)
        }),
    decreases order.len(),
{
    let r = insert_by_rank(calc, points, s, order, i);
    if order.len() > 0 {
        let less = order.drop_last();
        lemma_insert_holds(calc, points, s, alt_m, less, i);
        let before = insert_by_rank(calc, points, s, less, i);
        assert(order[order.len() - 1] == order.last());
        assert forall|j: int| 0 <= j < r.len() implies #[trigger] r[j] < s.len() && is_hit(
            s[r[j] as int],
            alt_m,
        ) by {
            if r == order.push(i) {
                if j < order.len() {
                    assert(r[j] == order[j]);
                }
            } else {
                assert(r == before.push(order.last()));
                if j < before.len() {
                    assert(r[j] == before[j]);
                }
            }
        }
    } else {
        assert(r =~= seq![i]);
    }
}

proof fn lemma_same_order<C: Fn(Calc) -> Scalar>(
    calc: C,
    points: Seq<PathPoint>,
    s: Seq<Zone>,
    t: Seq<Zone>,
    alt_m: Scalar,
    k: int,
)
    requires
        same_airspace(s, t),
        k <= s.len() <= usize::MAX,
    ensures
        hit_order(calc, points, s, alt_m, k) == hit_order(calc, points, t, alt_m, k),
        ({
            let r = hit_order(calc, points, s, alt_m, k);
            forall|j: int|
                0 <= j < r.len() ==> #[trigger] r[j] < s.len() && is_hit(s[r[j] as int], alt_m)
        }),
    decreases k,
{
    if k > 0 {
        lemma_same_order(calc, points, s, t, alt_m, k - 1);
        assert(same_zone(s[k - 1], t[k - 1]));
        lemma_same_hit(s[k - 1], t[k - 1], alt_m);
        if is_hit(s[k - 1], alt_m) {
            let before = hit_order(calc, points, s, alt_m, k - 1);
            lemma_same_insert(calc, points, s, t, before, (k - 1) as usize);
            lemma_insert_holds(calc, points, s, alt_m, before, (k - 1) as usize);
        }
    }
}

proof fn lemma_same_over_other<C: Fn(Calc) -> Scalar>(
    calc: C,
    p: PathPoint,
    s: Seq<Zone>,
    t: Seq<Zone>,
    own: int,
    alt_m: Scalar,
)
    requires
        same_airspace(s, t),
    ensures
        over_other_hit(calc, p, s, own, alt_m) == over_other_hit(calc, p, t, own, alt_m),
{
    assert forall|i: int| 0 <= i < s.len() implies #[trigger] is_hit(s[i], alt_m) == is_hit(
        t[i],
        alt_m,
    ) && over_zone(calc, p, s[i]) == over_zone(calc, p, t[i]) by {
        assert(same_zone(s[i], t[i]));
        lemma_same_hit(s[i], t[i], alt_m);
        lemma_same_outline(calc, s[i], t[i]);
    }
    if over_other_hit(calc, p, s, own, alt_m) {
        let i = choose|i: int|
            0 <= i < s.len() && i != own && is_hit(#[trigger] s[i], alt_m) && over_zone(
                calc,
                p,
                s[i],
            );
        assert(is_hit(t[i], alt_m) && over_zone(calc, p, t[i]));
    }
    if over_other_hit(calc, p, t, own, alt_m) {
        let i = choose|i: int|
            0 <= i < t.len() && i != own && is_hit(#[trigger] t[i], alt_m) && over_zone(
                calc,
                p,
                t[i],
            );
        assert(is_hit(s[i], alt_m) && over_zone(calc, p, s[i]));
    }
}

proof fn lemma_same_descent<C: Fn(Calc) -> Scalar>(
    calc: C,
    points: Seq<PathPoint>,
    edge: PathPoint,
    s: Seq<Zone>,
    t: Seq<Zone>,
    own: int,
    alt_m: Scalar,
    climb_km: Scalar,
    k: int,
    none: int,
)
    requires
        same_airspace(s, t),
    ensures
        descent_anchor(calc, points, edge, s, own, alt_m, climb_km, k, none) == descent_anchor(
            calc,
            points,
            edge,
            t,
            own,
            alt_m,
            climb_km,
            k,
            none,
        ),
    decreases k,
{
    if k > 0 {
        lemma_same_over_other(calc, points[k - 1], s, t, own, alt_m);
        lemma_same_descent(calc, points, edge, s, t, own, alt_m, climb_km, k - 1, none);
    }
}

proof fn lemma_same_climb<C: Fn(Calc) -> Scalar>(
    calc: C,
    points: Seq<PathPoint>,
    edge: PathPoint,
    s: Seq<Zone>,
    t: Seq<Zone>,
    own: int,
    alt_m: Scalar,
    climb_km: Scalar,
    k: int,
    none: int,
)
    requires
        same_airspace(s, t),
    ensures
        climb_anchor(calc, points, edge, s, own, alt_m, climb_km, k, none) == climb_anchor(
            calc,
            points,
            edge,
            t,
            own,
            alt_m,
            climb_km,
            k,
            none,
        ),
    decreases points.len() - k,
{
    if k < points.len() {
        lemma_same_over_other(calc, points[k], s, t, own, alt_m);
        lemma_same_climb(calc, points, edge, s, t, own, alt_m, climb_km, k + 1, none);
    }
}

proof fn lemma_same_pushed<C: Fn(Calc) -> Scalar>(
    calc: C,
    lon: Scalar,
    lat: Scalar,
    s: Seq<Zone>,
    t: Seq<Zone>,
    inflation_km: Scalar,
    margin_km: Scalar,
    k: int,
)
    requires
        same_airspace(s, t),
        k <= s.len(),
    ensures
        pushed(calc, lon, lat, s, inflation_km, margin_km, k) == pushed(
            calc,
            lon,
            lat,
            t,
            inflation_km,
            margin_km,
            k,
        ),
    decreases k,
{
    if k > 0 {
        lemma_same_pushed(calc, lon, lat, s, t, inflation_km, margin_km, k - 1);
        assert(same_zone(s[k - 1], t[k - 1]));
    }
}

proof fn lemma_same_level<C: Fn(Calc) -> Scalar>(
    calc: C,
    points: Seq<PathPoint>,
    from: int,
    to: int,
    pass: Scalar,
    s: Seq<Zone>,
    t: Seq<Zone>,
    inflation_km: Scalar,
)
    requires
        same_airspace(s, t),
    ensures
        level_stretch(calc, points, from, to, pass, s, inflation_km) == level_stretch(
            calc,
            points,
            from,
            to,
            pass,
            t,
            inflation_km,
        ),
{
    let one = level_stretch(calc, points, from, to, pass, s, inflation_km);
    let other = level_stretch(calc, points, from, to, pass, t, inflation_km);
    assert forall|i: int| 0 <= i < one.len() implies one[i] == other[i] by {
        lemma_same_pushed(
            calc,
            points[from + i].lon,
            points[from + i].lat,
            s,
            t,
            inflation_km,
            frac(5, 10),
            s.len() as int,
        );
    }
    assert(one =~= other);
}

proof fn lemma_same_line<C: Fn(Calc) -> Scalar>(
    calc: C,
    a: PathPoint,
    b: PathPoint,
    s: Seq<Zone>,
    t: Seq<Zone>,
    inflation_km: Scalar,
)
    requires
        same_airspace(s, t),
    ensures
        line_meets_wall(calc, a.lon, a.lat, b.lon, b.lat, s, inflation_km) == line_meets_wall(
            calc,
            a.lon,
            a.lat,
            b.lon,
            b.lat,
            t,
            inflation_km,
        ),
{
    assert forall|i: int| 0 <= i < s.len() implies (#[trigger] s[i]).wall() == t[i].wall()
        && clearance_km(calc, a.lon, a.lat, b.lon, b.lat, s[i]) == clearance_km(
        calc,
        a.lon,
        a.lat,
        b.lon,
        b.lat,
        t[i],
    ) by {
        assert(same_zone(s[i], t[i]));
        lemma_same_outline(calc, s[i], t[i]);
    }
    assert forall|i: int| 0 <= i < t.len() implies (#[trigger] t[i]).wall() == s[i].wall() by {
        assert(same_zone(s[i], t[i]));
    }
}

proof fn lemma_same_band_line<C: Fn(Calc) -> Scalar>(
    calc: C,
    a: PathPoint,
    b: PathPoint,
    s: Seq<Zone>,
    t: Seq<Zone>,
)
    requires
        same_airspace(s, t),
    ensures
        line_meets_band(calc, a, b, s) == line_meets_band(calc, a, b, t),
{
    assert forall|i: int| 0 <= i < s.len() implies #[trigger] line_meets_band_of(
        calc,
        a,
        b,
        s[i],
    ) == line_meets_band_of(calc, a, b, t[i]) by {
        assert(same_zone(s[i], t[i]));
        lemma_same_band_of(calc, a, b, s[i], t[i]);
    }
    if line_meets_band(calc, a, b, s) {
        let i = choose|i: int|
            0 <= i < s.len() && line_meets_band_of(calc, a, b, #[trigger] s[i]);
        assert(line_meets_band_of(calc, a, b, t[i]));
    }
    if line_meets_band(calc, a, b, t) {
        let i = choose|i: int|
            0 <= i < t.len() && line_meets_band_of(calc, a, b, #[trigger] t[i]);
        assert(line_meets_band_of(calc, a, b, s[i]));
    }
}

proof fn lemma_same_band_of<C: Fn(Calc) -> Scalar>(
    calc: C,
    a: PathPoint,
    b: PathPoint,
    z: Zone,
    w: Zone,
)
    requires
        same_zone(z, w),
    ensures
        line_meets_band_of(calc, a, b, z) == line_meets_band_of(calc, a, b, w),
{
    if !z.wall() {
        lemma_same_outline(calc, z, w);
        assert(forall|alt: Scalar| #[trigger] forbids_height(z, alt) == forbids_height(w, alt));
    }
}

proof fn lemma_same_missed<C: Fn(Calc) -> Scalar, T: Fn((Scalar, Scalar)) -> Sample>(
    calc: C,
    ground: Option<&T>,
    raw: Seq<PathPoint>,
    tail: Seq<PathPoint>,
    s: Seq<Zone>,
    t: Seq<Zone>,
    own: int,
    p: Performance,
    start: Geo,
    target: Geo,
    inflation_km: Scalar,
)
    requires
        same_airspace(s, t),
        0 <= own < s.len(),
        !s[own].wall(),
    ensures
        missed_outcome(calc, ground, raw, tail, s, s[own], p, start, target, inflation_km)
            == missed_outcome(calc, ground, raw, tail, t, t[own], p, start, target, inflation_km),
{
    assert(same_zone(s[own], t[own]));
    let (p0, p1) = (raw[0], raw.last());
    lemma_same_pass(
        calc,
        ground,
        s[own],
        t[own],
        p,
        place_or(p0, start),
        place_or(p1, target),
        tail,
        None,
    );
    lemma_same_line(calc, p0, p1, s, t, inflation_km);
}

proof fn lemma_same_change<C: Fn(Calc) -> Scalar>(
    calc: C,
    a: PathPoint,
    b: PathPoint,
    s: Seq<Zone>,
    t: Seq<Zone>,
    inflation_km: Scalar,
    base_km: Scalar,
)
    requires
        same_airspace(s, t),
    ensures
        change_fails(calc, a, b, s, inflation_km, base_km) == change_fails(
            calc,
            a,
            b,
            t,
            inflation_km,
            base_km,
        ),
{
    lemma_same_line(calc, a, b, s, t, inflation_km);
    lemma_same_band_line(calc, a, b, s, t);
}

proof fn lemma_same_crossed<C: Fn(Calc) -> Scalar, T: Fn((Scalar, Scalar)) -> Sample>(
    calc: C,
    ground: Option<&T>,
    tail: Seq<PathPoint>,
    s: Seq<Zone>,
    t: Seq<Zone>,
    own: int,
    p: Performance,
    start: Geo,
    target: Geo,
    inflation_km: Scalar,
    i_in: int,
    i_out: int,
)
    requires
        same_airspace(s, t),
        0 <= own < s.len(),
        !s[own].wall(),
    ensures
        crossed_outcome(calc, ground, tail, s, own, p, start, target, inflation_km, i_in, i_out)
            == crossed_outcome(
            calc,
            ground,
            tail,
            t,
            own,
            p,
            start,
            target,
            inflation_km,
            i_in,
            i_out,
        ),
{
    assert(same_zone(s[own], t[own]));
    let band = Some((i_in, i_out));
    lemma_same_pass(calc, ground, s[own], t[own], p, start, target, tail, band);
    if let Some(pass) = pass_height(calc, ground, s[own], p, start, target, tail, band) {
        let base = climb_base_km(calc, p, pass);
        lemma_same_level(calc, tail, i_in, i_out, pass, s, t, inflation_km);
        let level = level_stretch(calc, tail, i_in, i_out, pass, s, inflation_km);
        lemma_same_descent(calc, tail, level[0], s, t, own, p.alt_m, base, i_in, i_in);
        lemma_same_climb(calc, tail, level.last(), s, t, own, p.alt_m, base, i_out + 1, i_out);
        let i_desc = descent_anchor(calc, tail, level[0], s, own, p.alt_m, base, i_in, i_in);
        let i_climb = climb_anchor(
            calc,
            tail,
            level.last(),
            s,
            own,
            p.alt_m,
            base,
            i_out + 1,
            i_out,
        );
        lemma_same_change(
            calc,
            at_height(tail[i_desc], p.alt_m),
            level[0],
            s,
            t,
            inflation_km,
            base,
        );
        lemma_same_change(
            calc,
            level.last(),
            at_height(tail[i_climb], p.alt_m),
            s,
            t,
            inflation_km,
            base,
        );
    }
}

proof fn lemma_same_outcome<C: Fn(Calc) -> Scalar, T: Fn((Scalar, Scalar)) -> Sample>(
    calc: C,
    ground: Option<&T>,
    raw: Seq<PathPoint>,
    tail: Seq<PathPoint>,
    s: Seq<Zone>,
    t: Seq<Zone>,
    own: int,
    p: Performance,
    start: Geo,
    target: Geo,
    inflation_km: Scalar,
)
    requires
        same_airspace(s, t),
        0 <= own < s.len(),
        !s[own].wall(),
    ensures
        hit_outcome(calc, ground, raw, tail, s, own, p, start, target, inflation_km)
            == hit_outcome(calc, ground, raw, tail, t, own, p, start, target, inflation_km),
{
    assert(same_zone(s[own], t[own]));
    lemma_same_first_touch(calc, tail, s[own], t[own], 0);
    lemma_same_last_touch(calc, tail, s[own], t[own], tail.len() - 1);
    match first_touch(calc, tail, s[own], 0) {
        None => {
            lemma_same_missed(
                calc,
                ground,
                raw,
                tail,
                s,
                t,
                own,
                p,
                start,
                target,
                inflation_km,
            );
        },
        Some(i_in) => {
            lemma_same_crossed(
                calc,
                ground,
                tail,
                s,
                t,
                own,
                p,
                start,
                target,
                inflation_km,
                i_in,
                last_touch(calc, tail, s[own], tail.len() - 1)->0 + 1,
            );
        },
    }
}

proof fn lemma_same_profiles_from<C: Fn(Calc) -> Scalar, T: Fn((Scalar, Scalar)) -> Sample>(
    calc: C,
    ground: Option<&T>,
    raw: Seq<PathPoint>,
    s: Seq<Zone>,
    t: Seq<Zone>,
    p: Performance,
    start: Geo,
    target: Geo,
    inflation_km: Scalar,
    order: Seq<usize>,
    k: int,
    parts: Seq<Seq<PathPoint>>,
    mask: Seq<bool>,
)
    requires
        same_airspace(s, t),
        0 <= k,
        forall|j: int|
            0 <= j < order.len() ==> #[trigger] order[j] < s.len() && is_hit(
                s[order[j] as int],
                p.alt_m,
            ),
    ensures
        profiles_from(
            calc,
            ground,
            raw,
            s,
            p,
            start,
            target,
            inflation_km,
            order,
            k,
            parts,
            mask,
        ) == profiles_from(
            calc,
            ground,
            raw,
            t,
            p,
            start,
            target,
            inflation_km,
            order,
            k,
            parts,
            mask,
        ),
    decreases order.len() - k,
{
    if k < order.len() {
        let own = order[k] as int;
        assert(order[k] < s.len());
        let tail = parts.last();
        lemma_same_outcome(
            calc,
            ground,
            raw,
            tail,
            s,
            t,
            own,
            p,
            start,
            target,
            inflation_km,
        );
        match hit_outcome(calc, ground, raw, tail, s, own, p, start, target, inflation_km) {
            HitOutcome::Skip => {
                lemma_same_profiles_from(
                    calc,
                    ground,
                    raw,
                    s,
                    t,
                    p,
                    start,
                    target,
                    inflation_km,
                    order,
                    k + 1,
                    parts,
                    mask,
                );
            },
            HitOutcome::Cut(five) => {
                lemma_same_profiles_from(
                    calc,
                    ground,
                    raw,
                    s,
                    t,
                    p,
                    start,
                    target,
                    inflation_km,
                    order,
                    k + 1,
                    parts.drop_last() + five,
                    mask.drop_last() + seq![false, true, false, true, false],
                );
            },
            _ => {},
        }
    }
}

/// A raw route is cut into the same parts.
pub proof fn lemma_same_profiles<C: Fn(Calc) -> Scalar, T: Fn((Scalar, Scalar)) -> Sample>(
    calc: C,
    ground: Option<&T>,
    raw: Seq<PathPoint>,
    s: Seq<Zone>,
    t: Seq<Zone>,
    p: Performance,
    start: Geo,
    target: Geo,
    inflation_km: Scalar,
)
    requires
        same_airspace(s, t),
        s.len() <= usize::MAX,
    ensures
        restricted_profiles(calc, ground, raw, s, p, start, target, inflation_km)
            == restricted_profiles(calc, ground, raw, t, p, start, target, inflation_km),
{
    if raw.len() >= 2 {
        lemma_same_order(calc, raw, s, t, p.alt_m, s.len() as int);
        let order = hit_order(calc, raw, s, p.alt_m, s.len() as int);
        lemma_same_profiles_from(
            calc,
            ground,
            raw,
            s,
            t,
            p,
            start,
            target,
            inflation_km,
            order,
            0,
            seq![raw],
            seq![false],
        );
    }
}

/// A straight leg keeps clear of the one list exactly if it does of the other.
pub proof fn lemma_same_leg_clear_of<C: Fn(Calc) -> Scalar>(
    calc: C,
    inflation_km: Scalar,
    a: PathPoint,
    b: PathPoint,
    z: Zone,
    w: Zone,
)
    requires
        same_zone(z, w),
    ensures
        leg_clear_of(calc, inflation_km, a, b, z) == leg_clear_of(calc, inflation_km, a, b, w),
{
    lemma_same_outline(calc, z, w);
    assert(forall|p: PathPoint| #[trigger] in_band(calc, p, z) == in_band(calc, p, w));
    assert(leg_out_of_band(calc, a, b, z) == leg_out_of_band(calc, a, b, w));
    assert forall|t1: Scalar, t2: Scalar| #[trigger]
        out_of_band(calc, a, b, z, t1, t2) == out_of_band(calc, a, b, w, t1, t2) by {
        assert(forall|p: PathPoint| #[trigger] in_band(calc, p, z) == in_band(calc, p, w));
    }
}

/// A line is clear of the walls of the one list exactly if it is of the other's.
pub proof fn lemma_same_clear<C: Fn(Calc) -> Scalar>(
    calc: C,
    a: PathPoint,
    b: PathPoint,
    s: Seq<Zone>,
    t: Seq<Zone>,
    infl_m: Scalar,
)
    requires
        same_airspace(s, t),
    ensures
        clear_of_walls(calc, a.lon, a.lat, b.lon, b.lat, s, infl_m) == clear_of_walls(
            calc,
            a.lon,
            a.lat,
            b.lon,
            b.lat,
            t,
            infl_m,
        ),
{
    assert forall|i: int| 0 <= i < s.len() implies (#[trigger] s[i]).wall() == t[i].wall()
        && clearance_km(calc, a.lon, a.lat, b.lon, b.lat, s[i]) == clearance_km(
        calc,
        a.lon,
        a.lat,
        b.lon,
        b.lat,
        t[i],
    ) by {
        assert(same_zone(s[i], t[i]));
        lemma_same_outline(calc, s[i], t[i]);
    }
    assert forall|i: int| 0 <= i < t.len() implies (#[trigger] t[i]).wall() == s[i].wall() by {
        assert(same_zone(s[i], t[i]));
    }
}

proof fn lemma_same_wall_issues<C: Fn(Calc) -> Scalar>(
    calc: C,
    a: PathPoint,
    b: PathPoint,
    i: int,
    s: Seq<Zone>,
    t: Seq<Zone>,
    inflation_km: Scalar,
    k: int,
)
    requires
        same_airspace(s, t),
        k <= s.len(),
    ensures
        wall_issues(calc, a, b, i, s, inflation_km, k) == wall_issues(
            calc,
            a,
            b,
            i,
            t,
            inflation_km,
            k,
        ),
    decreases k,
{
    if k > 0 {
        lemma_same_wall_issues(calc, a, b, i, s, t, inflation_km, k - 1);
        assert(same_zone(s[k - 1], t[k - 1]));
        lemma_same_outline(calc, s[k - 1], t[k - 1]);
    }
}

proof fn lemma_same_first_in_band<C: Fn(Calc) -> Scalar>(
    calc: C,
    a: PathPoint,
    b: PathPoint,
    z: Zone,
    w: Zone,
    span: (Scalar, Scalar),
    k: int,
)
    requires
        same_zone(z, w),
    ensures
        first_in_band(calc, a, b, z, span, k) == first_in_band(calc, a, b, w, span, k),
    decreases 9 - k,
{
    if k <= 8 {
        lemma_same_outline(calc, z, w);
        let p = between(a, b, sample_fraction(span.0, span.1, k, 8));
        assert(in_band(calc, p, z) == in_band(calc, p, w));
        lemma_same_first_in_band(calc, a, b, z, w, span, k + 1);
    }
}

proof fn lemma_same_band_issues<C: Fn(Calc) -> Scalar>(
    calc: C,
    a: PathPoint,
    b: PathPoint,
    i: int,
    s: Seq<Zone>,
    t: Seq<Zone>,
    k: int,
)
    requires
        same_airspace(s, t),
        k <= s.len(),
    ensures
        band_issues(calc, a, b, i, s, k) == band_issues(calc, a, b, i, t, k),
    decreases k,
{
    if k > 0 {
        lemma_same_band_issues(calc, a, b, i, s, t, k - 1);
        let (z, w) = (s[k - 1], t[k - 1]);
        assert(same_zone(z, w));
        if let ZoneShape::Circle { center, radius_km } = z.shape {
            let span = circle_span(
                calc,
                a.lon,
                a.lat,
                b.lon,
                b.lat,
                center[0],
                center[1],
                radius_km,
            );
            if span is Some {
                lemma_same_first_in_band(calc, a, b, z, w, span->0, 0);
            }
        }
        assert(band_issue(calc, a, b, i, z) == band_issue(calc, a, b, i, w));
    }
}

proof fn lemma_same_some_band<C: Fn(Calc) -> Scalar>(
    calc: C,
    p: PathPoint,
    s: Seq<Zone>,
    t: Seq<Zone>,
)
    requires
        same_airspace(s, t),
    ensures
        in_some_band(calc, p, s) == in_some_band(calc, p, t),
{
    assert forall|k: int| 0 <= k < s.len() implies (#[trigger] s[k]).wall() == t[k].wall()
        && in_band(calc, p, s[k]) == in_band(calc, p, t[k]) by {
        assert(same_zone(s[k], t[k]));
        lemma_same_outline(calc, s[k], t[k]);
    }
    assert forall|k: int| 0 <= k < t.len() implies (#[trigger] t[k]).wall() == s[k].wall() by {
        assert(same_zone(s[k], t[k]));
    }
}

/// Whether two verifications look at the same world.
pub open spec fn same_context<
    T: Fn((Scalar, Scalar)) -> Sample,
    N: Fn((Scalar, Scalar)) -> bool,
>(c: VerifyContext<T, N>, d: VerifyContext<T, N>) -> bool {
    &&& c.terrain == d.terrain
    &&& c.nofly == d.nofly
    &&& c.zone_inflation_m == d.zone_inflation_m
    &&& match (c.zones, d.zones) {
        (Some(s), Some(t)) => same_airspace(s@, t@),
        (None, None) => true,
        _ => false,
    }
}

proof fn lemma_same_samples<
    C: Fn(Calc) -> Scalar,
    T: Fn((Scalar, Scalar)) -> Sample,
    N: Fn((Scalar, Scalar)) -> bool,
>(
    calc: C,
    c: VerifyContext<T, N>,
    d: VerifyContext<T, N>,
    opts: SmoothOptions,
    a: PathPoint,
    b: PathPoint,
    pieces: int,
    known: Findings,
    k: int,
)
    requires
        same_context(c, d),
    ensures
        after_samples(calc, c, opts, a, b, pieces, known, k) == after_samples(
            calc,
            d,
            opts,
            a,
            b,
            pieces,
            known,
            k,
        ),
    decreases k,
{
    if k > 0 {
        lemma_same_samples(calc, c, d, opts, a, b, pieces, known, k - 1);
        let p = between(a, b, whole(k - 1) / whole(pieces));
        if c.zones is Some {
            lemma_same_some_band(calc, p, c.zones->0@, d.zones->0@);
        }
        assert(place_issue(calc, c, p) == place_issue(calc, d, p));
    }
}

proof fn lemma_same_after_legs<
    C: Fn(Calc) -> Scalar,
    T: Fn((Scalar, Scalar)) -> Sample,
    N: Fn((Scalar, Scalar)) -> bool,
>(
    calc: C,
    c: VerifyContext<T, N>,
    d: VerifyContext<T, N>,
    opts: SmoothOptions,
    pts: Seq<PathPoint>,
    known: Findings,
    k: int,
)
    requires
        same_context(c, d),
    ensures
        after_legs(calc, c, opts, pts, known, k) == after_legs(calc, d, opts, pts, known, k),
    decreases k,
{
    if k > 1 {
        lemma_same_after_legs(calc, c, d, opts, pts, known, k - 1);
        let before = after_legs(calc, c, opts, pts, known, k - 1);
        let i = k - 1;
        let (a, b) = (pts[i - 1], pts[i]);
        let inflation_km = c.zone_inflation_m / whole(1000);
        let pieces = leg_pieces(sphere_distance_m(calc, a.lon, a.lat, b.lon, b.lat), opts);
        let crossed = if c.zones is Some {
            let (s, t) = (c.zones->0@, d.zones->0@);
            let n = s.len() as int;
            lemma_same_wall_issues(calc, a, b, i, s, t, inflation_km, n);
            lemma_same_band_issues(calc, a, b, i, s, t, n);
            before.issues + wall_issues(calc, a, b, i, s, inflation_km, n) + band_issues(
                calc,
                a,
                b,
                i,
                s,
                n,
            )
        } else {
            before.issues
        };
        let entry = Findings { issues: crossed, notes: before.notes };
        lemma_same_samples(calc, c, d, opts, a, b, pieces, entry, pieces + 1);
        assert(after_leg(calc, c, opts, pts, i, before) == after_leg(
            calc,
            d,
            opts,
            pts,
            i,
            before,
        ));
    }
}

/// Verification finds the same.
pub proof fn lemma_same_findings<
    C: Fn(Calc) -> Scalar,
    T: Fn((Scalar, Scalar)) -> Sample,
    N: Fn((Scalar, Scalar)) -> bool,
>(
    calc: C,
    c: VerifyContext<T, N>,
    d: VerifyContext<T, N>,
    opts: SmoothOptions,
    pts: Seq<PathPoint>,
    reference: Option<Seq<PathPoint>>,
    phys_min_radius_m: Option<Scalar>,
)
    requires
        same_context(c, d),
    ensures
        route_findings(calc, c, opts, pts, reference, phys_min_radius_m) == route_findings(
            calc,
            d,
            opts,
            pts,
            reference,
            phys_min_radius_m,
        ),
{
    if pts.len() >= 2 && all_finite(pts) {
        let motion = Findings {
            issues: all_motion_issues(calc, pts, opts, pts.len() as int),
            notes: Seq::empty(),
        };
        lemma_same_after_legs(calc, c, d, opts, pts, motion, pts.len() as int);
    }
}

/// The same stage is delivered, and the same land is in the way.
pub proof fn lemma_same_choice<
    C: Fn(Calc) -> Scalar,
    T: Fn((Scalar, Scalar)) -> Sample,
    N: Fn((Scalar, Scalar)) -> bool,
>(
    calc: C,
    c: VerifyContext<T, N>,
    d: VerifyContext<T, N>,
    opts: SmoothOptions,
    st: Seq<Staged>,
    phys_m: Option<Scalar>,
    k: int,
)
    requires
        same_context(c, d),
    ensures
        chosen_stage(calc, c, opts, st, phys_m, k) == chosen_stage(calc, d, opts, st, phys_m, k),
        land_in_the_way(calc, c, opts, st, phys_m, k) == land_in_the_way(
            calc,
            d,
            opts,
            st,
            phys_m,
            k,
        ),
    decreases st.len() - k,
{
    if k < st.len() {
        lemma_same_choice(calc, c, d, opts, st, phys_m, k + 1);
        lemma_same_stage_findings(calc, c, d, opts, st, phys_m, k);
    }
}

/// Verification of a stage of a chain finds the same.
pub proof fn lemma_same_stage_findings<
    C: Fn(Calc) -> Scalar,
    T: Fn((Scalar, Scalar)) -> Sample,
    N: Fn((Scalar, Scalar)) -> bool,
>(
    calc: C,
    c: VerifyContext<T, N>,
    d: VerifyContext<T, N>,
    opts: SmoothOptions,
    st: Seq<Staged>,
    phys_m: Option<Scalar>,
    i: int,
)
    requires
        same_context(c, d),
    ensures
        stage_findings(calc, c, opts, st, phys_m, i) == stage_findings(
            calc,
            d,
            opts,
            st,
            phys_m,
            i,
        ),
{
    lemma_same_findings(
        calc,
        c,
        d,
        stage_options(st[i].0, opts),
        st[i].1,
        Some(reference_route(st, st.len() as int)),
        phys_m,
    );
}

} // verus!
