//! A patch leads round the widened obstacle.

use crate::convex::{can_widen, enters_convex};
use crate::exact::{about, lemma_least, num, size};
use crate::geometry::Vertex;
use crate::numeric::whole;
use crate::oracle::Calc;
use crate::patch::{found_way, geom_eps, is_widened, PatchOutcome, Sights};
use crate::ring::{lemma_is, lemma_quotient, lemma_turn};
use crate::scalar::Scalar;
use crate::shortest::{edge, fair, goes_on, is_walk, law_found_way_is_clear};
use crate::values::lemma_num_whole;
use vstd::prelude::*;

verus! {

/// Whether a distance in degrees is one in metres, 111320 for each degree, but for a
/// micrometre.
pub open spec fn degrees_of(dist: Scalar, metres: Scalar) -> bool {
    metres.finite() && size(num(metres)) <= 1000000real ==> dist.finite() && about(
        111320real * num(dist),
        num(metres),
        1real / 1000000real,
    )
}

/// Metres over the metres in a degree are degrees.
pub proof fn lemma_degrees_of(metres: Scalar)
    ensures
        degrees_of(metres / whole(111_320), metres),
{
    if metres.finite() && size(num(metres)) <= 1000000real {
        lemma_least();
        lemma_num_whole(111_320);
        assert(num(whole(111_320)) == 111320real);
        lemma_is(crate::exact::far(), 1real);
        lemma_quotient(metres, whole(111_320), 1real);
        let q = num(metres / whole(111_320));
        lemma_turn(q, 111320real);
        lemma_is(111320real, q);
    }
}

/// A way round an obstacle leads from start to target over corners of the hull widened
/// by the distance asked for, and no leg of it enters the widened hull by more than
/// 2e-9. (No distance is negative.)
pub proof fn law_patch_leads_round<C: Fn(Calc) -> Scalar>(
    calc: C,
    start: Vertex,
    target: Vertex,
    hull: Seq<Vertex>,
    dist: Scalar,
    r: PatchOutcome,
) -> (wide: Seq<Vertex>)
    requires
        hull.len() >= 3,
        r.rounds(calc, start, target, hull, dist),
        r is Path,
        forall|g: Sights| #[trigger] fair(calc, g),
    ensures
        can_widen(hull, dist),
        geom_eps().finite() && num(geom_eps()) <= 2real / 1000000000real,
        is_widened(hull, dist, wide),
        r->Path_0@.len() > 0,
        r->Path_0@[0] == start,
        r->Path_0@.last() == target,
        forall|k: int|
            0 <= k < r->Path_0@.len() ==> ((#[trigger] r->Path_0@[k]) == start || r->Path_0@[k]
                == target || wide.contains(r->Path_0@[k])),
        forall|k: int|
            0 <= k < r->Path_0@.len() - 1 ==> #[trigger] stays_out(r->Path_0@, k, wide),
{
    let g = choose|g: Sights| #[trigger]
        r.goes(calc, g) && is_widened(hull, dist, g.obstacle@) && g.nodes@ == seq![start, target]
            + g.obstacle@;
    reveal(PatchOutcome::goes);
    crate::steep::lemma_billionth();
    assert(fair(calc, g));
    law_found_way_is_clear(calc, g);
    let way = (found_way(calc, g)->0).0;
    let (path, wide) = (r->Path_0@, g.obstacle@);
    assert(is_walk(calc, g, way));
    assert(path.len() == way.len());
    assert forall|k: int| 0 <= k < path.len() implies (#[trigger] path[k]) == start || path[k]
        == target || wide.contains(path[k]) by {
        let i = way[k];
        assert(path[k] == g.nodes@[i]);
        if i >= 2 {
            assert(g.nodes@[i] == wide[i - 2]);
        }
    }
    assert forall|k: int| 0 <= k < path.len() - 1 implies #[trigger] stays_out(
        path,
        k,
        wide,
    ) by {
        assert(goes_on(calc, g, way, k));
        assert(edge(calc, g, way[k], way[k + 1]) is Some);
        assert(path[k] == g.nodes@[way[k]] && path[k + 1] == g.nodes@[way[k + 1]]);
    }
    wide
}

/// Whether a leg does not enter a polygon.
pub open spec fn stays_out(path: Seq<Vertex>, k: int, wide: Seq<Vertex>) -> bool {
    !enters_convex(path[k], path[k + 1], wide, geom_eps()) || !enters_convex(
        path[k + 1],
        path[k],
        wide,
        geom_eps(),
    )
}

} // verus!
