//! The way that a search round an obstacle finds is a shortest one.

use crate::numeric::whole;
use crate::oracle::Calc;
use crate::order::{
    law_sum_keeps_order, law_sum_not_below, lemma_sum_nan, lemma_sum_unsigned, lemma_whole_zero,
};
use crate::patch::{found_way, seen_at, Frontier, Sights};
use crate::scalar::{lemma_magnitude_monotone, lemma_value_order, Scalar};
use vstd::prelude::*;

verus! {

/// The distance between two places that see each other; none where they do not,
/// or where the distance is not a number.
pub open spec fn edge<C: Fn(Calc) -> Scalar>(calc: C, g: Sights, i: int, j: int) -> Option<Scalar> {
    match seen_at(calc, g, i, j) {
        None => None,
        Some(w) => if w.nan() {
            None
        } else {
            Some(w)
        },
    }
}

/// No distance is negative.
pub open spec fn fair<C: Fn(Calc) -> Scalar>(calc: C, g: Sights) -> bool {
    forall|i: int, j: int|
        0 <= i < g.nodes@.len() && 0 <= j < g.nodes@.len() && (#[trigger] edge(calc, g, i, j)) is Some
            ==> edge(calc, g, i, j)->0.at_least_zero()
}

/// Whether places, one after the other, lead from the start along lines of sight.
pub open spec fn is_walk<C: Fn(Calc) -> Scalar>(calc: C, g: Sights, q: Seq<int>) -> bool {
    &&& q.len() > 0
    &&& q[0] == 0
    &&& forall|k: int| 0 <= k < q.len() ==> 0 <= #[trigger] q[k] < g.nodes@.len()
    &&& forall|k: int| 0 <= k < q.len() - 1 ==> #[trigger] goes_on(calc, g, q, k)
}

/// Whether the place behind number `k` of a walk is seen from it.
pub open spec fn goes_on<C: Fn(Calc) -> Scalar>(calc: C, g: Sights, q: Seq<int>, k: int) -> bool {
    edge(calc, g, q[k], q[k + 1]) is Some
}

/// Length of a walk in kilometres.
pub open spec fn walk_km<C: Fn(Calc) -> Scalar>(calc: C, g: Sights, q: Seq<int>) -> Scalar
    decreases q.len(),
{
    if q.len() <= 1 {
        whole(0)
    } else {
        walk_km(calc, g, q.drop_last()) + edge(calc, g, q[q.len() - 2], q.last())->0
    }
}

/// Whether a place was reached from one that was gone on from before.
spec fn reached<C: Fn(Calc) -> Scalar>(calc: C, g: Sights, f: Frontier, v: int) -> bool {
    let u = f.prev[v]->0;
    &&& f.prev[v] is Some
    &&& 0 <= u < g.nodes@.len()
    &&& f.done.contains(u)
    &&& edge(calc, g, u, v) is Some
    &&& f.dist[v] == f.dist[u] + edge(calc, g, u, v)->0
}

/// Whether the place before number `i` of those gone on from was gone on from
/// earlier.
spec fn earlier(f: Frontier, i: int) -> bool {
    f.done[i] == 0 || exists|j: int| 0 <= j < i && f.prev[f.done[i]] == Some(#[trigger] f.done[j])
}

/// Whether no shorter way is left to `v` by way of `u`.
spec fn relaxed<C: Fn(Calc) -> Scalar>(calc: C, g: Sights, f: Frontier, u: int, v: int) -> bool {
    edge(calc, g, u, v) is Some ==> f.dist[v] <= f.dist[u] + edge(calc, g, u, v)->0
}

/// A distance that is a number and has no sign.
spec fn plain(d: Scalar) -> bool {
    !d.nan() && !d.negative()
}

/// What holds of a search all the time.
spec fn sound<C: Fn(Calc) -> Scalar>(calc: C, g: Sights, f: Frontier) -> bool {
    let n = g.nodes@.len();
    &&& f.dist.len() == n && f.prev.len() == n && f.open.len() == n
    &&& n >= 2
    &&& forall|v: int| 0 <= v < n ==> plain(#[trigger] f.dist[v])
    &&& f.dist[0] == whole(0)
    &&& f.prev[0] is None
    &&& f.done.no_duplicates()
    &&& forall|i: int|
        0 <= i < f.done.len() ==> 0 <= #[trigger] f.done[i] < n && !f.dist[f.done[i]].infinite()
    &&& forall|v: int|
        0 <= v < n ==> #[trigger] f.open[v] == (!f.dist[v].infinite() && !f.done.contains(v))
    &&& forall|v: int|
        0 < v < n && !(#[trigger] f.dist[v]).infinite() ==> reached(calc, g, f, v)
    &&& forall|i: int| 0 <= i < f.done.len() ==> #[trigger] earlier(f, i)
    &&& forall|u: int, v: int|
        0 <= v < n && f.done.contains(u) && u != 1 ==> #[trigger] relaxed(calc, g, f, u, v)
    &&& forall|u: int, v: int|
        0 <= v < n && #[trigger] f.done.contains(u) && !f.done.contains(v) ==> f.dist[u]
            <= #[trigger] f.dist[v]
}

proof fn lemma_begin_sound<C: Fn(Calc) -> Scalar>(calc: C, g: Sights)
    requires
        g.nodes@.len() >= 2,
    ensures
        sound(calc, g, Frontier::begin(g.nodes@.len())),
{
    lemma_whole_zero();
}

proof fn lemma_closest(f: Frontier, k: int)
    requires
        0 <= k <= f.dist.len(),
    ensures
        match f.closest(k) {
            None => forall|v: int| 0 <= v < k ==> !#[trigger] f.open[v],
            Some(id) => {
                &&& 0 <= id < k
                &&& f.open[id]
                &&& forall|v: int|
                    0 <= v < k && #[trigger] f.open[v] ==> f.dist[id].rank() <= f.dist[v].rank()
            },
        },
    decreases k,
{
    if k > 0 {
        lemma_closest(f, k - 1);
    }
}

proof fn lemma_looked<C: Fn(Calc) -> Scalar>(calc: C, g: Sights, f: Frontier, id: int, k: int)
    requires
        0 <= k <= f.dist.len(),
        f.prev.len() == f.dist.len(),
        f.open.len() == f.dist.len(),
    ensures
        ({
            let r = f.looked(calc, g, id, k);
            &&& r.dist.len() == f.dist.len()
            &&& r.prev.len() == f.dist.len()
            &&& r.open.len() == f.dist.len()
            &&& r.done == f.done
            &&& forall|v: int| 0 <= v < f.dist.len() ==> #[trigger] looked_at(calc, g, f, r, id, k, v)
        }),
    decreases k,
{
    if k > 0 {
        lemma_looked(calc, g, f, id, k - 1);
        let b = f.looked(calc, g, id, k - 1);
        let r = f.looked(calc, g, id, k);
        assert forall|v: int| 0 <= v < f.dist.len() implies #[trigger] looked_at(
            calc,
            g,
            f,
            r,
            id,
            k,
            v,
        ) by {
            assert(looked_at(calc, g, f, b, id, k - 1, v));
        }
    }
}

/// What looking from place `id` at the first `k` places makes of place `v`.
spec fn looked_at<C: Fn(Calc) -> Scalar>(
    calc: C,
    g: Sights,
    f: Frontier,
    r: Frontier,
    id: int,
    k: int,
    v: int,
) -> bool {
    let w = seen_at(calc, g, id, v);
    if v < k && w is Some && f.dist[id] + w->0 < f.dist[v] {
        r.dist[v] == f.dist[id] + w->0 && r.prev[v] == Some(id) && r.open[v]
    } else {
        r.dist[v] == f.dist[v] && r.prev[v] == f.prev[v] && r.open[v] == f.open[v]
    }
}

/// Whether looking from `id` finds a shorter way to `v`.
spec fn shortens<C: Fn(Calc) -> Scalar>(calc: C, g: Sights, f: Frontier, id: int, v: int) -> bool {
    let w = seen_at(calc, g, id, v);
    w is Some && f.dist[id] + w->0 < f.dist[v]
}

/// Where a shorter way is found, it is by an edge, and the place was not gone on
/// from.
proof fn lemma_shortens<C: Fn(Calc) -> Scalar>(calc: C, g: Sights, f: Frontier, id: int, v: int)
    requires
        sound(calc, g, f),
        fair(calc, g),
        f.open[id],
        0 <= id < g.nodes@.len(),
        0 <= v < g.nodes@.len(),
        shortens(calc, g, f, id, v),
    ensures
        edge(calc, g, id, v) is Some,
        seen_at(calc, g, id, v) == edge(calc, g, id, v),
        !f.done.contains(v),
        v != id,
        v != 0,
        plain(f.dist[id] + edge(calc, g, id, v)->0),
        !(f.dist[id] + edge(calc, g, id, v)->0).infinite(),
        f.dist[id] <= f.dist[id] + edge(calc, g, id, v)->0,
{
    let w = seen_at(calc, g, id, v)->0;
    let d = f.dist[id];
    assert(plain(d));
    lemma_plain_value(d);
    if w.nan() {
        lemma_sum_nan(d, w);
    }
    assert(edge(calc, g, id, v) == Some(w));
    law_sum_not_below(d, w);
    lemma_sum_unsigned(d, w);
    assert(plain(f.dist[v]));
    if f.done.contains(v) {
        assert(f.dist[v] <= d);
    }
    if v == 0 {
        lemma_whole_zero();
    }
    lemma_below_something_is_finite(d + w, f.dist[v]);
}

proof fn lemma_plain_value(d: Scalar)
    requires
        plain(d),
    ensures
        d.at_least_zero(),
{
    if d.magnitude_bits() > 0 {
        lemma_magnitude_monotone(0, d.magnitude_bits());
    }
}

proof fn lemma_below_something_is_finite(a: Scalar, b: Scalar)
    requires
        plain(a),
        plain(b),
        a < b,
    ensures
        !a.infinite(),
{
    lemma_value_order(a, b);
}

/// The closest open place is no farther than any place that was not gone on from.
proof fn lemma_closest_is_least<C: Fn(Calc) -> Scalar>(calc: C, g: Sights, f: Frontier, id: int, v: int)
    requires
        sound(calc, g, f),
        f.closest(g.nodes@.len() as int) == Some(id),
        0 <= v < g.nodes@.len(),
        !f.done.contains(v),
    ensures
        0 <= id < g.nodes@.len(),
        f.open[id],
        f.dist[id] <= f.dist[v],
{
    lemma_closest(f, g.nodes@.len() as int);
    let (a, b) = (f.dist[id], f.dist[v]);
    assert(plain(a));
    assert(plain(b));
    lemma_value_order(b, a);
    if !f.open[v] {
        assert(b.infinite());
    } else {
        assert(a.rank() <= b.rank());
    }
}

proof fn lemma_close_sound<C: Fn(Calc) -> Scalar>(calc: C, g: Sights, f: Frontier, id: int, r: Frontier)
    requires
        sound(calc, g, f),
        fair(calc, g),
        f.closest(g.nodes@.len() as int) == Some(id),
        r.dist.len() == f.dist.len(),
        r.prev.len() == f.dist.len(),
        r.open.len() == f.dist.len(),
        r.done == f.done.push(id),
        id == 1 ==> r.dist == f.dist && r.prev == f.prev && r.open == f.open.update(id, false),
        id != 1 ==> forall|v: int|
            0 <= v < f.dist.len() ==> #[trigger] looked_at(
                calc,
                g,
                f.closing(id),
                r,
                id,
                f.dist.len() as int,
                v,
            ),
    ensures
        sound(calc, g, r),
{
    let n = g.nodes@.len() as int;
    lemma_closest(f, n);
    let c = f.closing(id);
    assert(f.done.push(id).last() == id);
    assert forall|u: int| #[trigger] r.done.contains(u) implies f.done.contains(u) || u == id by {
        let i = choose|i: int| 0 <= i < r.done.len() && r.done[i] == u;
        if i < f.done.len() {
            assert(f.done[i] == u);
        }
    }
    assert forall|u: int| f.done.contains(u) implies #[trigger] r.done.contains(u) by {
        let i = choose|i: int| 0 <= i < f.done.len() && f.done[i] == u;
        assert(r.done[i] == u);
    }
    assert(r.done[f.done.len() as int] == id);
    assert(r.done.contains(id));
    // What changes, and what stays.
    assert forall|v: int| 0 <= v < n implies #[trigger] changed(calc, g, f, r, id, v) by {
        if id != 1 {
            assert(looked_at(calc, g, c, r, id, n, v));
            if shortens(calc, g, f, id, v) {
                lemma_shortens(calc, g, f, id, v);
            }
        }
    }
    assert(changed(calc, g, f, r, id, 0));
    if shortens(calc, g, f, id, 0) {
        lemma_shortens(calc, g, f, id, 0);
    }
    assert forall|v: int| 0 <= v < n implies plain(#[trigger] r.dist[v]) by {
        assert(changed(calc, g, f, r, id, v));
        assert(plain(f.dist[v]));
    }
    assert forall|i: int| 0 <= i < r.done.len() implies 0 <= #[trigger] r.done[i] < n
        && !r.dist[r.done[i]].infinite() by {
        let u = r.done[i];
        if i < f.done.len() {
            assert(f.done[i] == u);
            assert(f.done.contains(u));
        }
        assert(changed(calc, g, f, r, id, u));
        assert(f.open[id]);
    }
    assert forall|v: int| 0 <= v < n implies #[trigger] r.open[v] == (!r.dist[v].infinite()
        && !r.done.contains(v)) by {
        assert(changed(calc, g, f, r, id, v));
        assert(f.open[v] == (!f.dist[v].infinite() && !f.done.contains(v)));
    }
    assert forall|v: int| 0 < v < n && !(#[trigger] r.dist[v]).infinite() implies reached(
        calc,
        g,
        r,
        v,
    ) by {
        assert(changed(calc, g, f, r, id, v));
        if r.prev[v] == Some(id) && r.dist[v] != f.dist[v] {
            assert(changed(calc, g, f, r, id, id));
        } else if !(f.dist[v].infinite()) {
            assert(reached(calc, g, f, v));
            let u = f.prev[v]->0;
            assert(changed(calc, g, f, r, id, u));
        }
    }
    assert forall|i: int| 0 <= i < r.done.len() implies #[trigger] earlier(r, i) by {
        let v = r.done[i];
        if i < f.done.len() {
            assert(earlier(f, i));
            assert(f.done[i] == v);
            assert(f.done.contains(v));
            assert(changed(calc, g, f, r, id, v));
            if v != 0 {
                let j = choose|j: int| 0 <= j < i && f.prev[f.done[i]] == Some(#[trigger] f.done[j]);
                assert(r.done[j] == f.done[j]);
            }
        } else if v != 0 {
            assert(v == id);
            assert(changed(calc, g, f, r, id, id));
            assert(f.open[id]);
            assert(!(f.dist[id].infinite()));
            assert(reached(calc, g, f, id));
            let u = f.prev[id]->0;
            let j = choose|j: int| 0 <= j < f.done.len() && f.done[j] == u;
            assert(r.done[j] == u);
        }
    }
    assert forall|u: int, v: int| 0 <= v < n && r.done.contains(u) && u != 1 implies #[trigger] relaxed(
        calc,
        g,
        r,
        u,
        v,
    ) by {
        lemma_relaxed_stays(calc, g, f, id, r, u, v);
    }
    assert forall|u: int, v: int|
        0 <= v < n && #[trigger] r.done.contains(u) && !r.done.contains(v) implies r.dist[u]
        <= #[trigger] r.dist[v] by {
        assert(changed(calc, g, f, r, id, u));
        assert(changed(calc, g, f, r, id, v));
        lemma_closest_is_least(calc, g, f, id, v);
        if f.done.contains(u) {
            assert(f.dist[u] <= f.dist[v]);
            assert(f.dist[u] <= f.dist[id]);
        }
    }
    assert(r.done.no_duplicates()) by {
        assert(!f.done.contains(id));
        assert forall|i: int, j: int|
            0 <= i < r.done.len() && 0 <= j < r.done.len() && i != j implies r.done[i]
            != r.done[j] by {
            if i < f.done.len() && j < f.done.len() {
                assert(f.done[i] != f.done[j]);
            } else if i < f.done.len() {
                assert(f.done[i] == r.done[i]);
                assert(f.done.contains(f.done[i]));
            } else if j < f.done.len() {
                assert(f.done[j] == r.done[j]);
                assert(f.done.contains(f.done[j]));
            }
        }
    }
}

/// What going on from place `id` makes of place `v`: a shorter way if there is
/// one, but for places gone on from.
spec fn changed<C: Fn(Calc) -> Scalar>(
    calc: C,
    g: Sights,
    f: Frontier,
    r: Frontier,
    id: int,
    v: int,
) -> bool {
    if id != 1 && shortens(calc, g, f, id, v) {
        &&& r.dist[v] == f.dist[id] + edge(calc, g, id, v)->0
        &&& r.prev[v] == Some(id)
        &&& r.open[v]
        &&& edge(calc, g, id, v) is Some
        &&& !f.done.contains(v)
        &&& v != id
        &&& v != 0
        &&& plain(r.dist[v])
        &&& !r.dist[v].infinite()
        &&& f.dist[id] <= r.dist[v]
        &&& r.dist[v] < f.dist[v]
    } else {
        &&& r.dist[v] == f.dist[v]
        &&& r.prev[v] == f.prev[v]
        &&& r.open[v] == (f.open[v] && v != id)
    }
}

proof fn lemma_relaxed_stays<C: Fn(Calc) -> Scalar>(
    calc: C,
    g: Sights,
    f: Frontier,
    id: int,
    r: Frontier,
    u: int,
    v: int,
)
    requires
        sound(calc, g, f),
        fair(calc, g),
        0 <= v < g.nodes@.len(),
        0 <= id < g.nodes@.len(),
        f.open[id],
        u != 1,
        f.done.contains(u) || u == id,
        forall|x: int|
            0 <= x < g.nodes@.len() ==> #[trigger] changed(calc, g, f, r, id, x),
    ensures
        relaxed(calc, g, r, u, v),
{
    if edge(calc, g, u, v) is Some {
        let w = edge(calc, g, u, v)->0;
        if f.done.contains(u) {
            let i = choose|i: int| 0 <= i < f.done.len() && f.done[i] == u;
            assert(0 <= f.done[i] < g.nodes@.len());
        }
        assert(changed(calc, g, f, r, id, u));
        assert(changed(calc, g, f, r, id, v));
        assert(plain(f.dist[u]));
        lemma_plain_value(f.dist[u]);
        law_sum_not_below(f.dist[u], w);
        assert(plain(f.dist[v]));
        if u == id {
            assert(!f.done.contains(id));
            assert(!shortens(calc, g, f, id, id));
        } else {
            assert(relaxed(calc, g, f, u, v));
        }
    }
}

/// Numbers below a bound, none of them twice, are not more than the bound.
proof fn lemma_few_below(s: Seq<int>, n: nat)
    requires
        s.no_duplicates(),
        forall|i: int| 0 <= i < s.len() ==> 0 <= #[trigger] s[i] < n,
    ensures
        s.len() <= n,
{
    let range = vstd::set_lib::set_int_range(0, n as int);
    vstd::set_lib::lemma_int_range(0, n as int);
    s.unique_seq_to_set();
    assert(s.to_set().subset_of(range));
    vstd::set_lib::lemma_len_subset(s.to_set(), range);
}

proof fn lemma_finished<C: Fn(Calc) -> Scalar>(calc: C, g: Sights, f: Frontier, left: nat)
    requires
        sound(calc, g, f),
        fair(calc, g),
        f.done.len() + left >= g.nodes@.len(),
        !f.done.contains(1),
    ensures
        ({
            let e = f.finished(calc, g, left);
            &&& sound(calc, g, e)
            &&& e.done.contains(1) || forall|v: int|
                0 <= v < g.nodes@.len() ==> !#[trigger] e.open[v]
        }),
    decreases left,
{
    let n = g.nodes@.len() as int;
    lemma_closest(f, n);
    match f.closest(n) {
        None => {},
        Some(id) => {
            assert(f.open[id]);
            assert(!f.done.contains(id));
            lemma_one_more(f.done, id, n as nat);
            assert(left > 0);
            let c = f.closing(id);
            if id == 1 {
                lemma_close_sound(calc, g, f, id, c);
                assert(c.done[f.done.len() as int] == 1);
            } else {
                let r = c.looked(calc, g, id, n);
                lemma_looked(calc, g, c, id, n);
                lemma_close_sound(calc, g, f, id, r);
                assert(!r.done.contains(1)) by {
                    if r.done.contains(1) {
                        let i = choose|i: int| 0 <= i < r.done.len() && r.done[i] == 1;
                        if i < f.done.len() {
                            assert(f.done[i] == 1);
                        }
                    }
                }
                lemma_finished(calc, g, r, (left - 1) as nat);
            }
        },
    }
}

/// Numbers below a bound, none of them twice, without one of them are fewer than
/// the bound.
proof fn lemma_one_more(s: Seq<int>, x: int, n: nat)
    requires
        s.no_duplicates(),
        forall|i: int| 0 <= i < s.len() ==> 0 <= #[trigger] s[i] < n,
        0 <= x < n,
        !s.contains(x),
    ensures
        s.len() < n,
{
    let t = s.push(x);
    assert(t.no_duplicates()) by {
        assert forall|i: int, j: int| 0 <= i < t.len() && 0 <= j < t.len() && i != j implies t[i]
            != t[j] by {
            if i < s.len() && j < s.len() {
                assert(s[i] != s[j]);
            } else if i < s.len() {
                assert(s.contains(s[i]));
            } else if j < s.len() {
                assert(s.contains(s[j]));
            }
        }
    }
    assert forall|i: int| 0 <= i < t.len() implies 0 <= #[trigger] t[i] < n by {
        if i < s.len() {
            assert(t[i] == s[i]);
        }
    }
    lemma_few_below(t, n);
}

/// The search is at its end: the target was gone on from, or no place is open.
spec fn ended<C: Fn(Calc) -> Scalar>(calc: C, g: Sights, e: Frontier) -> bool {
    &&& sound(calc, g, e)
    &&& e.done.contains(1) || forall|v: int| 0 <= v < g.nodes@.len() ==> !#[trigger] e.open[v]
}

/// Along any walk, each place is at most as far as the walk up to it, or the
/// target is.
proof fn lemma_walk_bounds<C: Fn(Calc) -> Scalar>(calc: C, g: Sights, e: Frontier, q: Seq<int>)
    requires
        ended(calc, g, e),
        fair(calc, g),
        is_walk(calc, g, q),
    ensures
        walk_km(calc, g, q).at_least_zero(),
        e.dist[q.last()] <= walk_km(calc, g, q) || e.dist[1] <= walk_km(calc, g, q),
    decreases q.len(),
{
    lemma_whole_zero();
    if q.len() == 1 {
        assert(plain(e.dist[0]));
    } else {
        let p = q.drop_last();
        assert forall|k: int| 0 <= k < p.len() - 1 implies #[trigger] goes_on(calc, g, p, k) by {
            assert(goes_on(calc, g, q, k));
        }
        assert forall|k: int| 0 <= k < p.len() implies 0 <= #[trigger] p[k] < g.nodes@.len() by {
            assert(p[k] == q[k]);
        }
        lemma_walk_bounds(calc, g, e, p);
        let (u, v) = (p.last(), q.last());
        assert(goes_on(calc, g, q, q.len() - 2));
        assert(u == q[q.len() - 2]);
        assert(0 <= q[q.len() - 1] < g.nodes@.len());
        let w = edge(calc, g, u, v)->0;
        let km = walk_km(calc, g, p);
        law_sum_not_below(km, w);
        assert(plain(e.dist[1]));
        assert(plain(e.dist[u]));
        assert(plain(e.dist[v]));
        if !(e.dist[1] <= km) {
            assert(e.dist[u] <= km);
            lemma_plain_value(e.dist[u]);
            law_sum_keeps_order(e.dist[u], km, w);
            if e.done.contains(u) && u != 1 {
                assert(relaxed(calc, g, e, u, v));
            } else if u != 1 {
                assert(e.open[u] == (!e.dist[u].infinite() && !e.done.contains(u)));
                if e.done.contains(1) {
                    assert(e.dist[1] <= e.dist[u]);
                } else {
                    assert(!e.open[u]);
                    lemma_value_order(e.dist[u], e.dist[1]);
                    assert(e.dist[1] <= e.dist[u]);
                }
            }
        }
    }
}

/// The way back from a place that was gone on from leads to the start, and is as
/// long as the distance found.
proof fn lemma_way_back<C: Fn(Calc) -> Scalar>(calc: C, g: Sights, e: Frontier, i: int, left: nat)
    requires
        sound(calc, g, e),
        0 <= i < e.done.len(),
        left >= i,
    ensures
        ({
            let v = e.done[i];
            let q = e.way_back(v, left).reverse();
            &&& is_walk(calc, g, q)
            &&& q.last() == v
            &&& walk_km(calc, g, q) == e.dist[v]
        }),
    decreases i,
{
    let v = e.done[i];
    let back = e.way_back(v, left);
    assert(0 <= v < g.nodes@.len() && !e.dist[v].infinite());
    assert(earlier(e, i));
    if v == 0 {
        assert(back =~= seq![0int]);
        assert(back.reverse() =~= seq![0int]);
    } else {
        let j = choose|j: int| 0 <= j < i && e.prev[e.done[i]] == Some(#[trigger] e.done[j]);
        let u = e.done[j];
        assert(reached(calc, g, e, v));
        lemma_way_back(calc, g, e, j, (left - 1) as nat);
        let before = e.way_back(u, (left - 1) as nat);
        let p = before.reverse();
        let q = back.reverse();
        assert(back =~= seq![v] + before);
        assert(q =~= p.push(v));
        assert(q.drop_last() =~= p);
        assert(q[q.len() - 2] == p.last());
        assert forall|k: int| 0 <= k < q.len() - 1 implies #[trigger] goes_on(calc, g, q, k) by {
            if k < p.len() - 1 {
                assert(goes_on(calc, g, p, k));
            }
        }
        assert forall|k: int| 0 <= k < q.len() implies 0 <= #[trigger] q[k] < g.nodes@.len() by {
            if k < p.len() {
                assert(q[k] == p[k]);
            }
        }
    }
}

proof fn lemma_search_ends<C: Fn(Calc) -> Scalar>(calc: C, g: Sights)
    requires
        fair(calc, g),
        g.nodes@.len() >= 2,
    ensures
        ended(calc, g, Frontier::begin(g.nodes@.len()).finished(calc, g, g.nodes@.len())),
{
    let n = g.nodes@.len();
    lemma_begin_sound(calc, g);
    assert(!Frontier::begin(n).done.contains(1));
    lemma_finished(calc, g, Frontier::begin(n), n);
}

/// The way that the search finds leads from the start to the target along lines
/// of sight, and is as long as it is said to be. (No distance is negative.)
pub proof fn law_found_way_is_clear<C: Fn(Calc) -> Scalar>(calc: C, g: Sights)
    requires
        fair(calc, g),
        g.nodes@.len() >= 2,
        found_way(calc, g) is Some,
    ensures
        is_walk(calc, g, (found_way(calc, g)->0).0),
        (found_way(calc, g)->0).0.last() == 1,
        walk_km(calc, g, (found_way(calc, g)->0).0) == (found_way(calc, g)->0).1,
{
    let n = g.nodes@.len();
    let e = Frontier::begin(n).finished(calc, g, n);
    lemma_search_ends(calc, g);
    assert(e.open[1] == (!e.dist[1].infinite() && !e.done.contains(1)));
    assert(e.done.contains(1));
    let i = choose|i: int| 0 <= i < e.done.len() && e.done[i] == 1;
    lemma_few_below(e.done, n);
    lemma_way_back(calc, g, e, i, n);
}

/// No way along lines of sight from the start to the target is shorter than the
/// one that the search finds; where it finds none, every way is without end. (No
/// distance is negative.)
pub proof fn law_found_way_is_shortest<C: Fn(Calc) -> Scalar>(calc: C, g: Sights, q: Seq<int>)
    requires
        fair(calc, g),
        g.nodes@.len() >= 2,
        is_walk(calc, g, q),
        q.last() == 1,
    ensures
        match found_way(calc, g) {
            Some((_, km)) => km <= walk_km(calc, g, q),
            None => walk_km(calc, g, q).infinite(),
        },
{
    let n = g.nodes@.len();
    let e = Frontier::begin(n).finished(calc, g, n);
    lemma_search_ends(calc, g);
    lemma_walk_bounds(calc, g, e, q);
    assert(plain(e.dist[1]));
    let km = walk_km(calc, g, q);
    if found_way(calc, g) is None {
        lemma_value_order(km, e.dist[1]);
    }
}

} // verus!
