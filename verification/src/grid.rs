//! Wall dilation and distance bands on the square planning grid.
//!
//! The cost field is a square of `grid` by `grid` cells in row-major order.
//! A wall cell (infinite cost) is widened by a number of rings, and the free
//! cells near a wall carry a soft penalty that depends on how many king moves
//! away the nearest wall is.

use vstd::arithmetic::div_mod::{lemma_fundamental_div_mod, lemma_fundamental_div_mod_converse};
use vstd::prelude::*;

verus! {

/// Number of king moves between two cells.
pub open spec fn king_distance(r1: int, c1: int, r2: int, c2: int) -> int {
    let dr = if r1 < r2 { r2 - r1 } else { r1 - r2 };
    let dc = if c1 < c2 { c2 - c1 } else { c1 - c2 };
    if dr < dc {
        dc
    } else {
        dr
    }
}

pub open spec fn in_grid(g: int, r: int, c: int) -> bool {
    0 <= r < g && 0 <= c < g
}

/// Whether the cell in row `r` and column `c` is marked.
pub open spec fn marked(cells: Seq<bool>, g: int, r: int, c: int) -> bool {
    in_grid(g, r, c) && cells[r * g + c]
}

/// Whether some marked cell lies within `k` king moves of the cell.
pub open spec fn marked_within(cells: Seq<bool>, g: int, r: int, c: int, k: int) -> bool {
    exists|wr: int, wc: int| #[trigger]
        marked(cells, g, wr, wc) && king_distance(wr, wc, r, c) <= k
}

/// Whether the nearest marked cell is exactly `d` king moves away.
pub open spec fn nearest_marked(cells: Seq<bool>, g: int, r: int, c: int, d: int) -> bool {
    marked_within(cells, g, r, c, d) && !marked_within(cells, g, r, c, d - 1)
}

/// `wide` marks exactly the cells within `k` king moves of a cell that `cells` marks.
pub open spec fn is_dilation(cells: Seq<bool>, wide: Seq<bool>, g: int, k: int) -> bool {
    &&& wide.len() == g * g
    &&& forall|r: int, c: int|
        #![trigger marked(wide, g, r, c)]
        in_grid(g, r, c) ==> (marked(wide, g, r, c) <==> marked_within(cells, g, r, c, k))
}

proof fn lemma_cell_index(g: int, r: int, c: int)
    requires
        in_grid(g, r, c),
    ensures
        0 <= r * g,
        0 <= r * g + c < g * g,
        (r * g + c) / g == r,
        (r * g + c) % g == c,
{
    assert(r * g + c < g * g) by (nonlinear_arith)
        requires
            0 <= r < g,
            0 <= c < g,
    ;
    assert(0 <= r * g) by (nonlinear_arith)
        requires
            0 <= r,
            0 < g,
    ;
    lemma_fundamental_div_mod_converse(r * g + c, g, r, c);
}

proof fn lemma_index_cell(g: int, i: int)
    requires
        0 <= i < g * g,
        0 <= g,
    ensures
        in_grid(g, i / g, i % g),
        (i / g) * g + i % g == i,
{
    assert(g > 0) by (nonlinear_arith)
        requires
            0 <= i < g * g,
            0 <= g,
    ;
    lemma_fundamental_div_mod(i, g);
    assert(0 <= i % g < g);
    assert(g * (i / g) == (i / g) * g) by (nonlinear_arith);
    assert(0 <= i / g < g) by (nonlinear_arith)
        requires
            i == g * (i / g) + i % g,
            0 <= i < g * g,
            0 <= i % g < g,
            g > 0,
    ;
}

/// The cell one king move from `(r, c)` towards `(wr, wc)`.
spec fn step_towards(r: int, wr: int) -> int {
    if wr < r {
        r - 1
    } else if wr > r {
        r + 1
    } else {
        r
    }
}

/// Being within `k + 1` moves is being one move from a cell within `k`.
proof fn lemma_within_step(cells: Seq<bool>, g: int, r: int, c: int, k: int)
    requires
        in_grid(g, r, c),
        0 <= k,
    ensures
        marked_within(cells, g, r, c, k + 1) <==> exists|nr: int, nc: int|
            #![trigger marked_within(cells, g, nr, nc, k)]
            in_grid(g, nr, nc) && king_distance(nr, nc, r, c) <= 1 && marked_within(
                cells,
                g,
                nr,
                nc,
                k,
            ),
{
    if marked_within(cells, g, r, c, k + 1) {
        let (wr, wc) = choose|wr: int, wc: int| #[trigger]
            marked(cells, g, wr, wc) && king_distance(wr, wc, r, c) <= k + 1;
        let nr = step_towards(r, wr);
        let nc = step_towards(c, wc);
        assert(marked(cells, g, wr, wc) && king_distance(wr, wc, nr, nc) <= k);
        assert(in_grid(g, nr, nc) && king_distance(nr, nc, r, c) <= 1 && marked_within(
            cells,
            g,
            nr,
            nc,
            k,
        ));
    }
    if exists|nr: int, nc: int|
        #![trigger marked_within(cells, g, nr, nc, k)]
        in_grid(g, nr, nc) && king_distance(nr, nc, r, c) <= 1 && marked_within(cells, g, nr, nc, k) {
        let (nr, nc) = choose|nr: int, nc: int|
            #![trigger marked_within(cells, g, nr, nc, k)]
            in_grid(g, nr, nc) && king_distance(nr, nc, r, c) <= 1 && marked_within(
                cells,
                g,
                nr,
                nc,
                k,
            );
        let (wr, wc) = choose|wr: int, wc: int| #[trigger]
            marked(cells, g, wr, wc) && king_distance(wr, wc, nr, nc) <= k;
        assert(marked(cells, g, wr, wc) && king_distance(wr, wc, r, c) <= k + 1);
    }
}

/// Whether a cell of the three-by-three window round `(r, c)` is marked.
fn window_marked(cells: &Vec<bool>, grid: usize, r: usize, c: usize) -> (near: bool)
    requires
        cells@.len() == grid * grid,
        in_grid(grid as int, r as int, c as int),
    ensures
        near == marked_within(cells@, grid as int, r as int, c as int, 1),
{
    let r0: usize = if r > 0 { r - 1 } else { 0 };
    let r1: usize = if r + 1 < grid { r + 1 } else { r };
    let c0: usize = if c > 0 { c - 1 } else { 0 };
    let c1: usize = if c + 1 < grid { c + 1 } else { c };
    let mut nr: usize = r0;
    while nr <= r1
        invariant
            cells@.len() == grid * grid,
            in_grid(grid as int, r as int, c as int),
            r0 == (if r > 0 { r - 1 } else { 0 }),
            r1 == (if r + 1 < grid { r + 1 } else { r as int }),
            c0 == (if c > 0 { c - 1 } else { 0 }),
            c1 == (if c + 1 < grid { c + 1 } else { c as int }),
            r0 <= nr <= r1 + 1,
            forall|wr: int, wc: int|
                r0 <= wr < nr && c0 <= wc <= c1 ==> !(#[trigger] marked(
                    cells@,
                    grid as int,
                    wr,
                    wc,
                )),
        decreases r1 + 1 - nr,
    {
        let mut nc: usize = c0;
        while nc <= c1
            invariant
                cells@.len() == grid * grid,
                in_grid(grid as int, r as int, c as int),
                r0 == (if r > 0 { r - 1 } else { 0 }),
                r1 == (if r + 1 < grid { r + 1 } else { r as int }),
                c0 == (if c > 0 { c - 1 } else { 0 }),
                c1 == (if c + 1 < grid { c + 1 } else { c as int }),
                r0 <= nr <= r1,
                c0 <= nc <= c1 + 1,
                forall|wr: int, wc: int|
                    r0 <= wr < nr && c0 <= wc <= c1 ==> !(#[trigger] marked(
                        cells@,
                        grid as int,
                        wr,
                        wc,
                    )),
                forall|wc: int|
                    c0 <= wc < nc ==> !(#[trigger] marked(cells@, grid as int, nr as int, wc)),
            decreases c1 + 1 - nc,
        {
            proof {
                lemma_cell_index(grid as int, nr as int, nc as int);
                assert(cells.len() == grid * grid);
            }
            if cells[nr * grid + nc] {
                proof {
                    assert(marked(cells@, grid as int, nr as int, nc as int) && king_distance(
                        nr as int,
                        nc as int,
                        r as int,
                        c as int,
                    ) <= 1);
                }
                return true;
            }
            nc = nc + 1;
        }
        nr = nr + 1;
    }
    false
}

/// One ring of dilation: every cell next to a marked one becomes marked.
fn dilate_once(cells: &Vec<bool>, grid: usize) -> (wide: Vec<bool>)
    requires
        cells@.len() == grid * grid,
    ensures
        is_dilation(cells@, wide@, grid as int, 1),
{
    let n: usize = cells.len();
    let mut wide: Vec<bool> = Vec::new();
    let mut i: usize = 0;
    while i < n
        invariant
            n == cells@.len(),
            cells@.len() == grid * grid,
            i <= n,
            wide@.len() == i,
            forall|k: int|
                0 <= k < i ==> (#[trigger] wide@[k] <==> marked_within(
                    cells@,
                    grid as int,
                    k / grid as int,
                    k % grid as int,
                    1,
                )),
        decreases n - i,
    {
        proof {
            lemma_index_cell(grid as int, i as int);
        }
        let near: bool = window_marked(cells, grid, i / grid, i % grid);
        wide.push(near);
        i = i + 1;
    }
    proof {
        let g = grid as int;
        assert forall|r: int, c: int|
            #![trigger marked(wide@, g, r, c)]
            in_grid(g, r, c) implies (marked(wide@, g, r, c) <==> marked_within(
            cells@,
            g,
            r,
            c,
            1,
        )) by {
            lemma_cell_index(g, r, c);
            assert(wide@[r * g + c] <==> marked_within(cells@, g, r, c, 1));
        }
    }
    wide
}

/// Widening by `a` rings and then by `b` rings is widening by `a + b` rings.
pub proof fn law_dilations_compose(
    cells: Seq<bool>,
    wide: Seq<bool>,
    wider: Seq<bool>,
    g: int,
    a: int,
    b: int,
)
    requires
        0 <= a,
        0 <= b,
        is_dilation(cells, wide, g, a),
        is_dilation(wide, wider, g, b),
    ensures
        is_dilation(cells, wider, g, a + b),
{
    assert forall|r: int, c: int|
        #![trigger marked(wider, g, r, c)]
        in_grid(g, r, c) implies (marked(wider, g, r, c) <==> marked_within(
        cells,
        g,
        r,
        c,
        a + b,
    )) by {
        lemma_within_of_dilation(cells, wide, g, a, r, c, b);
    }
}

proof fn lemma_within_of_dilation(
    cells: Seq<bool>,
    wide: Seq<bool>,
    g: int,
    a: int,
    r: int,
    c: int,
    b: int,
)
    requires
        0 <= a,
        0 <= b,
        in_grid(g, r, c),
        is_dilation(cells, wide, g, a),
    ensures
        marked_within(wide, g, r, c, b) <==> marked_within(cells, g, r, c, a + b),
    decreases b,
{
    if b == 0 {
        assert(marked(wide, g, r, c) <==> marked_within(cells, g, r, c, a));
        if marked(wide, g, r, c) {
            assert(king_distance(r, c, r, c) <= 0);
        }
    } else {
        lemma_within_step(wide, g, r, c, b - 1);
        lemma_within_step(cells, g, r, c, a + b - 1);
        assert forall|nr: int, nc: int| in_grid(g, nr, nc) implies marked_within(
            wide,
            g,
            nr,
            nc,
            b - 1,
        ) == #[trigger] marked_within(cells, g, nr, nc, a + b - 1) by {
            lemma_within_of_dilation(cells, wide, g, a, nr, nc, b - 1);
        }
        if marked_within(wide, g, r, c, b) {
            let (nr, nc) = choose|nr: int, nc: int|
                #![trigger marked_within(wide, g, nr, nc, b - 1)]
                in_grid(g, nr, nc) && king_distance(nr, nc, r, c) <= 1 && marked_within(
                    wide,
                    g,
                    nr,
                    nc,
                    b - 1,
                );
            assert(marked_within(cells, g, nr, nc, a + b - 1));
        }
        if marked_within(cells, g, r, c, a + b) {
            let (nr, nc) = choose|nr: int, nc: int|
                #![trigger marked_within(cells, g, nr, nc, a + b - 1)]
                in_grid(g, nr, nc) && king_distance(nr, nc, r, c) <= 1 && marked_within(
                    cells,
                    g,
                    nr,
                    nc,
                    a + b - 1,
                );
            assert(marked_within(wide, g, nr, nc, b - 1));
        }
    }
}

/// Widens the marked cells by `rings` king moves.
pub fn dilate(cells: &Vec<bool>, grid: usize, rings: usize) -> (wide: Vec<bool>)
    requires
        cells@.len() == grid * grid,
    ensures
        is_dilation(cells@, wide@, grid as int, rings as int),
{
    let mut wide: Vec<bool> = cells.clone();
    proof {
        assert(wide@ =~= cells@);
        assert forall|r: int, c: int|
            #![trigger marked(wide@, grid as int, r, c)]
            in_grid(grid as int, r, c) implies (marked(wide@, grid as int, r, c) <==> marked_within(
            cells@,
            grid as int,
            r,
            c,
            0,
        )) by {
            if marked(wide@, grid as int, r, c) {
                assert(marked(cells@, grid as int, r, c) && king_distance(r, c, r, c) <= 0);
            }
        }
    }
    let mut k: usize = 0;
    while k < rings
        invariant
            k <= rings,
            cells@.len() == grid * grid,
            is_dilation(cells@, wide@, grid as int, k as int),
        decreases rings - k,
    {
        let next: Vec<bool> = dilate_once(&wide, grid);
        proof {
            law_dilations_compose(cells@, wide@, next@, grid as int, k as int, 1);
        }
        wide = next;
        k = k + 1;
    }
    wide
}

/// Distance of a cell that no marked cell can be reached from.
pub const UNREACHED: u32 = u32::MAX;

spec fn queued(queue: Seq<usize>, head: int, i: int) -> bool {
    exists|k: int| head <= k < queue.len() && #[trigger] queue[k] as int == i
}

/// A recorded distance is never shorter than the true one.
spec fn distances_sound(cells: Seq<bool>, dist: Seq<u32>, g: int) -> bool {
    forall|i: int|
        0 <= i < dist.len() && #[trigger] dist[i] != UNREACHED ==> marked_within(
            cells,
            g,
            i / g,
            i % g,
            dist[i] as int,
        )
}

/// Every cell beside `(r, c)` is at most one move farther than it.
spec fn settled_at(dist: Seq<u32>, g: int, r: int, c: int) -> bool {
    forall|nr: int, nc: int|
        #![trigger in_grid(g, nr, nc)]
        in_grid(g, nr, nc) && king_distance(nr, nc, r, c) <= 1 ==> dist[nr * g + nc] <= dist[r * g
            + c] + 1
}

/// Every reached cell waits in the queue, is `skip`, or is settled.
spec fn frontier(dist: Seq<u32>, g: int, queue: Seq<usize>, head: int, skip: int) -> bool {
    forall|r: int, c: int|
        #![trigger in_grid(g, r, c)]
        in_grid(g, r, c) && dist[r * g + c] != UNREACHED ==> r * g + c == skip || queued(
            queue,
            head,
            r * g + c,
        ) || settled_at(dist, g, r, c)
}

spec fn total(dist: Seq<u32>) -> int
    decreases dist.len(),
{
    if dist.len() == 0 {
        0
    } else {
        total(dist.drop_last()) + dist.last()
    }
}

proof fn lemma_total_update(dist: Seq<u32>, i: int, v: u32)
    requires
        0 <= i < dist.len(),
    ensures
        total(dist.update(i, v)) == total(dist) - dist[i] + v,
    decreases dist.len(),
{
    let upd = dist.update(i, v);
    if i == dist.len() - 1 {
        assert(upd.drop_last() =~= dist.drop_last());
    } else {
        assert(upd.drop_last() =~= dist.drop_last().update(i, v));
        lemma_total_update(dist.drop_last(), i, v);
    }
}

proof fn lemma_total_nonnegative(dist: Seq<u32>)
    ensures
        total(dist) >= 0,
    decreases dist.len(),
{
    if dist.len() > 0 {
        lemma_total_nonnegative(dist.drop_last());
    }
}

/// Lowers the distance of one cell and queues it, where that is an improvement.
fn relax(
    cells: &Vec<bool>,
    dist: &mut Vec<u32>,
    queue: &mut Vec<usize>,
    head: usize,
    grid: usize,
    from: usize,
    nr: usize,
    nc: usize,
)
    requires
        cells@.len() == grid * grid,
        old(dist)@.len() == cells@.len(),
        from < cells@.len(),
        head <= old(queue)@.len(),
        in_grid(grid as int, nr as int, nc as int),
        king_distance(
            nr as int,
            nc as int,
            from as int / grid as int,
            from as int % grid as int,
        ) <= 1,
        old(dist)@[from as int] != UNREACHED,
        distances_sound(cells@, old(dist)@, grid as int),
        frontier(old(dist)@, grid as int, old(queue)@, head as int, from as int),
        forall|k: int|
            0 <= k < old(queue)@.len() ==> (#[trigger] old(queue)@[k] as int) < cells@.len()
                && old(dist)@[old(queue)@[k] as int] != UNREACHED,
    ensures
        final(dist)@.len() == cells@.len(),
        final(dist)@[from as int] == old(dist)@[from as int],
        final(dist)@[nr * grid + nc] <= old(dist)@[from as int] + 1,
        forall|i: int| 0 <= i < cells@.len() ==> #[trigger] final(dist)@[i] <= old(dist)@[i],
        distances_sound(cells@, final(dist)@, grid as int),
        frontier(final(dist)@, grid as int, final(queue)@, head as int, from as int),
        forall|k: int|
            0 <= k < final(queue)@.len() ==> (#[trigger] final(queue)@[k] as int) < cells@.len()
                && final(dist)@[final(queue)@[k] as int] != UNREACHED,
        final(queue)@.len() >= old(queue)@.len(),
        total(final(dist)@) < total(old(dist)@) || (total(final(dist)@) == total(old(dist)@)
            && final(queue)@ == old(queue)@),
{
    proof {
        lemma_cell_index(grid as int, nr as int, nc as int);
        assert(cells.len() == grid * grid);
        lemma_index_cell(grid as int, from as int);
    }
    let ni: usize = nr * grid + nc;
    let nd: u32 = dist[from] + 1;
    if dist[ni] > nd {
        let ghost d0 = dist@;
        let ghost q0 = queue@;
        proof {
            lemma_total_update(d0, ni as int, nd);
            let g = grid as int;
            let fr = from as int / g;
            let fc = from as int % g;
            let (wr, wc) = choose|wr: int, wc: int| #[trigger]
                marked(cells@, g, wr, wc) && king_distance(wr, wc, fr, fc) <= d0[from as int];
            assert(marked(cells@, g, wr, wc) && king_distance(wr, wc, nr as int, nc as int) <= nd);
        }
        dist.set(ni, nd);
        queue.push(ni);
        proof {
            let g = grid as int;
            assert(queue@[q0.len() as int] as int == ni as int);
            assert forall|r: int, c: int|
                #![trigger in_grid(g, r, c)]
                in_grid(g, r, c) && dist@[r * g + c] != UNREACHED implies r * g + c == from as int
                || queued(queue@, head as int, r * g + c) || settled_at(dist@, g, r, c) by {
                lemma_cell_index(g, r, c);
                if r * g + c == ni as int {
                    assert(queued(queue@, head as int, ni as int));
                } else if r * g + c != from as int {
                    assert(d0[r * g + c] != UNREACHED);
                    if queued(q0, head as int, r * g + c) {
                        let k = choose|k: int|
                            head <= k < q0.len() && #[trigger] q0[k] as int == r * g + c;
                        assert(queue@[k] == q0[k]);
                    } else {
                        assert(settled_at(d0, g, r, c));
                        assert forall|vr: int, vc: int|
                            #![trigger in_grid(g, vr, vc)]
                            in_grid(g, vr, vc) && king_distance(vr, vc, r, c)
                                <= 1 implies dist@[vr * g + vc] <= dist@[r * g + c] + 1 by {
                            lemma_cell_index(g, vr, vc);
                        }
                    }
                }
            }
            assert forall|k: int| 0 <= k < queue@.len() implies (#[trigger] queue@[k] as int)
                < cells@.len() && dist@[queue@[k] as int] != UNREACHED by {
                if k < q0.len() {
                    assert(queue@[k] == q0[k]);
                }
            }
        }
    }
}

proof fn lemma_side_fits(g: int)
    requires
        0 <= g,
        g * g <= usize::MAX,
    ensures
        g <= u32::MAX,
{
    if g > u32::MAX {
        assert(g * g >= 0x1_0000_0000 * 0x1_0000_0000) by (nonlinear_arith)
            requires
                g >= 0x1_0000_0000,
        ;
    }
}

/// With nothing left in the queue, no distance is longer than the true one.
proof fn lemma_distances_complete(
    cells: Seq<bool>,
    dist: Seq<u32>,
    g: int,
    wr: int,
    wc: int,
    r: int,
    c: int,
    d: int,
)
    requires
        g * g <= usize::MAX,
        dist.len() == g * g,
        marked(cells, g, wr, wc),
        in_grid(g, r, c),
        king_distance(wr, wc, r, c) == d,
        forall|i: int, j: int| #[trigger] marked(cells, g, i, j) ==> dist[i * g + j] == 0,
        forall|i: int, j: int|
            #![trigger in_grid(g, i, j)]
            in_grid(g, i, j) && dist[i * g + j] != UNREACHED ==> settled_at(dist, g, i, j),
    ensures
        dist[r * g + c] <= d < UNREACHED,
    decreases d,
{
    lemma_side_fits(g);
    if d == 0 {
        assert(wr == r && wc == c);
    } else {
        let nr = step_towards(r, wr);
        let nc = step_towards(c, wc);
        assert(in_grid(g, nr, nc));
        lemma_distances_complete(cells, dist, g, wr, wc, nr, nc, d - 1);
        assert(settled_at(dist, g, nr, nc));
        assert(king_distance(r, c, nr, nc) <= 1);
        assert(dist[r * g + c] <= dist[nr * g + nc] + 1);
    }
}

/// `dist` gives, for each cell, the king moves to the nearest marked cell, or
/// [`UNREACHED`] where no cell is marked at all.
pub open spec fn is_distance_map(cells: Seq<bool>, dist: Seq<u32>, g: int) -> bool {
    &&& dist.len() == g * g
    &&& forall|r: int, c: int|
        #![trigger in_grid(g, r, c)]
        in_grid(g, r, c) ==> if dist[r * g + c] == UNREACHED {
            forall|wr: int, wc: int| !(#[trigger] marked(cells, g, wr, wc))
        } else {
            nearest_marked(cells, g, r, c, dist[r * g + c] as int)
        }
}

/// Breadth-first distance transform from the marked cells, over the eight
/// neighbours of each cell.
pub fn wall_distances(cells: &Vec<bool>, grid: usize) -> (dist: Vec<u32>)
    requires
        cells@.len() == grid * grid,
    ensures
        is_distance_map(cells@, dist@, grid as int),
{
    let n: usize = cells.len();
    let ghost g = grid as int;
    let mut dist: Vec<u32> = Vec::new();
    let mut queue: Vec<usize> = Vec::new();
    let mut i: usize = 0;
    while i < n
        invariant
            n == cells@.len(),
            i <= n,
            dist@.len() == i,
            forall|k: int|
                0 <= k < i ==> #[trigger] dist@[k] == (if cells@[k] {
                    0u32
                } else {
                    UNREACHED
                }),
            forall|k: int|
                0 <= k < queue@.len() ==> (#[trigger] queue@[k] as int) < i
                    && cells@[queue@[k] as int],
            forall|k: int| 0 <= k < i && #[trigger] cells@[k] ==> queued(queue@, 0, k),
        decreases n - i,
    {
        let ghost q0 = queue@;
        if cells[i] {
            dist.push(0);
            queue.push(i);
        } else {
            dist.push(UNREACHED);
        }
        i = i + 1;
        proof {
            assert forall|k: int| 0 <= k < i && #[trigger] cells@[k] implies queued(
                queue@,
                0,
                k,
            ) by {
                if k < i - 1 {
                    let j = choose|j: int| 0 <= j < q0.len() && #[trigger] q0[j] as int == k;
                    assert(queue@[j] == q0[j]);
                } else {
                    assert(queue@[q0.len() as int] as int == k);
                }
            }
        }
    }
    proof {
        assert forall|k: int| 0 <= k < dist@.len() && #[trigger] dist@[k]
            != UNREACHED implies marked_within(cells@, g, k / g, k % g, dist@[k] as int) by {
            lemma_index_cell(g, k);
            assert(marked(cells@, g, k / g, k % g) && king_distance(k / g, k % g, k / g, k % g)
                <= 0);
        }
        assert forall|r: int, c: int|
            #![trigger in_grid(g, r, c)]
            in_grid(g, r, c) && dist@[r * g + c] != UNREACHED implies queued(
            queue@,
            0,
            r * g + c,
        ) by {
            lemma_cell_index(g, r, c);
            assert(cells@[r * g + c]);
        }
        assert forall|r: int, c: int| #[trigger] marked(cells@, g, r, c) implies dist@[r * g + c]
            == 0 by {
            lemma_cell_index(g, r, c);
        }
    }
    let mut head: usize = 0;
    while head < queue.len()
        invariant
            g == grid as int,
            cells@.len() == grid * grid,
            dist@.len() == cells@.len(),
            head <= queue@.len(),
            distances_sound(cells@, dist@, g),
            frontier(dist@, g, queue@, head as int, -1),
            forall|k: int|
                0 <= k < queue@.len() ==> (#[trigger] queue@[k] as int) < cells@.len()
                    && dist@[queue@[k] as int] != UNREACHED,
            forall|r: int, c: int| #[trigger] marked(cells@, g, r, c) ==> dist@[r * g + c] == 0,
        decreases total(dist@), queue@.len() - head,
    {
        let from: usize = queue[head];
        let ghost d0 = dist@;
        let ghost q0 = queue@;
        let ghost h0 = head as int;
        head = head + 1;
        proof {
            lemma_index_cell(g, from as int);
            lemma_total_nonnegative(dist@);
            assert forall|r: int, c: int|
                #![trigger in_grid(g, r, c)]
                in_grid(g, r, c) && dist@[r * g + c] != UNREACHED implies r * g + c == from as int
                || queued(queue@, head as int, r * g + c) || settled_at(dist@, g, r, c) by {
                lemma_cell_index(g, r, c);
                if r * g + c != from as int && queued(queue@, h0, r * g + c) {
                    let k = choose|k: int|
                        h0 <= k < queue@.len() && #[trigger] queue@[k] as int == r * g + c;
                    assert(k != h0);
                    assert(queue@[k] as int == r * g + c);
                }
            }
        }
        let r: usize = from / grid;
        let c: usize = from % grid;
        let r0: usize = if r > 0 { r - 1 } else { 0 };
        let r1: usize = if r + 1 < grid { r + 1 } else { r };
        let c0: usize = if c > 0 { c - 1 } else { 0 };
        let c1: usize = if c + 1 < grid { c + 1 } else { c };
        let mut nr: usize = r0;
        while nr <= r1
            invariant
                g == grid as int,
                cells@.len() == grid * grid,
                dist@.len() == cells@.len(),
                d0.len() == cells@.len(),
                head <= queue@.len(),
                from < cells@.len(),
                r == from as int / g,
                c == from as int % g,
                in_grid(g, r as int, c as int),
                r0 == (if r > 0 { r - 1 } else { 0 }),
                r1 == (if r + 1 < grid { r + 1 } else { r as int }),
                c0 == (if c > 0 { c - 1 } else { 0 }),
                c1 == (if c + 1 < grid { c + 1 } else { c as int }),
                r0 <= nr <= r1 + 1,
                dist@[from as int] == d0[from as int],
                d0[from as int] != UNREACHED,
                distances_sound(cells@, dist@, g),
                frontier(dist@, g, queue@, head as int, from as int),
                forall|k: int|
                    0 <= k < queue@.len() ==> (#[trigger] queue@[k] as int) < cells@.len()
                        && dist@[queue@[k] as int] != UNREACHED,
                forall|k: int| 0 <= k < cells@.len() ==> #[trigger] dist@[k] <= d0[k],
                forall|vr: int, vc: int|
                    #![trigger in_grid(g, vr, vc)]
                    r0 <= vr < nr && c0 <= vc <= c1 && in_grid(g, vr, vc) ==> dist@[vr * g + vc]
                        <= d0[from as int] + 1,
                total(dist@) < total(d0) || (total(dist@) == total(d0) && queue@ == q0),
            decreases r1 + 1 - nr,
        {
            let mut nc: usize = c0;
            while nc <= c1
                invariant
                    g == grid as int,
                    cells@.len() == grid * grid,
                    dist@.len() == cells@.len(),
                    d0.len() == cells@.len(),
                    head <= queue@.len(),
                    from < cells@.len(),
                    r == from as int / g,
                    c == from as int % g,
                    in_grid(g, r as int, c as int),
                    r0 == (if r > 0 { r - 1 } else { 0 }),
                    r1 == (if r + 1 < grid { r + 1 } else { r as int }),
                    c0 == (if c > 0 { c - 1 } else { 0 }),
                    c1 == (if c + 1 < grid { c + 1 } else { c as int }),
                    r0 <= nr <= r1,
                    c0 <= nc <= c1 + 1,
                    dist@[from as int] == d0[from as int],
                    d0[from as int] != UNREACHED,
                    distances_sound(cells@, dist@, g),
                    frontier(dist@, g, queue@, head as int, from as int),
                    forall|k: int|
                        0 <= k < queue@.len() ==> (#[trigger] queue@[k] as int) < cells@.len()
                            && dist@[queue@[k] as int] != UNREACHED,
                    forall|k: int| 0 <= k < cells@.len() ==> #[trigger] dist@[k] <= d0[k],
                    forall|vr: int, vc: int|
                        #![trigger in_grid(g, vr, vc)]
                        r0 <= vr < nr && c0 <= vc <= c1 && in_grid(g, vr, vc) ==> dist@[vr * g
                            + vc] <= d0[from as int] + 1,
                    forall|vc: int|
                        #![trigger in_grid(g, nr as int, vc)]
                        c0 <= vc < nc && in_grid(g, nr as int, vc) ==> dist@[nr * g + vc]
                            <= d0[from as int] + 1,
                    total(dist@) < total(d0) || (total(dist@) == total(d0) && queue@ == q0),
                decreases c1 + 1 - nc,
            {
                let ghost d1 = dist@;
                relax(cells, &mut dist, &mut queue, head, grid, from, nr, nc);
                proof {
                    assert forall|vr: int, vc: int|
                        #![trigger in_grid(g, vr, vc)]
                        r0 <= vr < nr && c0 <= vc <= c1 && in_grid(g, vr, vc) implies dist@[vr * g
                        + vc] <= d0[from as int] + 1 by {
                        lemma_cell_index(g, vr, vc);
                        assert(dist@[vr * g + vc] <= d1[vr * g + vc]);
                    }
                    assert forall|vc: int|
                        #![trigger in_grid(g, nr as int, vc)]
                        c0 <= vc < nc + 1 && in_grid(g, nr as int, vc) implies dist@[nr * g + vc]
                        <= d0[from as int] + 1 by {
                        lemma_cell_index(g, nr as int, vc);
                        assert(dist@[nr * g + vc] <= d1[nr * g + vc]);
                    }
                }
                nc = nc + 1;
            }
            nr = nr + 1;
        }
        proof {
            assert(settled_at(dist@, g, r as int, c as int)) by {
                assert forall|vr: int, vc: int|
                    #![trigger in_grid(g, vr, vc)]
                    in_grid(g, vr, vc) && king_distance(vr, vc, r as int, c as int)
                        <= 1 implies dist@[vr * g + vc] <= dist@[r * g + c] + 1 by {
                    assert(r0 <= vr <= r1 && c0 <= vc <= c1);
                }
            }
            assert forall|vr: int, vc: int|
                #![trigger in_grid(g, vr, vc)]
                in_grid(g, vr, vc) && dist@[vr * g + vc] != UNREACHED implies vr * g + vc == -1
                || queued(queue@, head as int, vr * g + vc) || settled_at(dist@, g, vr, vc) by {
                lemma_cell_index(g, vr, vc);
                if vr * g + vc == from as int {
                    assert(vr == r && vc == c);
                }
            }
            assert forall|vr: int, vc: int| #[trigger] marked(cells@, g, vr, vc) implies dist@[vr
                * g + vc] == 0 by {
                lemma_cell_index(g, vr, vc);
                assert(dist@[vr * g + vc] <= d0[vr * g + vc]);
            }
            lemma_total_nonnegative(dist@);
        }
    }
    proof {
        assert(cells.len() == grid * grid);
        assert forall|r: int, c: int|
            #![trigger in_grid(g, r, c)]
            in_grid(g, r, c) implies if dist@[r * g + c] == UNREACHED {
            forall|wr: int, wc: int| !(#[trigger] marked(cells@, g, wr, wc))
        } else {
            nearest_marked(cells@, g, r, c, dist@[r * g + c] as int)
        } by {
            lemma_cell_index(g, r, c);
            assert forall|i: int, j: int|
                #![trigger in_grid(g, i, j)]
                in_grid(g, i, j) && dist@[i * g + j] != UNREACHED implies settled_at(
                dist@,
                g,
                i,
                j,
            ) by {
                lemma_cell_index(g, i, j);
            }
            assert forall|wr: int, wc: int| #[trigger] marked(cells@, g, wr, wc) implies dist@[r * g
                + c] <= king_distance(wr, wc, r, c) < UNREACHED by {
                lemma_distances_complete(
                    cells@,
                    dist@,
                    g,
                    wr,
                    wc,
                    r,
                    c,
                    king_distance(wr, wc, r, c),
                );
            }
        }
    }
    dist
}

/// The planning grid after its walls were widened.
pub struct BandedGrid {
    /// Widened walls; such a cell costs infinity.
    pub walls: Vec<bool>,
    /// For a free cell near a wall, how many king moves away the wall is, and
    /// zero for every other cell.
    pub band: Vec<u32>,
}

/// The band entry owed to one cell: the distance to the nearest wall if the
/// cell is free and that distance is at most `band_cells`, else zero.
pub open spec fn band_entry(walls: Seq<bool>, g: int, r: int, c: int, band_cells: u32, b: u32) -> bool {
    if b == 0 {
        marked(walls, g, r, c) || !marked_within(walls, g, r, c, band_cells as int)
    } else {
        b <= band_cells && nearest_marked(walls, g, r, c, b as int)
    }
}

proof fn lemma_band_entry(walls: Seq<bool>, dist: Seq<u32>, g: int, r: int, c: int, band_cells: u32)
    requires
        is_distance_map(walls, dist, g),
        in_grid(g, r, c),
    ensures
        ({
            let d = dist[r * g + c];
            band_entry(
                walls,
                g,
                r,
                c,
                band_cells,
                if !walls[r * g + c] && d <= band_cells && d != UNREACHED {
                    d
                } else {
                    0
                },
            )
        }),
{
    let d = dist[r * g + c];
    if d == 0 {
        let (wr, wc) = choose|wr: int, wc: int| #[trigger]
            marked(walls, g, wr, wc) && king_distance(wr, wc, r, c) <= 0;
        assert(wr == r && wc == c);
    }
    if d != UNREACHED && d > band_cells && marked_within(walls, g, r, c, band_cells as int) {
        let (wr, wc) = choose|wr: int, wc: int| #[trigger]
            marked(walls, g, wr, wc) && king_distance(wr, wc, r, c) <= band_cells;
        assert(king_distance(wr, wc, r, c) <= d - 1);
        assert(marked_within(walls, g, r, c, d - 1));
    }
}

/// Widens the walls by `inflation_cells` rings, then records for each free cell
/// within `band_cells` of a widened wall how far away that wall is.
pub fn apply_inflation_and_band(
    walls: &Vec<bool>,
    grid: usize,
    inflation_cells: usize,
    band_cells: u32,
) -> (field: BandedGrid)
    requires
        walls@.len() == grid * grid,
    ensures
        is_dilation(walls@, field.walls@, grid as int, inflation_cells as int),
        field.band@.len() == grid * grid,
        forall|r: int, c: int|
            #![trigger in_grid(grid as int, r, c)]
            in_grid(grid as int, r, c) ==> band_entry(
                field.walls@,
                grid as int,
                r,
                c,
                band_cells,
                field.band@[r * grid + c],
            ),
{
    let wide: Vec<bool> = dilate(walls, grid, inflation_cells);
    let dist: Vec<u32> = wall_distances(&wide, grid);
    let ghost g = grid as int;
    let n: usize = wide.len();
    let mut band: Vec<u32> = Vec::new();
    let mut i: usize = 0;
    while i < n
        invariant
            n == grid * grid,
            wide@.len() == n,
            dist@.len() == n,
            i <= n,
            band@.len() == i,
            forall|k: int|
                0 <= k < i ==> #[trigger] band@[k] == (if !wide@[k] && dist@[k] <= band_cells
                    && dist@[k] != UNREACHED {
                    dist@[k]
                } else {
                    0u32
                }),
        decreases n - i,
    {
        let d: u32 = dist[i];
        if !wide[i] && d <= band_cells && d != UNREACHED {
            band.push(d);
        } else {
            band.push(0);
        }
        i = i + 1;
    }
    proof {
        assert forall|r: int, c: int|
            #![trigger in_grid(g, r, c)]
            in_grid(g, r, c) implies band_entry(wide@, g, r, c, band_cells, band@[r * g + c]) by {
            lemma_cell_index(g, r, c);
            lemma_band_entry(wide@, dist@, g, r, c, band_cells);
        }
    }
    BandedGrid { walls: wide, band }
}

/// The cells within `k` king moves of a marked one.
pub open spec fn grown(cells: Seq<bool>, g: int, k: int) -> Seq<bool> {
    Seq::new((g * g) as nat, |i: int| marked_within(cells, g, i / g, i % g, k))
}

/// How many king moves away the nearest wall of a free cell is, where that is at most
/// `width`; zero for every other cell.
pub open spec fn wall_distance(walls: Seq<bool>, g: int, r: int, c: int, width: int) -> int {
    if marked(walls, g, r, c) || !marked_within(walls, g, r, c, width) {
        0
    } else {
        choose|d: int| nearest_marked(walls, g, r, c, d)
    }
}

/// The band beside walls.
pub open spec fn band_beside(walls: Seq<bool>, g: int, width: int) -> Seq<int> {
    Seq::new((g * g) as nat, |i: int| wall_distance(walls, g, i / g, i % g, width))
}

/// There is one dilation of a grid.
pub proof fn lemma_grown(cells: Seq<bool>, wide: Seq<bool>, g: int, k: int)
    requires
        0 <= g,
        is_dilation(cells, wide, g, k),
    ensures
        wide == grown(cells, g, k),
{
    assert(wide.len() == grown(cells, g, k).len());
    assert forall|i: int| 0 <= i < wide.len() implies #[trigger] wide[i] == grown(cells, g, k)[i] by {
        lemma_index_cell(g, i);
        assert(marked(wide, g, i / g, i % g) == wide[i]);
    }
    assert(wide =~= grown(cells, g, k));
}

/// There is one band entry for a cell.
pub proof fn lemma_wall_distance(walls: Seq<bool>, g: int, r: int, c: int, width: u32, b: u32)
    requires
        in_grid(g, r, c),
        band_entry(walls, g, r, c, width, b),
    ensures
        b == wall_distance(walls, g, r, c, width as int),
{
    if b > 0 {
        let (wr, wc) = choose|wr: int, wc: int| #[trigger]
            marked(walls, g, wr, wc) && king_distance(wr, wc, r, c) <= b;
        assert(marked(walls, g, wr, wc) && king_distance(wr, wc, r, c) <= width);
        if marked(walls, g, r, c) {
            assert(king_distance(r, c, r, c) <= b - 1);
        }
        let d = wall_distance(walls, g, r, c, width as int);
        assert(nearest_marked(walls, g, r, c, b as int));
        assert(nearest_marked(walls, g, r, c, d));
        lemma_nearest_is_one(walls, g, r, c, b as int, d);
    }
}

proof fn lemma_nearest_is_one(walls: Seq<bool>, g: int, r: int, c: int, a: int, b: int)
    requires
        nearest_marked(walls, g, r, c, a),
        nearest_marked(walls, g, r, c, b),
    ensures
        a == b,
{
    let (ar, ac) = choose|wr: int, wc: int| #[trigger]
        marked(walls, g, wr, wc) && king_distance(wr, wc, r, c) <= a;
    let (br, bc) = choose|wr: int, wc: int| #[trigger]
        marked(walls, g, wr, wc) && king_distance(wr, wc, r, c) <= b;
    if a < b {
        assert(marked(walls, g, ar, ac) && king_distance(ar, ac, r, c) <= b - 1);
    }
    if b < a {
        assert(marked(walls, g, br, bc) && king_distance(br, bc, r, c) <= a - 1);
    }
}

/// Walls stay walls: widening by any number of rings unmarks nothing.
pub proof fn law_dilation_keeps_walls(cells: Seq<bool>, wide: Seq<bool>, g: int, k: int, r: int, c: int)
    requires
        0 <= k,
        is_dilation(cells, wide, g, k),
        marked(cells, g, r, c),
    ensures
        marked(wide, g, r, c),
{
    assert(marked(cells, g, r, c) && king_distance(r, c, r, c) <= k);
}

/// The band rises one step at a time: the nearest-wall distances of two cells
/// that touch differ by at most one.
pub proof fn law_distance_steps_by_one(
    cells: Seq<bool>,
    g: int,
    r1: int,
    c1: int,
    d1: int,
    r2: int,
    c2: int,
    d2: int,
)
    requires
        in_grid(g, r1, c1),
        in_grid(g, r2, c2),
        king_distance(r1, c1, r2, c2) <= 1,
        nearest_marked(cells, g, r1, c1, d1),
        nearest_marked(cells, g, r2, c2, d2),
    ensures
        -1 <= d1 - d2 <= 1,
{
    let (ar, ac) = choose|wr: int, wc: int| #[trigger]
        marked(cells, g, wr, wc) && king_distance(wr, wc, r1, c1) <= d1;
    let (br, bc) = choose|wr: int, wc: int| #[trigger]
        marked(cells, g, wr, wc) && king_distance(wr, wc, r2, c2) <= d2;
    assert(king_distance(ar, ac, r2, c2) <= d1 + 1);
    assert(king_distance(br, bc, r1, c1) <= d2 + 1);
    if d2 > d1 + 1 {
        assert(marked(cells, g, ar, ac) && king_distance(ar, ac, r2, c2) <= d2 - 1);
    }
    if d1 > d2 + 1 {
        assert(marked(cells, g, br, bc) && king_distance(br, bc, r1, c1) <= d1 - 1);
    }
}

} // verus!
