use vstd::prelude::*;
use vstd::set_lib::{lemma_len_subset, lemma_int_range, set_int_range};

use crate::raster::{GrayRaster, lemma_row_major_index};

verus! {

/// The entry of a row-major boolean grid `v` of width `w` at `(x, y)`.
pub open spec fn grid_get(v: Seq<bool>, w: int, x: int, y: int) -> bool {
    v[y * w + x]
}

/// `p` occurs somewhere in the sequence `q`.
pub open spec fn in_queue(q: Seq<(u32, u32)>, p: (u32, u32)) -> bool {
    exists|i: int| 0 <= i < q.len() && q[i] == p
}

/// The threshold test a searched-for pixel must pass.
#[derive(Debug, Copy, Clone, PartialEq, Eq, Structural)]
pub enum PixelTest {
    /// Luminance at most the bound: a dark pixel.
    AtMost(u8),
    /// Luminance at least the bound: a bright or strong-edge pixel.
    AtLeast(u8),
}

impl PixelTest {
    pub open spec fn holds(self, v: u8) -> bool {
        match self {
            PixelTest::AtMost(t) => v <= t,
            PixelTest::AtLeast(t) => v >= t,
        }
    }

    pub fn check(&self, v: u8) -> (r: bool)
        ensures
            r == self.holds(v),
    {
        match self {
            PixelTest::AtMost(t) => v <= *t,
            PixelTest::AtLeast(t) => v >= *t,
        }
    }
}

/// No pixel of the raster passes the test.
pub open spec fn no_pixel_matches(r: GrayRaster, test: PixelTest) -> bool {
    forall|x: int, y: int| r.in_bounds(x, y) ==> !test.holds(#[trigger] r.pix(x, y))
}

/// All in-bounds 4-neighbours of `(x, y)` are marked in `v`.
pub open spec fn neighbors_marked(v: Seq<bool>, w: int, h: int, x: int, y: int) -> bool {
    &&& x > 0 ==> grid_get(v, w, x - 1, y)
    &&& x < w - 1 ==> grid_get(v, w, x + 1, y)
    &&& y > 0 ==> grid_get(v, w, x, y - 1)
    &&& y < h - 1 ==> grid_get(v, w, x, y + 1)
}

/// Every marked cell has all its in-bounds neighbours marked.
pub open spec fn closed_under_neighbors(v: Seq<bool>, w: int, h: int) -> bool {
    forall|x: int, y: int|
        0 <= x < w && 0 <= y < h && #[trigger] grid_get(v, w, x, y) ==> neighbors_marked(
            v,
            w,
            h,
            x,
            y,
        )
}

pub open spec fn dist(a: int, b: int) -> int {
    if a <= b {
        b - a
    } else {
        a - b
    }
}

/// The L1 (taxicab) distance between `(sx, sy)` and `(x, y)`: the number
/// of 4-connected grid steps between them.
pub open spec fn l1i(sx: int, sy: int, x: int, y: int) -> int {
    dist(sx, x) + dist(sy, y)
}

/// The distance of the `i`-th queue element from the search's start.
pub open spec fn depth(start: (u32, u32), q: Seq<(u32, u32)>, i: int) -> int {
    l1i(start.0 as int, start.1 as int, q[i].0 as int, q[i].1 as int)
}

/// `p` was already processed: it stands before position `qi`.
pub open spec fn processed_in(q: Seq<(u32, u32)>, qi: int, x: int, y: int) -> bool {
    exists|i: int| 0 <= i < qi && q[i] == ((x as u32, y as u32))
}

/// The rank order the breadth-first frontier keeps: the queue is sorted
/// by distance from the start, the whole frontier spans at most two
/// neighbouring distance layers, everything strictly closer than the
/// element under the cursor is already processed, and everything up to
/// the cursor's layer is already discovered.
pub open spec fn bfs_rank_inv(
    w: int,
    h: int,
    q: Seq<(u32, u32)>,
    qi: int,
    start: (u32, u32),
) -> bool {
    let sx = start.0 as int;
    let sy = start.1 as int;
    &&& forall|i: int, j: int|
        #![trigger depth(start, q, i), depth(start, q, j)]
        0 <= i <= j < q.len() ==> depth(start, q, i) <= depth(start, q, j)
    &&& qi < q.len() ==> forall|j: int|
        0 <= j < q.len() ==> #[trigger] depth(start, q, j) <= depth(start, q, qi) + 1
    &&& qi < q.len() ==> forall|x: int, y: int|
        0 <= x < w && 0 <= y < h && #[trigger] l1i(sx, sy, x, y) < depth(start, q, qi)
            ==> processed_in(q, qi, x, y)
    &&& qi < q.len() ==> forall|x: int, y: int|
        0 <= x < w && 0 <= y < h && #[trigger] l1i(sx, sy, x, y) <= depth(start, q, qi)
            ==> in_queue(q, (x as u32, y as u32))
}

/// One grid step from `(cx, cy)` toward `(sx, sy)`: a cell both adjacent
/// to `(cx, cy)` and one step closer to the start, with each coordinate
/// between the two.
proof fn lemma_step_toward(sx: int, sy: int, cx: int, cy: int) -> (n: (int, int))
    requires
        l1i(sx, sy, cx, cy) >= 1,
    ensures
        l1i(sx, sy, n.0, n.1) == l1i(sx, sy, cx, cy) - 1,
        l1i(n.0, n.1, cx, cy) == 1,
        if cx <= sx { cx <= n.0 <= sx } else { sx <= n.0 <= cx },
        if cy <= sy { cy <= n.1 <= sy } else { sy <= n.1 <= cy },
    {
    if cx > sx {
        (cx - 1, cy)
    } else if cx < sx {
        (cx + 1, cy)
    } else if cy > sy {
        (cx, cy - 1)
    } else {
        (cx, cy + 1)
    }
}

/// Walking along a row inside a neighbour-closed marked set stays marked.
proof fn lemma_walk_x(v: Seq<bool>, w: int, h: int, x: int, y: int, tx: int)
    requires
        closed_under_neighbors(v, w, h),
        0 <= x < w,
        0 <= y < h,
        0 <= tx < w,
        grid_get(v, w, x, y),
    ensures
        grid_get(v, w, tx, y),
    decreases dist(x, tx),
{
    if x < tx {
        lemma_walk_x(v, w, h, x + 1, y, tx);
    } else if x > tx {
        lemma_walk_x(v, w, h, x - 1, y, tx);
    }
}

/// Walking along a column inside a neighbour-closed marked set stays marked.
proof fn lemma_walk_y(v: Seq<bool>, w: int, h: int, x: int, y: int, ty: int)
    requires
        closed_under_neighbors(v, w, h),
        0 <= x < w,
        0 <= y < h,
        0 <= ty < h,
        grid_get(v, w, x, y),
    ensures
        grid_get(v, w, x, ty),
    decreases dist(y, ty),
{
    if y < ty {
        lemma_walk_y(v, w, h, x, y + 1, ty);
    } else if y > ty {
        lemma_walk_y(v, w, h, x, y - 1, ty);
    }
}

/// The 4-connected grid is fully connected: a neighbour-closed marked set
/// that holds one cell holds every cell.
pub proof fn lemma_grid_connected(v: Seq<bool>, w: int, h: int, sx: int, sy: int, tx: int, ty: int)
    requires
        closed_under_neighbors(v, w, h),
        0 <= sx < w,
        0 <= sy < h,
        0 <= tx < w,
        0 <= ty < h,
        grid_get(v, w, sx, sy),
    ensures
        grid_get(v, w, tx, ty),
{
    lemma_walk_y(v, w, h, sx, sy, ty);
    lemma_walk_x(v, w, h, sx, ty, tx);
}

/// The whole state the breadth-first search maintains: `v` marks visited
/// pixels, `q` is the frontier queue, `seen` is the set of visited
/// row-major indices, and the first `qi` queue entries are processed.
pub open spec fn bfs_inv(
    raster: GrayRaster,
    v: Seq<bool>,
    q: Seq<(u32, u32)>,
    seen: Set<int>,
    qi: int,
    start: (u32, u32),
    test: PixelTest,
) -> bool {
    let w = raster.width as int;
    let h = raster.height as int;
    &&& v.len() == w * h
    &&& 0 <= qi <= q.len()
    &&& seen.finite()
    &&& seen.len() == q.len()
    &&& forall|id: int| #[trigger] seen.contains(id) <==> 0 <= id < w * h && v[id]
    &&& forall|i: int|
        0 <= i < q.len() ==> {
            let p = #[trigger] q[i];
            &&& p.0 < raster.width
            &&& p.1 < raster.height
            &&& grid_get(v, w, p.0 as int, p.1 as int)
        }
    &&& forall|x: int, y: int|
        0 <= x < w && 0 <= y < h && #[trigger] grid_get(v, w, x, y) ==> in_queue(
            q,
            (x as u32, y as u32),
        )
    &&& forall|i: int|
        0 <= i < qi ==> !test.holds(
            raster.pix((#[trigger] q[i]).0 as int, q[i].1 as int),
        )
    &&& forall|i: int|
        0 <= i < qi ==> neighbors_marked(v, w, h, (#[trigger] q[i]).0 as int, q[i].1 as int)
    &&& q.len() >= 1
    &&& q[0] == start
}

/// Marking one fresh in-bounds pixel and queueing it keeps the search
/// state consistent.
proof fn lemma_bfs_push(
    raster: GrayRaster,
    v: Seq<bool>,
    q: Seq<(u32, u32)>,
    seen: Set<int>,
    qi: int,
    start: (u32, u32),
    test: PixelTest,
    nx: u32,
    ny: u32,
)
    requires
        bfs_inv(raster, v, q, seen, qi, start, test),
        nx < raster.width,
        ny < raster.height,
        !grid_get(v, raster.width as int, nx as int, ny as int),
    ensures
        bfs_inv(
            raster,
            v.update(ny * raster.width + nx, true),
            q.push((nx, ny)),
            seen.insert(ny * raster.width + nx),
            qi,
            start,
            test,
        ),
{
    let w = raster.width as int;
    let h = raster.height as int;
    let nid = ny * raster.width + nx;
    let v2 = v.update(nid, true);
    let q2 = q.push((nx, ny));
    let seen2 = seen.insert(nid);
    lemma_row_major_index(w, h, nx as int, ny as int);
    assert(!seen.contains(nid));
    assert(seen2.len() == q2.len());
    assert forall|id: int| #[trigger] seen2.contains(id) implies 0 <= id < w * h && v2[id] by {
        if id != nid {
            assert(seen.contains(id));
        }
    }
    assert forall|id: int| 0 <= id < w * h && v2[id] implies seen2.contains(id) by {
        if id != nid {
            assert(seen.contains(id));
        }
    }
    assert forall|x: int, y: int|
        0 <= x < w && 0 <= y < h && #[trigger] grid_get(v2, w, x, y) implies in_queue(
        q2,
        (x as u32, y as u32),
    ) by {
        lemma_row_major_index(w, h, x, y);
        if y * w + x == nid {
            assert(y * w + x == (ny as int) * w + (nx as int));
            assert((y - ny) * w == (nx as int) - x) by (nonlinear_arith)
                requires
                    y * w + x == (ny as int) * w + (nx as int),
            ;
            assert(x == nx as int && y == ny as int) by (nonlinear_arith)
                requires
                    (y - ny as int) * w == (nx as int) - x,
                    0 <= x < w,
                    0 <= (nx as int) && (nx as int) < w,
                    0 <= y,
                    0 <= (ny as int),
            ;
            assert(q2[q.len() as int] == (nx, ny));
        } else {
            assert(grid_get(v, w, x, y));
            let i = choose|i: int| 0 <= i < q.len() && q[i] == ((x as u32, y as u32));
            assert(q2[i] == ((x as u32, y as u32)));
        }
    }
    assert forall|i: int|
        0 <= i < q2.len() implies {
            let p = #[trigger] q2[i];
            &&& p.0 < raster.width
            &&& p.1 < raster.height
            &&& grid_get(v2, w, p.0 as int, p.1 as int)
        } by {
        if i < q.len() {
            assert(q2[i] == q[i]);
            let p = q[i];
            assert(grid_get(v, w, p.0 as int, p.1 as int));
            lemma_row_major_index(w, h, p.0 as int, p.1 as int);
            assert(grid_get(v2, w, p.0 as int, p.1 as int));
        } else {
            assert(q2[i] == (nx, ny));
            assert(v2[nid]);
        }
    }
    assert forall|i: int| 0 <= i < qi implies !test.holds(
        raster.pix((#[trigger] q2[i]).0 as int, q2[i].1 as int),
    ) by {
        assert(q2[i] == q[i]);
    }
    assert forall|i: int| 0 <= i < qi implies neighbors_marked(
        v2,
        w,
        h,
        (#[trigger] q2[i]).0 as int,
        q2[i].1 as int,
    ) by {
        assert(q2[i] == q[i]);
        assert(neighbors_marked(v, w, h, q[i].0 as int, q[i].1 as int));
        let px = q[i].0 as int;
        let py = q[i].1 as int;
        if px > 0 {
            lemma_row_major_index(w, h, px - 1, py);
            assert(grid_get(v2, w, px - 1, py));
        }
        if px < w - 1 {
            lemma_row_major_index(w, h, px + 1, py);
            assert(grid_get(v2, w, px + 1, py));
        }
        if py > 0 {
            lemma_row_major_index(w, h, px, py - 1);
            assert(grid_get(v2, w, px, py - 1));
        }
        if py < h - 1 {
            lemma_row_major_index(w, h, px, py + 1);
            assert(grid_get(v2, w, px, py + 1));
        }
    }
}

/// Queueing an unvisited neighbour of the element under the cursor
/// keeps the frontier's rank order: such a cell sits exactly one layer
/// beyond the cursor, since a closer cell would have been visited.
proof fn lemma_rank_push(
    raster: GrayRaster,
    v: Seq<bool>,
    q: Seq<(u32, u32)>,
    seen: Set<int>,
    qi: int,
    start: (u32, u32),
    test: PixelTest,
    nx: u32,
    ny: u32,
)
    requires
        bfs_inv(raster, v, q, seen, qi, start, test),
        bfs_rank_inv(raster.width as int, raster.height as int, q, qi, start),
        qi < q.len(),
        l1i(q[qi].0 as int, q[qi].1 as int, nx as int, ny as int) == 1,
        nx < raster.width,
        ny < raster.height,
        !grid_get(v, raster.width as int, nx as int, ny as int),
    ensures
        bfs_rank_inv(raster.width as int, raster.height as int, q.push((nx, ny)), qi, start),
{
    let w = raster.width as int;
    let h = raster.height as int;
    let sx = start.0 as int;
    let sy = start.1 as int;
    let q2 = q.push((nx, ny));
    let cur = depth(start, q, qi);
    let dnb = l1i(sx, sy, nx as int, ny as int);
    assert(dnb == cur - 1 || dnb == cur + 1);
    if dnb == cur - 1 {
        assert(processed_in(q, qi, nx as int, ny as int));
        let i = choose|i: int| 0 <= i < qi && q[i] == ((nx, ny));
        assert(q[i] == ((nx, ny)));
        assert(grid_get(v, w, q[i].0 as int, q[i].1 as int));
        assert(false);
    }
    assert forall|i: int, j: int|
        #![trigger depth(start, q2, i), depth(start, q2, j)]
        0 <= i <= j < q2.len() implies depth(start, q2, i) <= depth(start, q2, j) by {
        if j < q.len() {
            assert(q2[i] == q[i] && q2[j] == q[j]);
            assert(depth(start, q, i) <= depth(start, q, j));
        } else {
            assert(q2[j] == ((nx, ny)));
            if i < q.len() {
                assert(q2[i] == q[i]);
                assert(depth(start, q, i) <= cur + 1);
            }
        }
    }
    assert forall|j: int| 0 <= j < q2.len() implies #[trigger] depth(start, q2, j) <= depth(
        start,
        q2,
        qi,
    ) + 1 by {
        assert(q2[qi] == q[qi]);
        if j < q.len() {
            assert(q2[j] == q[j]);
            assert(depth(start, q, j) <= cur + 1);
        }
    }
    assert forall|x: int, y: int|
        0 <= x < w && 0 <= y < h && #[trigger] l1i(sx, sy, x, y) < depth(start, q2, qi)
            implies processed_in(q2, qi, x, y) by {
        assert(q2[qi] == q[qi]);
        assert(processed_in(q, qi, x, y));
        let i = choose|i: int| 0 <= i < qi && q[i] == ((x as u32, y as u32));
        assert(q2[i] == ((x as u32, y as u32)));
    }
    assert forall|x: int, y: int|
        0 <= x < w && 0 <= y < h && #[trigger] l1i(sx, sy, x, y) <= depth(start, q2, qi)
            implies in_queue(q2, (x as u32, y as u32)) by {
        assert(q2[qi] == q[qi]);
        assert(in_queue(q, (x as u32, y as u32)));
        let i = choose|i: int| 0 <= i < q.len() && q[i] == ((x as u32, y as u32));
        assert(q2[i] == ((x as u32, y as u32)));
    }
}

/// Moving the cursor past a processed element keeps the rank order:
/// when the cursor steps into the next layer, every cell of the finished
/// layers is processed, and every cell of the new layer was discovered
/// through some processed neighbour one step closer to the start.
proof fn lemma_rank_step(
    raster: GrayRaster,
    v: Seq<bool>,
    q: Seq<(u32, u32)>,
    seen: Set<int>,
    qi: int,
    start: (u32, u32),
    test: PixelTest,
)
    requires
        bfs_inv(raster, v, q, seen, qi + 1, start, test),
        bfs_rank_inv(raster.width as int, raster.height as int, q, qi, start),
        0 <= qi < q.len(),
    ensures
        bfs_rank_inv(raster.width as int, raster.height as int, q, qi + 1, start),
{
    let w = raster.width as int;
    let h = raster.height as int;
    let sx = start.0 as int;
    let sy = start.1 as int;
    if qi + 1 < q.len() {
        let cur = depth(start, q, qi);
        let cur2 = depth(start, q, qi + 1);
        assert(cur <= cur2);
        assert(cur2 <= cur + 1);
        assert forall|j: int| 0 <= j < q.len() implies #[trigger] depth(start, q, j) <= cur2
            + 1 by {
            assert(depth(start, q, j) <= cur + 1);
        }
        assert forall|x: int, y: int|
            0 <= x < w && 0 <= y < h && #[trigger] l1i(sx, sy, x, y) <= cur2 implies in_queue(
            q,
            (x as u32, y as u32),
        ) by {
            if l1i(sx, sy, x, y) <= cur {
                assert(in_queue(q, (x as u32, y as u32)));
            } else {
                let n = lemma_step_toward(sx, sy, x, y);
                assert(l1i(sx, sy, n.0, n.1) == cur);
                assert(0 <= n.0 < w && 0 <= n.1 < h);
                assert(in_queue(q, (n.0 as u32, n.1 as u32)));
                let i_n = choose|i: int|
                    0 <= i < q.len() && q[i] == ((n.0 as u32, n.1 as u32));
                assert(q[i_n] == ((n.0 as u32, n.1 as u32)));
                assert(depth(start, q, i_n) == cur);
                if i_n >= qi + 1 {
                    assert(depth(start, q, qi + 1) <= depth(start, q, i_n));
                    assert(false);
                }
                assert(neighbors_marked(v, w, h, q[i_n].0 as int, q[i_n].1 as int));
                if x == n.0 - 1 && y == n.1 {
                    assert(grid_get(v, w, x, y));
                } else if x == n.0 + 1 && y == n.1 {
                    assert(grid_get(v, w, x, y));
                } else if x == n.0 && y == n.1 - 1 {
                    assert(grid_get(v, w, x, y));
                } else {
                    assert(x == n.0 && y == n.1 + 1);
                    assert(grid_get(v, w, x, y));
                }
                assert(in_queue(q, (x as u32, y as u32)));
            }
        }
        assert forall|x: int, y: int|
            0 <= x < w && 0 <= y < h && #[trigger] l1i(sx, sy, x, y) < cur2
                implies processed_in(q, qi + 1, x, y) by {
            assert(in_queue(q, (x as u32, y as u32)));
            let i = choose|i: int| 0 <= i < q.len() && q[i] == ((x as u32, y as u32));
            assert(q[i] == ((x as u32, y as u32)));
            assert(depth(start, q, i) == l1i(sx, sy, x, y));
            if i >= qi + 1 {
                assert(depth(start, q, qi + 1) <= depth(start, q, i));
                assert(false);
            }
        }
    }
}

/// When the processed element failed the test and all its neighbours are
/// marked, processing advances by one.
proof fn lemma_bfs_step(
    raster: GrayRaster,
    v: Seq<bool>,
    q: Seq<(u32, u32)>,
    seen: Set<int>,
    qi: int,
    start: (u32, u32),
    test: PixelTest,
)
    requires
        bfs_inv(raster, v, q, seen, qi, start, test),
        qi < q.len(),
        !test.holds(raster.pix(q[qi].0 as int, q[qi].1 as int)),
        neighbors_marked(v, raster.width as int, raster.height as int, q[qi].0 as int, q[qi].1 as int),
    ensures
        bfs_inv(raster, v, q, seen, qi + 1, start, test),
{
}

/// The queue never outgrows the pixel grid.
proof fn lemma_bfs_len_bound(
    raster: GrayRaster,
    v: Seq<bool>,
    q: Seq<(u32, u32)>,
    seen: Set<int>,
    qi: int,
    start: (u32, u32),
    test: PixelTest,
)
    requires
        bfs_inv(raster, v, q, seen, qi, start, test),
    ensures
        q.len() <= raster.width * raster.height,
{
    let w = raster.width as int;
    let h = raster.height as int;
    lemma_int_range(0, w * h);
    assert(seen.subset_of(set_int_range(0, w * h)));
    lemma_len_subset(seen, set_int_range(0, w * h));
}

/// A finished search has visited every pixel, and none of them passed.
proof fn lemma_bfs_none(
    raster: GrayRaster,
    v: Seq<bool>,
    q: Seq<(u32, u32)>,
    seen: Set<int>,
    qi: int,
    start: (u32, u32),
    test: PixelTest,
)
    requires
        bfs_inv(raster, v, q, seen, qi, start, test),
        qi == q.len(),
    ensures
        no_pixel_matches(raster, test),
{
    let w = raster.width as int;
    let h = raster.height as int;
    assert forall|x: int, y: int|
        0 <= x < w && 0 <= y < h && #[trigger] grid_get(v, w, x, y) implies neighbors_marked(
        v,
        w,
        h,
        x,
        y,
    ) by {
        let p = (x as u32, y as u32);
        let i = choose|i: int| 0 <= i < q.len() && q[i] == p;
        assert(q[i] == p);
    }
    assert(grid_get(v, w, start.0 as int, start.1 as int));
    assert forall|x: int, y: int| raster.in_bounds(x, y) implies !test.holds(
        #[trigger] raster.pix(x, y),
    ) by {
        lemma_grid_connected(v, w, h, start.0 as int, start.1 as int, x, y);
        let p = (x as u32, y as u32);
        let i = choose|i: int| 0 <= i < q.len() && q[i] == p;
        assert(q[i] == p);
        assert(!test.holds(raster.pix(q[i].0 as int, q[i].1 as int)));
    }
}

/// Mark and enqueue the neighbour `(nx, ny)` unless it was already
/// visited, keeping the whole search state consistent.
fn bfs_try_push(
    raster: &GrayRaster,
    visited: &mut Vec<bool>,
    queue: &mut Vec<(u32, u32)>,
    Ghost(seen): Ghost<Set<int>>,
    qi: usize,
    start: (u32, u32),
    test: PixelTest,
    nx: u32,
    ny: u32,
) -> (res: Ghost<Set<int>>)
    requires
        raster.wf(),
        bfs_inv(*raster, old(visited)@, old(queue)@, seen, qi as int, start, test),
        bfs_rank_inv(raster.width as int, raster.height as int, old(queue)@, qi as int, start),
        qi < old(queue)@.len(),
        l1i(
            old(queue)@[qi as int].0 as int,
            old(queue)@[qi as int].1 as int,
            nx as int,
            ny as int,
        ) == 1,
        nx < raster.width,
        ny < raster.height,
    ensures
        bfs_inv(*raster, final(visited)@, final(queue)@, res@, qi as int, start, test),
        bfs_rank_inv(raster.width as int, raster.height as int, final(queue)@, qi as int, start),
        final(queue)@.len() >= old(queue)@.len(),
        forall|i: int|
            0 <= i < old(queue)@.len() ==> #[trigger] final(queue)@[i] == old(queue)@[i],
        forall|id: int|
            0 <= id < old(visited)@.len() && old(visited)@[id] ==> #[trigger] final(visited)@[id],
        grid_get(final(visited)@, raster.width as int, nx as int, ny as int),
{
    let w = raster.width;
    let h = raster.height;
    proof {
        lemma_row_major_index(w as int, h as int, nx as int, ny as int);
    }
    let nid: usize = (ny as usize) * (w as usize) + (nx as usize);
    if !visited[nid] {
        proof {
            lemma_bfs_push(*raster, visited@, queue@, seen, qi as int, start, test, nx, ny);
            lemma_rank_push(*raster, visited@, queue@, seen, qi as int, start, test, nx, ny);
        }
        visited[nid] = true;
        queue.push((nx, ny));
        Ghost(seen.insert(nid as int))
    } else {
        Ghost(seen)
    }
}

/// Breadth-first search over the 4-connected pixel grid for the nearest
/// pixel passing `test`, exploring outward from `start` in distance rank.
/// Returns `None` exactly when no pixel of the raster passes the test;
/// a start pixel that already passes is returned unchanged.
#[verifier::loop_isolation(false)]
#[verifier::rlimit(100)]
pub fn find_point(start: (u32, u32), raster: &GrayRaster, test: PixelTest) -> (r: Option<
    (u32, u32),
>)
    requires
        raster.wf(),
        raster.in_bounds(start.0 as int, start.1 as int),
    ensures
        match r {
            Some(p) => {
                &&& raster.in_bounds(p.0 as int, p.1 as int)
                &&& test.holds(raster.pix(p.0 as int, p.1 as int))
                &&& forall|x: int, y: int|
                    raster.in_bounds(x, y) && test.holds(#[trigger] raster.pix(x, y))
                        ==> l1i(start.0 as int, start.1 as int, p.0 as int, p.1 as int) <= l1i(
                        start.0 as int,
                        start.1 as int,
                        x,
                        y,
                    )
            },
            None => no_pixel_matches(*raster, test),
        },
        test.holds(raster.pix(start.0 as int, start.1 as int)) ==> r == Some(start),
{
    let w = raster.width;
    let h = raster.height;
    let n: usize = (w as usize) * (h as usize);
    let mut visited: Vec<bool> = Vec::new();
    while visited.len() < n
        invariant
            visited@.len() <= n,
            forall|i: int| 0 <= i < visited@.len() ==> !visited@[i],
        decreases n - visited@.len(),
    {
        visited.push(false);
    }
    let (sx, sy) = start;
    proof {
        lemma_row_major_index(w as int, h as int, sx as int, sy as int);
    }
    let sid: usize = (sy as usize) * (w as usize) + (sx as usize);
    visited[sid] = true;
    let mut queue: Vec<(u32, u32)> = Vec::new();
    queue.push(start);
    let ghost mut seen: Set<int> = Set::empty().insert(sid as int);
    let mut qi: usize = 0;
    proof {
        assert forall|x: int, y: int|
            0 <= x < w as int && 0 <= y < h as int && #[trigger] grid_get(
                visited@,
                w as int,
                x,
                y,
            ) implies in_queue(queue@, (x as u32, y as u32)) by {
            lemma_row_major_index(w as int, h as int, x, y);
            if y * (w as int) + x != sid as int {
                assert(false);
            } else {
                assert((y - sy as int) * (w as int) == (sx as int) - x) by (nonlinear_arith)
                    requires
                        y * (w as int) + x == (sy as int) * (w as int) + (sx as int),
                ;
                assert(x == sx as int && y == sy as int) by (nonlinear_arith)
                    requires
                        (y - sy as int) * (w as int) == (sx as int) - x,
                        0 <= x < w as int,
                        0 <= (sx as int) && (sx as int) < w as int,
                        0 <= y,
                        0 <= (sy as int),
                ;
                assert(queue@[0] == (x as u32, y as u32));
            }
        }
        assert(bfs_inv(*raster, visited@, queue@, seen, qi as int, start, test));
        assert forall|x: int, y: int|
            0 <= x < w as int && 0 <= y < h as int && #[trigger] l1i(
                sx as int,
                sy as int,
                x,
                y,
            ) <= depth(start, queue@, 0) implies in_queue(queue@, (x as u32, y as u32)) by {
            assert(l1i(sx as int, sy as int, x, y) == 0);
            assert(x == sx as int && y == sy as int);
            assert(queue@[0] == (x as u32, y as u32));
        }
        assert(bfs_rank_inv(w as int, h as int, queue@, qi as int, start));
    }
    while qi < queue.len()
        invariant
            bfs_inv(*raster, visited@, queue@, seen, qi as int, start, test),
            bfs_rank_inv(w as int, h as int, queue@, qi as int, start),
            qi > 0 ==> !test.holds(raster.pix(start.0 as int, start.1 as int)),
        decreases raster.width * raster.height - qi,
    {
        let p = queue[qi];
        let (px, py) = p;
        let lum = raster.get(px, py);
        if test.check(lum) {
            proof {
                assert forall|x: int, y: int|
                    raster.in_bounds(x, y) && test.holds(#[trigger] raster.pix(x, y))
                        implies l1i(sx as int, sy as int, px as int, py as int) <= l1i(
                    sx as int,
                    sy as int,
                    x,
                    y,
                ) by {
                    if l1i(sx as int, sy as int, x, y) < depth(start, queue@, qi as int) {
                        assert(processed_in(queue@, qi as int, x, y));
                        let i = choose|i: int|
                            0 <= i < qi && queue@[i] == ((x as u32, y as u32));
                        assert(queue@[i] == ((x as u32, y as u32)));
                        assert(!test.holds(raster.pix(queue@[i].0 as int, queue@[i].1 as int)));
                        assert(false);
                    }
                }
            }
            return Some(p);
        }
        if px > 0 {
            let g = bfs_try_push(raster, &mut visited, &mut queue, Ghost(seen), qi, start, test, px - 1, py);
            proof {
                seen = g@;
            }
        }
        if py > 0 {
            proof {
                assert(queue@[qi as int] == p);
            }
            let g = bfs_try_push(raster, &mut visited, &mut queue, Ghost(seen), qi, start, test, px, py - 1);
            proof {
                seen = g@;
            }
        }
        if px + 1 < w {
            proof {
                assert(queue@[qi as int] == p);
            }
            let g = bfs_try_push(raster, &mut visited, &mut queue, Ghost(seen), qi, start, test, px + 1, py);
            proof {
                seen = g@;
            }
        }
        if py + 1 < h {
            proof {
                assert(queue@[qi as int] == p);
            }
            let g = bfs_try_push(raster, &mut visited, &mut queue, Ghost(seen), qi, start, test, px, py + 1);
            proof {
                seen = g@;
            }
        }
        proof {
            if px > 0 {
                lemma_row_major_index(w as int, h as int, px - 1, py as int);
                assert(grid_get(visited@, w as int, px - 1, py as int));
            }
            if py > 0 {
                lemma_row_major_index(w as int, h as int, px as int, py - 1);
                assert(grid_get(visited@, w as int, px as int, py - 1));
            }
            if px + 1 < w {
                lemma_row_major_index(w as int, h as int, px + 1, py as int);
                assert(grid_get(visited@, w as int, px + 1, py as int));
            }
            if py + 1 < h {
                lemma_row_major_index(w as int, h as int, px as int, py + 1);
                assert(grid_get(visited@, w as int, px as int, py + 1));
            }
            assert(neighbors_marked(
                visited@,
                w as int,
                h as int,
                px as int,
                py as int,
            ));
            lemma_bfs_step(*raster, visited@, queue@, seen, qi as int, start, test);
            lemma_rank_step(*raster, visited@, queue@, seen, qi as int, start, test);
            lemma_bfs_len_bound(*raster, visited@, queue@, seen, qi as int + 1, start, test);
        }
        qi = qi + 1;
    }
    proof {
        lemma_bfs_none(*raster, visited@, queue@, seen, qi as int, start, test);
    }
    None
}

} // verus!
