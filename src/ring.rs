//! Diamond rings: the cells at an exact Manhattan distance from a centre.
use vstd::prelude::*;

use crate::coords::Coords;
use crate::grid::{cell_if_in, coords_in, in_bounds, manhattan, Grid, MAX_CELLS};

verus! {

/// Step `k` of edge `e` of the diamond of radius `d` around `c`, as an
/// offset-free point. Edge 0 runs from the top towards the right corner,
/// edge 1 from the right corner down, edge 2 from the bottom towards the
/// left corner, edge 3 from the left corner up.
pub open spec fn ring_point(c: Coords, d: int, e: int, k: int) -> (int, int) {
    let x = c.x as int;
    let y = c.y as int;
    if e == 0 {
        (x + k, y + d - k)
    } else if e == 1 {
        (x + d - k, y - k)
    } else if e == 2 {
        (x - k, y - d + k)
    } else {
        (x - d + k, y + k)
    }
}

/// The on-board cells among the first `k` steps of edge `e`, in order.
pub open spec fn edge_cells(w: int, h: int, c: Coords, d: int, e: int, k: int) -> Seq<Coords>
    decreases k,
{
    if k <= 0 {
        Seq::empty()
    } else {
        let p = ring_point(c, d, e, k - 1);
        edge_cells(w, h, c, d, e, k - 1) + cell_if_in(w, h, p.0, p.1)
    }
}

/// The on-board cells at Manhattan distance exactly `d` from `c`: the
/// centre alone for `d == 0`, else the walk over the four edges of the
/// diamond, starting at the top and going clockwise.
pub open spec fn diamond_ring_of(w: int, h: int, c: Coords, d: int) -> Seq<Coords> {
    if d == 0 {
        cell_if_in(w, h, c.x as int, c.y as int)
    } else {
        edge_cells(w, h, c, d, 0, d) + edge_cells(w, h, c, d, 1, d) + edge_cells(w, h, c, d, 2, d)
            + edge_cells(w, h, c, d, 3, d)
    }
}

/// Whether `m` lies in the part of the plane around `c` that edge `e` walks.
spec fn in_quadrant(c: Coords, e: int, m: Coords) -> bool {
    let dx = m.x - c.x;
    let dy = m.y - c.y;
    if e == 0 {
        dx >= 0 && dy > 0
    } else if e == 1 {
        dx > 0 && dy <= 0
    } else if e == 2 {
        dx <= 0 && dy < 0
    } else {
        dx < 0 && dy >= 0
    }
}

/// Which step of edge `e` reaches `m`.
spec fn edge_step(c: Coords, e: int, m: Coords) -> int {
    let dx = m.x - c.x;
    let dy = m.y - c.y;
    if e == 0 {
        dx
    } else if e == 1 {
        -dy
    } else if e == 2 {
        -dx
    } else {
        dy
    }
}

/// The cells of an edge lie on the board, at distance `d`, in the edge's
/// quadrant, at steps below `k`, in increasing order of step; so they are
/// distinct, and there are at most `k` of them.
proof fn lemma_edge_cells(w: int, h: int, c: Coords, d: int, e: int, k: int)
    requires
        0 <= e < 4,
        0 <= k <= d,
        w <= MAX_CELLS,
        h <= MAX_CELLS,
    ensures
        edge_cells(w, h, c, d, e, k).len() <= k,
        edge_cells(w, h, c, d, e, k).no_duplicates(),
        forall|t: int|
            0 <= t < edge_cells(w, h, c, d, e, k).len() ==> {
                let m = #[trigger] edge_cells(w, h, c, d, e, k)[t];
                &&& coords_in(w, h, m)
                &&& manhattan(m, c) == d
                &&& in_quadrant(c, e, m)
                &&& 0 <= edge_step(c, e, m) < k
            },
    decreases k,
{
    if k > 0 {
        lemma_edge_cells(w, h, c, d, e, k - 1);
        let s = edge_cells(w, h, c, d, e, k - 1);
        let p = ring_point(c, d, e, k - 1);
        let q = cell_if_in(w, h, p.0, p.1);
        assert(edge_cells(w, h, c, d, e, k) == s + q);
        if q.len() == 1 {
            assert forall|t: int| 0 <= t < s.len() implies s[t] != q[0] by {
                assert(edge_step(c, e, s[t]) < k - 1);
                assert(edge_step(c, e, q[0]) == k - 1);
            }
            vstd::seq_lib::lemma_no_dup_in_concat(s, q);
        } else {
            assert(s + q =~= s);
        }
    }
}

/// Every on-board cell of the edge's quadrant at distance `d`, reached at a
/// step below `k`, is among the edge's first `k` cells.
proof fn lemma_edge_complete(w: int, h: int, c: Coords, d: int, e: int, k: int, m: Coords)
    requires
        0 <= e < 4,
        0 <= k <= d,
        coords_in(w, h, m),
        manhattan(m, c) == d,
        in_quadrant(c, e, m),
        0 <= edge_step(c, e, m) < k,
    ensures
        edge_cells(w, h, c, d, e, k).contains(m),
    decreases k,
{
    let s = edge_cells(w, h, c, d, e, k - 1);
    let p = ring_point(c, d, e, k - 1);
    let q = cell_if_in(w, h, p.0, p.1);
    assert(edge_cells(w, h, c, d, e, k) == s + q);
    if edge_step(c, e, m) == k - 1 {
        assert(p == (m.x as int, m.y as int));
        assert((s + q)[s.len() as int] == m);
    } else {
        lemma_edge_complete(w, h, c, d, e, k - 1, m);
        let t = choose|t: int| 0 <= t < s.len() && s[t] == m;
        assert((s + q)[t] == m);
    }
}

/// When the whole diamond lies on the board, every edge keeps all `k` steps.
proof fn lemma_edge_full(w: int, h: int, c: Coords, d: int, e: int, k: int)
    requires
        0 <= k <= d,
        d <= c.x,
        c.x + d < w,
        d <= c.y,
        c.y + d < h,
    ensures
        edge_cells(w, h, c, d, e, k).len() == k,
    decreases k,
{
    if k > 0 {
        lemma_edge_full(w, h, c, d, e, k - 1);
    }
}

/// The ring around `c` at distance `d` holds, once each, exactly the
/// on-board cells at Manhattan distance `d` from `c`.
pub proof fn lemma_ring_members(w: int, h: int, c: Coords, d: int)
    requires
        0 <= d,
        w <= MAX_CELLS,
        h <= MAX_CELLS,
    ensures
        diamond_ring_of(w, h, c, d).no_duplicates(),
        forall|m: Coords|
            #[trigger] diamond_ring_of(w, h, c, d).contains(m) <==> (coords_in(w, h, m) && manhattan(m, c)
                == d),
{
    let r = diamond_ring_of(w, h, c, d);
    if d == 0 {
        assert forall|m: Coords| r.contains(m) <==> (coords_in(w, h, m) && manhattan(m, c) == d) by {
            if coords_in(w, h, m) && manhattan(m, c) == d {
                assert(m == c);
                assert(r[0] == m);
            }
        }
    } else {
        let e0 = edge_cells(w, h, c, d, 0, d);
        let e1 = edge_cells(w, h, c, d, 1, d);
        let e2 = edge_cells(w, h, c, d, 2, d);
        let e3 = edge_cells(w, h, c, d, 3, d);
        lemma_edge_cells(w, h, c, d, 0, d);
        lemma_edge_cells(w, h, c, d, 1, d);
        lemma_edge_cells(w, h, c, d, 2, d);
        lemma_edge_cells(w, h, c, d, 3, d);
        vstd::seq_lib::lemma_no_dup_in_concat(e0, e1);
        assert forall|i: int, j: int| 0 <= i < (e0 + e1).len() && 0 <= j < e2.len() implies (e0
            + e1)[i] != e2[j] by {
            if i < e0.len() {
                assert((e0 + e1)[i] == e0[i]);
            } else {
                assert((e0 + e1)[i] == e1[i - e0.len()]);
            }
        }
        vstd::seq_lib::lemma_no_dup_in_concat(e0 + e1, e2);
        assert forall|i: int, j: int| 0 <= i < (e0 + e1 + e2).len() && 0 <= j < e3.len() implies (
        e0 + e1 + e2)[i] != e3[j] by {
            if i < e0.len() {
                assert((e0 + e1 + e2)[i] == e0[i]);
            } else if i < e0.len() + e1.len() {
                assert((e0 + e1 + e2)[i] == e1[i - e0.len()]);
            } else {
                assert((e0 + e1 + e2)[i] == e2[i - e0.len() - e1.len()]);
            }
        }
        vstd::seq_lib::lemma_no_dup_in_concat(e0 + e1 + e2, e3);
        assert forall|m: Coords| r.contains(m) <==> (coords_in(w, h, m) && manhattan(m, c) == d) by {
            vstd::seq_lib::lemma_seq_concat_contains_all_elements(e0, e1, m);
            vstd::seq_lib::lemma_seq_concat_contains_all_elements(e0 + e1, e2, m);
            vstd::seq_lib::lemma_seq_concat_contains_all_elements(e0 + e1 + e2, e3, m);
            if coords_in(w, h, m) && manhattan(m, c) == d {
                let dx = m.x - c.x;
                let dy = m.y - c.y;
                if dx >= 0 && dy > 0 {
                    lemma_edge_complete(w, h, c, d, 0, d, m);
                } else if dx > 0 && dy <= 0 {
                    lemma_edge_complete(w, h, c, d, 1, d, m);
                } else if dx <= 0 && dy < 0 {
                    lemma_edge_complete(w, h, c, d, 2, d, m);
                } else {
                    lemma_edge_complete(w, h, c, d, 3, d, m);
                }
            }
        }
    }
}

/// Sizes of a ring: at most `4 * d` cells for `d > 0`, exactly `4 * d`
/// when the whole diamond lies on the board, and the centre alone for
/// `d == 0` when the centre lies on the board.
pub proof fn lemma_ring_size(w: int, h: int, c: Coords, d: int)
    requires
        0 <= d,
        w <= MAX_CELLS,
        h <= MAX_CELLS,
    ensures
        d > 0 ==> diamond_ring_of(w, h, c, d).len() <= 4 * d,
        d > 0 && d <= c.x && c.x + d < w && d <= c.y && c.y + d < h ==> diamond_ring_of(w, h, c, d).len()
            == 4 * d,
        d == 0 && coords_in(w, h, c) ==> diamond_ring_of(w, h, c, d) == seq![c],
{
    if d > 0 {
        lemma_edge_cells(w, h, c, d, 0, d);
        lemma_edge_cells(w, h, c, d, 1, d);
        lemma_edge_cells(w, h, c, d, 2, d);
        lemma_edge_cells(w, h, c, d, 3, d);
        if d <= c.x && c.x + d < w && d <= c.y && c.y + d < h {
            lemma_edge_full(w, h, c, d, 0, d);
            lemma_edge_full(w, h, c, d, 1, d);
            lemma_edge_full(w, h, c, d, 2, d);
            lemma_edge_full(w, h, c, d, 3, d);
        }
    } else if coords_in(w, h, c) {
        assert(diamond_ring_of(w, h, c, d) =~= seq![c]);
    }
}

impl Grid {
    /// Appends to `v` the on-board cells of edge `e` of the diamond of
    /// radius `d` around `center`.
    fn push_edge(&self, v: &mut Vec<Coords>, center: Coords, d: usize, e: u8)
        requires
            self.wf(),
            e < 4,
        ensures
            final(v)@ == old(v)@ + edge_cells(
                self.width as int,
                self.height as int,
                center,
                d as int,
                e as int,
                d as int,
            ),
    {
        let ghost w = self.width as int;
        let ghost h = self.height as int;
        let x = center.x as i128;
        let y = center.y as i128;
        let di = d as i128;
        let mut k: usize = 0;
        while k < d
            invariant
                self.wf(),
                w == self.width,
                h == self.height,
                e < 4,
                k <= d,
                x == center.x,
                y == center.y,
                di == d,
                v@ == old(v)@ + edge_cells(w, h, center, d as int, e as int, k as int),
            decreases d - k,
        {
            let ki = k as i128;
            let (px, py) = if e == 0 {
                (x + ki, y + di - ki)
            } else if e == 1 {
                (x + di - ki, y - ki)
            } else if e == 2 {
                (x - ki, y - di + ki)
            } else {
                (x - di + ki, y + ki)
            };
            assert((px as int, py as int) == ring_point(center, d as int, e as int, k as int));
            let ghost before = v@;
            if px >= 0 && px < self.width as i128 && py >= 0 && py < self.height as i128 {
                v.push(Coords { x: px as usize, y: py as usize });
            }
            assert(v@ =~= before + cell_if_in(w, h, px as int, py as int));
            assert(v@ =~= old(v)@ + edge_cells(w, h, center, d as int, e as int, k + 1));
            k = k + 1;
        }
    }

    /// The on-board cells at Manhattan distance exactly `distance` from
    /// `center`: the centre alone for distance 0, else a walk over the
    /// diamond starting at its top and going clockwise.
    pub fn get_diamond_ring(&self, center: Coords, distance: usize) -> (r: Vec<Coords>)
        requires
            self.wf(),
        ensures
            r@ == diamond_ring_of(self.width as int, self.height as int, center, distance as int),
            r@.no_duplicates(),
            forall|m: Coords| #[trigger] r@.contains(m) <==> (self.contains(m) && manhattan(m, center) == distance),
            distance > 0 ==> r@.len() <= 4 * distance,
            distance > 0 && distance <= center.x && center.x + distance < self.width && distance
                <= center.y && center.y + distance < self.height ==> r@.len() == 4 * distance,
            distance == 0 && self.contains(center) ==> r@ == seq![center],
    {
        proof {
            lemma_ring_members(self.width as int, self.height as int, center, distance as int);
            lemma_ring_size(self.width as int, self.height as int, center, distance as int);
        }
        let mut v: Vec<Coords> = Vec::new();
        if distance == 0 {
            if center.x < self.width && center.y < self.height {
                v.push(center);
            }
            assert(v@ =~= cell_if_in(self.width as int, self.height as int, center.x as int, center.y as int));
            return v;
        }
        self.push_edge(&mut v, center, distance, 0);
        self.push_edge(&mut v, center, distance, 1);
        self.push_edge(&mut v, center, distance, 2);
        self.push_edge(&mut v, center, distance, 3);
        assert(v@ =~= diamond_ring_of(self.width as int, self.height as int, center, distance as int));
        v
    }
}

} // verus!
