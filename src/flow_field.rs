//! The flow field: path weights towards a destination by uniform-cost
//! search, then a move direction for every cell by local descent.
use vstd::prelude::*;

use crate::coords::{axis_from_world, world_to_cell, Coords, WorldPos};
use crate::grid::{
    adjacent4, clamped, coords_in, coords_of, index_of, lemma_coords_index, lemma_index_coords,
    lemma_neighbours4, lemma_neighbours_on_board, manhattan, neighbours_of, Grid, Tile, MAX_CELLS, UNREACHED,
};

verus! {

/// `a` and `b` hold the same cells with the same positions, costs and
/// allegiances; weights and directions may differ.
pub open spec fn same_layout(a: Seq<Tile>, b: Seq<Tile>) -> bool {
    &&& a.len() == b.len()
    &&& forall|i: int|
        0 <= i < a.len() ==> {
            &&& (#[trigger] a[i]).coords == b[i].coords
            &&& a[i].cost == b[i].cost
            &&& a[i].tile_type == b[i].tile_type
        }
}

/// The weights of `g` settle towards the cell at array position `d`, where
/// a step pays the cost of the cell it enters: the destination weighs 0,
/// every weight is finite, no cell weighs more than an edge neighbour plus
/// its own cost, and every other cell weighs exactly that much over some
/// edge neighbour. With positive costs only the least path weights do so
/// (`lemma_settled_at_most`).
pub open spec fn weights_settled(g: Grid, d: int) -> bool {
    let t = g.tiles@;
    &&& t[d].weight == 0
    &&& forall|i: int| 0 <= i < t.len() ==> (#[trigger] t[i]).weight < UNREACHED
    &&& forall|i: int, j: int|
        0 <= i < t.len() && 0 <= j < t.len() && #[trigger] adjacent4(t[i].coords, t[j].coords)
            ==> t[i].weight <= t[j].weight + t[i].cost
    &&& forall|i: int|
        0 <= i < t.len() && i != d ==> #[trigger] has_parent(t, i)
}

/// Cell `i` of `t` weighs exactly its own cost more than some edge neighbour.
pub open spec fn has_parent(t: Seq<Tile>, i: int) -> bool {
    exists|j: int|
        0 <= j < t.len() && #[trigger] adjacent4(t[i].coords, t[j].coords) && t[i].weight
            == t[j].weight + t[i].cost
}

/// The weights of the cells, in array order.
pub open spec fn weights(t: Seq<Tile>) -> Seq<u32> {
    t.map_values(|x: Tile| x.weight)
}

/// Among the cells `ns`, the first one of least weight, where `ws` gives the
/// weights of a board of height `h`; none when `ns` is empty.
pub open spec fn lowest_of(ws: Seq<u32>, h: int, ns: Seq<Coords>) -> Option<Coords>
    decreases ns.len(),
{
    if ns.len() == 0 {
        None
    } else {
        let last = ns.last();
        match lowest_of(ws, h, ns.drop_last()) {
            None => Some(last),
            Some(best) => if ws[index_of(h, last)] < ws[index_of(h, best)] {
                Some(last)
            } else {
                Some(best)
            },
        }
    }
}

/// The direction of cell `i` of `g`: none at weight 0, else the first
/// lightest of its neighbours, corners included.
pub open spec fn direction_of(g: Grid, i: int) -> Option<Coords> {
    let t = g.tiles@;
    if t[i].weight == 0 {
        None
    } else {
        lowest_of(
            weights(t),
            g.height as int,
            neighbours_of(g.width as int, g.height as int, t[i].coords, true),
        )
    }
}

/// Every cell of `g` holds its direction.
pub open spec fn directions_set(g: Grid) -> bool {
    forall|i: int| 0 <= i < g.tiles@.len() ==> (#[trigger] g.tiles@[i]).next_pos == direction_of(g, i)
}

/// `after` is `before` with the flow field recomputed towards `dest`.
pub open spec fn recomputed(before: Grid, after: Grid, dest: Coords) -> bool {
    &&& after.wf()
    &&& after.width == before.width
    &&& after.height == before.height
    &&& same_layout(after.tiles@, before.tiles@)
    &&& before.contains(dest) ==> weights_settled(after, before.index(dest)) && directions_set(after)
    &&& !before.contains(dest) ==> forall|i: int|
        0 <= i < after.tiles@.len() ==> (#[trigger] after.tiles@[i]).weight == UNREACHED
            && after.tiles@[i].next_pos.is_none()
}

/// Sets the weight of cell `i`.
fn set_weight(grid: &mut Grid, i: usize, weight: u32)
    requires
        old(grid).wf(),
        i < old(grid).tiles@.len(),
    ensures
        final(grid).wf(),
        final(grid).width == old(grid).width,
        final(grid).height == old(grid).height,
        final(grid).tiles@ == old(grid).tiles@.update(i as int, Tile { weight, ..old(grid).tiles@[i as int] }),
{
    let mut t = grid.tiles[i];
    t.weight = weight;
    grid.tiles.set(i, t);
}

/// Sets the direction of cell `i`.
fn set_next(grid: &mut Grid, i: usize, next_pos: Option<Coords>)
    requires
        old(grid).wf(),
        i < old(grid).tiles@.len(),
    ensures
        final(grid).wf(),
        final(grid).width == old(grid).width,
        final(grid).height == old(grid).height,
        final(grid).tiles@ == old(grid).tiles@.update(i as int, Tile { next_pos, ..old(grid).tiles@[i as int] }),
{
    let mut t = grid.tiles[i];
    t.next_pos = next_pos;
    grid.tiles.set(i, t);
}

/// Clears every weight to `UNREACHED` and every direction to none.
fn reset_field(grid: &mut Grid)
    requires
        old(grid).wf(),
    ensures
        final(grid).wf(),
        final(grid).width == old(grid).width,
        final(grid).height == old(grid).height,
        same_layout(final(grid).tiles@, old(grid).tiles@),
        forall|i: int|
            0 <= i < final(grid).tiles@.len() ==> (#[trigger] final(grid).tiles@[i]).weight == UNREACHED
                && final(grid).tiles@[i].next_pos.is_none(),
{
    let ghost orig = grid.tiles@;
    let n = grid.tiles.len();
    let mut i: usize = 0;
    while i < n
        invariant
            grid.wf(),
            grid.width == old(grid).width,
            grid.height == old(grid).height,
            orig == old(grid).tiles@,
            n == grid.tiles@.len(),
            i <= n,
            same_layout(grid.tiles@, orig),
            forall|k: int|
                0 <= k < i ==> (#[trigger] grid.tiles@[k]).weight == UNREACHED
                    && grid.tiles@[k].next_pos.is_none(),
        decreases n - i,
    {
        set_weight(grid, i, UNREACHED);
        set_next(grid, i, None);
        i = i + 1;
    }
}

/// An on-board cell other than `dest` has an edge neighbour on the board
/// that lies one step closer to `dest`.
pub proof fn lemma_step_toward(g: Grid, i: int, dest: Coords) -> (j: int)
    requires
        g.wf(),
        g.contains(dest),
        0 <= i < g.size(),
        g.tiles@[i].coords != dest,
    ensures
        0 <= j < g.size(),
        adjacent4(g.tiles@[i].coords, g.tiles@[j].coords),
        manhattan(g.tiles@[j].coords, dest) == manhattan(g.tiles@[i].coords, dest) - 1,
{
    let c = g.tiles@[i].coords;
    lemma_coords_index(g.width as int, g.height as int, i);
    let m = if c.x > dest.x {
        Coords { x: (c.x - 1) as usize, y: c.y }
    } else if c.x < dest.x {
        Coords { x: (c.x + 1) as usize, y: c.y }
    } else if c.y > dest.y {
        Coords { x: c.x, y: (c.y - 1) as usize }
    } else {
        Coords { x: c.x, y: (c.y + 1) as usize }
    };
    lemma_index_coords(g.width as int, g.height as int, m);
    index_of(g.height as int, m)
}

/// If the cells marked in `closed` include `d` and every edge neighbour of a
/// marked cell, then every cell is marked.
proof fn lemma_closure_covers(g: Grid, closed: Seq<bool>, d: int, k: nat)
    requires
        g.wf(),
        closed.len() == g.size(),
        0 <= d < g.size(),
        closed[d],
        forall|c: int, j: int|
            0 <= c < g.size() && 0 <= j < g.size() && closed[c] && #[trigger] adjacent4(
                g.tiles@[c].coords,
                g.tiles@[j].coords,
            ) ==> closed[j],
    ensures
        forall|i: int|
            0 <= i < g.size() && manhattan(g.tiles@[i].coords, g.tiles@[d].coords) <= k
                ==> #[trigger] closed[i],
    decreases k,
{
    let dest = g.tiles@[d].coords;
    lemma_coords_index(g.width as int, g.height as int, d);
    if k > 0 {
        lemma_closure_covers(g, closed, d, (k - 1) as nat);
    }
    assert forall|i: int|
        0 <= i < g.size() && manhattan(g.tiles@[i].coords, dest) <= k implies #[trigger] closed[i] by {
        if g.tiles@[i].coords == dest {
            lemma_coords_index(g.width as int, g.height as int, i);
        } else {
            let j = lemma_step_toward(g, i, dest);
            assert(adjacent4(g.tiles@[j].coords, g.tiles@[i].coords));
        }
    }
}

/// Cell `i` of `t` weighs exactly its own cost more than some edge neighbour
/// marked in `closed`.
spec fn closed_parent(t: Seq<Tile>, closed: Seq<bool>, i: int) -> bool {
    exists|j: int|
        0 <= j < t.len() && closed[j] && #[trigger] adjacent4(t[i].coords, t[j].coords)
            && t[i].weight == t[j].weight + t[i].cost
}

/// `n` flags, all false.
fn all_false(n: usize) -> (r: Vec<bool>)
    ensures
        r@.len() == n,
        forall|i: int| 0 <= i < n ==> !(#[trigger] r@[i]),
{
    let mut r: Vec<bool> = Vec::new();
    let mut i: usize = 0;
    while i < n
        invariant
            i <= n,
            r@.len() == i,
            forall|k: int| 0 <= k < i ==> !(#[trigger] r@[k]),
        decreases n - i,
    {
        r.push(false);
        i = i + 1;
    }
    r
}

/// Position in `open` of the first of its cells of least weight.
fn lightest_open(tiles: &Vec<Tile>, open: &Vec<usize>) -> (p: usize)
    requires
        open@.len() > 0,
        forall|q: int| 0 <= q < open@.len() ==> #[trigger] open@[q] < tiles@.len(),
    ensures
        p < open@.len(),
        forall|q: int|
            0 <= q < open@.len() ==> tiles@[open@[p as int] as int].weight <= #[trigger] tiles@[open@[q] as int].weight,
{
    let mut p: usize = 0;
    let mut best: u32 = tiles[open[0]].weight;
    let mut k: usize = 1;
    while k < open.len()
        invariant
            open@.len() > 0,
            forall|q: int| 0 <= q < open@.len() ==> #[trigger] open@[q] < tiles@.len(),
            p < open@.len(),
            1 <= k <= open@.len(),
            best == tiles@[open@[p as int] as int].weight,
            forall|q: int| 0 <= q < k ==> best <= #[trigger] tiles@[open@[q] as int].weight,
        decreases open@.len() - k,
    {
        let w = tiles[open[k]].weight;
        if w < best {
            best = w;
            p = k;
        }
        k = k + 1;
    }
    p
}

/// Uniform-cost search from cell `d`: repeatedly closes the lightest open
/// cell and lowers the weight of each edge neighbour that is not closed to
/// the closed cell's weight plus the neighbour's cost, opening it.
#[verifier::rlimit(100)]
fn propagate_costs(grid: &mut Grid, d: usize)
    requires
        old(grid).wf(),
        d < old(grid).tiles@.len(),
        old(grid).tiles@[d as int].weight == 0,
        forall|i: int|
            0 <= i < old(grid).tiles@.len() && i != d ==> (#[trigger] old(grid).tiles@[i]).weight
                == UNREACHED,
    ensures
        final(grid).wf(),
        final(grid).width == old(grid).width,
        final(grid).height == old(grid).height,
        same_layout(final(grid).tiles@, old(grid).tiles@),
        weights_settled(*final(grid), d as int),
{
    let ghost orig = grid.tiles@;
    let n = grid.tiles.len();
    let mut closed = all_false(n);
    let mut queued = all_false(n);
    queued.set(d, true);
    let mut open: Vec<usize> = Vec::new();
    open.push(d);
    let ghost mut done: Set<int> = Set::empty();
    proof {
        assert forall|i: int| 0 <= i < n implies (#[trigger] queued@[i] <==> open@.contains(i as usize)) by {
            assert(open@ =~= seq![d]);
            if i == d {
                assert(open@[0] == d);
            }
        }
    }
    while open.len() > 0
        invariant
            grid.wf(),
            grid.width == old(grid).width,
            grid.height == old(grid).height,
            orig == old(grid).tiles@,
            same_layout(grid.tiles@, orig),
            n == grid.tiles@.len(),
            d < n,
            grid.tiles@[d as int].weight == 0,
            closed@.len() == n,
            queued@.len() == n,
            open@.no_duplicates(),
            forall|q: int| 0 <= q < open@.len() ==> #[trigger] open@[q] < n,
            forall|i: int| 0 <= i < n ==> (#[trigger] queued@[i] <==> open@.contains(i as usize)),
            forall|i: int| 0 <= i < n && #[trigger] closed@[i] ==> !queued@[i],
            done.finite(),
            done.len() <= n,
            forall|i: int| 0 <= i < n ==> (#[trigger] closed@[i] <==> done.contains(i)),
            forall|i: int| #[trigger] done.contains(i) ==> 0 <= i < n,
            forall|i: int|
                0 <= i < n ==> ((#[trigger] grid.tiles@[i]).weight < UNREACHED <==> (closed@[i]
                    || queued@[i])),
            forall|i: int|
                0 <= i < n && (#[trigger] grid.tiles@[i]).weight < UNREACHED ==> grid.tiles@[i].weight
                    <= 255 * done.len(),
            forall|c: int, o: int|
                0 <= c < n && 0 <= o < n && #[trigger] closed@[c] && #[trigger] queued@[o]
                    ==> grid.tiles@[c].weight <= grid.tiles@[o].weight,
            forall|i: int|
                0 <= i < n && i != d && (#[trigger] grid.tiles@[i]).weight < UNREACHED
                    ==> closed_parent(grid.tiles@, closed@, i),
            forall|c: int, j: int|
                0 <= c < n && 0 <= j < n && closed@[c] && #[trigger] adjacent4(
                    grid.tiles@[c].coords,
                    grid.tiles@[j].coords,
                ) ==> grid.tiles@[j].weight <= grid.tiles@[c].weight + grid.tiles@[j].cost,
        decreases n - done.len(),
    {
        let p = lightest_open(&grid.tiles, &open);
        let ghost open_before = open@;
        let cur = open.remove(p);
        let cw = grid.tiles[cur].weight;
        proof {
            assert(cur == open_before[p as int]);
            assert(queued@[cur as int]);
            assert(!closed@[cur as int]);
            assert(!done.contains(cur as int));
            vstd::set_lib::lemma_int_range(0, n as int);
            assert(done.insert(cur as int).subset_of(vstd::set_lib::set_int_range(0, n as int)));
            vstd::set_lib::lemma_len_subset(
                done.insert(cur as int),
                vstd::set_lib::set_int_range(0, n as int),
            );
            assert forall|o: int| 0 <= o < n && #[trigger] queued@[o] implies cw <= grid.tiles@[o].weight by {
                let q = choose|q: int| 0 <= q < open_before.len() && open_before[q] == o as usize;
                assert(grid.tiles@[open_before[q] as int].weight >= cw);
            }
            assert forall|i: int| 0 <= i < n && open@.contains(i as usize) implies queued@[i] && i != cur by {
                let q = choose|q: int| 0 <= q < open@.len() && open@[q] == i as usize;
                if q < p {
                    assert(open_before[q] == i as usize);
                } else {
                    assert(open_before[q + 1] == i as usize);
                }
            }
            assert forall|i: int| 0 <= i < n && queued@[i] && i != cur implies open@.contains(i as usize) by {
                let q = choose|q: int| 0 <= q < open_before.len() && open_before[q] == i as usize;
                if q < p {
                    assert(open@[q] == i as usize);
                } else {
                    assert(q != p);
                    assert(open@[q - 1] == i as usize);
                }
            }
        }
        queued.set(cur, false);
        closed.set(cur, true);
        proof {
            done = done.insert(cur as int);
        }
        let ns = grid.get_neighbours(grid.tiles[cur].coords, false);
        proof {
            assert forall|kk: int| 0 <= kk < ns@.len() implies coords_in(
                grid.width as int,
                grid.height as int,
                #[trigger] ns@[kk],
            ) && adjacent4(grid.tiles@[cur as int].coords, ns@[kk]) && 0 <= grid.index(ns@[kk]) < n by {
                lemma_neighbours4(grid.width as int, grid.height as int, grid.tiles@[cur as int].coords, ns@[kk]);
                lemma_index_coords(grid.width as int, grid.height as int, ns@[kk]);
            }
        }
        let mut k: usize = 0;
        while k < ns.len()
            invariant
                grid.wf(),
                grid.width == old(grid).width,
                grid.height == old(grid).height,
                same_layout(grid.tiles@, orig),
                n == grid.tiles@.len(),
                d < n,
                cur < n,
                grid.tiles@[d as int].weight == 0,
                grid.tiles@[cur as int].weight == cw,
                closed@[cur as int],
                cw <= 255 * (done.len() - 1),
                closed@.len() == n,
                queued@.len() == n,
                open@.no_duplicates(),
                forall|q: int| 0 <= q < open@.len() ==> #[trigger] open@[q] < n,
                forall|i: int| 0 <= i < n ==> (#[trigger] queued@[i] <==> open@.contains(i as usize)),
                forall|i: int| 0 <= i < n && #[trigger] closed@[i] ==> !queued@[i],
                done.finite(),
                done.len() <= n,
                forall|i: int| 0 <= i < n ==> (#[trigger] closed@[i] <==> done.contains(i)),
                forall|i: int| #[trigger] done.contains(i) ==> 0 <= i < n,
                forall|i: int|
                    0 <= i < n ==> ((#[trigger] grid.tiles@[i]).weight < UNREACHED <==> (closed@[i]
                        || queued@[i])),
                forall|i: int|
                    0 <= i < n && (#[trigger] grid.tiles@[i]).weight < UNREACHED ==> grid.tiles@[i].weight
                        <= 255 * done.len(),
                forall|c: int| 0 <= c < n && #[trigger] closed@[c] ==> grid.tiles@[c].weight <= cw,
                forall|c: int, o: int|
                    0 <= c < n && 0 <= o < n && #[trigger] closed@[c] && #[trigger] queued@[o]
                        ==> grid.tiles@[c].weight <= grid.tiles@[o].weight,
                forall|i: int|
                    0 <= i < n && i != d && (#[trigger] grid.tiles@[i]).weight < UNREACHED
                        ==> closed_parent(grid.tiles@, closed@, i),
                forall|c: int, j: int|
                    0 <= c < n && 0 <= j < n && c != cur && closed@[c] && #[trigger] adjacent4(
                        grid.tiles@[c].coords,
                        grid.tiles@[j].coords,
                    ) ==> grid.tiles@[j].weight <= grid.tiles@[c].weight + grid.tiles@[j].cost,
                forall|kk: int| 0 <= kk < ns@.len() ==> coords_in(
                    grid.width as int,
                    grid.height as int,
                    #[trigger] ns@[kk],
                ) && adjacent4(grid.tiles@[cur as int].coords, ns@[kk]) && 0 <= grid.index(ns@[kk]) < n,
                k <= ns@.len(),
                forall|kk: int|
                    0 <= kk < k ==> grid.tiles@[grid.index(#[trigger] ns@[kk])].weight <= cw
                        + grid.tiles@[grid.index(ns@[kk])].cost,
            decreases ns@.len() - k,
        {
            let m = ns[k];
            let j = grid.index_of_coords(m);
            if !closed[j] {
                let tentative: u32 = cw + grid.tiles[j].cost as u32;
                if tentative < grid.tiles[j].weight {
                    let ghost before = grid.tiles@;
                    set_weight(grid, j, tentative);
                    proof {
                        assert forall|i: int|
                            0 <= i < n && i != d && (#[trigger] grid.tiles@[i]).weight < UNREACHED
                                implies closed_parent(grid.tiles@, closed@, i) by {
                            if i == j {
                                assert(adjacent4(grid.tiles@[i].coords, grid.tiles@[cur as int].coords));
                            } else {
                                assert(closed_parent(before, closed@, i));
                                let pj = choose|pj: int|
                                    0 <= pj < before.len() && closed@[pj] && #[trigger] adjacent4(
                                        before[i].coords,
                                        before[pj].coords,
                                    ) && before[i].weight == before[pj].weight + before[i].cost;
                                assert(adjacent4(grid.tiles@[i].coords, grid.tiles@[pj].coords));
                            }
                        }
                    }
                    if !queued[j] {
                        let ghost q_old = queued@;
                        let ghost o_old = open@;
                        queued.set(j, true);
                        open.push(j);
                        proof {
                            assert forall|i: int| 0 <= i < n implies (#[trigger] queued@[i] <==> open@.contains(i as usize)) by {
                                if i != j {
                                    if open@.contains(i as usize) {
                                        let q = choose|q: int| 0 <= q < open@.len() && open@[q] == i as usize;
                                        assert(q < open@.len() - 1);
                                        assert(o_old[q] == i as usize);
                                        assert(q_old[i]);
                                    }
                                    if queued@[i] {
                                        assert(q_old[i]);
                                        assert(o_old.contains(i as usize));
                                        let q = choose|q: int| 0 <= q < o_old.len() && o_old[q] == i as usize;
                                        assert(open@[q] == i as usize);
                                    }
                                } else {
                                    assert(open@[open@.len() - 1] == j);
                                }
                            }
                        }
                    }
                }
            }
            k = k + 1;
        }
        proof {
            assert forall|j: int|
                0 <= j < n && #[trigger] adjacent4(grid.tiles@[cur as int].coords, grid.tiles@[j].coords)
                    implies grid.tiles@[j].weight <= cw + grid.tiles@[j].cost by {
                lemma_coords_index(grid.width as int, grid.height as int, j);
                lemma_neighbours4(grid.width as int, grid.height as int, grid.tiles@[cur as int].coords, grid.tiles@[j].coords);
                let kk = choose|kk: int| 0 <= kk < ns@.len() && ns@[kk] == grid.tiles@[j].coords;
                assert(grid.index(ns@[kk]) == j);
            }
        }
    }
    proof {
        assert forall|c: int, j: int|
            0 <= c < n && 0 <= j < n && closed@[c] && #[trigger] adjacent4(
                grid.tiles@[c].coords,
                grid.tiles@[j].coords,
            ) implies closed@[j] by {
            assert(grid.tiles@[c].weight < UNREACHED);
            assert(255 * done.len() <= 255 * MAX_CELLS);
            if queued@[j] {
                assert(open@.contains(j as usize));
            }
        }
        let g = *grid;
        lemma_closure_covers(g, closed@, d as int, (g.width + g.height) as nat);
        assert forall|i: int| 0 <= i < n implies #[trigger] closed@[i] by {
            lemma_coords_index(g.width as int, g.height as int, i);
            lemma_coords_index(g.width as int, g.height as int, d as int);
            assert(manhattan(g.tiles@[i].coords, g.tiles@[d as int].coords) <= g.width + g.height);
        }
        assert forall|i: int, j: int|
            0 <= i < n && 0 <= j < n && #[trigger] adjacent4(g.tiles@[i].coords, g.tiles@[j].coords)
                implies g.tiles@[i].weight <= g.tiles@[j].weight + g.tiles@[i].cost by {
            assert(closed@[j]);
            assert(adjacent4(g.tiles@[j].coords, g.tiles@[i].coords));
        }
        assert forall|i: int| 0 <= i < n && i != d implies #[trigger] has_parent(g.tiles@, i) by {
            assert(closed@[i]);
            assert(g.tiles@[i].weight < UNREACHED);
            assert(closed_parent(g.tiles@, closed@, i));
        }
        assert forall|i: int| 0 <= i < n implies (#[trigger] g.tiles@[i]).weight < UNREACHED by {
            assert(closed@[i]);
        }
    }
}

/// Among the on-board cells `ns`, the first one of least weight.
fn lowest_neighbour(grid: &Grid, ns: &Vec<Coords>) -> (r: Option<Coords>)
    requires
        grid.wf(),
        forall|k: int| 0 <= k < ns@.len() ==> grid.contains(#[trigger] ns@[k]),
    ensures
        r == lowest_of(weights(grid.tiles@), grid.height as int, ns@),
{
    let ghost ws = weights(grid.tiles@);
    let mut best: Option<Coords> = None;
    let mut best_w: u32 = 0;
    let mut k: usize = 0;
    while k < ns.len()
        invariant
            grid.wf(),
            ws == weights(grid.tiles@),
            forall|k: int| 0 <= k < ns@.len() ==> grid.contains(#[trigger] ns@[k]),
            k <= ns@.len(),
            best == lowest_of(ws, grid.height as int, ns@.subrange(0, k as int)),
            best.is_some() ==> grid.contains(best.unwrap()) && best_w == ws[grid.index(best.unwrap())],
        decreases ns@.len() - k,
    {
        let m = ns[k];
        let i = grid.index_of_coords(m);
        let w = grid.tiles[i].weight;
        proof {
            let pre = ns@.subrange(0, k as int + 1);
            assert(pre.drop_last() =~= ns@.subrange(0, k as int));
            assert(pre.last() == m);
        }
        match best {
            None => {
                best = Some(m);
                best_w = w;
            },
            Some(_) => {
                if w < best_w {
                    best = Some(m);
                    best_w = w;
                }
            },
        }
        k = k + 1;
    }
    proof {
        assert(ns@.subrange(0, ns@.len() as int) =~= ns@);
    }
    best
}

/// Points every cell at its first lightest neighbour, corners included, and
/// the cells of weight 0 at nothing.
fn derive_directions(grid: &mut Grid)
    requires
        old(grid).wf(),
    ensures
        final(grid).wf(),
        final(grid).width == old(grid).width,
        final(grid).height == old(grid).height,
        final(grid).tiles@.len() == old(grid).tiles@.len(),
        forall|i: int|
            0 <= i < final(grid).tiles@.len() ==> #[trigger] final(grid).tiles@[i] == (Tile {
                next_pos: final(grid).tiles@[i].next_pos,
                ..old(grid).tiles@[i]
            }),
        directions_set(*final(grid)),
{
    let ghost orig = grid.tiles@;
    let ghost ws = weights(grid.tiles@);
    let n = grid.tiles.len();
    let mut i: usize = 0;
    while i < n
        invariant
            grid.wf(),
            grid.width == old(grid).width,
            grid.height == old(grid).height,
            orig == old(grid).tiles@,
            ws == weights(orig),
            n == grid.tiles@.len(),
            n == orig.len(),
            i <= n,
            forall|k: int|
                0 <= k < n ==> #[trigger] grid.tiles@[k] == (Tile {
                    next_pos: grid.tiles@[k].next_pos,
                    ..orig[k]
                }),
            forall|k: int|
                0 <= k < i ==> (#[trigger] grid.tiles@[k]).next_pos == (if orig[k].weight == 0 {
                    None
                } else {
                    lowest_of(
                        ws,
                        grid.height as int,
                        neighbours_of(grid.width as int, grid.height as int, orig[k].coords, true),
                    )
                }),
        decreases n - i,
    {
        assert(weights(grid.tiles@) =~= ws);
        let t = grid.tiles[i];
        if t.weight == 0 {
            set_next(grid, i, None);
        } else {
            let ns = grid.get_neighbours(t.coords, true);
            proof {
                lemma_neighbours_on_board(grid.width as int, grid.height as int, t.coords, true);
                assert(forall|k: int| 0 <= k < ns@.len() ==> grid.contains(#[trigger] ns@[k]));
            }
            let next = lowest_neighbour(grid, &ns);
            set_next(grid, i, next);
        }
        i = i + 1;
    }
    proof {
        assert(weights(grid.tiles@) =~= ws);
    }
}

/// Weights that settle towards `d` stay settled when only directions change.
proof fn lemma_settled_keeps(a: Grid, b: Grid, d: int)
    requires
        weights_settled(a, d),
        a.tiles@.len() == b.tiles@.len(),
        0 <= d < a.tiles@.len(),
        forall|i: int|
            0 <= i < a.tiles@.len() ==> #[trigger] b.tiles@[i] == (Tile { next_pos: b.tiles@[i].next_pos, ..a.tiles@[i] }),
    ensures
        weights_settled(b, d),
{
    let s = a.tiles@;
    let t = b.tiles@;
    assert(t[d] == (Tile { next_pos: t[d].next_pos, ..s[d] }));
    assert forall|i: int| 0 <= i < t.len() implies (#[trigger] t[i]).weight < UNREACHED by {
        assert(s[i].weight < UNREACHED);
    }
    assert forall|i: int, j: int|
        0 <= i < t.len() && 0 <= j < t.len() && #[trigger] adjacent4(t[i].coords, t[j].coords)
            implies t[i].weight <= t[j].weight + t[i].cost by {
        assert(t[i] == (Tile { next_pos: t[i].next_pos, ..s[i] }));
        assert(t[j] == (Tile { next_pos: t[j].next_pos, ..s[j] }));
        assert(adjacent4(s[i].coords, s[j].coords));
    }
    assert forall|i: int| 0 <= i < t.len() && i != d implies #[trigger] has_parent(t, i) by {
        assert(has_parent(s, i));
        let j = choose|j: int|
            0 <= j < s.len() && #[trigger] adjacent4(s[i].coords, s[j].coords) && s[i].weight
                == s[j].weight + s[i].cost;
        assert(t[i] == (Tile { next_pos: t[i].next_pos, ..s[i] }));
        assert(t[j] == (Tile { next_pos: t[j].next_pos, ..s[j] }));
        assert(adjacent4(t[i].coords, t[j].coords));
    }
}

/// Recomputes the whole flow field towards `destination`: every weight
/// becomes the least path weight to the destination and every direction
/// points at the first lightest neighbour. A destination off the board
/// leaves every cell unreached and without direction.
pub fn generate_flow_field_grid(destination: Coords, grid: &mut Grid)
    requires
        old(grid).wf(),
    ensures
        recomputed(*old(grid), *final(grid), destination),
{
    reset_field(grid);
    if destination.x >= grid.width || destination.y >= grid.height {
        return;
    }
    let d = grid.index_of_coords(destination);
    set_weight(grid, d, 0);
    let ghost searched_from = grid.tiles@;
    propagate_costs(grid, d);
    let ghost settled = *grid;
    derive_directions(grid);
    proof {
        lemma_settled_keeps(settled, *grid, d as int);
        assert forall|i: int| 0 <= i < grid.tiles@.len() implies #[trigger] grid.tiles@[i].coords == old(grid).tiles@[i].coords
            && grid.tiles@[i].cost == old(grid).tiles@[i].cost && grid.tiles@[i].tile_type == old(grid).tiles@[i].tile_type by {
            assert(grid.tiles@[i] == (Tile { next_pos: grid.tiles@[i].next_pos, ..settled.tiles@[i] }));
            assert(settled.tiles@[i].coords == searched_from[i].coords);
        }
    }
}

/// Recomputes the flow field towards the cell that holds world position
/// `target`, moved onto the board when it lies beyond it.
pub fn gen_flow_field(grid: &mut Grid, target: WorldPos)
    requires
        old(grid).wf(),
    ensures
        recomputed(
            *old(grid),
            *final(grid),
            clamped(
                old(grid).width as int,
                old(grid).height as int,
                world_to_cell(old(grid).width as int, old(grid).height as int, target),
            ),
        ),
{
    let cell = Coords { x: axis_from_world(grid.width, target.x), y: axis_from_world(grid.height, target.y) };
    let dest = grid.clamp_coords(cell);
    generate_flow_field_grid(dest, grid);
}

/// A weighting settled towards `d` is nowhere heavier than another one
/// settled towards `d` over the same costs; so the settled weights are
/// unique.
pub proof fn lemma_settled_at_most(a: Grid, b: Grid, d: int, i: int)
    requires
        b.wf(),
        weights_settled(a, d),
        weights_settled(b, d),
        same_layout(a.tiles@, b.tiles@),
        0 <= d < b.tiles@.len(),
        0 <= i < b.tiles@.len(),
    ensures
        a.tiles@[i].weight <= b.tiles@[i].weight,
    decreases b.tiles@[i].weight,
{
    let s = a.tiles@;
    let t = b.tiles@;
    if i != d {
        assert(has_parent(t, i));
        let j = choose|j: int|
            0 <= j < t.len() && #[trigger] adjacent4(t[i].coords, t[j].coords) && t[i].weight
                == t[j].weight + t[i].cost;
        assert(t[i].cost >= 1);
        lemma_settled_at_most(a, b, d, j);
        assert(s[i].coords == t[i].coords && s[j].coords == t[j].coords);
        assert(adjacent4(s[i].coords, s[j].coords));
    }
}

/// After a recompute towards an on-board destination, the destination
/// weighs 0 and has no direction.
pub proof fn lemma_destination_settled(before: Grid, after: Grid, dest: Coords)
    requires
        before.wf(),
        before.contains(dest),
        recomputed(before, after, dest),
    ensures
        after.tile_at(dest).weight == 0,
        after.tile_at(dest).next_pos.is_none(),
{
    lemma_index_coords(before.width as int, before.height as int, dest);
}

/// Recomputing the field twice towards the same destination, with no cost
/// change in between, gives the same cells both times.
pub proof fn lemma_recompute_idempotent(g0: Grid, g1: Grid, g2: Grid, dest: Coords)
    requires
        g0.wf(),
        recomputed(g0, g1, dest),
        recomputed(g1, g2, dest),
    ensures
        g2.tiles@ == g1.tiles@,
{
    let s = g1.tiles@;
    let t = g2.tiles@;
    if g0.contains(dest) {
        let d = g0.index(dest);
        lemma_index_coords(g0.width as int, g0.height as int, dest);
        assert forall|i: int| 0 <= i < s.len() implies #[trigger] t[i].weight == s[i].weight by {
            lemma_settled_at_most(g1, g2, d, i);
            lemma_settled_at_most(g2, g1, d, i);
        }
        assert(weights(t) =~= weights(s));
        assert forall|i: int| 0 <= i < s.len() implies #[trigger] t[i] == s[i] by {
            assert(t[i].next_pos == direction_of(g2, i));
            assert(s[i].next_pos == direction_of(g1, i));
        }
    } else {
        assert forall|i: int| 0 <= i < s.len() implies #[trigger] t[i] == s[i] by {
            assert(t[i].weight == UNREACHED && s[i].weight == UNREACHED);
        }
    }
    assert(t =~= s);
}

/// On a grid where every cell costs 1, weights settled towards `d` never
/// exceed the Manhattan distance to the destination.
proof fn lemma_uniform_at_most(g: Grid, d: int, dest: Coords, k: nat)
    requires
        g.wf(),
        weights_settled(g, d),
        0 <= d < g.size(),
        g.tiles@[d].coords == dest,
        forall|i: int| 0 <= i < g.size() ==> (#[trigger] g.tiles@[i]).cost == 1,
    ensures
        forall|i: int|
            0 <= i < g.size() && manhattan(g.tiles@[i].coords, dest) <= k
                ==> #[trigger] g.tiles@[i].weight <= manhattan(g.tiles@[i].coords, dest),
    decreases k,
{
    if k > 0 {
        lemma_uniform_at_most(g, d, dest, (k - 1) as nat);
    }
    assert forall|i: int|
        0 <= i < g.size() && manhattan(g.tiles@[i].coords, dest) <= k
            implies #[trigger] g.tiles@[i].weight <= manhattan(g.tiles@[i].coords, dest) by {
        if g.tiles@[i].coords == dest {
            lemma_coords_index(g.width as int, g.height as int, i);
            lemma_coords_index(g.width as int, g.height as int, d);
        } else {
            lemma_coords_index(g.width as int, g.height as int, d);
            let j = lemma_step_toward(g, i, dest);
            assert(g.tiles@[j].weight <= manhattan(g.tiles@[j].coords, dest));
        }
    }
}

/// On a grid where every cell costs 1, weights settled towards `d` are at
/// least the Manhattan distance to the destination.
proof fn lemma_uniform_at_least(g: Grid, d: int, dest: Coords, i: int)
    requires
        g.wf(),
        weights_settled(g, d),
        0 <= d < g.size(),
        0 <= i < g.size(),
        g.tiles@[d].coords == dest,
        forall|i: int| 0 <= i < g.size() ==> (#[trigger] g.tiles@[i]).cost == 1,
    ensures
        manhattan(g.tiles@[i].coords, dest) <= g.tiles@[i].weight,
    decreases g.tiles@[i].weight,
{
    let t = g.tiles@;
    if i != d {
        assert(has_parent(t, i));
        let j = choose|j: int|
            0 <= j < t.len() && #[trigger] adjacent4(t[i].coords, t[j].coords) && t[i].weight
                == t[j].weight + t[i].cost;
        assert(t[i].cost == 1);
        lemma_uniform_at_least(g, d, dest, j);
    }
}

/// When every cell costs 1, recomputing the field towards `dest` gives each
/// cell its Manhattan distance to `dest` as weight.
pub proof fn lemma_uniform_cost_is_manhattan(before: Grid, after: Grid, dest: Coords)
    requires
        before.wf(),
        before.contains(dest),
        forall|i: int| 0 <= i < before.size() ==> (#[trigger] before.tiles@[i]).cost == 1,
        recomputed(before, after, dest),
    ensures
        forall|i: int|
            0 <= i < after.size() ==> (#[trigger] after.tiles@[i]).weight == manhattan(
                after.tiles@[i].coords,
                dest,
            ),
{
    let d = before.index(dest);
    lemma_index_coords(before.width as int, before.height as int, dest);
    assert forall|i: int| 0 <= i < after.size() implies (#[trigger] after.tiles@[i]).cost == 1 by {
        assert(before.tiles@[i].cost == 1);
    }
    let bound = (after.width + after.height) as nat;
    lemma_uniform_at_most(after, d, dest, bound);
    assert forall|i: int| 0 <= i < after.size() implies (#[trigger] after.tiles@[i]).weight == manhattan(
        after.tiles@[i].coords,
        dest,
    ) by {
        lemma_coords_index(after.width as int, after.height as int, i);
        lemma_uniform_at_least(after, d, dest, i);
        assert(manhattan(after.tiles@[i].coords, dest) <= bound);
    }
}

} // verus!
