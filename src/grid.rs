//! The grid of cells: its layout, bounds-checked lookups and neighbourhoods.
use vstd::prelude::*;

use crate::coords::{axis_shifted, Coords, WorldPos, TILE_SIZE};

verus! {

/// Traversal cost of an unobstructed cell.
pub const BASE_COST: u8 = 1;

/// Traversal cost given to a cell that holds a wall or a tower.
pub const OBSTACLE_COST: u8 = 200;

/// Weight of a cell that no search has reached.
pub const UNREACHED: u32 = 0xffff_ffff;

/// Largest number of cells a grid may hold, so that every path weight stays
/// below `UNREACHED`.
pub const MAX_CELLS: usize = 0x0100_0000;

/// Territorial ownership of a cell.
#[derive(Clone, Copy, Debug, PartialEq, Eq, Structural)]
pub enum TileType {
    Neutral,
    Friendly,
    Hostile,
}

/// The allegiance that follows `t` in the cycle Neutral, Friendly, Hostile.
pub open spec fn cycled(t: TileType) -> TileType {
    match t {
        TileType::Neutral => TileType::Friendly,
        TileType::Friendly => TileType::Hostile,
        TileType::Hostile => TileType::Neutral,
    }
}

impl TileType {
    /// The next allegiance in the cycle Neutral, Friendly, Hostile, Neutral.
    pub fn cycle(self) -> (r: TileType)
        ensures
            r == cycled(self),
    {
        match self {
            TileType::Neutral => TileType::Friendly,
            TileType::Friendly => TileType::Hostile,
            TileType::Hostile => TileType::Neutral,
        }
    }
}

/// The record of one cell.
#[derive(Clone, Copy, Debug, PartialEq, Eq, Structural)]
pub struct Tile {
    /// Position of this cell in the grid.
    pub coords: Coords,
    /// Cost of stepping into this cell; at least 1.
    pub cost: u8,
    /// Path weight from this cell to the current destination, or `UNREACHED`.
    pub weight: u32,
    /// The neighbouring cell to move to next, absent at the destination or
    /// before any field is computed.
    pub next_pos: Option<Coords>,
    /// Allegiance of this cell.
    pub tile_type: TileType,
}

/// A freshly created cell at `c`.
pub open spec fn fresh_tile(c: Coords) -> Tile {
    Tile { coords: c, cost: BASE_COST, weight: UNREACHED, next_pos: None, tile_type: TileType::Neutral }
}

impl Tile {
    /// A neutral, unobstructed cell at `(x, y)` with no computed path.
    pub fn new(x: usize, y: usize) -> (r: Tile)
        ensures
            r == fresh_tile(Coords { x, y }),
    {
        Tile {
            coords: Coords { x, y },
            cost: BASE_COST,
            weight: UNREACHED,
            next_pos: None,
            tile_type: TileType::Neutral,
        }
    }

    /// Whether the cell lies on an even square of the board's chequer pattern.
    pub fn is_even(&self) -> (r: bool)
        ensures
            r == ((self.coords.x + self.coords.y) % 2 == 0),
    {
        self.coords.x % 2 == self.coords.y % 2
    }
}

/// Whether `(x, y)` lies on a board of `w` by `h` cells.
pub open spec fn in_bounds(w: int, h: int, x: int, y: int) -> bool {
    0 <= x < w && 0 <= y < h
}

/// Whether cell `c` lies on a board of `w` by `h` cells.
pub open spec fn coords_in(w: int, h: int, c: Coords) -> bool {
    in_bounds(w, h, c.x as int, c.y as int)
}

/// `c` with each coordinate beyond a board of `w` by `h` cells moved back to
/// the last one.
pub open spec fn clamped(w: int, h: int, c: Coords) -> Coords {
    Coords {
        x: if c.x < w { c.x } else { (w - 1) as usize },
        y: if c.y < h { c.y } else { (h - 1) as usize },
    }
}

/// Position of cell `c` in the flat array of a board of height `h`.
pub open spec fn index_of(h: int, c: Coords) -> int {
    c.x * h + c.y
}

/// The cell at position `i` of the flat array of a board of height `h`.
pub open spec fn coords_of(h: int, i: int) -> Coords {
    Coords { x: (i / h) as usize, y: (i % h) as usize }
}

/// Manhattan distance between two cells.
pub open spec fn manhattan(a: Coords, b: Coords) -> int {
    let dx = if a.x >= b.x { a.x - b.x } else { b.x - a.x };
    let dy = if a.y >= b.y { a.y - b.y } else { b.y - a.y };
    dx + dy
}

/// Whether `a` and `b` are distinct cells that share an edge.
pub open spec fn adjacent4(a: Coords, b: Coords) -> bool {
    (a.x == b.x && (a.y + 1 == b.y || b.y + 1 == a.y)) || (a.y == b.y && (a.x + 1 == b.x || b.x
        + 1 == a.x))
}

/// Whether `a` and `b` are distinct cells that share an edge or a corner.
pub open spec fn adjacent8(a: Coords, b: Coords) -> bool {
    a != b && -1 <= a.x - b.x <= 1 && -1 <= a.y - b.y <= 1
}

/// The cell `(x, y)` as a sequence of one element when it lies on the board,
/// else the empty sequence.
pub open spec fn cell_if_in(w: int, h: int, x: int, y: int) -> Seq<Coords> {
    if in_bounds(w, h, x, y) {
        seq![Coords { x: x as usize, y: y as usize }]
    } else {
        Seq::empty()
    }
}

/// `s` when `keep` holds, else the empty sequence.
pub open spec fn only_if(keep: bool, s: Seq<Coords>) -> Seq<Coords> {
    if keep {
        s
    } else {
        Seq::empty()
    }
}

/// The on-board neighbours of `c`, in the order up, up-right, right,
/// down-right, down, down-left, left, up-left; the diagonal ones only when
/// `eight` holds.
pub open spec fn neighbours_of(w: int, h: int, c: Coords, eight: bool) -> Seq<Coords> {
    let x = c.x as int;
    let y = c.y as int;
    cell_if_in(w, h, x, y + 1) + only_if(eight, cell_if_in(w, h, x + 1, y + 1)) + cell_if_in(
        w,
        h,
        x + 1,
        y,
    ) + only_if(eight, cell_if_in(w, h, x + 1, y - 1)) + cell_if_in(w, h, x, y - 1) + only_if(
        eight,
        cell_if_in(w, h, x - 1, y - 1),
    ) + cell_if_in(w, h, x - 1, y) + only_if(eight, cell_if_in(w, h, x - 1, y + 1))
}

/// The cells of a board, stored in a flat array where cell `(x, y)` sits at
/// position `x * height + y`.
pub struct Grid {
    pub width: usize,
    pub height: usize,
    pub tiles: Vec<Tile>,
}

impl Grid {
    /// The layout invariant: the array holds exactly `width * height` cells,
    /// each knowing its own position, each with a positive cost.
    pub open spec fn wf(&self) -> bool {
        &&& 1 <= self.width <= MAX_CELLS
        &&& 1 <= self.height <= MAX_CELLS
        &&& self.width * self.height <= MAX_CELLS
        &&& self.tiles@.len() == self.width * self.height
        &&& forall|i: int|
            0 <= i < self.tiles@.len() ==> #[trigger] self.tiles@[i].coords == coords_of(
                self.height as int,
                i,
            )
        &&& forall|i: int| 0 <= i < self.tiles@.len() ==> #[trigger] self.tiles@[i].cost >= 1
    }

    /// Number of cells.
    pub open spec fn size(&self) -> int {
        self.tiles@.len() as int
    }

    /// Whether `c` lies on this grid.
    pub open spec fn contains(&self, c: Coords) -> bool {
        coords_in(self.width as int, self.height as int, c)
    }

    /// Position of `c` in the flat array.
    pub open spec fn index(&self, c: Coords) -> int {
        index_of(self.height as int, c)
    }

    /// The record of cell `c`.
    pub open spec fn tile_at(&self, c: Coords) -> Tile {
        self.tiles@[self.index(c)]
    }

    /// The cell, if any, that holds world position `pos`.
    pub open spec fn cell_at_world(&self, pos: WorldPos) -> Option<Coords> {
        let sx = axis_shifted(self.width as int, pos.x as int);
        let sy = axis_shifted(self.height as int, pos.y as int);
        if sx < 0 || sy < 0 {
            None
        } else {
            let c = Coords { x: (sx / TILE_SIZE as int) as usize, y: (sy / TILE_SIZE as int) as usize };
            if in_bounds(self.width as int, self.height as int, sx / TILE_SIZE as int, sy / TILE_SIZE as int) {
                Some(c)
            } else {
                None
            }
        }
    }

    /// A grid of `width` by `height` fresh cells.
    pub fn new(width: usize, height: usize) -> (g: Grid)
        requires
            1 <= width,
            1 <= height,
            width * height <= MAX_CELLS,
        ensures
            g.wf(),
            g.width == width,
            g.height == height,
            forall|i: int| 0 <= i < g.size() ==> #[trigger] g.tiles@[i] == fresh_tile(coords_of(height as int, i)),
    {
        assert(width <= MAX_CELLS && height <= MAX_CELLS) by (nonlinear_arith)
            requires 1 <= width, 1 <= height, width * height <= MAX_CELLS;
        let n: usize = width * height;
        let mut tiles: Vec<Tile> = Vec::new();
        let mut k: usize = 0;
        while k < n
            invariant
                n == width * height,
                1 <= height,
                k <= n,
                tiles@.len() == k,
                forall|i: int| 0 <= i < k ==> #[trigger] tiles@[i] == fresh_tile(coords_of(height as int, i)),
            decreases n - k,
        {
            tiles.push(Tile::new(k / height, k % height));
            k = k + 1;
        }
        Grid { width, height, tiles }
    }

    /// The on-board cell nearest to `c`: each coordinate beyond the board
    /// becomes the last one.
    pub fn clamp_coords(&self, c: Coords) -> (r: Coords)
        requires
            self.wf(),
        ensures
            r == clamped(self.width as int, self.height as int, c),
            self.contains(r),
    {
        Coords {
            x: if c.x < self.width { c.x } else { self.width - 1 },
            y: if c.y < self.height { c.y } else { self.height - 1 },
        }
    }

    /// Position of the on-board cell `c` in the flat array.
    pub fn index_of_coords(&self, c: Coords) -> (r: usize)
        requires
            self.wf(),
            self.contains(c),
        ensures
            r as int == self.index(c),
            r < self.size(),
            self.tiles@[r as int].coords == c,
    {
        proof {
            lemma_index_coords(self.width as int, self.height as int, c);
        }
        c.x * self.height + c.y
    }

    /// The cell at `(x, y)`, or none when `(x, y)` lies off the board.
    pub fn get_xy(&self, x: usize, y: usize) -> (r: Option<&Tile>)
        requires
            self.wf(),
        ensures
            in_bounds(self.width as int, self.height as int, x as int, y as int) ==> r == Some(
                &self.tile_at(Coords { x, y }),
            ),
            !in_bounds(self.width as int, self.height as int, x as int, y as int) ==> r.is_none(),
            r.is_some() ==> r.unwrap().coords == (Coords { x, y }),
    {
        if x >= self.width || y >= self.height {
            return None;
        }
        let i = self.index_of_coords(Coords { x, y });
        Some(&self.tiles[i])
    }

    /// The cell at `c`, or none when `c` lies off the board.
    pub fn get_coords(&self, c: Coords) -> (r: Option<&Tile>)
        requires
            self.wf(),
        ensures
            self.contains(c) ==> r == Some(&self.tile_at(c)),
            !self.contains(c) ==> r.is_none(),
            r.is_some() ==> r.unwrap().coords == c,
    {
        self.get_xy(c.x, c.y)
    }

    /// The cell that holds world position `pos`, or none when `pos` lies off
    /// the board on any side.
    pub fn get_vec2(&self, pos: WorldPos) -> (r: Option<&Tile>)
        requires
            self.wf(),
        ensures
            r == (match self.cell_at_world(pos) {
                Some(c) => Some(&self.tile_at(c)),
                None => None,
            }),
    {
        let sx: i128 = pos.x as i128 + (self.width as i128) * (TILE_SIZE as i128) / 2;
        let sy: i128 = pos.y as i128 + (self.height as i128) * (TILE_SIZE as i128) / 2;
        if sx < 0 || sy < 0 {
            return None;
        }
        let cx: i128 = sx / (TILE_SIZE as i128);
        let cy: i128 = sy / (TILE_SIZE as i128);
        if cx >= self.width as i128 || cy >= self.height as i128 {
            return None;
        }
        self.get_xy(cx as usize, cy as usize)
    }

    /// Sets the traversal cost of cell `c`; returns whether `c` lies on the
    /// board. Nothing changes when it does not.
    pub fn set_cost(&mut self, c: Coords, cost: u8) -> (r: bool)
        requires
            old(self).wf(),
            cost >= 1,
        ensures
            final(self).wf(),
            final(self).width == old(self).width,
            final(self).height == old(self).height,
            r == old(self).contains(c),
            r ==> final(self).tiles@ == old(self).tiles@.update(
                old(self).index(c),
                Tile { cost, ..old(self).tile_at(c) },
            ),
            !r ==> final(self).tiles@ == old(self).tiles@,
    {
        if c.x >= self.width || c.y >= self.height {
            return false;
        }
        let i = self.index_of_coords(c);
        let mut t = self.tiles[i];
        t.cost = cost;
        self.tiles.set(i, t);
        true
    }

    /// Sets the allegiance of cell `c`; returns whether `c` lies on the
    /// board. Nothing changes when it does not.
    pub fn set_tile_type(&mut self, c: Coords, tile_type: TileType) -> (r: bool)
        requires
            old(self).wf(),
        ensures
            final(self).wf(),
            final(self).width == old(self).width,
            final(self).height == old(self).height,
            r == old(self).contains(c),
            r ==> final(self).tiles@ == old(self).tiles@.update(
                old(self).index(c),
                Tile { tile_type, ..old(self).tile_at(c) },
            ),
            !r ==> final(self).tiles@ == old(self).tiles@,
    {
        if c.x >= self.width || c.y >= self.height {
            return false;
        }
        let i = self.index_of_coords(c);
        let mut t = self.tiles[i];
        t.tile_type = tile_type;
        self.tiles.set(i, t);
        true
    }

    /// The on-board neighbours of `coords`: the four that share an edge, and
    /// when `eight_connected` holds also the four that share a corner, in the
    /// order up, up-right, right, down-right, down, down-left, left, up-left.
    pub fn get_neighbours(&self, coords: Coords, eight_connected: bool) -> (r: Vec<Coords>)
        requires
            self.wf(),
        ensures
            r@ == neighbours_of(self.width as int, self.height as int, coords, eight_connected),
    {
        let w = self.width;
        let h = self.height;
        let x = coords.x;
        let y = coords.y;
        let ghost (wi, hi, xi, yi) = (w as int, h as int, x as int, y as int);
        let mut v: Vec<Coords> = Vec::new();
        // up
        if x < w && y < h - 1 {
            v.push(Coords { x, y: y + 1 });
        }
        assert(v@ =~= cell_if_in(wi, hi, xi, yi + 1));
        let ghost s1 = v@;
        // up right
        if eight_connected && x < w - 1 && y < h - 1 {
            v.push(Coords { x: x + 1, y: y + 1 });
        }
        assert(v@ =~= s1 + only_if(eight_connected, cell_if_in(wi, hi, xi + 1, yi + 1)));
        let ghost s2 = v@;
        // right
        if x < w - 1 && y < h {
            v.push(Coords { x: x + 1, y });
        }
        assert(v@ =~= s2 + cell_if_in(wi, hi, xi + 1, yi));
        let ghost s3 = v@;
        // down right
        if eight_connected && x < w - 1 && y > 0 && y <= h {
            v.push(Coords { x: x + 1, y: y - 1 });
        }
        assert(v@ =~= s3 + only_if(eight_connected, cell_if_in(wi, hi, xi + 1, yi - 1)));
        let ghost s4 = v@;
        // down
        if x < w && y > 0 && y <= h {
            v.push(Coords { x, y: y - 1 });
        }
        assert(v@ =~= s4 + cell_if_in(wi, hi, xi, yi - 1));
        let ghost s5 = v@;
        // down left
        if eight_connected && x > 0 && x <= w && y > 0 && y <= h {
            v.push(Coords { x: x - 1, y: y - 1 });
        }
        assert(v@ =~= s5 + only_if(eight_connected, cell_if_in(wi, hi, xi - 1, yi - 1)));
        let ghost s6 = v@;
        // left
        if x > 0 && x <= w && y < h {
            v.push(Coords { x: x - 1, y });
        }
        assert(v@ =~= s6 + cell_if_in(wi, hi, xi - 1, yi));
        let ghost s7 = v@;
        // up left
        if eight_connected && x > 0 && x <= w && y < h - 1 {
            v.push(Coords { x: x - 1, y: y + 1 });
        }
        assert(v@ =~= s7 + only_if(eight_connected, cell_if_in(wi, hi, xi - 1, yi + 1)));
        v
    }
}

/// The two ways of numbering cells agree on a board of height `h`.
pub proof fn lemma_index_coords(w: int, h: int, c: Coords)
    requires
        1 <= h,
        coords_in(w, h, c),
    ensures
        0 <= index_of(h, c) < w * h,
        coords_of(h, index_of(h, c)) == c,
{
    let x = c.x as int;
    let y = c.y as int;
    assert(0 <= x * h + y < w * h) by (nonlinear_arith)
        requires 0 <= x < w, 0 <= y < h;
    vstd::arithmetic::div_mod::lemma_fundamental_div_mod_converse(x * h + y, h, x, y);
}

/// Every position of the flat array names an on-board cell that maps back to it.
pub proof fn lemma_coords_index(w: int, h: int, i: int)
    requires
        1 <= h <= MAX_CELLS,
        w <= MAX_CELLS,
        0 <= i < w * h,
    ensures
        coords_in(w, h, coords_of(h, i)),
        index_of(h, coords_of(h, i)) == i,
{
    vstd::arithmetic::div_mod::lemma_fundamental_div_mod(i, h);
    let q = i / h;
    let r = i % h;
    assert(0 <= r < h);
    assert(0 <= q < w) by (nonlinear_arith)
        requires i == h * q + r, 0 <= r < h, 0 <= i < w * h, 1 <= h;
    assert(q * h == h * q) by (nonlinear_arith);
}

/// An on-board cell is among the edge neighbours of `c` exactly when it
/// shares an edge with `c`.
pub proof fn lemma_neighbours4(w: int, h: int, c: Coords, m: Coords)
    requires
        w <= MAX_CELLS,
        h <= MAX_CELLS,
    ensures
        neighbours_of(w, h, c, false).contains(m) <==> (coords_in(w, h, m) && adjacent4(c, m)),
{
    let x = c.x as int;
    let y = c.y as int;
    let up = cell_if_in(w, h, x, y + 1);
    let right = cell_if_in(w, h, x + 1, y);
    let down = cell_if_in(w, h, x, y - 1);
    let left = cell_if_in(w, h, x - 1, y);
    let s = neighbours_of(w, h, c, false);
    assert(s =~= up + right + down + left);
    if s.contains(m) {
        let k = choose|k: int| 0 <= k < s.len() && s[k] == m;
        if k < up.len() {
            assert(m == up[k]);
        } else if k < up.len() + right.len() {
            assert(m == right[k - up.len()]);
        } else if k < up.len() + right.len() + down.len() {
            assert(m == down[k - up.len() - right.len()]);
        } else {
            assert(m == left[k - up.len() - right.len() - down.len()]);
        }
    }
    if coords_in(w, h, m) && adjacent4(c, m) {
        if m.x == c.x && m.y == c.y + 1 {
            assert(s[0] == m);
        } else if m.x == c.x + 1 && m.y == c.y {
            assert(s[up.len() as int] == m);
        } else if m.x == c.x && m.y + 1 == c.y {
            assert(s[(up.len() + right.len()) as int] == m);
        } else {
            assert(s[(up.len() + right.len() + down.len()) as int] == m);
        }
    }
}

/// On a board at least two cells wide and two cells high, every cell has
/// between 2 and 4 edge neighbours, and between 3 and 8 neighbours when
/// corners count too.
pub proof fn lemma_neighbour_counts(w: int, h: int, c: Coords)
    requires
        2 <= w,
        2 <= h,
        coords_in(w, h, c),
    ensures
        2 <= neighbours_of(w, h, c, false).len() <= 4,
        3 <= neighbours_of(w, h, c, true).len() <= 8,
{
}

/// Every cell of `s` lies on the board and touches `c` by an edge or a corner.
pub open spec fn all_near(w: int, h: int, c: Coords, s: Seq<Coords>) -> bool {
    forall|k: int| 0 <= k < s.len() ==> coords_in(w, h, #[trigger] s[k]) && adjacent8(c, s[k])
}

/// Joining two sequences of near cells gives near cells.
proof fn lemma_all_near_concat(w: int, h: int, c: Coords, a: Seq<Coords>, b: Seq<Coords>)
    requires
        all_near(w, h, c, a),
        all_near(w, h, c, b),
    ensures
        all_near(w, h, c, a + b),
{
    assert forall|k: int| 0 <= k < (a + b).len() implies coords_in(w, h, #[trigger] (a + b)[k])
        && adjacent8(c, (a + b)[k]) by {
        if k < a.len() {
            assert((a + b)[k] == a[k]);
        } else {
            assert((a + b)[k] == b[k - a.len()]);
        }
    }
}

/// Every listed neighbour of `c` lies on the board and touches `c` by an
/// edge or a corner.
pub proof fn lemma_neighbours_on_board(w: int, h: int, c: Coords, eight: bool)
    requires
        w <= MAX_CELLS,
        h <= MAX_CELLS,
    ensures
        all_near(w, h, c, neighbours_of(w, h, c, eight)),
{
    let x = c.x as int;
    let y = c.y as int;
    let up = cell_if_in(w, h, x, y + 1);
    let up_right = only_if(eight, cell_if_in(w, h, x + 1, y + 1));
    let right = cell_if_in(w, h, x + 1, y);
    let down_right = only_if(eight, cell_if_in(w, h, x + 1, y - 1));
    let down = cell_if_in(w, h, x, y - 1);
    let down_left = only_if(eight, cell_if_in(w, h, x - 1, y - 1));
    let left = cell_if_in(w, h, x - 1, y);
    let up_left = only_if(eight, cell_if_in(w, h, x - 1, y + 1));
    let s1 = up + up_right;
    let s2 = s1 + right;
    let s3 = s2 + down_right;
    let s4 = s3 + down;
    let s5 = s4 + down_left;
    let s6 = s5 + left;
    lemma_all_near_concat(w, h, c, up, up_right);
    lemma_all_near_concat(w, h, c, s1, right);
    lemma_all_near_concat(w, h, c, s2, down_right);
    lemma_all_near_concat(w, h, c, s3, down);
    lemma_all_near_concat(w, h, c, s4, down_left);
    lemma_all_near_concat(w, h, c, s5, left);
    lemma_all_near_concat(w, h, c, s6, up_left);
}

} // verus!
