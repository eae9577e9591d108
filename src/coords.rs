//! Cell coordinates and their mapping to and from world space.
use vstd::prelude::*;

verus! {

/// Width of the standard board, in cells.
pub const GRID_WIDTH: usize = 20;

/// Height of the standard board, in cells.
pub const GRID_HEIGHT: usize = 20;

/// Side of one cell, in world units.
pub const TILE_SIZE: i32 = 32;

/// Largest coordinate whose cell centre is representable as a `WorldPos`.
pub const MAX_COORD: usize = 0x0100_0000;

/// A cell of the grid, as column `x` and row `y`.
#[derive(Clone, Copy, Debug, PartialEq, Eq, Structural)]
pub struct Coords {
    pub x: usize,
    pub y: usize,
}

/// A point of world space, in whole world units.
///
/// A fractional position maps to the same cell as its floor, so callers
/// holding finer positions round them down before handing them over.
#[derive(Clone, Copy, Debug, PartialEq, Eq, Structural)]
pub struct WorldPos {
    pub x: i32,
    pub y: i32,
}

/// The offset that centres a board of `cells` cells on the origin,
/// measured from the origin to the centre of cell 0.
pub open spec fn centre_offset(cells: int) -> int {
    -(cells - 1) * (TILE_SIZE as int) / 2
}

/// World position of the centre of cell index `i` along an axis of `cells` cells.
pub open spec fn axis_to_world(cells: int, i: int) -> int {
    centre_offset(cells) + i * (TILE_SIZE as int)
}

/// Position along an axis of `cells` cells, shifted so that the low edge of
/// cell 0 lies at zero.
pub open spec fn axis_shifted(cells: int, p: int) -> int {
    p + cells * (TILE_SIZE as int) / 2
}

/// Cell index along an axis: the floor of the shifted position over the
/// tile size, where a negative result becomes zero.
pub open spec fn axis_to_cell(cells: int, p: int) -> int {
    let s = axis_shifted(cells, p);
    if s < 0 {
        0
    } else {
        s / (TILE_SIZE as int)
    }
}

/// The cell that holds `pos` on a board of `width` by `height` cells.
pub open spec fn world_to_cell(width: int, height: int, pos: WorldPos) -> Coords {
    Coords {
        x: axis_to_cell(width, pos.x as int) as usize,
        y: axis_to_cell(height, pos.y as int) as usize,
    }
}

/// The centre of cell `c` on a board of `width` by `height` cells.
pub open spec fn cell_to_world(width: int, height: int, c: Coords) -> WorldPos {
    WorldPos {
        x: axis_to_world(width, c.x as int) as i32,
        y: axis_to_world(height, c.y as int) as i32,
    }
}

/// Board sizes for which the mapping is computed without overflow.
pub open spec fn board_fits(width: int, height: int) -> bool {
    1 <= width <= MAX_COORD && 1 <= height <= MAX_COORD
}

/// Cell index along an axis of `cells` cells for world position `p`.
pub fn axis_from_world(cells: usize, p: i32) -> (r: usize)
    requires
        1 <= cells <= MAX_COORD,
    ensures
        r as int == axis_to_cell(cells as int, p as int),
{
    let half: i128 = (cells as i128) * (TILE_SIZE as i128) / 2;
    let s: i128 = p as i128 + half;
    if s < 0 {
        0
    } else {
        (s / (TILE_SIZE as i128)) as usize
    }
}

/// World position of the centre of cell `i` along an axis of `cells` cells.
pub fn axis_from_cell(cells: usize, i: usize) -> (r: i32)
    requires
        1 <= cells <= MAX_COORD,
        i <= MAX_COORD,
    ensures
        r as int == axis_to_world(cells as int, i as int),
{
    let off: i128 = (1 - cells as i128) * (TILE_SIZE as i128) / 2;
    (off + (i as i128) * (TILE_SIZE as i128)) as i32
}

/// Along one axis, the cell holding the centre of cell `i` is `i`.
pub proof fn lemma_axis_round_trip(cells: int, i: int)
    requires
        1 <= cells,
        0 <= i < cells,
    ensures
        axis_to_cell(cells, axis_to_world(cells, i)) == i,
{
    let t = TILE_SIZE as int;
    assert(t == 32);
    // The shifted centre lies 16 units into cell `i`.
    assert(-(cells - 1) * t / 2 + cells * t / 2 == 16) by (nonlinear_arith)
        requires t == 32;
    assert(axis_shifted(cells, axis_to_world(cells, i)) == i * 32 + 16);
    assert((i * 32 + 16) / 32 == i) by (nonlinear_arith)
        requires i >= 0;
}

impl Coords {
    /// The cell of the standard board that holds `pos`; coordinates below
    /// the board become zero.
    pub fn from_vec2(pos: WorldPos) -> (r: Coords)
        ensures
            r == world_to_cell(GRID_WIDTH as int, GRID_HEIGHT as int, pos),
    {
        Coords { x: axis_from_world(GRID_WIDTH, pos.x), y: axis_from_world(GRID_HEIGHT, pos.y) }
    }

    /// The centre of this cell on the standard board. Coordinates above
    /// `MAX_COORD` have no representable centre.
    pub fn get_vec2(&self) -> (r: WorldPos)
        requires
            self.x <= MAX_COORD,
            self.y <= MAX_COORD,
        ensures
            r == cell_to_world(GRID_WIDTH as int, GRID_HEIGHT as int, *self),
    {
        WorldPos { x: axis_from_cell(GRID_WIDTH, self.x), y: axis_from_cell(GRID_HEIGHT, self.y) }
    }
}

/// Mapping the centre of an in-bounds cell back to a cell gives that cell,
/// on a board of any size.
pub proof fn lemma_cell_round_trip(width: int, height: int, c: Coords)
    requires
        board_fits(width, height),
        c.x < width,
        c.y < height,
    ensures
        world_to_cell(width, height, cell_to_world(width, height, c)) == c,
{
    lemma_axis_round_trip(width, c.x as int);
    lemma_axis_round_trip(height, c.y as int);
    assert(axis_to_world(width, c.x as int) <= 0x2000_0000) by (nonlinear_arith)
        requires c.x < width <= MAX_COORD, width >= 1;
}

/// For every cell of the standard board, `from_vec2` of `get_vec2` is that cell.
pub proof fn lemma_coords_round_trip(c: Coords)
    requires
        c.x < GRID_WIDTH,
        c.y < GRID_HEIGHT,
    ensures
        world_to_cell(
            GRID_WIDTH as int,
            GRID_HEIGHT as int,
            cell_to_world(GRID_WIDTH as int, GRID_HEIGHT as int, c),
        ) == c,
{
    lemma_cell_round_trip(GRID_WIDTH as int, GRID_HEIGHT as int, c);
}

} // verus!
