use territory_td::coords::{Coords, WorldPos, GRID_HEIGHT, GRID_WIDTH};
use territory_td::grid::{Grid, Tile, TileType, OBSTACLE_COST, UNREACHED};

fn c(x: usize, y: usize) -> Coords {
    Coords { x, y }
}

#[test]
fn coords_round_trip_every_cell() {
    for x in 0..GRID_WIDTH {
        for y in 0..GRID_HEIGHT {
            let cell = c(x, y);
            assert_eq!(Coords::from_vec2(cell.get_vec2()), cell);
        }
    }
}

#[test]
fn coords_to_world_centres() {
    assert_eq!(c(0, 0).get_vec2(), WorldPos { x: -304, y: -304 });
    assert_eq!(c(10, 10).get_vec2(), WorldPos { x: 16, y: 16 });
    assert_eq!(c(19, 0).get_vec2(), WorldPos { x: 304, y: -304 });
}

#[test]
fn world_to_coords_floors_and_clamps_low_end() {
    assert_eq!(Coords::from_vec2(WorldPos { x: 0, y: 0 }), c(10, 10));
    assert_eq!(Coords::from_vec2(WorldPos { x: -320, y: -288 }), c(0, 1));
    assert_eq!(Coords::from_vec2(WorldPos { x: -289, y: -289 }), c(0, 0));
    assert_eq!(Coords::from_vec2(WorldPos { x: -1000, y: -321 }), c(0, 0));
    assert_eq!(Coords::from_vec2(WorldPos { x: 319, y: 320 }), c(19, 20));
}

#[test]
fn new_grid_is_fresh() {
    let g = Grid::new(3, 4);
    assert_eq!(g.tiles.len(), 12);
    let t = g.get_xy(2, 1).unwrap();
    assert_eq!(t.coords, c(2, 1));
    assert_eq!(t.cost, 1);
    assert_eq!(t.weight, UNREACHED);
    assert_eq!(t.next_pos, None);
    assert_eq!(t.tile_type, TileType::Neutral);
    assert_eq!(g.tiles[2 * 4 + 1].coords, c(2, 1));
}

#[test]
fn lookup_out_of_bounds_is_absent() {
    let g = Grid::new(GRID_WIDTH, GRID_HEIGHT);
    assert!(g.get_xy(GRID_WIDTH, 0).is_none());
    assert!(g.get_xy(0, GRID_HEIGHT).is_none());
    assert!(g.get_xy(usize::MAX, usize::MAX).is_none());
    assert!(g.get_coords(c(25, 3)).is_none());
    assert_eq!(g.get_xy(19, 19).unwrap().coords, c(19, 19));
    assert_eq!(g.get_coords(c(0, 0)).unwrap().coords, c(0, 0));
}

#[test]
fn lookup_world_positions() {
    let g = Grid::new(GRID_WIDTH, GRID_HEIGHT);
    assert_eq!(g.get_vec2(WorldPos { x: -320, y: -320 }).unwrap().coords, c(0, 0));
    assert!(g.get_vec2(WorldPos { x: -321, y: 0 }).is_none());
    assert!(g.get_vec2(WorldPos { x: 0, y: -400 }).is_none());
    assert_eq!(g.get_vec2(WorldPos { x: 319, y: 0 }).unwrap().coords, c(19, 10));
    assert!(g.get_vec2(WorldPos { x: 320, y: 0 }).is_none());
    assert!(g.get_vec2(WorldPos { x: i32::MIN, y: i32::MAX }).is_none());
}

#[test]
fn lookup_world_uses_own_size() {
    let g = Grid::new(5, 5);
    assert_eq!(g.get_vec2(WorldPos { x: 0, y: 0 }).unwrap().coords, c(2, 2));
    assert_eq!(g.get_vec2(WorldPos { x: -80, y: 79 }).unwrap().coords, c(0, 4));
    assert!(g.get_vec2(WorldPos { x: 80, y: 0 }).is_none());
}

#[test]
fn neighbour_counts_corner_edge_interior() {
    let g = Grid::new(GRID_WIDTH, GRID_HEIGHT);
    assert_eq!(g.get_neighbours(c(0, 0), false), vec![c(0, 1), c(1, 0)]);
    assert_eq!(g.get_neighbours(c(0, 0), true), vec![c(0, 1), c(1, 1), c(1, 0)]);
    assert_eq!(g.get_neighbours(c(0, 5), false).len(), 3);
    assert_eq!(g.get_neighbours(c(0, 5), true).len(), 5);
    assert_eq!(g.get_neighbours(c(19, 19), false), vec![c(19, 18), c(18, 19)]);
    assert_eq!(g.get_neighbours(c(7, 7), false).len(), 4);
    assert_eq!(g.get_neighbours(c(7, 7), true).len(), 8);
    for x in 0..GRID_WIDTH {
        for y in 0..GRID_HEIGHT {
            let four = g.get_neighbours(c(x, y), false).len();
            let eight = g.get_neighbours(c(x, y), true).len();
            assert!((2..=4).contains(&four));
            assert!((3..=8).contains(&eight));
        }
    }
}

#[test]
fn neighbour_order() {
    let g = Grid::new(GRID_WIDTH, GRID_HEIGHT);
    assert_eq!(
        g.get_neighbours(c(5, 5), true),
        vec![c(5, 6), c(6, 6), c(6, 5), c(6, 4), c(5, 4), c(4, 4), c(4, 5), c(4, 6)]
    );
    assert_eq!(g.get_neighbours(c(5, 5), false), vec![c(5, 6), c(6, 5), c(5, 4), c(4, 5)]);
}

#[test]
fn neighbours_of_off_board_cell() {
    let g = Grid::new(GRID_WIDTH, GRID_HEIGHT);
    assert_eq!(g.get_neighbours(c(20, 5), false), vec![c(19, 5)]);
    assert!(g.get_neighbours(c(50, 50), true).is_empty());
}

#[test]
fn neighbours_on_single_row() {
    let g = Grid::new(4, 1);
    assert_eq!(g.get_neighbours(c(0, 0), false), vec![c(1, 0)]);
    assert_eq!(g.get_neighbours(c(2, 0), true), vec![c(3, 0), c(1, 0)]);
}

#[test]
fn diamond_ring_zero_is_centre() {
    let g = Grid::new(GRID_WIDTH, GRID_HEIGHT);
    assert_eq!(g.get_diamond_ring(c(5, 5), 0), vec![c(5, 5)]);
    assert!(g.get_diamond_ring(c(20, 5), 0).is_empty());
}

#[test]
fn diamond_ring_order_and_size() {
    let g = Grid::new(GRID_WIDTH, GRID_HEIGHT);
    assert_eq!(g.get_diamond_ring(c(5, 5), 1), vec![c(5, 6), c(6, 5), c(5, 4), c(4, 5)]);
    assert_eq!(
        g.get_diamond_ring(c(5, 5), 2),
        vec![c(5, 7), c(6, 6), c(7, 5), c(6, 4), c(5, 3), c(4, 4), c(3, 5), c(4, 6)]
    );
    assert_eq!(g.get_diamond_ring(c(10, 10), 5).len(), 20);
}

#[test]
fn diamond_ring_clipped_at_edges() {
    let g = Grid::new(GRID_WIDTH, GRID_HEIGHT);
    assert_eq!(g.get_diamond_ring(c(0, 0), 1), vec![c(0, 1), c(1, 0)]);
    let r = g.get_diamond_ring(c(1, 1), 3);
    assert!(r.len() < 12);
    assert_eq!(r, vec![c(1, 4), c(2, 3), c(3, 2), c(4, 1), c(3, 0), c(0, 3)]);
    for d in 1..30 {
        assert!(g.get_diamond_ring(c(3, 17), d).len() <= 4 * d);
    }
    assert!(g.get_diamond_ring(c(0, 0), 40).is_empty());
}

#[test]
fn set_cost_in_and_out_of_bounds() {
    let mut g = Grid::new(5, 5);
    assert!(g.set_cost(c(2, 3), OBSTACLE_COST));
    assert_eq!(g.get_xy(2, 3).unwrap().cost, 200);
    assert_eq!(g.get_xy(2, 2).unwrap().cost, 1);
    assert!(!g.set_cost(c(5, 0), OBSTACLE_COST));
}

#[test]
fn set_tile_type_in_and_out_of_bounds() {
    let mut g = Grid::new(5, 5);
    assert!(g.set_tile_type(c(1, 1), TileType::Hostile));
    assert_eq!(g.get_xy(1, 1).unwrap().tile_type, TileType::Hostile);
    assert!(!g.set_tile_type(c(1, 9), TileType::Friendly));
}

#[test]
fn tile_parity_and_cycle() {
    assert!(Tile::new(0, 0).is_even());
    assert!(!Tile::new(3, 4).is_even());
    assert!(Tile::new(7, 5).is_even());
    assert_eq!(TileType::Neutral.cycle(), TileType::Friendly);
    assert_eq!(TileType::Friendly.cycle(), TileType::Hostile);
    assert_eq!(TileType::Hostile.cycle(), TileType::Neutral);
}
