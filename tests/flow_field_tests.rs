use territory_td::coords::{Coords, WorldPos};
use territory_td::flow_field::{gen_flow_field, generate_flow_field_grid};
use territory_td::grid::{Grid, OBSTACLE_COST, UNREACHED};

fn c(x: usize, y: usize) -> Coords {
    Coords { x, y }
}

fn weight(g: &Grid, x: usize, y: usize) -> u32 {
    g.get_xy(x, y).unwrap().weight
}

fn next(g: &Grid, x: usize, y: usize) -> Option<Coords> {
    g.get_xy(x, y).unwrap().next_pos
}

#[test]
fn scenario_uniform_five_by_five() {
    let mut g = Grid::new(5, 5);
    generate_flow_field_grid(c(2, 2), &mut g);
    assert_eq!(weight(&g, 0, 0), 4);
    assert_eq!(weight(&g, 4, 4), 4);
    assert_eq!(weight(&g, 2, 2), 0);
    // The direction looks at corner neighbours too: the diagonal (1, 1)
    // weighs 2, less than (1, 0) and (0, 1) at 3.
    assert_eq!(next(&g, 0, 0), Some(c(1, 1)));
    assert_eq!(next(&g, 2, 4), Some(c(2, 3)));
    assert_eq!(next(&g, 2, 2), None);
}

#[test]
fn scenario_wall_above_destination() {
    let mut g = Grid::new(5, 5);
    assert!(g.set_cost(c(2, 3), OBSTACLE_COST));
    generate_flow_field_grid(c(2, 2), &mut g);
    assert!(weight(&g, 2, 4) > 2);
    assert_eq!(weight(&g, 2, 4), 4);
    assert_eq!(weight(&g, 2, 3), 200);
    assert_eq!(weight(&g, 1, 3), 2);
    // Down-right (3, 3) and down-left (1, 3) both weigh 2; the first wins.
    assert_eq!(next(&g, 2, 4), Some(c(3, 3)));
}

#[test]
fn destination_weighs_zero_without_direction() {
    let mut g = Grid::new(7, 4);
    generate_flow_field_grid(c(6, 0), &mut g);
    assert_eq!(weight(&g, 6, 0), 0);
    assert_eq!(next(&g, 6, 0), None);
    for t in g.tiles.iter() {
        if t.coords != c(6, 0) {
            assert!(t.weight > 0 && t.weight != UNREACHED);
            assert!(t.next_pos.is_some());
        }
    }
}

#[test]
fn uniform_weights_are_manhattan_distances() {
    let mut g = Grid::new(20, 20);
    let dest = c(3, 7);
    generate_flow_field_grid(dest, &mut g);
    for t in g.tiles.iter() {
        let d = t.coords.x.abs_diff(dest.x) + t.coords.y.abs_diff(dest.y);
        assert_eq!(t.weight as usize, d);
    }
}

#[test]
fn recompute_twice_is_identical() {
    let mut g = Grid::new(9, 6);
    g.set_cost(c(4, 1), OBSTACLE_COST);
    g.set_cost(c(4, 2), OBSTACLE_COST);
    g.set_cost(c(4, 3), 7);
    generate_flow_field_grid(c(1, 2), &mut g);
    let first = g.tiles.clone();
    generate_flow_field_grid(c(1, 2), &mut g);
    assert_eq!(g.tiles, first);
}

#[test]
fn new_destination_overwrites_old_field() {
    let mut g = Grid::new(4, 4);
    generate_flow_field_grid(c(0, 0), &mut g);
    generate_flow_field_grid(c(3, 3), &mut g);
    assert_eq!(weight(&g, 3, 3), 0);
    assert_eq!(weight(&g, 0, 0), 6);
    assert_eq!(next(&g, 0, 0), Some(c(1, 1)));
}

#[test]
fn destination_off_board_clears_field() {
    let mut g = Grid::new(4, 4);
    generate_flow_field_grid(c(1, 1), &mut g);
    generate_flow_field_grid(c(4, 0), &mut g);
    for t in g.tiles.iter() {
        assert_eq!(t.weight, UNREACHED);
        assert_eq!(t.next_pos, None);
    }
}

#[test]
fn single_cell_grid() {
    let mut g = Grid::new(1, 1);
    generate_flow_field_grid(c(0, 0), &mut g);
    assert_eq!(weight(&g, 0, 0), 0);
    assert_eq!(next(&g, 0, 0), None);
}

#[test]
fn costs_are_paid_on_entry() {
    let mut g = Grid::new(3, 1);
    g.set_cost(c(1, 0), 5);
    g.set_cost(c(2, 0), 9);
    generate_flow_field_grid(c(0, 0), &mut g);
    assert_eq!(weight(&g, 1, 0), 5);
    assert_eq!(weight(&g, 2, 0), 14);
    assert_eq!(next(&g, 2, 0), Some(c(1, 0)));
}

#[test]
fn direction_ties_keep_first_neighbour() {
    let mut g = Grid::new(3, 3);
    generate_flow_field_grid(c(1, 1), &mut g);
    // (0, 1) sees up (0, 2) at 2, up-right (1, 2) at 1, right (1, 1) at 0.
    assert_eq!(next(&g, 0, 1), Some(c(1, 1)));
    // (2, 2) sees down (2, 1) at 1, down-left (1, 1) at 0, left (1, 2) at 1.
    assert_eq!(next(&g, 2, 2), Some(c(1, 1)));
    let mut h = Grid::new(2, 1);
    generate_flow_field_grid(c(0, 0), &mut h);
    assert_eq!(next(&h, 1, 0), Some(c(0, 0)));
}

#[test]
fn destination_from_world_position_is_clamped() {
    let mut g = Grid::new(5, 5);
    gen_flow_field(&mut g, WorldPos { x: 1000, y: -1000 });
    assert_eq!(weight(&g, 4, 0), 0);
    assert_eq!(weight(&g, 0, 4), 8);
    gen_flow_field(&mut g, WorldPos { x: 0, y: 0 });
    assert_eq!(weight(&g, 2, 2), 0);
    assert_eq!(g.clamp_coords(c(9, 3)), c(4, 3));
    assert_eq!(g.clamp_coords(c(1, 3)), c(1, 3));
}
