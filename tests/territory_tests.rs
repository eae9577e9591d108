use territory_td::coords::Coords;
use territory_td::grid::{Grid, TileType};
use territory_td::territory::{
    change_allegiance, grab_territory, ChangeAllegianceEvent, TerritoryFlip, TerritoryGrabber,
    GRAB_HEAD_START_NANOS,
};

fn c(x: usize, y: usize) -> Coords {
    Coords { x, y }
}

fn dist(a: Coords, b: Coords) -> usize {
    a.x.abs_diff(b.x) + a.y.abs_diff(b.y)
}

#[test]
fn scenario_claim_range_two() {
    let mut g = Grid::new(20, 20);
    let ev = ChangeAllegianceEvent { center_coords: c(5, 5), range: 2 };
    let flips = g.apply_allegiance_change(&ev);
    for t in g.tiles.iter() {
        if dist(t.coords, c(5, 5)) <= 2 {
            assert_eq!(t.tile_type, TileType::Friendly);
        } else {
            assert_eq!(t.tile_type, TileType::Neutral);
        }
    }
    assert_eq!(flips.len(), 13);
    assert_eq!(flips[0], TerritoryFlip { coords: c(5, 5), start_frame: 0 });
    assert_eq!(flips[1], TerritoryFlip { coords: c(5, 6), start_frame: 10 });
    assert_eq!(flips[5], TerritoryFlip { coords: c(5, 7), start_frame: 20 });
    assert_eq!(flips[12], TerritoryFlip { coords: c(4, 6), start_frame: 20 });
}

#[test]
fn claim_near_corner_is_clipped() {
    let mut g = Grid::new(4, 4);
    let flips = g.apply_allegiance_change(&ChangeAllegianceEvent { center_coords: c(0, 0), range: 1 });
    assert_eq!(flips.len(), 3);
    assert_eq!(g.get_xy(0, 1).unwrap().tile_type, TileType::Friendly);
    assert_eq!(g.get_xy(1, 1).unwrap().tile_type, TileType::Neutral);
}

#[test]
fn range_zero_cycles_centre_only() {
    let mut g = Grid::new(3, 3);
    let flips = g.apply_allegiance_change(&ChangeAllegianceEvent { center_coords: c(1, 1), range: 0 });
    assert_eq!(flips, vec![TerritoryFlip { coords: c(1, 1), start_frame: 0 }]);
    assert_eq!(g.get_xy(1, 1).unwrap().tile_type, TileType::Friendly);
    assert_eq!(g.get_xy(1, 2).unwrap().tile_type, TileType::Neutral);
}

#[test]
fn three_changes_restore_allegiance() {
    let mut g = Grid::new(6, 6);
    let evs = vec![
        ChangeAllegianceEvent { center_coords: c(2, 2), range: 1 },
        ChangeAllegianceEvent { center_coords: c(3, 2), range: 0 },
        ChangeAllegianceEvent { center_coords: c(5, 5), range: 5 },
    ];
    let flips = change_allegiance(&mut g, &evs);
    assert_eq!(g.get_xy(3, 2).unwrap().tile_type, TileType::Neutral);
    assert_eq!(g.get_xy(2, 2).unwrap().tile_type, TileType::Friendly);
    assert_eq!(g.get_xy(0, 0).unwrap().tile_type, TileType::Neutral);
    assert_eq!(flips.len(), 5 + 1 + 21);
}

#[test]
fn events_apply_in_order() {
    let mut g = Grid::new(5, 5);
    let ev = ChangeAllegianceEvent { center_coords: c(0, 0), range: 0 };
    let flips = change_allegiance(&mut g, &vec![ev, ev]);
    assert_eq!(g.get_xy(0, 0).unwrap().tile_type, TileType::Hostile);
    assert_eq!(flips.len(), 2);
    let none = change_allegiance(&mut g, &vec![]);
    assert!(none.is_empty());
    assert_eq!(g.get_xy(0, 0).unwrap().tile_type, TileType::Hostile);
}

#[test]
fn grabber_fires_almost_at_once_then_every_interval() {
    let mut gr = TerritoryGrabber::new(3);
    assert_eq!(gr.elapsed_nanos, GRAB_HEAD_START_NANOS);
    assert!(!gr.tick(50_000_000));
    assert!(gr.tick(50_000_000));
    assert_eq!(gr.elapsed_nanos, 0);
    assert!(!gr.tick(9_999_999_999));
    assert!(gr.tick(1));
    assert!(gr.tick(25_000_000_000));
    assert_eq!(gr.elapsed_nanos, 5_000_000_000);
    assert_eq!(gr.range, 3);
}

#[test]
fn grab_territory_emits_event() {
    let mut gr = TerritoryGrabber::new(4);
    assert_eq!(grab_territory(&mut gr, c(7, 8), 16_000_000), None);
    assert_eq!(
        grab_territory(&mut gr, c(7, 8), 100_000_000),
        Some(ChangeAllegianceEvent { center_coords: c(7, 8), range: 4 })
    );
    assert_eq!(gr.elapsed_nanos, 16_000_000);
}
