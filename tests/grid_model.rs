use landio::components::{GridSettings, Point, Tile};
use landio::grid::{classify, BoundsError, Cell, Grid};
use landio::render::{render_trail_system, tile_shade, Shade};
use landio::trails::Trail;

fn settings(w: i32, h: i32) -> GridSettings {
    GridSettings { tile_size: 20, grid_width: w, grid_height: h }
}

#[test]
fn default_settings_match_window() {
    let s = GridSettings::default();
    assert_eq!(s.tile_size, 20);
    assert_eq!(s.grid_width, 40);
    assert_eq!(s.grid_height, 30);
}

#[test]
fn new_grid_is_neutral() {
    let g = Grid::new(&settings(4, 3));
    assert_eq!(g.width(), 4);
    assert_eq!(g.height(), 3);
    for y in 0..3 {
        for x in 0..4 {
            let t = g.tile_at(x, y).unwrap();
            assert_eq!(t, Tile { x, y, owner: None, is_trail: false });
        }
    }
}

#[test]
fn tile_at_rejects_outside_coordinates() {
    let g = Grid::new(&settings(4, 3));
    assert_eq!(g.tile_at(-1, 0), Err(BoundsError { x: -1, y: 0 }));
    assert_eq!(g.tile_at(4, 0), Err(BoundsError { x: 4, y: 0 }));
    assert_eq!(g.tile_at(0, 3), Err(BoundsError { x: 0, y: 3 }));
    assert_eq!(g.tile_at(0, -7), Err(BoundsError { x: 0, y: -7 }));
}

#[test]
fn set_and_reset_tile() {
    let mut g = Grid::new(&settings(4, 3));
    assert_eq!(g.set_tile(2, 1, Some(7), true), Ok(()));
    assert_eq!(g.tile_at(2, 1).unwrap(), Tile { x: 2, y: 1, owner: Some(7), is_trail: true });
    assert_eq!(g.tile_at(1, 1).unwrap().owner, None);
    assert_eq!(g.reset_tile(2, 1), Ok(()));
    assert_eq!(g.tile_at(2, 1).unwrap(), Tile { x: 2, y: 1, owner: None, is_trail: false });
}

#[test]
fn set_tile_outside_changes_nothing() {
    let mut g = Grid::new(&settings(4, 3));
    assert_eq!(g.set_tile(9, 1, Some(7), false), Err(BoundsError { x: 9, y: 1 }));
    assert_eq!(g.reset_tile(0, 3), Err(BoundsError { x: 0, y: 3 }));
    for y in 0..3 {
        for x in 0..4 {
            assert_eq!(g.tile_at(x, y).unwrap().owner, None);
        }
    }
}

#[test]
fn classify_relative_to_player() {
    let t = |owner, is_trail| Tile { x: 0, y: 0, owner, is_trail };
    assert_eq!(classify(&t(None, false), 1), Cell::Empty);
    assert_eq!(classify(&t(Some(1), false), 1), Cell::OwnTerritory);
    assert_eq!(classify(&t(Some(1), true), 1), Cell::OwnTrail);
    assert_eq!(classify(&t(Some(2), false), 1), Cell::Other);
    assert_eq!(classify(&t(Some(2), true), 1), Cell::Other);
}

#[test]
fn release_player_frees_only_their_tiles() {
    let mut g = Grid::new(&settings(4, 3));
    g.set_tile(0, 0, Some(1), false).unwrap();
    g.set_tile(1, 0, Some(1), true).unwrap();
    g.set_tile(2, 0, Some(2), false).unwrap();
    g.release_player(1);
    assert_eq!(g.tile_at(0, 0).unwrap(), Tile { x: 0, y: 0, owner: None, is_trail: false });
    assert_eq!(g.tile_at(1, 0).unwrap(), Tile { x: 1, y: 0, owner: None, is_trail: false });
    assert_eq!(g.tile_at(2, 0).unwrap().owner, Some(2));
}

#[test]
fn count_trail_counts_own_trail_only() {
    let mut g = Grid::new(&settings(5, 5));
    g.set_tile(0, 0, Some(1), true).unwrap();
    g.set_tile(1, 0, Some(1), true).unwrap();
    g.set_tile(2, 0, Some(1), false).unwrap();
    g.set_tile(3, 0, Some(2), true).unwrap();
    assert_eq!(g.count_trail(1), 2);
    assert_eq!(g.count_trail(2), 1);
    assert_eq!(g.count_trail(3), 0);
}

#[test]
fn tile_shades_follow_state() {
    assert_eq!(tile_shade(&Tile { x: 2, y: 4, owner: None, is_trail: false }), Shade::Neutral { dark: true });
    assert_eq!(tile_shade(&Tile { x: 2, y: 3, owner: None, is_trail: false }), Shade::Neutral { dark: false });
    assert_eq!(tile_shade(&Tile { x: 0, y: 0, owner: Some(3), is_trail: false }), Shade::Territory { owner: 3 });
    assert_eq!(tile_shade(&Tile { x: 0, y: 0, owner: Some(3), is_trail: true }), Shade::Trail { owner: 3 });
}

#[test]
fn trail_segments_need_two_points() {
    let mut t = Trail::new(1);
    assert!(render_trail_system(&t).is_empty());
    t.points.push(Point { x: 0, y: 0 });
    assert!(render_trail_system(&t).is_empty());
    t.points.push(Point { x: 10, y: 0 });
    t.points.push(Point { x: 10, y: 10 });
    assert_eq!(
        render_trail_system(&t),
        vec![(Point { x: 0, y: 0 }, Point { x: 10, y: 0 }), (Point { x: 10, y: 0 }, Point { x: 10, y: 10 })]
    );
}
