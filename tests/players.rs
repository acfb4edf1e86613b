use landio::collision::{collision_detection_system, MIN_TRAIL_FOR_COLLISION};
use landio::components::{Direction, GridSettings, Player, Point};
use landio::death::{handle_player_death, init_player_territory};
use landio::events::{PlayerDeathEvent, PlayerDeathReason};
use landio::game::{match_winner, run_tick, setup_game};
use landio::grid::Grid;
use landio::input::{direction_from_keys, player_input_system};
use landio::movement::{advance_position, arrive_at_tile, player_movement_system};
use landio::resources::CompleteTrail;
use landio::trails::{start_trail_system, update_trail_system, Trail};

const ME: u64 = 1;
const RIVAL: u64 = 2;

fn settings(w: i32, h: i32) -> GridSettings {
    GridSettings { tile_size: 20, grid_width: w, grid_height: h }
}

fn center(x: i64, y: i64) -> Point {
    Point { x: x * 20 + 10, y: y * 20 + 10 }
}

fn owned_count(g: &Grid, p: u64) -> usize {
    let mut n = 0;
    for y in 0..g.height() {
        for x in 0..g.width() {
            if g.tile_at(x, y).unwrap().owner == Some(p) {
                n += 1;
            }
        }
    }
    n
}

fn started(w: i32, h: i32) -> (Grid, Player, Point) {
    let s = settings(w, h);
    let (mut g, mut p, pos) = setup_game(&s);
    init_player_territory(&mut g, &s, ME, &mut p);
    (g, p, pos)
}

#[test]
fn setup_places_player_at_center() {
    let (_, p, pos) = setup_game(&settings(40, 30));
    assert_eq!(p.last_tile_pos, (20, 15));
    assert_eq!(pos, Point { x: 410, y: 310 });
    assert_eq!(p.direction, Direction::Still);
    assert_eq!(p.score, 0);
    assert_eq!(p.speed, 5);
    assert!(!p.is_drawing_trail);
    assert!(!p.is_moving_to_next_tile);
}

#[test]
fn death_resets_to_fresh_block() {
    let s = settings(10, 10);
    let (mut g, mut p, _) = started(10, 10);
    p.score = 77;
    p.direction = Direction::Left;
    p.buffered_direction = Some(Direction::Up);
    p.is_drawing_trail = true;
    g.set_tile(0, 0, Some(ME), false).unwrap();
    g.set_tile(1, 0, Some(ME), true).unwrap();
    g.set_tile(5, 5, Some(ME), true).unwrap();
    let mut pos = center(1, 0);
    let mut req = CompleteTrail { player: Some(ME), complete: true, entry_point: Some((3, 3)) };
    let ev = PlayerDeathEvent { player_entity: ME, reason: PlayerDeathReason::TrailCollision };
    handle_player_death(&mut g, &s, &ev, &mut p, &mut pos, &mut req);
    assert_eq!(p.score, 25);
    assert_eq!(owned_count(&g, ME), 25);
    assert_eq!(g.tile_at(0, 0).unwrap().owner, None);
    assert_eq!(g.tile_at(1, 0).unwrap().owner, None);
    assert!(!g.tile_at(1, 0).unwrap().is_trail);
    assert!(!g.tile_at(5, 5).unwrap().is_trail);
    assert_eq!(p.direction, Direction::Still);
    assert_eq!(p.buffered_direction, None);
    assert!(!p.is_drawing_trail);
    assert_eq!(p.last_tile_pos, (5, 5));
    assert_eq!(pos, center(5, 5));
    assert!(!req.is_pending());
}

#[test]
fn death_keeps_claim_of_another_player() {
    let s = settings(10, 10);
    let (mut g, mut p, mut pos) = started(10, 10);
    let mut req = CompleteTrail { player: Some(RIVAL), complete: true, entry_point: Some((0, 0)) };
    let ev = PlayerDeathEvent { player_entity: ME, reason: PlayerDeathReason::OutOfBounds };
    handle_player_death(&mut g, &s, &ev, &mut p, &mut pos, &mut req);
    assert!(req.is_pending());
    assert_eq!(req.player, Some(RIVAL));
}

#[test]
fn death_grants_only_free_tiles() {
    let s = settings(10, 10);
    let (mut g, mut p, mut pos) = started(10, 10);
    g.set_tile(3, 3, Some(RIVAL), false).unwrap();
    let mut req = CompleteTrail::empty();
    let ev = PlayerDeathEvent { player_entity: ME, reason: PlayerDeathReason::HitOtherPlayer };
    handle_player_death(&mut g, &s, &ev, &mut p, &mut pos, &mut req);
    assert_eq!(p.score, 24);
    assert_eq!(g.tile_at(3, 3).unwrap().owner, Some(RIVAL));
}

#[test]
fn small_grid_grants_clipped_block() {
    let s = settings(3, 3);
    let (mut g, mut p, _) = setup_game(&s);
    init_player_territory(&mut g, &s, ME, &mut p);
    assert_eq!(p.score, 9);
    assert_eq!(owned_count(&g, ME), 9);
}

#[test]
fn keys_pick_one_direction() {
    assert_eq!(direction_from_keys(false, false, false, false), Direction::Still);
    assert_eq!(direction_from_keys(true, false, false, false), Direction::Up);
    assert_eq!(direction_from_keys(true, true, false, false), Direction::Down);
    assert_eq!(direction_from_keys(true, true, true, false), Direction::Left);
    assert_eq!(direction_from_keys(true, true, true, true), Direction::Right);
}

#[test]
fn input_rejects_reversal_and_buffers_turns() {
    let (_, mut p, _) = setup_game(&settings(10, 10));
    player_input_system(&mut p, Direction::Right);
    assert_eq!(p.direction, Direction::Right);
    assert_eq!(p.buffered_direction, None);
    player_input_system(&mut p, Direction::Left);
    assert_eq!(p.direction, Direction::Right);
    p.is_moving_to_next_tile = true;
    player_input_system(&mut p, Direction::Up);
    assert_eq!(p.direction, Direction::Right);
    assert_eq!(p.buffered_direction, Some(Direction::Up));
    player_input_system(&mut p, Direction::Still);
    assert_eq!(p.buffered_direction, Some(Direction::Up));
    p.is_moving_to_next_tile = false;
    player_input_system(&mut p, Direction::Down);
    assert_eq!(p.direction, Direction::Down);
    assert_eq!(p.buffered_direction, None);
}

#[test]
fn arrival_on_own_trail_while_drawing_kills() {
    let (mut g, mut p, _) = started(10, 10);
    g.set_tile(1, 1, Some(ME), true).unwrap();
    p.is_drawing_trail = true;
    p.direction = Direction::Left;
    let mut req = CompleteTrail::empty();
    let r = arrive_at_tile(&mut g, ME, &mut p, 1, 1, &mut req);
    assert_eq!(r, Some(PlayerDeathEvent { player_entity: ME, reason: PlayerDeathReason::TrailCollision }));
    assert!(!req.is_pending());
    assert!(g.tile_at(1, 1).unwrap().is_trail);
}

#[test]
fn arrival_back_in_territory_files_claim() {
    let (mut g, mut p, _) = started(10, 10);
    p.is_drawing_trail = true;
    p.direction = Direction::Right;
    let mut req = CompleteTrail::empty();
    assert_eq!(arrive_at_tile(&mut g, ME, &mut p, 3, 4, &mut req), None);
    assert!(req.is_pending());
    assert_eq!(req.player, Some(ME));
    assert_eq!(req.entry_point, Some((3, 4)));
    assert!(!p.is_drawing_trail);
    assert_eq!(p.last_tile_pos, (3, 4));
    assert!(p.is_moving_to_next_tile);
}

#[test]
fn arrival_at_territory_edge_starts_trail_on_next_tile() {
    let (mut g, mut p, _) = started(10, 10);
    p.direction = Direction::Right;
    p.buffered_direction = Some(Direction::Up);
    let mut req = CompleteTrail::empty();
    assert_eq!(arrive_at_tile(&mut g, ME, &mut p, 5, 7, &mut req), None);
    assert_eq!(p.direction, Direction::Up);
    assert_eq!(p.buffered_direction, None);
    assert!(p.is_drawing_trail);
    assert!(!g.tile_at(5, 7).unwrap().is_trail);
    assert_eq!(g.tile_at(5, 8).unwrap().owner, None);
    assert_eq!(arrive_at_tile(&mut g, ME, &mut p, 5, 8, &mut req), None);
    assert_eq!(g.tile_at(5, 8).unwrap().owner, Some(ME));
    assert!(g.tile_at(5, 8).unwrap().is_trail);
}

#[test]
fn advance_moves_and_snaps_at_edge() {
    let s = settings(10, 10);
    let (_, mut p, _) = setup_game(&s);
    p.direction = Direction::Right;
    p.is_moving_to_next_tile = true;
    let mut pos = center(5, 5);
    advance_position(&s, &mut p, &mut pos, 7);
    assert_eq!(pos, Point { x: 117, y: 110 });
    assert!(p.is_moving_to_next_tile);
    let mut pos = Point { x: 195, y: 110 };
    advance_position(&s, &mut p, &mut pos, 20);
    assert_eq!(pos, center(9, 5));
    assert!(!p.is_moving_to_next_tile);
    p.direction = Direction::Down;
    let mut pos = Point { x: 30, y: 5 };
    advance_position(&s, &mut p, &mut pos, 10);
    assert_eq!(pos, center(1, 0));
}

#[test]
fn still_player_does_not_move() {
    let s = settings(10, 10);
    let (mut g, mut p, mut pos) = started(10, 10);
    let mut req = CompleteTrail::empty();
    assert_eq!(player_movement_system(&mut g, &s, ME, &mut p, &mut pos, 20, &mut req), None);
    assert_eq!(pos, center(5, 5));
    assert!(!p.is_moving_to_next_tile);
}

#[test]
fn start_trail_marks_current_tile_outside_territory() {
    let s = settings(10, 10);
    let (mut g, mut p, _) = started(10, 10);
    p.direction = Direction::Left;
    start_trail_system(&mut g, &s, ME, &mut p, center(1, 1));
    assert!(p.is_drawing_trail);
    assert!(g.tile_at(1, 1).unwrap().is_trail);
    assert_eq!(g.tile_at(1, 1).unwrap().owner, Some(ME));
}

#[test]
fn start_trail_on_territory_edge_marks_nothing() {
    let s = settings(10, 10);
    let (mut g, mut p, _) = started(10, 10);
    p.direction = Direction::Left;
    start_trail_system(&mut g, &s, ME, &mut p, center(3, 5));
    assert!(p.is_drawing_trail);
    assert_eq!(g.count_trail(ME), 0);
    let (mut g2, mut p2, _) = started(10, 10);
    p2.direction = Direction::Left;
    start_trail_system(&mut g2, &s, ME, &mut p2, center(5, 5));
    assert!(!p2.is_drawing_trail);
}

#[test]
fn trail_points_keep_spacing() {
    let (_, mut p, _) = setup_game(&settings(10, 10));
    let mut trail = Trail::new(ME);
    update_trail_system(&mut trail, ME, &p, Point { x: 0, y: 0 });
    assert!(trail.points.is_empty());
    p.is_drawing_trail = true;
    update_trail_system(&mut trail, ME, &p, Point { x: 0, y: 0 });
    update_trail_system(&mut trail, ME, &p, Point { x: 3, y: 4 });
    update_trail_system(&mut trail, ME, &p, Point { x: 4, y: 4 });
    update_trail_system(&mut trail, RIVAL, &p, Point { x: 40, y: 4 });
    assert_eq!(trail.points, vec![Point { x: 0, y: 0 }, Point { x: 4, y: 4 }]);
    trail.clear();
    assert!(trail.points.is_empty());
}

/// A drawing player with a long trail, standing right by one of its tiles.
fn long_trail_beside_player() -> (GridSettings, Grid, Player) {
    let s = settings(20, 20);
    let (mut g, mut p, _) = started(20, 20);
    for x in 0..12 {
        g.set_tile(x, 2, Some(ME), true).unwrap();
    }
    p.is_drawing_trail = true;
    (s, g, p)
}

#[test]
fn proximity_within_safe_zone_is_not_a_hit() {
    let (s, g, p) = long_trail_beside_player();
    assert!(g.count_trail(ME) as usize >= MIN_TRAIL_FOR_COLLISION);
    // 0.5 of a tile above the center of trail tile (4, 2): that tile is the
    // neighbour of the player's tile (4, 3), inside the safe zone.
    let pos = Point { x: 90, y: 60 };
    assert_eq!(collision_detection_system(&g, &s, ME, &p, pos), None);
}

#[test]
fn collision_needs_drawing_and_long_trail() {
    let (s, g, mut p) = long_trail_beside_player();
    p.is_drawing_trail = false;
    assert_eq!(collision_detection_system(&g, &s, ME, &p, Point { x: 90, y: 50 }), None);
    let s2 = settings(20, 20);
    let (mut g2, mut p2, _) = started(20, 20);
    for x in 0..5 {
        g2.set_tile(x, 2, Some(ME), true).unwrap();
    }
    p2.is_drawing_trail = true;
    assert_eq!(collision_detection_system(&g2, &s2, ME, &p2, Point { x: 30, y: 100 }), None);
    let _ = s;
}

#[test]
fn winner_is_first_highest_score() {
    assert_eq!(match_winner(&vec![(1, 3), (2, 9), (3, 9), (4, 1)]), Some(2));
    assert_eq!(match_winner(&vec![(1, 0), (2, 0)]), None);
    assert_eq!(match_winner(&vec![]), None);
    assert_eq!(match_winner(&vec![(5, 1)]), Some(5));
}

#[test]
fn ticks_close_a_loop_and_claim() {
    let s = settings(20, 20);
    let (mut g, mut p, mut pos) = started(20, 20);
    let mut trail = Trail::new(ME);
    let mut req = CompleteTrail::empty();
    let inputs = [
        Direction::Right,
        Direction::Still,
        Direction::Still,
        Direction::Still,
        Direction::Up,
        Direction::Still,
        Direction::Still,
        Direction::Left,
        Direction::Still,
        Direction::Still,
        Direction::Still,
        Direction::Down,
    ];
    for d in inputs {
        assert_eq!(run_tick(&mut g, &s, ME, &mut p, &mut pos, &mut trail, &mut req, d, 20), None);
        assert!(p.is_drawing_trail || p.score == 25);
    }
    assert_eq!(p.score, 25);
    assert_eq!(g.count_trail(ME), 9);
    assert_eq!(run_tick(&mut g, &s, ME, &mut p, &mut pos, &mut trail, &mut req, Direction::Still, 20), None);
    assert_eq!(p.score, 27);
    assert_eq!(g.count_trail(ME), 0);
    assert_eq!(owned_count(&g, ME), 25 + 9 + 2);
    assert!(!p.is_drawing_trail);
    assert!(trail.points.is_empty());
    assert_eq!(g.tile_at(13, 11).unwrap().owner, Some(ME));
    assert_eq!(g.tile_at(13, 12).unwrap().owner, Some(ME));
}

#[test]
fn tick_death_cancels_claim() {
    let s = settings(20, 20);
    let (mut g, mut p, mut pos) = started(20, 20);
    let mut trail = Trail::new(ME);
    for x in 13..16 {
        g.set_tile(x, 10, Some(ME), true).unwrap();
    }
    p.is_drawing_trail = true;
    p.direction = Direction::Right;
    pos = Point { x: pos.x + 60, y: pos.y };
    let mut req = CompleteTrail { player: Some(ME), complete: true, entry_point: Some((12, 10)) };
    let r = run_tick(&mut g, &s, ME, &mut p, &mut pos, &mut trail, &mut req, Direction::Still, 20);
    assert_eq!(r, Some(PlayerDeathEvent { player_entity: ME, reason: PlayerDeathReason::TrailCollision }));
    assert_eq!(p.score, 25);
    assert!(!req.is_pending());
    assert_eq!(pos, center(10, 10));
    assert_eq!(owned_count(&g, ME), 25);
}

#[test]
fn every_tick_keeps_trail_tiles_owned() {
    let s = settings(12, 12);
    let (mut g, mut p, mut pos) = started(12, 12);
    let mut trail = Trail::new(ME);
    let mut req = CompleteTrail::empty();
    let inputs = [Direction::Up, Direction::Up, Direction::Left, Direction::Still, Direction::Down, Direction::Still,
        Direction::Right, Direction::Right, Direction::Up, Direction::Left, Direction::Still, Direction::Still];
    for round in 0..4 {
        for &d in &inputs {
            let step = 7 + round * 4;
            run_tick(&mut g, &s, ME, &mut p, &mut pos, &mut trail, &mut req, d, step);
            for y in 0..12 {
                for x in 0..12 {
                    let t = g.tile_at(x, y).unwrap();
                    assert!(!t.is_trail || t.owner.is_some());
                }
            }
            assert!(!req.is_pending());
        }
    }
}

/// A plus-shaped trail of player `ME` centred on tile (2, 2), away from territory.
fn cross_trail(g: &mut Grid) {
    for &(x, y) in &[(2, 2), (1, 2), (3, 2), (2, 1), (2, 3)] {
        g.set_tile(x, y, Some(ME), true).unwrap();
    }
}

#[test]
fn movement_files_claim_for_crossed_trail() {
    let s = settings(20, 20);
    let (mut g, mut p, _) = started(20, 20);
    cross_trail(&mut g);
    p.direction = Direction::Right;
    p.is_drawing_trail = true;
    p.is_moving_to_next_tile = true;
    p.last_tile_pos = (5, 1);
    let mut pos = Point { x: 105, y: 30 };
    let mut req = CompleteTrail::empty();
    assert_eq!(player_movement_system(&mut g, &s, ME, &mut p, &mut pos, 5, &mut req), None);
    assert_eq!(pos, Point { x: 110, y: 30 });
    assert!(req.is_pending());
    assert_eq!(req.player, Some(ME));
    assert_eq!(req.entry_point, None);
}

#[test]
fn movement_keeps_pending_claim_over_crossing() {
    let s = settings(20, 20);
    let (mut g, mut p, _) = started(20, 20);
    cross_trail(&mut g);
    p.direction = Direction::Right;
    p.is_moving_to_next_tile = true;
    p.last_tile_pos = (5, 1);
    let mut pos = Point { x: 105, y: 30 };
    let mut req = CompleteTrail { player: Some(ME), complete: true, entry_point: Some((8, 8)) };
    player_movement_system(&mut g, &s, ME, &mut p, &mut pos, 5, &mut req);
    assert_eq!(req.entry_point, Some((8, 8)));
}

#[test]
fn tick_with_crossed_trail_dies_and_respawns() {
    let s = settings(20, 20);
    let (mut g, mut p, _) = started(20, 20);
    cross_trail(&mut g);
    p.direction = Direction::Right;
    p.is_drawing_trail = true;
    p.is_moving_to_next_tile = true;
    p.last_tile_pos = (5, 1);
    let mut pos = Point { x: 105, y: 30 };
    let mut trail = Trail::new(ME);
    let mut req = CompleteTrail::empty();
    let r = run_tick(&mut g, &s, ME, &mut p, &mut pos, &mut trail, &mut req, Direction::Still, 5);
    assert_eq!(r, Some(PlayerDeathEvent { player_entity: ME, reason: PlayerDeathReason::CrossedTrail }));
    assert_eq!(p.score, 25);
    assert_eq!(owned_count(&g, ME), 25);
    assert_eq!(g.count_trail(ME), 0);
    assert_eq!(pos, center(10, 10));
    assert!(!req.is_pending());
    assert!(trail.points.is_empty());
}
