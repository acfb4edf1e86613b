use landio::claim::{claim_territory_system, flood_outside};
use landio::collision::{check_self_intersection, detect_self_intersection};
use landio::components::{GridSettings, Player};
use landio::death::{handle_player_death, init_player_territory};
use landio::events::{PlayerDeathEvent, PlayerDeathReason};
use landio::game::setup_game;
use landio::grid::Grid;
use landio::resources::CompleteTrail;

const ME: u64 = 1;
const RIVAL: u64 = 2;

fn settings(w: i32, h: i32) -> GridSettings {
    GridSettings { tile_size: 20, grid_width: w, grid_height: h }
}

fn owned(g: &Grid, p: u64) -> Vec<(i32, i32)> {
    let mut v = Vec::new();
    for y in 0..g.height() {
        for x in 0..g.width() {
            if g.tile_at(x, y).unwrap().owner == Some(p) {
                v.push((x, y));
            }
        }
    }
    v
}

fn block(x0: i32, x1: i32, y0: i32, y1: i32) -> Vec<(i32, i32)> {
    let mut v = Vec::new();
    for y in y0..=y1 {
        for x in x0..=x1 {
            v.push((x, y));
        }
    }
    v
}

fn started(w: i32, h: i32) -> (Grid, Player) {
    let s = settings(w, h);
    let (mut g, mut p, _) = setup_game(&s);
    init_player_territory(&mut g, &s, ME, &mut p);
    (g, p)
}

fn request(entry: Option<(i32, i32)>) -> CompleteTrail {
    CompleteTrail { player: Some(ME), complete: true, entry_point: entry }
}

#[test]
fn start_block_on_ten_by_ten_grid() {
    let (g, p) = started(10, 10);
    assert_eq!(p.last_tile_pos, (5, 5));
    assert_eq!(p.score, 25);
    assert_eq!(owned(&g, ME), block(3, 7, 3, 7));
    for (x, y) in block(3, 7, 3, 7) {
        assert!(!g.tile_at(x, y).unwrap().is_trail);
    }
}

/// A ring of trail around the 3×3 square x, y in [2, 4], joined to the
/// territory (x from 8 on, on a 20×20 grid) by trail along y = 3.
fn ring_with_link(g: &mut Grid) -> Vec<(i32, i32)> {
    let mut trail = Vec::new();
    for x in 1..=5 {
        trail.push((x, 1));
        trail.push((x, 5));
    }
    for y in 2..=4 {
        trail.push((1, y));
        trail.push((5, y));
    }
    trail.push((6, 3));
    trail.push((7, 3));
    for &(x, y) in &trail {
        g.set_tile(x, y, Some(ME), true).unwrap();
    }
    trail
}

#[test]
fn ring_claims_interior() {
    let (mut g, mut p) = started(20, 20);
    let trail = ring_with_link(&mut g);
    let mut req = request(Some((8, 3)));
    let r = claim_territory_system(&mut g, &mut req, ME, &mut p);
    assert_eq!(r, None);
    assert_eq!(p.score, 25 + 9);
    for (x, y) in block(2, 4, 2, 4) {
        let t = g.tile_at(x, y).unwrap();
        assert_eq!(t.owner, Some(ME));
        assert!(!t.is_trail);
    }
    for (x, y) in trail {
        let t = g.tile_at(x, y).unwrap();
        assert_eq!(t.owner, Some(ME));
        assert!(!t.is_trail);
    }
    assert_eq!(owned(&g, ME).len(), 25 + 18 + 9);
    assert!(!req.is_pending());
    assert_eq!(req.player, None);
    assert_eq!(req.entry_point, None);
}

#[test]
fn claim_keeps_other_players_tiles() {
    let (mut g, mut p) = started(20, 20);
    ring_with_link(&mut g);
    g.set_tile(3, 3, Some(RIVAL), false).unwrap();
    g.set_tile(15, 15, Some(RIVAL), true).unwrap();
    let mut req = request(Some((8, 3)));
    claim_territory_system(&mut g, &mut req, ME, &mut p);
    assert_eq!(g.tile_at(3, 3).unwrap().owner, Some(RIVAL));
    assert_eq!(g.tile_at(15, 15).unwrap().owner, Some(RIVAL));
    assert!(g.tile_at(15, 15).unwrap().is_trail);
    assert_eq!(p.score, 25 + 8);
}

#[test]
fn claim_without_pending_request_changes_nothing() {
    let (mut g, mut p) = started(20, 20);
    ring_with_link(&mut g);
    let before: Vec<_> = (0..20).flat_map(|y| (0..20).map(move |x| (x, y))).collect();
    let snapshot: Vec<_> = before.iter().map(|&(x, y)| g.tile_at(x, y).unwrap()).collect();
    let mut req = CompleteTrail { player: Some(ME), complete: false, entry_point: Some((8, 3)) };
    assert_eq!(claim_territory_system(&mut g, &mut req, ME, &mut p), None);
    let mut empty = CompleteTrail::empty();
    assert_eq!(claim_territory_system(&mut g, &mut empty, ME, &mut p), None);
    assert_eq!(p.score, 25);
    assert!(!req.is_pending());
    assert_eq!(req.entry_point, Some((8, 3)));
    for (i, &(x, y)) in before.iter().enumerate() {
        assert_eq!(g.tile_at(x, y).unwrap(), snapshot[i]);
    }
}

#[test]
fn claim_with_empty_trail_still_settles() {
    let (mut g, mut p) = started(10, 10);
    g.set_tile(2, 5, Some(ME), true).unwrap();
    let mut req = request(Some((3, 5)));
    assert_eq!(claim_territory_system(&mut g, &mut req, ME, &mut p), None);
    assert_eq!(p.score, 25);
    assert!(!g.tile_at(2, 5).unwrap().is_trail);
    assert_eq!(g.tile_at(2, 5).unwrap().owner, Some(ME));
}

#[test]
fn flood_fill_marks_only_reachable_empty_tiles() {
    let (mut g, _) = started(20, 20);
    ring_with_link(&mut g);
    let seen = flood_outside(&g);
    assert_eq!(seen.len(), 400);
    assert!(seen[0]);
    assert!(!seen[3 * 20 + 3]);
    assert!(!seen[10 * 20 + 10]);
    assert!(!seen[20 + 1]);
    assert!(seen[19 * 20 + 19]);
    let unmarked_empty = (0..400).filter(|&i| !seen[i] && g.tile_at((i % 20) as i32, (i / 20) as i32).unwrap().owner.is_none()).count();
    assert_eq!(unmarked_empty, 9);
}

/// A plus-shaped trail away from territory: its middle tile has four trail neighbours.
fn cross(g: &mut Grid) {
    for &(x, y) in &[(2, 2), (1, 2), (3, 2), (2, 1), (2, 3)] {
        g.set_tile(x, y, Some(ME), true).unwrap();
    }
}

#[test]
fn crossed_trail_kills() {
    let s = settings(20, 20);
    let (mut g, mut p) = started(20, 20);
    cross(&mut g);
    assert!(detect_self_intersection(&g, ME));
    let mut req = CompleteTrail::empty();
    check_self_intersection(&g, ME, &mut req);
    assert!(req.is_pending());
    assert_eq!(req.entry_point, None);
    let ev = claim_territory_system(&mut g, &mut req, ME, &mut p);
    assert_eq!(ev, Some(PlayerDeathEvent { player_entity: ME, reason: PlayerDeathReason::CrossedTrail }));
    assert_eq!(p.score, 25);
    let mut pos = landio::components::Point { x: 50, y: 50 };
    handle_player_death(&mut g, &s, &ev.unwrap(), &mut p, &mut pos, &mut req);
    assert_eq!(p.score, 25);
    assert_eq!(owned(&g, ME), block(8, 12, 8, 12));
    assert_eq!(g.count_trail(ME), 0);
}

#[test]
fn straight_trail_is_no_crossing() {
    let (mut g, _) = started(20, 20);
    for x in 1..6 {
        g.set_tile(x, 2, Some(ME), true).unwrap();
    }
    g.set_tile(5, 3, Some(ME), true).unwrap();
    assert!(!detect_self_intersection(&g, ME));
    let mut req = CompleteTrail::empty();
    check_self_intersection(&g, ME, &mut req);
    assert!(!req.is_pending());
}

#[test]
fn pending_claim_blocks_crossing_request() {
    let (mut g, _) = started(20, 20);
    cross(&mut g);
    let mut req = request(Some((8, 8)));
    check_self_intersection(&g, ME, &mut req);
    assert_eq!(req.entry_point, Some((8, 8)));
}
