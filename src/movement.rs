use vstd::prelude::*;
use crate::components::{Direction, GridSettings, Player, PlayerId, Point, Tile};
use crate::events::{PlayerDeathEvent, PlayerDeathReason};
use crate::grid::{classify, classify_spec, lemma_area, Cell, Grid};
use crate::resources::CompleteTrail;
use crate::collision::{check_self_intersection, crossing_result};

verus! {

/// The player as it arrives at tile (x, y): the position is recorded, the
/// player is under way to the next tile, and a buffered turn takes effect.
pub open spec fn arrived(p: Player, x: int, y: int) -> Player {
    Player {
        last_tile_pos: (x as i32, y as i32),
        is_moving_to_next_tile: true,
        direction: match p.buffered_direction {
            Some(d) => d,
            None => p.direction,
        },
        buffered_direction: None,
        ..p
    }
}

/// The tile after (x, y) in direction `d` lies in the grid and is not `p`'s territory.
pub open spec fn leaves_territory(g: Grid, p: PlayerId, x: int, y: int, d: Direction) -> bool {
    let nx = x + d.dx();
    let ny = y + d.dy();
    g.in_bounds(nx, ny) && classify_spec(g.cell(nx, ny), p) != Cell::OwnTerritory
}

/// What arriving at (x, y) decides, for player `a` already updated by `arrived`.
pub open spec fn dies_on_arrival(g: Grid, p: PlayerId, a: Player, x: int, y: int) -> bool {
    classify_spec(g.cell(x, y), p) == Cell::OwnTrail && a.is_drawing_trail
}

pub open spec fn closes_on_arrival(g: Grid, p: PlayerId, a: Player, x: int, y: int) -> bool {
    classify_spec(g.cell(x, y), p) == Cell::OwnTerritory && a.is_drawing_trail
}

pub open spec fn starts_on_arrival(g: Grid, p: PlayerId, a: Player, x: int, y: int) -> bool {
    classify_spec(g.cell(x, y), p) == Cell::OwnTerritory && !a.is_drawing_trail && leaves_territory(
        g,
        p,
        x,
        y,
        a.direction,
    )
}

pub open spec fn marks_on_arrival(g: Grid, p: PlayerId, a: Player, x: int, y: int) -> bool {
    classify_spec(g.cell(x, y), p) != Cell::OwnTerritory && a.is_drawing_trail && !dies_on_arrival(
        g,
        p,
        a,
        x,
        y,
    )
}

/// Whether the player draws after arriving at (x, y) without dying.
pub open spec fn drawing_after_arrival(g: Grid, p: PlayerId, a: Player, x: int, y: int) -> bool {
    if closes_on_arrival(g, p, a, x, y) {
        false
    } else if starts_on_arrival(g, p, a, x, y) {
        true
    } else {
        a.is_drawing_trail
    }
}

pub open spec fn trail_tile(p: PlayerId, x: int, y: int) -> Tile {
    Tile { x: x as i32, y: y as i32, owner: Some(p), is_trail: true }
}

/// The decisions taken once, on arrival at tile (x, y): a buffered turn takes
/// effect; reaching one's own trail while drawing is a death; reaching one's
/// own territory while drawing closes the loop and files a claim with (x, y)
/// as the entry point; standing on territory with the next tile outside it
/// starts a trail, marked from the next tile on; any other tile reached while
/// drawing becomes part of the trail.
pub fn arrive_at_tile(
    grid: &mut Grid,
    id: PlayerId,
    player: &mut Player,
    x: i32,
    y: i32,
    request: &mut CompleteTrail,
) -> (r: Option<PlayerDeathEvent>)
    requires
        old(grid).wf(),
        old(grid).in_bounds(x as int, y as int),
    ensures
        ({
            let a = arrived(*old(player), x as int, y as int);
            let g = *old(grid);
            &&& final(grid).wf()
            &&& final(grid).same_shape(g)
            &&& dies_on_arrival(g, id, a, x as int, y as int) ==> {
                &&& r == Some(PlayerDeathEvent { player_entity: id, reason: PlayerDeathReason::TrailCollision })
                &&& *final(grid) == g
                &&& *final(request) == *old(request)
                &&& *final(player) == a
            }
            &&& !dies_on_arrival(g, id, a, x as int, y as int) ==> {
                &&& r is None
                &&& *final(player) == Player { is_drawing_trail: drawing_after_arrival(g, id, a, x as int, y as int), ..a }
                &&& closes_on_arrival(g, id, a, x as int, y as int) ==> *final(request) == (CompleteTrail {
                    player: Some(id),
                    complete: true,
                    entry_point: Some((x, y)),
                })
                &&& !closes_on_arrival(g, id, a, x as int, y as int) ==> *final(request) == *old(request)
                &&& marks_on_arrival(g, id, a, x as int, y as int) ==> final(grid).cell(x as int, y as int)
                    == trail_tile(id, x as int, y as int)
                &&& forall|i: int, j: int|
                    g.in_bounds(i, j) && (i != x || j != y || !marks_on_arrival(g, id, a, x as int, y as int))
                        ==> #[trigger] final(grid).cell(i, j) == g.cell(i, j)
            }
        }),
{
    player.last_tile_pos = (x, y);
    player.is_moving_to_next_tile = true;
    if let Some(d) = player.buffered_direction {
        player.direction = d;
        player.buffered_direction = None;
    }
    let here = classify(&grid.get(x as usize, y as usize), id);
    if here == Cell::OwnTrail && player.is_drawing_trail {
        return Some(PlayerDeathEvent { player_entity: id, reason: PlayerDeathReason::TrailCollision });
    }
    if here == Cell::OwnTerritory {
        if player.is_drawing_trail {
            *request = CompleteTrail { player: Some(id), complete: true, entry_point: Some((x, y)) };
            player.is_drawing_trail = false;
        } else {
            proof {
                lemma_area(grid.w(), grid.h());
            }
            let nx = x as i64 + player.direction.step_x() as i64;
            let ny = y as i64 + player.direction.step_y() as i64;
            if 0 <= nx && nx < grid.width() as i64 && 0 <= ny && ny < grid.height() as i64 {
                let next = classify(&grid.get(nx as usize, ny as usize), id);
                if next != Cell::OwnTerritory {
                    player.is_drawing_trail = true;
                }
            }
        }
    } else if player.is_drawing_trail {
        grid.put(x as usize, y as usize, Tile { x, y, owner: Some(id), is_trail: true });
    }
    None
}

/// `p` moved `step` world units in direction `d`.
pub open spec fn moved(p: Point, d: Direction, step: int) -> Point {
    Point { x: (p.x + d.dx() * step) as i64, y: (p.y + d.dy() * step) as i64 }
}

/// The tile index along one axis of a coordinate `v`, clamped into `[0, n)`.
pub open spec fn clamp_tile(v: int, n: int, ts: int) -> int {
    if v < 0 {
        0
    } else if v >= n * ts {
        n - 1
    } else {
        v / ts
    }
}

/// Where a move of `step` in direction `d` from `p` ends: inside the grid it
/// is the moved point; past the edge it snaps to the center of the nearest tile.
pub open spec fn advanced(s: GridSettings, p: Point, d: Direction, step: int) -> Point {
    let m = moved(p, d, step);
    if s.contains(m) {
        m
    } else {
        s.center_of(
            clamp_tile(m.x as int, s.grid_width as int, s.tile_size as int),
            clamp_tile(m.y as int, s.grid_height as int, s.tile_size as int),
        )
    }
}

pub proof fn lemma_tile_in_range(v: int, n: int, ts: int)
    requires
        0 <= v < n * ts,
        1 <= ts,
        1 <= n,
    ensures
        0 <= v / ts < n,
        (v / ts) * ts <= v,
{
    vstd::arithmetic::div_mod::lemma_div_pos_is_pos(v, ts);
    vstd::arithmetic::div_mod::lemma_fundamental_div_mod(v, ts);
    vstd::arithmetic::div_mod::lemma_mod_bound(v, ts);
    let q = v / ts;
    assert(q < n) by (nonlinear_arith)
        requires v == ts * q + v % ts, 0 <= v % ts, v < n * ts, 1 <= ts;
    assert(q * ts <= v) by (nonlinear_arith)
        requires v == ts * q + v % ts, 0 <= v % ts;
}

/// The center of a tile in range lies inside the grid.
pub proof fn lemma_center_inside(s: GridSettings, x: int, y: int)
    requires
        s.valid(),
        0 <= x < s.grid_width,
        0 <= y < s.grid_height,
    ensures
        s.contains(s.center_of(x, y)),
        s.tile_of(s.center_of(x, y)) == (x, y),
{
    let ts = s.tile_size as int;
    assert(0 <= x * ts + ts / 2 < s.grid_width * ts && (x * ts + ts / 2) / ts == x) by {
        assert(0 <= x * ts + ts / 2 < s.grid_width * ts) by (nonlinear_arith)
            requires 0 <= x < s.grid_width, 1 <= ts, 0 <= ts / 2 < ts;
        vstd::arithmetic::div_mod::lemma_fundamental_div_mod_converse(x * ts + ts / 2, ts, x, ts / 2);
    }
    assert(0 <= y * ts + ts / 2 < s.grid_height * ts && (y * ts + ts / 2) / ts == y) by {
        assert(0 <= y * ts + ts / 2 < s.grid_height * ts) by (nonlinear_arith)
            requires 0 <= y < s.grid_height, 1 <= ts, 0 <= ts / 2 < ts;
        vstd::arithmetic::div_mod::lemma_fundamental_div_mod_converse(y * ts + ts / 2, ts, y, ts / 2);
    }
    assert(s.grid_width * ts <= 4096 * 4096) by (nonlinear_arith)
        requires s.grid_width <= 4096, ts <= 4096, 0 <= s.grid_width, 0 <= ts;
    assert(s.grid_height * ts <= 4096 * 4096) by (nonlinear_arith)
        requires s.grid_height <= 4096, ts <= 4096, 0 <= s.grid_height, 0 <= ts;
}

pub proof fn lemma_extent(s: GridSettings)
    requires
        s.valid(),
    ensures
        s.grid_width * s.tile_size <= 4096 * 4096,
        s.grid_height * s.tile_size <= 4096 * 4096,
{
    assert(s.grid_width * s.tile_size <= 4096 * 4096) by (nonlinear_arith)
        requires 1 <= s.grid_width <= 4096, 1 <= s.tile_size <= 4096;
    assert(s.grid_height * s.tile_size <= 4096 * 4096) by (nonlinear_arith)
        requires 1 <= s.grid_height <= 4096, 1 <= s.tile_size <= 4096;
}

/// The tile index along one axis, clamped into the grid.
fn clamp_axis(v: i64, n: i32, ts: i32) -> (r: i64)
    requires
        1 <= n <= 4096,
        1 <= ts <= 4096,
        -4096 <= v <= 4096 * 4096 * 2,
    ensures
        r == clamp_tile(v as int, n as int, ts as int),
        0 <= r < n,
{
    assert(n * ts <= 4096 * 4096) by (nonlinear_arith)
        requires 1 <= n <= 4096, 1 <= ts <= 4096;
    if v < 0 {
        0
    } else if v >= n as i64 * ts as i64 {
        n as i64 - 1
    } else {
        proof {
            lemma_tile_in_range(v as int, n as int, ts as int);
        }
        v / ts as i64
    }
}

/// Moves the player `step` world units along its direction. A move that
/// would leave the grid snaps to the center of the nearest tile instead, and
/// the player counts as having arrived there.
pub fn advance_position(settings: &GridSettings, player: &mut Player, pos: &mut Point, step: i64)
    requires
        settings.valid(),
        settings.contains(*old(pos)),
        0 <= step <= settings.tile_size,
    ensures
        *final(pos) == advanced(*settings, *old(pos), old(player).direction, step as int),
        settings.contains(*final(pos)),
        *final(player) == (Player {
            is_moving_to_next_tile: settings.contains(moved(*old(pos), old(player).direction, step as int))
                && old(player).is_moving_to_next_tile,
            ..*old(player)
        }),
{
    proof {
        lemma_extent(*settings);
    }
    let mx = match player.direction {
        Direction::Left => pos.x - step,
        Direction::Right => pos.x + step,
        _ => pos.x,
    };
    let my = match player.direction {
        Direction::Down => pos.y - step,
        Direction::Up => pos.y + step,
        _ => pos.y,
    };
    let ts = settings.tile_size as i64;
    let inside = 0 <= mx && mx < settings.grid_width as i64 * ts && 0 <= my && my < settings.grid_height as i64 * ts;
    if inside {
        pos.x = mx;
        pos.y = my;
    } else {
        let cx = clamp_axis(mx, settings.grid_width, settings.tile_size);
        let cy = clamp_axis(my, settings.grid_height, settings.tile_size);
        proof {
            lemma_center_inside(*settings, cx as int, cy as int);
            assert(0 <= cx * ts <= 4096 * 4096) by (nonlinear_arith)
                requires 0 <= cx < 4096, 1 <= ts <= 4096;
            assert(0 <= cy * ts <= 4096 * 4096) by (nonlinear_arith)
                requires 0 <= cy < 4096, 1 <= ts <= 4096;
        }
        pos.x = cx * ts + ts / 2;
        pos.y = cy * ts + ts / 2;
        player.is_moving_to_next_tile = false;
    }
}

/// Whether a tick of movement starts with an arrival: the player moves, and
/// either stands on another tile than the one last recorded or has not yet
/// set off from the current one.
pub open spec fn arrives(s: GridSettings, p: Player, pos: Point) -> bool {
    let (tx, ty) = s.tile_of(pos);
    p.direction != Direction::Still && ((tx, ty) != (p.last_tile_pos.0 as int, p.last_tile_pos.1 as int)
        || !p.is_moving_to_next_tile)
}

/// What one tick of movement does, from `g0`, `p0`, `pos0`, `req0` to `g2`,
/// `p2`, `pos2`, `req2`, reporting death `r`.
pub open spec fn movement_post(
    g0: Grid,
    s: GridSettings,
    id: PlayerId,
    p0: Player,
    pos0: Point,
    step: int,
    req0: CompleteTrail,
    g2: Grid,
    p2: Player,
    pos2: Point,
    req2: CompleteTrail,
    r: Option<PlayerDeathEvent>,
) -> bool {
    &&& g2.wf()
    &&& g2.same_shape(g0)
    &&& s.contains(pos2)
    &&& p0.direction == Direction::Still ==> {
        &&& r is None
        &&& g2 == g0
        &&& p2 == p0
        &&& pos2 == pos0
        &&& req2 == crossing_result(g0, id, req0)
    }
    &&& p0.direction != Direction::Still && !arrives(s, p0, pos0) ==> {
        &&& r is None
        &&& g2 == g0
        &&& req2 == crossing_result(g0, id, req0)
        &&& pos2 == advanced(s, pos0, p0.direction, step as int)
        &&& p2 == (Player {
            is_moving_to_next_tile: s.contains(moved(pos0, p0.direction, step as int))
                && p0.is_moving_to_next_tile,
            ..p0
        })
    }
    &&& ({
        let (tx, ty) = s.tile_of(pos0);
        let a = arrived(p0, tx, ty);
        let g = g0;
        arrives(s, p0, pos0) ==> {
            &&& dies_on_arrival(g, id, a, tx, ty) ==> {
                &&& r == Some(PlayerDeathEvent { player_entity: id, reason: PlayerDeathReason::TrailCollision })
                &&& g2 == g
                &&& req2 == req0
                &&& p2 == a
                &&& pos2 == pos0
            }
            &&& !dies_on_arrival(g, id, a, tx, ty) ==> {
                &&& r is None
                &&& pos2 == advanced(s, pos0, a.direction, step as int)
                &&& p2 == (Player {
                    is_drawing_trail: drawing_after_arrival(g, id, a, tx, ty),
                    is_moving_to_next_tile: s.contains(moved(pos0, a.direction, step as int)),
                    ..a
                })
                &&& closes_on_arrival(g, id, a, tx, ty) ==> req2 == crossing_result(
                    g2,
                    id,
                    CompleteTrail { player: Some(id), complete: true, entry_point: Some((tx as i32, ty as i32)) },
                )
                &&& !closes_on_arrival(g, id, a, tx, ty) ==> req2 == crossing_result(g2, id, req0)
                &&& marks_on_arrival(g, id, a, tx, ty) ==> g2.cell(tx, ty) == trail_tile(id, tx, ty)
                &&& forall|i: int, j: int|
                    g.in_bounds(i, j) && (i != tx || j != ty || !marks_on_arrival(g, id, a, tx, ty))
                        ==> #[trigger] g2.cell(i, j) == g.cell(i, j)
            }
        }
    })
}

/// One tick of movement for player `id`. A still player stays put. On
/// arriving at a new tile the arrival decisions are taken once; a death there
/// ends the tick; otherwise the player moves on by `step` world units. Unless
/// the player died, the trail is then scanned for a place where it crosses
/// itself, which files a claim without an entry point when none is pending.
pub fn player_movement_system(
    grid: &mut Grid,
    settings: &GridSettings,
    id: PlayerId,
    player: &mut Player,
    pos: &mut Point,
    step: i64,
    request: &mut CompleteTrail,
) -> (r: Option<PlayerDeathEvent>)
    requires
        old(grid).wf(),
        settings.valid(),
        old(grid).w() == settings.grid_width,
        old(grid).h() == settings.grid_height,
        settings.contains(*old(pos)),
        0 <= step <= settings.tile_size,
    ensures
        movement_post(*old(grid), *settings, id, *old(player), *old(pos), step as int, *old(request), *final(grid), *final(player), *final(pos), *final(request), r),

{
    if player.direction == Direction::Still {
        check_self_intersection(grid, id, request);
        return None;
    }
    proof {
        lemma_extent(*settings);
        lemma_tile_in_range(pos.x as int, settings.grid_width as int, settings.tile_size as int);
        lemma_tile_in_range(pos.y as int, settings.grid_height as int, settings.tile_size as int);
    }
    let tx = (pos.x / settings.tile_size as i64) as i32;
    let ty = (pos.y / settings.tile_size as i64) as i32;
    if tx != player.last_tile_pos.0 || ty != player.last_tile_pos.1 || !player.is_moving_to_next_tile {
        let died = arrive_at_tile(grid, id, player, tx, ty, request);
        if died.is_some() {
            return died;
        }
    }
    advance_position(settings, player, pos, step);
    check_self_intersection(grid, id, request);
    None
}

} // verus!
