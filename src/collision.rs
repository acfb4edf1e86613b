use vstd::prelude::*;
use crate::components::{GridSettings, Player, PlayerId, Point};
use crate::events::{PlayerDeathEvent, PlayerDeathReason};
use crate::grid::{before, classify, classify_spec, lemma_area, Cell, Grid};
use crate::resources::CompleteTrail;
use crate::trails::dist2;

verus! {

/// A trail shorter than this never kills its owner by proximity.
pub const MIN_TRAIL_FOR_COLLISION: usize = 10;

/// Tiles within this Chebyshev distance of the player's tile are never hazards.
pub const SAFE_RADIUS: i32 = 1;

/// A trail tile is hit when the player comes closer to its center than
/// `HIT_NUM / HIT_DEN` of a tile side.
pub const HIT_NUM: i64 = 7;

pub const HIT_DEN: i64 = 10;

pub open spec fn in_safe_zone(tx: int, ty: int, x: int, y: int) -> bool {
    -SAFE_RADIUS <= x - tx <= SAFE_RADIUS && -SAFE_RADIUS <= y - ty <= SAFE_RADIUS
}

/// `pos` lies closer than the hit distance to the center of tile (x, y).
pub open spec fn too_close(s: GridSettings, pos: Point, x: int, y: int) -> bool {
    HIT_DEN * HIT_DEN * dist2(pos, s.center_of(x, y)) < HIT_NUM * HIT_NUM * s.tile_size * s.tile_size
}

/// Tile (x, y) is a tile of `p`'s trail outside the safe zone, too close to `pos`.
pub open spec fn hazard(g: Grid, s: GridSettings, p: PlayerId, pos: Point, x: int, y: int) -> bool {
    let (tx, ty) = s.tile_of(pos);
    &&& g.in_bounds(x, y)
    &&& classify_spec(g.cell(x, y), p) == Cell::OwnTrail
    &&& !in_safe_zone(tx, ty, x, y)
    &&& too_close(s, pos, x, y)
}

/// Whether player `p`, drawing, at `pos`, dies by touching their own trail.
pub open spec fn collides(
    g: Grid,
    s: GridSettings,
    p: PlayerId,
    player: Player,
    pos: Point,
) -> bool {
    &&& player.is_drawing_trail
    &&& g.own_trail_set(p).len() >= MIN_TRAIL_FOR_COLLISION
    &&& exists|x: int, y: int| hazard(g, s, p, pos, x, y)
}

/// Checks, on the continuous position, whether a drawing player touches a
/// tile of their own trail outside the safe zone around their tile.
pub fn collision_detection_system(
    grid: &Grid,
    settings: &GridSettings,
    id: PlayerId,
    player: &Player,
    pos: Point,
) -> (r: Option<PlayerDeathEvent>)
    requires
        grid.wf(),
        settings.valid(),
        grid.w() == settings.grid_width,
        grid.h() == settings.grid_height,
        settings.contains(pos),
    ensures
        grid.own_trail_set(id).finite(),
        r == if collides(*grid, *settings, id, *player, pos) {
            Some(PlayerDeathEvent { player_entity: id, reason: PlayerDeathReason::TrailCollision })
        } else {
            None::<PlayerDeathEvent>
        },
{
    let n = grid.count_trail(id);
    if !player.is_drawing_trail || n < MIN_TRAIL_FOR_COLLISION {
        return None;
    }
    proof {
        lemma_area(grid.w(), grid.h());
        crate::movement::lemma_tile_in_range(pos.x as int, settings.grid_width as int, settings.tile_size as int);
        crate::movement::lemma_tile_in_range(pos.y as int, settings.grid_height as int, settings.tile_size as int);
        crate::movement::lemma_extent(*settings);
    }
    let ts = settings.tile_size as i64;
    let tx = pos.x / ts;
    let ty = pos.y / ts;
    assert(0 <= ts * ts <= 4096 * 4096) by (nonlinear_arith)
        requires 1 <= ts <= 4096;
    let limit = HIT_NUM * HIT_NUM * (ts * ts);
    assert(limit == HIT_NUM * HIT_NUM * ts * ts) by (nonlinear_arith)
        requires limit == HIT_NUM * HIT_NUM * (ts * ts);
    let w = settings.grid_width as usize;
    let h = settings.grid_height as usize;
    let mut y: usize = 0;
    while y < h
        invariant
            grid.wf(),
            settings.valid(),
            grid.w() == settings.grid_width,
            grid.h() == settings.grid_height,
            w == grid.w(),
            h == grid.h(),
            settings.contains(pos),
            ts == settings.tile_size,
            (tx as int, ty as int) == settings.tile_of(pos),
            limit == HIT_NUM * HIT_NUM * ts * ts,
            settings.grid_width * ts <= 4096 * 4096,
            settings.grid_height * ts <= 4096 * 4096,
            y <= h,
            grid.own_trail_set(id).finite(),
            grid.own_trail_set(id).len() >= MIN_TRAIL_FOR_COLLISION,
            player.is_drawing_trail,
            forall|a: int, b: int| before(a, b, 0, y as int) ==> !#[trigger] hazard(*grid, *settings, id, pos, a, b),
        decreases h - y,
    {
        let mut x: usize = 0;
        while x < w
            invariant
                grid.wf(),
                settings.valid(),
                grid.w() == settings.grid_width,
                grid.h() == settings.grid_height,
                w == grid.w(),
                h == grid.h(),
                settings.contains(pos),
                ts == settings.tile_size,
                (tx as int, ty as int) == settings.tile_of(pos),
                limit == HIT_NUM * HIT_NUM * ts * ts,
                settings.grid_width * ts <= 4096 * 4096,
                settings.grid_height * ts <= 4096 * 4096,
                y < h,
                x <= w,
                grid.own_trail_set(id).finite(),
                grid.own_trail_set(id).len() >= MIN_TRAIL_FOR_COLLISION,
                player.is_drawing_trail,
                forall|a: int, b: int| before(a, b, x as int, y as int) ==> !#[trigger] hazard(*grid, *settings, id, pos, a, b),
            decreases w - x,
        {
            let xi = x as i64;
            let yi = y as i64;
            let outside_safe = xi - tx > SAFE_RADIUS as i64 || tx - xi > SAFE_RADIUS as i64 || yi - ty > SAFE_RADIUS as i64
                || ty - yi > SAFE_RADIUS as i64;
            if outside_safe && classify(&grid.get(x, y), id) == Cell::OwnTrail {
                proof {
                    crate::movement::lemma_center_inside(*settings, x as int, y as int);
                    assert(0 <= xi * ts <= 4096 * 4096) by (nonlinear_arith)
                        requires 0 <= xi < 4096, 1 <= ts <= 4096;
                    assert(0 <= yi * ts <= 4096 * 4096) by (nonlinear_arith)
                        requires 0 <= yi < 4096, 1 <= ts <= 4096;
                }
                let cxp = xi * ts + ts / 2;
                let cyp = yi * ts + ts / 2;
                let ddx = pos.x - cxp;
                let ddy = pos.y - cyp;
                proof {
                    assert(0 <= ddx * ddx <= 4096 * 4096 * 4096 * 4096) by (nonlinear_arith)
                        requires -4096 * 4096 <= ddx <= 4096 * 4096;
                    assert(0 <= ddy * ddy <= 4096 * 4096 * 4096 * 4096) by (nonlinear_arith)
                        requires -4096 * 4096 <= ddy <= 4096 * 4096;
                }
                let d2 = ddx * ddx + ddy * ddy;
                assert(0 <= 100 * d2 <= 100 * 2 * (4096 * 4096 * 4096 * 4096)) by (nonlinear_arith)
                    requires 0 <= d2 <= 2 * (4096 * 4096 * 4096 * 4096);
                if HIT_DEN * HIT_DEN * d2 < limit {
                    assert(hazard(*grid, *settings, id, pos, x as int, y as int));
                    return Some(PlayerDeathEvent { player_entity: id, reason: PlayerDeathReason::TrailCollision });
                }
                assert(!too_close(*settings, pos, x as int, y as int));
            }
            x = x + 1;
        }
        y = y + 1;
    }
    assert forall|a: int, b: int| !hazard(*grid, *settings, id, pos, a, b) by {
        if grid.in_bounds(a, b) {
            assert(before(a, b, 0, h as int));
        }
    }
    None
}

proof fn lemma_axis_near(v: int, t: int, c: int, ts: int)
    requires
        1 <= ts,
        0 <= v,
        t == v / ts,
        100 * (v - (c * ts + ts / 2)) * (v - (c * ts + ts / 2)) < 49 * ts * ts,
    ensures
        -1 <= c - t <= 1,
{
    vstd::arithmetic::div_mod::lemma_fundamental_div_mod(v, ts);
    vstd::arithmetic::div_mod::lemma_mod_bound(v, ts);
    let d = v - (c * ts + ts / 2);
    assert(10 * d < 7 * ts && -7 * ts < 10 * d) by (nonlinear_arith)
        requires 100 * d * d < 49 * ts * ts, 1 <= ts;
    assert(t * ts <= v < t * ts + ts) by (nonlinear_arith)
        requires v == ts * t + v % ts, 0 <= v % ts < ts;
    if c >= t + 2 {
        assert(c * ts >= t * ts + 2 * ts) by (nonlinear_arith)
            requires c >= t + 2, 1 <= ts;
    }
    if c <= t - 2 {
        assert(c * ts <= t * ts - 2 * ts) by (nonlinear_arith)
            requires c <= t - 2, 1 <= ts;
    }
}

/// A tile whose center lies within the hit distance of a position in the
/// grid is always in the safe zone around that position's tile: proximity
/// never reaches a trail tile outside the safe zone, so no position is a
/// hazard.
pub proof fn lemma_close_tiles_are_safe(s: GridSettings, pos: Point, x: int, y: int)
    requires
        s.valid(),
        s.contains(pos),
        0 <= x < s.grid_width,
        0 <= y < s.grid_height,
        too_close(s, pos, x, y),
    ensures
        in_safe_zone(s.tile_of(pos).0, s.tile_of(pos).1, x, y),
{
    let ts = s.tile_size as int;
    crate::movement::lemma_center_inside(s, x, y);
    let c = s.center_of(x, y);
    let dx = pos.x - c.x;
    let dy = pos.y - c.y;
    assert(100 * dx * dx < 49 * ts * ts && 100 * dy * dy < 49 * ts * ts) by (nonlinear_arith)
        requires 100 * (dx * dx + dy * dy) < 49 * ts * ts;
    assert(0 <= x * ts + ts / 2 < 4096 * 4096 && 0 <= y * ts + ts / 2 < 4096 * 4096) by (nonlinear_arith)
        requires 0 <= x < 4096, 0 <= y < 4096, 1 <= ts <= 4096;
    assert(c.x == x * ts + ts / 2);
    assert(c.y == y * ts + ts / 2);
    lemma_axis_near(pos.x as int, s.tile_of(pos).0, x, ts);
    lemma_axis_near(pos.y as int, s.tile_of(pos).1, y, ts);
}

/// Tile (x, y) belongs to `p`'s trail and more than two of its four
/// neighbours do too: the trail has crossed itself there.
pub open spec fn crossing_at(g: Grid, p: PlayerId, x: int, y: int) -> bool {
    &&& g.in_bounds(x, y)
    &&& classify_spec(g.cell(x, y), p) == Cell::OwnTrail
    &&& trail_neighbours(g, p, x, y) > 2
}

pub open spec fn is_own_trail(g: Grid, p: PlayerId, x: int, y: int) -> int {
    if g.in_bounds(x, y) && classify_spec(g.cell(x, y), p) == Cell::OwnTrail {
        1
    } else {
        0
    }
}

pub open spec fn trail_neighbours(g: Grid, p: PlayerId, x: int, y: int) -> int {
    is_own_trail(g, p, x + 1, y) + is_own_trail(g, p, x - 1, y) + is_own_trail(g, p, x, y + 1) + is_own_trail(
        g,
        p,
        x,
        y - 1,
    )
}

fn own_trail_at(grid: &Grid, p: PlayerId, x: i64, y: i64) -> (r: u32)
    requires
        grid.wf(),
        -1 <= x <= 4096,
        -1 <= y <= 4096,
    ensures
        r == is_own_trail(*grid, p, x as int, y as int),
{
    if x < 0 || y < 0 || x >= grid.width() as i64 || y >= grid.height() as i64 {
        return 0;
    }
    if classify(&grid.get(x as usize, y as usize), p) == Cell::OwnTrail {
        1
    } else {
        0
    }
}

/// Whether `p`'s trail crosses itself somewhere: a loop closed without
/// returning to territory.
pub fn detect_self_intersection(grid: &Grid, id: PlayerId) -> (r: bool)
    requires
        grid.wf(),
    ensures
        r == exists|x: int, y: int| crossing_at(*grid, id, x, y),
{
    let w = grid.width() as usize;
    let h = grid.height() as usize;
    let mut y: usize = 0;
    while y < h
        invariant
            grid.wf(),
            w == grid.w(),
            h == grid.h(),
            y <= h,
            forall|a: int, b: int| before(a, b, 0, y as int) ==> !#[trigger] crossing_at(*grid, id, a, b),
        decreases h - y,
    {
        let mut x: usize = 0;
        while x < w
            invariant
                grid.wf(),
                w == grid.w(),
                h == grid.h(),
                y < h,
                x <= w,
                forall|a: int, b: int| before(a, b, x as int, y as int) ==> !#[trigger] crossing_at(*grid, id, a, b),
            decreases w - x,
        {
            if classify(&grid.get(x, y), id) == Cell::OwnTrail {
                let xi = x as i64;
                let yi = y as i64;
                let k = own_trail_at(grid, id, xi + 1, yi) + own_trail_at(grid, id, xi - 1, yi) + own_trail_at(
                    grid,
                    id,
                    xi,
                    yi + 1,
                ) + own_trail_at(grid, id, xi, yi - 1);
                if k > 2 {
                    assert(crossing_at(*grid, id, x as int, y as int));
                    return true;
                }
            }
            x = x + 1;
        }
        y = y + 1;
    }
    assert forall|a: int, b: int| !crossing_at(*grid, id, a, b) by {
        if grid.in_bounds(a, b) {
            assert(before(a, b, 0, h as int));
        }
    }
    false
}

/// The claim slot after the self-crossing check of `id` on grid `g`: when no
/// claim is pending and the trail crosses itself, a claim without an entry
/// point; otherwise the slot as it was.
pub open spec fn crossing_result(g: Grid, id: PlayerId, was: CompleteTrail) -> CompleteTrail {
    if !was.pending() && (exists|x: int, y: int| crossing_at(g, id, x, y)) {
        CompleteTrail { player: Some(id), complete: true, entry_point: None }
    } else {
        was
    }
}

/// What the self-crossing check of `id` on grid `g` does to the claim slot.
pub open spec fn crossing_post(
    g: Grid,
    id: PlayerId,
    was: CompleteTrail,
    now: CompleteTrail,
) -> bool {
    now == crossing_result(g, id, was)
}

/// Files a claim without an entry point when `p`'s trail crosses itself and
/// no claim is pending; the claimer treats such a claim as a death.
pub fn check_self_intersection(grid: &Grid, id: PlayerId, request: &mut CompleteTrail)
    requires
        grid.wf(),
    ensures
        crossing_post(*grid, id, *old(request), *final(request)),

{
    if !request.is_pending() && detect_self_intersection(grid, id) {
        *request = CompleteTrail { player: Some(id), complete: true, entry_point: None };
    }
}

} // verus!
