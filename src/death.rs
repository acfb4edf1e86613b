use vstd::prelude::*;
use crate::components::{Direction, GridSettings, Player, PlayerId, Point, Tile};
use crate::events::PlayerDeathEvent;
use crate::grid::{before, released, Grid};
use crate::resources::CompleteTrail;

verus! {

/// Half the side of the square of territory that a player (re)spawns with.
pub const START_RADIUS: i32 = 2;

/// Whether (x, y) lies in the starting square around the grid's center tile.
pub open spec fn in_start_block(s: GridSettings, x: int, y: int) -> bool {
    let (cx, cy) = s.center_tile();
    &&& cx - START_RADIUS <= x <= cx + START_RADIUS
    &&& cy - START_RADIUS <= y <= cy + START_RADIUS
}

/// Tile (x, y) after `p` is granted the starting square: its unowned tiles
/// become `p`'s territory.
pub open spec fn start_tile(g: Grid, s: GridSettings, p: PlayerId, x: int, y: int) -> Tile {
    let t = g.cell(x, y);
    if in_start_block(s, x, y) && t.owner is None {
        Tile { x: t.x, y: t.y, owner: Some(p), is_trail: false }
    } else {
        t
    }
}

/// The tiles that granting the starting square hands to its player.
pub open spec fn start_set(g: Grid, s: GridSettings, p: PlayerId) -> Set<(int, int)> {
    Set::new(|c: (int, int)| g.in_bounds(c.0, c.1) && in_start_block(s, c.0, c.1) && g.cell(c.0, c.1).owner is None)
}

/// Tile (x, y) after player `p` respawns: all of `p`'s tiles are released,
/// then every unowned tile of the starting square becomes `p`'s territory.
pub open spec fn respawn_tile(g: Grid, s: GridSettings, p: PlayerId, x: int, y: int) -> Tile {
    let t = released(g.cell(x, y), p);
    if in_start_block(s, x, y) && t.owner is None {
        Tile { x: t.x, y: t.y, owner: Some(p), is_trail: false }
    } else {
        t
    }
}

/// The tiles that a respawn of `p` grants.
pub open spec fn granted_set(g: Grid, s: GridSettings, p: PlayerId) -> Set<(int, int)> {
    Set::new(
        |c: (int, int)|
            g.in_bounds(c.0, c.1) && in_start_block(s, c.0, c.1) && released(g.cell(c.0, c.1), p).owner
                is None,
    )
}

/// The whole starting square lies in the grid and nobody owns any of its tiles.
pub open spec fn start_block_empty(g: Grid, s: GridSettings) -> bool {
    &&& s.grid_width >= 2 * START_RADIUS + 1
    &&& s.grid_height >= 2 * START_RADIUS + 1
    &&& forall|x: int, y: int| g.in_bounds(x, y) && in_start_block(s, x, y) ==> (#[trigger] g.cell(x, y)).owner is None
}

/// The whole starting square lies in the grid and holds no tile of another player.
pub open spec fn start_block_free(g: Grid, s: GridSettings, p: PlayerId) -> bool {
    &&& s.grid_width >= 2 * START_RADIUS + 1
    &&& s.grid_height >= 2 * START_RADIUS + 1
    &&& forall|x: int, y: int|
        g.in_bounds(x, y) && in_start_block(s, x, y) ==> (#[trigger] g.cell(x, y)).owner is None
            || g.cell(x, y).owner == Some(p)
}

/// Grants player `id` the starting square around the center tile: each of
/// its tiles that nobody owns becomes `id`'s territory. Returns how many
/// tiles were granted.
pub fn grant_start_block(grid: &mut Grid, settings: &GridSettings, id: PlayerId) -> (count: u32)
    requires
        old(grid).wf(),
        settings.valid(),
        old(grid).w() == settings.grid_width,
        old(grid).h() == settings.grid_height,
    ensures
        final(grid).wf(),
        final(grid).same_shape(*old(grid)),
        forall|x: int, y: int|
            old(grid).in_bounds(x, y) ==> #[trigger] final(grid).cell(x, y) == start_tile(*old(grid), *settings, id, x, y),
        start_set(*old(grid), *settings, id).finite(),
        count == start_set(*old(grid), *settings, id).len(),
        count <= (2 * START_RADIUS + 1) * (2 * START_RADIUS + 1),
        start_block_empty(*old(grid), *settings) ==> count == (2 * START_RADIUS + 1) * (2 * START_RADIUS + 1),
{
    let ghost g0 = *grid;
    let cx = settings.grid_width / 2;
    let cy = settings.grid_height / 2;
    let ghost free = start_block_empty(g0, *settings);
    let mut count: u32 = 0;
    let ghost mut granted: Set<(int, int)> = Set::empty();
    let side: i32 = 2 * START_RADIUS + 1;
    let mut dy: i32 = 0;
    while dy < side
        invariant
            g0.wf(),
            grid.wf(),
            grid.same_shape(g0),
            settings.valid(),
            g0.w() == settings.grid_width,
            g0.h() == settings.grid_height,
            cx == settings.center_tile().0,
            cy == settings.center_tile().1,
            side == 2 * START_RADIUS + 1,
            0 <= dy <= side,
            forall|x: int, y: int|
                g0.in_bounds(x, y) ==> #[trigger] grid.cell(x, y) == if in_start_block(*settings, x, y) && before(
                    x - (cx - START_RADIUS),
                    y - (cy - START_RADIUS),
                    0,
                    dy as int,
                ) {
                    start_tile(g0, *settings, id, x, y)
                } else {
                    g0.cell(x, y)
                },
            granted.finite(),
            granted.len() == count,
            count <= dy * side,
            free ==> count == dy * side,
            free == start_block_empty(g0, *settings),
            granted == Set::new(
                |c: (int, int)|
                    g0.in_bounds(c.0, c.1) && in_start_block(*settings, c.0, c.1) && g0.cell(c.0, c.1).owner
                        is None && before(c.0 - (cx - START_RADIUS), c.1 - (cy - START_RADIUS), 0, dy as int),
            ),
        decreases side - dy,
    {
        let mut dx: i32 = 0;
        while dx < side
            invariant
                g0.wf(),
                grid.wf(),
                grid.same_shape(g0),
                    settings.valid(),
                g0.w() == settings.grid_width,
                g0.h() == settings.grid_height,
                cx == settings.center_tile().0,
                cy == settings.center_tile().1,
                side == 2 * START_RADIUS + 1,
                0 <= dy < side,
                0 <= dx <= side,
                    forall|x: int, y: int|
                    g0.in_bounds(x, y) ==> #[trigger] grid.cell(x, y) == if in_start_block(*settings, x, y) && before(
                        x - (cx - START_RADIUS),
                        y - (cy - START_RADIUS),
                        dx as int,
                        dy as int,
                    ) {
                        start_tile(g0, *settings, id, x, y)
                    } else {
                        g0.cell(x, y)
                    },
                granted.finite(),
                granted.len() == count,
                count <= dy * side + dx,
                free ==> count == dy * side + dx,
                free == start_block_empty(g0, *settings),
                granted == Set::new(
                    |c: (int, int)|
                        g0.in_bounds(c.0, c.1) && in_start_block(*settings, c.0, c.1) && g0.cell(c.0, c.1).owner
                            is None && before(c.0 - (cx - START_RADIUS), c.1 - (cy - START_RADIUS), dx as int, dy as int),
                ),
            decreases side - dx,
        {
            let x = cx - START_RADIUS + dx;
            let y = cy - START_RADIUS + dy;
            let ghost gx = *grid;
            assert(dy * side + dx < 25) by (nonlinear_arith)
                requires 0 <= dy < 5, 0 <= dx < 5, side == 5;
            if 0 <= x && x < settings.grid_width && 0 <= y && y < settings.grid_height {
                let t = grid.get(x as usize, y as usize);
                if t.owner.is_none() {
                    grid.put(x as usize, y as usize, Tile { x: t.x, y: t.y, owner: Some(id), is_trail: false });
                    count = count + 1;
                    proof {
                        granted = granted.insert((x as int, y as int));
                    }
                } else {
                    proof {
                        assert(!free) by {
                            if free {
                                assert(g0.cell(x as int, y as int).owner is None);
                            }
                        }
                    }
                }
            }
            proof {
                if free {
                    assert(0 <= x < settings.grid_width && 0 <= y < settings.grid_height);
                }
                assert forall|a: int, b: int|
                    g0.in_bounds(a, b) implies #[trigger] grid.cell(a, b) == if in_start_block(*settings, a, b) && before(
                        a - (cx - START_RADIUS),
                        b - (cy - START_RADIUS),
                        dx + 1,
                        dy as int,
                    ) {
                        start_tile(g0, *settings, id, a, b)
                    } else {
                        g0.cell(a, b)
                    } by {
                    assert(gx.cell(a, b) == if in_start_block(*settings, a, b) && before(
                        a - (cx - START_RADIUS),
                        b - (cy - START_RADIUS),
                        dx as int,
                        dy as int,
                    ) {
                        start_tile(g0, *settings, id, a, b)
                    } else {
                        g0.cell(a, b)
                    });
                }
                assert(granted =~= Set::new(
                    |c: (int, int)|
                        g0.in_bounds(c.0, c.1) && in_start_block(*settings, c.0, c.1) && g0.cell(c.0, c.1).owner
                            is None && before(c.0 - (cx - START_RADIUS), c.1 - (cy - START_RADIUS), dx + 1, dy as int),
                ));
            }
            dx = dx + 1;
        }
        proof {
            assert((dy + 1) * side == dy * side + side) by (nonlinear_arith);
            assert forall|a: int, b: int|
                g0.in_bounds(a, b) implies #[trigger] grid.cell(a, b) == if in_start_block(*settings, a, b) && before(
                    a - (cx - START_RADIUS),
                    b - (cy - START_RADIUS),
                    0,
                    dy + 1,
                ) {
                    start_tile(g0, *settings, id, a, b)
                } else {
                    g0.cell(a, b)
                } by {
                assert(grid.cell(a, b) == if in_start_block(*settings, a, b) && before(
                    a - (cx - START_RADIUS),
                    b - (cy - START_RADIUS),
                    side as int,
                    dy as int,
                ) {
                    start_tile(g0, *settings, id, a, b)
                } else {
                    g0.cell(a, b)
                });
            }
            assert(granted =~= Set::new(
                |c: (int, int)|
                    g0.in_bounds(c.0, c.1) && in_start_block(*settings, c.0, c.1) && g0.cell(c.0, c.1).owner
                        is None && before(c.0 - (cx - START_RADIUS), c.1 - (cy - START_RADIUS), 0, dy + 1),
            ));
        }
        dy = dy + 1;
    }
    proof {
        assert(granted =~= start_set(g0, *settings, id));
    }    count
}

/// Gives a freshly spawned player the starting square of territory, and a
/// score equal to the tiles granted.
pub fn init_player_territory(grid: &mut Grid, settings: &GridSettings, id: PlayerId, player: &mut Player)
    requires
        old(grid).wf(),
        settings.valid(),
        old(grid).w() == settings.grid_width,
        old(grid).h() == settings.grid_height,
    ensures
        final(grid).wf(),
        final(grid).same_shape(*old(grid)),
        forall|x: int, y: int|
            old(grid).in_bounds(x, y) ==> #[trigger] final(grid).cell(x, y) == start_tile(*old(grid), *settings, id, x, y),
        start_set(*old(grid), *settings, id).finite(),
        final(player).score == start_set(*old(grid), *settings, id).len(),
        final(player).score <= (2 * START_RADIUS + 1) * (2 * START_RADIUS + 1),
        start_block_empty(*old(grid), *settings) ==> final(player).score == (2 * START_RADIUS + 1) * (2
            * START_RADIUS + 1),
        *final(player) == (Player { score: final(player).score, ..*old(player) }),
{
    player.score = grant_start_block(grid, settings, id);
}

/// What resolving death `ev` does, from `g0`, `p0`, `req0` to `g2`, `p2`,
/// `pos2`, `req2`.
pub open spec fn death_post(
    g0: Grid,
    s: GridSettings,
    ev: PlayerDeathEvent,
    p0: Player,
    req0: CompleteTrail,
    g2: Grid,
    p2: Player,
    pos2: Point,
    req2: CompleteTrail,
) -> bool {
    &&& g2.wf()
    &&& g2.same_shape(g0)
    &&& req0.player == Some(ev.player_entity) ==> req2 == CompleteTrail::empty_spec()
    &&& req0.player != Some(ev.player_entity) ==> req2 == req0
    &&& forall|x: int, y: int|
        g0.in_bounds(x, y) ==> #[trigger] g2.cell(x, y) == respawn_tile(
            g0,
            s,
            ev.player_entity,
            x,
            y,
        )
    &&& p2.direction == Direction::Still
    &&& p2.buffered_direction is None
    &&& !p2.is_drawing_trail
    &&& p2.speed == p0.speed
    &&& p2.is_moving_to_next_tile == p0.is_moving_to_next_tile
    &&& p2.last_tile_pos == (s.center_tile().0 as i32, s.center_tile().1 as i32)
    &&& pos2 == s.center_of(s.center_tile().0, s.center_tile().1)
    &&& granted_set(g0, s, ev.player_entity).finite()
    &&& p2.score == granted_set(g0, s, ev.player_entity).len()
    &&& p2.score <= (2 * START_RADIUS + 1) * (2 * START_RADIUS + 1)
    &&& start_block_free(g0, s, ev.player_entity) ==> p2.score == (2
        * START_RADIUS + 1) * (2 * START_RADIUS + 1)
}

/// Resolves a death. A claim pending for the same player is cancelled first,
/// so the player cannot score from the move that killed them. The player
/// stops, stops drawing, loses any buffered turn, every tile they held is
/// released, they return to the center tile, and they get the starting square
/// of territory afresh, with a score equal to the tiles granted.
pub fn handle_player_death(
    grid: &mut Grid,
    settings: &GridSettings,
    event: &PlayerDeathEvent,
    player: &mut Player,
    pos: &mut Point,
    request: &mut CompleteTrail,
)
    requires
        old(grid).wf(),
        settings.valid(),
        old(grid).w() == settings.grid_width,
        old(grid).h() == settings.grid_height,
    ensures
        death_post(*old(grid), *settings, *event, *old(player), *old(request), *final(grid), *final(player), *final(pos), *final(request)),

{
    let id = event.player_entity;
    let cancels = match request.player {
        Some(q) => q == id,
        None => false,
    };
    if cancels {
        *request = CompleteTrail::empty();
    }
    player.is_drawing_trail = false;
    player.buffered_direction = None;
    player.direction = Direction::Still;
    player.score = 0;
    let cx = settings.grid_width / 2;
    let cy = settings.grid_height / 2;
    assert(0 <= (cx as int) * (settings.tile_size as int) <= 4096 * 4096) by (nonlinear_arith)
        requires 0 <= cx <= 4096, 1 <= settings.tile_size <= 4096;
    assert(0 <= (cy as int) * (settings.tile_size as int) <= 4096 * 4096) by (nonlinear_arith)
        requires 0 <= cy <= 4096, 1 <= settings.tile_size <= 4096;
    pos.x = (cx as i64) * (settings.tile_size as i64) + (settings.tile_size as i64) / 2;
    pos.y = (cy as i64) * (settings.tile_size as i64) + (settings.tile_size as i64) / 2;
    player.last_tile_pos = (cx, cy);
    let ghost g0 = *grid;
    grid.release_player(id);
    let ghost g1 = *grid;
    let count = grant_start_block(grid, settings, id);
    proof {
        assert(start_set(g1, *settings, id) =~= granted_set(g0, *settings, id));
        if start_block_free(g0, *settings, id) {
            assert forall|x: int, y: int|
                g1.in_bounds(x, y) && in_start_block(*settings, x, y) implies (#[trigger] g1.cell(x, y)).owner is None by {
                assert(g0.cell(x, y).owner is None || g0.cell(x, y).owner == Some(id));
            }
        }
    }
    player.score = count;
}

} // verus!
