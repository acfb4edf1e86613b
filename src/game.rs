use vstd::prelude::*;
use crate::claim::{claim_post, claim_territory_system};
use crate::collision::{collides, collision_detection_system};
use crate::components::{Direction, GridSettings, Player, PlayerId, Point};
use crate::death::{death_post, handle_player_death, START_RADIUS};
use crate::events::{PlayerDeathEvent, PlayerDeathReason};
use crate::grid::Grid;
use crate::input::{input_post, player_input_system};
use crate::movement::{movement_post, player_movement_system};
use crate::resources::CompleteTrail;
use crate::trails::{trail_post, update_trail_system, Trail};

verus! {

/// Speed of a newly spawned player, in tiles per second.
pub const START_SPEED: u32 = 5;

/// A player standing still at the center tile, with no score and no trail.
pub open spec fn spawned(s: GridSettings) -> Player {
    Player {
        speed: START_SPEED,
        direction: Direction::Still,
        buffered_direction: None,
        score: 0,
        is_drawing_trail: false,
        last_tile_pos: (s.center_tile().0 as i32, s.center_tile().1 as i32),
        is_moving_to_next_tile: false,
    }
}

/// A fresh grid of neutral tiles and a new player at the center of the
/// center tile.
pub fn setup_game(settings: &GridSettings) -> (r: (Grid, Player, Point))
    requires
        settings.valid(),
    ensures
        r.0.wf(),
        r.0.w() == settings.grid_width,
        r.0.h() == settings.grid_height,
        forall|x: int, y: int| r.0.in_bounds(x, y) ==> #[trigger] r.0.cell(x, y) == Grid::neutral(x, y),
        r.1 == spawned(*settings),
        r.2 == settings.center_of(settings.center_tile().0, settings.center_tile().1),
        settings.contains(r.2),
{
    let grid = Grid::new(settings);
    let cx = settings.grid_width / 2;
    let cy = settings.grid_height / 2;
    let ts = settings.tile_size as i64;
    proof {
        crate::movement::lemma_center_inside(*settings, cx as int, cy as int);
        assert(0 <= cx * ts <= 4096 * 4096) by (nonlinear_arith)
            requires 0 <= cx <= 4096, 1 <= ts <= 4096;
        assert(0 <= cy * ts <= 4096 * 4096) by (nonlinear_arith)
            requires 0 <= cy <= 4096, 1 <= ts <= 4096;
    }
    let player = Player {
        speed: START_SPEED,
        direction: Direction::Still,
        buffered_direction: None,
        score: 0,
        is_drawing_trail: false,
        last_tile_pos: (cx, cy),
        is_moving_to_next_tile: false,
    };
    let pos = Point { x: cx as i64 * ts + ts / 2, y: cy as i64 * ts + ts / 2 };
    (grid, player, pos)
}

/// Index `i` holds the first of the highest scores, and that score is positive.
pub open spec fn first_best(scores: Seq<(PlayerId, u32)>, i: int) -> bool {
    &&& 0 <= i < scores.len()
    &&& scores[i].1 > 0
    &&& forall|j: int| 0 <= j < scores.len() ==> #[trigger] scores[j].1 <= scores[i].1
    &&& forall|j: int| 0 <= j < i ==> #[trigger] scores[j].1 < scores[i].1
}

/// The winner when the match ends: the first player with the highest score,
/// or nobody when every score is zero.
pub fn match_winner(scores: &Vec<(PlayerId, u32)>) -> (r: Option<PlayerId>)
    ensures
        r is None <==> forall|j: int| 0 <= j < scores@.len() ==> #[trigger] scores@[j].1 == 0,
        r is Some ==> exists|i: int| first_best(scores@, i) && scores@[i].0 == r->0,
{
    let mut best: u32 = 0;
    let mut winner: Option<PlayerId> = None;
    let ghost mut at: int = -1;
    let mut k: usize = 0;
    while k < scores.len()
        invariant
            k <= scores@.len(),
            winner is None <==> at == -1,
            winner is None ==> best == 0,
            forall|j: int| 0 <= j < k ==> #[trigger] scores@[j].1 <= best,
            winner is None ==> forall|j: int| 0 <= j < k ==> #[trigger] scores@[j].1 == 0,
            winner is Some ==> {
                &&& 0 <= at < k
                &&& scores@[at].1 == best
                &&& best > 0
                &&& scores@[at].0 == winner->0
                &&& forall|j: int| 0 <= j < at ==> #[trigger] scores@[j].1 < best
            },
        decreases scores@.len() - k,
    {
        let (id, score) = scores[k];
        if score > best {
            best = score;
            winner = Some(id);
            proof {
                at = k as int;
            }
        }
        k = k + 1;
    }
    if winner.is_some() {
        assert(first_best(scores@, at));
    }
    winner
}

/// `now` is `was` with its points dropped.
pub open spec fn cleared(was: Trail, now: Trail) -> bool {
    now.owner == was.owner && now.is_active == was.is_active && now.points@.len() == 0
}

/// The death, if any, that movement (`moved`) or else the collision check
/// reports for player `id` at `pos` on grid `g`.
pub open spec fn tick_death(
    g: Grid,
    s: GridSettings,
    id: PlayerId,
    p: Player,
    pos: Point,
    moved: Option<PlayerDeathEvent>,
) -> Option<PlayerDeathEvent> {
    if moved is Some {
        moved
    } else if collides(g, s, id, p, pos) {
        Some(PlayerDeathEvent { player_entity: id, reason: PlayerDeathReason::TrailCollision })
    } else {
        None
    }
}

/// The end of a tick, from the state after movement and collision, given
/// the death `d` they reported: a death is resolved and the claim is never
/// looked at; otherwise the claim is consumed, and a claim without entry
/// point is resolved as a death in turn.
pub open spec fn resolve_post(
    g2: Grid,
    s: GridSettings,
    id: PlayerId,
    p2: Player,
    pos2: Point,
    req2: CompleteTrail,
    t1: Trail,
    d: Option<PlayerDeathEvent>,
    gf: Grid,
    pf: Player,
    posf: Point,
    tf: Trail,
    reqf: CompleteTrail,
    r: Option<PlayerDeathEvent>,
) -> bool {
    if d is Some {
        &&& r == d
        &&& death_post(g2, s, d->0, p2, req2, gf, pf, posf, reqf)
        &&& cleared(t1, tf)
    } else {
        exists|g4: Grid, p4: Player, req4: CompleteTrail|
            {
                &&& #[trigger] claim_post(g2, req2, id, p2, g4, req4, p4, r)
                &&& r is Some ==> death_post(g4, s, r->0, p4, req4, gf, pf, posf, reqf) && cleared(t1, tf)
                &&& r is None ==> {
                    &&& gf == g4
                    &&& pf == p4
                    &&& posf == pos2
                    &&& reqf == req4
                    &&& req2.pending() ==> cleared(t1, tf)
                    &&& !req2.pending() ==> tf == t1
                }
            }
    }
}

/// A whole tick, from `g0`, `p0`, `pos0`, `t0`, `req0` to `gf`, `pf`, `posf`,
/// `tf`, `reqf`, reporting death `r`: the phases in order, each as its own
/// function states it.
pub open spec fn tick_post(
    g0: Grid,
    s: GridSettings,
    id: PlayerId,
    p0: Player,
    pos0: Point,
    t0: Trail,
    req0: CompleteTrail,
    input: Direction,
    step: int,
    gf: Grid,
    pf: Player,
    posf: Point,
    tf: Trail,
    reqf: CompleteTrail,
    r: Option<PlayerDeathEvent>,
) -> bool {
    exists|
        p1: Player,
        g2: Grid,
        p2: Player,
        pos2: Point,
        req2: CompleteTrail,
        dm: Option<PlayerDeathEvent>,
        t1: Trail,
    |
        {
            &&& #[trigger] input_post(p0, input, p1)
            &&& #[trigger] movement_post(g0, s, id, p1, pos0, step, req0, g2, p2, pos2, req2, dm)
            &&& #[trigger] trail_post(t0, id, p2, pos2, t1)
            &&& #[trigger] resolve_post(
                g2,
                s,
                id,
                p2,
                pos2,
                req2,
                t1,
                tick_death(g2, s, id, p2, pos2, dm),
                gf,
                pf,
                posf,
                tf,
                reqf,
                r,
            )
        }
}

/// One tick for player `id`, its phases in order: input, movement (with its
/// self-crossing check), trail points, collision, death, claim. A death is
/// resolved before the claim, and cancels it: a player who dies in a tick
/// ends it with no more than the fresh starting square as score. A claim without an entry point is a death of its own. The trail's
/// points are dropped whenever the loop closes or the player dies.
pub fn run_tick(
    grid: &mut Grid,
    settings: &GridSettings,
    id: PlayerId,
    player: &mut Player,
    pos: &mut Point,
    trail: &mut Trail,
    request: &mut CompleteTrail,
    input: Direction,
    step: i64,
) -> (r: Option<PlayerDeathEvent>)
    requires
        old(grid).wf(),
        settings.valid(),
        old(grid).w() == settings.grid_width,
        old(grid).h() == settings.grid_height,
        settings.contains(*old(pos)),
        0 <= step <= settings.tile_size,
        old(trail).wf(),
        old(request).pending() ==> old(request).player == Some(id),
        old(player).score + old(grid).w() * old(grid).h() <= u32::MAX,
    ensures
        final(grid).wf(),
        final(grid).same_shape(*old(grid)),
        forall|x: int, y: int|
            final(grid).in_bounds(x, y) && (#[trigger] final(grid).cell(x, y)).is_trail ==> final(grid).cell(
                x,
                y,
            ).owner is Some,
        settings.contains(*final(pos)),
        final(trail).wf(),
        tick_post(
            *old(grid),
            *settings,
            id,
            *old(player),
            *old(pos),
            *old(trail),
            *old(request),
            input,
            step as int,
            *final(grid),
            *final(player),
            *final(pos),
            *final(trail),
            *final(request),
            r,
        ),
        !final(request).pending(),
        r is None ==> final(player).score >= old(player).score,
        r is Some ==> {
            &&& r->0.player_entity == id
            &&& r->0.reason == PlayerDeathReason::TrailCollision || r->0.reason == PlayerDeathReason::CrossedTrail
            &&& final(player).score <= (2 * START_RADIUS + 1) * (2 * START_RADIUS + 1)
            &&& final(player).direction == Direction::Still
            &&& !final(player).is_drawing_trail
            &&& final(player).buffered_direction is None
            &&& *final(pos) == settings.center_of(settings.center_tile().0, settings.center_tile().1)
            &&& final(trail).points@.len() == 0
        },
{
    proof {
        crate::movement::lemma_extent(*settings);
        crate::movement::lemma_center_inside(*settings, settings.center_tile().0, settings.center_tile().1);
    }
    let ghost g0 = *grid;
    let ghost p0 = *player;
    let ghost pos0 = *pos;
    let ghost t0 = *trail;
    let ghost req0 = *request;
    player_input_system(player, input);
    let ghost p1 = *player;
    let mut death = player_movement_system(grid, settings, id, player, pos, step, request);
    let ghost g2 = *grid;
    let ghost p2 = *player;
    let ghost pos2 = *pos;
    let ghost req2 = *request;
    let ghost dm = death;
    update_trail_system(trail, id, player, *pos);
    let ghost t1 = *trail;
    if death.is_none() {
        death = collision_detection_system(grid, settings, id, player, *pos);
    }
    assert(death == tick_death(g2, *settings, id, p2, pos2, dm));
    if let Some(ev) = death {
        handle_player_death(grid, settings, &ev, player, pos, request);
        trail.clear();
        assert(resolve_post(g2, *settings, id, p2, pos2, req2, t1, death, *grid, *player, *pos, *trail, *request, death));
        assert(input_post(p0, input, p1) && movement_post(g0, *settings, id, p1, pos0, step as int, req0, g2, p2, pos2, req2, dm)
            && trail_post(t0, id, p2, pos2, t1));
        return death;
    }
    let pending = request.is_pending();
    let crossed = claim_territory_system(grid, request, id, player);
    let ghost g4 = *grid;
    let ghost p4 = *player;
    let ghost req4 = *request;
    if let Some(ev) = crossed {
        handle_player_death(grid, settings, &ev, player, pos, request);
        trail.clear();
    } else if pending {
        trail.clear();
    }
    assert(claim_post(g2, req2, id, p2, g4, req4, p4, crossed));
    assert(resolve_post(g2, *settings, id, p2, pos2, req2, t1, None, *grid, *player, *pos, *trail, *request, crossed));
    assert(input_post(p0, input, p1) && movement_post(g0, *settings, id, p1, pos0, step as int, req0, g2, p2, pos2, req2, dm)
        && trail_post(t0, id, p2, pos2, t1));
    crossed
}

} // verus!
