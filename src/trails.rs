use vstd::prelude::*;
use crate::components::{Direction, GridSettings, Player, PlayerId, Point, Tile};
use crate::grid::{classify, classify_spec, lemma_area, Cell, Grid};
use crate::movement::trail_tile;

verus! {

/// Least distance, in world units, between consecutive recorded trail points.
pub const MIN_POINT_SPACING: i64 = 5;

/// Largest coordinate magnitude, in world units, of a recorded point.
pub const MAX_COORD: i64 = 16777216;

pub open spec fn bounded(p: Point) -> bool {
    -MAX_COORD <= p.x <= MAX_COORD && -MAX_COORD <= p.y <= MAX_COORD
}

pub open spec fn dist2(a: Point, b: Point) -> int {
    (a.x - b.x) * (a.x - b.x) + (a.y - b.y) * (a.y - b.y)
}

/// The path a player draws while away from territory, as points for drawing
/// and for proximity checks.
pub struct Trail {
    pub owner: PlayerId,
    pub points: Vec<Point>,
    pub is_active: bool,
}

impl Trail {
    pub open spec fn wf(self) -> bool {
        forall|i: int| 0 <= i < self.points@.len() ==> bounded(#[trigger] self.points@[i])
    }

    /// An active, empty trail of player `owner`.
    pub fn new(owner: PlayerId) -> (t: Trail)
        ensures
            t.wf(),
            t.owner == owner,
            t.points@.len() == 0,
            t.is_active,
    {
        Trail { owner, points: Vec::new(), is_active: true }
    }

    /// Forgets the points, once the loop is closed or the player died.
    pub fn clear(&mut self)
        ensures
            final(self).wf(),
            final(self).owner == old(self).owner,
            final(self).is_active == old(self).is_active,
            final(self).points@.len() == 0,
    {
        self.points = Vec::new();
    }
}

fn square(v: i64) -> (r: i64)
    requires
        -2 * MAX_COORD <= v <= 2 * MAX_COORD,
    ensures
        r == v * v,
        0 <= r <= 4 * MAX_COORD * MAX_COORD,
{
    assert(0 <= v * v <= 4 * MAX_COORD * MAX_COORD) by (nonlinear_arith)
        requires -2 * MAX_COORD <= v <= 2 * MAX_COORD;
    v * v
}

/// What recording position `pos` of player `p` does to trail `was`.
pub open spec fn trail_post(was: Trail, id: PlayerId, p: Player, pos: Point, now: Trail) -> bool {
    &&& now.wf()
    &&& now.owner == was.owner
    &&& now.is_active == was.is_active
    &&& ({
        let pts = was.points@;
        let records = p.is_drawing_trail && was.owner == id && was.is_active && (pts.len()
            == 0 || dist2(pts.last(), pos) > MIN_POINT_SPACING * MIN_POINT_SPACING);
        &&& records ==> now.points@ == pts.push(pos)
        &&& !records ==> now.points@ == pts
    })
}

/// Records the position of a drawing player on their active trail, unless it
/// lies within `MIN_POINT_SPACING` of the last point recorded.
pub fn update_trail_system(trail: &mut Trail, id: PlayerId, player: &Player, pos: Point)
    requires
        old(trail).wf(),
        bounded(pos),
    ensures
        trail_post(*old(trail), id, *player, pos, *final(trail)),

{
    if !player.is_drawing_trail || trail.owner != id || !trail.is_active {
        return;
    }
    let n = trail.points.len();
    if n > 0 {
        let last = trail.points[n - 1];
        let d = square(last.x - pos.x) + square(last.y - pos.y);
        if d <= MIN_POINT_SPACING * MIN_POINT_SPACING {
            return;
        }
    }
    trail.points.push(pos);
    assert forall|i: int| 0 <= i < trail.points@.len() implies bounded(#[trigger] trail.points@[i]) by {
        if i < n {
            assert(trail.points@[i] == old(trail).points@[i]);
        }
    }
}

/// Starts drawing when the player moves out of territory: standing on
/// territory with the next tile outside it, the trail starts at the next
/// tile; standing anywhere else while not drawing, the current tile becomes
/// the trail's first tile.
pub fn start_trail_system(grid: &mut Grid, settings: &GridSettings, id: PlayerId, player: &mut Player, pos: Point)
    requires
        old(grid).wf(),
        settings.valid(),
        old(grid).w() == settings.grid_width,
        old(grid).h() == settings.grid_height,
        settings.contains(pos),
    ensures
        final(grid).wf(),
        final(grid).same_shape(*old(grid)),
        ({
            let (tx, ty) = settings.tile_of(pos);
            let g = *old(grid);
            let d = old(player).direction;
            let on_territory = classify_spec(g.cell(tx, ty), id) == Cell::OwnTerritory;
            let next_territory = g.in_bounds(tx + d.dx(), ty + d.dy()) && classify_spec(
                g.cell(tx + d.dx(), ty + d.dy()),
                id,
            ) == Cell::OwnTerritory;
            let starts = d != Direction::Still && !old(player).is_drawing_trail && (!on_territory
                || !next_territory);
            let marks = starts && !on_territory;
            &&& *final(player) == Player { is_drawing_trail: old(player).is_drawing_trail || starts, ..*old(player) }
            &&& marks ==> final(grid).cell(tx, ty) == trail_tile(id, tx, ty)
            &&& forall|i: int, j: int|
                g.in_bounds(i, j) && (i != tx || j != ty || !marks) ==> #[trigger] final(grid).cell(i, j) == g.cell(i, j)
        }),
{
    if player.direction == Direction::Still || player.is_drawing_trail {
        return;
    }
    proof {
        crate::movement::lemma_tile_in_range(pos.x as int, settings.grid_width as int, settings.tile_size as int);
        crate::movement::lemma_tile_in_range(pos.y as int, settings.grid_height as int, settings.tile_size as int);
        lemma_area(grid.w(), grid.h());
    }
    let tx = (pos.x / settings.tile_size as i64) as i32;
    let ty = (pos.y / settings.tile_size as i64) as i32;
    let on_territory = classify(&grid.get(tx as usize, ty as usize), id) == Cell::OwnTerritory;
    let nx = tx as i64 + player.direction.step_x() as i64;
    let ny = ty as i64 + player.direction.step_y() as i64;
    let next_territory = 0 <= nx && nx < settings.grid_width as i64 && 0 <= ny && ny < settings.grid_height as i64
        && classify(&grid.get(nx as usize, ny as usize), id) == Cell::OwnTerritory;
    if on_territory && next_territory {
        return;
    }
    player.is_drawing_trail = true;
    if !on_territory {
        grid.put(tx as usize, ty as usize, Tile { x: tx, y: ty, owner: Some(id), is_trail: true });
    }
}

} // verus!
