use vstd::prelude::*;
use crate::components::{PlayerId, Point, Tile};
use crate::trails::Trail;

verus! {

/// How the renderer shows a tile: the neutral checkerboard (dark when
/// `x + y` is even), or tinted by its owner, as territory or as trail.
#[derive(Clone, Copy, Debug, PartialEq, Eq, Structural)]
pub enum Shade {
    Neutral { dark: bool },
    Territory { owner: PlayerId },
    Trail { owner: PlayerId },
}

pub open spec fn shade_spec(t: Tile) -> Shade {
    match t.owner {
        None => Shade::Neutral { dark: (t.x + t.y) % 2 == 0 },
        Some(o) => if t.is_trail {
            Shade::Trail { owner: o }
        } else {
            Shade::Territory { owner: o }
        },
    }
}

/// The shade of a tile.
pub fn tile_shade(t: &Tile) -> (r: Shade)
    ensures
        r == shade_spec(*t),
{
    match t.owner {
        None => Shade::Neutral { dark: (t.x as i64 + t.y as i64) % 2 == 0 },
        Some(o) => if t.is_trail {
            Shade::Trail { owner: o }
        } else {
            Shade::Territory { owner: o }
        },
    }
}

/// The line segments between consecutive points of a trail; a trail of
/// fewer than two points draws nothing.
pub fn render_trail_system(trail: &Trail) -> (r: Vec<(Point, Point)>)
    ensures
        trail.points@.len() < 2 ==> r@.len() == 0,
        trail.points@.len() >= 2 ==> r@.len() == trail.points@.len() - 1,
        forall|i: int| 0 <= i < r@.len() ==> #[trigger] r@[i] == (trail.points@[i], trail.points@[i + 1]),
{
    let mut r: Vec<(Point, Point)> = Vec::new();
    let n = trail.points.len();
    if n < 2 {
        return r;
    }
    let mut i: usize = 1;
    while i < n
        invariant
            n == trail.points@.len(),
            1 <= i <= n,
            r@.len() == i - 1,
            forall|k: int| 0 <= k < r@.len() ==> #[trigger] r@[k] == (trail.points@[k], trail.points@[k + 1]),
        decreases n - i,
    {
        r.push((trail.points[i - 1], trail.points[i]));
        i = i + 1;
    }
    r
}

} // verus!
