use vstd::prelude::*;
use crate::components::{GridSettings, PlayerId, Tile, MAX_SIDE};

verus! {

/// `t` with any ownership by `p` taken away.
pub open spec fn released(t: Tile, p: PlayerId) -> Tile {
    if t.owner == Some(p) {
        Tile { x: t.x, y: t.y, owner: None, is_trail: false }
    } else {
        t
    }
}

/// A tile coordinate outside the grid.
#[derive(Clone, Copy, Debug, PartialEq, Eq, Structural)]
pub struct BoundsError {
    pub x: i32,
    pub y: i32,
}

/// How a tile stands relative to one player.
#[derive(Clone, Copy, Debug, PartialEq, Eq, Structural)]
pub enum Cell {
    Empty,
    OwnTerritory,
    OwnTrail,
    Other,
}

pub open spec fn classify_spec(t: Tile, p: PlayerId) -> Cell {
    if t.owner == Some(p) {
        if t.is_trail { Cell::OwnTrail } else { Cell::OwnTerritory }
    } else if t.owner.is_none() {
        Cell::Empty
    } else {
        Cell::Other
    }
}

/// Classifies a tile relative to player `p`.
pub fn classify(t: &Tile, p: PlayerId) -> (r: Cell)
    ensures
        r == classify_spec(*t, p),
{
    match t.owner {
        Some(o) => {
            if o == p {
                if t.is_trail { Cell::OwnTrail } else { Cell::OwnTerritory }
            } else {
                Cell::Other
            }
        },
        None => Cell::Empty,
    }
}

/// Row-major order: (a, b) comes before (x, y).
pub open spec fn before(a: int, b: int, x: int, y: int) -> bool {
    b < y || (b == y && a < x)
}

/// Flat index of tile (x, y) in a row-major grid of width `w`.
pub open spec fn flat(w: int, x: int, y: int) -> int {
    y * w + x
}

pub proof fn lemma_flat(w: int, h: int, x: int, y: int)
    requires
        0 <= x < w,
        0 <= y < h,
    ensures
        0 <= flat(w, x, y) < w * h,
        flat(w, x, y) % w == x,
        flat(w, x, y) / w == y,
{
    assert(0 <= y * w) by (nonlinear_arith)
        requires 0 <= y, 0 < w;
    assert(y * w + x < w * h) by (nonlinear_arith)
        requires 0 <= x < w, 0 <= y < h;
    vstd::arithmetic::div_mod::lemma_fundamental_div_mod_converse(y * w + x, w, y, x);
}

pub proof fn lemma_unflat(w: int, h: int, i: int)
    requires
        0 < w,
        0 <= i < w * h,
    ensures
        0 <= i % w < w,
        0 <= i / w < h,
        flat(w, i % w, i / w) == i,
{
    vstd::arithmetic::div_mod::lemma_fundamental_div_mod(i, w);
    vstd::arithmetic::div_mod::lemma_mod_bound(i, w);
    vstd::arithmetic::div_mod::lemma_div_pos_is_pos(i, w);
    let q = i / w;
    let r = i % w;
    assert(q < h) by (nonlinear_arith)
        requires i == w * q + r, 0 <= r, i < w * h, 0 < w;
    assert(flat(w, r, q) == i) by (nonlinear_arith)
        requires i == w * q + r;
}

/// A grid of at most `MAX_SIDE` tiles a side has few enough tiles for any index type.
pub proof fn lemma_area(w: int, h: int)
    requires
        1 <= w <= MAX_SIDE,
        1 <= h <= MAX_SIDE,
    ensures
        w <= w * h <= 16777216,
        h <= w * h,
{
    assert(w <= w * h <= 16777216) by (nonlinear_arith)
        requires 1 <= w <= 4096, 1 <= h <= 4096;
    assert(h <= w * h) by (nonlinear_arith)
        requires 1 <= w, 1 <= h;
}

/// The tile store: `width × height` tiles in row-major order, each reached
/// in constant time by its coordinates.
pub struct Grid {
    width: usize,
    height: usize,
    tiles: Vec<Tile>,
}

impl Grid {
    pub closed spec fn w(self) -> int {
        self.width as int
    }

    pub closed spec fn h(self) -> int {
        self.height as int
    }

    pub open spec fn in_bounds(self, x: int, y: int) -> bool {
        0 <= x < self.w() && 0 <= y < self.h()
    }

    /// The tile at (x, y).
    pub closed spec fn cell(self, x: int, y: int) -> Tile {
        self.tiles@[flat(self.w(), x, y)]
    }

    /// The row-major layout: one tile per coordinate, each at its own place.
    pub closed spec fn layout(self) -> bool {
        &&& self.tiles@.len() == self.w() * self.h()
        &&& forall|i: int|
            0 <= i < self.tiles@.len() ==> {
                &&& (#[trigger] self.tiles@[i]).x == i % self.w()
                &&& self.tiles@[i].y == i / self.w()
            }
    }

    /// Well-formedness: the dimensions are in range, every tile sits at its own
    /// coordinates, and no tile is marked as trail without an owner.
    pub open spec fn wf(self) -> bool {
        &&& 1 <= self.w() <= MAX_SIDE
        &&& 1 <= self.h() <= MAX_SIDE
        &&& self.layout()
        &&& forall|x: int, y: int|
            self.in_bounds(x, y) ==> {
                &&& (#[trigger] self.cell(x, y)).x == x
                &&& self.cell(x, y).y == y
                &&& self.cell(x, y).consistent()
            }
    }

    /// The two grids have the same width and height.
    pub open spec fn same_shape(self, other: Grid) -> bool {
        self.w() == other.w() && self.h() == other.h()
    }

    /// A neutral tile at (x, y).
    pub open spec fn neutral(x: int, y: int) -> Tile {
        Tile { x: x as i32, y: y as i32, owner: None, is_trail: false }
    }

    /// A fresh grid of neutral tiles.
    pub fn new(settings: &GridSettings) -> (g: Grid)
        requires
            settings.valid(),
        ensures
            g.wf(),
            g.w() == settings.grid_width,
            g.h() == settings.grid_height,
            forall|x: int, y: int| g.in_bounds(x, y) ==> #[trigger] g.cell(x, y) == Grid::neutral(x, y),
    {
        let width = settings.grid_width as usize;
        let height = settings.grid_height as usize;
        let mut tiles: Vec<Tile> = Vec::new();
        let mut y: usize = 0;
        while y < height
            invariant
                1 <= width <= MAX_SIDE,
                1 <= height <= MAX_SIDE,
                y <= height,
                tiles@.len() == y * width,
                forall|i: int|
                    0 <= i < tiles@.len() ==> #[trigger] tiles@[i] == Grid::neutral(i % width as int, i / width as int),
            decreases height - y,
        {
            let mut x: usize = 0;
            while x < width
                invariant
                    1 <= width <= MAX_SIDE,
                    1 <= height <= MAX_SIDE,
                    y < height,
                    x <= width,
                    tiles@.len() == y * width + x,
                    forall|i: int|
                        0 <= i < tiles@.len() ==> #[trigger] tiles@[i] == Grid::neutral(i % width as int, i / width as int),
                decreases width - x,
            {
                proof {
                    lemma_flat(width as int, height as int, x as int, y as int);
                    assert(y * width + x < width * height);
                }
                tiles.push(Tile { x: x as i32, y: y as i32, owner: None, is_trail: false });
                x = x + 1;
            }
            assert((y + 1) * width == y * width + width) by (nonlinear_arith);
            y = y + 1;
        }
        assert(tiles@.len() == width * height) by (nonlinear_arith)
            requires tiles@.len() == y * width, y == height;
        let g = Grid { width, height, tiles };
        assert forall|i: int| 0 <= i < g.tiles@.len() implies {
            &&& (#[trigger] g.tiles@[i]).x == i % g.w()
            &&& g.tiles@[i].y == i / g.w()
        } by {
            lemma_unflat(g.w(), g.h(), i);
        }
        assert forall|x: int, y: int| g.in_bounds(x, y) implies #[trigger] g.cell(x, y) == Grid::neutral(x, y) by {
            lemma_flat(g.w(), g.h(), x, y);
        }
        g
    }

    pub fn width(&self) -> (r: i32)
        requires
            self.wf(),
        ensures
            r == self.w(),
    {
        self.width as i32
    }

    pub fn height(&self) -> (r: i32)
        requires
            self.wf(),
        ensures
            r == self.h(),
    {
        self.height as i32
    }

    /// The tile at (x, y), or `BoundsError` when (x, y) lies outside the grid.
    pub fn tile_at(&self, x: i32, y: i32) -> (r: Result<Tile, BoundsError>)
        requires
            self.wf(),
        ensures
            self.in_bounds(x as int, y as int) ==> r == Ok::<Tile, BoundsError>(self.cell(x as int, y as int)),
            !self.in_bounds(x as int, y as int) ==> r == Err::<Tile, BoundsError>(BoundsError { x, y }),
    {
        if x < 0 || y < 0 || x as usize >= self.width || y as usize >= self.height {
            return Err(BoundsError { x, y });
        }
        proof {
            lemma_flat(self.w(), self.h(), x as int, y as int);
            lemma_area(self.w(), self.h());
        }
        Ok(self.tiles[y as usize * self.width + x as usize])
    }

    /// The tile at (x, y), for coordinates already known to be in the grid.
    pub fn get(&self, x: usize, y: usize) -> (r: Tile)
        requires
            self.wf(),
            self.in_bounds(x as int, y as int),
        ensures
            r == self.cell(x as int, y as int),
    {
        proof {
            lemma_flat(self.w(), self.h(), x as int, y as int);
            lemma_area(self.w(), self.h());
        }
        self.tiles[y * self.width + x]
    }

    /// Replaces the tile at (x, y) in place; every other tile is kept.
    pub(crate) fn put(&mut self, x: usize, y: usize, t: Tile)
        requires
            old(self).wf(),
            old(self).in_bounds(x as int, y as int),
            t.x == x,
            t.y == y,
            t.consistent(),
        ensures
            final(self).wf(),
            final(self).w() == old(self).w(),
            final(self).h() == old(self).h(),
            final(self).cell(x as int, y as int) == t,
            forall|a: int, b: int|
                final(self).in_bounds(a, b) && (a != x || b != y) ==> #[trigger] final(self).cell(a, b)
                    == old(self).cell(a, b),
    {
        proof {
            lemma_flat(self.w(), self.h(), x as int, y as int);
            lemma_area(self.w(), self.h());
        }
        let i = y * self.width + x;
        self.tiles.set(i, t);
        proof {
            assert forall|a: int, b: int|
                final(self).in_bounds(a, b) && (a != x || b != y) implies #[trigger] final(self).cell(a, b)
                    == old(self).cell(a, b) by {
                lemma_flat(self.w(), self.h(), a, b);
            }
        }
    }
}

impl Grid {
    /// Takes every tile of player `p`, territory and trail alike, back to neutral.
    pub fn release_player(&mut self, p: PlayerId)
        requires
            old(self).wf(),
        ensures
            final(self).wf(),
            final(self).same_shape(*old(self)),
            forall|x: int, y: int|
                old(self).in_bounds(x, y) ==> #[trigger] final(self).cell(x, y) == released(old(self).cell(x, y), p),
    {
        let ghost g0 = *self;
        let n = self.tiles.len();
        let mut i: usize = 0;
        while i < n
            invariant
                g0.wf(),
                self.width == g0.width,
                self.height == g0.height,
                n == self.tiles@.len(),
                n == g0.tiles@.len(),
                i <= n,
                forall|j: int| 0 <= j < n ==> #[trigger] self.tiles@[j] == if j < i {
                    released(g0.tiles@[j], p)
                } else {
                    g0.tiles@[j]
                },
            decreases n - i,
        {
            let t = self.tiles[i];
            let owned = match t.owner {
                Some(o) => o == p,
                None => false,
            };
            if owned {
                self.tiles.set(i, Tile { x: t.x, y: t.y, owner: None, is_trail: false });
            }
            i = i + 1;
        }
        assert forall|x: int, y: int| g0.in_bounds(x, y) implies #[trigger] self.cell(x, y) == released(g0.cell(x, y), p) by {
            lemma_flat(g0.w(), g0.h(), x, y);
        }
        assert forall|x: int, y: int| self.in_bounds(x, y) implies {
            &&& (#[trigger] self.cell(x, y)).x == x
            &&& self.cell(x, y).y == y
            &&& self.cell(x, y).consistent()
        } by {
            lemma_flat(g0.w(), g0.h(), x, y);
            assert(g0.cell(x, y).x == x);
        }
    }
}

/// In a well-formed grid every trail tile has an owner.
pub proof fn lemma_trail_has_owner(g: Grid, x: int, y: int)
    requires
        g.wf(),
        g.in_bounds(x, y),
    ensures
        g.cell(x, y).is_trail ==> g.cell(x, y).owner is Some,
{
}

impl Grid {
    /// The tiles of `p`'s open trail.
    pub open spec fn own_trail_set(self, p: PlayerId) -> Set<(int, int)> {
        Set::new(|c: (int, int)| self.in_bounds(c.0, c.1) && classify_spec(self.cell(c.0, c.1), p) == Cell::OwnTrail)
    }

    /// How many tiles `p`'s open trail has.
    pub fn count_trail(&self, p: PlayerId) -> (r: usize)
        requires
            self.wf(),
        ensures
            self.own_trail_set(p).finite(),
            r == self.own_trail_set(p).len(),
    {
        proof {
            lemma_area(self.w(), self.h());
        }
        let mut count: usize = 0;
        let ghost mut found: Set<(int, int)> = Set::empty();
        let mut y: usize = 0;
        while y < self.height
            invariant
                self.wf(),
                y <= self.h(),
                self.w() * self.h() <= 16777216,
                found.finite(),
                found.len() == count,
                count <= y * self.w(),
                found == Set::new(
                    |c: (int, int)|
                        self.in_bounds(c.0, c.1) && classify_spec(self.cell(c.0, c.1), p) == Cell::OwnTrail && before(
                            c.0,
                            c.1,
                            0,
                            y as int,
                        ),
                ),
            decreases self.h() - y,
        {
            let mut x: usize = 0;
            while x < self.width
                invariant
                    self.wf(),
                    y < self.h(),
                    x <= self.w(),
                    self.w() * self.h() <= 16777216,
                    found.finite(),
                    found.len() == count,
                    count <= y * self.w() + x,
                    found == Set::new(
                        |c: (int, int)|
                            self.in_bounds(c.0, c.1) && classify_spec(self.cell(c.0, c.1), p) == Cell::OwnTrail
                                && before(c.0, c.1, x as int, y as int),
                    ),
                decreases self.w() - x,
            {
                proof {
                    lemma_flat(self.w(), self.h(), x as int, y as int);
                }
                if classify(&self.get(x, y), p) == Cell::OwnTrail {
                    count = count + 1;
                    proof {
                        found = found.insert((x as int, y as int));
                    }
                }
                assert(found =~= Set::new(
                    |c: (int, int)|
                        self.in_bounds(c.0, c.1) && classify_spec(self.cell(c.0, c.1), p) == Cell::OwnTrail && before(
                            c.0,
                            c.1,
                            x + 1,
                            y as int,
                        ),
                ));
                x = x + 1;
            }
            assert((y + 1) * self.w() == y * self.w() + self.w()) by (nonlinear_arith);
            assert(found =~= Set::new(
                |c: (int, int)|
                    self.in_bounds(c.0, c.1) && classify_spec(self.cell(c.0, c.1), p) == Cell::OwnTrail && before(
                        c.0,
                        c.1,
                        0,
                        y + 1,
                    ),
            ));
            y = y + 1;
        }
        assert(found =~= self.own_trail_set(p));
        count
    }

    /// Sets the owner and trail mark of tile (x, y), or reports that (x, y)
    /// lies outside the grid. A trail mark needs an owner.
    pub fn set_tile(&mut self, x: i32, y: i32, owner: Option<PlayerId>, is_trail: bool) -> (r: Result<(), BoundsError>)
        requires
            old(self).wf(),
            is_trail ==> owner is Some,
        ensures
            final(self).wf(),
            final(self).same_shape(*old(self)),
            old(self).in_bounds(x as int, y as int) ==> {
                &&& r is Ok
                &&& final(self).cell(x as int, y as int) == (Tile { x, y, owner, is_trail })
                &&& forall|a: int, b: int|
                    old(self).in_bounds(a, b) && (a != x || b != y) ==> #[trigger] final(self).cell(a, b)
                        == old(self).cell(a, b)
            },
            !old(self).in_bounds(x as int, y as int) ==> r == Err::<(), BoundsError>(BoundsError { x, y })
                && *final(self) == *old(self),
    {
        if x < 0 || y < 0 || x as usize >= self.width || y as usize >= self.height {
            return Err(BoundsError { x, y });
        }
        self.put(x as usize, y as usize, Tile { x, y, owner, is_trail });
        Ok(())
    }

    /// Returns tile (x, y) to neutral: no owner, no trail mark.
    pub fn reset_tile(&mut self, x: i32, y: i32) -> (r: Result<(), BoundsError>)
        requires
            old(self).wf(),
        ensures
            final(self).wf(),
            final(self).same_shape(*old(self)),
            old(self).in_bounds(x as int, y as int) ==> {
                &&& r is Ok
                &&& final(self).cell(x as int, y as int) == Grid::neutral(x as int, y as int)
                &&& forall|a: int, b: int|
                    old(self).in_bounds(a, b) && (a != x || b != y) ==> #[trigger] final(self).cell(a, b)
                        == old(self).cell(a, b)
            },
            !old(self).in_bounds(x as int, y as int) ==> r == Err::<(), BoundsError>(BoundsError { x, y })
                && *final(self) == *old(self),
    {
        self.set_tile(x, y, None, false)
    }
}

} // verus!
