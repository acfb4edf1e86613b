use vstd::prelude::*;

verus! {

/// Identifies a player; every tile records its owner by this value.
pub type PlayerId = u64;

/// Largest grid side, and largest tile side, that the library accepts.
pub const MAX_SIDE: i32 = 4096;

/// A position in world units, measured from the lower-left corner of the grid.
#[derive(Clone, Copy, Debug, PartialEq, Eq, Structural)]
pub struct Point {
    pub x: i64,
    pub y: i64,
}

/// One of the four cardinal directions, or no movement.
#[derive(Clone, Copy, Debug, PartialEq, Eq, Structural)]
pub enum Direction {
    Still,
    Up,
    Down,
    Left,
    Right,
}

impl Direction {
    pub open spec fn dx(self) -> int {
        match self {
            Direction::Left => -1,
            Direction::Right => 1,
            _ => 0,
        }
    }

    pub open spec fn dy(self) -> int {
        match self {
            Direction::Down => -1,
            Direction::Up => 1,
            _ => 0,
        }
    }

    /// Horizontal step of one tile in this direction.
    pub fn step_x(self) -> (r: i32)
        ensures
            r == self.dx(),
    {
        match self {
            Direction::Left => -1,
            Direction::Right => 1,
            _ => 0,
        }
    }

    /// Vertical step of one tile in this direction.
    pub fn step_y(self) -> (r: i32)
        ensures
            r == self.dy(),
    {
        match self {
            Direction::Down => -1,
            Direction::Up => 1,
            _ => 0,
        }
    }
}

/// The grid's dimensions, in tiles, and the side of a tile, in world units.
#[derive(Clone, Copy, Debug, PartialEq, Eq, Structural)]
pub struct GridSettings {
    pub tile_size: i32,
    pub grid_width: i32,
    pub grid_height: i32,
}

impl GridSettings {
    pub open spec fn valid(self) -> bool {
        &&& 1 <= self.tile_size <= MAX_SIDE
        &&& 1 <= self.grid_width <= MAX_SIDE
        &&& 1 <= self.grid_height <= MAX_SIDE
    }

    /// The tile that contains a world position (floor division).
    pub open spec fn tile_of(self, p: Point) -> (int, int) {
        (p.x as int / self.tile_size as int, p.y as int / self.tile_size as int)
    }

    /// The world position of a tile's center.
    pub open spec fn center_of(self, x: int, y: int) -> Point {
        Point {
            x: (x * self.tile_size + self.tile_size / 2) as i64,
            y: (y * self.tile_size + self.tile_size / 2) as i64,
        }
    }

    /// World positions covered by the grid.
    pub open spec fn contains(self, p: Point) -> bool {
        &&& 0 <= p.x < self.grid_width * self.tile_size
        &&& 0 <= p.y < self.grid_height * self.tile_size
    }

    /// The tile at the middle of the grid, where players spawn.
    pub open spec fn center_tile(self) -> (int, int) {
        (self.grid_width / 2, self.grid_height / 2)
    }
}

impl Default for GridSettings {
    fn default() -> (r: GridSettings)
        ensures
            r.tile_size == 20,
            r.grid_width == 40,
            r.grid_height == 30,
    {
        GridSettings { tile_size: 20, grid_width: 40, grid_height: 30 }
    }
}

/// One grid cell: its coordinates, its owner if any, and whether it is part
/// of its owner's open trail rather than settled territory.
#[derive(Clone, Copy, Debug, PartialEq, Eq, Structural)]
pub struct Tile {
    pub x: i32,
    pub y: i32,
    pub owner: Option<PlayerId>,
    pub is_trail: bool,
}

impl Tile {
    /// A tile marked as trail always has an owner.
    pub open spec fn consistent(self) -> bool {
        self.is_trail ==> self.owner.is_some()
    }
}

/// A player's movement and scoring state. The continuous position is kept
/// beside it, as a `Point`.
#[derive(Clone, Copy, Debug)]
pub struct Player {
    pub speed: u32,
    pub direction: Direction,
    pub buffered_direction: Option<Direction>,
    pub score: u32,
    pub is_drawing_trail: bool,
    pub last_tile_pos: (i32, i32),
    pub is_moving_to_next_tile: bool,
}

} // verus!
