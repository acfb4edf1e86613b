use vstd::prelude::*;
use crate::components::{Direction, Player};

verus! {

/// The direction straight back.
pub open spec fn reverse(d: Direction) -> Direction {
    match d {
        Direction::Up => Direction::Down,
        Direction::Down => Direction::Up,
        Direction::Left => Direction::Right,
        Direction::Right => Direction::Left,
        Direction::Still => Direction::Still,
    }
}

/// The direction that the pressed keys ask for: right wins over left, left
/// over down, down over up; no key asks for none.
pub fn direction_from_keys(up: bool, down: bool, left: bool, right: bool) -> (r: Direction)
    ensures
        r == if right {
            Direction::Right
        } else if left {
            Direction::Left
        } else if down {
            Direction::Down
        } else if up {
            Direction::Up
        } else {
            Direction::Still
        },
{
    let mut d = Direction::Still;
    if up {
        d = Direction::Up;
    }
    if down {
        d = Direction::Down;
    }
    if left {
        d = Direction::Left;
    }
    if right {
        d = Direction::Right;
    }
    d
}

/// What applying a requested direction `d` does to a player.
pub open spec fn input_post(was: Player, d: Direction, now: Player) -> bool {
    &&& now.speed == was.speed
    &&& now.score == was.score
    &&& now.is_drawing_trail == was.is_drawing_trail
    &&& now.last_tile_pos == was.last_tile_pos
    &&& now.is_moving_to_next_tile == was.is_moving_to_next_tile
    &&& d == Direction::Still || (was.direction != Direction::Still && d
        == reverse(was.direction)) ==> {
        &&& now.direction == was.direction
        &&& now.buffered_direction == was.buffered_direction
    }
    &&& d != Direction::Still && (was.direction == Direction::Still || d
        != reverse(was.direction)) ==> if was.is_moving_to_next_tile && was.direction
        != Direction::Still {
        &&& now.direction == was.direction
        &&& now.buffered_direction == Some(d)
    } else {
        &&& now.direction == d
        &&& now.buffered_direction is None
    }
}

/// Applies a requested direction. No request, or a direct reversal, changes
/// nothing. A turn asked for while the player travels between tiles waits in
/// the buffer for the next tile; otherwise it takes effect at once.
pub fn player_input_system(player: &mut Player, new_direction: Direction)
    ensures
        input_post(*old(player), new_direction, *final(player)),

{
    if new_direction == Direction::Still {
        return;
    }
    let current = player.direction;
    let opposite = match current {
        Direction::Up => new_direction == Direction::Down,
        Direction::Down => new_direction == Direction::Up,
        Direction::Left => new_direction == Direction::Right,
        Direction::Right => new_direction == Direction::Left,
        Direction::Still => false,
    };
    if opposite {
        return;
    }
    if player.is_moving_to_next_tile && current != Direction::Still {
        player.buffered_direction = Some(new_direction);
    } else {
        player.direction = new_direction;
        player.buffered_direction = None;
    }
}

} // verus!
