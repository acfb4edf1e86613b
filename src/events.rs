use vstd::prelude::*;
use crate::components::PlayerId;

verus! {

/// Why a player dies.
#[derive(Clone, Copy, Debug, PartialEq, Eq, Structural)]
pub enum PlayerDeathReason {
    /// The player touched their own trail.
    TrailCollision,
    /// The trail crossed itself without returning to territory.
    CrossedTrail,
    /// The player left the grid.
    OutOfBounds,
    /// The player ran into another player.
    HitOtherPlayer,
}

/// A death to be resolved before any claim of the same tick.
#[derive(Clone, Copy, Debug, PartialEq, Eq, Structural)]
pub struct PlayerDeathEvent {
    pub player_entity: PlayerId,
    pub reason: PlayerDeathReason,
}

} // verus!
