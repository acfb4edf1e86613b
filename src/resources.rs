use vstd::prelude::*;
use crate::components::PlayerId;

verus! {

/// The single slot that carries a claim request from movement to the
/// territory claimer. It is pending when `complete` is set and a player is
/// named; the claimer empties it when it consumes it.
#[derive(Clone, Copy, Debug)]
pub struct CompleteTrail {
    pub player: Option<PlayerId>,
    pub complete: bool,
    pub entry_point: Option<(i32, i32)>,
}

impl CompleteTrail {
    pub open spec fn pending(self) -> bool {
        self.complete && self.player.is_some()
    }

    pub open spec fn empty_spec() -> CompleteTrail {
        CompleteTrail { player: None, complete: false, entry_point: None }
    }

    /// An empty slot.
    pub fn empty() -> (r: CompleteTrail)
        ensures
            r == CompleteTrail::empty_spec(),
    {
        CompleteTrail { player: None, complete: false, entry_point: None }
    }

    /// Whether a request waits to be consumed.
    pub fn is_pending(&self) -> (r: bool)
        ensures
            r == self.pending(),
    {
        self.complete && self.player.is_some()
    }
}

} // verus!
