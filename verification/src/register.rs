//! The player-state register: the authoritative record of current playback.
//! Every publish overwrites it; reads never block and never fail.

use vstd::prelude::*;

use crate::player::{PlayerState, PlayerStateView};

verus! {

/// Holds the most recently published `PlayerState`.
pub struct Register {
    state: PlayerState,
}

impl View for Register {
    type V = PlayerStateView;

    closed spec fn view(&self) -> PlayerStateView {
        self.state@
    }
}

impl Register {
    /// A fresh register reads as `Idle` until something is published.
    pub fn new() -> (r: Register)
        ensures
            r@ is Idle,
    {
        Register { state: PlayerState::Idle }
    }

    /// Unconditionally overwrites the authoritative state; no history is kept.
    pub fn publish(&mut self, s: PlayerState)
        ensures
            final(self)@ == s@,
    {
        self.state = s;
    }

    /// Returns the current authoritative state without changing it.
    pub fn read(&self) -> (r: PlayerState)
        ensures
            r@ == self@,
    {
        self.state.duplicate()
    }
}

} // verus!
