//! Pausing: the game stops in its phase and later goes on in it; a game
//! that is over stays over.
use vstd::prelude::*;
use crate::game::state::{GamePhase, GameState};

verus! {

/// Pauses and resumes the game.
#[derive(Debug, Clone, Copy)]
pub struct PauseManager;

impl PauseManager {
    pub fn new() -> (r: PauseManager) {
        PauseManager
    }

    /// Pauses a running game, keeping the phase it goes on in, or resumes a
    /// paused one in that phase; a game that is over stays over.
    pub fn toggle_pause(&self, state: &mut GameState)
        ensures
            final(state).graph == old(state).graph,
            final(state).sound_events == old(state).sound_events,
            final(state).focus_bubble == old(state).focus_bubble,
            old(state).phase == GamePhase::Paused ==>
                final(state).phase == old(state).resume_phase && final(state).resume_phase == old(state).resume_phase,
            old(state).phase == GamePhase::GameOver ==>
                final(state).phase == GamePhase::GameOver && final(state).resume_phase == old(state).resume_phase,
            old(state).phase != GamePhase::Paused && old(state).phase != GamePhase::GameOver ==>
                final(state).phase == GamePhase::Paused && final(state).resume_phase == old(state).phase,
    {
        if state.phase == GamePhase::Paused {
            state.phase = state.resume_phase;
        } else if state.phase != GamePhase::GameOver {
            state.resume_phase = state.phase;
            state.phase = GamePhase::Paused;
        }
    }
}

} // verus!
