//! The end of the game: once the player bubble has no swaps left, the game
//! is over; after a short while a release returns to the title screen.
use vstd::prelude::*;
use crate::game::state::{GamePhase, GameState};
use crate::graph::bubble::{Bubble, BubbleStyle};
use crate::graph::is_player_key;

verus! {

/// How long, in microseconds, the game-over screen waits before a release
/// returns to the title screen.
pub const GAME_OVER_WAIT: i64 = 2_000_000;

/// The style is a player bubble's with no swaps left.
pub open spec fn no_swaps_left(s: BubbleStyle) -> bool {
    match s {
        BubbleStyle::Swappable { swaps_left } => swaps_left <= 0,
        _ => false,
    }
}

/// The player bubble exists and has no swaps left.
pub open spec fn out_of_swaps(bs: Map<u64, Bubble>) -> bool {
    exists|k: u64| #[trigger] is_player_key(bs, k) && no_swaps_left(bs[k].style)
}

/// The time spent on the game-over screen.
#[derive(Debug, Clone, Copy)]
pub struct GameOverManager {
    pub timer: i64,
}

impl GameOverManager {
    pub fn new() -> (r: GameOverManager)
        ensures
            r.timer == 0,
    {
        GameOverManager { timer: 0 }
    }

    /// One tick of `dt` microseconds. In the normal phase, a player bubble
    /// with no swaps left ends the game and starts the game-over clock; in
    /// the game-over phase the clock runs (up to the largest time it holds).
    pub fn update(&mut self, state: &mut GameState, dt: i64)
        requires
            0 <= dt,
        ensures
            final(state).graph.vs() == old(state).graph.vs(),
            final(state).graph.bs() == old(state).graph.bs(),
            final(state).focus_bubble == old(state).focus_bubble,
            final(state).resume_phase == old(state).resume_phase,
            final(state).sound_events@ == old(state).sound_events@,
            old(state).phase == GamePhase::Normal && out_of_swaps(old(state).graph.bs()) ==>
                final(state).phase == GamePhase::GameOver && final(self).timer == 0,
            old(state).phase == GamePhase::Normal && !out_of_swaps(old(state).graph.bs()) ==>
                final(state).phase == GamePhase::Normal && final(self).timer == old(self).timer,
            old(state).phase != GamePhase::Normal && old(state).phase != GamePhase::GameOver ==>
                final(state).phase == old(state).phase && final(self).timer == old(self).timer,
            old(state).phase == GamePhase::GameOver ==> final(state).phase == GamePhase::GameOver
                && final(self).timer == (if old(self).timer + dt <= i64::MAX { old(self).timer + dt } else { i64::MAX as int }),
    {
        if state.phase != GamePhase::GameOver {
            if state.phase == GamePhase::Normal {
                let ghost bs = state.graph.bs();
                if let Some(player) = state.graph.bubbles.get_swappable() {
                    proof {
                        assert(is_player_key(bs, player.id));
                        assert forall|k: u64| #[trigger] is_player_key(bs, k) implies k == player.id by {
                            crate::graph::lemma_player_unique(bs, k, player.id);
                        }
                    }
                    if let BubbleStyle::Swappable { swaps_left } = state.graph.bubbles.style(player) {
                        if swaps_left <= 0 {
                            state.phase = GamePhase::GameOver;
                            self.timer = 0;
                        }
                    }
                } else {
                    proof {
                        assert(!exists|k: u64| is_player_key(bs, k));
                    }
                }
            }
            return;
        }
        if self.timer <= i64::MAX - dt {
            self.timer = self.timer + dt;
        } else {
            self.timer = i64::MAX;
        }
    }

    /// Whether a release of the pointer should return to the title screen:
    /// only once the game-over screen has shown for long enough.
    pub fn interact(&mut self, state: &GameState, released: bool) -> (r: bool)
        ensures
            r == (state.phase == GamePhase::GameOver && old(self).timer > GAME_OVER_WAIT && released),
            *final(self) == *old(self),
    {
        if state.phase != GamePhase::GameOver {
            return false;
        }
        self.timer > GAME_OVER_WAIT && released
    }
}

} // verus!
