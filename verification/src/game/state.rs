use vstd::prelude::*;
use crate::graph::bubble::BubbleKey;
use crate::graph::Graph;

verus! {

/// The phase of play. The game is in one phase at a time, and the phase
/// decides which managers act.
#[derive(Debug, Clone, Copy, PartialEq, Eq, Structural)]
pub enum GamePhase {
    /// Physics runs, bubbles spawn, and the player may interact.
    Normal,
    /// A matching cluster of bubbles is disappearing.
    Popping,
    /// The player bubble is trading places with a target bubble.
    Swapping,
    /// Adjacent matching bubbles are merging after a swap.
    Bursting,
    /// The player has run out of swaps.
    GameOver,
    /// The game is paused; it goes on in the phase it was paused in.
    Paused,
}

/// A sound that the rules ask for; the sound player consumes them.
#[derive(Debug, Clone, Copy, PartialEq, Eq, Structural)]
pub enum SoundEvent {
    Pop,
    Spawn,
    Burst,
    Swap,
}

/// The whole state of a game.
pub struct GameState {
    pub graph: Graph,
    pub phase: GamePhase,
    pub sound_events: Vec<SoundEvent>,
    /// The bubble that started a burst sequence and survives its merges.
    pub focus_bubble: Option<BubbleKey>,
    /// While paused, the phase the game goes on in.
    pub resume_phase: GamePhase,
}

impl GameState {
    /// A game on the given graph, in the normal phase with no events.
    pub fn new(graph: Graph) -> (r: GameState)
        ensures
            r.graph == graph,
            r.phase == GamePhase::Normal,
            r.sound_events@ == Seq::<SoundEvent>::empty(),
            r.focus_bubble is None,
            r.resume_phase == GamePhase::Normal,
    {
        GameState {
            graph,
            phase: GamePhase::Normal,
            sound_events: Vec::new(),
            focus_bubble: None,
            resume_phase: GamePhase::Normal,
        }
    }
}

} // verus!
