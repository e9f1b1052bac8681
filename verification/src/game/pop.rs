//! Popping: a colored bubble that has grown big enough turns invisible,
//! stays frozen for a moment, and then pops, leaving an empty bubble for
//! the reaper.
use vstd::prelude::*;
use crate::game::state::{GamePhase, GameState, SoundEvent};
use crate::graph::bubble::{Bubble, BubbleKey, BubbleStyle};
use crate::game::burst::lemma_restyle_keeps_sane;
use crate::graph::{keys_valid, sane};
use crate::slots::{issued_key, slot_index};

verus! {

/// How long, in microseconds, a bubble stays frozen before it pops.
pub const POPPING_TIME: i64 = 500_000;

/// A bubble that is popping, with the style it had before and the time
/// left until it pops.
#[derive(Debug, Clone, Copy, PartialEq, Eq, Structural)]
pub struct PendingPop {
    pub bkey: BubbleKey,
    pub style: BubbleStyle,
    pub timer: i64,
}

/// What a finished pop reports: the bubble and the size it had.
#[derive(Debug, Clone, Copy, PartialEq, Eq, Structural)]
pub struct PopDone {
    pub bkey: BubbleKey,
    pub size: i32,
}

/// `k` is the first bubble in key order that is ready to pop.
pub open spec fn first_poppable(bs: Map<u64, Bubble>, k: u64) -> bool {
    &&& bs.dom().contains(k)
    &&& bs[k].style.spec_is_poppable()
    &&& forall|j: u64| bs.dom().contains(j) && (#[trigger] bs[j].style).spec_is_poppable() ==> slot_index(k) <= slot_index(j)
}

/// `bs2` is `bs` with bubble `k` restyled to `style`.
pub open spec fn restyled(bs: Map<u64, Bubble>, bs2: Map<u64, Bubble>, k: u64, style: BubbleStyle) -> bool {
    &&& bs2.dom() == bs.dom()
    &&& bs2[k].style == style
    &&& bs2[k].edges@ == bs[k].edges@
    &&& forall|j: u64| j != k ==> #[trigger] bs2[j] == bs[j]
}

/// The bubble being popped, if any.
#[derive(Debug, Clone, Copy)]
pub struct PopManager {
    pub pending_pop: Option<PendingPop>,
}

impl PopManager {
    pub fn new() -> (r: PopManager)
        ensures
            r.pending_pop is None,
    {
        PopManager { pending_pop: None }
    }

    /// A pending pop names a key that a slot map handed out and has at most
    /// the popping time left.
    pub open spec fn wf(&self) -> bool {
        self.pending_pop matches Some(p) ==> issued_key(p.bkey.id) && 0 < p.timer <= POPPING_TIME
    }

    /// Whether bubble `bkey` is the one being popped.
    pub fn is_handling(&self, bkey: BubbleKey) -> (r: bool)
        ensures
            r == (self.pending_pop matches Some(p) && p.bkey == bkey),
    {
        match &self.pending_pop {
            Some(p) => p.bkey == bkey,
            None => false,
        }
    }

    /// One tick of `dt` microseconds. In the normal phase, with no pop
    /// pending, the first bubble in key order that is ready to pop turns
    /// invisible (keeping its size), becomes the pending pop and the phase
    /// turns to popping. In the popping phase the pending pop's time runs
    /// down; when it runs out the bubble becomes an invisible bubble of size
    /// zero, a pop sound is queued, the phase turns back to normal, and the
    /// bubble and its former size are returned. A pending bubble that is
    /// gone, or no pending pop, ends the popping phase.
    pub fn update(&mut self, state: &mut GameState, dt: i64) -> (r: Option<PopDone>)
        requires
            old(self).wf(),
            0 <= dt,
        ensures
            final(self).wf(),
            final(state).graph.vs() == old(state).graph.vs(),
            final(state).resume_phase == old(state).resume_phase,
            final(state).focus_bubble == old(state).focus_bubble,
            old(state).phase != GamePhase::Normal && old(state).phase != GamePhase::Popping ==> {
                &&& *final(self) == *old(self) && r is None
                &&& final(state).graph.bs() == old(state).graph.bs() && final(state).phase == old(state).phase
                &&& final(state).sound_events@ == old(state).sound_events@
            },
            old(state).phase == GamePhase::Normal ==> {
                &&& r is None && final(state).sound_events@ == old(state).sound_events@
                &&& (old(self).pending_pop is Some || !(exists|k: u64| first_poppable(old(state).graph.bs(), k))) ==> {
                    &&& *final(self) == *old(self) && final(state).graph.bs() == old(state).graph.bs()
                    &&& final(state).phase == GamePhase::Normal
                }
                &&& (old(self).pending_pop is None && exists|k: u64| first_poppable(old(state).graph.bs(), k)) ==>
                    exists|k: u64| #[trigger] first_poppable(old(state).graph.bs(), k) && {
                        let style = old(state).graph.bs()[k].style;
                        &&& final(self).pending_pop == Some(PendingPop { bkey: BubbleKey { id: k }, style, timer: POPPING_TIME })
                        &&& restyled(old(state).graph.bs(), final(state).graph.bs(), k, BubbleStyle::Invisible { size: style->Colored_size })
                        &&& final(state).phase == GamePhase::Popping
                    }
            },
            old(state).phase == GamePhase::Popping ==> match old(self).pending_pop {
                Some(p) => if !old(state).graph.bs().dom().contains(p.bkey.id) {
                    &&& final(self).pending_pop is None && r is None && final(state).phase == GamePhase::Normal
                    &&& final(state).graph.bs() == old(state).graph.bs()
                    &&& final(state).sound_events@ == old(state).sound_events@
                } else if p.timer - dt > 0 {
                    &&& final(self).pending_pop == Some(PendingPop { timer: (p.timer - dt) as i64, ..p }) && r is None
                    &&& final(state).phase == GamePhase::Popping
                    &&& final(state).graph.bs() == old(state).graph.bs()
                    &&& final(state).sound_events@ == old(state).sound_events@
                } else {
                    &&& final(self).pending_pop is None && final(state).phase == GamePhase::Normal
                    &&& restyled(old(state).graph.bs(), final(state).graph.bs(), p.bkey.id, BubbleStyle::Invisible { size: 0 })
                    &&& final(state).sound_events@ == old(state).sound_events@.push(SoundEvent::Pop)
                    &&& r == (match p.style {
                        BubbleStyle::Colored { size, .. } => Some(PopDone { bkey: p.bkey, size }),
                        _ => None,
                    })
                },
                None => {
                    &&& final(self).pending_pop is None && r is None && final(state).phase == GamePhase::Normal
                    &&& final(state).graph.bs() == old(state).graph.bs()
                    &&& final(state).sound_events@ == old(state).sound_events@
                },
            },
            keys_valid(old(state).graph.vs(), old(state).graph.bs()) && sane(old(state).graph.vs(), old(state).graph.bs())
                && (old(state).phase == GamePhase::Popping && old(self).pending_pop is Some
                    && old(state).graph.bs().dom().contains(old(self).pending_pop->0.bkey.id) ==>
                    !old(state).graph.bs()[old(self).pending_pop->0.bkey.id].style.is_open_air())
                ==> keys_valid(final(state).graph.vs(), final(state).graph.bs())
                    && sane(final(state).graph.vs(), final(state).graph.bs()),
    {
        let ghost vs0 = state.graph.vs();
        let ghost bs0 = state.graph.bs();
        match state.phase {
            GamePhase::Normal => {
                if self.pending_pop.is_some() {
                    return None;
                }
                if let Some(bkey) = state.graph.bubbles.get_poppable() {
                    assert(first_poppable(state.graph.bs(), bkey.id));
                    let style = state.graph.bubbles.style(bkey);
                    if let BubbleStyle::Colored { size, .. } = style {
                        state.graph.bubbles.set_style(bkey, BubbleStyle::Invisible { size });
                        proof {
                            if keys_valid(vs0, bs0) && sane(vs0, bs0) {
                                lemma_restyle_keeps_sane(vs0, bs0, state.graph.bs());
                            }
                        }
                        self.pending_pop = Some(PendingPop { bkey, style, timer: POPPING_TIME });
                        state.phase = GamePhase::Popping;
                    }
                }
                None
            },
            GamePhase::Popping => {
                match self.pending_pop {
                    Some(p) => {
                        if !state.graph.bubbles.contains_key(p.bkey) {
                            self.pending_pop = None;
                            state.phase = GamePhase::Normal;
                            return None;
                        }
                        let timer = p.timer - dt;
                        if timer <= 0 {
                            state.graph.bubbles.set_style(p.bkey, BubbleStyle::Invisible { size: 0 });
                            proof {
                                if keys_valid(vs0, bs0) && sane(vs0, bs0) && !bs0[p.bkey.id].style.is_open_air() {
                                    lemma_restyle_keeps_sane(vs0, bs0, state.graph.bs());
                                }
                            }
                            self.pending_pop = None;
                            state.sound_events.push(SoundEvent::Pop);
                            state.phase = GamePhase::Normal;
                            match p.style {
                                BubbleStyle::Colored { size, .. } => Some(PopDone { bkey: p.bkey, size }),
                                _ => None,
                            }
                        } else {
                            self.pending_pop = Some(PendingPop { bkey: p.bkey, style: p.style, timer });
                            None
                        }
                    },
                    None => {
                        state.phase = GamePhase::Normal;
                        None
                    },
                }
            },
            _ => None,
        }
    }
}

} // verus!
