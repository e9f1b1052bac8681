//! Swapping: the player bubble trades places with a colored neighbor,
//! spending one of its swaps; the neighbor's color then bursts outward from
//! the player's old place.
use vstd::prelude::*;
use crate::game::state::{GamePhase, GameState, SoundEvent};
use crate::graph::bubble::{Bubble, BubbleKey, BubbleStyle};
use crate::graph::edge::EdgeKey;
use crate::graph::vertex::{has_edge, Vertex};
use crate::game::burst::lemma_restyle_keeps_sane;
use crate::graph::retrace::law_retrace_keeps_sane;
use crate::graph::{
    bubble_of, closes, closes_at, keys_valid, lemma_closes_same_twins, orbit, rebubbled, sane, twin_of, Graph,
};

verus! {

/// A swap under way: the wall it goes through (on the colored side), the
/// two bubbles, and the style the colored bubble had.
#[derive(Debug, Clone, Copy, PartialEq, Eq, Structural)]
pub struct ActiveSwap {
    pub edge: EdgeKey,
    pub swappable_bkey: BubbleKey,
    pub colored_bkey: BubbleKey,
    pub colored_style: BubbleStyle,
}

/// What starting a swap through the wall of `e` needs: the edge, its twin,
/// both bubbles, boundary walks from both sides that close, and a player
/// bubble on the twin's side with a swap to spend.
pub open spec fn swap_start_ok(vs: Map<u64, Vertex>, bs: Map<u64, Bubble>, e: EdgeKey) -> bool {
    let t = twin_of(vs, e);
    &&& has_edge(vs, e)
    &&& has_edge(vs, t)
    &&& bs.dom().contains(bubble_of(vs, e).id)
    &&& bs.dom().contains(bubble_of(vs, t).id)
    &&& closes(vs, e)
    &&& closes(vs, t)
    &&& bs[bubble_of(vs, t).id].style matches BubbleStyle::Swappable { swaps_left } && swaps_left > i32::MIN
}

/// `(vs2, bs2)` is `(vs, bs)` after a swap through the wall of `e`
/// started: both bubbles got their boundaries traced anew from the two
/// sides of the wall, and the colored bubble became the player bubble
/// with one swap fewer.
pub open spec fn swap_started(vs: Map<u64, Vertex>, bs: Map<u64, Bubble>, e: EdgeKey, vs2: Map<u64, Vertex>, bs2: Map<u64, Bubble>) -> bool {
    let t = twin_of(vs, e);
    let colored = bubble_of(vs, e);
    let swappable = bubble_of(vs, t);
    let chain = seq![(colored, orbit(vs, e)), (swappable, orbit(vs, t))];
    exists|bm: Map<u64, Bubble>| #[trigger] rebubbled(vs, bs, vs2, bm, chain) && {
        &&& bs2.dom() == bm.dom()
        &&& bs2[colored.id].style == BubbleStyle::Swappable { swaps_left: (bs[swappable.id].style->swaps_left - 1) as i32 }
        &&& bs2[colored.id].edges@ == bm[colored.id].edges@
        &&& forall|j: u64| j != colored.id ==> #[trigger] bs2[j] == bm[j]
    }
}

/// How long, in microseconds, a swap takes.
pub const SWAP_TIME: i64 = 200_000;

/// The swap under way, if any, and how long it has run.
#[derive(Debug, Clone, Copy)]
pub struct SwapManager {
    pub active_swap: Option<ActiveSwap>,
    /// Microseconds since the swap under way began.
    pub elapsed: i64,
}

impl SwapManager {
    pub fn new() -> (r: SwapManager)
        ensures
            r.active_swap is None,
            r.elapsed == 0,
    {
        SwapManager { active_swap: None, elapsed: 0 }
    }

    /// A swap runs for less than the swap time.
    pub open spec fn wf(&self) -> bool {
        0 <= self.elapsed < SWAP_TIME
    }

    /// Whether bubble `bkey` takes part in the swap under way.
    pub fn is_handling(&self, bkey: BubbleKey) -> (r: bool)
        ensures
            r == (self.active_swap matches Some(s) && (s.swappable_bkey == bkey || s.colored_bkey == bkey)),
    {
        match &self.active_swap {
            Some(s) => s.swappable_bkey == bkey || s.colored_bkey == bkey,
            None => false,
        }
    }

    /// Starts a swap through the wall of `edge_key`, whose own side is the
    /// colored bubble and whose twin's side is the player bubble: both get
    /// their boundaries traced anew from the two sides of the wall, the
    /// colored bubble becomes the player bubble with one swap fewer, and the
    /// swap is recorded with the colored bubble's former style.
    pub fn start_swap(&mut self, graph: &mut Graph, edge_key: EdgeKey)
        requires
            swap_start_ok(old(graph).vs(), old(graph).bs(), edge_key),
        ensures
            swap_started(old(graph).vs(), old(graph).bs(), edge_key, final(graph).vs(), final(graph).bs()),
            final(self).active_swap == Some(ActiveSwap {
                edge: edge_key,
                swappable_bkey: bubble_of(old(graph).vs(), twin_of(old(graph).vs(), edge_key)),
                colored_bkey: bubble_of(old(graph).vs(), edge_key),
                colored_style: old(graph).bs()[bubble_of(old(graph).vs(), edge_key).id].style,
            }),
            keys_valid(old(graph).vs(), old(graph).bs()) && sane(old(graph).vs(), old(graph).bs())
                && !old(graph).bs()[bubble_of(old(graph).vs(), edge_key).id].style.is_open_air()
                ==> keys_valid(final(graph).vs(), final(graph).bs()) && sane(final(graph).vs(), final(graph).bs()),
    {
        let ghost vs0 = graph.vs();
        let ghost bs0 = graph.bs();
        let twin_key = graph.vertices.get_edge(edge_key).twin;
        let colored_bkey = graph.vertices.get_edge(edge_key).bubble;
        let swappable_bkey = graph.vertices.get_edge(twin_key).bubble;
        graph.rebubble(colored_bkey, edge_key);
        let ghost vs1 = graph.vs();
        let ghost bs1 = graph.bs();
        proof {
            let n = choose|n: nat| closes_at(vs0, twin_key, n);
            lemma_closes_same_twins(vs0, vs1, twin_key, n);
        }
        graph.rebubble(swappable_bkey, twin_key);
        let ghost bm = graph.bs();
        let colored_style = graph.bubbles.style(colored_bkey);
        let swaps_left = match graph.bubbles.style(swappable_bkey) {
            BubbleStyle::Swappable { swaps_left } => swaps_left,
            _ => 0,
        };
        proof {
            assert(bm[swappable_bkey.id].style == bs0[swappable_bkey.id].style);
            assert(colored_style == bs0[colored_bkey.id].style);
        }
        graph.bubbles.set_style(colored_bkey, BubbleStyle::Swappable { swaps_left: swaps_left - 1 });
        proof {
            if keys_valid(vs0, bs0) && sane(vs0, bs0) && !bs0[colored_bkey.id].style.is_open_air() {
                law_retrace_keeps_sane(vs0, bs0, edge_key, vs1, bs1);
                assert(has_edge(vs0, twin_key));
                assert(bubble_of(vs1, twin_key) == swappable_bkey);
                assert(closes(vs1, twin_key));
                law_retrace_keeps_sane(vs1, bs1, twin_key, graph.vs(), bm);
                lemma_restyle_keeps_sane(graph.vs(), bm, graph.bs());
            }
        }
        proof {
            let chain = seq![(colored_bkey, orbit(vs0, edge_key)), (swappable_bkey, orbit(vs0, twin_key))];
            assert(orbit(vs1, twin_key) == orbit(vs0, twin_key));
            crate::graph::lemma_rebubbled_start(vs0, bs0);
            crate::graph::lemma_rebubbled_push(vs0, bs0, vs0, bs0, vs1, bs1, Seq::empty(), colored_bkey, orbit(vs0, edge_key));
            crate::graph::lemma_rebubbled_push(vs0, bs0, vs1, bs1, graph.vs(), bm,
                Seq::empty().push((colored_bkey, orbit(vs0, edge_key))), swappable_bkey, orbit(vs0, twin_key));
            assert(Seq::empty().push((colored_bkey, orbit(vs0, edge_key))).push((swappable_bkey, orbit(vs0, twin_key))) =~= chain);
            assert(rebubbled(vs0, bs0, graph.vs(), bm, chain));
        }
        self.active_swap = Some(ActiveSwap { edge: edge_key, swappable_bkey, colored_bkey, colored_style });
    }

    /// The player starts a swap through the wall of `edge_key`: the swap
    /// starts, the phase turns to swapping and a swap sound is queued.
    pub fn begin(&mut self, state: &mut GameState, edge_key: EdgeKey)
        requires
            swap_start_ok(old(state).graph.vs(), old(state).graph.bs(), edge_key),
        ensures
            swap_started(old(state).graph.vs(), old(state).graph.bs(), edge_key, final(state).graph.vs(), final(state).graph.bs()),
            final(self).active_swap == Some(ActiveSwap {
                edge: edge_key,
                swappable_bkey: bubble_of(old(state).graph.vs(), twin_of(old(state).graph.vs(), edge_key)),
                colored_bkey: bubble_of(old(state).graph.vs(), edge_key),
                colored_style: old(state).graph.bs()[bubble_of(old(state).graph.vs(), edge_key).id].style,
            }),
            final(state).phase == GamePhase::Swapping,
            final(state).sound_events@ == old(state).sound_events@.push(SoundEvent::Swap),
            final(state).focus_bubble == old(state).focus_bubble,
            final(state).resume_phase == old(state).resume_phase,
            final(self).elapsed == 0,
            keys_valid(old(state).graph.vs(), old(state).graph.bs()) && sane(old(state).graph.vs(), old(state).graph.bs())
                && !old(state).graph.bs()[bubble_of(old(state).graph.vs(), edge_key).id].style.is_open_air()
                ==> keys_valid(final(state).graph.vs(), final(state).graph.bs())
                    && sane(final(state).graph.vs(), final(state).graph.bs()),
    {
        self.start_swap(&mut state.graph, edge_key);
        state.phase = GamePhase::Swapping;
        state.sound_events.push(SoundEvent::Swap);
        self.elapsed = 0;
    }

    /// Ends the swap under way: the former player bubble takes the colored
    /// bubble's former style, becomes the focus of a burst, and the phase
    /// turns to bursting. Nothing happens outside the swapping phase or
    /// with no swap under way.
    pub fn finish(&mut self, state: &mut GameState)
        requires
            old(state).phase == GamePhase::Swapping && old(self).active_swap is Some ==>
                old(state).graph.bs().dom().contains(old(self).active_swap->0.swappable_bkey.id),
        ensures
            final(state).graph.vs() == old(state).graph.vs(),
            final(state).sound_events@ == old(state).sound_events@,
            final(state).resume_phase == old(state).resume_phase,
            final(self).elapsed == old(self).elapsed,
            !(old(state).phase == GamePhase::Swapping && old(self).active_swap is Some) ==> {
                &&& *final(self) == *old(self)
                &&& final(state).graph.bs() == old(state).graph.bs()
                &&& final(state).phase == old(state).phase && final(state).focus_bubble == old(state).focus_bubble
            },
            old(state).phase == GamePhase::Swapping && old(self).active_swap is Some ==> {
                let s = old(self).active_swap->0;
                &&& final(self).active_swap is None
                &&& final(state).graph.bs().dom() == old(state).graph.bs().dom()
                &&& final(state).graph.bs()[s.swappable_bkey.id].style == s.colored_style
                &&& final(state).graph.bs()[s.swappable_bkey.id].edges@ == old(state).graph.bs()[s.swappable_bkey.id].edges@
                &&& forall|j: u64| j != s.swappable_bkey.id ==> #[trigger] final(state).graph.bs()[j] == old(state).graph.bs()[j]
                &&& final(state).focus_bubble == Some(s.swappable_bkey)
                &&& final(state).phase == GamePhase::Bursting
            },
            keys_valid(old(state).graph.vs(), old(state).graph.bs()) && sane(old(state).graph.vs(), old(state).graph.bs())
                && (old(state).phase == GamePhase::Swapping && old(self).active_swap is Some ==>
                    !old(self).active_swap->0.colored_style.is_open_air()
                    && !old(state).graph.bs()[old(self).active_swap->0.swappable_bkey.id].style.is_open_air())
                ==> keys_valid(final(state).graph.vs(), final(state).graph.bs())
                    && sane(final(state).graph.vs(), final(state).graph.bs()),
    {
        if state.phase != GamePhase::Swapping {
            return;
        }
        if let Some(s) = self.active_swap {
            let ghost bs0 = state.graph.bs();
            state.graph.bubbles.set_style(s.swappable_bkey, s.colored_style);
            proof {
                if keys_valid(state.graph.vs(), bs0) && sane(state.graph.vs(), bs0) && !s.colored_style.is_open_air()
                    && !bs0[s.swappable_bkey.id].style.is_open_air() {
                    lemma_restyle_keeps_sane(state.graph.vs(), bs0, state.graph.bs());
                }
            }
            state.focus_bubble = Some(s.swappable_bkey);
            state.phase = GamePhase::Bursting;
            self.active_swap = None;
        }
    }

    /// One tick of `dt` microseconds of the swapping phase: the swap under
    /// way runs on, and once it has run for the swap time it ends as
    /// `finish` ends it. Nothing happens outside that phase or with no
    /// swap under way.
    pub fn update(&mut self, state: &mut GameState, dt: i64)
        requires
            old(self).wf(),
            0 <= dt,
            old(state).phase == GamePhase::Swapping && old(self).active_swap is Some ==>
                old(state).graph.bs().dom().contains(old(self).active_swap->0.swappable_bkey.id),
        ensures
            final(self).wf(),
            final(state).graph.vs() == old(state).graph.vs(),
            final(state).sound_events@ == old(state).sound_events@,
            final(state).resume_phase == old(state).resume_phase,
            !(old(state).phase == GamePhase::Swapping && old(self).active_swap is Some) ==> {
                &&& *final(self) == *old(self)
                &&& final(state).graph.bs() == old(state).graph.bs()
                &&& final(state).phase == old(state).phase && final(state).focus_bubble == old(state).focus_bubble
            },
            old(state).phase == GamePhase::Swapping && old(self).active_swap is Some && old(self).elapsed + dt < SWAP_TIME ==> {
                &&& final(self).active_swap == old(self).active_swap
                &&& final(self).elapsed == old(self).elapsed + dt
                &&& final(state).graph.bs() == old(state).graph.bs()
                &&& final(state).phase == old(state).phase && final(state).focus_bubble == old(state).focus_bubble
            },
            old(state).phase == GamePhase::Swapping && old(self).active_swap is Some && old(self).elapsed + dt >= SWAP_TIME ==> {
                let s = old(self).active_swap->0;
                &&& final(self).active_swap is None
                &&& final(self).elapsed == 0
                &&& final(state).graph.bs().dom() == old(state).graph.bs().dom()
                &&& final(state).graph.bs()[s.swappable_bkey.id].style == s.colored_style
                &&& final(state).graph.bs()[s.swappable_bkey.id].edges@ == old(state).graph.bs()[s.swappable_bkey.id].edges@
                &&& forall|j: u64| j != s.swappable_bkey.id ==> #[trigger] final(state).graph.bs()[j] == old(state).graph.bs()[j]
                &&& final(state).focus_bubble == Some(s.swappable_bkey)
                &&& final(state).phase == GamePhase::Bursting
            },
            keys_valid(old(state).graph.vs(), old(state).graph.bs()) && sane(old(state).graph.vs(), old(state).graph.bs())
                && (old(state).phase == GamePhase::Swapping && old(self).active_swap is Some ==>
                    !old(self).active_swap->0.colored_style.is_open_air()
                    && !old(state).graph.bs()[old(self).active_swap->0.swappable_bkey.id].style.is_open_air())
                ==> keys_valid(final(state).graph.vs(), final(state).graph.bs())
                    && sane(final(state).graph.vs(), final(state).graph.bs()),
    {
        if state.phase != GamePhase::Swapping || self.active_swap.is_none() {
            return;
        }
        if dt < SWAP_TIME - self.elapsed {
            self.elapsed = self.elapsed + dt;
        } else {
            self.finish(state);
            self.elapsed = 0;
        }
    }
}

} // verus!
