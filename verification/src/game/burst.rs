//! Bursting: after a swap, the walls between the focus bubble and adjacent
//! bubbles of its color go one by one, each after a short freeze.
use vstd::prelude::*;
use crate::game::state::{GamePhase, GameState, SoundEvent};
use crate::graph::bubble::{Bubble, BubbleKey, BubbleStyle};
use crate::graph::edge::EdgeKey;
use crate::graph::vertex::{has_edge, Vertex};
use crate::graph::{
    bubble_of, degenerate_edges, merged, remove_blocked, remove_post, remove_reads_ok, slide_post, slide_trace,
    slides_post, twin_of, Graph,
};
use crate::graph::flip::{lemma_sane_lists_follow, lists_follow, slides_tame};
use crate::graph::merge::{law_remove_keeps_sane, law_remove_ready, lemma_edge_facts};
use crate::graph::{boundary_ok, keys_valid, listed, remove_case, sane, sole_open_air};
use crate::slots::{odd_version, slot_index};

verus! {

/// How long, in microseconds, a wall stays frozen before it bursts.
pub const FREEZE_DURATION: i64 = 500_000;

/// The most swaps the player bubble can hold.
pub const MAX_SWAPS: i32 = 5;

/// What a burstability test of `e` reads exists: the edge, its twin, and,
/// when their bubbles differ, both bubbles.
pub open spec fn burst_reads_ok(vs: Map<u64, Vertex>, bs: Map<u64, Bubble>, e: EdgeKey) -> bool {
    &&& has_edge(vs, e)
    &&& has_edge(vs, twin_of(vs, e))
    &&& bubble_of(vs, e) != bubble_of(vs, twin_of(vs, e)) ==> {
        &&& bs.dom().contains(bubble_of(vs, e).id)
        &&& bs.dom().contains(bubble_of(vs, twin_of(vs, e)).id)
    }
}

/// The wall of `e` can burst: it separates two different colored bubbles
/// of the same color.
pub open spec fn burstable(vs: Map<u64, Vertex>, bs: Map<u64, Bubble>, e: EdgeKey) -> bool {
    let b1 = bubble_of(vs, e);
    let b2 = bubble_of(vs, twin_of(vs, e));
    &&& b1 != b2
    &&& match (bs[b1.id].style, bs[b2.id].style) {
        (BubbleStyle::Colored { color: c1, .. }, BubbleStyle::Colored { color: c2, .. }) => c1 == c2,
        _ => false,
    }
}

/// The first edge of `list` whose wall can burst.
pub open spec fn first_burstable(vs: Map<u64, Vertex>, bs: Map<u64, Bubble>, list: Seq<EdgeKey>) -> Option<EdgeKey>
    decreases list.len(),
{
    if list.len() == 0 {
        None
    } else if burstable(vs, bs, list[0]) {
        Some(list[0])
    } else {
        first_burstable(vs, bs, list.drop_first())
    }
}

/// The first edge of bubble `b`'s boundary whose wall can burst; none when
/// there is no such bubble.
pub open spec fn burstable_in(vs: Map<u64, Vertex>, bs: Map<u64, Bubble>, b: BubbleKey) -> Option<EdgeKey> {
    if bs.dom().contains(b.id) {
        first_burstable(vs, bs, bs[b.id].edges@)
    } else {
        None
    }
}

/// What a search of bubble `b` for a burstable wall reads exists.
pub open spec fn bubble_burst_reads_ok(vs: Map<u64, Vertex>, bs: Map<u64, Bubble>, b: BubbleKey) -> bool {
    &&& odd_version(b.id)
    &&& bs.dom().contains(b.id) ==> forall|i: int| 0 <= i < bs[b.id].edges@.len() ==>
        burst_reads_ok(vs, bs, #[trigger] bs[b.id].edges@[i])
}

/// `k` is the player bubble: the first swappable bubble in key order.
pub open spec fn is_player(bs: Map<u64, Bubble>, k: u64) -> bool {
    &&& bs.dom().contains(k)
    &&& bs[k].style.is_swappable()
    &&& forall|j: u64| bs.dom().contains(j) && (#[trigger] bs[j].style).is_swappable() ==> slot_index(k) <= slot_index(j)
}

/// `bs2` is `bs` after the player bubble, if there is one, gained a swap,
/// up to the most it can hold.
pub open spec fn player_rewarded(bs: Map<u64, Bubble>, bs2: Map<u64, Bubble>) -> bool {
    if exists|k: u64| is_player(bs, k) {
        exists|k: u64| #[trigger] is_player(bs, k) && {
            &&& bs2.dom() == bs.dom()
            &&& bs2[k].edges@ == bs[k].edges@
            &&& bs2[k].style == (match bs[k].style {
                BubbleStyle::Swappable { swaps_left } => BubbleStyle::Swappable {
                    swaps_left: if swaps_left < MAX_SWAPS { (swaps_left + 1) as i32 } else { swaps_left },
                },
                s => s,
            })
            &&& forall|j: u64| j != k && bs.dom().contains(j) ==> #[trigger] bs2[j] == bs[j]
        }
    } else {
        bs2 == bs
    }
}

/// What a burst of the wall of `e` needs: what it reads exists, and a wall
/// that can burst can be removed.
pub open spec fn burst_ok(vs: Map<u64, Vertex>, bs: Map<u64, Bubble>, e: EdgeKey) -> bool {
    &&& burst_reads_ok(vs, bs, e)
    &&& burstable(vs, bs, e) ==> remove_reads_ok(vs, bs, e)
}

/// `(vs2, bs2)` is what a burst of the wall of `e` makes of `(vs, bs)`:
/// nothing when the wall cannot burst; otherwise the wall is removed and
/// the player bubble gains a swap.
pub open spec fn burst_post(
    vs: Map<u64, Vertex>,
    bs: Map<u64, Bubble>,
    e: EdgeKey,
    vs2: Map<u64, Vertex>,
    bs2: Map<u64, Bubble>,
) -> bool {
    &&& !burstable(vs, bs, e) ==> vs2 == vs && bs2 == bs
    &&& burstable(vs, bs, e) ==> exists|bm: Map<u64, Bubble>|
        #[trigger] remove_post(vs, bs, e, vs2, bm) && player_rewarded(bm, bs2)
}

/// The first burstable edge of a list is an edge of the list that can
/// burst, and none is found only when no edge of the list can burst.
pub proof fn lemma_first_burstable(vs: Map<u64, Vertex>, bs: Map<u64, Bubble>, list: Seq<EdgeKey>)
    ensures
        first_burstable(vs, bs, list) matches Some(e) ==> list.contains(e) && burstable(vs, bs, e),
        first_burstable(vs, bs, list) is None ==> forall|i: int| 0 <= i < list.len() ==> !burstable(vs, bs, #[trigger] list[i]),
    decreases list.len(),
{
    if list.len() > 0 {
        lemma_first_burstable(vs, bs, list.drop_first());
        if !burstable(vs, bs, list[0]) {
            if let Some(e) = first_burstable(vs, bs, list.drop_first()) {
                let j = choose|j: int| 0 <= j < list.drop_first().len() && list.drop_first()[j] == e;
                assert(list[j + 1] == e);
            }
            assert forall|i: int| 0 <= i < list.len() && first_burstable(vs, bs, list) is None implies
                !burstable(vs, bs, #[trigger] list[i]) by {
                if i > 0 {
                    assert(list[i] == list.drop_first()[i - 1]);
                }
            }
        } else {
            assert(list[0] == list[0]);
        }
    }
}

/// The walls of a bubble whose twins lie on the bubble too are slid in
/// turn; no bubble comes or goes.
pub proof fn lemma_slides_keep_bubbles(vs: Map<u64, Vertex>, bs: Map<u64, Bubble>, es: Seq<EdgeKey>, vs2: Map<u64, Vertex>, bs2: Map<u64, Bubble>)
    requires
        slides_post(vs, bs, es, vs2, bs2),
    ensures
        bs2.dom() == bs.dom(),
{
    let states = choose|states: Seq<(Map<u64, Vertex>, Map<u64, Bubble>)>|
        #[trigger] slide_trace(states, es) && states[0] == (vs, bs) && states.last() == (vs2, bs2);
    lemma_trace_keeps_bubbles(states, es, es.len() as int);
}

/// Each state of a trace of slides has the bubbles of the first.
proof fn lemma_trace_keeps_bubbles(states: Seq<(Map<u64, Vertex>, Map<u64, Bubble>)>, es: Seq<EdgeKey>, k: int)
    requires
        slide_trace(states, es),
        0 <= k <= es.len(),
    ensures
        states[k].1.dom() == states[0].1.dom(),
    decreases k,
{
    if k > 0 {
        lemma_trace_keeps_bubbles(states, es, k - 1);
        assert(slide_post(states[k - 1].0, states[k - 1].1, es[k - 1], states[k].0, states[k].1));
    }
}

/// While bursting, the focus bubble stays: a burst of one of its walls
/// removes the bubble on the wall's other side, never the focus bubble
/// itself.
pub proof fn law_burst_keeps_focus(vs: Map<u64, Vertex>, bs: Map<u64, Bubble>, e: EdgeKey, f: BubbleKey, vs2: Map<u64, Vertex>, bs2: Map<u64, Bubble>)
    requires
        bs.dom().contains(f.id),
        bubble_of(vs, e) == f,
        burst_post(vs, bs, e, vs2, bs2),
    ensures
        bs2.dom().contains(f.id),
{
    if burstable(vs, bs, e) {
        let bm = choose|bm: Map<u64, Bubble>| #[trigger] remove_post(vs, bs, e, vs2, bm) && player_rewarded(bm, bs2);
        if !remove_blocked(vs, bs, e) {
            let (vm, bm1) = choose|vm: Map<u64, Vertex>, bm1: Map<u64, Bubble>|
                #[trigger] merged(vs, bs, e, vm, bm1) && slides_post(vm, bm1, degenerate_edges(vm, bm1, bubble_of(vs, e)), vs2, bm);
            lemma_slides_keep_bubbles(vm, bm1, degenerate_edges(vm, bm1, bubble_of(vs, e)), vs2, bm);
            assert(bm1.dom().contains(f.id));
        }
        if exists|k: u64| is_player(bm, k) {
            let k = choose|k: u64| #[trigger] is_player(bm, k) && bs2.dom() == bm.dom();
        }
    }
}

/// The wall that bursting freezes next is a burstable wall of the focus
/// bubble; when there is none, no wall of the focus bubble can burst.
pub proof fn law_burst_target_on_focus(vs: Map<u64, Vertex>, bs: Map<u64, Bubble>, f: BubbleKey)
    ensures
        burstable_in(vs, bs, f) matches Some(e) ==> bs.dom().contains(f.id) && bs[f.id].edges@.contains(e)
            && burstable(vs, bs, e),
        burstable_in(vs, bs, f) is None && bs.dom().contains(f.id) ==>
            forall|i: int| 0 <= i < bs[f.id].edges@.len() ==> !burstable(vs, bs, #[trigger] bs[f.id].edges@[i]),
{
    if bs.dom().contains(f.id) {
        lemma_first_burstable(vs, bs, bs[f.id].edges@);
    }
}

/// A burst of the wall of `e` can be made on a graph of at most 333
/// vertices that keeps its invariants, when a wall that can burst is one
/// whose removal the removal law makes ready.
pub proof fn law_burst_ready(vs: Map<u64, Vertex>, bs: Map<u64, Bubble>, e: EdgeKey)
    requires
        keys_valid(vs, bs),
        sane(vs, bs),
        vs.dom().finite(),
        bs.dom().finite(),
        3 * vs.dom().len() <= 999,
        has_edge(vs, e),
        burstable(vs, bs, e) && !remove_blocked(vs, bs, e) ==> {
            &&& !(remove_case(vs, e) == 1 && e.spec_prev_on_vertex() == twin_of(vs, twin_of(vs, e).spec_next_on_vertex()))
            &&& bs[bubble_of(vs, e).id].style.can_merge(bs[bubble_of(vs, twin_of(vs, e)).id].style)
            &&& forall|vm: Map<u64, Vertex>, bm: Map<u64, Bubble>| #[trigger] merged(vs, bs, e, vm, bm) ==>
                slides_tame(vm, bm, degenerate_edges(vm, bm, bubble_of(vs, e)))
        },
    ensures
        burst_ok(vs, bs, e),
{
    lemma_edge_facts(vs, bs, e);
    lemma_sane_lists_follow(vs, bs);
    reveal(lists_follow);
    if burstable(vs, bs, e) {
        law_remove_ready(vs, bs, e);
    }
}

/// In a graph that keeps its invariants, what a search of bubble `b` for a
/// burstable wall reads exists, when `b`'s key has an odd version.
pub proof fn lemma_sane_burst_reads(vs: Map<u64, Vertex>, bs: Map<u64, Bubble>, b: BubbleKey)
    requires
        keys_valid(vs, bs),
        sane(vs, bs),
        odd_version(b.id),
    ensures
        bubble_burst_reads_ok(vs, bs, b),
{
    lemma_sane_lists_follow(vs, bs);
    reveal(lists_follow);
    if bs.dom().contains(b.id) {
        assert forall|i: int| 0 <= i < bs[b.id].edges@.len() implies burst_reads_ok(vs, bs, #[trigger] bs[b.id].edges@[i]) by {
            let e = bs[b.id].edges@[i];
            assert(bs[b.id].edges@.contains(e));
            lemma_edge_facts(vs, bs, e);
        }
    }
}

/// Changing the styles of bubbles but not which bubble is the open air,
/// nor any list, keeps the invariants of the graph and the validity of its
/// keys.
pub proof fn lemma_restyle_keeps_sane(vs: Map<u64, Vertex>, bs: Map<u64, Bubble>, bs2: Map<u64, Bubble>)
    requires
        keys_valid(vs, bs),
        sane(vs, bs),
        bs2.dom() == bs.dom(),
        forall|b: u64| #[trigger] bs.dom().contains(b) ==> bs2[b].edges@ == bs[b].edges@
            && bs2[b].style.is_open_air() == bs[b].style.is_open_air(),
    ensures
        keys_valid(vs, bs2),
        sane(vs, bs2),
{
    assert forall|b: u64, i: int| bs2.dom().contains(b) && 0 <= i < bs2[b].edges@.len() implies
        #[trigger] boundary_ok(vs, bs2, b, i) by {
        assert(boundary_ok(vs, bs, b, i));
    }
    assert forall|e: EdgeKey| #[trigger] has_edge(vs, e) implies listed(bs2, e) by {
        assert(listed(bs, e));
        let (b, i) = choose|b: u64, i: int| bs.dom().contains(b) && 0 <= i < bs[b].edges@.len() && #[trigger] bs[b].edges@[i] == e;
        assert(bs2[b].edges@[i] == e);
    }
    let o = choose|o: u64| sole_open_air(bs, o);
    assert(sole_open_air(bs2, o)) by {
        assert forall|j: u64| bs2.dom().contains(j) && (#[trigger] bs2[j].style).is_open_air() implies j == o by {
            assert(bs[j].style.is_open_air());
        }
    }
}

/// A bursting step at focus `f` on the wall of `e` can be made on a graph
/// of at most 333 vertices that keeps its invariants, when a wall that can
/// burst is one whose removal the removal law makes ready: the search of
/// `f` reads what exists, the burst can be made, and after it the search
/// of `f` again reads what exists.
pub proof fn law_burst_step_ready(vs: Map<u64, Vertex>, bs: Map<u64, Bubble>, f: BubbleKey, e: EdgeKey)
    requires
        keys_valid(vs, bs),
        sane(vs, bs),
        vs.dom().finite(),
        bs.dom().finite(),
        3 * vs.dom().len() <= 999,
        odd_version(f.id),
        has_edge(vs, e),
        burstable(vs, bs, e) && !remove_blocked(vs, bs, e) ==> {
            &&& !(remove_case(vs, e) == 1 && e.spec_prev_on_vertex() == twin_of(vs, twin_of(vs, e).spec_next_on_vertex()))
            &&& bs[bubble_of(vs, e).id].style.can_merge(bs[bubble_of(vs, twin_of(vs, e)).id].style)
            &&& forall|vm: Map<u64, Vertex>, bm: Map<u64, Bubble>| #[trigger] merged(vs, bs, e, vm, bm) ==>
                slides_tame(vm, bm, degenerate_edges(vm, bm, bubble_of(vs, e)))
        },
    ensures
        bubble_burst_reads_ok(vs, bs, f),
        burst_ok(vs, bs, e),
        forall|vs2: Map<u64, Vertex>, bs2: Map<u64, Bubble>| #[trigger] burst_post(vs, bs, e, vs2, bs2) ==>
            bubble_burst_reads_ok(vs2, bs2, f),
{
    lemma_sane_burst_reads(vs, bs, f);
    law_burst_ready(vs, bs, e);
    assert forall|vs2: Map<u64, Vertex>, bs2: Map<u64, Bubble>| #[trigger] burst_post(vs, bs, e, vs2, bs2) implies
        bubble_burst_reads_ok(vs2, bs2, f) by {
        if burstable(vs, bs, e) {
            let bm = choose|bm: Map<u64, Bubble>| #[trigger] remove_post(vs, bs, e, vs2, bm) && player_rewarded(bm, bs2);
            if remove_blocked(vs, bs, e) {
                assert(vs2 == vs && bm == bs);
            } else {
                law_remove_keeps_sane(vs, bs, e, vs2, bm);
            }
            if exists|k: u64| is_player(bm, k) {
                let k = choose|k: u64| #[trigger] is_player(bm, k) && {
                    &&& bs2.dom() == bm.dom()
                    &&& bs2[k].edges@ == bm[k].edges@
                    &&& bs2[k].style == (match bm[k].style {
                        BubbleStyle::Swappable { swaps_left } => BubbleStyle::Swappable {
                            swaps_left: if swaps_left < MAX_SWAPS { (swaps_left + 1) as i32 } else { swaps_left },
                        },
                        s => s,
                    })
                    &&& forall|j: u64| j != k && bm.dom().contains(j) ==> #[trigger] bs2[j] == bm[j]
                };
                lemma_restyle_keeps_sane(vs2, bm, bs2);
            }
            lemma_sane_burst_reads(vs2, bs2, f);
        }
    }
}

/// What a bursting phase keeps of its focus bubble `f`: the bubble stays;
/// while the phase goes on, `f` is still the focus and the frozen wall is
/// one of its walls; when the phase ends, it ends for normal play with no
/// focus and no frozen wall, and no wall of `f` can burst.
pub open spec fn focus_kept(
    vs: Map<u64, Vertex>,
    bs: Map<u64, Bubble>,
    phase: GamePhase,
    focus: Option<BubbleKey>,
    active: Option<EdgeKey>,
    f: BubbleKey,
) -> bool {
    &&& bs.dom().contains(f.id)
    &&& phase == GamePhase::Bursting ==> focus == Some(f) && active is Some && bs[f.id].edges@.contains(active->0)
    &&& phase != GamePhase::Bursting ==> {
        &&& phase == GamePhase::Normal && focus is None && active is None
        &&& forall|i: int| 0 <= i < bs[f.id].edges@.len() ==> !burstable(vs, bs, #[trigger] bs[f.id].edges@[i])
    }
}

/// The wall being frozen before it bursts, and how long it stays frozen.
pub struct BurstManager {
    /// The frozen wall; when present it is an edge of the focus bubble.
    pub active_edge: Option<EdgeKey>,
    /// Microseconds until the frozen wall bursts.
    pub timer: i64,
}

impl BurstManager {
    pub fn new() -> (r: BurstManager)
        ensures
            r.active_edge is None,
            r.timer == 0,
    {
        BurstManager { active_edge: None, timer: 0 }
    }

    /// The wall frozen, if any, is frozen for at most the freeze duration.
    pub open spec fn wf(&self) -> bool {
        self.active_edge is Some ==> 0 < self.timer <= FREEZE_DURATION
    }

    /// Whether the wall of `ekey` can burst: it separates two different
    /// colored bubbles of the same color.
    pub fn is_burstable(&self, graph: &Graph, ekey: EdgeKey) -> (r: bool)
        requires
            burst_reads_ok(graph.vs(), graph.bs(), ekey),
        ensures
            r == burstable(graph.vs(), graph.bs(), ekey),
    {
        let edge = graph.vertices.get_edge(ekey);
        let twin = graph.vertices.get_edge(edge.twin);
        if edge.bubble == twin.bubble {
            return false;
        }
        let s1 = graph.bubbles.style(edge.bubble);
        let s2 = graph.bubbles.style(twin.bubble);
        match (s1, s2) {
            (BubbleStyle::Colored { color: c1, .. }, BubbleStyle::Colored { color: c2, .. }) => c1 == c2,
            _ => false,
        }
    }

    /// The first edge of bubble `bkey`'s boundary whose wall can burst.
    pub fn find_burstable_edge_in_bubble(&self, graph: &Graph, bkey: BubbleKey) -> (r: Option<EdgeKey>)
        requires
            bubble_burst_reads_ok(graph.vs(), graph.bs(), bkey),
        ensures
            r == burstable_in(graph.vs(), graph.bs(), bkey),
    {
        if !graph.bubbles.contains_key(bkey) {
            return None;
        }
        let edges = &graph.bubbles.get(bkey).edges;
        let ghost list = edges@;
        let mut i: usize = 0;
        proof {
            assert(list.skip(0) =~= list);
        }
        while i < edges.len()
            invariant
                i <= list.len(),
                list == edges@,
                list == graph.bs()[bkey.id].edges@,
                graph.bs().dom().contains(bkey.id),
                bubble_burst_reads_ok(graph.vs(), graph.bs(), bkey),
                first_burstable(graph.vs(), graph.bs(), list) == first_burstable(graph.vs(), graph.bs(), list.skip(i as int)),
            decreases list.len() - i,
        {
            let e = edges[i];
            proof {
                assert(list.skip(i as int)[0] == e);
                assert(list.skip(i as int).drop_first() =~= list.skip(i + 1));
                assert(burst_reads_ok(graph.vs(), graph.bs(), list[i as int]));
            }
            if self.is_burstable(graph, e) {
                return Some(e);
            }
            i += 1;
        }
        None
    }

    /// Freezes the first burstable wall of the focus bubble, if there is
    /// one, and tells whether there was.
    pub fn find_and_set_next_burstable(&mut self, graph: &Graph, focus_bubble: Option<BubbleKey>) -> (r: bool)
        requires
            focus_bubble matches Some(b) ==> bubble_burst_reads_ok(graph.vs(), graph.bs(), b),
        ensures
            r == (focus_bubble matches Some(b) && burstable_in(graph.vs(), graph.bs(), b) is Some),
            r ==> final(self).active_edge == burstable_in(graph.vs(), graph.bs(), focus_bubble->0)
                && final(self).timer == FREEZE_DURATION,
            !r ==> *final(self) == *old(self),
    {
        if let Some(bkey) = focus_bubble {
            if let Some(ekey) = self.find_burstable_edge_in_bubble(graph, bkey) {
                self.active_edge = Some(ekey);
                self.timer = FREEZE_DURATION;
                return true;
            }
        }
        false
    }

    /// Bursts the wall of `ekey` when it can burst: the wall is removed,
    /// so that the bubble of `ekey` survives, and the player bubble gains a
    /// swap, up to five.
    pub fn burst(&mut self, graph: &mut Graph, ekey: EdgeKey)
        requires
            burst_ok(old(graph).vs(), old(graph).bs(), ekey),
        ensures
            burst_post(old(graph).vs(), old(graph).bs(), ekey, final(graph).vs(), final(graph).bs()),
    {
        if !self.is_burstable(graph, ekey) {
            return;
        }
        graph.remove_edge(ekey);
        let ghost vm = graph.vs();
        let ghost bm = graph.bs();
        if let Some(player) = graph.bubbles.get_swappable() {
            assert(is_player(bm, player.id));
            if let BubbleStyle::Swappable { swaps_left } = graph.bubbles.style(player) {
                if swaps_left < MAX_SWAPS {
                    graph.bubbles.set_style(player, BubbleStyle::Swappable { swaps_left: swaps_left + 1 });
                }
            }
            proof {
                assert(graph.bs().dom() =~= bm.dom());
            }
        } else {
            proof {
                assert(!exists|k: u64| is_player(bm, k));
            }
        }
        proof {
            assert(remove_post(old(graph).vs(), old(graph).bs(), ekey, graph.vs(), bm));
        }
    }

    /// Whether a burst step starts or continues a freeze: a wall is frozen,
    /// or the focus bubble has a burstable wall to freeze.
    pub open spec fn has_target(&self, vs: Map<u64, Vertex>, bs: Map<u64, Bubble>, focus: Option<BubbleKey>) -> bool {
        self.active_edge is Some || (focus matches Some(b) && burstable_in(vs, bs, b) is Some)
    }

    /// The wall a burst step works on.
    pub open spec fn target(&self, vs: Map<u64, Vertex>, bs: Map<u64, Bubble>, focus: Option<BubbleKey>) -> EdgeKey {
        if self.active_edge is Some { self.active_edge->0 } else { burstable_in(vs, bs, focus->0)->0 }
    }

    /// The freeze time left before a burst step.
    pub open spec fn time_left(&self) -> i64 {
        if self.active_edge is Some { self.timer } else { FREEZE_DURATION }
    }

    /// One tick of `dt` microseconds of the bursting phase. Outside that
    /// phase nothing happens. With no wall frozen, the first burstable wall
    /// of the focus bubble is frozen; with none, the phase ends and the
    /// focus is dropped. The freeze time runs down by `dt`; when it runs
    /// out the wall bursts (a burst sound is queued and the wall is
    /// returned), and the next burstable wall of the focus bubble is frozen
    /// or, with none left, the phase ends and the focus is dropped.
    pub fn update(&mut self, state: &mut GameState, dt: i64) -> (r: Option<EdgeKey>)
        requires
            old(self).wf(),
            0 <= dt,
            old(state).phase == GamePhase::Bursting && old(self).active_edge is None ==>
                (old(state).focus_bubble matches Some(b) ==> bubble_burst_reads_ok(old(state).graph.vs(), old(state).graph.bs(), b)),
            old(state).phase == GamePhase::Bursting
                && old(self).has_target(old(state).graph.vs(), old(state).graph.bs(), old(state).focus_bubble)
                && old(self).time_left() - dt <= 0 ==> {
                let e = old(self).target(old(state).graph.vs(), old(state).graph.bs(), old(state).focus_bubble);
                &&& burst_ok(old(state).graph.vs(), old(state).graph.bs(), e)
                &&& forall|vs2: Map<u64, Vertex>, bs2: Map<u64, Bubble>|
                    #[trigger] burst_post(old(state).graph.vs(), old(state).graph.bs(), e, vs2, bs2) ==>
                    (old(state).focus_bubble matches Some(b) ==> bubble_burst_reads_ok(vs2, bs2, b))
            },
        ensures
            final(self).wf(),
            final(state).resume_phase == old(state).resume_phase,
            old(state).phase != GamePhase::Bursting ==> {
                &&& *final(self) == *old(self) && r is None
                &&& final(state).graph.vs() == old(state).graph.vs() && final(state).graph.bs() == old(state).graph.bs()
                &&& final(state).phase == old(state).phase && final(state).focus_bubble == old(state).focus_bubble
                &&& final(state).sound_events@ == old(state).sound_events@
            },
            old(state).phase == GamePhase::Bursting
                && !old(self).has_target(old(state).graph.vs(), old(state).graph.bs(), old(state).focus_bubble) ==> {
                &&& *final(self) == *old(self) && r is None
                &&& final(state).graph.vs() == old(state).graph.vs() && final(state).graph.bs() == old(state).graph.bs()
                &&& final(state).phase == GamePhase::Normal && final(state).focus_bubble is None
                &&& final(state).sound_events@ == old(state).sound_events@
            },
            old(state).phase == GamePhase::Bursting
                && old(self).has_target(old(state).graph.vs(), old(state).graph.bs(), old(state).focus_bubble)
                && old(self).time_left() - dt > 0 ==> {
                &&& final(self).active_edge == Some(old(self).target(old(state).graph.vs(), old(state).graph.bs(), old(state).focus_bubble))
                &&& final(self).timer == old(self).time_left() - dt && r is None
                &&& final(state).graph.vs() == old(state).graph.vs() && final(state).graph.bs() == old(state).graph.bs()
                &&& final(state).phase == old(state).phase && final(state).focus_bubble == old(state).focus_bubble
                &&& final(state).sound_events@ == old(state).sound_events@
            },
            old(state).phase == GamePhase::Bursting
                && old(self).has_target(old(state).graph.vs(), old(state).graph.bs(), old(state).focus_bubble)
                && old(self).time_left() - dt <= 0 ==> {
                let e = old(self).target(old(state).graph.vs(), old(state).graph.bs(), old(state).focus_bubble);
                let next = match old(state).focus_bubble {
                    Some(b) => burstable_in(final(state).graph.vs(), final(state).graph.bs(), b),
                    None => None,
                };
                &&& r == Some(e)
                &&& burst_post(old(state).graph.vs(), old(state).graph.bs(), e, final(state).graph.vs(), final(state).graph.bs())
                &&& final(state).sound_events@ == old(state).sound_events@.push(SoundEvent::Burst)
                &&& next is Some ==> final(self).active_edge == next && final(self).timer == FREEZE_DURATION
                    && final(state).phase == GamePhase::Bursting && final(state).focus_bubble == old(state).focus_bubble
                &&& next is None ==> final(self).active_edge is None && final(state).phase == GamePhase::Normal
                    && final(state).focus_bubble is None
            },
            keys_valid(old(state).graph.vs(), old(state).graph.bs()) && sane(old(state).graph.vs(), old(state).graph.bs())
                && old(state).phase == GamePhase::Bursting && old(state).focus_bubble is Some
                && old(state).graph.bs().dom().contains(old(state).focus_bubble->0.id)
                && (old(self).active_edge is Some
                    ==> old(state).graph.bs()[old(state).focus_bubble->0.id].edges@.contains(old(self).active_edge->0))
                ==> focus_kept(final(state).graph.vs(), final(state).graph.bs(), final(state).phase,
                    final(state).focus_bubble, final(self).active_edge, old(state).focus_bubble->0),
    {
        let ghost vs0 = state.graph.vs();
        let ghost bs0 = state.graph.bs();
        let ghost held = keys_valid(vs0, bs0) && sane(vs0, bs0) && state.phase == GamePhase::Bursting
            && state.focus_bubble is Some && bs0.dom().contains(state.focus_bubble->0.id)
            && (self.active_edge is Some ==> bs0[state.focus_bubble->0.id].edges@.contains(self.active_edge->0));
        if state.phase != GamePhase::Bursting {
            return None;
        }
        if self.active_edge.is_none() {
            if !self.find_and_set_next_burstable(&state.graph, state.focus_bubble) {
                proof {
                    if held {
                        law_burst_target_on_focus(vs0, bs0, state.focus_bubble->0);
                    }
                }
                state.phase = GamePhase::Normal;
                state.focus_bubble = None;
                return None;
            }
            proof {
                if held {
                    law_burst_target_on_focus(vs0, bs0, state.focus_bubble->0);
                }
            }
        }
        let ekey = self.active_edge.unwrap();
        self.timer = self.timer - dt;
        if self.timer <= 0 {
            self.burst(&mut state.graph, ekey);
            let ghost vs2 = state.graph.vs();
            let ghost bs2 = state.graph.bs();
            proof {
                if held {
                    let f = state.focus_bubble->0;
                    lemma_sane_lists_follow(vs0, bs0);
                    reveal(lists_follow);
                    assert(bubble_of(vs0, ekey).id == f.id);
                    law_burst_keeps_focus(vs0, bs0, ekey, f, vs2, bs2);
                    law_burst_target_on_focus(vs2, bs2, f);
                }
            }
            state.sound_events.push(SoundEvent::Burst);
            if !self.find_and_set_next_burstable(&state.graph, state.focus_bubble) {
                self.active_edge = None;
                state.focus_bubble = None;
                state.phase = GamePhase::Normal;
            }
            return Some(ekey);
        }
        None
    }
}

} // verus!
