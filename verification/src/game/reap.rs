//! Reaping: popped bubbles that have finished their animation are merged
//! away, through a wall to the open air when they touch it, or, once they
//! are small enough, through the one wall they share with some neighbor.
use vstd::prelude::*;
use crate::game::state::{GamePhase, GameState};
use crate::graph::bubble::{Bubble, BubbleKey, BubbleStyle};
use crate::graph::edge::EdgeKey;
use crate::graph::vertex::{has_edge, Vertex};
use crate::graph::flip::slides_tame;
use crate::graph::laws::law_slides_keep_shape;
use crate::graph::flip::lemma_listed_in_own;
use crate::graph::merge::{law_remove_keeps_sane, law_remove_ready, lemma_edge_facts};
use crate::graph::spec::{degenerate_edges, merged, remove_blocked, remove_case, slides_post};
use crate::graph::{boundary_ok, bubble_of, keys_valid, remove_post, remove_reads_ok, sane, twin_of, Graph};
use crate::slots::{odd_version, slot_index};

verus! {

/// The bubble on the other side of the wall of `e`.
pub open spec fn neighbor(vs: Map<u64, Vertex>, e: EdgeKey) -> BubbleKey {
    bubble_of(vs, twin_of(vs, e))
}

/// Bubble `b` has popped and finished its animation: it is invisible with
/// no size left.
pub open spec fn reap_candidate(bs: Map<u64, Bubble>, b: u64) -> bool {
    &&& bs.dom().contains(b)
    &&& bs[b].style matches BubbleStyle::Invisible { size } && size <= 0
}

/// The twin of the first edge of `list` whose wall borders the open air.
pub open spec fn open_air_exit(vs: Map<u64, Vertex>, bs: Map<u64, Bubble>, list: Seq<EdgeKey>) -> Option<EdgeKey>
    decreases list.len(),
{
    if list.len() == 0 {
        None
    } else if bs[neighbor(vs, list[0]).id].style is OpenAir {
        Some(twin_of(vs, list[0]))
    } else {
        open_air_exit(vs, bs, list.drop_first())
    }
}

/// How many edges of `list` have bubble `b` on their other side.
pub open spec fn neighbor_count(vs: Map<u64, Vertex>, list: Seq<EdgeKey>, b: BubbleKey) -> nat {
    list.filter(|e: EdgeKey| neighbor(vs, e) == b).len()
}

/// The twin of the first edge of `list` whose neighbor shares exactly one
/// wall with the bubble whose boundary is `all`.
pub open spec fn single_exit(vs: Map<u64, Vertex>, list: Seq<EdgeKey>, all: Seq<EdgeKey>) -> Option<EdgeKey>
    decreases list.len(),
{
    if list.len() == 0 {
        None
    } else if neighbor_count(vs, all, neighbor(vs, list[0])) == 1 {
        Some(twin_of(vs, list[0]))
    } else {
        single_exit(vs, list.drop_first(), all)
    }
}

/// The wall through which the popped bubble `b` is reaped, named by the
/// edge on the surviving side: one to the open air if it touches it;
/// otherwise, if it is small (listed in `tiny`), one to a neighbor that
/// shares only that wall with it.
pub open spec fn reap_target(vs: Map<u64, Vertex>, bs: Map<u64, Bubble>, b: u64, tiny: Seq<BubbleKey>) -> Option<EdgeKey> {
    let list = bs[b].edges@;
    if open_air_exit(vs, bs, list) is Some {
        open_air_exit(vs, bs, list)
    } else if tiny.contains(BubbleKey { id: b }) {
        single_exit(vs, list, list)
    } else {
        None
    }
}

/// `order` lists the keys of `bs` once each, in increasing slot index.
pub open spec fn is_key_order(bs: Map<u64, Bubble>, order: Seq<BubbleKey>) -> bool {
    &&& order.len() == bs.dom().len()
    &&& forall|i: int| 0 <= i < order.len() ==> bs.dom().contains(#[trigger] order[i].id)
    &&& forall|k: u64| bs.dom().contains(k) ==> exists|i: int| 0 <= i < order.len() && #[trigger] order[i].id == k
    &&& forall|i: int, j: int| 0 <= i < j < order.len() ==> slot_index((#[trigger] order[i]).id) < slot_index((#[trigger] order[j]).id)
}

/// The walls to remove, for the bubbles of `order` in turn.
pub open spec fn reap_targets(vs: Map<u64, Vertex>, bs: Map<u64, Bubble>, tiny: Seq<BubbleKey>, order: Seq<BubbleKey>) -> Seq<EdgeKey>
    decreases order.len(),
{
    if order.len() == 0 {
        Seq::empty()
    } else {
        let rest = reap_targets(vs, bs, tiny, order.drop_last());
        let b = order.last().id;
        if reap_candidate(bs, b) && reap_target(vs, bs, b, tiny) is Some {
            rest.push(reap_target(vs, bs, b, tiny)->0)
        } else {
            rest
        }
    }
}

/// What the search for walls to reap reads exists: for every popped
/// bubble, each edge of its boundary, its twin, the bubble beyond, and the
/// twin's key is one a slot map hands out.
pub open spec fn reap_reads_ok(vs: Map<u64, Vertex>, bs: Map<u64, Bubble>) -> bool {
    forall|b: u64, i: int| reap_candidate(bs, b) && 0 <= i < bs[b].edges@.len() ==> {
        let e = #[trigger] bs[b].edges@[i];
        &&& has_edge(vs, e)
        &&& has_edge(vs, twin_of(vs, e))
        &&& bs.dom().contains(neighbor(vs, e).id)
        &&& odd_version(twin_of(vs, e).vertex.id)
    }
}

/// `(vs2, bs2)` is `(vs, bs)` after one step of reaping the wall of `e`:
/// removed when its vertex is still there, and nothing otherwise.
pub open spec fn reap_step(vs: Map<u64, Vertex>, bs: Map<u64, Bubble>, e: EdgeKey, vs2: Map<u64, Vertex>, bs2: Map<u64, Bubble>) -> bool {
    if vs.dom().contains(e.vertex.id) {
        remove_post(vs, bs, e, vs2, bs2)
    } else {
        vs2 == vs && bs2 == bs
    }
}

/// Reaping the walls of `es` in order only reads what exists, whatever the
/// earlier steps made.
pub open spec fn reaps_ok(vs: Map<u64, Vertex>, bs: Map<u64, Bubble>, es: Seq<EdgeKey>) -> bool
    decreases es.len(),
{
    es.len() > 0 ==> {
        &&& odd_version(es[0].vertex.id)
        &&& vs.dom().contains(es[0].vertex.id) ==> remove_reads_ok(vs, bs, es[0])
        &&& forall|vm: Map<u64, Vertex>, bm: Map<u64, Bubble>|
            #[trigger] reap_step(vs, bs, es[0], vm, bm) ==> reaps_ok(vm, bm, es.drop_first())
    }
}

/// Each state of `states` is the one before it after reaping the wall of
/// `es` at the same place.
pub open spec fn reap_trace(states: Seq<(Map<u64, Vertex>, Map<u64, Bubble>)>, es: Seq<EdgeKey>) -> bool {
    &&& states.len() == es.len() + 1
    &&& forall|k: int| 0 <= k < es.len() ==>
        reap_step(states[k].0, states[k].1, #[trigger] es[k], states[k + 1].0, states[k + 1].1)
}

/// The removal of the wall of `e` is one that the removal law covers: the
/// edge exists, the top and the bottom bubble do not both have only two
/// edges, and each wall that the removal then slides is of a shape that the
/// slide law covers.
pub open spec fn remove_tame(vs: Map<u64, Vertex>, bs: Map<u64, Bubble>, e: EdgeKey) -> bool {
    &&& has_edge(vs, e)
    &&& !remove_blocked(vs, bs, e) ==> !(remove_case(vs, e) == 1
        && e.spec_prev_on_vertex() == twin_of(vs, twin_of(vs, e).spec_next_on_vertex()))
    &&& forall|vm: Map<u64, Vertex>, bm: Map<u64, Bubble>| #[trigger] merged(vs, bs, e, vm, bm) ==>
        slides_tame(vm, bm, degenerate_edges(vm, bm, bubble_of(vs, e)))
}

/// Each wall of `es` that is still there when its turn comes is one whose
/// removal the removal law covers, in the graph the earlier steps made.
pub open spec fn reaps_tame(vs: Map<u64, Vertex>, bs: Map<u64, Bubble>, es: Seq<EdgeKey>) -> bool
    decreases es.len(),
{
    es.len() > 0 ==> {
        &&& vs.dom().contains(es[0].vertex.id) ==> remove_tame(vs, bs, es[0])
        &&& forall|vm: Map<u64, Vertex>, bm: Map<u64, Bubble>|
            #[trigger] reap_step(vs, bs, es[0], vm, bm) ==> reaps_tame(vm, bm, es.drop_first())
    }
}

/// From the `k`-th state of a trace of reaping on, the invariants and the
/// validity of the keys last to the end.
proof fn lemma_reap_trace_sane(states: Seq<(Map<u64, Vertex>, Map<u64, Bubble>)>, es: Seq<EdgeKey>, k: int)
    requires
        reap_trace(states, es),
        0 <= k <= es.len(),
        keys_valid(states[k].0, states[k].1),
        sane(states[k].0, states[k].1),
        states[k].0.dom().finite(),
        states[k].1.dom().finite(),
        reaps_ok(states[k].0, states[k].1, es.skip(k)),
        reaps_tame(states[k].0, states[k].1, es.skip(k)),
    ensures
        keys_valid(states.last().0, states.last().1),
        sane(states.last().0, states.last().1),
    decreases es.len() - k,
{
    if k < es.len() {
        let (vs, bs) = states[k];
        let (vs2, bs2) = states[k + 1];
        let e = es[k];
        let rest = es.skip(k);
        assert(rest[0] == e);
        assert(rest.drop_first() =~= es.skip(k + 1));
        assert(reap_step(vs, bs, e, vs2, bs2));
        if vs.dom().contains(e.vertex.id) {
            assert(remove_post(vs, bs, e, vs2, bs2));
            law_remove_keeps_sane(vs, bs, e, vs2, bs2);
            if !remove_blocked(vs, bs, e) {
                let (vm, bm) = choose|vm: Map<u64, Vertex>, bm: Map<u64, Bubble>|
                    #[trigger] merged(vs, bs, e, vm, bm) && slides_post(vm, bm, degenerate_edges(vm, bm, bubble_of(vs, e)), vs2, bs2);
                law_slides_keep_shape(vm, bm, degenerate_edges(vm, bm, bubble_of(vs, e)), vs2, bs2);
            }
        }
        lemma_reap_trace_sane(states, es, k + 1);
    }
}

/// Reaping walls in turn keeps the invariants of the graph and the validity
/// of its keys, when each step only reads what exists and each wall still
/// there at its turn is one whose removal the removal law covers.
pub proof fn law_reaps_keep_sane(
    vs: Map<u64, Vertex>,
    bs: Map<u64, Bubble>,
    es: Seq<EdgeKey>,
    states: Seq<(Map<u64, Vertex>, Map<u64, Bubble>)>,
)
    requires
        keys_valid(vs, bs),
        sane(vs, bs),
        vs.dom().finite(),
        bs.dom().finite(),
        reaps_ok(vs, bs, es),
        reaps_tame(vs, bs, es),
        reap_trace(states, es),
        states[0] == (vs, bs),
    ensures
        keys_valid(states.last().0, states.last().1),
        sane(states.last().0, states.last().1),
{
    assert(es.skip(0) =~= es);
    lemma_reap_trace_sane(states, es, 0);
}

/// Each wall of `es` names a vertex key that a slot map hands out, and each
/// one still there at its turn, whose removal is not refused, parts two
/// bubbles that can merge, in the graph the earlier steps made.
pub open spec fn reaps_mergeable(vs: Map<u64, Vertex>, bs: Map<u64, Bubble>, es: Seq<EdgeKey>) -> bool
    decreases es.len(),
{
    es.len() > 0 ==> {
        &&& odd_version(es[0].vertex.id)
        &&& vs.dom().contains(es[0].vertex.id) && !remove_blocked(vs, bs, es[0]) ==>
            bs[bubble_of(vs, es[0]).id].style.can_merge(bs[bubble_of(vs, twin_of(vs, es[0])).id].style)
        &&& forall|vm: Map<u64, Vertex>, bm: Map<u64, Bubble>|
            #[trigger] reap_step(vs, bs, es[0], vm, bm) ==> reaps_mergeable(vm, bm, es.drop_first())
    }
}

/// Reaping the walls of `es` in turn only reads what exists, on a graph of
/// at most 333 vertices that keeps its invariants, when each wall still
/// there at its turn is one whose removal the removal law covers and, where
/// the removal is not refused, parts two bubbles that can merge.
pub proof fn law_reaps_ready(vs: Map<u64, Vertex>, bs: Map<u64, Bubble>, es: Seq<EdgeKey>)
    requires
        keys_valid(vs, bs),
        sane(vs, bs),
        vs.dom().finite(),
        bs.dom().finite(),
        3 * vs.dom().len() <= 999,
        reaps_tame(vs, bs, es),
        reaps_mergeable(vs, bs, es),
    ensures
        reaps_ok(vs, bs, es),
    decreases es.len(),
{
    if es.len() > 0 {
        let e = es[0];
        let rest = es.drop_first();
        if vs.dom().contains(e.vertex.id) {
            law_remove_ready(vs, bs, e);
        }
        assert forall|vm: Map<u64, Vertex>, bm: Map<u64, Bubble>| #[trigger] reap_step(vs, bs, e, vm, bm) implies
            reaps_ok(vm, bm, rest) by {
            if vs.dom().contains(e.vertex.id) {
                assert(remove_post(vs, bs, e, vm, bm));
                law_remove_keeps_sane(vs, bs, e, vm, bm);
                if !remove_blocked(vs, bs, e) {
                    let (vn, bn) = choose|vn: Map<u64, Vertex>, bn: Map<u64, Bubble>|
                        #[trigger] merged(vs, bs, e, vn, bn) && slides_post(vn, bn, degenerate_edges(vn, bn, bubble_of(vs, e)), vm, bm);
                    law_slides_keep_shape(vn, bn, degenerate_edges(vn, bn, bubble_of(vs, e)), vm, bm);
                    assert(vn.dom().len() <= vs.dom().len());
                }
            }
            law_reaps_ready(vm, bm, rest);
        }
    }
}

/// In a graph that keeps its invariants, with valid keys, what the search
/// for walls to reap reads exists.
pub proof fn law_reap_reads_ready(vs: Map<u64, Vertex>, bs: Map<u64, Bubble>)
    requires
        keys_valid(vs, bs),
        sane(vs, bs),
    ensures
        reap_reads_ok(vs, bs),
{
    assert forall|b: u64, i: int| reap_candidate(bs, b) && 0 <= i < bs[b].edges@.len() implies {
        let e = #[trigger] bs[b].edges@[i];
        &&& has_edge(vs, e)
        &&& has_edge(vs, twin_of(vs, e))
        &&& bs.dom().contains(neighbor(vs, e).id)
        &&& odd_version(twin_of(vs, e).vertex.id)
    } by {
        let e = bs[b].edges@[i];
        assert(boundary_ok(vs, bs, b, i));
        assert(e.valid());
        lemma_edge_facts(vs, bs, e);
        lemma_listed_in_own(vs, bs, twin_of(vs, e));
    }
}

/// Removes popped bubbles whose animation is over.
#[derive(Debug, Clone, Copy)]
pub struct ReapManager;

impl ReapManager {
    pub fn new() -> (r: ReapManager) {
        ReapManager
    }

    /// How many edges of `edges` have bubble `b` on their other side.
    fn count_neighbor(&self, graph: &Graph, edges: &Vec<EdgeKey>, b: BubbleKey) -> (r: usize)
        requires
            forall|i: int| 0 <= i < edges@.len() ==> has_edge(graph.vs(), #[trigger] edges@[i])
                && has_edge(graph.vs(), twin_of(graph.vs(), edges@[i])),
        ensures
            r == neighbor_count(graph.vs(), edges@, b),
    {
        let ghost vs = graph.vs();
        let ghost pred = |e: EdgeKey| neighbor(vs, e) == b;
        let mut n: usize = 0;
        let mut i: usize = 0;
        while i < edges.len()
            invariant
                i <= edges@.len(),
                vs == graph.vs(),
                forall|j: int| 0 <= j < edges@.len() ==> has_edge(vs, #[trigger] edges@[j])
                    && has_edge(vs, twin_of(vs, edges@[j])),
                pred == (|e: EdgeKey| neighbor(vs, e) == b),
                n == edges@.take(i as int).filter(pred).len(),
                n <= i,
            decreases edges@.len() - i,
        {
            let e = edges[i];
            proof {
                reveal(Seq::filter);
                let s1 = edges@.take(i + 1);
                assert(s1.drop_last() =~= edges@.take(i as int));
                assert(s1.last() == e);
                assert(s1.filter(pred) == (if pred(e) { s1.drop_last().filter(pred).push(e) } else { s1.drop_last().filter(pred) }));
                assert(has_edge(vs, edges@[i as int]));
            }
            let t = graph.vertices.get_edge(e).twin;
            if graph.vertices.get_edge(t).bubble == b {
                n += 1;
            }
            i += 1;
        }
        proof {
            assert(edges@.take(edges@.len() as int) =~= edges@);
        }
        n
    }

    /// The wall through which the popped bubble `bkey` is reaped, if any.
    fn find_target(&self, graph: &Graph, bkey: BubbleKey, tiny: &Vec<BubbleKey>) -> (r: Option<EdgeKey>)
        requires
            reap_candidate(graph.bs(), bkey.id),
            reap_reads_ok(graph.vs(), graph.bs()),
        ensures
            r == reap_target(graph.vs(), graph.bs(), bkey.id, tiny@),
    {
        let ghost vs = graph.vs();
        let ghost bs = graph.bs();
        let edges = &graph.bubbles.get(bkey).edges;
        let ghost list = edges@;
        proof {
            assert(list.skip(0) =~= list);
            assert forall|j: int| 0 <= j < list.len() implies has_edge(vs, #[trigger] list[j])
                && has_edge(vs, twin_of(vs, list[j])) && bs.dom().contains(neighbor(vs, list[j]).id) by {
                assert(has_edge(vs, bs[bkey.id].edges@[j]));
            }
        }
        let mut i: usize = 0;
        while i < edges.len()
            invariant
                i <= list.len(),
                list == edges@,
                bs.dom().contains(bkey.id),
                list == bs[bkey.id].edges@,
                vs == graph.vs(),
                bs == graph.bs(),
                forall|j: int| 0 <= j < list.len() ==> has_edge(vs, #[trigger] list[j])
                    && has_edge(vs, twin_of(vs, list[j])) && bs.dom().contains(neighbor(vs, list[j]).id),
                open_air_exit(vs, bs, list) == open_air_exit(vs, bs, list.skip(i as int)),
            decreases list.len() - i,
        {
            let e = edges[i];
            proof {
                assert(list.skip(i as int)[0] == e);
                assert(list.skip(i as int).drop_first() =~= list.skip(i + 1));
                assert(has_edge(vs, list[i as int]));
            }
            let t = graph.vertices.get_edge(e).twin;
            let nb = graph.vertices.get_edge(t).bubble;
            if matches!(graph.bubbles.style(nb), BubbleStyle::OpenAir) {
                return Some(t);
            }
            i += 1;
        }
        proof {
            assert(list.skip(list.len() as int).len() == 0);
            assert(open_air_exit(vs, bs, list) is None);
        }
        if !vec_contains_key(tiny, bkey) {
            return None;
        }
        let mut i: usize = 0;
        proof {
            assert(list.skip(0) =~= list);
        }
        while i < edges.len()
            invariant
                i <= list.len(),
                list == edges@,
                vs == graph.vs(),
                bs == graph.bs(),
                forall|j: int| 0 <= j < list.len() ==> has_edge(vs, #[trigger] list[j])
                    && has_edge(vs, twin_of(vs, list[j])) && bs.dom().contains(neighbor(vs, list[j]).id),
                single_exit(vs, list, list) == single_exit(vs, list.skip(i as int), list),
                open_air_exit(vs, bs, list) is None,
                tiny@.contains(bkey),
                bs.dom().contains(bkey.id),
                list == bs[bkey.id].edges@,
            decreases list.len() - i,
        {
            let e = edges[i];
            proof {
                assert(list.skip(i as int)[0] == e);
                assert(list.skip(i as int).drop_first() =~= list.skip(i + 1));
                assert(has_edge(vs, list[i as int]));
            }
            let t = graph.vertices.get_edge(e).twin;
            let nb = graph.vertices.get_edge(t).bubble;
            if self.count_neighbor(graph, edges, nb) == 1 {
                return Some(t);
            }
            i += 1;
        }
        None
    }

    /// The walls to remove, each named by the edge on the surviving side,
    /// for the popped bubbles in key order: each such bubble is merged into
    /// the open air if it touches it, and otherwise, if it is listed in
    /// `tiny` (too small to notice), into the first neighbor along its
    /// boundary that shares only one wall with it.
    pub fn reap_targets(&self, graph: &Graph, tiny: &Vec<BubbleKey>) -> (r: Vec<EdgeKey>)
        requires
            reap_reads_ok(graph.vs(), graph.bs()),
        ensures
            exists|order: Seq<BubbleKey>| #[trigger] is_key_order(graph.bs(), order)
                && r@ == reap_targets(graph.vs(), graph.bs(), tiny@, order),
    {
        let keys = graph.bubbles.keys();
        let ghost order = keys@;
        let mut r: Vec<EdgeKey> = Vec::new();
        let mut i: usize = 0;
        while i < keys.len()
            invariant
                i <= order.len(),
                order == keys@,
                reap_reads_ok(graph.vs(), graph.bs()),
                forall|m: int| 0 <= m < order.len() ==> graph.bs().dom().contains(#[trigger] order[m].id),
                r@ == reap_targets(graph.vs(), graph.bs(), tiny@, order.take(i as int)),
            decreases order.len() - i,
        {
            let bkey = keys[i];
            proof {
                assert(order.take(i + 1).drop_last() =~= order.take(i as int));
                assert(order.take(i + 1).last() == bkey);
            }
            let style = graph.bubbles.style(bkey);
            if let BubbleStyle::Invisible { size } = style {
                if size <= 0 {
                    if let Some(e) = self.find_target(graph, bkey, tiny) {
                        r.push(e);
                    }
                }
            }
            i += 1;
        }
        proof {
            assert(order.take(order.len() as int) =~= order);
            assert(is_key_order(graph.bs(), order));
        }
        r
    }

    /// Reaps the popped bubbles: the walls that `reap_targets` finds are
    /// removed in turn, each only if its vertex is still there. A paused
    /// game is left alone.
    pub fn update(&self, state: &mut GameState, tiny: &Vec<BubbleKey>)
        requires
            old(state).phase != GamePhase::Paused ==> reap_reads_ok(old(state).graph.vs(), old(state).graph.bs()),
            old(state).phase != GamePhase::Paused ==> forall|order: Seq<BubbleKey>| #[trigger] is_key_order(old(state).graph.bs(), order) ==>
                reaps_ok(old(state).graph.vs(), old(state).graph.bs(),
                    reap_targets(old(state).graph.vs(), old(state).graph.bs(), tiny@, order)),
        ensures
            old(state).phase == GamePhase::Paused ==> final(state).graph.vs() == old(state).graph.vs()
                && final(state).graph.bs() == old(state).graph.bs(),
            old(state).phase != GamePhase::Paused ==> exists|order: Seq<BubbleKey>, states: Seq<(Map<u64, Vertex>, Map<u64, Bubble>)>|
                #[trigger] is_key_order(old(state).graph.bs(), order)
                && #[trigger] reap_trace(states, reap_targets(old(state).graph.vs(), old(state).graph.bs(), tiny@, order))
                && states[0] == (old(state).graph.vs(), old(state).graph.bs())
                && states.last() == (final(state).graph.vs(), final(state).graph.bs()),
            final(state).phase == old(state).phase,
            final(state).resume_phase == old(state).resume_phase,
            final(state).focus_bubble == old(state).focus_bubble,
            final(state).sound_events@ == old(state).sound_events@,
            keys_valid(old(state).graph.vs(), old(state).graph.bs()) && sane(old(state).graph.vs(), old(state).graph.bs())
                && old(state).graph.vs().dom().finite() && old(state).graph.bs().dom().finite()
                && (old(state).phase != GamePhase::Paused ==> forall|order: Seq<BubbleKey>|
                    #[trigger] is_key_order(old(state).graph.bs(), order) ==>
                    reaps_tame(old(state).graph.vs(), old(state).graph.bs(),
                        reap_targets(old(state).graph.vs(), old(state).graph.bs(), tiny@, order)))
                ==> keys_valid(final(state).graph.vs(), final(state).graph.bs())
                    && sane(final(state).graph.vs(), final(state).graph.bs()),
    {
        if state.phase == GamePhase::Paused {
            return;
        }
        let ghost vs0 = state.graph.vs();
        let ghost bs0 = state.graph.bs();
        let to_remove = self.reap_targets(&state.graph, tiny);
        let ghost order = choose|order: Seq<BubbleKey>| #[trigger] is_key_order(bs0, order)
            && to_remove@ == reap_targets(vs0, bs0, tiny@, order);
        let ghost es = to_remove@;
        let ghost mut states: Seq<(Map<u64, Vertex>, Map<u64, Bubble>)> = seq![(vs0, bs0)];
        let mut i: usize = 0;
        proof {
            assert(es.skip(0) =~= es);
        }
        while i < to_remove.len()
            invariant
                i <= es.len(),
                to_remove@ == es,
                reap_trace(states, es.take(i as int)),
                states[0] == (vs0, bs0),
                states.last() == (state.graph.vs(), state.graph.bs()),
                reaps_ok(state.graph.vs(), state.graph.bs(), es.skip(i as int)),
                state.phase == old(state).phase,
                state.resume_phase == old(state).resume_phase,
                state.focus_bubble == old(state).focus_bubble,
                state.sound_events@ == old(state).sound_events@,
            decreases es.len() - i,
        {
            let ghost va = state.graph.vs();
            let ghost ba = state.graph.bs();
            let ekey = to_remove[i];
            proof {
                assert(es.skip(i as int)[0] == es[i as int]);
                assert(es.skip(i as int).drop_first() =~= es.skip(i + 1));
            }
            if state.graph.vertices.contains_key(ekey.vertex) {
                state.graph.remove_edge(ekey);
            }
            proof {
                assert(reap_step(va, ba, es[i as int], state.graph.vs(), state.graph.bs()));
                let old_states = states;
                states = states.push((state.graph.vs(), state.graph.bs()));
                assert forall|k: int| 0 <= k < es.take(i + 1).len() implies
                    reap_step(states[k].0, states[k].1, #[trigger] es.take(i + 1)[k], states[k + 1].0, states[k + 1].1) by {
                    if k < i {
                        assert(es.take(i + 1)[k] == es.take(i as int)[k]);
                        assert(states[k] == old_states[k] && states[k + 1] == old_states[k + 1]);
                    } else {
                        assert(states[k] == (va, ba));
                    }
                }
            }
            i += 1;
        }
        proof {
            assert(es.take(es.len() as int) =~= es);
            if keys_valid(vs0, bs0) && sane(vs0, bs0) && vs0.dom().finite() && bs0.dom().finite()
                && forall|order2: Seq<BubbleKey>| #[trigger] is_key_order(bs0, order2) ==>
                    reaps_tame(vs0, bs0, reap_targets(vs0, bs0, tiny@, order2)) {
                assert(reaps_tame(vs0, bs0, es));
                assert(reaps_ok(vs0, bs0, es));
                law_reaps_keep_sane(vs0, bs0, es, states);
            }
        }
    }
}

/// Whether the list holds the bubble key.
pub fn vec_contains_key(v: &Vec<BubbleKey>, k: BubbleKey) -> (r: bool)
    ensures
        r == v@.contains(k),
{
    let mut i: usize = 0;
    while i < v.len()
        invariant
            i <= v@.len(),
            forall|j: int| 0 <= j < i ==> v@[j] != k,
        decreases v@.len() - i,
    {
        if v[i] == k {
            return true;
        }
        i += 1;
    }
    false
}

} // verus!
