//! What the topological operations keep: the vertex and bubble counts that
//! Euler's formula ties together, and the one open-air bubble.
use vstd::prelude::*;
use crate::graph::bubble::{Bubble, BubbleKey, BubbleStyle};
use crate::graph::edge::EdgeKey;
use crate::graph::vertex::{Vertex, VertexKey};
use crate::graph::spec::{
    bubble_of, euler_ok, merged, remove_blocked, remove_post, slide_post,
    slide_trace, slides_post, sole_open_air, spawned, twin_of,
};

verus! {

/// The two states have the same vertices, the same bubbles, and every
/// bubble keeps its style.
pub open spec fn same_shape(vs: Map<u64, Vertex>, bs: Map<u64, Bubble>, vs2: Map<u64, Vertex>, bs2: Map<u64, Bubble>) -> bool {
    &&& vs2.dom() == vs.dom()
    &&& bs2.dom() == bs.dom()
    &&& forall|b: u64| #[trigger] bs.dom().contains(b) ==> bs2[b].style == bs[b].style
}

/// A slide keeps the vertices, the bubbles and their styles.
pub proof fn law_slide_keeps_shape(vs: Map<u64, Vertex>, bs: Map<u64, Bubble>, e: EdgeKey, vs2: Map<u64, Vertex>, bs2: Map<u64, Bubble>)
    requires
        slide_post(vs, bs, e, vs2, bs2),
    ensures
        same_shape(vs, bs, vs2, bs2),
{
}

/// Sliding several walls in turn keeps the vertices, the bubbles and their
/// styles.
pub proof fn law_slides_keep_shape(vs: Map<u64, Vertex>, bs: Map<u64, Bubble>, es: Seq<EdgeKey>, vs2: Map<u64, Vertex>, bs2: Map<u64, Bubble>)
    requires
        slides_post(vs, bs, es, vs2, bs2),
    ensures
        same_shape(vs, bs, vs2, bs2),
{
    let states = choose|states: Seq<(Map<u64, Vertex>, Map<u64, Bubble>)>|
        #[trigger] slide_trace(states, es) && states[0] == (vs, bs) && states.last() == (vs2, bs2);
    lemma_trace_shape(states, es, es.len() as int);
}

/// The states of a trace of slides up to `k` all have the shape of the first.
proof fn lemma_trace_shape(states: Seq<(Map<u64, Vertex>, Map<u64, Bubble>)>, es: Seq<EdgeKey>, k: int)
    requires
        slide_trace(states, es),
        0 <= k <= es.len(),
    ensures
        same_shape(states[0].0, states[0].1, states[k].0, states[k].1),
    decreases k,
{
    if k > 0 {
        lemma_trace_shape(states, es, k - 1);
        assert(slide_post(states[k - 1].0, states[k - 1].1, es[k - 1], states[k].0, states[k].1));
        law_slide_keeps_shape(states[k - 1].0, states[k - 1].1, es[k - 1], states[k].0, states[k].1);
    }
}

/// The same shape keeps Euler's formula and the one open-air bubble.
pub proof fn lemma_same_shape_keeps(vs: Map<u64, Vertex>, bs: Map<u64, Bubble>, vs2: Map<u64, Vertex>, bs2: Map<u64, Bubble>, o: u64)
    requires
        same_shape(vs, bs, vs2, bs2),
    ensures
        euler_ok(vs, bs) ==> euler_ok(vs2, bs2),
        sole_open_air(bs, o) ==> sole_open_air(bs2, o),
{
    if sole_open_air(bs, o) {
        assert forall|j: u64| bs2.dom().contains(j) && (#[trigger] bs2[j].style).is_open_air() implies j == o by {
            assert(bs.dom().contains(j));
        }
    }
}

/// A spawn adds two vertices and one bubble, so it keeps Euler's formula;
/// a spawned bubble that is not the open air keeps the one open-air bubble.
pub proof fn law_spawn_keeps_counts(
    vs: Map<u64, Vertex>,
    bs: Map<u64, Bubble>,
    vs2: Map<u64, Vertex>,
    bs2: Map<u64, Bubble>,
    v: VertexKey,
    k1: VertexKey,
    k2: VertexKey,
    nb: BubbleKey,
    style: BubbleStyle,
    o: u64,
)
    requires
        spawned(vs, bs, vs2, bs2, v, k1, k2, nb, style),
        vs.dom().finite(),
        bs.dom().finite(),
    ensures
        euler_ok(vs, bs) ==> euler_ok(vs2, bs2),
        sole_open_air(bs, o) && !style.is_open_air() ==> sole_open_air(bs2, o),
{
    assert(vs2.dom().len() == vs.dom().len() + 2);
    assert(bs2.dom().len() == bs.dom().len() + 1);
    if sole_open_air(bs, o) && !style.is_open_air() {
        assert forall|j: u64| bs2.dom().contains(j) && (#[trigger] bs2[j].style).is_open_air() implies j == o by {
            if j != nb.id {
                assert(bs.dom().contains(j));
            }
        }
    }
}

/// The step of a removal that merges two bubbles takes away the wall's two
/// vertices and the bottom bubble, so it keeps Euler's formula when the
/// wall joins two different vertices; and it keeps exactly one open-air
/// bubble, the merged one when the open air took part.
pub proof fn law_merge_keeps_counts(
    vs: Map<u64, Vertex>,
    bs: Map<u64, Bubble>,
    e: EdgeKey,
    vs2: Map<u64, Vertex>,
    bs2: Map<u64, Bubble>,
    o: u64,
)
    requires
        merged(vs, bs, e, vs2, bs2),
        vs.dom().finite(),
        bs.dom().finite(),
        vs.dom().contains(e.vertex.id),
        vs.dom().contains(twin_of(vs, e).vertex.id),
        e.vertex.id != twin_of(vs, e).vertex.id,
        bs.dom().contains(bubble_of(vs, e).id),
        bs.dom().contains(bubble_of(vs, twin_of(vs, e)).id),
        bubble_of(vs, e) != bubble_of(vs, twin_of(vs, e)),
    ensures
        euler_ok(vs, bs) ==> euler_ok(vs2, bs2),
        sole_open_air(bs, o) ==> exists|o2: u64| sole_open_air(bs2, o2),
{
    let top = bubble_of(vs, e).id;
    let bottom = bubble_of(vs, twin_of(vs, e)).id;
    assert(vs2.dom().len() == vs.dom().len() - 2);
    assert(bs2.dom().len() == bs.dom().len() - 1);
    if sole_open_air(bs, o) {
        assert(bs2.dom().contains(top));
        if o == top || o == bottom {
            assert(bs2[top].style.is_open_air());
            assert forall|j: u64| bs2.dom().contains(j) && (#[trigger] bs2[j].style).is_open_air() implies j == top by {
                if j != top {
                    assert(bs.dom().contains(j) && bs[j].style.is_open_air());
                }
            }
            assert(sole_open_air(bs2, top));
        } else {
            assert(!bs[top].style.is_open_air() && !bs[bottom].style.is_open_air());
            assert(bs2.dom().contains(o));
            assert forall|j: u64| bs2.dom().contains(j) && (#[trigger] bs2[j].style).is_open_air() implies j == o by {
                if j != top {
                    assert(bs.dom().contains(j) && bs[j].style.is_open_air());
                } else {
                    assert(!bs2[top].style.is_open_air());
                }
            }
            assert(sole_open_air(bs2, o));
        }
    }
}

/// A removal of a wall that joins two different vertices keeps Euler's
/// formula and exactly one open-air bubble, whether it is blocked or not:
/// its merge keeps them and the slides after it keep the shape.
pub proof fn law_remove_keeps_counts(
    vs: Map<u64, Vertex>,
    bs: Map<u64, Bubble>,
    e: EdgeKey,
    vs2: Map<u64, Vertex>,
    bs2: Map<u64, Bubble>,
    o: u64,
)
    requires
        remove_post(vs, bs, e, vs2, bs2),
        vs.dom().finite(),
        bs.dom().finite(),
        !remove_blocked(vs, bs, e) ==> {
            &&& vs.dom().contains(e.vertex.id)
            &&& vs.dom().contains(twin_of(vs, e).vertex.id)
            &&& e.vertex.id != twin_of(vs, e).vertex.id
            &&& bs.dom().contains(bubble_of(vs, e).id)
            &&& bs.dom().contains(bubble_of(vs, twin_of(vs, e)).id)
        },
    ensures
        euler_ok(vs, bs) ==> euler_ok(vs2, bs2),
        sole_open_air(bs, o) ==> exists|o2: u64| sole_open_air(bs2, o2),
{
    if !remove_blocked(vs, bs, e) {
        let (vm, bm) = choose|vm: Map<u64, Vertex>, bm: Map<u64, Bubble>|
            #[trigger] merged(vs, bs, e, vm, bm) && slides_post(vm, bm, crate::graph::spec::degenerate_edges(vm, bm, bubble_of(vs, e)), vs2, bs2);
        law_merge_keeps_counts(vs, bs, e, vm, bm, o);
        law_slides_keep_shape(vm, bm, crate::graph::spec::degenerate_edges(vm, bm, bubble_of(vs, e)), vs2, bs2);
        if sole_open_air(bs, o) {
            let o2 = choose|o2: u64| sole_open_air(bm, o2);
            lemma_same_shape_keeps(vm, bm, vs2, bs2, o2);
        }
        lemma_same_shape_keeps(vm, bm, vs2, bs2, o);
    }
}

} // verus!
