//! Why boundary walks close: when the twins pair up the edges of finitely
//! many vertices, stepping to the next edge on a bubble is a permutation of
//! those edges, so every walk comes back to where it started.
use vstd::prelude::*;
use vstd::set_lib::{lemma_len_subset, lemma_len_union, lemma_map_size_bound};
use crate::graph::edge::EdgeKey;
use crate::graph::bubble::Bubble;
use crate::graph::spec::{
    bubble_of, closes, closes_by, closes_by_at, ek, keys_valid, lemma_closes_by, lemma_twins_are_twins, linked,
    remove_case, remove_links_ok, remove_twins, sane, slide_reads_ok, slide_twins, spawn_reads_ok,
    spawn_twins, twin_of, twins, walk_by,
};
use crate::graph::vertex::{has_edge, Vertex, VertexKey};
use crate::slots::issued_key;

verus! {

/// The edges of the vertices `dom`.
pub open spec fn edge_set(dom: Set<u64>) -> Set<EdgeKey> {
    Set::new(|f: EdgeKey| f.offset < 3 && dom.contains(f.vertex.id))
}

/// The twins `tw` pair up the edges of the vertices `dom`: the twin of each
/// such edge is such an edge, and its twin is the edge again.
pub open spec fn pairs_up(tw: spec_fn(EdgeKey) -> EdgeKey, dom: Set<u64>) -> bool {
    forall|f: EdgeKey| #[trigger] edge_set(dom).contains(f) ==> edge_set(dom).contains(tw(f)) && tw(tw(f)) == f
}

/// The edge at offset `o` of the vertex with key `id`.
pub open spec fn edge_at_offset(o: u8) -> spec_fn(u64) -> EdgeKey {
    |id: u64| EdgeKey { vertex: VertexKey { id }, offset: o }
}

/// Finitely many vertices have at most three edges each.
pub proof fn lemma_edge_set_size(dom: Set<u64>)
    requires
        dom.finite(),
    ensures
        edge_set(dom).finite(),
        edge_set(dom).len() <= 3 * dom.len(),
{
    let m0 = dom.map(edge_at_offset(0));
    let m1 = dom.map(edge_at_offset(1));
    let m2 = dom.map(edge_at_offset(2));
    lemma_map_size_bound(dom, m0, edge_at_offset(0));
    lemma_map_size_bound(dom, m1, edge_at_offset(1));
    lemma_map_size_bound(dom, m2, edge_at_offset(2));
    lemma_len_union(m0, m1);
    lemma_len_union(m0.union(m1), m2);
    let u = m0.union(m1).union(m2);
    assert forall|f: EdgeKey| edge_set(dom).contains(f) implies u.contains(f) by {
        let id = f.vertex.id;
        assert(f.vertex == VertexKey { id });
        if f.offset == 0 {
            assert(edge_at_offset(0)(id) == f);
            assert(m0.contains(f));
        } else if f.offset == 1 {
            assert(edge_at_offset(1)(id) == f);
            assert(m1.contains(f));
        } else {
            assert(edge_at_offset(2)(id) == f);
            assert(m2.contains(f));
        }
    }
    lemma_len_subset(edge_set(dom), u);
}

/// A walk from an edge of the vertices stays on their edges.
pub proof fn lemma_walk_in(tw: spec_fn(EdgeKey) -> EdgeKey, dom: Set<u64>, e: EdgeKey, n: nat)
    requires
        pairs_up(tw, dom),
        edge_set(dom).contains(e),
    ensures
        edge_set(dom).contains(walk_by(tw, e, n)),
    decreases n,
{
    if n > 0 {
        lemma_walk_in(tw, dom, e, (n - 1) as nat);
        let w = walk_by(tw, e, (n - 1) as nat);
        assert(edge_set(dom).contains(tw(w)));
    }
}

/// Stepping to the next edge is one to one, so two equal points of a walk
/// give a return to the start.
pub proof fn lemma_walk_back(tw: spec_fn(EdgeKey) -> EdgeKey, dom: Set<u64>, e: EdgeKey, i: nat, j: nat)
    requires
        pairs_up(tw, dom),
        edge_set(dom).contains(e),
        i <= j,
        walk_by(tw, e, i) == walk_by(tw, e, j),
    ensures
        walk_by(tw, e, (j - i) as nat) == e,
    decreases i,
{
    if i > 0 {
        let a = walk_by(tw, e, (i - 1) as nat);
        let b = walk_by(tw, e, (j - 1) as nat);
        lemma_walk_in(tw, dom, e, (i - 1) as nat);
        lemma_walk_in(tw, dom, e, (j - 1) as nat);
        assert(edge_set(dom).contains(tw(a)) && edge_set(dom).contains(tw(b)));
        assert(tw(a).spec_prev_on_vertex() == tw(b).spec_prev_on_vertex());
        assert(tw(a) == tw(b));
        assert(a == tw(tw(a)) && b == tw(tw(b)));
        lemma_walk_back(tw, dom, e, (i - 1) as nat, (j - 1) as nat);
    }
}

/// A walk that comes back after `n0` steps comes back first after some
/// number of steps no larger.
pub proof fn lemma_first_return(tw: spec_fn(EdgeKey) -> EdgeKey, e: EdgeKey, n0: nat)
    requires
        n0 >= 1,
        walk_by(tw, e, n0) == e,
    ensures
        exists|n: nat| 1 <= n <= n0 && walk_by(tw, e, n) == e
            && forall|i: nat| 0 < i < n ==> #[trigger] walk_by(tw, e, i) != e,
    decreases n0,
{
    if exists|i: nat| 0 < i < n0 && #[trigger] walk_by(tw, e, i) == e {
        let i = choose|i: nat| 0 < i < n0 && #[trigger] walk_by(tw, e, i) == e;
        lemma_first_return(tw, e, i);
    } else {
        assert(forall|i: nat| 0 < i < n0 ==> #[trigger] walk_by(tw, e, i) != e);
    }
}

/// When the twins pair up the edges of at most 333 vertices, the walk from
/// any of their edges closes within a thousand steps.
pub proof fn law_paired_walks_close(tw: spec_fn(EdgeKey) -> EdgeKey, dom: Set<u64>, e: EdgeKey)
    requires
        dom.finite(),
        3 * dom.len() <= 999,
        pairs_up(tw, dom),
        edge_set(dom).contains(e),
    ensures
        closes_by(tw, dom, e),
{
    lemma_edge_set_size(dom);
    let big = 3 * dom.len();
    let s = Seq::new((big + 1) as nat, |i: int| walk_by(tw, e, i as nat));
    assert forall|x: EdgeKey| s.to_set().contains(x) implies edge_set(dom).contains(x) by {
        let i = choose|i: int| 0 <= i < s.len() && s[i] == x;
        lemma_walk_in(tw, dom, e, i as nat);
    }
    lemma_len_subset(s.to_set(), edge_set(dom));
    if s.no_duplicates() {
        s.unique_seq_to_set();
        assert(false);
    }
    let (i, j) = choose|i: int, j: int| 0 <= i < s.len() && 0 <= j < s.len() && i != j && s[i] == s[j];
    let (lo, hi) = if i < j { (i, j) } else { (j, i) };
    assert(walk_by(tw, e, lo as nat) == walk_by(tw, e, hi as nat));
    lemma_walk_back(tw, dom, e, lo as nat, hi as nat);
    lemma_first_return(tw, e, (hi - lo) as nat);
    let n = choose|n: nat| 1 <= n <= (hi - lo) as nat && walk_by(tw, e, n) == e
        && forall|k: nat| 0 < k < n ==> #[trigger] walk_by(tw, e, k) != e;
    assert forall|k: nat| k < n implies (#[trigger] walk_by(tw, e, k)).offset < 3
        && dom.contains(walk_by(tw, e, k).vertex.id) && tw(walk_by(tw, e, k)).valid() by {
        lemma_walk_in(tw, dom, e, k);
        assert(edge_set(dom).contains(tw(walk_by(tw, e, k))));
    }
    assert(closes_by_at(tw, dom, e, n));
}

/// In a graph that keeps its invariants, the twins pair up the edges, and
/// every edge names an existing bubble.
pub proof fn lemma_sane_pairs(vs: Map<u64, Vertex>, bs: Map<u64, Bubble>)
    requires
        keys_valid(vs, bs),
        sane(vs, bs),
    ensures
        pairs_up(twins(vs), vs.dom()),
        forall|f: EdgeKey| #[trigger] has_edge(vs, f) ==> bs.dom().contains(bubble_of(vs, f).id),
{
    assert forall|f: EdgeKey| #[trigger] edge_set(vs.dom()).contains(f) implies
        edge_set(vs.dom()).contains(twins(vs)(f)) && twins(vs)(twins(vs)(f)) == f by {
        assert(has_edge(vs, f));
        let (b, i) = choose|b: u64, i: int| bs.dom().contains(b) && 0 <= i < bs[b].edges@.len() && #[trigger] bs[b].edges@[i] == f;
        assert(crate::graph::spec::boundary_ok(vs, bs, b, i));
    }
    assert forall|f: EdgeKey| #[trigger] has_edge(vs, f) implies bs.dom().contains(bubble_of(vs, f).id) by {
        let (b, i) = choose|b: u64, i: int| bs.dom().contains(b) && 0 <= i < bs[b].edges@.len() && #[trigger] bs[b].edges@[i] == f;
        assert(crate::graph::spec::boundary_ok(vs, bs, b, i));
    }
}

/// In a graph of at most 333 vertices that keeps its invariants, the
/// boundary walk from every edge closes within a thousand steps, so every
/// edge can be rebubbled.
pub proof fn law_sane_walks_close(vs: Map<u64, Vertex>, bs: Map<u64, Bubble>, e: EdgeKey)
    requires
        keys_valid(vs, bs),
        sane(vs, bs),
        vs.dom().finite(),
        3 * vs.dom().len() <= 999,
        has_edge(vs, e),
    ensures
        closes(vs, e),
{
    lemma_sane_pairs(vs, bs);
    law_paired_walks_close(twins(vs), vs.dom(), e);
    lemma_twins_are_twins(vs);
    lemma_closes_by(vs, twins(vs), e);
}

/// The six edges around the wall of `e` differ: the edge, its twin, the
/// edges before both at their vertices, and the twins of those two.
pub open spec fn slide_six_distinct(vs: Map<u64, Vertex>, e: EdgeKey) -> bool {
    let t = twin_of(vs, e);
    let ep = e.spec_prev_on_vertex();
    let tp = t.spec_prev_on_vertex();
    let x = twin_of(vs, ep);
    let y = twin_of(vs, tp);
    &&& e != t && e != ep && e != tp && e != x && e != y
    &&& t != ep && t != tp && t != x && t != y
    &&& ep != tp && ep != x && ep != y
    &&& tp != x && tp != y
    &&& x != y
}

/// When the twins pair up the edges and the six edges around the wall of
/// `e` differ, the twins after its slide pair them up too.
pub proof fn lemma_slide_pairs(vs: Map<u64, Vertex>, e: EdgeKey)
    requires
        pairs_up(twins(vs), vs.dom()),
        edge_set(vs.dom()).contains(e),
        slide_six_distinct(vs, e),
    ensures
        pairs_up(slide_twins(vs, e), vs.dom()),
{
    let d = vs.dom();
    let tw = twins(vs);
    let t = tw(e);
    let ep = e.spec_prev_on_vertex();
    let tp = t.spec_prev_on_vertex();
    let x = tw(ep);
    let y = tw(tp);
    assert(edge_set(d).contains(t) && tw(t) == e);
    assert(edge_set(d).contains(ep) && edge_set(d).contains(tp));
    assert(edge_set(d).contains(x) && tw(x) == ep);
    assert(edge_set(d).contains(y) && tw(y) == tp);
    let tw2 = slide_twins(vs, e);
    assert(tw2 == linked(linked(linked(tw, e, y), t, x), tp, ep)) by {
        reveal(slide_twins);
    }
    assert(tw2(e) == y && tw2(y) == e && tw2(t) == x && tw2(x) == t && tw2(tp) == ep && tw2(ep) == tp);
    assert forall|f: EdgeKey| #[trigger] edge_set(d).contains(f) implies edge_set(d).contains(tw2(f)) && tw2(tw2(f)) == f by {
        if f != e && f != t && f != ep && f != tp && f != x && f != y {
            let g = tw(f);
            assert(edge_set(d).contains(g) && tw(g) == f);
            assert(g != e && g != t && g != ep && g != tp && g != x && g != y);
            assert(tw2(f) == g && tw2(g) == f);
        }
    }
}

/// With paired twins and existing bubbles, what a slide of a wall with six
/// distinct edges around it reads exists and its walks close.
proof fn lemma_slide_ready_paired(vs: Map<u64, Vertex>, bs: Map<u64, Bubble>, e: EdgeKey)
    requires
        vs.dom().finite(),
        3 * vs.dom().len() <= 999,
        pairs_up(twins(vs), vs.dom()),
        forall|f: EdgeKey| #[trigger] has_edge(vs, f) ==> bs.dom().contains(bubble_of(vs, f).id),
        has_edge(vs, e),
        slide_six_distinct(vs, e),
    ensures
        slide_reads_ok(vs, bs, e),
{
    let d = vs.dom();
    let tw = twins(vs);
    let t = twin_of(vs, e);
    let ep = e.spec_prev_on_vertex();
    let tp = t.spec_prev_on_vertex();
    assert(edge_set(d).contains(e));
    assert(edge_set(d).contains(t));
    assert(edge_set(d).contains(ep) && edge_set(d).contains(tp));
    assert(edge_set(d).contains(tw(ep)) && edge_set(d).contains(tw(tp)));
    assert(has_edge(vs, t) && has_edge(vs, tw(ep)) && has_edge(vs, tw(tp)));
    lemma_slide_pairs(vs, e);
    let tw2 = slide_twins(vs, e);
    law_paired_walks_close(tw2, d, e);
    law_paired_walks_close(tw2, d, t);
    law_paired_walks_close(tw2, d, ep);
    law_paired_walks_close(tw2, d, tp);
}

/// A slide of the wall of `e` can be done on a graph of at most 333
/// vertices that keeps its invariants, when the six edges around the wall
/// differ.
pub proof fn law_slide_ready(vs: Map<u64, Vertex>, bs: Map<u64, Bubble>, e: EdgeKey)
    requires
        keys_valid(vs, bs),
        sane(vs, bs),
        vs.dom().finite(),
        3 * vs.dom().len() <= 999,
        has_edge(vs, e),
        slide_six_distinct(vs, e),
    ensures
        slide_reads_ok(vs, bs, e),
{
    lemma_sane_pairs(vs, bs);
    lemma_slide_ready_paired(vs, bs, e);
}

/// A spawn at vertex `v` can be done on a graph of at most 331 vertices
/// that keeps its invariants and has room for one more bubble, when the
/// twins of the vertex's first two edges are not among those two edges.
pub proof fn law_spawn_ready(vs: Map<u64, Vertex>, bs: Map<u64, Bubble>, v: VertexKey)
    requires
        keys_valid(vs, bs),
        sane(vs, bs),
        vs.dom().finite(),
        bs.dom().finite(),
        3 * (vs.dom().len() + 2) <= 999,
        bs.dom().len() < 0xFFFF_FFFE,
        vs.dom().contains(v.id),
        twin_of(vs, ek(v, 0)) != ek(v, 0) && twin_of(vs, ek(v, 0)) != ek(v, 1),
        twin_of(vs, ek(v, 1)) != ek(v, 0) && twin_of(vs, ek(v, 1)) != ek(v, 1),
    ensures
        spawn_reads_ok(vs, bs, v),
{
    lemma_sane_pairs(vs, bs);
    let v0 = ek(v, 0);
    let v1 = ek(v, 1);
    let v2 = ek(v, 2);
    assert(edge_set(vs.dom()).contains(v0) && edge_set(vs.dom()).contains(v1) && edge_set(vs.dom()).contains(v2));
    assert(has_edge(vs, v0) && has_edge(vs, v1) && has_edge(vs, v2));
    assert forall|k1: VertexKey, k2: VertexKey|
        !vs.dom().contains(k1.id) && !vs.dom().contains(k2.id) && k1 != k2 && issued_key(k1.id) && issued_key(k2.id)
        implies {
            let tw2 = #[trigger] spawn_twins(vs, v, k1, k2);
            let d = vs.dom().insert(k1.id).insert(k2.id);
            &&& closes_by(tw2, d, ek(v, 0))
            &&& closes_by(tw2, d, ek(v, 1))
            &&& closes_by(tw2, d, ek(v, 2))
            &&& closes_by(tw2, d, ek(k2, 0))
        } by {
        let d = vs.dom().insert(k1.id).insert(k2.id);
        let tw2 = spawn_twins(vs, v, k1, k2);
        assert(d.finite() && d.len() == vs.dom().len() + 2);
        crate::graph::growth::lemma_spawn_pairs(vs, v, k1, k2);
        assert(edge_set(d).contains(ek(v, 0)) && edge_set(d).contains(ek(v, 1)) && edge_set(d).contains(ek(v, 2)));
        assert(edge_set(d).contains(ek(k2, 0)));
        law_paired_walks_close(tw2, d, ek(v, 0));
        law_paired_walks_close(tw2, d, ek(v, 1));
        law_paired_walks_close(tw2, d, ek(v, 2));
        law_paired_walks_close(tw2, d, ek(k2, 0));
    }
}

/// A walk that closes among some vertices closes among more of them.
pub proof fn lemma_closes_by_more(tw: spec_fn(EdgeKey) -> EdgeKey, small: Set<u64>, big: Set<u64>, e: EdgeKey)
    requires
        closes_by(tw, small, e),
        small.subset_of(big),
    ensures
        closes_by(tw, big, e),
{
    let n = choose|n: nat| closes_by_at(tw, small, e, n);
    assert(closes_by_at(tw, big, e, n));
}

/// The wall of `e` joins two different vertices, the twins of the four
/// outer edges at them lie at other vertices, and those twins differ.
pub open spec fn merge_apart(vs: Map<u64, Vertex>, e: EdgeKey) -> bool {
    let t = twin_of(vs, e);
    let ent = twin_of(vs, e.spec_next_on_vertex());
    let ept = twin_of(vs, e.spec_prev_on_vertex());
    let tnt = twin_of(vs, t.spec_next_on_vertex());
    let tpt = twin_of(vs, t.spec_prev_on_vertex());
    &&& e.vertex.id != t.vertex.id
    &&& ent.vertex.id != e.vertex.id && ent.vertex.id != t.vertex.id
    &&& ept.vertex.id != e.vertex.id && ept.vertex.id != t.vertex.id
    &&& tnt.vertex.id != e.vertex.id && tnt.vertex.id != t.vertex.id
    &&& tpt.vertex.id != e.vertex.id && tpt.vertex.id != t.vertex.id
    &&& ent != ept && ent != tnt && ent != tpt && ept != tnt && ept != tpt && tnt != tpt
}

/// The merging step of a removal of the wall of `e` can link and rebubble
/// on a graph of at most 333 vertices that keeps its invariants, when the
/// wall joins two different vertices whose outer neighbors lie elsewhere
/// and differ: the edges it links exist and the walks it retraces close.
pub proof fn law_merge_ready(vs: Map<u64, Vertex>, bs: Map<u64, Bubble>, e: EdgeKey)
    requires
        keys_valid(vs, bs),
        sane(vs, bs),
        vs.dom().finite(),
        3 * vs.dom().len() <= 999,
        has_edge(vs, e),
        merge_apart(vs, e),
    ensures
        remove_case(vs, e) == 3,
        remove_links_ok(vs, e),
{
    lemma_sane_pairs(vs, bs);
    lemma_merge_pairs(vs, e);
    let d = vs.dom();
    let tw = twins(vs);
    let t = tw(e);
    assert(edge_set(d).contains(e));
    assert(edge_set(d).contains(e.spec_next_on_vertex()) && edge_set(d).contains(e.spec_prev_on_vertex()));
    assert(edge_set(d).contains(t));
    assert(edge_set(d).contains(t.spec_prev_on_vertex()) && edge_set(d).contains(t.spec_next_on_vertex()));
    let ent = tw(e.spec_next_on_vertex());
    let ept = tw(e.spec_prev_on_vertex());
    let tnt = tw(t.spec_next_on_vertex());
    let tpt = tw(t.spec_prev_on_vertex());
    assert(edge_set(d).contains(ent) && edge_set(d).contains(ept) && edge_set(d).contains(tnt) && edge_set(d).contains(tpt));
    let d2 = d.remove(e.vertex.id).remove(t.vertex.id);
    let tw2 = remove_twins(vs, e);
    assert(edge_set(d2).contains(ent) && edge_set(d2).contains(ept) && edge_set(d2).contains(tpt));
    lemma_edge_set_size(d);
    vstd::set_lib::lemma_len_subset(d2, d);
    law_paired_walks_close(tw2, d2, ent);
    law_paired_walks_close(tw2, d2, ept);
    law_paired_walks_close(tw2, d2, tpt);
    lemma_closes_by_more(tw2, d2, d, ent);
    lemma_closes_by_more(tw2, d2, d, ept);
    lemma_closes_by_more(tw2, d2, d, tpt);
}

/// The twins after the merging step of a removal of the wall of `e` pair
/// up the edges of the vertices without the wall's two, when the wall joins
/// two different vertices whose outer neighbors lie elsewhere and differ.
pub proof fn lemma_merge_pairs(vs: Map<u64, Vertex>, e: EdgeKey)
    requires
        pairs_up(twins(vs), vs.dom()),
        has_edge(vs, e),
        merge_apart(vs, e),
    ensures
        remove_case(vs, e) == 3,
        pairs_up(remove_twins(vs, e), vs.dom().remove(e.vertex.id).remove(twin_of(vs, e).vertex.id)),
{
    let d = vs.dom();
    let tw = twins(vs);
    let t = tw(e);
    let en = e.spec_next_on_vertex();
    let ep = e.spec_prev_on_vertex();
    assert(edge_set(d).contains(e) && edge_set(d).contains(en) && edge_set(d).contains(ep));
    assert(edge_set(d).contains(t));
    let tn = t.spec_next_on_vertex();
    let tp = t.spec_prev_on_vertex();
    assert(edge_set(d).contains(tn) && edge_set(d).contains(tp));
    let ent = tw(en);
    let ept = tw(ep);
    let tnt = tw(tn);
    let tpt = tw(tp);
    assert(edge_set(d).contains(ent) && edge_set(d).contains(ept) && edge_set(d).contains(tnt) && edge_set(d).contains(tpt));
    assert(tw(ent) == en && tw(ept) == ep && tw(tnt) == tn && tw(tpt) == tp && tw(t) == e);
    let d2 = d.remove(e.vertex.id).remove(t.vertex.id);
    let tw2 = remove_twins(vs, e);
    assert(remove_case(vs, e) == 3);
    assert(tw2 == linked(linked(tw, ent, ept), tnt, tpt)) by {
        reveal(remove_twins);
    }
    assert forall|f: EdgeKey| #[trigger] edge_set(d2).contains(f) implies edge_set(d2).contains(tw2(f)) && tw2(tw2(f)) == f by {
        assert(edge_set(d).contains(f));
        if f != ent && f != ept && f != tnt && f != tpt {
            let g = tw(f);
            assert(edge_set(d).contains(g) && tw(g) == f);
            if g.vertex.id == e.vertex.id {
                assert(g == e || g == en || g == ep);
            }
            if g.vertex.id == t.vertex.id {
                assert(g == t || g == tn || g == tp);
            }
            assert(g != ent && g != ept && g != tnt && g != tpt);
        }
    }
}

} // verus!
