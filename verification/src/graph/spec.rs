//! The mathematical model of the graph: boundary walks, orbits, and the
//! invariants that a well-formed graph keeps.
use vstd::prelude::*;
use crate::graph::bubble::{Bubble, BubbleKey, BubbleStyle};
use crate::graph::edge::EdgeKey;
use crate::graph::vertex::{edge_at, has_edge, next_edge, Vertex, VertexKey, NULL_KEY};
use crate::slots::{distinct_slots, issued_key, odd_version, slot_index};

verus! {

/// The twin of the edge `e` names.
pub open spec fn twin_of(vs: Map<u64, Vertex>, e: EdgeKey) -> EdgeKey {
    edge_at(vs, e).twin
}

/// The bubble that the edge `e` names claims.
pub open spec fn bubble_of(vs: Map<u64, Vertex>, e: EdgeKey) -> BubbleKey {
    edge_at(vs, e).bubble
}

/// The edge reached from `e` after `n` steps along bubble boundaries.
pub open spec fn walk(vs: Map<u64, Vertex>, e: EdgeKey, n: nat) -> EdgeKey
    decreases n,
{
    if n == 0 {
        e
    } else {
        next_edge(vs, walk(vs, e, (n - 1) as nat))
    }
}

/// The walk along the boundary from `e` comes back to `e` for the first
/// time after `n` steps, at most a thousand, and passes only through edges
/// of the map whose twins name a slot.
pub open spec fn closes_at(vs: Map<u64, Vertex>, e: EdgeKey, n: nat) -> bool {
    &&& 1 <= n <= 1000
    &&& walk(vs, e, n) == e
    &&& forall|i: nat| 0 < i < n ==> #[trigger] walk(vs, e, i) != e
    &&& forall|i: nat| i < n ==> has_edge(vs, #[trigger] walk(vs, e, i)) && twin_of(vs, walk(vs, e, i)).valid()
}

/// The walk from `e` closes within a thousand steps.
pub open spec fn closes(vs: Map<u64, Vertex>, e: EdgeKey) -> bool {
    exists|n: nat| closes_at(vs, e, n)
}

/// The number of steps after which the walk from `e` closes.
pub open spec fn orbit_len(vs: Map<u64, Vertex>, e: EdgeKey) -> nat {
    choose|n: nat| closes_at(vs, e, n)
}

/// The first `n` edges of the walk from `e`.
pub open spec fn boundary_from(vs: Map<u64, Vertex>, e: EdgeKey, n: nat) -> Seq<EdgeKey> {
    Seq::new(n, |i: int| walk(vs, e, i as nat))
}

/// The boundary cycle through `e`.
pub open spec fn orbit(vs: Map<u64, Vertex>, e: EdgeKey) -> Seq<EdgeKey> {
    boundary_from(vs, e, orbit_len(vs, e))
}

/// The walk closes after one number of steps only.
pub proof fn lemma_closes_unique(vs: Map<u64, Vertex>, e: EdgeKey, n: nat)
    requires
        closes_at(vs, e, n),
    ensures
        orbit_len(vs, e) == n,
{
    let m = orbit_len(vs, e);
    assert(closes_at(vs, e, m));
    if m < n {
        assert(walk(vs, e, m) != e);
    } else if n < m {
        assert(walk(vs, e, n) != e);
    }
}

/// Both maps hold the same vertices with the same twins.
pub open spec fn same_twins(a: Map<u64, Vertex>, b: Map<u64, Vertex>) -> bool {
    &&& a.dom() == b.dom()
    &&& forall|e: EdgeKey| #[trigger] has_edge(a, e) ==> twin_of(b, e) == twin_of(a, e)
}

/// The walk only depends on the twins.
pub proof fn lemma_walk_same_twins(a: Map<u64, Vertex>, b: Map<u64, Vertex>, e: EdgeKey, n: nat)
    requires
        same_twins(a, b),
        forall|i: nat| i < n ==> has_edge(a, #[trigger] walk(a, e, i)),
    ensures
        walk(b, e, n) == walk(a, e, n),
    decreases n,
{
    if n > 0 {
        lemma_walk_same_twins(a, b, e, (n - 1) as nat);
        assert(has_edge(a, walk(a, e, (n - 1) as nat)));
    }
}


/// Every key the structure stores names a slot, and every vertex key has an
/// odd version, as every key a slot map hands out does: the keys of the
/// maps, the twins of all edges, and the edges of every boundary list.
pub open spec fn keys_valid(vs: Map<u64, Vertex>, bs: Map<u64, Bubble>) -> bool {
    &&& forall|k: u64| #[trigger] vs.dom().contains(k) ==> issued_key(k)
    &&& forall|k: u64| #[trigger] bs.dom().contains(k) ==> issued_key(k)
    &&& forall|e: EdgeKey| #[trigger] has_edge(vs, e) ==>
        twin_of(vs, e).valid() && odd_version(twin_of(vs, e).vertex.id)
    &&& forall|b: u64, i: int| bs.dom().contains(b) && 0 <= i < bs[b].edges@.len() ==>
        (#[trigger] bs[b].edges@[i]).valid() && odd_version(bs[b].edges@[i].vertex.id)
}

/// The `i`-th edge of the boundary list of bubble `b` is in order: its
/// vertex exists and it claims `b`, its twin's vertex exists and the twin's
/// twin is the edge, and the next edge on the bubble is the next in the list.
pub open spec fn boundary_ok(vs: Map<u64, Vertex>, bs: Map<u64, Bubble>, b: u64, i: int) -> bool {
    let es = bs[b].edges@;
    let e = es[i];
    &&& vs.dom().contains(e.vertex.id)
    &&& bubble_of(vs, e).id == b
    &&& vs.dom().contains(twin_of(vs, e).vertex.id)
    &&& twin_of(vs, twin_of(vs, e)) == e
    &&& next_edge(vs, e) == es[(i + 1) % (es.len() as int)]
}

/// The edge `e` is in the boundary list of some bubble.
pub open spec fn listed(bs: Map<u64, Bubble>, e: EdgeKey) -> bool {
    exists|b: u64, i: int| bs.dom().contains(b) && 0 <= i < bs[b].edges@.len() && #[trigger] bs[b].edges@[i] == e
}

/// `b` is the one open-air bubble.
pub open spec fn sole_open_air(bs: Map<u64, Bubble>, b: u64) -> bool {
    &&& bs.dom().contains(b)
    &&& bs[b].style.is_open_air()
    &&& forall|j: u64| bs.dom().contains(j) && (#[trigger] bs[j].style).is_open_air() ==> j == b
}

/// The invariants of the boundary lists: every bubble has a boundary; every
/// listed edge is in order; no edge is listed twice; there is exactly one
/// open-air bubble; and every edge is listed.
pub open spec fn listing_ok(vs: Map<u64, Vertex>, bs: Map<u64, Bubble>) -> bool {
    &&& forall|b: u64| #[trigger] bs.dom().contains(b) ==> bs[b].edges@.len() > 0
    &&& forall|b: u64, i: int| bs.dom().contains(b) && 0 <= i < bs[b].edges@.len() ==> #[trigger] boundary_ok(vs, bs, b, i)
    &&& forall|b1: u64, i1: int, b2: u64, i2: int|
        bs.dom().contains(b1) && 0 <= i1 < bs[b1].edges@.len() && bs.dom().contains(b2) && 0 <= i2 < bs[b2].edges@.len()
        && (b1 != b2 || i1 != i2) ==> #[trigger] bs[b1].edges@[i1] != #[trigger] bs[b2].edges@[i2]
    &&& exists|b: u64| sole_open_air(bs, b)
    &&& forall|e: EdgeKey| #[trigger] has_edge(vs, e) ==> listed(bs, e)
}

/// The counts obey Euler's formula for a trivalent planar graph:
/// `V = 2 (B - 2)`.
pub open spec fn euler_ok(vs: Map<u64, Vertex>, bs: Map<u64, Bubble>) -> bool {
    vs.dom().len() + 4 == 2 * bs.dom().len()
}

/// The invariants of the graph: the boundary lists are in order and the
/// counts obey Euler's formula.
pub open spec fn sane(vs: Map<u64, Vertex>, bs: Map<u64, Bubble>) -> bool {
    listing_ok(vs, bs) && euler_ok(vs, bs)
}

/// The key of the edge at offset `o` of vertex `v`.
pub open spec fn ek(v: VertexKey, o: u8) -> EdgeKey {
    EdgeKey { vertex: v, offset: o }
}

/// The graph that `Graph::new` builds: two vertices `v1`, `v2` joined by
/// three walls, which bound the bubbles `b1` (style `s1`), `b2` (style `s2`)
/// and `b3` (the open air), each with a boundary of two edges.
pub open spec fn initial_graph(
    vs: Map<u64, Vertex>,
    bs: Map<u64, Bubble>,
    v1: VertexKey,
    v2: VertexKey,
    b1: BubbleKey,
    b2: BubbleKey,
    b3: BubbleKey,
    s1: BubbleStyle,
    s2: BubbleStyle,
) -> bool {
    &&& vs.dom() == set![v1.id, v2.id]
    &&& bs.dom() == set![b1.id, b2.id, b3.id]
    &&& v1 != v2 && b1 != b2 && b1 != b3 && b2 != b3
    &&& twin_of(vs, ek(v1, 0)) == ek(v2, 0) && twin_of(vs, ek(v2, 0)) == ek(v1, 0)
    &&& twin_of(vs, ek(v1, 1)) == ek(v2, 2) && twin_of(vs, ek(v2, 2)) == ek(v1, 1)
    &&& twin_of(vs, ek(v1, 2)) == ek(v2, 1) && twin_of(vs, ek(v2, 1)) == ek(v1, 2)
    &&& bubble_of(vs, ek(v1, 0)) == b1 && bubble_of(vs, ek(v2, 2)) == b1
    &&& bubble_of(vs, ek(v1, 1)) == b2 && bubble_of(vs, ek(v2, 1)) == b2
    &&& bubble_of(vs, ek(v1, 2)) == b3 && bubble_of(vs, ek(v2, 0)) == b3
    &&& bs[b1.id].style == s1 && bs[b1.id].edges@ == seq![ek(v1, 0), ek(v2, 2)]
    &&& bs[b2.id].style == s2 && bs[b2.id].edges@ == seq![ek(v1, 1), ek(v2, 1)]
    &&& bs[b3.id].style == BubbleStyle::OpenAir && bs[b3.id].edges@ == seq![ek(v1, 2), ek(v2, 0)]
}

/// A walk that closes keeps closing after a change that keeps the twins.
pub proof fn lemma_closes_same_twins(a: Map<u64, Vertex>, b: Map<u64, Vertex>, e: EdgeKey, n: nat)
    requires
        same_twins(a, b),
        closes_at(a, e, n),
    ensures
        closes_at(b, e, n),
        orbit(b, e) == orbit(a, e),
{
    assert forall|i: nat| i <= n implies walk(b, e, i) == walk(a, e, i) by {
        lemma_walk_same_twins(a, b, e, i);
    }
    assert forall|i: nat| i < n implies has_edge(b, #[trigger] walk(b, e, i)) && twin_of(b, walk(b, e, i)).valid() by {
        assert(walk(b, e, i) == walk(a, e, i));
        assert(has_edge(a, walk(a, e, i)));
    }
    assert forall|i: nat| 0 < i < n implies #[trigger] walk(b, e, i) != e by {
        assert(walk(b, e, i) == walk(a, e, i));
    }
    lemma_closes_unique(b, e, n);
    lemma_closes_unique(a, e, n);
    assert(orbit(b, e) =~= orbit(a, e));
}

/// Keeping the twins is transitive.
pub proof fn lemma_same_twins_trans(a: Map<u64, Vertex>, b: Map<u64, Vertex>, c: Map<u64, Vertex>)
    requires
        same_twins(a, b),
        same_twins(b, c),
    ensures
        same_twins(a, c),
{
    assert forall|e: EdgeKey| #[trigger] has_edge(a, e) implies twin_of(c, e) == twin_of(a, e) by {
        assert(has_edge(b, e));
    }
}

/// The edges of the initial graph are the six edges of its two vertices.
pub proof fn lemma_initial_edges(vs: Map<u64, Vertex>, v1: VertexKey, v2: VertexKey, e: EdgeKey)
    requires
        vs.dom() == set![v1.id, v2.id],
        has_edge(vs, e),
    ensures
        e == ek(v1, 0) || e == ek(v1, 1) || e == ek(v1, 2) || e == ek(v2, 0) || e == ek(v2, 1) || e == ek(v2, 2),
{
    assert(set![v1.id, v2.id].contains(e.vertex.id));
    if e.vertex.id == v1.id {
        assert(e.vertex == v1);
    } else {
        assert(e.vertex == v2);
    }
}

/// The initial graph stores only valid keys.
pub proof fn lemma_initial_keys_valid(
    vs: Map<u64, Vertex>,
    bs: Map<u64, Bubble>,
    v1: VertexKey,
    v2: VertexKey,
    b1: BubbleKey,
    b2: BubbleKey,
    b3: BubbleKey,
    s1: BubbleStyle,
    s2: BubbleStyle,
)
    requires
        initial_graph(vs, bs, v1, v2, b1, b2, b3, s1, s2),
        issued_key(v1.id) && issued_key(v2.id),
        issued_key(b1.id) && issued_key(b2.id) && issued_key(b3.id),
    ensures
        keys_valid(vs, bs),
{
    assert forall|e: EdgeKey| #[trigger] has_edge(vs, e) implies twin_of(vs, e).valid() && odd_version(twin_of(vs, e).vertex.id) by {
        lemma_initial_edges(vs, v1, v2, e);
    }
    assert forall|k: u64| #[trigger] vs.dom().contains(k) implies issued_key(k) by {
        assert(set![v1.id, v2.id].contains(k));
    }
    assert forall|k: u64| #[trigger] bs.dom().contains(k) implies issued_key(k) by {
        assert(set![b1.id, b2.id, b3.id].contains(k));
    }
    assert forall|b: u64, i: int| bs.dom().contains(b) && 0 <= i < bs[b].edges@.len() implies
        (#[trigger] bs[b].edges@[i]).valid() && odd_version(bs[b].edges@[i].vertex.id) by {
        assert(set![b1.id, b2.id, b3.id].contains(b));
    }
}

/// The initial graph keeps the invariants when only the third bubble is the
/// open air.
pub proof fn lemma_initial_sane(
    vs: Map<u64, Vertex>,
    bs: Map<u64, Bubble>,
    v1: VertexKey,
    v2: VertexKey,
    b1: BubbleKey,
    b2: BubbleKey,
    b3: BubbleKey,
    s1: BubbleStyle,
    s2: BubbleStyle,
)
    requires
        initial_graph(vs, bs, v1, v2, b1, b2, b3, s1, s2),
        !s1.is_open_air(),
        !s2.is_open_air(),
    ensures
        sane(vs, bs),
{
    assert forall|b: u64| #[trigger] bs.dom().contains(b) implies bs[b].edges@.len() > 0 by {
        assert(set![b1.id, b2.id, b3.id].contains(b));
    }
    assert forall|b: u64, i: int| bs.dom().contains(b) && 0 <= i < bs[b].edges@.len() implies #[trigger] boundary_ok(vs, bs, b, i) by {
        assert(set![b1.id, b2.id, b3.id].contains(b));
        assert(set![v1.id, v2.id].contains(v1.id) && set![v1.id, v2.id].contains(v2.id));
    }
    assert forall|x1: u64, i1: int, x2: u64, i2: int|
        bs.dom().contains(x1) && 0 <= i1 < bs[x1].edges@.len() && bs.dom().contains(x2) && 0 <= i2 < bs[x2].edges@.len()
        && (x1 != x2 || i1 != i2) implies #[trigger] bs[x1].edges@[i1] != #[trigger] bs[x2].edges@[i2] by {
        assert(set![b1.id, b2.id, b3.id].contains(x1));
        assert(set![b1.id, b2.id, b3.id].contains(x2));
    }
    assert(sole_open_air(bs, b3.id)) by {
        assert forall|j: u64| bs.dom().contains(j) && (#[trigger] bs[j].style).is_open_air() implies j == b3.id by {
            assert(set![b1.id, b2.id, b3.id].contains(j));
        }
    }
    assert forall|e: EdgeKey| #[trigger] has_edge(vs, e) implies listed(bs, e) by {
        lemma_initial_edges(vs, v1, v2, e);
        assert(set![b1.id, b2.id, b3.id].contains(b1.id));
        assert(set![b1.id, b2.id, b3.id].contains(b2.id));
        assert(set![b1.id, b2.id, b3.id].contains(b3.id));
        if e == ek(v1, 0) {
            assert(bs[b1.id].edges@[0] == e);
        } else if e == ek(v2, 2) {
            assert(bs[b1.id].edges@[1] == e);
        } else if e == ek(v1, 1) {
            assert(bs[b2.id].edges@[0] == e);
        } else if e == ek(v2, 1) {
            assert(bs[b2.id].edges@[1] == e);
        } else if e == ek(v1, 2) {
            assert(bs[b3.id].edges@[0] == e);
        } else {
            assert(bs[b3.id].edges@[1] == e);
        }
    }
    assert(vs.dom().len() == 2) by {
        assert(vs.dom() =~= set![v1.id].insert(v2.id));
    }
    assert(bs.dom().len() == 3) by {
        assert(bs.dom() =~= set![b1.id].insert(b2.id).insert(b3.id));
    }
}

/// The edge reached from `e` after `n` boundary steps when the twin of an
/// edge `f` is `tw(f)`.
pub open spec fn walk_by(tw: spec_fn(EdgeKey) -> EdgeKey, e: EdgeKey, n: nat) -> EdgeKey
    decreases n,
{
    if n == 0 {
        e
    } else {
        tw(walk_by(tw, e, (n - 1) as nat)).spec_prev_on_vertex()
    }
}

/// With twins `tw` on the vertices `dom`, the walk from `e` first comes back
/// to `e` after `n` steps, at most a thousand, through edges of those
/// vertices whose twins name a slot.
pub open spec fn closes_by_at(tw: spec_fn(EdgeKey) -> EdgeKey, dom: Set<u64>, e: EdgeKey, n: nat) -> bool {
    &&& 1 <= n <= 1000
    &&& walk_by(tw, e, n) == e
    &&& forall|i: nat| 0 < i < n ==> #[trigger] walk_by(tw, e, i) != e
    &&& forall|i: nat| i < n ==> (#[trigger] walk_by(tw, e, i)).offset < 3
        && dom.contains(walk_by(tw, e, i).vertex.id) && tw(walk_by(tw, e, i)).valid()
}

/// With twins `tw` on the vertices `dom`, the walk from `e` closes within a
/// thousand steps.
pub open spec fn closes_by(tw: spec_fn(EdgeKey) -> EdgeKey, dom: Set<u64>, e: EdgeKey) -> bool {
    exists|n: nat| closes_by_at(tw, dom, e, n)
}

/// With twins `tw` on the vertices `dom`, the boundary cycle through `e`.
pub open spec fn orbit_by(tw: spec_fn(EdgeKey) -> EdgeKey, dom: Set<u64>, e: EdgeKey) -> Seq<EdgeKey> {
    let n = choose|n: nat| closes_by_at(tw, dom, e, n);
    Seq::new(n, |i: int| walk_by(tw, e, i as nat))
}

/// The twins of the map are those that `tw` gives.
pub open spec fn twins_are(vs: Map<u64, Vertex>, tw: spec_fn(EdgeKey) -> EdgeKey) -> bool {
    forall|f: EdgeKey| #[trigger] has_edge(vs, f) ==> twin_of(vs, f) == tw(f)
}

pub proof fn lemma_walk_by(vs: Map<u64, Vertex>, tw: spec_fn(EdgeKey) -> EdgeKey, e: EdgeKey, n: nat)
    requires
        twins_are(vs, tw),
        forall|i: nat| i < n ==> has_edge(vs, #[trigger] walk_by(tw, e, i)),
    ensures
        walk(vs, e, n) == walk_by(tw, e, n),
    decreases n,
{
    if n > 0 {
        lemma_walk_by(vs, tw, e, (n - 1) as nat);
        assert(has_edge(vs, walk_by(tw, e, (n - 1) as nat)));
    }
}

/// A walk that closes under the twins `tw` closes in a map with those twins,
/// along the same cycle.
pub proof fn lemma_closes_by(vs: Map<u64, Vertex>, tw: spec_fn(EdgeKey) -> EdgeKey, e: EdgeKey)
    requires
        twins_are(vs, tw),
        closes_by(tw, vs.dom(), e),
    ensures
        closes(vs, e),
        orbit(vs, e) == orbit_by(tw, vs.dom(), e),
{
    let n = choose|n: nat| closes_by_at(tw, vs.dom(), e, n);
    assert forall|i: nat| i <= n implies walk(vs, e, i) == walk_by(tw, e, i) by {
        assert forall|j: nat| j < i implies has_edge(vs, #[trigger] walk_by(tw, e, j)) by {
            assert(walk_by(tw, e, j).offset < 3);
        }
        lemma_walk_by(vs, tw, e, i);
    }
    assert forall|i: nat| i < n implies has_edge(vs, #[trigger] walk(vs, e, i)) && twin_of(vs, walk(vs, e, i)).valid() by {
        assert(walk(vs, e, i) == walk_by(tw, e, i));
        assert(walk_by(tw, e, i).offset < 3);
        assert(has_edge(vs, walk_by(tw, e, i)));
    }
    assert forall|i: nat| 0 < i < n implies #[trigger] walk(vs, e, i) != e by {
        assert(walk(vs, e, i) == walk_by(tw, e, i));
    }
    assert(closes_at(vs, e, n));
    lemma_closes_unique(vs, e, n);
    assert(orbit(vs, e) =~= orbit_by(tw, vs.dom(), e));
}

/// The twin of `f` after `a` and `b` are linked as twins, when the twins
/// before are `tw`.
pub open spec fn linked(tw: spec_fn(EdgeKey) -> EdgeKey, a: EdgeKey, b: EdgeKey) -> spec_fn(EdgeKey) -> EdgeKey {
    |f: EdgeKey| if f == b { a } else if f == a { b } else { tw(f) }
}

/// The twins of a map.
pub open spec fn twins(vs: Map<u64, Vertex>) -> spec_fn(EdgeKey) -> EdgeKey {
    |f: EdgeKey| twin_of(vs, f)
}

/// The bubble that rebubbling along `chain`, in order, leaves on `f`, when
/// it had `old` before: the bubble of the last cycle through `f`.
pub open spec fn chain_label(chain: Seq<(BubbleKey, Seq<EdgeKey>)>, f: EdgeKey, old: BubbleKey) -> BubbleKey
    decreases chain.len(),
{
    if chain.len() == 0 {
        old
    } else if chain.last().1.contains(f) {
        chain.last().0
    } else {
        chain_label(chain.drop_last(), f, old)
    }
}

/// The boundary list that rebubbling along `chain`, in order, leaves on
/// bubble `b`, when it had `old` before: the last cycle given to `b`.
pub open spec fn chain_list(chain: Seq<(BubbleKey, Seq<EdgeKey>)>, b: u64, old: Seq<EdgeKey>) -> Seq<EdgeKey>
    decreases chain.len(),
{
    if chain.len() == 0 {
        old
    } else if chain.last().0.id == b {
        chain.last().1
    } else {
        chain_list(chain.drop_last(), b, old)
    }
}

/// The state `(vs, bs)` is `(vs0, bs0)` after rebubbling along `chain`,
/// with the twins unchanged.
pub open spec fn rebubbled(
    vs0: Map<u64, Vertex>,
    bs0: Map<u64, Bubble>,
    vs: Map<u64, Vertex>,
    bs: Map<u64, Bubble>,
    chain: Seq<(BubbleKey, Seq<EdgeKey>)>,
) -> bool {
    &&& same_twins(vs0, vs)
    &&& forall|f: EdgeKey| #[trigger] has_edge(vs0, f) ==> bubble_of(vs, f) == chain_label(chain, f, bubble_of(vs0, f))
    &&& bs.dom() == bs0.dom()
    &&& forall|b: u64| #[trigger] bs0.dom().contains(b) ==> bs[b].style == bs0[b].style
        && bs[b].edges@ == chain_list(chain, b, bs0[b].edges@)
}

/// The structure holds together: its keys are valid, every edge's twin is
/// an edge of the graph, and every edge's bubble is a bubble of the graph.
pub open spec fn graph_ok(vs: Map<u64, Vertex>, bs: Map<u64, Bubble>) -> bool {
    &&& keys_valid(vs, bs)
    &&& forall|e: EdgeKey| #![trigger twin_of(vs, e)] has_edge(vs, e) ==> has_edge(vs, twin_of(vs, e))
    &&& forall|e: EdgeKey| #[trigger] has_edge(vs, e) ==> bs.dom().contains(bubble_of(vs, e).id)
    &&& forall|b: u64, i: int| bs.dom().contains(b) && 0 <= i < bs[b].edges@.len() ==>
        has_edge(vs, #[trigger] bs[b].edges@[i])
}

/// `(vs2, bs2)` is `(vs1, bs1)` after the bubble `b` got the cycle `o`:
/// the twins stay, the edges of `o` claim `b`, and `b`'s list becomes `o`.
pub open spec fn rebubble_post(
    vs1: Map<u64, Vertex>,
    bs1: Map<u64, Bubble>,
    vs2: Map<u64, Vertex>,
    bs2: Map<u64, Bubble>,
    b: BubbleKey,
    o: Seq<EdgeKey>,
) -> bool {
    &&& same_twins(vs1, vs2)
    &&& forall|f: EdgeKey| #[trigger] has_edge(vs1, f) ==>
        bubble_of(vs2, f) == (if o.contains(f) { b } else { bubble_of(vs1, f) })
    &&& bs2.dom() == bs1.dom()
    &&& bs2[b.id].style == bs1[b.id].style
    &&& bs2[b.id].edges@ == o
    &&& forall|j: u64| j != b.id && bs1.dom().contains(j) ==> #[trigger] bs2[j] == bs1[j]
}

pub proof fn lemma_rebubbled_start(vs: Map<u64, Vertex>, bs: Map<u64, Bubble>)
    ensures
        rebubbled(vs, bs, vs, bs, Seq::empty()),
{
}

/// One more rebubbling extends the chain.
pub proof fn lemma_rebubbled_push(
    vs0: Map<u64, Vertex>,
    bs0: Map<u64, Bubble>,
    vs1: Map<u64, Vertex>,
    bs1: Map<u64, Bubble>,
    vs2: Map<u64, Vertex>,
    bs2: Map<u64, Bubble>,
    chain: Seq<(BubbleKey, Seq<EdgeKey>)>,
    b: BubbleKey,
    o: Seq<EdgeKey>,
)
    requires
        rebubbled(vs0, bs0, vs1, bs1, chain),
        rebubble_post(vs1, bs1, vs2, bs2, b, o),
        bs1.dom().contains(b.id),
    ensures
        rebubbled(vs0, bs0, vs2, bs2, chain.push((b, o))),
{
    let c2 = chain.push((b, o));
    assert(c2.drop_last() =~= chain);
    lemma_same_twins_trans(vs0, vs1, vs2);
    assert forall|f: EdgeKey| #[trigger] has_edge(vs0, f) implies bubble_of(vs2, f) == chain_label(c2, f, bubble_of(vs0, f)) by {
        assert(has_edge(vs1, f));
    }
    assert forall|j: u64| #[trigger] bs0.dom().contains(j) implies bs2[j].style == bs0[j].style
        && bs2[j].edges@ == chain_list(c2, j, bs0[j].edges@) by {
        assert(bs1.dom().contains(j));
    }
}
/// The twins after a slide of `e`: with `t` its twin, `ep` and `tp` the
/// edges before `e` and `t` at their vertices, and `x`, `y` the twins of
/// `ep`, `tp`, the slide links `e` with `y`, `t` with `x`, then `tp` with `ep`.
#[verifier::opaque]
pub open spec fn slide_twins(vs: Map<u64, Vertex>, e: EdgeKey) -> spec_fn(EdgeKey) -> EdgeKey {
    let t = twin_of(vs, e);
    let ep = e.spec_prev_on_vertex();
    let tp = t.spec_prev_on_vertex();
    let x = twin_of(vs, ep);
    let y = twin_of(vs, tp);
    linked(linked(linked(twins(vs), e, y), t, x), tp, ep)
}

/// A slide of `e` flips the wall: the bubbles on the far sides of the two
/// edges before `e` and its twin differ, so no bubble comes to border itself.
pub open spec fn slide_flips(vs: Map<u64, Vertex>, e: EdgeKey) -> bool {
    let t = twin_of(vs, e);
    bubble_of(vs, twin_of(vs, e.spec_prev_on_vertex())) != bubble_of(vs, twin_of(vs, t.spec_prev_on_vertex()))
}

/// The bubbles a slide of `e` gives new boundaries, in order, each with the
/// cycle it gets: the bubble of `e` from `e`, the bubble of its twin from
/// the twin, the bubble beyond the twin's previous edge from `e`'s previous
/// edge, and the bubble beyond `e`'s previous edge from the twin's previous
/// edge.
pub open spec fn slide_chain(vs: Map<u64, Vertex>, e: EdgeKey) -> Seq<(BubbleKey, Seq<EdgeKey>)> {
    let t = twin_of(vs, e);
    let ep = e.spec_prev_on_vertex();
    let tp = t.spec_prev_on_vertex();
    let tw = slide_twins(vs, e);
    let d = vs.dom();
    seq![
        (bubble_of(vs, e), orbit_by(tw, d, e)),
        (bubble_of(vs, t), orbit_by(tw, d, t)),
        (bubble_of(vs, twin_of(vs, tp)), orbit_by(tw, d, ep)),
        (bubble_of(vs, twin_of(vs, ep)), orbit_by(tw, d, tp)),
    ]
}

/// After the relinking of a slide of `e`, the four boundary walks that the
/// slide retraces close within a thousand steps.
pub open spec fn slide_closes(vs: Map<u64, Vertex>, e: EdgeKey) -> bool {
    let t = twin_of(vs, e);
    let tw = slide_twins(vs, e);
    let d = vs.dom();
    &&& closes_by(tw, d, e)
    &&& closes_by(tw, d, t)
    &&& closes_by(tw, d, e.spec_prev_on_vertex())
    &&& closes_by(tw, d, t.spec_prev_on_vertex())
}

/// `(vs, bs)` is `(vs0, bs0)` with the twins `tw` and then rebubbled
/// along `chain`.
pub open spec fn relinked_rebubbled(
    vs0: Map<u64, Vertex>,
    bs0: Map<u64, Bubble>,
    vs: Map<u64, Vertex>,
    bs: Map<u64, Bubble>,
    tw: spec_fn(EdgeKey) -> EdgeKey,
    chain: Seq<(BubbleKey, Seq<EdgeKey>)>,
) -> bool {
    &&& vs.dom() == vs0.dom()
    &&& twins_are(vs, tw)
    &&& forall|f: EdgeKey| #[trigger] has_edge(vs0, f) ==> bubble_of(vs, f) == chain_label(chain, f, bubble_of(vs0, f))
    &&& bs.dom() == bs0.dom()
    &&& forall|b: u64| #[trigger] bs0.dom().contains(b) ==> bs[b].style == bs0[b].style
        && bs[b].edges@ == chain_list(chain, b, bs0[b].edges@)
}
/// A map with the same twins as one whose twins are `tw` has twins `tw`.
pub proof fn lemma_twins_are_same(a: Map<u64, Vertex>, b: Map<u64, Vertex>, tw: spec_fn(EdgeKey) -> EdgeKey)
    requires
        twins_are(a, tw),
        same_twins(a, b),
    ensures
        twins_are(b, tw),
{
    assert forall|f: EdgeKey| #[trigger] has_edge(b, f) implies twin_of(b, f) == tw(f) by {
        assert(has_edge(a, f));
    }
}

/// The label that a chain leaves is the old one or one of the chain's
/// bubbles.
pub proof fn lemma_chain_label_in(chain: Seq<(BubbleKey, Seq<EdgeKey>)>, f: EdgeKey, old: BubbleKey)
    ensures
        chain_label(chain, f, old) == old
            || exists|k: int| 0 <= k < chain.len() && chain[k].0 == chain_label(chain, f, old),
    decreases chain.len(),
{
    if chain.len() > 0 && !chain.last().1.contains(f) {
        lemma_chain_label_in(chain.drop_last(), f, old);
        if chain_label(chain, f, old) != old {
            let k = choose|k: int| 0 <= k < chain.drop_last().len() && chain.drop_last()[k].0 == chain_label(chain, f, old);
            assert(chain[k].0 == chain_label(chain, f, old));
        }
    } else if chain.len() > 0 {
        assert(chain[chain.len() - 1].0 == chain_label(chain, f, old));
    }
}

/// The list that a chain leaves is the old one or one of the chain's cycles.
pub proof fn lemma_chain_list_in(chain: Seq<(BubbleKey, Seq<EdgeKey>)>, b: u64, old: Seq<EdgeKey>)
    ensures
        chain_list(chain, b, old) == old
            || exists|k: int| 0 <= k < chain.len() && chain[k].1 == chain_list(chain, b, old),
    decreases chain.len(),
{
    if chain.len() > 0 && chain.last().0.id != b {
        lemma_chain_list_in(chain.drop_last(), b, old);
        if chain_list(chain, b, old) != old {
            let k = choose|k: int| 0 <= k < chain.drop_last().len() && chain.drop_last()[k].1 == chain_list(chain, b, old);
            assert(chain[k].1 == chain_list(chain, b, old));
        }
    } else if chain.len() > 0 {
        assert(chain[chain.len() - 1].1 == chain_list(chain, b, old));
    }
}

/// Relinking to twins that are edges of the graph and rebubbling with
/// bubbles of the graph along cycles of edges of the graph keeps the
/// structure together.
pub proof fn lemma_chain_graph_ok(
    vs0: Map<u64, Vertex>,
    bs0: Map<u64, Bubble>,
    vs: Map<u64, Vertex>,
    bs: Map<u64, Bubble>,
    tw: spec_fn(EdgeKey) -> EdgeKey,
    chain: Seq<(BubbleKey, Seq<EdgeKey>)>,
)
    requires
        graph_ok(vs0, bs0),
        relinked_rebubbled(vs0, bs0, vs, bs, tw, chain),
        forall|f: EdgeKey| #![trigger tw(f)] has_edge(vs0, f) ==> has_edge(vs0, tw(f)),
        forall|k: int| 0 <= k < chain.len() ==> bs0.dom().contains((#[trigger] chain[k]).0.id),
        forall|k: int, i: int| 0 <= k < chain.len() && 0 <= i < chain[k].1.len() ==> has_edge(vs0, #[trigger] chain[k].1[i]),
    ensures
        graph_ok(vs, bs),
{
    assert forall|e: EdgeKey| #![trigger twin_of(vs, e)] has_edge(vs, e) implies has_edge(vs, twin_of(vs, e)) by {
        assert(has_edge(vs0, e));
        assert(has_edge(vs0, tw(e)));
    }
    assert forall|e: EdgeKey| #[trigger] has_edge(vs, e) implies bs.dom().contains(bubble_of(vs, e).id) by {
        assert(has_edge(vs0, e));
        lemma_chain_label_in(chain, e, bubble_of(vs0, e));
    }
    assert forall|b: u64, i: int| bs.dom().contains(b) && 0 <= i < bs[b].edges@.len() implies
        has_edge(vs, #[trigger] bs[b].edges@[i]) by {
        lemma_chain_list_in(chain, b, bs0[b].edges@);
        if chain_list(chain, b, bs0[b].edges@) != bs0[b].edges@ {
            let k = choose|k: int| 0 <= k < chain.len() && chain[k].1 == chain_list(chain, b, bs0[b].edges@);
            assert(has_edge(vs0, chain[k].1[i]));
        }
    }
    assert forall|e: EdgeKey| #[trigger] has_edge(vs, e) implies
        twin_of(vs, e).valid() && odd_version(twin_of(vs, e).vertex.id) by {
        assert(has_edge(vs0, e));
        assert(has_edge(vs0, tw(e)));
    }
    assert forall|k: u64| #[trigger] vs.dom().contains(k) implies issued_key(k) by {
        assert(vs0.dom().contains(k));
    }
    assert forall|k: u64| #[trigger] bs.dom().contains(k) implies issued_key(k) by {
        assert(bs0.dom().contains(k));
    }
    assert forall|b: u64, i: int| bs.dom().contains(b) && 0 <= i < bs[b].edges@.len() implies
        (#[trigger] bs[b].edges@[i]).valid() && odd_version(bs[b].edges@[i].vertex.id) by {
        assert(has_edge(vs, bs[b].edges@[i]));
        assert(vs0.dom().contains(bs[b].edges@[i].vertex.id));
    }
}
/// `v2` is `v1` after `a` and `b` were linked as twins.
pub open spec fn link_post(v1: Map<u64, Vertex>, v2: Map<u64, Vertex>, a: EdgeKey, b: EdgeKey) -> bool {
    &&& v2.dom() == v1.dom()
    &&& twin_of(v2, a) == b
    &&& twin_of(v2, b) == a
    &&& forall|f: EdgeKey| #[trigger] has_edge(v1, f) ==> bubble_of(v2, f) == bubble_of(v1, f)
    &&& forall|f: EdgeKey| #[trigger] has_edge(v1, f) && f != a && f != b ==> twin_of(v2, f) == twin_of(v1, f)
}

/// Linking two edges updates the twins as `linked` says.
pub proof fn lemma_link(v1: Map<u64, Vertex>, v2: Map<u64, Vertex>, a: EdgeKey, b: EdgeKey, tw: spec_fn(EdgeKey) -> EdgeKey)
    requires
        link_post(v1, v2, a, b),
        twins_are(v1, tw),
        has_edge(v1, a),
        has_edge(v1, b),
    ensures
        twins_are(v2, linked(tw, a, b)),
        forall|f: EdgeKey| #[trigger] has_edge(v1, f) ==> bubble_of(v2, f) == bubble_of(v1, f),
{
    assert forall|f: EdgeKey| #[trigger] has_edge(v2, f) implies twin_of(v2, f) == linked(tw, a, b)(f) by {
        assert(has_edge(v1, f));
    }
}

/// The twins of a map are its twins.
pub proof fn lemma_twins_are_twins(vs: Map<u64, Vertex>)
    ensures
        twins_are(vs, twins(vs)),
{
}

/// The edges of a closed walk are edges of the map's vertices.
pub proof fn lemma_orbit_by_edges(tw: spec_fn(EdgeKey) -> EdgeKey, dom: Set<u64>, e: EdgeKey)
    requires
        closes_by(tw, dom, e),
    ensures
        forall|i: int| 0 <= i < orbit_by(tw, dom, e).len() ==>
            (#[trigger] orbit_by(tw, dom, e)[i]).offset < 3 && dom.contains(orbit_by(tw, dom, e)[i].vertex.id),
{
    let n = choose|n: nat| closes_by_at(tw, dom, e, n);
    assert forall|i: int| 0 <= i < orbit_by(tw, dom, e).len() implies
        (#[trigger] orbit_by(tw, dom, e)[i]).offset < 3 && dom.contains(orbit_by(tw, dom, e)[i].vertex.id) by {
        assert(orbit_by(tw, dom, e)[i] == walk_by(tw, e, i as nat));
    }
}
/// The twin that an edge of a new vertex has before it is linked.
pub open spec fn unlinked_twin() -> EdgeKey {
    EdgeKey { vertex: VertexKey { id: NULL_KEY }, offset: 0 }
}

/// The bubble that an edge of a new vertex has before any rebubbling.
pub open spec fn unlinked_bubble() -> BubbleKey {
    BubbleKey { id: NULL_KEY }
}

/// The twins after spawning at `v` with the new vertices `k1`, `k2`: the new
/// vertices are linked to each other through their first edges, `k1` takes
/// the place of the wall of `v`'s first edge (linked to that edge and to its
/// old twin), and `k2` that of `v`'s second edge.
#[verifier::opaque]
pub open spec fn spawn_twins(vs: Map<u64, Vertex>, v: VertexKey, k1: VertexKey, k2: VertexKey) -> spec_fn(EdgeKey) -> EdgeKey {
    let t0 = twin_of(vs, ek(v, 0));
    let t1 = twin_of(vs, ek(v, 1));
    let base = |f: EdgeKey| if f.vertex == k1 || f.vertex == k2 { unlinked_twin() } else { twin_of(vs, f) };
    linked(
        linked(
            linked(linked(linked(base, ek(k1, 0), ek(k2, 0)), ek(k1, 1), ek(v, 0)), ek(k1, 2), t0),
            ek(k2, 1),
            t1,
        ),
        ek(k2, 2),
        ek(v, 1),
    )
}

/// The bubbles a spawn at `v` gives new boundaries, in order, each with the
/// cycle it gets: the new bubble from `v`'s first edge, the bubbles of
/// `v`'s second and third edges from those edges, and the bubble of `v`'s
/// first edge from the first edge of the second new vertex.
pub open spec fn spawn_chain(
    vs: Map<u64, Vertex>,
    v: VertexKey,
    k1: VertexKey,
    k2: VertexKey,
    nb: BubbleKey,
) -> Seq<(BubbleKey, Seq<EdgeKey>)> {
    let tw = spawn_twins(vs, v, k1, k2);
    let d = vs.dom().insert(k1.id).insert(k2.id);
    seq![
        (nb, orbit_by(tw, d, ek(v, 0))),
        (bubble_of(vs, ek(v, 1)), orbit_by(tw, d, ek(v, 1))),
        (bubble_of(vs, ek(v, 2)), orbit_by(tw, d, ek(v, 2))),
        (bubble_of(vs, ek(v, 0)), orbit_by(tw, d, ek(k2, 0))),
    ]
}

/// Whatever fresh keys the two new vertices get, the four boundary walks
/// that a spawn at `v` retraces close within a thousand steps.
pub open spec fn spawn_closes(vs: Map<u64, Vertex>, v: VertexKey) -> bool {
    forall|k1: VertexKey, k2: VertexKey|
        !vs.dom().contains(k1.id) && !vs.dom().contains(k2.id) && k1 != k2 && issued_key(k1.id) && issued_key(k2.id)
        ==> {
            let tw = #[trigger] spawn_twins(vs, v, k1, k2);
            let d = vs.dom().insert(k1.id).insert(k2.id);
            &&& closes_by(tw, d, ek(v, 0))
            &&& closes_by(tw, d, ek(v, 1))
            &&& closes_by(tw, d, ek(v, 2))
            &&& closes_by(tw, d, ek(k2, 0))
        }
}

/// `(vs, bs)` is `(vs0, bs0)` after a spawn at `v` that added the vertices
/// `k1`, `k2` and the bubble `nb` of style `style`.
pub open spec fn spawned(
    vs0: Map<u64, Vertex>,
    bs0: Map<u64, Bubble>,
    vs: Map<u64, Vertex>,
    bs: Map<u64, Bubble>,
    v: VertexKey,
    k1: VertexKey,
    k2: VertexKey,
    nb: BubbleKey,
    style: BubbleStyle,
) -> bool {
    let chain = spawn_chain(vs0, v, k1, k2, nb);
    &&& !vs0.dom().contains(k1.id) && !vs0.dom().contains(k2.id) && k1 != k2
    &&& issued_key(k1.id) && issued_key(k2.id)
    &&& !bs0.dom().contains(nb.id)
    &&& vs.dom() == vs0.dom().insert(k1.id).insert(k2.id)
    &&& twins_are(vs, spawn_twins(vs0, v, k1, k2))
    &&& forall|f: EdgeKey| #[trigger] has_edge(vs, f) ==> bubble_of(vs, f) == chain_label(
        chain,
        f,
        if f.vertex == k1 || f.vertex == k2 { unlinked_bubble() } else { bubble_of(vs0, f) },
    )
    &&& bs.dom() == bs0.dom().insert(nb.id)
    &&& bs[nb.id].style == style
    &&& bs[nb.id].edges@ == chain_list(chain, nb.id, Seq::empty())
    &&& forall|b: u64| #[trigger] bs0.dom().contains(b) ==> bs[b].style == bs0[b].style
        && bs[b].edges@ == chain_list(chain, b, bs0[b].edges@)
}
/// What a slide of `e` reads exists: the edge, its twin, the twins of the
/// edges before both, and the four bubbles around the wall.
pub open spec fn slide_reads_ok(vs: Map<u64, Vertex>, bs: Map<u64, Bubble>, e: EdgeKey) -> bool {
    let t = twin_of(vs, e);
    let ep = e.spec_prev_on_vertex();
    let tp = t.spec_prev_on_vertex();
    &&& has_edge(vs, e)
    &&& has_edge(vs, t)
    &&& has_edge(vs, twin_of(vs, ep))
    &&& has_edge(vs, twin_of(vs, tp))
    &&& slide_flips(vs, e) ==> {
        &&& bs.dom().contains(bubble_of(vs, e).id)
        &&& bs.dom().contains(bubble_of(vs, t).id)
        &&& bs.dom().contains(bubble_of(vs, twin_of(vs, ep)).id)
        &&& bs.dom().contains(bubble_of(vs, twin_of(vs, tp)).id)
        &&& slide_closes(vs, e)
    }
}

/// `(vs2, bs2)` is what a slide of `e` makes of `(vs, bs)`.
pub open spec fn slide_post(
    vs: Map<u64, Vertex>,
    bs: Map<u64, Bubble>,
    e: EdgeKey,
    vs2: Map<u64, Vertex>,
    bs2: Map<u64, Bubble>,
) -> bool {
    &&& !slide_flips(vs, e) ==> vs2 == vs && bs2 == bs
    &&& slide_flips(vs, e) ==> relinked_rebubbled(vs, bs, vs2, bs2, slide_twins(vs, e), slide_chain(vs, e))
    &&& graph_ok(vs, bs) ==> graph_ok(vs2, bs2)
}

/// What a spawn at `v` reads exists and what it adds fits: the vertex, the
/// twins of its first two edges, the bubbles of its three edges, the four
/// boundary walks it retraces close, and the maps have room for two more
/// vertices and one more bubble.
pub open spec fn spawn_reads_ok(vs: Map<u64, Vertex>, bs: Map<u64, Bubble>, v: VertexKey) -> bool {
    &&& vs.dom().contains(v.id)
    &&& has_edge(vs, twin_of(vs, ek(v, 0)))
    &&& has_edge(vs, twin_of(vs, ek(v, 1)))
    &&& bs.dom().contains(bubble_of(vs, ek(v, 0)).id)
    &&& bs.dom().contains(bubble_of(vs, ek(v, 1)).id)
    &&& bs.dom().contains(bubble_of(vs, ek(v, 2)).id)
    &&& spawn_closes(vs, v)
    &&& vs.dom().finite() && vs.dom().len() + 2 < 0xFFFF_FFFE
    &&& bs.dom().finite() && bs.dom().len() < 0xFFFF_FFFE
}
/// A removal of the wall of `e` does nothing: the graph has at most two
/// vertices, the wall has the same bubble on both sides, a bubble at one of
/// its ends is also on one of its sides, or the bubble at one of its ends
/// has only one edge.
pub open spec fn remove_blocked(vs: Map<u64, Vertex>, bs: Map<u64, Bubble>, e: EdgeKey) -> bool {
    let t = twin_of(vs, e);
    let en = e.spec_next_on_vertex();
    let ep = e.spec_prev_on_vertex();
    let tn = t.spec_next_on_vertex();
    let tp = t.spec_prev_on_vertex();
    let top = bubble_of(vs, e);
    let bottom = bubble_of(vs, t);
    let right = bubble_of(vs, en);
    let left = bubble_of(vs, tn);
    ||| vs.dom().len() <= 2
    ||| top == bottom
    ||| top == left || top == right || bottom == left || bottom == right
    ||| en == twin_of(vs, ep) || tn == twin_of(vs, tp)
}

/// Which way a removal of the wall of `e` relinks: 1 when the top bubble
/// has only two edges, 2 when the bottom bubble has, 3 otherwise.
pub open spec fn remove_case(vs: Map<u64, Vertex>, e: EdgeKey) -> int {
    let t = twin_of(vs, e);
    if e.spec_next_on_vertex() == twin_of(vs, t.spec_prev_on_vertex()) {
        1
    } else if e.spec_prev_on_vertex() == twin_of(vs, t.spec_next_on_vertex()) {
        2
    } else {
        3
    }
}

/// The twins after a removal of the wall of `e` relinks: the outer twins of
/// the two vertices of the wall are linked to each other in pairs.
#[verifier::opaque]
pub open spec fn remove_twins(vs: Map<u64, Vertex>, e: EdgeKey) -> spec_fn(EdgeKey) -> EdgeKey {
    let t = twin_of(vs, e);
    let ent = twin_of(vs, e.spec_next_on_vertex());
    let ept = twin_of(vs, e.spec_prev_on_vertex());
    let tnt = twin_of(vs, t.spec_next_on_vertex());
    let tpt = twin_of(vs, t.spec_prev_on_vertex());
    if remove_case(vs, e) == 1 {
        linked(twins(vs), ept, tnt)
    } else if remove_case(vs, e) == 2 {
        linked(twins(vs), ent, tpt)
    } else {
        linked(linked(twins(vs), ent, ept), tnt, tpt)
    }
}

/// The bubbles a removal of the wall of `e` gives new boundaries, in order,
/// each with its cycle under the relinked twins: the top bubble, then the
/// right one, then (in the general case) the left one.
pub open spec fn remove_chain(vs: Map<u64, Vertex>, e: EdgeKey) -> Seq<(BubbleKey, Seq<EdgeKey>)> {
    let t = twin_of(vs, e);
    let ent = twin_of(vs, e.spec_next_on_vertex());
    let ept = twin_of(vs, e.spec_prev_on_vertex());
    let tnt = twin_of(vs, t.spec_next_on_vertex());
    let tpt = twin_of(vs, t.spec_prev_on_vertex());
    let top = bubble_of(vs, e);
    let right = bubble_of(vs, e.spec_next_on_vertex());
    let left = bubble_of(vs, t.spec_next_on_vertex());
    let tw = remove_twins(vs, e);
    let d = vs.dom();
    if remove_case(vs, e) == 1 {
        seq![(top, orbit_by(tw, d, tnt)), (right, orbit_by(tw, d, ept))]
    } else if remove_case(vs, e) == 2 {
        seq![(top, orbit_by(tw, d, tpt)), (right, orbit_by(tw, d, ent))]
    } else {
        seq![(top, orbit_by(tw, d, ent)), (right, orbit_by(tw, d, ept)), (left, orbit_by(tw, d, tpt))]
    }
}

/// The edges that a removal of the wall of `e` links exist, and the walks
/// it retraces close.
pub open spec fn remove_links_ok(vs: Map<u64, Vertex>, e: EdgeKey) -> bool {
    let t = twin_of(vs, e);
    let ent = twin_of(vs, e.spec_next_on_vertex());
    let ept = twin_of(vs, e.spec_prev_on_vertex());
    let tnt = twin_of(vs, t.spec_next_on_vertex());
    let tpt = twin_of(vs, t.spec_prev_on_vertex());
    let tw = remove_twins(vs, e);
    let d = vs.dom();
    if remove_case(vs, e) == 1 {
        &&& has_edge(vs, ept) && has_edge(vs, tnt)
        &&& closes_by(tw, d, tnt) && closes_by(tw, d, ept)
    } else if remove_case(vs, e) == 2 {
        &&& has_edge(vs, ent) && has_edge(vs, tpt)
        &&& closes_by(tw, d, tpt) && closes_by(tw, d, ent)
    } else {
        &&& has_edge(vs, ent) && has_edge(vs, ept) && has_edge(vs, tnt) && has_edge(vs, tpt)
        &&& closes_by(tw, d, ent) && closes_by(tw, d, ept) && closes_by(tw, d, tpt)
    }
}

/// `(vs2, bs2)` is `(vs, bs)` after the wall of `e` went: the top bubble
/// took the merged style, the outer twins were relinked, the bubbles around
/// were rebubbled, the bottom bubble and the wall's two vertices left.
pub open spec fn merged(
    vs: Map<u64, Vertex>,
    bs: Map<u64, Bubble>,
    e: EdgeKey,
    vs2: Map<u64, Vertex>,
    bs2: Map<u64, Bubble>,
) -> bool {
    let t = twin_of(vs, e);
    let top = bubble_of(vs, e);
    let bottom = bubble_of(vs, t);
    let chain = remove_chain(vs, e);
    &&& vs2.dom() == vs.dom().remove(e.vertex.id).remove(t.vertex.id)
    &&& twins_are(vs2, remove_twins(vs, e))
    &&& forall|f: EdgeKey| #[trigger] has_edge(vs2, f) ==> bubble_of(vs2, f) == chain_label(chain, f, bubble_of(vs, f))
    &&& bs2.dom() == bs.dom().remove(bottom.id)
    &&& forall|b: u64| #[trigger] bs2.dom().contains(b) ==> bs2[b].style == (if b == top.id {
        bs[top.id].style.spec_merge(bs[bottom.id].style)
    } else {
        bs[b].style
    }) && bs2[b].edges@ == chain_list(chain, b, bs[b].edges@)
}

/// The edge `f` is a wall of bubble `b` with `b` on its other side too, and
/// it comes before its twin in key order.
pub open spec fn is_degenerate(vs: Map<u64, Vertex>, b: BubbleKey, f: EdgeKey) -> bool {
    bubble_of(vs, twin_of(vs, f)) == b && f.spec_lt(twin_of(vs, f))
}

/// The edges of bubble `b` whose twins are on `b` too, each pair once: the
/// edge of the pair that comes first in key order.
pub open spec fn degenerate_edges(vs: Map<u64, Vertex>, bs: Map<u64, Bubble>, b: BubbleKey) -> Seq<EdgeKey> {
    if bs.dom().contains(b.id) {
        bs[b.id].edges@.filter(|f: EdgeKey| is_degenerate(vs, b, f))
    } else {
        Seq::empty()
    }
}

/// What a search for the degenerate edges of `b` reads exists.
pub open spec fn degenerate_reads_ok(vs: Map<u64, Vertex>, bs: Map<u64, Bubble>, b: BubbleKey) -> bool {
    bs.dom().contains(b.id) ==> forall|i: int| 0 <= i < bs[b.id].edges@.len() ==>
        has_edge(vs, #[trigger] bs[b.id].edges@[i]) && has_edge(vs, twin_of(vs, bs[b.id].edges@[i]))
}

/// Each state of `states` is the one before it after the slide of the wall
/// of `es` at the same place.
pub open spec fn slide_trace(states: Seq<(Map<u64, Vertex>, Map<u64, Bubble>)>, es: Seq<EdgeKey>) -> bool {
    &&& states.len() == es.len() + 1
    &&& forall|k: int| 0 <= k < es.len() ==>
        slide_post(states[k].0, states[k].1, #[trigger] es[k], states[k + 1].0, states[k + 1].1)
}

/// `(vs2, bs2)` is `(vs, bs)` after sliding the walls of `es` in order.
pub open spec fn slides_post(
    vs: Map<u64, Vertex>,
    bs: Map<u64, Bubble>,
    es: Seq<EdgeKey>,
    vs2: Map<u64, Vertex>,
    bs2: Map<u64, Bubble>,
) -> bool {
    exists|states: Seq<(Map<u64, Vertex>, Map<u64, Bubble>)>|
        #[trigger] slide_trace(states, es) && states[0] == (vs, bs) && states.last() == (vs2, bs2)
}

/// Sliding the walls of `es` in order reads only what exists, whatever
/// the earlier slides made.
pub open spec fn slides_ok(vs: Map<u64, Vertex>, bs: Map<u64, Bubble>, es: Seq<EdgeKey>) -> bool
    decreases es.len(),
{
    es.len() > 0 ==> {
        &&& slide_reads_ok(vs, bs, es[0])
        &&& forall|vm: Map<u64, Vertex>, bm: Map<u64, Bubble>|
            #[trigger] slide_post(vs, bs, es[0], vm, bm) ==> slides_ok(vm, bm, es.drop_first())
    }
}

/// What a removal of the wall of `e` reads exists and every step it takes
/// can be taken.
pub open spec fn remove_reads_ok(vs: Map<u64, Vertex>, bs: Map<u64, Bubble>, e: EdgeKey) -> bool {
    let t = twin_of(vs, e);
    let top = bubble_of(vs, e);
    let bottom = bubble_of(vs, t);
    let right = bubble_of(vs, e.spec_next_on_vertex());
    let left = bubble_of(vs, t.spec_next_on_vertex());
    &&& vs.dom().len() > 2 ==> has_edge(vs, e) && has_edge(vs, t)
    &&& !remove_blocked(vs, bs, e) ==> {
        &&& bs.dom().contains(top.id) && bs.dom().contains(bottom.id) && bs.dom().contains(right.id)
        &&& remove_case(vs, e) == 3 ==> bs.dom().contains(left.id)
        &&& bs[top.id].style.can_merge(bs[bottom.id].style)
        &&& odd_version(e.vertex.id) && odd_version(t.vertex.id) && odd_version(top.id) && odd_version(bottom.id)
        &&& remove_links_ok(vs, e)
        &&& forall|vm: Map<u64, Vertex>, bm: Map<u64, Bubble>| #[trigger] merged(vs, bs, e, vm, bm) ==>
            degenerate_reads_ok(vm, bm, top) && slides_ok(vm, bm, degenerate_edges(vm, bm, top))
    }
}

/// `(vs2, bs2)` is what a removal of the wall of `e` makes of `(vs, bs)`.
pub open spec fn remove_post(
    vs: Map<u64, Vertex>,
    bs: Map<u64, Bubble>,
    e: EdgeKey,
    vs2: Map<u64, Vertex>,
    bs2: Map<u64, Bubble>,
) -> bool {
    &&& remove_blocked(vs, bs, e) ==> vs2 == vs && bs2 == bs
    &&& !remove_blocked(vs, bs, e) ==> exists|vm: Map<u64, Vertex>, bm: Map<u64, Bubble>|
        #[trigger] merged(vs, bs, e, vm, bm) && slides_post(vm, bm, degenerate_edges(vm, bm, bubble_of(vs, e)), vs2, bs2)
}
/// `k` is the open air: the first open-air bubble in key order.
pub open spec fn first_open_air(bs: Map<u64, Bubble>, k: u64) -> bool {
    &&& bs.dom().contains(k)
    &&& bs[k].style.is_open_air()
    &&& forall|j: u64| bs.dom().contains(j) && (#[trigger] bs[j].style).is_open_air() ==> slot_index(k) <= slot_index(j)
}

/// `k` is the player bubble: the first swappable bubble in key order.
pub open spec fn is_player_key(bs: Map<u64, Bubble>, k: u64) -> bool {
    &&& bs.dom().contains(k)
    &&& bs[k].style.is_swappable()
    &&& forall|j: u64| bs.dom().contains(j) && (#[trigger] bs[j].style).is_swappable() ==> slot_index(k) <= slot_index(j)
}

/// What the search for swap candidates reads exists: for the player
/// bubble, each edge of its list, its twin, and the bubble beyond.
pub open spec fn swap_reads_ok(vs: Map<u64, Vertex>, bs: Map<u64, Bubble>) -> bool {
    forall|k: u64, i: int| #![trigger is_player_key(bs, k), bs[k].edges@[i]]
        is_player_key(bs, k) && 0 <= i < bs[k].edges@.len() ==> {
            &&& has_edge(vs, bs[k].edges@[i])
            &&& has_edge(vs, twin_of(vs, bs[k].edges@[i]))
            &&& bs.dom().contains(bubble_of(vs, twin_of(vs, bs[k].edges@[i])).id)
        }
}

/// The twins of the edges of `list` whose bubble is a colored one.
pub open spec fn candidates_in(vs: Map<u64, Vertex>, bs: Map<u64, Bubble>, list: Seq<EdgeKey>) -> Seq<EdgeKey>
    decreases list.len(),
{
    if list.len() == 0 {
        Seq::empty()
    } else {
        let rest = candidates_in(vs, bs, list.drop_last());
        let t = twin_of(vs, list.last());
        if bs[bubble_of(vs, t).id].style is Colored {
            rest.push(t)
        } else {
            rest
        }
    }
}

/// The edges a swap can take: the candidates along the player bubble's
/// boundary, or none without a player bubble.
pub open spec fn swap_candidates_of(vs: Map<u64, Vertex>, bs: Map<u64, Bubble>) -> Seq<EdgeKey> {
    if exists|k: u64| is_player_key(bs, k) {
        candidates_in(vs, bs, bs[choose|k: u64| is_player_key(bs, k)].edges@)
    } else {
        Seq::empty()
    }
}
/// The candidates found along `list` are twins of its edges whose bubble
/// is a colored one, and the twin of each edge of `list` whose bubble is a
/// colored one is among them.
pub proof fn lemma_candidates_in(vs: Map<u64, Vertex>, bs: Map<u64, Bubble>, list: Seq<EdgeKey>)
    ensures
        forall|j: int| 0 <= j < candidates_in(vs, bs, list).len() ==> {
            let t = #[trigger] candidates_in(vs, bs, list)[j];
            &&& bs[bubble_of(vs, t).id].style is Colored
            &&& exists|i: int| 0 <= i < list.len() && twin_of(vs, #[trigger] list[i]) == t
        },
        forall|i: int| 0 <= i < list.len() && bs[bubble_of(vs, twin_of(vs, #[trigger] list[i])).id].style is Colored ==>
            candidates_in(vs, bs, list).contains(twin_of(vs, list[i])),
    decreases list.len(),
{
    if list.len() > 0 {
        let front = list.drop_last();
        lemma_candidates_in(vs, bs, front);
        let rest = candidates_in(vs, bs, front);
        let c = candidates_in(vs, bs, list);
        let t = twin_of(vs, list.last());
        assert forall|j: int| 0 <= j < c.len() implies {
            let u = #[trigger] c[j];
            &&& bs[bubble_of(vs, u).id].style is Colored
            &&& exists|i: int| 0 <= i < list.len() && twin_of(vs, #[trigger] list[i]) == u
        } by {
            if j < rest.len() {
                assert(c[j] == rest[j]);
                let i = choose|i: int| 0 <= i < front.len() && twin_of(vs, #[trigger] front[i]) == rest[j];
                assert(list[i] == front[i]);
            } else {
                assert(c[j] == t);
                assert(list[list.len() - 1] == list.last());
            }
        }
        assert forall|i: int| 0 <= i < list.len() && bs[bubble_of(vs, twin_of(vs, #[trigger] list[i])).id].style is Colored implies
            c.contains(twin_of(vs, list[i])) by {
            if i < front.len() {
                assert(list[i] == front[i]);
                assert(rest.contains(twin_of(vs, front[i])));
                let j = choose|j: int| 0 <= j < rest.len() && rest[j] == twin_of(vs, front[i]);
                assert(c[j] == rest[j]);
            } else {
                assert(list[i] == list.last());
                assert(c[c.len() - 1] == t);
            }
        }
    }
}

/// Every edge a swap can take lies on a colored bubble and is the twin of
/// a wall of the player bubble; and, with one player bubble, the twin of
/// each wall of the player bubble that borders a colored bubble is an edge
/// a swap can take.
pub proof fn law_swap_candidates_colored(vs: Map<u64, Vertex>, bs: Map<u64, Bubble>)
    ensures
        forall|j: int| 0 <= j < swap_candidates_of(vs, bs).len() ==> {
            let t = #[trigger] swap_candidates_of(vs, bs)[j];
            &&& bs[bubble_of(vs, t).id].style is Colored
            &&& exists|k: u64, i: int| is_player_key(bs, k) && 0 <= i < bs[k].edges@.len()
                && twin_of(vs, #[trigger] bs[k].edges@[i]) == t
        },
        forall|k: u64, i: int| distinct_slots(bs.dom()) && is_player_key(bs, k) && 0 <= i < bs[k].edges@.len()
            && bs[bubble_of(vs, twin_of(vs, #[trigger] bs[k].edges@[i])).id].style is Colored ==>
            swap_candidates_of(vs, bs).contains(twin_of(vs, bs[k].edges@[i])),
{
    if exists|k: u64| is_player_key(bs, k) {
        let p = choose|k: u64| is_player_key(bs, k);
        lemma_candidates_in(vs, bs, bs[p].edges@);
        assert forall|j: int| 0 <= j < swap_candidates_of(vs, bs).len() implies {
            let t = #[trigger] swap_candidates_of(vs, bs)[j];
            &&& bs[bubble_of(vs, t).id].style is Colored
            &&& exists|k: u64, i: int| is_player_key(bs, k) && 0 <= i < bs[k].edges@.len()
                && twin_of(vs, #[trigger] bs[k].edges@[i]) == t
        } by {
            let t = swap_candidates_of(vs, bs)[j];
            assert(t == candidates_in(vs, bs, bs[p].edges@)[j]);
            let i = choose|i: int| 0 <= i < bs[p].edges@.len() && twin_of(vs, #[trigger] bs[p].edges@[i]) == t;
            assert(is_player_key(bs, p) && twin_of(vs, bs[p].edges@[i]) == t);
        }
        assert forall|k: u64, i: int| distinct_slots(bs.dom()) && is_player_key(bs, k) && 0 <= i < bs[k].edges@.len()
            && bs[bubble_of(vs, twin_of(vs, #[trigger] bs[k].edges@[i])).id].style is Colored implies
            swap_candidates_of(vs, bs).contains(twin_of(vs, bs[k].edges@[i])) by {
            lemma_player_unique(bs, k, p);
        }
    }
}

/// In a map whose keys have distinct slot indices there is at most one
/// player bubble.
pub proof fn lemma_player_unique(bs: Map<u64, Bubble>, k1: u64, k2: u64)
    requires
        distinct_slots(bs.dom()),
        is_player_key(bs, k1),
        is_player_key(bs, k2),
    ensures
        k1 == k2,
{
    assert(slot_index(k1) <= slot_index(k2) && slot_index(k2) <= slot_index(k1));
}
/// In a map whose keys have distinct slot indices there is at most one
/// first open-air bubble.
pub proof fn lemma_open_air_unique(bs: Map<u64, Bubble>, k1: u64, k2: u64)
    requires
        distinct_slots(bs.dom()),
        first_open_air(bs, k1),
        first_open_air(bs, k2),
    ensures
        k1 == k2,
{
    assert(slot_index(k1) <= slot_index(k2) && slot_index(k2) <= slot_index(k1));
}
} // verus!
