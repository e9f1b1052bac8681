//! Debugging aids: a second, list-against-owner check of the graph's
//! invariants, and the warning about the open air's winding.
use vstd::prelude::*;
use crate::game::sanity::vec_contains;
use crate::game::state::GameState;
use crate::graph::bubble::{Bubble, BubbleKey, BubbleStyle};
use crate::graph::edge::EdgeKey;
use crate::graph::vertex::{has_edge, next_edge, Vertex, VertexKey};
use crate::graph::{boundary_ok, bubble_of, euler_ok, keys_valid, listed, sane, sole_open_air, twin_of, Graph};
use crate::slots::{odd_version, slot_index};

verus! {

/// The edge `e` exists and claims bubble `b`.
pub open spec fn claims(vs: Map<u64, Vertex>, b: u64, e: EdgeKey) -> bool {
    has_edge(vs, e) && bubble_of(vs, e).id == b
}

/// The edges that claim bubble `b`.
pub open spec fn claimed(vs: Map<u64, Vertex>, b: u64) -> Set<EdgeKey> {
    Set::new(|e: EdgeKey| claims(vs, b, e))
}

/// The `i`-th edge of bubble `b`'s list is in order: its vertex and its
/// twin's vertex exist, its twin's twin is itself, and the next edge on the
/// bubble is the next one in the list.
pub open spec fn edge_in_order(vs: Map<u64, Vertex>, bs: Map<u64, Bubble>, b: u64, i: int) -> bool {
    let es = bs[b].edges@;
    let e = es[i];
    &&& vs.dom().contains(e.vertex.id)
    &&& vs.dom().contains(twin_of(vs, e).vertex.id)
    &&& twin_of(vs, twin_of(vs, e)) == e
    &&& next_edge(vs, e) == es[(i + 1) % (es.len() as int)]
}

/// Bubble `b` is in order: it has edges, they are exactly the edges that
/// claim it, and each is in order.
pub open spec fn bubble_in_order(vs: Map<u64, Vertex>, bs: Map<u64, Bubble>, b: u64) -> bool {
    &&& bs[b].edges@.len() > 0
    &&& bs[b].edges@.to_set() == claimed(vs, b)
    &&& forall|i: int| 0 <= i < bs[b].edges@.len() ==> #[trigger] edge_in_order(vs, bs, b, i)
}

/// Everything the debug check tests but the counts: every edge claims an
/// existing bubble, every bubble is in order, and there is exactly one
/// open-air bubble.
pub open spec fn lists_in_order(vs: Map<u64, Vertex>, bs: Map<u64, Bubble>) -> bool {
    &&& forall|e: EdgeKey| #[trigger] has_edge(vs, e) ==> bs.dom().contains(bubble_of(vs, e).id)
    &&& forall|b: u64| #[trigger] bs.dom().contains(b) ==> bubble_in_order(vs, bs, b)
    &&& exists|b: u64| sole_open_air(bs, b)
}

/// What the debug check accepts: the lists are in order and the counts
/// obey Euler's formula.
pub open spec fn debug_ok(vs: Map<u64, Vertex>, bs: Map<u64, Bubble>) -> bool {
    lists_in_order(vs, bs) && euler_ok(vs, bs)
}

/// A broken invariant, as the debug check finds it.
#[derive(Debug, Clone, Copy, PartialEq, Eq, Structural)]
pub enum DebugError {
    /// The edge claims a bubble that does not exist.
    MissingOwner { edge: EdgeKey, owner: BubbleKey },
    /// The bubble has no edges.
    EmptyBubble { bubble: BubbleKey },
    /// The bubble's list and the edges that claim it differ.
    EdgeSetMismatch { bubble: BubbleKey },
    /// An edge in the bubble's list leaves a vertex that does not exist.
    MissingVertex { edge: EdgeKey, bubble: BubbleKey },
    /// An edge in the bubble's list has a twin at a vertex that does not exist.
    MissingTwinVertex { edge: EdgeKey, bubble: BubbleKey, twin: EdgeKey },
    /// The twin of the edge's twin is another edge.
    TwinMismatch { edge: EdgeKey, twin: EdgeKey, twin_of_twin: EdgeKey },
    /// The next edge on the bubble is not the next edge in its list.
    Discontinuity { bubble: BubbleKey, edge: EdgeKey, expected: EdgeKey, actual: EdgeKey },
    /// There is not exactly one open-air bubble.
    OpenAirCount { count: usize },
    /// The counts break `V = 2 (B - 2)`.
    VertexCount { vertices: usize, bubbles: usize },
    /// The counts break `3 V = 6 (B - 2)`.
    HalfEdgeCount { half_edges: usize, bubbles: usize },
}

/// What the error says of the graph.
pub open spec fn debug_error_holds(err: DebugError, vs: Map<u64, Vertex>, bs: Map<u64, Bubble>) -> bool {
    match err {
        DebugError::MissingOwner { edge, owner } => has_edge(vs, edge) && bubble_of(vs, edge) == owner
            && !bs.dom().contains(owner.id),
        DebugError::EmptyBubble { bubble } => bs.dom().contains(bubble.id) && bs[bubble.id].edges@.len() == 0,
        DebugError::EdgeSetMismatch { bubble } => bs.dom().contains(bubble.id)
            && bs[bubble.id].edges@.to_set() != claimed(vs, bubble.id),
        DebugError::MissingVertex { edge, bubble } => bs.dom().contains(bubble.id)
            && bs[bubble.id].edges@.contains(edge) && !vs.dom().contains(edge.vertex.id),
        DebugError::MissingTwinVertex { edge, bubble, twin } => bs.dom().contains(bubble.id)
            && bs[bubble.id].edges@.contains(edge) && has_edge(vs, edge) && twin_of(vs, edge) == twin
            && !vs.dom().contains(twin.vertex.id),
        DebugError::TwinMismatch { edge, twin, twin_of_twin } => has_edge(vs, edge) && twin_of(vs, edge) == twin
            && has_edge(vs, twin) && twin_of(vs, twin) == twin_of_twin && twin_of_twin != edge,
        DebugError::Discontinuity { bubble, edge, expected, actual } => bs.dom().contains(bubble.id)
            && (exists|i: int| 0 <= i < bs[bubble.id].edges@.len() && #[trigger] bs[bubble.id].edges@[i] == edge
                && bs[bubble.id].edges@[(i + 1) % (bs[bubble.id].edges@.len() as int)] == expected)
            && has_edge(vs, edge) && next_edge(vs, edge) == actual && actual != expected,
        DebugError::OpenAirCount { count } => count != 1 && !(exists|b: u64| sole_open_air(bs, b)),
        DebugError::VertexCount { vertices, bubbles } => vertices == vs.dom().len()
            && bubbles == bs.dom().len() && !euler_ok(vs, bs),
        DebugError::HalfEdgeCount { half_edges, bubbles } => half_edges == 3 * vs.dom().len()
            && bubbles == bs.dom().len() && !euler_ok(vs, bs),
    }
}

/// What the debug overlay shows: the number of loops the open air's

/// The bubble whose list the error is found in, for the errors found
/// while a bubble is checked.
pub open spec fn debug_error_bubble(err: DebugError) -> Option<BubbleKey> {
    match err {
        DebugError::EmptyBubble { bubble } => Some(bubble),
        DebugError::EdgeSetMismatch { bubble } => Some(bubble),
        DebugError::MissingVertex { bubble, .. } => Some(bubble),
        DebugError::MissingTwinVertex { bubble, .. } => Some(bubble),
        DebugError::Discontinuity { bubble, .. } => Some(bubble),
        _ => None,
    }
}

/// A graph that passes the sanity check passes the debug check: lists
/// that are in order, owned and duplicate-free are exactly the lists of the
/// edges that claim their bubbles.
pub proof fn law_sane_passes_debug(vs: Map<u64, Vertex>, bs: Map<u64, Bubble>)
    requires
        keys_valid(vs, bs),
        sane(vs, bs),
    ensures
        debug_ok(vs, bs),
{
    assert forall|e: EdgeKey| #[trigger] has_edge(vs, e) implies bs.dom().contains(bubble_of(vs, e).id) by {
        assert(listed(bs, e));
        let (b, i) = choose|b: u64, i: int| bs.dom().contains(b) && 0 <= i < bs[b].edges@.len() && #[trigger] bs[b].edges@[i] == e;
        assert(boundary_ok(vs, bs, b, i));
    }
    assert forall|b: u64| #[trigger] bs.dom().contains(b) implies bubble_in_order(vs, bs, b) by {
        let es = bs[b].edges@;
        assert forall|i: int| 0 <= i < es.len() implies #[trigger] edge_in_order(vs, bs, b, i) by {
            assert(boundary_ok(vs, bs, b, i));
        }
        assert forall|e: EdgeKey| es.to_set().contains(e) <==> #[trigger] claimed(vs, b).contains(e) by {
            if es.to_set().contains(e) {
                let i = choose|i: int| 0 <= i < es.len() && es[i] == e;
                assert(boundary_ok(vs, bs, b, i));
                assert(bs[b].edges@[i].valid());
            }
            if claimed(vs, b).contains(e) {
                assert(listed(bs, e));
                let (b2, i) = choose|b2: u64, i: int| bs.dom().contains(b2) && 0 <= i < bs[b2].edges@.len() && #[trigger] bs[b2].edges@[i] == e;
                assert(boundary_ok(vs, bs, b2, i));
                assert(es.contains(e));
            }
        }
        assert(es.to_set() =~= claimed(vs, b));
    }
}

/// The order in which the debug check finds errors: first the owners of
/// all edges; then the bubbles in slot order, so every bubble before the
/// one an error is found in is in order; then the open-air count, only
/// when every bubble is in order; then the counts, only when all of that
/// holds.
pub open spec fn debug_error_in_order(err: DebugError, vs: Map<u64, Vertex>, bs: Map<u64, Bubble>) -> bool {
    &&& !(err is MissingOwner) ==> forall|e: EdgeKey| #[trigger] has_edge(vs, e) ==> bs.dom().contains(bubble_of(vs, e).id)
    &&& debug_error_bubble(err) matches Some(b) ==> forall|b2: u64| #[trigger] bs.dom().contains(b2)
        && slot_index(b2) < slot_index(b.id) ==> bubble_in_order(vs, bs, b2)
    &&& err is OpenAirCount ==> forall|b: u64| #[trigger] bs.dom().contains(b) ==> bubble_in_order(vs, bs, b)
    &&& (err is VertexCount || err is HalfEdgeCount) ==> lists_in_order(vs, bs)
}

/// boundary makes, when it has been measured.
#[derive(Debug, Clone, Copy)]
pub struct DebugManager {
    pub open_air_loop_warning: Option<i32>,
}

impl DebugManager {
    pub fn new() -> (r: DebugManager)
        ensures
            r.open_air_loop_warning is None,
    {
        DebugManager { open_air_loop_warning: None }
    }

    /// Whether every edge of `edges` exists and claims bubble `b`.
    fn list_claims(&self, graph: &Graph, b: BubbleKey, edges: &Vec<EdgeKey>) -> (r: bool)
        requires
            forall|i: int| 0 <= i < edges@.len() ==> odd_version((#[trigger] edges@[i]).vertex.id) && edges@[i].offset < 3,
        ensures
            r == forall|i: int| 0 <= i < edges@.len() ==> claims(graph.vs(), b.id, #[trigger] edges@[i]),
    {
        let mut i: usize = 0;
        while i < edges.len()
            invariant
                i <= edges@.len(),
                forall|j: int| 0 <= j < edges@.len() ==> odd_version((#[trigger] edges@[j]).vertex.id) && edges@[j].offset < 3,
                forall|j: int| 0 <= j < i ==> claims(graph.vs(), b.id, #[trigger] edges@[j]),
            decreases edges@.len() - i,
        {
            let e = edges[i];
            if !graph.vertices.contains_key(e.vertex) {
                return false;
            }
            if graph.vertices.get_edge(e).bubble != b {
                return false;
            }
            i += 1;
        }
        true
    }

    /// Whether every edge that claims bubble `b` is in `edges`, given the
    /// keys of all vertices.
    fn claims_listed(&self, graph: &Graph, b: BubbleKey, edges: &Vec<EdgeKey>, vkeys: &Vec<VertexKey>) -> (r: bool)
        requires
            forall|m: int| 0 <= m < vkeys@.len() ==> graph.vs().dom().contains(#[trigger] vkeys@[m].id),
            forall|k: u64| graph.vs().dom().contains(k) ==> exists|m: int| 0 <= m < vkeys@.len() && #[trigger] vkeys@[m].id == k,
        ensures
            r == forall|e: EdgeKey| #[trigger] claims(graph.vs(), b.id, e) ==> edges@.contains(e),
    {
        let ghost vs = graph.vs();
        let mut vi: usize = 0;
        while vi < vkeys.len()
            invariant
                vs == graph.vs(),
                vi <= vkeys@.len(),
                forall|m: int| 0 <= m < vkeys@.len() ==> vs.dom().contains(#[trigger] vkeys@[m].id),
                forall|m: int, o: u8| 0 <= m < vi && o < 3 && #[trigger] claims(vs, b.id, EdgeKey { vertex: vkeys@[m], offset: o })
                    ==> edges@.contains(EdgeKey { vertex: vkeys@[m], offset: o }),
            decreases vkeys@.len() - vi,
        {
            let vkey = vkeys[vi];
            let mut o: u8 = 0;
            while o < 3
                invariant
                    vs == graph.vs(),
                    vi < vkeys@.len(),
                    vkey == vkeys@[vi as int],
                    vs.dom().contains(vkey.id),
                    o <= 3,
                    forall|m: int, o2: u8| 0 <= m < vi && o2 < 3 && #[trigger] claims(vs, b.id, EdgeKey { vertex: vkeys@[m], offset: o2 })
                        ==> edges@.contains(EdgeKey { vertex: vkeys@[m], offset: o2 }),
                    forall|o2: u8| o2 < o && #[trigger] claims(vs, b.id, EdgeKey { vertex: vkey, offset: o2 })
                        ==> edges@.contains(EdgeKey { vertex: vkey, offset: o2 }),
                decreases 3 - o,
            {
                let e = EdgeKey { vertex: vkey, offset: o };
                if graph.vertices.get_edge(e).bubble == b && !vec_contains(edges, e) {
                    assert(claims(vs, b.id, e));
                    return false;
                }
                o += 1;
            }
            vi += 1;
        }
        proof {
            assert forall|e: EdgeKey| #[trigger] claims(vs, b.id, e) implies edges@.contains(e) by {
                let m = choose|m: int| 0 <= m < vkeys@.len() && #[trigger] vkeys@[m].id == e.vertex.id;
                assert(vkeys@[m] == e.vertex);
                assert(claims(vs, b.id, EdgeKey { vertex: vkeys@[m], offset: e.offset }));
            }
        }
        true
    }

    /// Checks each edge of bubble `bkey`'s list in order.
    fn check_edges(&self, graph: &Graph, bkey: BubbleKey) -> (r: Result<(), DebugError>)
        requires
            keys_valid(graph.vs(), graph.bs()),
            graph.bs().dom().contains(bkey.id),
            graph.bs()[bkey.id].edges@.len() > 0,
        ensures
            r is Ok <==> forall|i: int| 0 <= i < graph.bs()[bkey.id].edges@.len() ==> #[trigger] edge_in_order(graph.vs(), graph.bs(), bkey.id, i),
            r matches Err(e) ==> debug_error_holds(e, graph.vs(), graph.bs()),
            r matches Err(e) ==> e is TwinMismatch || debug_error_bubble(e) == Some(bkey) && !(e is EmptyBubble)
                && !(e is EdgeSetMismatch),
    {
        let ghost vs = graph.vs();
        let ghost bs = graph.bs();
        let edges = &graph.bubbles.get(bkey).edges;
        let n = edges.len();
        let mut i: usize = 0;
        while i < n
            invariant
                vs == graph.vs(),
                bs == graph.bs(),
                keys_valid(vs, bs),
                bs.dom().contains(bkey.id),
                edges@ == bs[bkey.id].edges@,
                n == edges@.len(),
                n > 0,
                i <= n,
                forall|j: int| 0 <= j < i ==> #[trigger] edge_in_order(vs, bs, bkey.id, j),
            decreases n - i,
        {
            let ekey = edges[i];
            assert(bs[bkey.id].edges@[i as int] == ekey);
            assert(edges@.contains(ekey));
            if !graph.vertices.contains_key(ekey.vertex) {
                assert(!edge_in_order(vs, bs, bkey.id, i as int));
                return Err(DebugError::MissingVertex { edge: ekey, bubble: bkey });
            }
            assert(has_edge(vs, ekey));
            let edge = graph.vertices.get_edge(ekey);
            let tkey = edge.twin;
            if !graph.vertices.contains_key(tkey.vertex) {
                assert(!edge_in_order(vs, bs, bkey.id, i as int));
                return Err(DebugError::MissingTwinVertex { edge: ekey, bubble: bkey, twin: tkey });
            }
            let tt = graph.vertices.get_edge(tkey).twin;
            if tt != ekey {
                assert(!edge_in_order(vs, bs, bkey.id, i as int));
                return Err(DebugError::TwinMismatch { edge: ekey, twin: tkey, twin_of_twin: tt });
            }
            let next = graph.vertices.next_on_bubble(ekey);
            let expected = edges[(i + 1) % n];
            if next != expected {
                assert(!edge_in_order(vs, bs, bkey.id, i as int));
                return Err(DebugError::Discontinuity { bubble: bkey, edge: ekey, expected, actual: next });
            }
            assert(edge_in_order(vs, bs, bkey.id, i as int));
            i += 1;
        }
        Ok(())
    }

    /// Checks the invariants of the game's graph against the edges' own
    /// claims: every edge claims an existing bubble; every bubble (in key
    /// order) has edges, lists exactly the edges that claim it, and each of
    /// them is in order; there is one open-air bubble; and the counts obey
    /// Euler's formula. Returns `Ok` exactly when all of them hold, and
    /// otherwise an error that names a broken one.
    pub fn check(&self, state: &GameState) -> (r: Result<(), DebugError>)
        requires
            keys_valid(state.graph.vs(), state.graph.bs()),
            forall|e: EdgeKey| #[trigger] has_edge(state.graph.vs(), e) ==> odd_version(bubble_of(state.graph.vs(), e).id),
            3 * state.graph.vs().dom().len() <= usize::MAX,
            6 * state.graph.bs().dom().len() <= usize::MAX,
            lists_in_order(state.graph.vs(), state.graph.bs()) ==> state.graph.bs().dom().len() >= 2,
        ensures
            r is Ok <==> debug_ok(state.graph.vs(), state.graph.bs()),
            r matches Err(e) ==> debug_error_holds(e, state.graph.vs(), state.graph.bs()),
            r matches Err(e) ==> debug_error_in_order(e, state.graph.vs(), state.graph.bs()),
    {
        let graph = &state.graph;
        let ghost vs = graph.vs();
        let ghost bs = graph.bs();
        let vkeys = graph.vertices.keys();
        let mut vi: usize = 0;
        while vi < vkeys.len()
            invariant
                vs == graph.vs(),
                bs == graph.bs(),
                vs == state.graph.vs(),
                bs == state.graph.bs(),
                vi <= vkeys@.len(),
                forall|e: EdgeKey| #[trigger] has_edge(vs, e) ==> odd_version(bubble_of(vs, e).id),
                forall|m: int| 0 <= m < vkeys@.len() ==> vs.dom().contains(#[trigger] vkeys@[m].id),
                forall|m: int, o: u8| 0 <= m < vi && o < 3 ==>
                    bs.dom().contains(#[trigger] bubble_of(vs, EdgeKey { vertex: vkeys@[m], offset: o }).id),
            decreases vkeys@.len() - vi,
        {
            let vkey = vkeys[vi];
            let mut o: u8 = 0;
            while o < 3
                invariant
                    vs == graph.vs(),
                    bs == graph.bs(),
                    vs == state.graph.vs(),
                    bs == state.graph.bs(),
                    vi < vkeys@.len(),
                    vkey == vkeys@[vi as int],
                    vs.dom().contains(vkey.id),
                    o <= 3,
                    forall|e: EdgeKey| #[trigger] has_edge(vs, e) ==> odd_version(bubble_of(vs, e).id),
                    forall|m: int, o2: u8| 0 <= m < vi && o2 < 3 ==>
                        bs.dom().contains(#[trigger] bubble_of(vs, EdgeKey { vertex: vkeys@[m], offset: o2 }).id),
                    forall|o2: u8| o2 < o ==> bs.dom().contains(#[trigger] bubble_of(vs, EdgeKey { vertex: vkey, offset: o2 }).id),
                decreases 3 - o,
            {
                let e = EdgeKey { vertex: vkey, offset: o };
                assert(has_edge(vs, e));
                let owner = graph.vertices.get_edge(e).bubble;
                if !graph.bubbles.contains_key(owner) {
                    assert(bubble_of(vs, e) == owner && !bs.dom().contains(bubble_of(vs, e).id));
                    assert(!lists_in_order(vs, bs));
                    return Err(DebugError::MissingOwner { edge: e, owner });
                }
                o += 1;
            }
            vi += 1;
        }
        proof {
            assert forall|e: EdgeKey| #[trigger] has_edge(vs, e) implies bs.dom().contains(bubble_of(vs, e).id) by {
                let m = choose|m: int| 0 <= m < vkeys@.len() && #[trigger] vkeys@[m].id == e.vertex.id;
                assert(vkeys@[m] == e.vertex);
                assert(bs.dom().contains(bubble_of(vs, EdgeKey { vertex: vkeys@[m], offset: e.offset }).id));
            }
        }
        let keys = graph.bubbles.keys();
        let mut open_air_count: usize = 0;
        let mut bi: usize = 0;
        while bi < keys.len()
            invariant
                vs == graph.vs(),
                bs == graph.bs(),
                vs == state.graph.vs(),
                bs == state.graph.bs(),
                keys_valid(vs, bs),
                bi <= keys@.len(),
                keys@.len() == bs.dom().len(),
                forall|m: int| 0 <= m < vkeys@.len() ==> vs.dom().contains(#[trigger] vkeys@[m].id),
                forall|k: u64| vs.dom().contains(k) ==> exists|m: int| 0 <= m < vkeys@.len() && #[trigger] vkeys@[m].id == k,
                forall|m: int| 0 <= m < keys@.len() ==> bs.dom().contains(#[trigger] keys@[m].id),
                forall|k: u64| bs.dom().contains(k) ==> exists|m: int| 0 <= m < keys@.len() && #[trigger] keys@[m].id == k,
                forall|m: int, n: int| 0 <= m < n < keys@.len() ==> (#[trigger] keys@[m]).id != (#[trigger] keys@[n]).id,
                forall|m: int, n: int| 0 <= m < n < keys@.len() ==> slot_index((#[trigger] keys@[m]).id) < slot_index((#[trigger] keys@[n]).id),
                forall|e: EdgeKey| #[trigger] has_edge(vs, e) ==> bs.dom().contains(bubble_of(vs, e).id),
                forall|m: int| 0 <= m < bi ==> bubble_in_order(vs, bs, (#[trigger] keys@[m]).id),
                open_air_count <= bi,
                open_air_count == 0 ==> forall|m: int| 0 <= m < bi ==> !bs[(#[trigger] keys@[m]).id].style.is_open_air(),
                open_air_count >= 1 ==> exists|m: int| 0 <= m < bi && bs[(#[trigger] keys@[m]).id].style.is_open_air(),
                open_air_count == 1 ==> forall|m: int, n: int| 0 <= m < bi && 0 <= n < bi
                    && bs[(#[trigger] keys@[m]).id].style.is_open_air() && bs[(#[trigger] keys@[n]).id].style.is_open_air() ==> m == n,
                open_air_count >= 2 ==> exists|m: int, n: int| 0 <= m < bi && 0 <= n < bi && m != n
                    && bs[(#[trigger] keys@[m]).id].style.is_open_air() && bs[(#[trigger] keys@[n]).id].style.is_open_air(),
            decreases keys@.len() - bi,
        {
            let bkey = keys[bi];
            let bubble = graph.bubbles.get(bkey);
            let ghost old_count = open_air_count;
            if matches!(bubble.style, BubbleStyle::OpenAir) {
                open_air_count += 1;
            }
            assert(bs.dom().contains(keys@[bi as int].id));
            proof {
                assert forall|b2: u64| #[trigger] bs.dom().contains(b2) && slot_index(b2) < slot_index(bkey.id)
                    implies bubble_in_order(vs, bs, b2) by {
                    let m = choose|m: int| 0 <= m < keys@.len() && #[trigger] keys@[m].id == b2;
                    if m > bi {
                        assert(slot_index(keys@[bi as int].id) < slot_index(keys@[m].id));
                    }
                    assert(m < bi);
                }
            }
            if bubble.edges.len() == 0 {
                assert(!bubble_in_order(vs, bs, bkey.id));
                assert(!lists_in_order(vs, bs));
                return Err(DebugError::EmptyBubble { bubble: bkey });
            }
            proof {
                assert forall|i: int| 0 <= i < bubble.edges@.len() implies odd_version((#[trigger] bubble.edges@[i]).vertex.id)
                    && bubble.edges@[i].offset < 3 by {
                    assert(bs[bkey.id].edges@[i] == bubble.edges@[i]);
                }
            }
            let in_list = self.list_claims(graph, bkey, &bubble.edges);
            let listed = self.claims_listed(graph, bkey, &bubble.edges, &vkeys);
            if !in_list || !listed {
                proof {
                    let es = bs[bkey.id].edges@;
                    if !in_list {
                        let i = choose|i: int| 0 <= i < es.len() && !claims(vs, bkey.id, #[trigger] es[i]);
                        assert(es.to_set().contains(es[i]));
                        assert(!claimed(vs, bkey.id).contains(es[i]));
                    } else {
                        let e = choose|e: EdgeKey| #[trigger] claims(vs, bkey.id, e) && !es.contains(e);
                        assert(claimed(vs, bkey.id).contains(e));
                        assert(!es.to_set().contains(e));
                    }
                }
                return Err(DebugError::EdgeSetMismatch { bubble: bkey });
            }
            proof {
                let es = bs[bkey.id].edges@;
                assert forall|e: EdgeKey| es.to_set().contains(e) <==> claimed(vs, bkey.id).contains(e) by {
                    if es.to_set().contains(e) {
                        let i = choose|i: int| 0 <= i < es.len() && es[i] == e;
                        assert(claims(vs, bkey.id, es[i]));
                    }
                    if claimed(vs, bkey.id).contains(e) {
                        assert(claims(vs, bkey.id, e));
                        assert(es.contains(e));
                    }
                }
                assert(es.to_set() =~= claimed(vs, bkey.id));
            }
            let checked = self.check_edges(graph, bkey);
            if let Err(e) = checked {
                return Err(e);
            }
            proof {
                assert(bubble_in_order(vs, bs, keys@[bi as int].id));
                if old_count >= 1 && bs[bkey.id].style.is_open_air() {
                    let m = choose|m: int| 0 <= m < bi && bs[(#[trigger] keys@[m]).id].style.is_open_air();
                    assert(bs[keys@[m].id].style.is_open_air() && bs[keys@[bi as int].id].style.is_open_air() && m != bi);
                }
                if old_count == 0 && bs[bkey.id].style.is_open_air() {
                    assert(bs[keys@[bi as int].id].style.is_open_air());
                }
            }
            bi += 1;
        }
        proof {
            assert forall|b: u64| #[trigger] bs.dom().contains(b) implies bubble_in_order(vs, bs, b) by {
                let m = choose|m: int| 0 <= m < keys@.len() && #[trigger] keys@[m].id == b;
            }
        }
        if open_air_count != 1 {
            proof {
                if exists|b: u64| sole_open_air(bs, b) {
                    let b = choose|b: u64| sole_open_air(bs, b);
                    let mb = choose|m: int| 0 <= m < keys@.len() && #[trigger] keys@[m].id == b;
                    if open_air_count == 0 {
                        assert(!bs[keys@[mb].id].style.is_open_air());
                    } else {
                        let (m, n) = choose|m: int, n: int| 0 <= m < bi && 0 <= n < bi && m != n
                            && bs[(#[trigger] keys@[m]).id].style.is_open_air() && bs[(#[trigger] keys@[n]).id].style.is_open_air();
                        assert(keys@[m].id == b && keys@[n].id == b);
                    }
                }
            }
            return Err(DebugError::OpenAirCount { count: open_air_count });
        }
        proof {
            let m = choose|m: int| 0 <= m < bi && bs[(#[trigger] keys@[m]).id].style.is_open_air();
            let b = keys@[m].id;
            assert forall|j: u64| bs.dom().contains(j) && (#[trigger] bs[j].style).is_open_air() implies j == b by {
                let mj = choose|n: int| 0 <= n < keys@.len() && #[trigger] keys@[n].id == j;
                assert(bs[keys@[mj].id].style.is_open_air() && bs[keys@[m].id].style.is_open_air());
            }
            assert(sole_open_air(bs, b));
            assert forall|b: u64| #[trigger] bs.dom().contains(b) implies bubble_in_order(vs, bs, b) by {
                let m = choose|m: int| 0 <= m < keys@.len() && #[trigger] keys@[m].id == b;
            }
            assert(lists_in_order(vs, bs));
        }
        let v_count = graph.vertices.len();
        let b_count = graph.bubbles.len();
        let total_half_edges = v_count * 3;
        if v_count != (b_count - 2) * 2 {
            return Err(DebugError::VertexCount { vertices: v_count, bubbles: b_count });
        }
        if total_half_edges != 6 * (b_count - 2) {
            return Err(DebugError::HalfEdgeCount { half_edges: total_half_edges, bubbles: b_count });
        }
        Ok(())
    }
}

} // verus!
