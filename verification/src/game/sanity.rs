use vstd::prelude::*;
use crate::game::state::GameState;
use crate::graph::bubble::{Bubble, BubbleKey, BubbleStyle};
use crate::graph::edge::EdgeKey;
use crate::graph::vertex::{has_edge, next_edge, Vertex};
use crate::slots::slot_index;
use crate::graph::{
    boundary_ok, bubble_of, euler_ok, keys_valid, listed, listing_ok, sane, sole_open_air, twin_of,
    Graph,
};

verus! {

/// A broken invariant of the graph, as found by the sanity check.
#[derive(Debug, Clone, Copy, PartialEq, Eq, Structural)]
pub enum SanityError {
    /// The bubble has no edges.
    EmptyBubble { bubble: BubbleKey },
    /// An edge in the bubble's list leaves a vertex that does not exist.
    MissingVertex { edge: EdgeKey, bubble: BubbleKey },
    /// An edge in the bubble's list claims another bubble.
    WrongOwner { edge: EdgeKey, bubble: BubbleKey, owner: BubbleKey },
    /// An edge in the bubble's list has a twin at a vertex that does not exist.
    MissingTwinVertex { edge: EdgeKey, bubble: BubbleKey, twin: EdgeKey },
    /// The twin of the edge's twin is another edge.
    TwinMismatch { edge: EdgeKey, twin: EdgeKey, twin_of_twin: EdgeKey },
    /// The next edge on the bubble is not the next edge in its list.
    Discontinuity { bubble: BubbleKey, edge: EdgeKey, expected: EdgeKey, actual: EdgeKey },
    /// The edge is listed twice.
    DuplicateEdge { edge: EdgeKey },
    /// There is not exactly one open-air bubble.
    OpenAirCount { count: usize },
    /// The edge is in no bubble's list.
    UnownedEdge { edge: EdgeKey },
    /// The counts break `V = 2 (B - 2)`.
    VertexCount { vertices: usize, bubbles: usize },
    /// The counts break `3 V = 6 (B - 2)`.
    HalfEdgeCount { half_edges: usize, bubbles: usize },
}

/// The edge at position `p.1` of the list of bubble `p.0`.
pub open spec fn listed_at(bs: Map<u64, Bubble>, p: (u64, int)) -> EdgeKey {
    bs[p.0].edges@[p.1]
}

/// `p` is a position of a list.
pub open spec fn is_pos(bs: Map<u64, Bubble>, p: (u64, int)) -> bool {
    bs.dom().contains(p.0) && 0 <= p.1 < bs[p.0].edges@.len()
}

/// What the error says of the graph.
pub open spec fn error_holds(err: SanityError, vs: Map<u64, Vertex>, bs: Map<u64, Bubble>) -> bool {
    match err {
        SanityError::EmptyBubble { bubble } => bs.dom().contains(bubble.id) && bs[bubble.id].edges@.len() == 0,
        SanityError::MissingVertex { edge, bubble } => bs.dom().contains(bubble.id)
            && bs[bubble.id].edges@.contains(edge) && !vs.dom().contains(edge.vertex.id),
        SanityError::WrongOwner { edge, bubble, owner } => bs.dom().contains(bubble.id)
            && bs[bubble.id].edges@.contains(edge) && has_edge(vs, edge) && bubble_of(vs, edge) == owner
            && owner != bubble,
        SanityError::MissingTwinVertex { edge, bubble, twin } => bs.dom().contains(bubble.id)
            && bs[bubble.id].edges@.contains(edge) && has_edge(vs, edge) && twin_of(vs, edge) == twin
            && !vs.dom().contains(twin.vertex.id),
        SanityError::TwinMismatch { edge, twin, twin_of_twin } => has_edge(vs, edge) && twin_of(vs, edge) == twin
            && has_edge(vs, twin) && twin_of(vs, twin) == twin_of_twin && twin_of_twin != edge,
        SanityError::Discontinuity { bubble, edge, expected, actual } => bs.dom().contains(bubble.id)
            && (exists|i: int| 0 <= i < bs[bubble.id].edges@.len() && #[trigger] bs[bubble.id].edges@[i] == edge
                && bs[bubble.id].edges@[(i + 1) % (bs[bubble.id].edges@.len() as int)] == expected)
            && has_edge(vs, edge) && next_edge(vs, edge) == actual && actual != expected,
        SanityError::DuplicateEdge { edge } => exists|p: (u64, int), q: (u64, int)|
            is_pos(bs, p) && is_pos(bs, q) && p != q && listed_at(bs, p) == edge && listed_at(bs, q) == edge,
        SanityError::OpenAirCount { count } => count != 1 && !(exists|b: u64| sole_open_air(bs, b))
            && (count == 0 <==> forall|b: u64| bs.dom().contains(b) ==> !(#[trigger] bs[b].style).is_open_air()),
        SanityError::UnownedEdge { edge } => has_edge(vs, edge) && !listed(bs, edge),
        SanityError::VertexCount { vertices, bubbles } => vertices == vs.dom().len()
            && bubbles == bs.dom().len() && !euler_ok(vs, bs),
        SanityError::HalfEdgeCount { half_edges, bubbles } => half_edges == 3 * vs.dom().len()
            && bubbles == bs.dom().len() && !euler_ok(vs, bs),
    }
}

/// The list of bubble `b` is not empty and in order at every position.
pub open spec fn list_fine(vs: Map<u64, Vertex>, bs: Map<u64, Bubble>, b: u64) -> bool {
    &&& bs[b].edges@.len() > 0
    &&& forall|i: int| 0 <= i < bs[b].edges@.len() ==> #[trigger] boundary_ok(vs, bs, b, i)
}

/// The invariants of the lists alone: every bubble has a boundary, every
/// listed edge is in order, and no edge is listed twice.
pub open spec fn lists_ok(vs: Map<u64, Vertex>, bs: Map<u64, Bubble>) -> bool {
    &&& forall|b: u64| #[trigger] bs.dom().contains(b) ==> bs[b].edges@.len() > 0
    &&& forall|b: u64, i: int| bs.dom().contains(b) && 0 <= i < bs[b].edges@.len() ==> #[trigger] boundary_ok(vs, bs, b, i)
    &&& forall|b1: u64, i1: int, b2: u64, i2: int|
        bs.dom().contains(b1) && 0 <= i1 < bs[b1].edges@.len() && bs.dom().contains(b2) && 0 <= i2 < bs[b2].edges@.len()
        && (b1 != b2 || i1 != i2) ==> #[trigger] bs[b1].edges@[i1] != #[trigger] bs[b2].edges@[i2]
}

/// The bubble whose list the error is found in, for the errors found
/// while a bubble's list is checked.
pub open spec fn error_bubble(err: SanityError) -> Option<BubbleKey> {
    match err {
        SanityError::EmptyBubble { bubble } => Some(bubble),
        SanityError::MissingVertex { bubble, .. } => Some(bubble),
        SanityError::WrongOwner { bubble, .. } => Some(bubble),
        SanityError::MissingTwinVertex { bubble, .. } => Some(bubble),
        SanityError::Discontinuity { bubble, .. } => Some(bubble),
        _ => None,
    }
}

/// The order in which the check finds errors: lists bubble by bubble in
/// slot order, so every bubble before the one an error is found in has a
/// list in order; the open-air count only when the lists are in order;
/// an unlisted edge only when, besides, there is one open air; the counts
/// only when all of that holds.
pub open spec fn error_in_order(err: SanityError, vs: Map<u64, Vertex>, bs: Map<u64, Bubble>) -> bool {
    &&& error_bubble(err) matches Some(b) ==> forall|b2: u64| #[trigger] bs.dom().contains(b2)
        && slot_index(b2) < slot_index(b.id) ==> list_fine(vs, bs, b2)
    &&& err is OpenAirCount ==> lists_ok(vs, bs)
    &&& err is UnownedEdge ==> lists_ok(vs, bs) && exists|b: u64| sole_open_air(bs, b)
    &&& (err is VertexCount || err is HalfEdgeCount) ==> listing_ok(vs, bs)
}

/// Whether the list holds the edge.
pub fn vec_contains(v: &Vec<EdgeKey>, e: EdgeKey) -> (r: bool)
    ensures
        r == v@.contains(e),
{
    let mut i: usize = 0;
    while i < v.len()
        invariant
            i <= v@.len(),
            forall|j: int| 0 <= j < i ==> v@[j] != e,
        decreases v@.len() - i,
    {
        if v[i] == e {
            return true;
        }
        i += 1;
    }
    false
}

/// Checks the invariants of the graph.
#[derive(Debug, Clone, Copy)]
pub struct SanityManager;

impl SanityManager {
    pub fn new() -> (r: SanityManager) {
        SanityManager
    }

    /// Checks the invariants of the game's graph.
    pub fn check(&self, state: &GameState) -> (r: Result<(), SanityError>)
        requires
            keys_valid(state.graph.vs(), state.graph.bs()),
            3 * state.graph.vs().dom().len() <= usize::MAX,
            6 * state.graph.bs().dom().len() <= usize::MAX,
            listing_ok(state.graph.vs(), state.graph.bs()) ==> state.graph.bs().dom().len() >= 2,
        ensures
            r is Ok <==> sane(state.graph.vs(), state.graph.bs()),
            r matches Err(e) ==> error_holds(e, state.graph.vs(), state.graph.bs()),
            r matches Err(e) ==> error_in_order(e, state.graph.vs(), state.graph.bs()),
    {
        self.check_invariants(&state.graph)
    }

    /// Checks the invariants of the graph: returns `Ok` exactly when they
    /// all hold, and otherwise an error that names a broken one. Bubbles
    /// are checked in key order and each list in order; then the open air;
    /// then that every edge is listed; then the counts.
    pub fn check_invariants(&self, graph: &Graph) -> (r: Result<(), SanityError>)
        requires
            keys_valid(graph.vs(), graph.bs()),
            3 * graph.vs().dom().len() <= usize::MAX,
            6 * graph.bs().dom().len() <= usize::MAX,
            listing_ok(graph.vs(), graph.bs()) ==> graph.bs().dom().len() >= 2,
        ensures
            r is Ok <==> sane(graph.vs(), graph.bs()),
            r matches Err(e) ==> error_holds(e, graph.vs(), graph.bs()),
            r matches Err(e) ==> error_in_order(e, graph.vs(), graph.bs()),
    {
        let ghost vs = graph.vs();
        let ghost bs = graph.bs();
        let keys = graph.bubbles.keys();
        let mut seen: Vec<EdgeKey> = Vec::new();
        let mut open_air_count: usize = 0;
        let ghost mut done: Set<(u64, int)> = Set::empty();
        let mut bi: usize = 0;
        while bi < keys.len()
            invariant
                vs == graph.vs(),
                bs == graph.bs(),
                keys_valid(vs, bs),
                bi <= keys@.len(),
                keys@.len() == bs.dom().len(),
                forall|m: int| 0 <= m < keys@.len() ==> bs.dom().contains(#[trigger] keys@[m].id),
                forall|k: u64| bs.dom().contains(k) ==> exists|m: int| 0 <= m < keys@.len() && #[trigger] keys@[m].id == k,
                forall|m: int, n: int| 0 <= m < n < keys@.len() ==> (#[trigger] keys@[m]).id != (#[trigger] keys@[n]).id,
                forall|m: int, n: int| 0 <= m < n < keys@.len() ==> slot_index((#[trigger] keys@[m]).id) < slot_index((#[trigger] keys@[n]).id),
                forall|m: int| 0 <= m < bi ==> bs[(#[trigger] keys@[m]).id].edges@.len() > 0,
                forall|m: int, i: int| 0 <= m < bi && 0 <= i < bs[keys@[m].id].edges@.len()
                    ==> #[trigger] done.contains((keys@[m].id, i)),
                forall|p: (u64, int)| #[trigger] done.contains(p) ==> is_pos(bs, p)
                    && boundary_ok(vs, bs, p.0, p.1)
                    && exists|m: int| 0 <= m < bi && #[trigger] keys@[m].id == p.0,
                forall|p: (u64, int), q: (u64, int)| #[trigger] done.contains(p) && #[trigger] done.contains(q) && p != q
                    ==> listed_at(bs, p) != listed_at(bs, q),
                forall|e: EdgeKey| #[trigger] seen@.contains(e) <==> exists|p: (u64, int)| #[trigger] done.contains(p) && listed_at(bs, p) == e,
                open_air_count <= bi,
                open_air_count == 0 ==> forall|m: int| 0 <= m < bi ==> !bs[(#[trigger] keys@[m]).id].style.is_open_air(),
                open_air_count >= 1 ==> exists|m: int| 0 <= m < bi && bs[(#[trigger] keys@[m]).id].style.is_open_air(),
                open_air_count == 1 ==> forall|m: int, n: int| 0 <= m < bi && 0 <= n < bi
                    && bs[(#[trigger] keys@[m]).id].style.is_open_air() && bs[(#[trigger] keys@[n]).id].style.is_open_air() ==> m == n,
                open_air_count >= 2 ==> exists|m: int, n: int| 0 <= m < bi && 0 <= n < bi && m != n
                    && bs[(#[trigger] keys@[m]).id].style.is_open_air() && bs[(#[trigger] keys@[n]).id].style.is_open_air(),
            decreases keys@.len() - bi,
        {
            let bkey = keys[bi];
            let bubble = graph.bubbles.get(bkey);
            let ghost old_count = open_air_count;
            proof {
                assert forall|b2: u64| #[trigger] bs.dom().contains(b2) && slot_index(b2) < slot_index(bkey.id)
                    implies list_fine(vs, bs, b2) by {
                    let m = choose|m: int| 0 <= m < keys@.len() && #[trigger] keys@[m].id == b2;
                    if m >= bi {
                        if m > bi {
                            assert(slot_index(keys@[bi as int].id) < slot_index(keys@[m].id));
                        }
                    }
                    assert(m < bi);
                    assert forall|i: int| 0 <= i < bs[b2].edges@.len() implies #[trigger] boundary_ok(vs, bs, b2, i) by {
                        assert(done.contains((keys@[m].id, i)));
                    }
                }
            }
            if matches!(bubble.style, BubbleStyle::OpenAir) {
                open_air_count += 1;
            }
            if bubble.edges.len() == 0 {
                return Err(SanityError::EmptyBubble { bubble: bkey });
            }
            let n = bubble.edges.len();
            let mut i: usize = 0;
            while i < n
                invariant
                    vs == graph.vs(),
                    bs == graph.bs(),
                    keys_valid(vs, bs),
                    bi < keys@.len(),
                    bkey == keys@[bi as int],
                    *bubble == bs[bkey.id],
                    bs.dom().contains(bkey.id),
                    n == bubble.edges@.len(),
                    n > 0,
                    i <= n,
                    keys@.len() == bs.dom().len(),
                    forall|m: int| 0 <= m < keys@.len() ==> bs.dom().contains(#[trigger] keys@[m].id),
                    forall|m: int, n: int| 0 <= m < n < keys@.len() ==> (#[trigger] keys@[m]).id != (#[trigger] keys@[n]).id,
                    forall|m: int, j: int| 0 <= m < bi && 0 <= j < bs[keys@[m].id].edges@.len()
                        ==> #[trigger] done.contains((keys@[m].id, j)),
                    forall|j: int| 0 <= j < i ==> done.contains((bkey.id, j)),
                    forall|b2: u64| #[trigger] bs.dom().contains(b2) && slot_index(b2) < slot_index(bkey.id)
                        ==> list_fine(vs, bs, b2),
                    forall|p: (u64, int)| #[trigger] done.contains(p) ==> is_pos(bs, p)
                        && boundary_ok(vs, bs, p.0, p.1)
                        && ((exists|m: int| 0 <= m < bi && #[trigger] keys@[m].id == p.0) || (p.0 == bkey.id && p.1 < i)),
                    forall|p: (u64, int), q: (u64, int)| #[trigger] done.contains(p) && #[trigger] done.contains(q) && p != q
                        ==> listed_at(bs, p) != listed_at(bs, q),
                    forall|e: EdgeKey| #[trigger] seen@.contains(e) <==> exists|p: (u64, int)| #[trigger] done.contains(p) && listed_at(bs, p) == e,
                decreases n - i,
            {
                let ekey = bubble.edges[i];
                let ghost pos = (bkey.id, i as int);
                assert(listed_at(bs, pos) == ekey);
                if !graph.vertices.contains_key(ekey.vertex) {
                    assert(bs[bkey.id].edges@[i as int] == ekey);
                    assert(!boundary_ok(vs, bs, bkey.id, i as int));
                    return Err(SanityError::MissingVertex { edge: ekey, bubble: bkey });
                }
                let edge = graph.vertices.get_edge(ekey);
                assert(has_edge(vs, ekey));
                if edge.bubble != bkey {
                    assert(bs[bkey.id].edges@[i as int] == ekey);
                    assert(!boundary_ok(vs, bs, bkey.id, i as int));
                    return Err(SanityError::WrongOwner { edge: ekey, bubble: bkey, owner: edge.bubble });
                }
                let tkey = edge.twin;
                if !graph.vertices.contains_key(tkey.vertex) {
                    assert(bs[bkey.id].edges@[i as int] == ekey);
                    assert(!boundary_ok(vs, bs, bkey.id, i as int));
                    return Err(SanityError::MissingTwinVertex { edge: ekey, bubble: bkey, twin: tkey });
                }
                let tt = graph.vertices.get_edge(tkey).twin;
                if tt != ekey {
                    assert(!boundary_ok(vs, bs, bkey.id, i as int));
                    return Err(SanityError::TwinMismatch { edge: ekey, twin: tkey, twin_of_twin: tt });
                }
                let next = graph.vertices.next_on_bubble(ekey);
                let expected = bubble.edges[(i + 1) % n];
                if next != expected {
                    assert(!boundary_ok(vs, bs, bkey.id, i as int));
                    return Err(SanityError::Discontinuity { bubble: bkey, edge: ekey, expected, actual: next });
                }
                assert(boundary_ok(vs, bs, bkey.id, i as int));
                if vec_contains(&seen, ekey) {
                    proof {
                        let p = choose|p: (u64, int)| #[trigger] done.contains(p) && listed_at(bs, p) == ekey;
                        assert(p != pos);
                        assert(is_pos(bs, pos));
                    }
                    return Err(SanityError::DuplicateEdge { edge: ekey });
                }
                let ghost old_seen = seen@;
                let ghost old_done = done;
                seen.push(ekey);
                proof {
                    done = done.insert(pos);
                    assert(seen@ == old_seen.push(ekey));
                    assert forall|p: (u64, int), q: (u64, int)| #[trigger] done.contains(p) && #[trigger] done.contains(q) && p != q
                        implies listed_at(bs, p) != listed_at(bs, q) by {
                        if p == pos {
                            if listed_at(bs, q) == ekey {
                                assert(old_done.contains(q));
                                assert(old_seen.contains(ekey));
                            }
                        } else if q == pos {
                            if listed_at(bs, p) == ekey {
                                assert(old_done.contains(p));
                                assert(old_seen.contains(ekey));
                            }
                        }
                    }
                    assert forall|e: EdgeKey| #[trigger] seen@.contains(e) <==> exists|p: (u64, int)| #[trigger] done.contains(p) && listed_at(bs, p) == e by {
                        if seen@.contains(e) {
                            if e == ekey {
                                assert(done.contains(pos) && listed_at(bs, pos) == e);
                            } else {
                                let j = choose|j: int| 0 <= j < seen@.len() && seen@[j] == e;
                                assert(j < old_seen.len());
                                assert(old_seen[j] == e);
                                assert(old_seen.contains(e));
                                let p = choose|p: (u64, int)| #[trigger] old_done.contains(p) && listed_at(bs, p) == e;
                                assert(done.contains(p));
                            }
                        }
                        if exists|p: (u64, int)| #[trigger] done.contains(p) && listed_at(bs, p) == e {
                            let p = choose|p: (u64, int)| #[trigger] done.contains(p) && listed_at(bs, p) == e;
                            if p == pos {
                                assert(seen@[seen@.len() - 1] == e);
                            } else {
                                assert(old_done.contains(p));
                                assert(old_seen.contains(e));
                                let j = choose|j: int| 0 <= j < old_seen.len() && old_seen[j] == e;
                                assert(seen@[j] == e);
                            }
                        }
                    }
                }
                i += 1;
            }
            proof {
                assert forall|p: (u64, int)| #[trigger] done.contains(p) implies is_pos(bs, p)
                    && boundary_ok(vs, bs, p.0, p.1)
                    && exists|m: int| 0 <= m < bi + 1 && #[trigger] keys@[m].id == p.0 by {
                    if p.0 == bkey.id {
                        assert(keys@[bi as int].id == p.0);
                    }
                }
                if old_count >= 1 && bs[bkey.id].style.is_open_air() {
                    let m = choose|m: int| 0 <= m < bi && bs[(#[trigger] keys@[m]).id].style.is_open_air();
                    assert(bs[keys@[m].id].style.is_open_air() && bs[keys@[bi as int].id].style.is_open_air() && m != bi);
                }
                if old_count == 0 && bs[bkey.id].style.is_open_air() {
                    assert(bs[keys@[bi as int].id].style.is_open_air());
                }
            }
            bi += 1;
        }
        proof {
            assert forall|b: u64, i: int| bs.dom().contains(b) && 0 <= i < bs[b].edges@.len() implies #[trigger] done.contains((b, i)) by {
                let m = choose|m: int| 0 <= m < keys@.len() && #[trigger] keys@[m].id == b;
            }
        }
        proof {
            assert forall|b1: u64, i1: int, b2: u64, i2: int|
                bs.dom().contains(b1) && 0 <= i1 < bs[b1].edges@.len() && bs.dom().contains(b2) && 0 <= i2 < bs[b2].edges@.len()
                && (b1 != b2 || i1 != i2) implies #[trigger] bs[b1].edges@[i1] != #[trigger] bs[b2].edges@[i2] by {
                assert(done.contains((b1, i1)) && done.contains((b2, i2)));
                assert(listed_at(bs, (b1, i1)) != listed_at(bs, (b2, i2)));
            }
            assert forall|b: u64, i: int| bs.dom().contains(b) && 0 <= i < bs[b].edges@.len() implies #[trigger] boundary_ok(vs, bs, b, i) by {
                assert(done.contains((b, i)));
            }
            assert forall|b: u64| #[trigger] bs.dom().contains(b) implies bs[b].edges@.len() > 0 by {
                let m = choose|m: int| 0 <= m < keys@.len() && #[trigger] keys@[m].id == b;
            }
            assert(lists_ok(vs, bs));
        }
        if open_air_count != 1 {
            proof {
                if exists|b: u64| sole_open_air(bs, b) {
                    let b = choose|b: u64| sole_open_air(bs, b);
                    let mb = choose|m: int| 0 <= m < keys@.len() && #[trigger] keys@[m].id == b;
                    if open_air_count == 0 {
                        assert(!bs[keys@[mb].id].style.is_open_air());
                    } else {
                        let (m, n) = choose|m: int, n: int| 0 <= m < bi && 0 <= n < bi && m != n
                            && bs[(#[trigger] keys@[m]).id].style.is_open_air() && bs[(#[trigger] keys@[n]).id].style.is_open_air();
                        assert(keys@[m].id == b && keys@[n].id == b);
                    }
                }
                if open_air_count == 0 {
                    assert forall|b: u64| bs.dom().contains(b) implies !(#[trigger] bs[b].style).is_open_air() by {
                        let mb = choose|m: int| 0 <= m < keys@.len() && #[trigger] keys@[m].id == b;
                        assert(!bs[keys@[mb].id].style.is_open_air());
                    }
                } else {
                    let m = choose|m: int| 0 <= m < bi && bs[(#[trigger] keys@[m]).id].style.is_open_air();
                    assert(bs.dom().contains(keys@[m].id));
                }
            }
            return Err(SanityError::OpenAirCount { count: open_air_count });
        }
        proof {
            let m = choose|m: int| 0 <= m < bi && bs[(#[trigger] keys@[m]).id].style.is_open_air();
            let b = keys@[m].id;
            assert forall|j: u64| bs.dom().contains(j) && (#[trigger] bs[j].style).is_open_air() implies j == b by {
                let mj = choose|n: int| 0 <= n < keys@.len() && #[trigger] keys@[n].id == j;
                assert(bs[keys@[mj].id].style.is_open_air() && bs[keys@[m].id].style.is_open_air());
            }
            assert(sole_open_air(bs, b));
        }
        let total_half_edges = graph.vertices.len() * 3;
        let vkeys = graph.vertices.keys();
        let mut vi: usize = 0;
        while vi < vkeys.len()
            invariant
                vs == graph.vs(),
                bs == graph.bs(),
                vi <= vkeys@.len(),
                forall|m: int| 0 <= m < vkeys@.len() ==> vs.dom().contains(#[trigger] vkeys@[m].id),
                forall|k: u64| vs.dom().contains(k) ==> exists|m: int| 0 <= m < vkeys@.len() && #[trigger] vkeys@[m].id == k,
                forall|m: int, o: u8| 0 <= m < vi && o < 3 ==> #[trigger] listed(bs, EdgeKey { vertex: vkeys@[m], offset: o }),
                forall|e: EdgeKey| #[trigger] seen@.contains(e) <==> exists|p: (u64, int)| #[trigger] done.contains(p) && listed_at(bs, p) == e,
                forall|p: (u64, int)| #[trigger] done.contains(p) ==> is_pos(bs, p),
                forall|b: u64, i: int| bs.dom().contains(b) && 0 <= i < bs[b].edges@.len() ==> #[trigger] done.contains((b, i)),
                lists_ok(vs, bs),
                exists|b: u64| sole_open_air(bs, b),
            decreases vkeys@.len() - vi,
        {
            let vkey = vkeys[vi];
            let mut o: u8 = 0;
            while o < 3
                invariant
                    vs == graph.vs(),
                    bs == graph.bs(),
                    vi < vkeys@.len(),
                    vkey == vkeys@[vi as int],
                    o <= 3,
                    forall|m: int, o2: u8| 0 <= m < vi && o2 < 3 ==> #[trigger] listed(bs, EdgeKey { vertex: vkeys@[m], offset: o2 }),
                    forall|o2: u8| o2 < o ==> #[trigger] listed(bs, EdgeKey { vertex: vkey, offset: o2 }),
                    forall|e: EdgeKey| #[trigger] seen@.contains(e) <==> exists|p: (u64, int)| #[trigger] done.contains(p) && listed_at(bs, p) == e,
                    forall|p: (u64, int)| #[trigger] done.contains(p) ==> is_pos(bs, p),
                    forall|b: u64, i: int| bs.dom().contains(b) && 0 <= i < bs[b].edges@.len() ==> #[trigger] done.contains((b, i)),
                    vs.dom().contains(vkey.id),
                    lists_ok(vs, bs),
                    exists|b: u64| sole_open_air(bs, b),
                decreases 3 - o,
            {
                let e = EdgeKey { vertex: vkey, offset: o };
                if !vec_contains(&seen, e) {
                    proof {
                        assert(has_edge(vs, e));
                        if listed(bs, e) {
                            let (b, i) = choose|b: u64, i: int| bs.dom().contains(b) && 0 <= i < bs[b].edges@.len() && #[trigger] bs[b].edges@[i] == e;
                            assert(done.contains((b, i)));
                            assert(listed_at(bs, (b, i)) == e);
                        }
                    }
                    return Err(SanityError::UnownedEdge { edge: e });
                }
                proof {
                    let p = choose|p: (u64, int)| #[trigger] done.contains(p) && listed_at(bs, p) == e;
                    assert(is_pos(bs, p));
                    assert(bs[p.0].edges@[p.1] == e);
                }
                o += 1;
            }
            vi += 1;
        }
        proof {
            assert forall|e: EdgeKey| #[trigger] has_edge(vs, e) implies listed(bs, e) by {
                let m = choose|m: int| 0 <= m < vkeys@.len() && #[trigger] vkeys@[m].id == e.vertex.id;
                assert(vkeys@[m] == e.vertex);
                assert(listed(bs, EdgeKey { vertex: vkeys@[m], offset: e.offset }));
            }
            assert forall|b1: u64, i1: int, b2: u64, i2: int|
                bs.dom().contains(b1) && 0 <= i1 < bs[b1].edges@.len() && bs.dom().contains(b2) && 0 <= i2 < bs[b2].edges@.len()
                && (b1 != b2 || i1 != i2) implies #[trigger] bs[b1].edges@[i1] != #[trigger] bs[b2].edges@[i2] by {
                assert(done.contains((b1, i1)) && done.contains((b2, i2)));
                assert(listed_at(bs, (b1, i1)) != listed_at(bs, (b2, i2)));
            }
            assert forall|b: u64, i: int| bs.dom().contains(b) && 0 <= i < bs[b].edges@.len() implies #[trigger] boundary_ok(vs, bs, b, i) by {
                assert(done.contains((b, i)));
            }
            assert forall|b: u64| #[trigger] bs.dom().contains(b) implies bs[b].edges@.len() > 0 by {
                let m = choose|m: int| 0 <= m < keys@.len() && #[trigger] keys@[m].id == b;
            }
            assert(listing_ok(vs, bs));
        }
        let v_count = graph.vertices.len();
        let b_count = graph.bubbles.len();
        if v_count != (b_count - 2) * 2 {
            return Err(SanityError::VertexCount { vertices: v_count, bubbles: b_count });
        }
        if total_half_edges != 6 * (b_count - 2) {
            return Err(SanityError::HalfEdgeCount { half_edges: total_half_edges, bubbles: b_count });
        }
        Ok(())
    }
}

} // verus!
