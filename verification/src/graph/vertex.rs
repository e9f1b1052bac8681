use vstd::prelude::*;
use crate::graph::bubble::BubbleKey;
use crate::graph::edge::{Edge, EdgeKey, Slot};
use crate::slots::{
    issued_key, odd_version, slot_index, vertex_slots, vertex_slots_contains, vertex_slots_get,
    vertex_slots_insert, vertex_slots_keys, vertex_slots_len, vertex_slots_new, vertex_slots_remove,
    vertex_slots_set, VertexSlots,
};

verus! {

/// The 64-bit form of the null slot map key, which no map ever hands out.
pub const NULL_KEY: u64 = 0x1_FFFF_FFFF;

/// The key of a vertex: the 64-bit form of a slot map key, its slot index
/// in the low half and its version in the high half.
#[derive(Debug, Clone, Copy, PartialEq, Eq, Structural, Hash)]
pub struct VertexKey {
    pub id: u64,
}

impl VertexKey {
    /// The null key, which names no vertex.
    pub fn null() -> (r: VertexKey)
        ensures
            r.id == NULL_KEY,
    {
        VertexKey { id: NULL_KEY }
    }

    pub open spec fn spec_index(self) -> u64 {
        (self.id % 0x1_0000_0000) as u64
    }

    pub open spec fn spec_version(self) -> u64 {
        (self.id / 0x1_0000_0000) as u64
    }

    /// The slot index part of the key.
    pub fn index(&self) -> (r: u64)
        ensures
            r == self.spec_index(),
    {
        self.id % 0x1_0000_0000
    }

    /// The version part of the key.
    pub fn version(&self) -> (r: u64)
        ensures
            r == self.spec_version(),
    {
        self.id / 0x1_0000_0000
    }

    /// The edge leaving this vertex at `slot`.
    pub fn slot(self, slot: Slot) -> (r: EdgeKey)
        ensures
            r.vertex == self,
            r.offset == slot.spec_offset(),
    {
        EdgeKey::new(self, slot.offset())
    }

    /// The three edges leaving this vertex, in clockwise order.
    pub fn edge_keys(self) -> (r: [EdgeKey; 3])
        ensures
            r@ == seq![
                EdgeKey { vertex: self, offset: 0u8 },
                EdgeKey { vertex: self, offset: 1u8 },
                EdgeKey { vertex: self, offset: 2u8 },
            ],
    {
        [self.slot(Slot::A), self.slot(Slot::B), self.slot(Slot::C)]
    }
}

} // verus!

verus! {

/// A junction where exactly three bubble walls meet: the topological part
/// of its three outgoing half-edges, indexed clockwise by offset.
#[derive(Debug, Clone, Copy)]
pub struct Vertex {
    pub edges: [Edge; 3],
}

} // verus!

verus! {

impl Vertex {
    /// A vertex whose three edges are not linked yet: their twins and their
    /// bubbles are the null keys.
    pub fn new() -> (r: Vertex)
        ensures
            forall|i: int| 0 <= i < 3 ==> (#[trigger] r.edges@[i]).twin.vertex.id == NULL_KEY
                && r.edges@[i].twin.offset == 0 && r.edges@[i].bubble.id == NULL_KEY,
    {
        let e = Edge {
            twin: EdgeKey { vertex: VertexKey::null(), offset: 0 },
            bubble: BubbleKey { id: NULL_KEY },
        };
        Vertex { edges: [e, e, e] }
    }

    /// The edge leaving this vertex at the key's slot.
    pub fn edge(&self, key: EdgeKey) -> (r: Edge)
        requires
            key.valid(),
        ensures
            r == self.edges@[key.offset as int],
    {
        self.edges[key.offset as usize]
    }
}

/// The edge that `e` names in the vertex map.
pub open spec fn edge_at(vs: Map<u64, Vertex>, e: EdgeKey) -> Edge {
    vs[e.vertex.id].edges@[e.offset as int]
}

/// `e` names an edge of a vertex of the map.
pub open spec fn has_edge(vs: Map<u64, Vertex>, e: EdgeKey) -> bool {
    e.offset < 3 && vs.dom().contains(e.vertex.id)
}

/// The next edge on the same bubble, clockwise: the edge before the twin
/// at the twin's vertex.
pub open spec fn next_edge(vs: Map<u64, Vertex>, e: EdgeKey) -> EdgeKey {
    edge_at(vs, e).twin.spec_prev_on_vertex()
}

/// `after` is `before` with the edge `e` replaced by `edge`.
pub open spec fn edge_replaced(
    before: Map<u64, Vertex>,
    after: Map<u64, Vertex>,
    e: EdgeKey,
    edge: Edge,
) -> bool {
    &&& after.dom() == before.dom()
    &&& edge_at(after, e) == edge
    &&& forall|f: EdgeKey| #[trigger] has_edge(before, f) && f != e ==> edge_at(after, f) == edge_at(before, f)
}

/// The vertices of a graph, held in a slot map.
pub struct VertexSet {
    pub inner: VertexSlots,
}

impl View for VertexSet {
    type V = Map<u64, Vertex>;

    open spec fn view(&self) -> Map<u64, Vertex> {
        vertex_slots(self.inner)
    }
}

impl VertexSet {
    pub fn new() -> (r: VertexSet)
        ensures
            r@.dom() == Set::<u64>::empty(),
    {
        VertexSet { inner: vertex_slots_new() }
    }

    /// The number of vertices.
    pub fn len(&self) -> (r: usize)
        ensures
            r == self@.dom().len(),
    {
        vertex_slots_len(&self.inner)
    }

    /// Stores a new vertex under a fresh key.
    pub fn insert(&mut self, v: Vertex) -> (k: VertexKey)
        requires
            old(self)@.dom().len() < 0xFFFF_FFFE,
        ensures
            !old(self)@.dom().contains(k.id),
            issued_key(k.id),
            final(self)@ == old(self)@.insert(k.id, v),
    {
        VertexKey { id: vertex_slots_insert(&mut self.inner, v) }
    }

    /// Removes a vertex, returning it if it was there.
    pub fn remove(&mut self, k: VertexKey) -> (r: Option<Vertex>)
        requires
            odd_version(k.id),
        ensures
            r == (if old(self)@.dom().contains(k.id) { Some(old(self)@[k.id]) } else { None }),
            final(self)@ == old(self)@.remove(k.id),
    {
        vertex_slots_remove(&mut self.inner, k.id)
    }

    pub fn contains_key(&self, k: VertexKey) -> (r: bool)
        requires
            odd_version(k.id),
        ensures
            r == self@.dom().contains(k.id),
    {
        vertex_slots_contains(&self.inner, k.id)
    }

    pub fn get(&self, k: VertexKey) -> (r: Vertex)
        requires
            self@.dom().contains(k.id),
        ensures
            r == self@[k.id],
    {
        vertex_slots_get(&self.inner, k.id)
    }

    /// The keys of all vertices, each once, in increasing slot index.
    pub fn keys(&self) -> (r: Vec<VertexKey>)
        ensures
            self@.dom().finite(),
            r@.len() == self@.dom().len(),
            forall|i: int| 0 <= i < r@.len() ==> self@.dom().contains(#[trigger] r@[i].id) && issued_key(r@[i].id),
            forall|k: u64| self@.dom().contains(k) ==> exists|i: int| 0 <= i < r@.len() && #[trigger] r@[i].id == k,
            forall|i: int, j: int| 0 <= i < j < r@.len() ==> (#[trigger] r@[i]).id != (#[trigger] r@[j]).id,
    {
        let ids = vertex_slots_keys(&self.inner);
        let mut r: Vec<VertexKey> = Vec::new();
        let mut i: usize = 0;
        while i < ids.len()
            invariant
                i <= ids@.len(),
                r@.len() == i,
                forall|j: int| 0 <= j < i ==> (#[trigger] r@[j]).id == ids@[j],
            decreases ids@.len() - i,
        {
            r.push(VertexKey { id: ids[i] });
            i += 1;
        }
        proof {
            assert forall|k: u64| self@.dom().contains(k) implies exists|i: int| 0 <= i < r@.len() && #[trigger] r@[i].id == k by {
                assert(ids@.to_set().contains(k));
                let j = choose|j: int| 0 <= j < ids@.len() && ids@[j] == k;
                assert(r@[j].id == k);
            }
            assert forall|i: int| 0 <= i < r@.len() implies self@.dom().contains(#[trigger] r@[i].id) && issued_key(r@[i].id) by {
                assert(ids@.to_set().contains(ids@[i]));
            }
            assert forall|i: int, j: int| 0 <= i < j < r@.len() implies (#[trigger] r@[i]).id != (#[trigger] r@[j]).id by {
                assert(slot_index(ids@[i]) < slot_index(ids@[j]));
            }
            ids@.unique_seq_to_set();
            vstd::seq_lib::seq_to_set_is_finite(ids@);
        }
        r
    }

    /// The edge that `key` names.
    pub fn get_edge(&self, key: EdgeKey) -> (r: Edge)
        requires
            has_edge(self@, key),
        ensures
            r == edge_at(self@, key),
    {
        let v = vertex_slots_get(&self.inner, key.vertex.id);
        v.edges[key.offset as usize]
    }

    /// Replaces the edge that `key` names.
    pub fn set_edge(&mut self, key: EdgeKey, edge: Edge)
        requires
            has_edge(old(self)@, key),
        ensures
            edge_replaced(old(self)@, final(self)@, key, edge),
            forall|k: u64| k != key.vertex.id && old(self)@.dom().contains(k) ==> #[trigger] final(self)@[k] == old(self)@[k],
    {
        let ghost before = self@;
        let v0 = vertex_slots_get(&self.inner, key.vertex.id);
        let mut v = v0;
        v.edges[key.offset as usize] = edge;
        assert(v.edges@ == v0.edges@.update(key.offset as int, edge));
        vertex_slots_set(&mut self.inner, key.vertex.id, v);
        assert(self@.dom() =~= before.dom());
        assert forall|f: EdgeKey| #[trigger] has_edge(before, f) && f != key implies edge_at(self@, f) == edge_at(before, f) by {
            if f.vertex.id == key.vertex.id {
                assert(f.offset != key.offset);
            }
        }
    }

    /// The next edge on the same bubble, clockwise.
    pub fn next_on_bubble(&self, key: EdgeKey) -> (r: EdgeKey)
        requires
            has_edge(self@, key),
            edge_at(self@, key).twin.valid(),
        ensures
            r == next_edge(self@, key),
            r.valid(),
    {
        self.get_edge(key).twin.prev_on_vertex()
    }
}

} // verus!
