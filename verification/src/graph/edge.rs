use vstd::prelude::*;
use crate::graph::bubble::BubbleKey;
use crate::graph::vertex::VertexKey;

verus! {

/// One of the three outgoing slots of a vertex, in clockwise order.
#[derive(Debug, Clone, Copy, PartialEq, Eq, Structural, Hash)]
pub enum Slot {
    A,
    B,
    C,
}

impl Slot {
    /// The offset of this slot within its vertex.
    pub open spec fn spec_offset(self) -> u8 {
        match self {
            Slot::A => 0u8,
            Slot::B => 1u8,
            Slot::C => 2u8,
        }
    }

    /// The offset of this slot within its vertex.
    pub fn offset(self) -> (r: u8)
        ensures
            r == self.spec_offset(),
            r < 3,
    {
        match self {
            Slot::A => 0,
            Slot::B => 1,
            Slot::C => 2,
        }
    }

    /// The three slots in clockwise order.
    pub fn all() -> (r: [Slot; 3])
        ensures
            r@ == seq![Slot::A, Slot::B, Slot::C],
    {
        [Slot::A, Slot::B, Slot::C]
    }
}

/// A directed half-edge, named by the vertex it leaves and by its slot there.
#[derive(Debug, Clone, Copy, PartialEq, Eq, Structural, Hash)]
pub struct EdgeKey {
    pub vertex: VertexKey,
    pub offset: u8,
}

impl EdgeKey {
    /// The offset names one of the three slots of the vertex.
    pub open spec fn valid(self) -> bool {
        self.offset < 3
    }

    pub open spec fn spec_next_on_vertex(self) -> EdgeKey {
        EdgeKey { vertex: self.vertex, offset: ((self.offset + 1) % 3) as u8 }
    }

    pub open spec fn spec_prev_on_vertex(self) -> EdgeKey {
        EdgeKey { vertex: self.vertex, offset: ((self.offset + 2) % 3) as u8 }
    }

    /// Strict order of keys: by the vertex key's slot index, then its
    /// version, then the offset.
    pub open spec fn spec_lt(self, other: EdgeKey) -> bool {
        ||| self.vertex.spec_index() < other.vertex.spec_index()
        ||| (self.vertex.spec_index() == other.vertex.spec_index()
            && self.vertex.spec_version() < other.vertex.spec_version())
        ||| (self.vertex.id == other.vertex.id && self.offset < other.offset)
    }

    pub fn new(vertex: VertexKey, offset: u8) -> (r: EdgeKey)
        requires
            offset < 3,
        ensures
            r.vertex == vertex,
            r.offset == offset,
    {
        EdgeKey { vertex, offset }
    }

    /// The next edge leaving the same vertex, clockwise.
    pub fn next_on_vertex(&self) -> (r: EdgeKey)
        requires
            self.valid(),
        ensures
            r == self.spec_next_on_vertex(),
            r.valid(),
    {
        EdgeKey { vertex: self.vertex, offset: (self.offset + 1) % 3 }
    }

    /// The previous edge leaving the same vertex, clockwise.
    pub fn prev_on_vertex(&self) -> (r: EdgeKey)
        requires
            self.valid(),
        ensures
            r == self.spec_prev_on_vertex(),
            r.valid(),
    {
        EdgeKey { vertex: self.vertex, offset: (self.offset + 2) % 3 }
    }

    /// Whether `self` comes strictly before `other` in key order.
    pub fn less_than(&self, other: &EdgeKey) -> (r: bool)
        ensures
            r == self.spec_lt(*other),
    {
        let (si, sv) = (self.vertex.index(), self.vertex.version());
        let (oi, ov) = (other.vertex.index(), other.vertex.version());
        if si != oi {
            si < oi
        } else if sv != ov {
            sv < ov
        } else {
            self.offset < other.offset
        }
    }
}

/// The topological part of a directed half-edge: its twin and its bubble.
#[derive(Debug, Clone, Copy, PartialEq, Eq, Structural)]
pub struct Edge {
    /// The opposite half-edge pointing back toward this edge's origin vertex.
    pub twin: EdgeKey,
    /// The bubble bounded by this edge.
    pub bubble: BubbleKey,
}

} // verus!
