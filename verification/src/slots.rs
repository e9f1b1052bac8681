use vstd::prelude::*;
use slotmap::{DefaultKey, Key, KeyData, SlotMap};
use crate::graph::bubble::Bubble;
use crate::graph::vertex::Vertex;

verus! {

/// A slot map of vertices, keyed by the 64-bit form of its keys.
#[verifier::external_body]
pub struct VertexSlots {
    inner: SlotMap<DefaultKey, Vertex>,
}

/// A slot map of bubbles, keyed by the 64-bit form of its keys.
#[verifier::external_body]
pub struct BubbleSlots {
    inner: SlotMap<DefaultKey, Bubble>,
}

/// What a slot map of vertices holds, by the 64-bit form of each key.
pub uninterp spec fn vertex_slots(m: VertexSlots) -> Map<u64, Vertex>;

/// What a slot map of bubbles holds, by the 64-bit form of each key.
pub uninterp spec fn bubble_slots(m: BubbleSlots) -> Map<u64, Bubble>;

/// The shape of the 64-bit form of a key that a slot map hands out: an odd
/// version in the high half, and a slot index in the low half that is
/// neither the reserved slot 0 nor the null index `u32::MAX`.
pub open spec fn issued_key(id: u64) -> bool {
    &&& (id / 0x1_0000_0000) % 2 == 1
    &&& 1 <= id % 0x1_0000_0000 < 0xFFFF_FFFF
}

/// The version half of a 64-bit key is odd, as in every key handed out.
pub open spec fn odd_version(id: u64) -> bool {
    (id / 0x1_0000_0000) % 2 == 1
}

/// No two keys of the set share a slot index, as no two keys of one slot
/// map do.
pub open spec fn distinct_slots(keys: Set<u64>) -> bool {
    forall|a: u64, b: u64| keys.contains(a) && keys.contains(b) && a != b ==> slot_index(a) != slot_index(b)
}

/// The slot index half of a 64-bit key.
pub open spec fn slot_index(id: u64) -> int {
    (id % 0x1_0000_0000) as int
}

/// Calls `SlotMap::with_key`: the new map holds nothing.
#[verifier::external_body]
pub(crate) fn vertex_slots_new() -> (r: VertexSlots)
    ensures
        vertex_slots(r).dom() == Set::<u64>::empty(),
{
    VertexSlots { inner: SlotMap::with_key() }
}

/// Calls `SlotMap::len`: the number of entries.
#[verifier::external_body]
pub(crate) fn vertex_slots_len(m: &VertexSlots) -> (r: usize)
    ensures
        r == vertex_slots(*m).dom().len(),
{
    m.inner.len()
}

/// Calls `SlotMap::insert`: the value is stored under a key that was not in
/// the map, which is returned in its 64-bit form (`KeyData::as_ffi`). The
/// call panics only when the map is full, which the bound on `len` rules out.
#[verifier::external_body]
pub(crate) fn vertex_slots_insert(m: &mut VertexSlots, v: Vertex) -> (k: u64)
    requires
        vertex_slots(*old(m)).dom().len() < 0xFFFF_FFFE,
    ensures
        !vertex_slots(*old(m)).dom().contains(k),
        issued_key(k),
        vertex_slots(*final(m)) == vertex_slots(*old(m)).insert(k, v),
{
    m.inner.insert(v).data().as_ffi()
}

/// Calls `SlotMap::contains_key` with the key read back by
/// `KeyData::from_ffi`, which is exact for a key with an odd version.
#[verifier::external_body]
pub(crate) fn vertex_slots_contains(m: &VertexSlots, k: u64) -> (r: bool)
    requires
        odd_version(k),
    ensures
        r == vertex_slots(*m).dom().contains(k),
{
    m.inner.contains_key(KeyData::from_ffi(k).into())
}

/// Calls `Index::index` of the slot map: the value under a present key.
#[verifier::external_body]
pub(crate) fn vertex_slots_get(m: &VertexSlots, k: u64) -> (r: Vertex)
    requires
        vertex_slots(*m).dom().contains(k),
    ensures
        r == vertex_slots(*m)[k],
{
    m.inner[KeyData::from_ffi(k).into()]
}

/// Calls `IndexMut::index_mut` of the slot map and stores `v` under a
/// present key.
#[verifier::external_body]
pub(crate) fn vertex_slots_set(m: &mut VertexSlots, k: u64, v: Vertex)
    requires
        vertex_slots(*old(m)).dom().contains(k),
    ensures
        vertex_slots(*final(m)) == vertex_slots(*old(m)).insert(k, v),
{
    m.inner[KeyData::from_ffi(k).into()] = v;
}

/// Calls `SlotMap::remove`: the entry under the key leaves the map and its
/// value is returned, if there was one.
#[verifier::external_body]
pub(crate) fn vertex_slots_remove(m: &mut VertexSlots, k: u64) -> (r: Option<Vertex>)
    requires
        odd_version(k),
    ensures
        r == (if vertex_slots(*old(m)).dom().contains(k) {
            Some(vertex_slots(*old(m))[k])
        } else {
            None
        }),
        vertex_slots(*final(m)) == vertex_slots(*old(m)).remove(k),
{
    m.inner.remove(KeyData::from_ffi(k).into())
}

/// Calls `SlotMap::keys`: every key once, in increasing slot index; each
/// was handed out by the map.
#[verifier::external_body]
pub(crate) fn vertex_slots_keys(m: &VertexSlots) -> (r: Vec<u64>)
    ensures
        r@.to_set() == vertex_slots(*m).dom(),
        forall|i: int| 0 <= i < r@.len() ==> issued_key(#[trigger] r@[i]),
        forall|i: int, j: int|
            0 <= i < j < r@.len() ==> slot_index(#[trigger] r@[i]) < slot_index(#[trigger] r@[j]),
{
    m.inner.keys().map(|k| k.data().as_ffi()).collect()
}

/// Calls `SlotMap::with_key`: the new map holds nothing.
#[verifier::external_body]
pub(crate) fn bubble_slots_new() -> (r: BubbleSlots)
    ensures
        bubble_slots(r).dom() == Set::<u64>::empty(),
{
    BubbleSlots { inner: SlotMap::with_key() }
}

/// Calls `SlotMap::len`: the number of entries.
#[verifier::external_body]
pub(crate) fn bubble_slots_len(m: &BubbleSlots) -> (r: usize)
    ensures
        r == bubble_slots(*m).dom().len(),
{
    m.inner.len()
}

/// Calls `SlotMap::insert`: the value is stored under a key that was not in
/// the map, which is returned in its 64-bit form (`KeyData::as_ffi`). The
/// call panics only when the map is full, which the bound on `len` rules out.
#[verifier::external_body]
pub(crate) fn bubble_slots_insert(m: &mut BubbleSlots, v: Bubble) -> (k: u64)
    requires
        bubble_slots(*old(m)).dom().len() < 0xFFFF_FFFE,
    ensures
        !bubble_slots(*old(m)).dom().contains(k),
        issued_key(k),
        bubble_slots(*final(m)) == bubble_slots(*old(m)).insert(k, v),
{
    m.inner.insert(v).data().as_ffi()
}

/// Calls `SlotMap::contains_key` with the key read back by
/// `KeyData::from_ffi`, which is exact for a key with an odd version.
#[verifier::external_body]
pub(crate) fn bubble_slots_contains(m: &BubbleSlots, k: u64) -> (r: bool)
    requires
        odd_version(k),
    ensures
        r == bubble_slots(*m).dom().contains(k),
{
    m.inner.contains_key(KeyData::from_ffi(k).into())
}

/// Calls `Index::index` of the slot map: the value under a present key.
#[verifier::external_body]
pub(crate) fn bubble_slots_get(m: &BubbleSlots, k: u64) -> (r: &Bubble)
    requires
        bubble_slots(*m).dom().contains(k),
    ensures
        *r == bubble_slots(*m)[k],
{
    &m.inner[KeyData::from_ffi(k).into()]
}

/// Calls `IndexMut::index_mut` of the slot map and stores `v` under a
/// present key.
#[verifier::external_body]
pub(crate) fn bubble_slots_set(m: &mut BubbleSlots, k: u64, v: Bubble)
    requires
        bubble_slots(*old(m)).dom().contains(k),
    ensures
        bubble_slots(*final(m)) == bubble_slots(*old(m)).insert(k, v),
{
    m.inner[KeyData::from_ffi(k).into()] = v;
}

/// Calls `SlotMap::remove`: the entry under the key leaves the map and its
/// value is returned, if there was one.
#[verifier::external_body]
pub(crate) fn bubble_slots_remove(m: &mut BubbleSlots, k: u64) -> (r: Option<Bubble>)
    requires
        odd_version(k),
    ensures
        r == (if bubble_slots(*old(m)).dom().contains(k) {
            Some(bubble_slots(*old(m))[k])
        } else {
            None
        }),
        bubble_slots(*final(m)) == bubble_slots(*old(m)).remove(k),
{
    m.inner.remove(KeyData::from_ffi(k).into())
}

/// Calls `SlotMap::keys`: every key once, in increasing slot index; each
/// was handed out by the map.
#[verifier::external_body]
pub(crate) fn bubble_slots_keys(m: &BubbleSlots) -> (r: Vec<u64>)
    ensures
        r@.to_set() == bubble_slots(*m).dom(),
        forall|i: int| 0 <= i < r@.len() ==> issued_key(#[trigger] r@[i]),
        forall|i: int, j: int|
            0 <= i < j < r@.len() ==> slot_index(#[trigger] r@[i]) < slot_index(#[trigger] r@[j]),
{
    m.inner.keys().map(|k| k.data().as_ffi()).collect()
}

} // verus!
