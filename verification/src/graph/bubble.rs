use vstd::prelude::*;
use crate::graph::edge::EdgeKey;
use crate::slots::{
    bubble_slots, bubble_slots_contains, bubble_slots_get, bubble_slots_insert, bubble_slots_keys,
    bubble_slots_len, bubble_slots_new, bubble_slots_remove, bubble_slots_set, issued_key,
    odd_version, slot_index, distinct_slots, BubbleSlots,
};

verus! {

/// The key of a bubble: the 64-bit form of a slot map key.
#[derive(Debug, Clone, Copy, PartialEq, Eq, Structural, Hash)]
pub struct BubbleKey {
    pub id: u64,
}

/// A color as four 8-bit channels.
#[derive(Debug, Clone, Copy, PartialEq, Eq, Structural, Hash)]
pub struct Color {
    pub r: u8,
    pub g: u8,
    pub b: u8,
    pub a: u8,
}

/// What a bubble is in the game.
#[derive(Debug, Clone, Copy, PartialEq, Eq, Structural)]
pub enum BubbleStyle {
    /// A standard colored bubble. Colored bubbles merge to grow their `size`.
    Colored { size: i32, color: Color },
    /// The unique player-controlled bubble, with its number of swaps left.
    Swappable { swaps_left: i32 },
    /// The unique infinite bubble representing the outside world.
    OpenAir,
    /// A bubble in its popping animation, before it is reaped.
    Invisible { size: i32 },
}

/// A face of the planar graph: a bubble or the open air.
pub struct Bubble {
    pub style: BubbleStyle,
    /// The boundary of the bubble: a cycle of half-edges in clockwise order.
    pub edges: Vec<EdgeKey>,
}

} // verus!

verus! {

impl BubbleStyle {
    /// A fresh player bubble with the given number of swaps.
    pub fn swappable(swaps_left: i32) -> (r: BubbleStyle)
        ensures
            r == (BubbleStyle::Swappable { swaps_left }),
    {
        BubbleStyle::Swappable { swaps_left }
    }

    /// A fresh colored bubble of size one.
    pub fn colored(color: Color) -> (r: BubbleStyle)
        ensures
            r == (BubbleStyle::Colored { size: 1, color }),
    {
        BubbleStyle::Colored { size: 1, color }
    }

    pub open spec fn spec_is_poppable(self) -> bool {
        match self {
            BubbleStyle::Colored { size, .. } => size >= 5,
            _ => false,
        }
    }

    /// A colored bubble pops once it has grown to size five.
    pub fn is_poppable(&self) -> (r: bool)
        ensures
            r == self.spec_is_poppable(),
    {
        match self {
            BubbleStyle::Colored { size, .. } => *size >= 5,
            _ => false,
        }
    }

    pub open spec fn is_open_air(self) -> bool {
        self is OpenAir
    }

    pub open spec fn is_swappable(self) -> bool {
        self is Swappable
    }

    /// Merging with two colored bubbles would not overflow the size.
    pub open spec fn can_merge(self, other: BubbleStyle) -> bool {
        match (self, other) {
            (BubbleStyle::Colored { size: s1, .. }, BubbleStyle::Colored { size: s2, .. }) =>
                i32::MIN <= s1 + s2 <= i32::MAX,
            _ => true,
        }
    }

    pub open spec fn spec_merge(self, other: BubbleStyle) -> BubbleStyle {
        if self is OpenAir || other is OpenAir {
            BubbleStyle::OpenAir
        } else {
            match (self, other) {
                (BubbleStyle::Colored { size: s1, color }, BubbleStyle::Colored { size: s2, .. }) =>
                    BubbleStyle::Colored { size: (s1 + s2) as i32, color },
                _ => self,
            }
        }
    }

    /// The style of the bubble that two bubbles become when their wall goes:
    /// the open air absorbs anything, two colored bubbles add their sizes
    /// and keep the first color, and otherwise the first style stays.
    pub fn merge(&self, other: &BubbleStyle) -> (r: BubbleStyle)
        requires
            self.can_merge(*other),
        ensures
            r == self.spec_merge(*other),
    {
        match (self, other) {
            (BubbleStyle::OpenAir, _) | (_, BubbleStyle::OpenAir) => BubbleStyle::OpenAir,
            (BubbleStyle::Colored { size: s1, color }, BubbleStyle::Colored { size: s2, .. }) => {
                BubbleStyle::Colored { size: s1 + s2, color: *color }
            },
            _ => *self,
        }
    }
}

impl Bubble {
    /// A bubble with the given style and no boundary yet.
    pub fn new(style: BubbleStyle) -> (r: Bubble)
        ensures
            r.style == style,
            r.edges@ == Seq::<EdgeKey>::empty(),
    {
        Bubble { style, edges: Vec::new() }
    }
}

/// The bubbles of a graph, held in a slot map.
pub struct BubbleSet {
    pub inner: BubbleSlots,
}

impl View for BubbleSet {
    type V = Map<u64, Bubble>;

    open spec fn view(&self) -> Map<u64, Bubble> {
        bubble_slots(self.inner)
    }
}

impl BubbleSet {
    pub fn new() -> (r: BubbleSet)
        ensures
            r@.dom() == Set::<u64>::empty(),
    {
        BubbleSet { inner: bubble_slots_new() }
    }

    /// The number of bubbles.
    pub fn len(&self) -> (r: usize)
        ensures
            r == self@.dom().len(),
    {
        bubble_slots_len(&self.inner)
    }

    /// Stores a new bubble under a fresh key.
    pub fn insert(&mut self, b: Bubble) -> (k: BubbleKey)
        requires
            old(self)@.dom().len() < 0xFFFF_FFFE,
        ensures
            !old(self)@.dom().contains(k.id),
            issued_key(k.id),
            final(self)@ == old(self)@.insert(k.id, b),
    {
        BubbleKey { id: bubble_slots_insert(&mut self.inner, b) }
    }

    /// Removes a bubble, returning it if it was there.
    pub fn remove(&mut self, k: BubbleKey) -> (r: Option<Bubble>)
        requires
            odd_version(k.id),
        ensures
            r == (if old(self)@.dom().contains(k.id) { Some(old(self)@[k.id]) } else { None }),
            final(self)@ == old(self)@.remove(k.id),
    {
        bubble_slots_remove(&mut self.inner, k.id)
    }

    pub fn contains_key(&self, k: BubbleKey) -> (r: bool)
        requires
            odd_version(k.id),
        ensures
            r == self@.dom().contains(k.id),
    {
        bubble_slots_contains(&self.inner, k.id)
    }

    pub fn get(&self, k: BubbleKey) -> (r: &Bubble)
        requires
            self@.dom().contains(k.id),
        ensures
            *r == self@[k.id],
    {
        bubble_slots_get(&self.inner, k.id)
    }

    /// Replaces a present bubble.
    pub fn set(&mut self, k: BubbleKey, b: Bubble)
        requires
            old(self)@.dom().contains(k.id),
        ensures
            final(self)@ == old(self)@.insert(k.id, b),
    {
        bubble_slots_set(&mut self.inner, k.id, b)
    }

    /// The style of a present bubble.
    pub fn style(&self, k: BubbleKey) -> (r: BubbleStyle)
        requires
            self@.dom().contains(k.id),
        ensures
            r == self@[k.id].style,
    {
        bubble_slots_get(&self.inner, k.id).style
    }

    /// Gives a present bubble a new style and keeps its boundary.
    pub fn set_style(&mut self, k: BubbleKey, style: BubbleStyle)
        requires
            old(self)@.dom().contains(k.id),
        ensures
            final(self)@.dom() == old(self)@.dom(),
            final(self)@[k.id].style == style,
            final(self)@[k.id].edges@ == old(self)@[k.id].edges@,
            forall|j: u64| j != k.id ==> #[trigger] final(self)@[j] == old(self)@[j],
    {
        let edges = clone_edges(&bubble_slots_get(&self.inner, k.id).edges);
        bubble_slots_set(&mut self.inner, k.id, Bubble { style, edges });
        assert(self@.dom() =~= old(self)@.dom());
    }

    /// Gives a present bubble a new boundary and keeps its style.
    pub fn set_edges(&mut self, k: BubbleKey, edges: Vec<EdgeKey>)
        requires
            old(self)@.dom().contains(k.id),
        ensures
            final(self)@.dom() == old(self)@.dom(),
            final(self)@[k.id].style == old(self)@[k.id].style,
            final(self)@[k.id].edges@ == edges@,
            forall|j: u64| j != k.id ==> #[trigger] final(self)@[j] == old(self)@[j],
    {
        let style = bubble_slots_get(&self.inner, k.id).style;
        bubble_slots_set(&mut self.inner, k.id, Bubble { style, edges });
        assert(self@.dom() =~= old(self)@.dom());
    }

    /// The keys of all bubbles, each once, in increasing slot index.
    pub fn keys(&self) -> (r: Vec<BubbleKey>)
        ensures
            self@.dom().finite(),
            distinct_slots(self@.dom()),
            r@.len() == self@.dom().len(),
            forall|i: int| 0 <= i < r@.len() ==> self@.dom().contains(#[trigger] r@[i].id) && issued_key(r@[i].id),
            forall|k: u64| self@.dom().contains(k) ==> exists|i: int| 0 <= i < r@.len() && #[trigger] r@[i].id == k,
            forall|i: int, j: int| 0 <= i < j < r@.len() ==> slot_index((#[trigger] r@[i]).id) < slot_index((#[trigger] r@[j]).id),
    {
        let ids = bubble_slots_keys(&self.inner);
        let mut r: Vec<BubbleKey> = Vec::new();
        let mut i: usize = 0;
        while i < ids.len()
            invariant
                i <= ids@.len(),
                r@.len() == i,
                forall|j: int| 0 <= j < i ==> (#[trigger] r@[j]).id == ids@[j],
            decreases ids@.len() - i,
        {
            r.push(BubbleKey { id: ids[i] });
            i += 1;
        }
        proof {
            assert forall|k: u64| self@.dom().contains(k) implies exists|i: int| 0 <= i < r@.len() && #[trigger] r@[i].id == k by {
                assert(ids@.to_set().contains(k));
                let j = choose|j: int| 0 <= j < ids@.len() && ids@[j] == k;
                assert(r@[j].id == k);
            }
            assert forall|i: int| 0 <= i < r@.len() implies self@.dom().contains(#[trigger] r@[i].id) && issued_key(r@[i].id) by {
                assert(ids@.to_set().contains(ids@[i]));
            }
            assert forall|i: int, j: int| 0 <= i < j < r@.len() implies slot_index((#[trigger] r@[i]).id) < slot_index((#[trigger] r@[j]).id) by {
                assert(slot_index(ids@[i]) < slot_index(ids@[j]));
            }
            assert forall|i: int, j: int| 0 <= i < j < ids@.len() implies ids@[i] != ids@[j] by {
                assert(slot_index(ids@[i]) < slot_index(ids@[j]));
            }
            ids@.unique_seq_to_set();
            vstd::seq_lib::seq_to_set_is_finite(ids@);
            assert forall|a: u64, b: u64| self@.dom().contains(a) && self@.dom().contains(b) && a != b implies
                slot_index(a) != slot_index(b) by {
                assert(ids@.to_set().contains(a) && ids@.to_set().contains(b));
                let i = choose|i: int| 0 <= i < ids@.len() && ids@[i] == a;
                let j = choose|j: int| 0 <= j < ids@.len() && ids@[j] == b;
                if i < j {
                    assert(slot_index(ids@[i]) < slot_index(ids@[j]));
                } else if j < i {
                    assert(slot_index(ids@[j]) < slot_index(ids@[i]));
                }
            }
        }
        r
    }

    /// The first bubble, in key order, whose style satisfies the test that
    /// `which` names: 0 the player bubble, otherwise the open air.
    fn find_style(&self, which: u8) -> (r: Option<BubbleKey>)
        ensures
            distinct_slots(self@.dom()),
            match r {
                Some(k) => self@.dom().contains(k.id) && style_kind(self@[k.id].style, which) && issued_key(k.id)
                    && forall|j: u64| self@.dom().contains(j) && style_kind(#[trigger] self@[j].style, which)
                        ==> slot_index(k.id) <= slot_index(j),
                None => forall|j: u64| self@.dom().contains(j) ==> !style_kind(#[trigger] self@[j].style, which),
            },
    {
        let keys = self.keys();
        let mut i: usize = 0;
        while i < keys.len()
            invariant
                i <= keys@.len(),
                keys@.len() == self@.dom().len(),
                forall|m: int| 0 <= m < keys@.len() ==> self@.dom().contains(#[trigger] keys@[m].id) && issued_key(keys@[m].id),
                forall|k: u64| self@.dom().contains(k) ==> exists|m: int| 0 <= m < keys@.len() && #[trigger] keys@[m].id == k,
                forall|m: int, n: int| 0 <= m < n < keys@.len() ==> slot_index((#[trigger] keys@[m]).id) < slot_index((#[trigger] keys@[n]).id),
                forall|m: int| 0 <= m < i ==> !style_kind(self@[(#[trigger] keys@[m]).id].style, which),
            decreases keys@.len() - i,
        {
            let k = keys[i];
            let st = self.style(k);
            let hit = if which == 0 {
                matches!(st, BubbleStyle::Swappable { .. })
            } else if which == 1 {
                matches!(st, BubbleStyle::OpenAir)
            } else {
                st.is_poppable()
            };
            if hit {
                assert forall|j: u64| self@.dom().contains(j) && style_kind(#[trigger] self@[j].style, which)
                    implies slot_index(k.id) <= slot_index(j) by {
                    let m = choose|m: int| 0 <= m < keys@.len() && #[trigger] keys@[m].id == j;
                    if m < i {
                        assert(!style_kind(self@[keys@[m].id].style, which));
                    } else if m > i {
                        assert(slot_index(keys@[i as int].id) < slot_index(keys@[m].id));
                    }
                }
                return Some(k);
            }
            i += 1;
        }
        assert forall|j: u64| self@.dom().contains(j) implies !style_kind(#[trigger] self@[j].style, which) by {
            let m = choose|m: int| 0 <= m < keys@.len() && #[trigger] keys@[m].id == j;
            assert(!style_kind(self@[keys@[m].id].style, which));
        }
        None
    }

    /// The player bubble: the first swappable bubble in key order, if any.
    pub fn get_swappable(&self) -> (r: Option<BubbleKey>)
        ensures
            distinct_slots(self@.dom()),
            match r {
                Some(k) => self@.dom().contains(k.id) && self@[k.id].style.is_swappable() && issued_key(k.id)
                    && forall|j: u64| self@.dom().contains(j) && (#[trigger] self@[j].style).is_swappable()
                        ==> slot_index(k.id) <= slot_index(j),
                None => forall|j: u64| self@.dom().contains(j) ==> !(#[trigger] self@[j].style).is_swappable(),
            },
    {
        self.find_style(0)
    }

    /// The first bubble in key order that is ready to pop, if any.
    pub fn get_poppable(&self) -> (r: Option<BubbleKey>)
        ensures
            distinct_slots(self@.dom()),
            match r {
                Some(k) => self@.dom().contains(k.id) && self@[k.id].style.spec_is_poppable() && issued_key(k.id)
                    && forall|j: u64| self@.dom().contains(j) && (#[trigger] self@[j].style).spec_is_poppable()
                        ==> slot_index(k.id) <= slot_index(j),
                None => forall|j: u64| self@.dom().contains(j) ==> !(#[trigger] self@[j].style).spec_is_poppable(),
            },
    {
        self.find_style(2)
    }

    /// The open air: the first open-air bubble in key order. The graph
    /// always holds one.
    pub fn get_open_air(&self) -> (r: BubbleKey)
        requires
            exists|j: u64| self@.dom().contains(j) && (#[trigger] self@[j].style).is_open_air(),
        ensures
            distinct_slots(self@.dom()),
            self@.dom().contains(r.id),
            issued_key(r.id),
            self@[r.id].style.is_open_air(),
            forall|j: u64| self@.dom().contains(j) && (#[trigger] self@[j].style).is_open_air()
                ==> slot_index(r.id) <= slot_index(j),
    {
        let r = self.find_style(1);
        proof {
            if r is None {
                let j = choose|j: u64| self@.dom().contains(j) && (#[trigger] self@[j].style).is_open_air();
                assert(!style_kind(self@[j].style, 1));
            }
        }
        r.unwrap()
    }
}

/// The style test that `find_style` names by `which`.
pub open spec fn style_kind(s: BubbleStyle, which: u8) -> bool {
    if which == 0 {
        s is Swappable
    } else if which == 1 {
        s is OpenAir
    } else {
        s.spec_is_poppable()
    }
}

/// A copy of a list of edge keys.
pub fn clone_edges(v: &Vec<EdgeKey>) -> (r: Vec<EdgeKey>)
    ensures
        r@ == v@,
{
    let mut r: Vec<EdgeKey> = Vec::new();
    let mut i: usize = 0;
    while i < v.len()
        invariant
            i <= v@.len(),
            r@ == v@.subrange(0, i as int),
        decreases v@.len() - i,
    {
        r.push(v[i]);
        i += 1;
    }
    assert(r@ =~= v@);
    r
}

/// A colored bubble is ready to pop exactly when it has grown to size five
/// or more, whatever its color; no other kind of bubble ever is.
pub proof fn law_poppable_from_five(s: BubbleStyle)
    ensures
        s.spec_is_poppable() <==> (s matches BubbleStyle::Colored { size, .. } && size >= 5),
{
}

/// Growing never stops a colored bubble from being ready to pop: of two
/// colored bubbles, the larger is ready whenever the smaller is.
pub proof fn law_poppable_grows(small: i32, large: i32, c1: Color, c2: Color)
    requires
        small <= large,
    ensures
        (BubbleStyle::Colored { size: small, color: c1 }).spec_is_poppable()
            ==> (BubbleStyle::Colored { size: large, color: c2 }).spec_is_poppable(),
        (BubbleStyle::Colored { size: 5, color: c1 }).spec_is_poppable(),
        !(BubbleStyle::Colored { size: 4, color: c1 }).spec_is_poppable(),
{
}

/// Two colored bubbles merge into one colored bubble of the first one's
/// color whose size is the sum of their sizes: no size is lost or made up.
pub proof fn law_merge_adds_sizes(s1: i32, c1: Color, s2: i32, c2: Color)
    requires
        i32::MIN <= s1 + s2 <= i32::MAX,
    ensures
        (BubbleStyle::Colored { size: s1, color: c1 }).spec_merge(BubbleStyle::Colored { size: s2, color: c2 })
            matches BubbleStyle::Colored { size, color } && size == s1 + s2 && color == c1,
        (BubbleStyle::Colored { size: s1, color: c1 }).can_merge(BubbleStyle::Colored { size: s2, color: c2 }),
{
}

/// The open air absorbs whatever it merges with, on either side.
pub proof fn law_merge_into_open_air(s: BubbleStyle)
    ensures
        BubbleStyle::OpenAir.spec_merge(s) == BubbleStyle::OpenAir,
        s.spec_merge(BubbleStyle::OpenAir) == BubbleStyle::OpenAir,
{
}

} // verus!
