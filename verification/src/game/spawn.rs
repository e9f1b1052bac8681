//! Spawning: new colored bubbles appear on the boundary of the open air,
//! at a random vertex, in a random color that none of its bubbles has.
use vstd::prelude::*;
use macroquad::rand::ChooseRandom;
use crate::graph::bubble::{Bubble, BubbleKey, BubbleStyle, Color};
use crate::graph::edge::EdgeKey;
use crate::graph::vertex::{has_edge, Vertex, VertexKey};
use crate::game::state::{GamePhase, GameState, SoundEvent};
use crate::graph::closure::{edge_set, law_spawn_ready, lemma_edge_set_size};
use crate::graph::flip::lemma_listed_in_own;
use crate::graph::growth::spawn_loopless;
use crate::graph::{
    boundary_ok, bubble_of, ek, first_open_air, keys_valid, sane, sole_open_air, spawn_reads_ok, spawned, Graph,
};
use crate::slots::odd_version;

verus! {

/// Calls `ChooseRandom::choose` of macroquad's random generator on the
/// list: it draws an index with `gen_range(0, len)`, that is the length
/// times a fraction below one computed in `f64`, cut down to an integer,
/// and returns the element there. For a list shorter than 2^53, whose
/// length `f64` holds exactly, the index is below the length, so an element
/// of the list comes back exactly when the list is not empty; which one
/// depends on the generator's state.
#[verifier::external_body]
fn choose_random<T: Copy>(v: &Vec<T>) -> (r: Option<T>)
    requires
        v@.len() < 0x20_0000_0000_0000,
    ensures
        r is Some <==> v@.len() > 0,
        r matches Some(x) ==> v@.contains(x),
{
    v.as_slice().choose().copied()
}

/// The style is a colored one of color `c`.
pub open spec fn colored_as(s: BubbleStyle, c: Color) -> bool {
    match s {
        BubbleStyle::Colored { color, .. } => color == c,
        _ => false,
    }
}

/// One of the bubbles at vertex `v` exists and is colored `c`.
pub open spec fn borders_color(vs: Map<u64, Vertex>, bs: Map<u64, Bubble>, v: VertexKey, c: Color) -> bool {
    exists|o: u8| o < 3 && {
        let b = #[trigger] bubble_of(vs, ek(v, o));
        bs.dom().contains(b.id) && colored_as(bs[b.id].style, c)
    }
}

/// The colors of `colors` that no bubble at vertex `v` has, in order.
pub open spec fn valid_colors(vs: Map<u64, Vertex>, bs: Map<u64, Bubble>, v: VertexKey, colors: Seq<Color>) -> Seq<Color> {
    colors.filter(|c: Color| !borders_color(vs, bs, v, c))
}

/// What a spawn needs, for whichever vertex of the open air it picks: the
/// vertex and its bubbles exist, some color is left for it, and the spawn
/// there can be done; and both lists are short enough to draw from.
pub open spec fn spawn_ok(vs: Map<u64, Vertex>, bs: Map<u64, Bubble>, colors: Seq<Color>) -> bool {
    &&& exists|j: u64| bs.dom().contains(j) && (#[trigger] bs[j].style).is_open_air()
    &&& colors.len() < 0x20_0000_0000_0000
    &&& forall|k: u64| #[trigger] first_open_air(bs, k) ==> {
        &&& bs[k].edges@.len() < 0x20_0000_0000_0000
        &&& forall|i: int| 0 <= i < bs[k].edges@.len() ==> {
            let v = (#[trigger] bs[k].edges@[i]).vertex;
            &&& spawn_reads_ok(vs, bs, v)
            &&& forall|o: u8| o < 3 ==> odd_version(#[trigger] bubble_of(vs, ek(v, o)).id)
            &&& valid_colors(vs, bs, v, colors).len() > 0
        }
    }
}

/// No vertex of the open air's boundary has a loop through its first two
/// walls.
pub open spec fn open_air_loopless(vs: Map<u64, Vertex>, bs: Map<u64, Bubble>) -> bool {
    forall|k: u64, i: int| #![trigger first_open_air(bs, k), bs[k].edges@[i]]
        first_open_air(bs, k) && 0 <= i < bs[k].edges@.len() ==> spawn_loopless(vs, bs[k].edges@[i].vertex)
}

/// The colors left for a spawn at vertex `v` are exactly the colors of the
/// list that none of the three bubbles at `v` has: a color that a colored
/// bubble on any of the three walls of `v` has is never left, and every
/// other color of the list is.
pub proof fn law_valid_colors_avoid_neighbors(vs: Map<u64, Vertex>, bs: Map<u64, Bubble>, v: VertexKey, colors: Seq<Color>, c: Color)
    ensures
        valid_colors(vs, bs, v, colors).contains(c) <==> colors.contains(c) && forall|o: u8| o < 3 ==> !(
            bs.dom().contains((#[trigger] bubble_of(vs, ek(v, o))).id)
            && bs[bubble_of(vs, ek(v, o)).id].style is Colored && bs[bubble_of(vs, ek(v, o)).id].style->color == c),
{
    broadcast use vstd::seq_lib::group_filter_ensures;
    let pred = |x: Color| !borders_color(vs, bs, v, x);
    let f = colors.filter(pred);
    let free = forall|o: u8| o < 3 ==> !(
        bs.dom().contains((#[trigger] bubble_of(vs, ek(v, o))).id)
        && bs[bubble_of(vs, ek(v, o)).id].style is Colored && bs[bubble_of(vs, ek(v, o)).id].style->color == c);
    if f.contains(c) {
        let j = choose|j: int| 0 <= j < f.len() && f[j] == c;
        assert(pred(f[j]));
        colors.lemma_filter_contains_rev(pred, c);
        assert forall|o: u8| o < 3 implies !(
            bs.dom().contains((#[trigger] bubble_of(vs, ek(v, o))).id)
            && bs[bubble_of(vs, ek(v, o)).id].style is Colored && bs[bubble_of(vs, ek(v, o)).id].style->color == c) by {
            if bs.dom().contains(bubble_of(vs, ek(v, o)).id) && colored_as(bs[bubble_of(vs, ek(v, o)).id].style, c) {
                assert(borders_color(vs, bs, v, c));
            }
        }
    }
    if colors.contains(c) && free {
        let j = choose|j: int| 0 <= j < colors.len() && colors[j] == c;
        assert(!borders_color(vs, bs, v, c)) by {
            if borders_color(vs, bs, v, c) {
                let o = choose|o: u8| o < 3 && {
                    let b = #[trigger] bubble_of(vs, ek(v, o));
                    bs.dom().contains(b.id) && colored_as(bs[b.id].style, c)
                };
                assert(bubble_of(vs, ek(v, o)) == bubble_of(vs, ek(v, o)));
            }
        }
        assert(pred(colors[j]));
        colors.lemma_filter_contains(pred, j);
    }
}

/// A spawn by a manager with colors `colors` can be made on a graph of at
/// most 331 vertices that keeps its invariants and has room for one more
/// bubble, when no vertex of the open air has a loop through its first two
/// walls and each has a color left for it.
pub proof fn law_spawn_manager_ready(vs: Map<u64, Vertex>, bs: Map<u64, Bubble>, colors: Seq<Color>)
    requires
        keys_valid(vs, bs),
        sane(vs, bs),
        vs.dom().finite(),
        bs.dom().finite(),
        3 * (vs.dom().len() + 2) <= 999,
        bs.dom().len() < 0xFFFF_FFFE,
        colors.len() < 0x20_0000_0000_0000,
        open_air_loopless(vs, bs),
        forall|k: u64, i: int| #![trigger first_open_air(bs, k), bs[k].edges@[i]]
            first_open_air(bs, k) && 0 <= i < bs[k].edges@.len() ==> valid_colors(vs, bs, bs[k].edges@[i].vertex, colors).len() > 0,
    ensures
        spawn_ok(vs, bs, colors),
{
    let o = choose|o: u64| sole_open_air(bs, o);
    assert(bs.dom().contains(o) && bs[o].style.is_open_air());
    assert forall|k: u64| #[trigger] first_open_air(bs, k) implies {
        &&& bs[k].edges@.len() < 0x20_0000_0000_0000
        &&& forall|i: int| 0 <= i < bs[k].edges@.len() ==> {
            let v = (#[trigger] bs[k].edges@[i]).vertex;
            &&& spawn_reads_ok(vs, bs, v)
            &&& forall|o: u8| o < 3 ==> odd_version(#[trigger] bubble_of(vs, ek(v, o)).id)
            &&& valid_colors(vs, bs, v, colors).len() > 0
        }
    } by {
        let l = bs[k].edges@;
        assert forall|i: int, j: int| 0 <= i < j < l.len() implies l[i] != l[j] by {
            assert(bs[k].edges@[i] != bs[k].edges@[j]);
        }
        assert(l.no_duplicates());
        l.unique_seq_to_set();
        assert forall|f: EdgeKey| l.to_set().contains(f) implies edge_set(vs.dom()).contains(f) by {
            let i = choose|i: int| 0 <= i < l.len() && l[i] == f;
            assert(boundary_ok(vs, bs, k, i));
            assert(bs[k].edges@[i].valid());
        }
        lemma_edge_set_size(vs.dom());
        vstd::set_lib::lemma_len_subset(l.to_set(), edge_set(vs.dom()));
        assert forall|i: int| 0 <= i < l.len() implies {
            let v = (#[trigger] bs[k].edges@[i]).vertex;
            &&& spawn_reads_ok(vs, bs, v)
            &&& forall|o: u8| o < 3 ==> odd_version(#[trigger] bubble_of(vs, ek(v, o)).id)
            &&& valid_colors(vs, bs, v, colors).len() > 0
        } by {
            let v = l[i].vertex;
            assert(boundary_ok(vs, bs, k, i));
            assert(spawn_loopless(vs, v));
            law_spawn_ready(vs, bs, v);
            assert forall|o: u8| o < 3 implies odd_version(#[trigger] bubble_of(vs, ek(v, o)).id) by {
                assert(has_edge(vs, ek(v, o)));
                lemma_listed_in_own(vs, bs, ek(v, o));
            }
        }
    }
}

/// Spawning stops at this many bubbles.
pub const MAX_BUBBLES: usize = 40;

/// How much faster the spawn time runs down while the game has fewer than
/// three bubbles per color.
pub const SPEED_UP: i64 = 5;

/// How fast the spawn time runs down with `n` bubbles and `c` colors.
pub open spec fn spawn_rate(n: int, c: int) -> int {
    if n < 3 * c { SPEED_UP as int } else { 1 }
}

/// What a spawn by a manager with colors `colors` leaves: nothing changes
/// when the open air has no vertices; otherwise a bubble of size one in a
/// color of `colors` that none of its bubbles has is spawned at a vertex
/// of the open air.
pub open spec fn spawn_result(
    vs: Map<u64, Vertex>,
    bs: Map<u64, Bubble>,
    colors: Seq<Color>,
    vs2: Map<u64, Vertex>,
    bs2: Map<u64, Bubble>,
) -> bool {
    &&& (exists|k: u64| #[trigger] first_open_air(bs, k) && bs[k].edges@.len() == 0) ==> vs2 == vs && bs2 == bs
    &&& (exists|k: u64| #[trigger] first_open_air(bs, k) && bs[k].edges@.len() > 0) ==>
        exists|v: VertexKey, c: Color, k1: VertexKey, k2: VertexKey, nb: BubbleKey|
            (exists|k: u64, i: int| #![trigger first_open_air(bs, k), bs[k].edges@[i]]
                first_open_air(bs, k) && 0 <= i < bs[k].edges@.len() && bs[k].edges@[i].vertex == v)
            && valid_colors(vs, bs, v, colors).contains(c)
            && #[trigger] spawned(vs, bs, vs2, bs2, v, k1, k2, nb, BubbleStyle::Colored { size: 1, color: c })
}

/// The colors new bubbles may take, and the time in microseconds until the
/// next spawn.
pub struct SpawnManager {
    pub colors: Vec<Color>,
    pub next_spawn_time: i64,
}

impl SpawnManager {
    /// A manager of the colors `colors`, due to spawn at once.
    pub fn new(colors: Vec<Color>) -> (r: SpawnManager)
        ensures
            r.colors@ == colors@,
            r.next_spawn_time == 0,
    {
        SpawnManager { colors, next_spawn_time: 0 }
    }

    /// One tick of `dt` microseconds. Below the bubble cap, the spawn time
    /// runs down by `dt`, five times as fast while there are fewer than
    /// three bubbles per color; when it has run out in the normal phase, a
    /// bubble is spawned, the spawn sound is queued, and the next spawn is
    /// due after `next_wait`. Returns whether a bubble was spawned.
    pub fn update(&mut self, state: &mut GameState, dt: i64, next_wait: i64) -> (r: bool)
        requires
            0 <= dt,
            old(state).graph.bs().dom().len() < MAX_BUBBLES ==> {
                let t = old(self).next_spawn_time - dt * spawn_rate(old(state).graph.bs().dom().len() as int, old(self).colors@.len() as int);
                &&& dt * spawn_rate(old(state).graph.bs().dom().len() as int, old(self).colors@.len() as int) <= i64::MAX
                &&& i64::MIN <= t
                &&& t < 0 && old(state).phase == GamePhase::Normal ==>
                    spawn_ok(old(state).graph.vs(), old(state).graph.bs(), old(self).colors@)
            },
        ensures
            final(self).colors@ == old(self).colors@,
            final(state).phase == old(state).phase,
            final(state).resume_phase == old(state).resume_phase,
            final(state).focus_bubble == old(state).focus_bubble,
            keys_valid(old(state).graph.vs(), old(state).graph.bs()) && sane(old(state).graph.vs(), old(state).graph.bs())
                && open_air_loopless(old(state).graph.vs(), old(state).graph.bs())
                ==> sane(final(state).graph.vs(), final(state).graph.bs()),
            old(state).graph.bs().dom().len() >= MAX_BUBBLES ==> {
                &&& !r && final(self).next_spawn_time == old(self).next_spawn_time
                &&& final(state).graph.vs() == old(state).graph.vs() && final(state).graph.bs() == old(state).graph.bs()
                &&& final(state).sound_events@ == old(state).sound_events@
            },
            old(state).graph.bs().dom().len() < MAX_BUBBLES ==> {
                let t = old(self).next_spawn_time - dt * spawn_rate(old(state).graph.bs().dom().len() as int, old(self).colors@.len() as int);
                &&& (t < 0 && old(state).phase == GamePhase::Normal) ==> {
                    &&& r && final(self).next_spawn_time == next_wait
                    &&& final(state).sound_events@ == old(state).sound_events@.push(SoundEvent::Spawn)
                    &&& spawn_result(old(state).graph.vs(), old(state).graph.bs(), old(self).colors@,
                        final(state).graph.vs(), final(state).graph.bs())
                }
                &&& !(t < 0 && old(state).phase == GamePhase::Normal) ==> {
                    &&& !r && final(self).next_spawn_time == t
                    &&& final(state).graph.vs() == old(state).graph.vs() && final(state).graph.bs() == old(state).graph.bs()
                    &&& final(state).sound_events@ == old(state).sound_events@
                }
            },
    {
        let n = state.graph.bubbles.len();
        if n >= MAX_BUBBLES {
            return false;
        }
        let rate: i64 = if n / 3 < self.colors.len() { SPEED_UP } else { 1 };
        assert(rate == spawn_rate(n as int, self.colors@.len() as int)) by (nonlinear_arith)
            requires
                rate == (if n / 3 < self.colors@.len() { SPEED_UP } else { 1 }),
                SPEED_UP == 5,
        {
        }
        self.next_spawn_time = self.next_spawn_time - dt * rate;
        if self.next_spawn_time < 0 && state.phase == GamePhase::Normal {
            self.spawn(&mut state.graph);
            self.next_spawn_time = next_wait;
            state.sound_events.push(SoundEvent::Spawn);
            return true;
        }
        false
    }

    /// Whether one of the bubbles at vertex `vkey` exists and is colored
    /// `target_color`.
    pub fn vertex_borders_color(&self, graph: &Graph, vkey: VertexKey, target_color: Color) -> (r: bool)
        requires
            graph.vs().dom().contains(vkey.id),
            forall|o: u8| o < 3 ==> odd_version(#[trigger] bubble_of(graph.vs(), ek(vkey, o)).id),
        ensures
            r == borders_color(graph.vs(), graph.bs(), vkey, target_color),
    {
        let vertex = graph.vertices.get(vkey);
        let mut o: usize = 0;
        while o < 3
            invariant
                o <= 3,
                vertex == graph.vs()[vkey.id],
                forall|p: u8| o <= p < 3 ==> odd_version(#[trigger] bubble_of(graph.vs(), ek(vkey, p)).id),
                forall|p: u8| p < o ==> {
                    let b = #[trigger] bubble_of(graph.vs(), ek(vkey, p));
                    !(graph.bs().dom().contains(b.id) && colored_as(graph.bs()[b.id].style, target_color))
                },
            decreases 3 - o,
        {
            let b = vertex.edges[o].bubble;
            assert(b == bubble_of(graph.vs(), ek(vkey, o as u8)));
            if graph.bubbles.contains_key(b) {
                if let BubbleStyle::Colored { color, .. } = graph.bubbles.style(b) {
                    if color == target_color {
                        return true;
                    }
                }
            }
            o += 1;
        }
        false
    }

    /// The colors of this manager that no bubble at vertex `vkey` has.
    pub fn valid_colors_at(&self, graph: &Graph, vkey: VertexKey) -> (r: Vec<Color>)
        requires
            graph.vs().dom().contains(vkey.id),
            forall|o: u8| o < 3 ==> odd_version(#[trigger] bubble_of(graph.vs(), ek(vkey, o)).id),
        ensures
            r@ == valid_colors(graph.vs(), graph.bs(), vkey, self.colors@),
    {
        let ghost pred = |c: Color| !borders_color(graph.vs(), graph.bs(), vkey, c);
        let mut r: Vec<Color> = Vec::new();
        let mut i: usize = 0;
        while i < self.colors.len()
            invariant
                i <= self.colors@.len(),
                graph.vs().dom().contains(vkey.id),
                forall|o: u8| o < 3 ==> odd_version(#[trigger] bubble_of(graph.vs(), ek(vkey, o)).id),
                pred == (|c: Color| !borders_color(graph.vs(), graph.bs(), vkey, c)),
                r@ == self.colors@.take(i as int).filter(pred),
            decreases self.colors@.len() - i,
        {
            let c = self.colors[i];
            proof {
                reveal(Seq::filter);
                let s1 = self.colors@.take(i + 1);
                assert(s1.drop_last() =~= self.colors@.take(i as int));
                assert(s1.last() == c);
                assert(s1.filter(pred) == (if pred(c) { s1.drop_last().filter(pred).push(c) } else { s1.drop_last().filter(pred) }));
            }
            if !self.vertex_borders_color(graph, vkey, c) {
                r.push(c);
            }
            i += 1;
        }
        proof {
            assert(self.colors@.take(self.colors@.len() as int) =~= self.colors@);
        }
        r
    }

    /// Spawns a bubble at a random vertex of the open air's boundary, in a
    /// random color of this manager that none of the vertex's bubbles has.
    /// Nothing happens when the open air has no vertices.
    pub fn spawn(&mut self, graph: &mut Graph)
        requires
            spawn_ok(old(graph).vs(), old(graph).bs(), old(self).colors@),
        ensures
            final(self).colors@ == old(self).colors@,
            (exists|k: u64| #[trigger] first_open_air(old(graph).bs(), k) && old(graph).bs()[k].edges@.len() == 0) ==>
                final(graph).vs() == old(graph).vs() && final(graph).bs() == old(graph).bs(),
            (exists|k: u64| #[trigger] first_open_air(old(graph).bs(), k) && old(graph).bs()[k].edges@.len() > 0) ==>
                exists|v: VertexKey, c: Color, k1: VertexKey, k2: VertexKey, nb: BubbleKey|
                    (exists|k: u64, i: int| #![trigger first_open_air(old(graph).bs(), k), old(graph).bs()[k].edges@[i]]
                        first_open_air(old(graph).bs(), k) && 0 <= i < old(graph).bs()[k].edges@.len()
                        && old(graph).bs()[k].edges@[i].vertex == v)
                    && valid_colors(old(graph).vs(), old(graph).bs(), v, old(self).colors@).contains(c)
                    && #[trigger] spawned(old(graph).vs(), old(graph).bs(), final(graph).vs(), final(graph).bs(), v, k1, k2, nb,
                        BubbleStyle::Colored { size: 1, color: c }),
            keys_valid(old(graph).vs(), old(graph).bs()) && sane(old(graph).vs(), old(graph).bs())
                && open_air_loopless(old(graph).vs(), old(graph).bs()) ==> sane(final(graph).vs(), final(graph).bs()),
    {
        let ghost vs0 = graph.vs();
        let ghost bs0 = graph.bs();
        let open_air_vertices = graph.get_open_air_vertices();
        let ghost k = choose|k: u64| #[trigger] first_open_air(bs0, k)
            && open_air_vertices@ == bs0[k].edges@.map_values(|e: EdgeKey| e.vertex);
        if open_air_vertices.len() == 0 {
            proof {
                assert forall|k2: u64| #[trigger] first_open_air(bs0, k2) implies bs0[k2].edges@.len() == 0 by {
                    crate::graph::lemma_open_air_unique(bs0, k, k2);
                }
            }
            return;
        }
        let vkey = choose_random(&open_air_vertices).unwrap();
        let ghost i = choose|i: int| 0 <= i < open_air_vertices@.len() && open_air_vertices@[i] == vkey;
        proof {
            assert(bs0[k].edges@[i].vertex == vkey);
            assert(spawn_reads_ok(vs0, bs0, vkey));
        }
        let valid = self.valid_colors_at(graph, vkey);
        let color = choose_random(&valid).unwrap();
        let style = BubbleStyle::colored(color);
        graph.spawn(vkey, style);
        proof {
            if keys_valid(vs0, bs0) && sane(vs0, bs0) && open_air_loopless(vs0, bs0) {
                assert(first_open_air(bs0, k) && bs0[k].edges@[i] == bs0[k].edges@[i]);
                assert(spawn_loopless(vs0, vkey));
                let (k1, k2, nb) = choose|k1: VertexKey, k2: VertexKey, nb: BubbleKey|
                    #[trigger] spawned(vs0, bs0, graph.vs(), graph.bs(), vkey, k1, k2, nb, style)
                    && (keys_valid(vs0, bs0) && sane(vs0, bs0) && spawn_loopless(vs0, vkey) && !style.is_open_air()
                        ==> sane(graph.vs(), graph.bs()) && graph.bs()[nb.id].edges@ == seq![ek(vkey, 0), ek(k1, 0), ek(k2, 2)]);
                assert(sane(graph.vs(), graph.bs()));
            }
        }
        proof {
            assert forall|k2: u64| #[trigger] first_open_air(bs0, k2) implies k2 == k by {
                crate::graph::lemma_open_air_unique(bs0, k, k2);
            }
            let (k1, k2, nb) = choose|k1: VertexKey, k2: VertexKey, nb: BubbleKey|
                spawned(vs0, bs0, graph.vs(), graph.bs(), vkey, k1, k2, nb, BubbleStyle::Colored { size: 1, color });
            assert(spawned(vs0, bs0, graph.vs(), graph.bs(), vkey, k1, k2, nb, BubbleStyle::Colored { size: 1, color }));
            assert(first_open_air(bs0, k) && bs0[k].edges@[i] == bs0[k].edges@[i]);
        }
    }
}

} // verus!
