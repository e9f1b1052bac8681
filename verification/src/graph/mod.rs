//! The planar graph of the bubbles as a half-edge structure.
//!
//! Every vertex has exactly three outgoing half-edges; every half-edge has a
//! twin running back the other way and bounds one bubble. Walking a bubble's
//! boundary clockwise goes from an edge to the edge before its twin at the
//! twin's vertex. A single open-air bubble stands for the outside.
pub mod edge;
pub mod vertex;
pub mod bubble;
pub mod spec;
pub mod laws;
pub mod closure;
pub mod flip;
pub mod growth;
pub mod merge;
pub mod fold;
pub mod digon;
pub mod retrace;

use vstd::prelude::*;
use crate::graph::bubble::{Bubble, BubbleKey, BubbleSet, BubbleStyle};
use crate::graph::edge::{Edge, EdgeKey};
use crate::graph::vertex::{has_edge, next_edge, Vertex, VertexKey, VertexSet};
use crate::slots::{distinct_slots, issued_key, odd_version};
pub use crate::graph::spec::{
    boundary_from, boundary_ok, bubble_of, closes, closes_at, ek, euler_ok, initial_graph, keys_valid,
    lemma_closes_same_twins, lemma_closes_unique, lemma_initial_keys_valid, lemma_initial_sane,
    lemma_same_twins_trans, lemma_walk_same_twins, listed, listing_ok, orbit, orbit_len, same_twins,
    sane, sole_open_air, twin_of, walk, rebubble_post, rebubbled, graph_ok, twins_are, closes_by,
    orbit_by, linked, twins, chain_label, chain_list, lemma_closes_by, lemma_rebubbled_start,
    lemma_rebubbled_push, walk_by, slide_twins, slide_flips, slide_chain, slide_closes,
    relinked_rebubbled, lemma_twins_are_same, lemma_chain_graph_ok, link_post, lemma_link,
    lemma_twins_are_twins, lemma_orbit_by_edges, slide_reads_ok, slide_post, spawn_reads_ok, spawned,
    spawn_twins, spawn_chain, spawn_closes, unlinked_twin, unlinked_bubble, remove_blocked, remove_case,
    remove_twins, remove_chain, remove_links_ok, merged, is_degenerate, degenerate_edges,
    degenerate_reads_ok, slides_post, slides_ok, slide_trace, remove_reads_ok, remove_post, first_open_air,
    is_player_key, swap_reads_ok, candidates_in, swap_candidates_of, lemma_player_unique,
    lemma_open_air_unique,
};

use crate::graph::closure::slide_six_distinct;
use crate::graph::flip::{four_distinct, law_slide_keeps_sane, slides_tame};
use crate::graph::fold::fold_distinct;
use crate::graph::growth::{law_spawn_keeps_sane, spawn_loopless};
use crate::graph::merge::law_remove_keeps_sane;
use crate::graph::retrace::{law_retrace_keeps_sane, turned};

verus! {

/// The half-edge graph of the bubbles.
pub struct Graph {
    pub vertices: VertexSet,
    pub bubbles: BubbleSet,
}

impl Graph {
    pub open spec fn vs(&self) -> Map<u64, Vertex> {
        self.vertices@
    }

    pub open spec fn bs(&self) -> Map<u64, Bubble> {
        self.bubbles@
    }

    /// Builds the smallest graph: two vertices joined by three walls, which
    /// bound a bubble of style `s1`, a bubble of style `s2` and the open air.
    pub fn new(s1: BubbleStyle, s2: BubbleStyle) -> (g: Graph)
        ensures
            exists|v1: VertexKey, v2: VertexKey, b1: BubbleKey, b2: BubbleKey, b3: BubbleKey|
                initial_graph(g.vs(), g.bs(), v1, v2, b1, b2, b3, s1, s2),
            keys_valid(g.vs(), g.bs()),
            !s1.is_open_air() && !s2.is_open_air() ==> sane(g.vs(), g.bs()),
    {
        let mut graph = Graph { vertices: VertexSet::new(), bubbles: BubbleSet::new() };
        let v1 = graph.vertices.insert(Vertex::new());
        let v2 = graph.vertices.insert(Vertex::new());
        let e1 = v1.edge_keys();
        let e2 = v2.edge_keys();
        assert(e1[0] == ek(v1, 0) && e1[1] == ek(v1, 1) && e1[2] == ek(v1, 2));
        assert(e2[0] == ek(v2, 0) && e2[1] == ek(v2, 1) && e2[2] == ek(v2, 2));
        assert(v1 != v2);
        let ghost s0 = graph.vertices@;
        assert(has_edge(s0, ek(v1, 0)) && has_edge(s0, ek(v1, 1)) && has_edge(s0, ek(v1, 2)));
        assert(has_edge(s0, ek(v2, 0)) && has_edge(s0, ek(v2, 1)) && has_edge(s0, ek(v2, 2)));
        graph.link_twins(e1[0], e2[0]);
        let ghost s1v = graph.vertices@;
        assert(has_edge(s1v, ek(v1, 0)) && has_edge(s1v, ek(v1, 1)) && has_edge(s1v, ek(v1, 2)));
        assert(has_edge(s1v, ek(v2, 0)) && has_edge(s1v, ek(v2, 1)) && has_edge(s1v, ek(v2, 2)));
        graph.link_twins(e1[1], e2[2]);
        let ghost s2v = graph.vertices@;
        assert(has_edge(s2v, ek(v1, 0)) && has_edge(s2v, ek(v1, 1)) && has_edge(s2v, ek(v1, 2)));
        assert(has_edge(s2v, ek(v2, 0)) && has_edge(s2v, ek(v2, 1)) && has_edge(s2v, ek(v2, 2)));
        graph.link_twins(e1[2], e2[1]);
        let ghost vs = graph.vertices@;
        proof {
            assert(has_edge(vs, ek(v1, 0)) && has_edge(vs, ek(v1, 1)) && has_edge(vs, ek(v1, 2)));
            assert(has_edge(vs, ek(v2, 0)) && has_edge(vs, ek(v2, 1)) && has_edge(vs, ek(v2, 2)));
            assert(twin_of(vs, ek(v1, 0)) == ek(v2, 0));
            assert(twin_of(vs, ek(v2, 0)) == ek(v1, 0));
            assert(twin_of(vs, ek(v1, 1)) == ek(v2, 2));
            assert(twin_of(vs, ek(v2, 2)) == ek(v1, 1));
            assert(walk(vs, ek(v1, 0), 0) == ek(v1, 0));
            assert(twin_of(vs, ek(v1, 0)).spec_prev_on_vertex() == ek(v2, 2));
            assert(next_edge(vs, ek(v1, 0)) == ek(v2, 2));
            assert(walk(vs, ek(v1, 0), 1) == ek(v2, 2));
            assert(walk(vs, ek(v1, 0), 2) == ek(v1, 0));
            assert(closes_at(vs, ek(v1, 0), 2));
            assert(walk(vs, ek(v1, 1), 0) == ek(v1, 1));
            assert(twin_of(vs, ek(v1, 1)).spec_prev_on_vertex() == ek(v2, 1));
            assert(next_edge(vs, ek(v1, 1)) == ek(v2, 1));
            assert(walk(vs, ek(v1, 1), 1) == ek(v2, 1));
            assert(walk(vs, ek(v1, 1), 2) == ek(v1, 1));
            assert(closes_at(vs, ek(v1, 1), 2));
            assert(walk(vs, ek(v1, 2), 0) == ek(v1, 2));
            assert(twin_of(vs, ek(v1, 2)).spec_prev_on_vertex() == ek(v2, 0));
            assert(next_edge(vs, ek(v1, 2)) == ek(v2, 0));
            assert(walk(vs, ek(v1, 2), 1) == ek(v2, 0));
            assert(walk(vs, ek(v1, 2), 2) == ek(v1, 2));
            assert(closes_at(vs, ek(v1, 2), 2));
        }
        let b1 = graph.bubbles.insert(Bubble::new(s1));
        proof {
            lemma_closes_unique(vs, ek(v1, 0), 2);
            assert(orbit(vs, ek(v1, 0)) =~= seq![ek(v1, 0), ek(v2, 2)]);
        }
        graph.rebubble(b1, e1[0]);
        let ghost r1 = graph.vertices@;
        let b2 = graph.bubbles.insert(Bubble::new(s2));
        proof {
            lemma_closes_same_twins(vs, r1, ek(v1, 1), 2);
            lemma_closes_unique(vs, ek(v1, 1), 2);
            assert(orbit(vs, ek(v1, 1)) =~= seq![ek(v1, 1), ek(v2, 1)]);
        }
        graph.rebubble(b2, e1[1]);
        let ghost r2 = graph.vertices@;
        let b3 = graph.bubbles.insert(Bubble::new(BubbleStyle::OpenAir));
        proof {
            lemma_same_twins_trans(vs, r1, r2);
            lemma_closes_same_twins(vs, r2, ek(v1, 2), 2);
            lemma_closes_unique(vs, ek(v1, 2), 2);
            assert(orbit(vs, ek(v1, 2)) =~= seq![ek(v1, 2), ek(v2, 0)]);
        }
        graph.rebubble(b3, e1[2]);
        proof {
            let r3 = graph.vertices@;
            lemma_same_twins_trans(vs, r2, r3);
            assert(b1 != b2 && b1 != b3 && b2 != b3);
            assert forall|o: u8| o < 3 implies twin_of(r3, ek(v1, o)) == twin_of(vs, ek(v1, o))
                && twin_of(r3, ek(v2, o)) == twin_of(vs, ek(v2, o)) by {
                assert(has_edge(vs, ek(v1, o)) && has_edge(vs, ek(v2, o)));
            }
            assert(has_edge(r1, ek(v1, 0)) && has_edge(r1, ek(v2, 2)));
            assert(has_edge(r2, ek(v1, 0)) && has_edge(r2, ek(v2, 2)));
            assert(has_edge(r2, ek(v1, 1)) && has_edge(r2, ek(v2, 1)));
            assert(has_edge(r3, ek(v1, 0)) && has_edge(r3, ek(v2, 2)));
            assert(has_edge(r3, ek(v1, 1)) && has_edge(r3, ek(v2, 1)));
            assert(has_edge(r3, ek(v1, 2)) && has_edge(r3, ek(v2, 0)));
            assert(seq![ek(v1, 0), ek(v2, 2)].contains(ek(v2, 2)));
            assert(seq![ek(v1, 1), ek(v2, 1)].contains(ek(v2, 1)));
            assert(seq![ek(v1, 2), ek(v2, 0)].contains(ek(v2, 0)));
            assert(graph.vertices@.dom() =~= set![v1.id, v2.id]);
            assert(graph.bubbles@.dom() =~= set![b1.id, b2.id, b3.id]);
            assert(initial_graph(graph.vs(), graph.bs(), v1, v2, b1, b2, b3, s1, s2));
            lemma_initial_keys_valid(graph.vs(), graph.bs(), v1, v2, b1, b2, b3, s1, s2);
            if !s1.is_open_air() && !s2.is_open_air() {
                lemma_initial_sane(graph.vs(), graph.bs(), v1, v2, b1, b2, b3, s1, s2);
            }
        }
        graph
    }

    /// Slides the wall of `ekey` when it has grown too short: a T1 flip that
    /// moves the wall from between the bubbles on its two sides to between
    /// the two bubbles at its ends. Nothing happens when that would make a
    /// bubble border itself (the bubbles beyond the two previous edges are
    /// the same); otherwise the three pairs of twins are relinked and the
    /// four bubbles around the wall get their boundaries traced anew.
    /// Returns whether the wall slid.
    #[verifier::rlimit(100)]
    #[verifier::spinoff_prover]
    pub fn slide(&mut self, ekey: EdgeKey) -> (r: bool)
        requires
            slide_reads_ok(old(self).vs(), old(self).bs(), ekey),
        ensures
            r == slide_flips(old(self).vs(), ekey),
            slide_post(old(self).vs(), old(self).bs(), ekey, final(self).vs(), final(self).bs()),
            keys_valid(old(self).vs(), old(self).bs()) && sane(old(self).vs(), old(self).bs())
                && (slide_flips(old(self).vs(), ekey) ==> slide_six_distinct(old(self).vs(), ekey)
                    && (four_distinct(old(self).vs(), ekey) || fold_distinct(old(self).vs(), ekey)))
                ==> keys_valid(final(self).vs(), final(self).bs()) && sane(final(self).vs(), final(self).bs()),
    {
        let ghost vs0 = self.vs();
        let ghost bs0 = self.bs();
        let tkey = self.vertices.get_edge(ekey).twin;
        let b_top = self.vertices.get_edge(ekey).bubble;
        let b_bottom = self.vertices.get_edge(tkey).bubble;
        let ekey_prev = ekey.prev_on_vertex();
        let tkey_prev = tkey.prev_on_vertex();
        assert(has_edge(vs0, ekey_prev) && has_edge(vs0, tkey_prev));
        let ekey_prev_tkey = self.vertices.get_edge(ekey_prev).twin;
        let tkey_prev_tkey = self.vertices.get_edge(tkey_prev).twin;
        let b_right = self.vertices.get_edge(ekey_prev_tkey).bubble;
        let b_left = self.vertices.get_edge(tkey_prev_tkey).bubble;
        if b_right == b_left {
            return false;
        }
        let ghost tw = slide_twins(vs0, ekey);
        let ghost d = vs0.dom();
        proof {
            reveal(slide_twins);
            lemma_twins_are_twins(vs0);
        }
        self.link_twins(ekey, tkey_prev_tkey);
        let ghost va = self.vs();
        proof {
            lemma_link(vs0, va, ekey, tkey_prev_tkey, twins(vs0));
        }
        self.link_twins(tkey, ekey_prev_tkey);
        let ghost vb = self.vs();
        proof {
            lemma_link(va, vb, tkey, ekey_prev_tkey, linked(twins(vs0), ekey, tkey_prev_tkey));
        }
        self.link_twins(tkey_prev, ekey_prev);
        let ghost vs1 = self.vs();
        proof {
            lemma_link(vb, vs1, tkey_prev, ekey_prev, linked(linked(twins(vs0), ekey, tkey_prev_tkey), tkey, ekey_prev_tkey));
            reveal(slide_twins);
            assert(linked(linked(linked(twins(vs0), ekey, tkey_prev_tkey), tkey, ekey_prev_tkey), tkey_prev, ekey_prev) == tw);
            assert forall|f: EdgeKey| #[trigger] has_edge(vs0, f) implies bubble_of(vs1, f) == bubble_of(vs0, f) by {
                assert(has_edge(va, f) && has_edge(vb, f));
            }
            lemma_rebubbled_start(vs1, bs0);
            lemma_closes_by(vs1, tw, ekey);
        }
        let ghost c0: Seq<(BubbleKey, Seq<EdgeKey>)> = Seq::empty();
        let ghost o1 = orbit_by(tw, d, ekey);
        self.rebubble(b_top, ekey);
        proof {
            lemma_rebubbled_push(vs1, bs0, vs1, bs0, self.vs(), self.bs(), c0, b_top, o1);
            lemma_twins_are_same(vs1, self.vs(), tw);
            lemma_closes_by(self.vs(), tw, tkey);
        }
        let ghost c1 = c0.push((b_top, o1));
        let ghost o2 = orbit_by(tw, d, tkey);
        let ghost s1 = (self.vs(), self.bs());
        self.rebubble(b_bottom, tkey);
        proof {
            lemma_rebubbled_push(vs1, bs0, s1.0, s1.1, self.vs(), self.bs(), c1, b_bottom, o2);
            lemma_twins_are_same(vs1, self.vs(), tw);
            lemma_closes_by(self.vs(), tw, ekey_prev);
        }
        let ghost c2 = c1.push((b_bottom, o2));
        let ghost o3 = orbit_by(tw, d, ekey_prev);
        let ghost s2 = (self.vs(), self.bs());
        self.rebubble(b_left, ekey_prev);
        proof {
            lemma_rebubbled_push(vs1, bs0, s2.0, s2.1, self.vs(), self.bs(), c2, b_left, o3);
            lemma_twins_are_same(vs1, self.vs(), tw);
            lemma_closes_by(self.vs(), tw, tkey_prev);
        }
        let ghost c3 = c2.push((b_left, o3));
        let ghost o4 = orbit_by(tw, d, tkey_prev);
        let ghost s3 = (self.vs(), self.bs());
        self.rebubble(b_right, tkey_prev);
        proof {
            lemma_rebubbled_push(vs1, bs0, s3.0, s3.1, self.vs(), self.bs(), c3, b_right, o4);
            let c4 = c3.push((b_right, o4));
            assert(c4 =~= slide_chain(vs0, ekey));
            lemma_twins_are_same(vs1, self.vs(), tw);
            assert forall|f: EdgeKey| #[trigger] has_edge(vs0, f) implies
                bubble_of(self.vs(), f) == chain_label(c4, f, bubble_of(vs0, f)) by {
                assert(has_edge(vs1, f));
            }
            lemma_orbit_by_edges(tw, d, ekey);
            lemma_orbit_by_edges(tw, d, tkey);
            lemma_orbit_by_edges(tw, d, ekey_prev);
            lemma_orbit_by_edges(tw, d, tkey_prev);
            assert forall|k: int, i: int| 0 <= k < c4.len() && 0 <= i < c4[k].1.len() implies
                has_edge(vs0, #[trigger] c4[k].1[i]) by {
                if k == 0 {
                    assert(c4[k].1 == o1);
                } else if k == 1 {
                    assert(c4[k].1 == o2);
                } else if k == 2 {
                    assert(c4[k].1 == o3);
                } else {
                    assert(c4[k].1 == o4);
                }
            }
            if graph_ok(vs0, bs0) {
                assert forall|f: EdgeKey| #![trigger tw(f)] has_edge(vs0, f) implies has_edge(vs0, tw(f)) by {
                    reveal(slide_twins);
                    assert(has_edge(vs0, tkey_prev_tkey) && has_edge(vs0, ekey_prev_tkey));
                }
                lemma_chain_graph_ok(vs0, bs0, self.vs(), self.bs(), tw, c4);
            }
            assert(slide_post(vs0, bs0, ekey, self.vs(), self.bs()));
            if keys_valid(vs0, bs0) && sane(vs0, bs0) && slide_six_distinct(vs0, ekey)
                && (four_distinct(vs0, ekey) || fold_distinct(vs0, ekey)) {
                law_slide_keeps_sane(vs0, bs0, ekey, self.vs(), self.bs());
            }
        }
        true
    }

    /// Spawns a new bubble of style `style` by splitting the vertex `vkey`
    /// into three: two new vertices are inserted on its first two walls and
    /// joined by a new wall, which closes a small triangular bubble between
    /// them and `vkey`. The four bubbles around get their boundaries traced
    /// anew.
    #[verifier::rlimit(60)]
    pub fn spawn(&mut self, vkey: VertexKey, style: BubbleStyle)
        requires
            spawn_reads_ok(old(self).vs(), old(self).bs(), vkey),
        ensures
            exists|k1: VertexKey, k2: VertexKey, nb: BubbleKey|
                #[trigger] spawned(old(self).vs(), old(self).bs(), final(self).vs(), final(self).bs(), vkey, k1, k2, nb, style)
                && (keys_valid(old(self).vs(), old(self).bs()) && sane(old(self).vs(), old(self).bs())
                    && spawn_loopless(old(self).vs(), vkey) && !style.is_open_air()
                    ==> sane(final(self).vs(), final(self).bs())
                        && final(self).bs()[nb.id].edges@ == seq![ek(vkey, 0), ek(k1, 0), ek(k2, 2)]),
    {
        let ghost vs0 = self.vs();
        let ghost bs0 = self.bs();
        let vertex = self.vertices.get(vkey);
        let ekeys = vkey.edge_keys();
        let t0 = vertex.edges[0].twin;
        let t1 = vertex.edges[1].twin;
        let b0 = vertex.edges[0].bubble;
        let b1 = vertex.edges[1].bubble;
        let b2 = vertex.edges[2].bubble;
        assert(ekeys[0] == ek(vkey, 0) && ekeys[1] == ek(vkey, 1) && ekeys[2] == ek(vkey, 2));
        assert(t0 == twin_of(vs0, ek(vkey, 0)) && t1 == twin_of(vs0, ek(vkey, 1)));
        assert(b0 == bubble_of(vs0, ek(vkey, 0)) && b1 == bubble_of(vs0, ek(vkey, 1)) && b2 == bubble_of(vs0, ek(vkey, 2)));
        let k1 = self.vertices.insert(Vertex::new());
        let k2 = self.vertices.insert(Vertex::new());
        let n1 = k1.edge_keys();
        let n2 = k2.edge_keys();
        assert(n1[0] == ek(k1, 0) && n1[1] == ek(k1, 1) && n1[2] == ek(k1, 2));
        assert(n2[0] == ek(k2, 0) && n2[1] == ek(k2, 1) && n2[2] == ek(k2, 2));
        let ghost vi = self.vs();
        let ghost base = |f: EdgeKey| if f.vertex == k1 || f.vertex == k2 { unlinked_twin() } else { twin_of(vs0, f) };
        proof {
            assert(k1 != k2);
            assert forall|f: EdgeKey| #[trigger] has_edge(vi, f) implies twin_of(vi, f) == base(f)
                && bubble_of(vi, f) == (if f.vertex == k1 || f.vertex == k2 { unlinked_bubble() } else { bubble_of(vs0, f) }) by {
                if f.vertex.id == k1.id {
                    assert(f.vertex == k1);
                } else if f.vertex.id == k2.id {
                    assert(f.vertex == k2);
                } else {
                    assert(f.vertex != k1 && f.vertex != k2);
                }
            }
            assert(has_edge(vi, t0) && has_edge(vi, t1));
        }
        self.link_twins(n1[0], n2[0]);
        let ghost va = self.vs();
        proof { lemma_link(vi, va, ek(k1, 0), ek(k2, 0), base); }
        let ghost l1 = linked(base, ek(k1, 0), ek(k2, 0));
        self.link_twins(n1[1], ekeys[0]);
        let ghost vb = self.vs();
        proof { lemma_link(va, vb, ek(k1, 1), ek(vkey, 0), l1); }
        let ghost l2 = linked(l1, ek(k1, 1), ek(vkey, 0));
        self.link_twins(n1[2], t0);
        let ghost vc = self.vs();
        proof { lemma_link(vb, vc, ek(k1, 2), t0, l2); }
        let ghost l3 = linked(l2, ek(k1, 2), t0);
        self.link_twins(n2[1], t1);
        let ghost vd = self.vs();
        proof { lemma_link(vc, vd, ek(k2, 1), t1, l3); }
        let ghost l4 = linked(l3, ek(k2, 1), t1);
        self.link_twins(n2[2], ekeys[1]);
        let ghost vs1 = self.vs();
        let ghost tw = spawn_twins(vs0, vkey, k1, k2);
        let ghost d = vs1.dom();
        proof {
            lemma_link(vd, vs1, ek(k2, 2), ek(vkey, 1), l4);
            reveal(spawn_twins);
            assert(linked(l4, ek(k2, 2), ek(vkey, 1)) == tw);
            assert(d == vs0.dom().insert(k1.id).insert(k2.id));
            assert forall|f: EdgeKey| #[trigger] has_edge(vi, f) implies bubble_of(vs1, f) == bubble_of(vi, f) by {
                assert(has_edge(va, f) && has_edge(vb, f) && has_edge(vc, f) && has_edge(vd, f));
            }
            assert(spawn_twins(vs0, vkey, k1, k2) == tw);
            assert(!vs0.dom().contains(k1.id) && !vs0.dom().contains(k2.id) && k1 != k2 && issued_key(k1.id) && issued_key(k2.id));
        }
        let nb = self.bubbles.insert(Bubble::new(style));
        let ghost bs1 = self.bs();
        proof {
            lemma_rebubbled_start(vs1, bs1);
            lemma_closes_by(vs1, tw, ek(vkey, 0));
        }
        let ghost c0: Seq<(BubbleKey, Seq<EdgeKey>)> = Seq::empty();
        let ghost o1 = orbit_by(tw, d, ek(vkey, 0));
        self.rebubble(nb, ekeys[0]);
        proof {
            lemma_rebubbled_push(vs1, bs1, vs1, bs1, self.vs(), self.bs(), c0, nb, o1);
            lemma_twins_are_same(vs1, self.vs(), tw);
            lemma_closes_by(self.vs(), tw, ek(vkey, 1));
        }
        let ghost c1 = c0.push((nb, o1));
        let ghost o2 = orbit_by(tw, d, ek(vkey, 1));
        let ghost s1 = (self.vs(), self.bs());
        self.rebubble(b1, ekeys[1]);
        proof {
            lemma_rebubbled_push(vs1, bs1, s1.0, s1.1, self.vs(), self.bs(), c1, b1, o2);
            lemma_twins_are_same(vs1, self.vs(), tw);
            lemma_closes_by(self.vs(), tw, ek(vkey, 2));
        }
        let ghost c2 = c1.push((b1, o2));
        let ghost o3 = orbit_by(tw, d, ek(vkey, 2));
        let ghost s2 = (self.vs(), self.bs());
        self.rebubble(b2, ekeys[2]);
        proof {
            lemma_rebubbled_push(vs1, bs1, s2.0, s2.1, self.vs(), self.bs(), c2, b2, o3);
            lemma_twins_are_same(vs1, self.vs(), tw);
            lemma_closes_by(self.vs(), tw, ek(k2, 0));
        }
        let ghost c3 = c2.push((b2, o3));
        let ghost o4 = orbit_by(tw, d, ek(k2, 0));
        let ghost s3 = (self.vs(), self.bs());
        self.rebubble(b0, n2[0]);
        proof {
            lemma_rebubbled_push(vs1, bs1, s3.0, s3.1, self.vs(), self.bs(), c3, b0, o4);
            let c4 = c3.push((b0, o4));
            assert(c4 =~= spawn_chain(vs0, vkey, k1, k2, nb));
            lemma_twins_are_same(vs1, self.vs(), tw);
            assert forall|f: EdgeKey| #[trigger] has_edge(self.vs(), f) implies bubble_of(self.vs(), f) == chain_label(
                c4,
                f,
                if f.vertex == k1 || f.vertex == k2 { unlinked_bubble() } else { bubble_of(vs0, f) },
            ) by {
                assert(has_edge(vs1, f) && has_edge(vi, f));
            }
            assert forall|b: u64| #[trigger] bs0.dom().contains(b) implies self.bs()[b].style == bs0[b].style
                && self.bs()[b].edges@ == chain_list(c4, b, bs0[b].edges@) by {
                assert(bs1.dom().contains(b) && b != nb.id);
            }
            assert(bs1.dom().contains(nb.id));
            assert(spawned(vs0, bs0, self.vs(), self.bs(), vkey, k1, k2, nb, style));
            if keys_valid(vs0, bs0) && sane(vs0, bs0) && spawn_loopless(vs0, vkey) && !style.is_open_air() {
                law_spawn_keeps_sane(vs0, bs0, vkey, k1, k2, nb, style, self.vs(), self.bs());
            }
        }
    }

    /// Removes the wall of `ekey` and merges the bubble below it into the
    /// bubble above it. Nothing happens when the graph has at most two
    /// vertices, when the wall has the same bubble on both sides, when a
    /// bubble at one of its ends is also on one of its sides, or when the
    /// bubble at one of its ends has only one edge. Otherwise the top bubble
    /// takes the merged style, the outer walls at the two ends are joined,
    /// the bubbles around get their boundaries traced anew, the bottom
    /// bubble and the wall's two vertices go, and every wall left with the
    /// merged bubble on both sides is slid.
    pub fn remove_edge(&mut self, ekey: EdgeKey)
        requires
            remove_reads_ok(old(self).vs(), old(self).bs(), ekey),
        ensures
            remove_post(old(self).vs(), old(self).bs(), ekey, final(self).vs(), final(self).bs()),
            keys_valid(old(self).vs(), old(self).bs()) && sane(old(self).vs(), old(self).bs())
                && old(self).vs().dom().finite() && old(self).bs().dom().finite() && has_edge(old(self).vs(), ekey)
                && (!remove_blocked(old(self).vs(), old(self).bs(), ekey) ==> !(remove_case(old(self).vs(), ekey) == 1
                    && ekey.spec_prev_on_vertex() == twin_of(old(self).vs(), twin_of(old(self).vs(), ekey).spec_next_on_vertex())))
                && (forall|vm: Map<u64, Vertex>, bm: Map<u64, Bubble>| #[trigger] merged(old(self).vs(), old(self).bs(), ekey, vm, bm) ==>
                    slides_tame(vm, bm, degenerate_edges(vm, bm, bubble_of(old(self).vs(), ekey))))
                ==> sane(final(self).vs(), final(self).bs()),
    {
        let ghost vs0 = self.vs();
        let ghost bs0 = self.bs();
        if self.vertices.len() <= 2 {
            return;
        }
        let tkey = self.vertices.get_edge(ekey).twin;
        let b_top = self.vertices.get_edge(ekey).bubble;
        let b_bottom = self.vertices.get_edge(tkey).bubble;
        if b_top == b_bottom {
            return;
        }
        let ekey_next = ekey.next_on_vertex();
        let ekey_prev = ekey.prev_on_vertex();
        let tkey_next = tkey.next_on_vertex();
        let tkey_prev = tkey.prev_on_vertex();
        let b_right = self.vertices.get_edge(ekey_next).bubble;
        let b_left = self.vertices.get_edge(tkey_next).bubble;
        if b_top == b_left || b_top == b_right || b_bottom == b_left || b_bottom == b_right {
            return;
        }
        let ekey_prev_twin = self.vertices.get_edge(ekey_prev).twin;
        let tkey_prev_twin = self.vertices.get_edge(tkey_prev).twin;
        if ekey_next == ekey_prev_twin || tkey_next == tkey_prev_twin {
            return;
        }
        self.merge_wall(ekey);
        let ghost vm = self.vs();
        let ghost bm = self.bs();
        let degenerate = self.get_degenerate_edges(b_top);
        let ghost es = degenerate@;
        let ghost mut states: Seq<(Map<u64, Vertex>, Map<u64, Bubble>)> = seq![(vm, bm)];
        let mut i: usize = 0;
        proof {
            assert(es.skip(0) =~= es);
        }
        while i < degenerate.len()
            invariant
                i <= es.len(),
                degenerate@ == es,
                slide_trace(states, es.take(i as int)),
                states[0] == (vm, bm),
                states.last() == (self.vs(), self.bs()),
                slides_ok(self.vs(), self.bs(), es.skip(i as int)),
            decreases es.len() - i,
        {
            let ghost va = self.vs();
            let ghost ba = self.bs();
            proof {
                assert(es.skip(i as int)[0] == es[i as int]);
                assert(es.skip(i as int).drop_first() =~= es.skip(i + 1));
            }
            self.slide(degenerate[i]);
            proof {
                let old_states = states;
                states = states.push((self.vs(), self.bs()));
                assert forall|k: int| 0 <= k < es.take(i + 1).len() implies
                    slide_post(states[k].0, states[k].1, #[trigger] es.take(i + 1)[k], states[k + 1].0, states[k + 1].1) by {
                    if k < i {
                        assert(es.take(i + 1)[k] == es.take(i as int)[k]);
                        assert(states[k] == old_states[k] && states[k + 1] == old_states[k + 1]);
                    } else {
                        assert(states[k] == (va, ba));
                    }
                }
            }
            i += 1;
        }
        proof {
            assert(es.take(es.len() as int) =~= es);
            assert(merged(vs0, bs0, ekey, vm, bm));
            assert(slides_post(vm, bm, es, self.vs(), self.bs()));
            assert(remove_post(vs0, bs0, ekey, self.vs(), self.bs()));
            if keys_valid(vs0, bs0) && sane(vs0, bs0) && vs0.dom().finite() && bs0.dom().finite() && has_edge(vs0, ekey)
                && (!remove_blocked(vs0, bs0, ekey) ==> !(remove_case(vs0, ekey) == 1
                    && ekey.spec_prev_on_vertex() == twin_of(vs0, twin_of(vs0, ekey).spec_next_on_vertex())))
                && (forall|vm2: Map<u64, Vertex>, bm2: Map<u64, Bubble>| #[trigger] merged(vs0, bs0, ekey, vm2, bm2) ==>
                    slides_tame(vm2, bm2, degenerate_edges(vm2, bm2, bubble_of(vs0, ekey)))) {
                law_remove_keeps_sane(vs0, bs0, ekey, self.vs(), self.bs());
            }
        }
    }

    /// The merging step of `remove_edge` on a wall that can go.
    #[verifier::rlimit(100)]
    fn merge_wall(&mut self, ekey: EdgeKey)
        requires
            remove_reads_ok(old(self).vs(), old(self).bs(), ekey),
            !remove_blocked(old(self).vs(), old(self).bs(), ekey),
        ensures
            merged(old(self).vs(), old(self).bs(), ekey, final(self).vs(), final(self).bs()),
            degenerate_reads_ok(final(self).vs(), final(self).bs(), bubble_of(old(self).vs(), ekey)),
            slides_ok(final(self).vs(), final(self).bs(),
                degenerate_edges(final(self).vs(), final(self).bs(), bubble_of(old(self).vs(), ekey))),
            odd_version(bubble_of(old(self).vs(), ekey).id),
    {
        let ghost vs0 = self.vs();
        let ghost bs0 = self.bs();
        let tkey = self.vertices.get_edge(ekey).twin;
        let b_top = self.vertices.get_edge(ekey).bubble;
        let b_bottom = self.vertices.get_edge(tkey).bubble;
        let ekey_next = ekey.next_on_vertex();
        let ekey_prev = ekey.prev_on_vertex();
        let tkey_next = tkey.next_on_vertex();
        let tkey_prev = tkey.prev_on_vertex();
        let b_right = self.vertices.get_edge(ekey_next).bubble;
        let b_left = self.vertices.get_edge(tkey_next).bubble;
        let ekey_next_twin = self.vertices.get_edge(ekey_next).twin;
        let ekey_prev_twin = self.vertices.get_edge(ekey_prev).twin;
        let tkey_next_twin = self.vertices.get_edge(tkey_next).twin;
        let tkey_prev_twin = self.vertices.get_edge(tkey_prev).twin;
        let bottom_style = self.bubbles.style(b_bottom);
        let top_style = self.bubbles.style(b_top);
        self.bubbles.set_style(b_top, top_style.merge(&bottom_style));
        let ghost bs1 = self.bs();
        let ghost tw = remove_twins(vs0, ekey);
        let ghost d = vs0.dom();
        let ghost chain = remove_chain(vs0, ekey);
        proof {
            reveal(remove_twins);
            lemma_twins_are_twins(vs0);
            lemma_rebubbled_start(vs0, bs1);
        }
        let ghost vs1;
        if ekey_next == tkey_prev_twin {
            self.link_twins(ekey_prev_twin, tkey_next_twin);
            proof {
                vs1 = self.vs();
                lemma_link(vs0, vs1, ekey_prev_twin, tkey_next_twin, twins(vs0));
                assert(linked(twins(vs0), ekey_prev_twin, tkey_next_twin) == tw);
                lemma_rebubbled_start(vs1, bs1);
                lemma_closes_by(vs1, tw, tkey_next_twin);
            }
            let ghost o1 = orbit_by(tw, d, tkey_next_twin);
            self.rebubble(b_top, tkey_next_twin);
            proof {
                lemma_rebubbled_push(vs1, bs1, vs1, bs1, self.vs(), self.bs(), Seq::empty(), b_top, o1);
                lemma_twins_are_same(vs1, self.vs(), tw);
                lemma_closes_by(self.vs(), tw, ekey_prev_twin);
            }
            let ghost c1 = Seq::<(BubbleKey, Seq<EdgeKey>)>::empty().push((b_top, o1));
            let ghost o2 = orbit_by(tw, d, ekey_prev_twin);
            let ghost s1 = (self.vs(), self.bs());
            self.rebubble(b_right, ekey_prev_twin);
            proof {
                lemma_rebubbled_push(vs1, bs1, s1.0, s1.1, self.vs(), self.bs(), c1, b_right, o2);
                assert(c1.push((b_right, o2)) =~= chain);
                lemma_twins_are_same(vs1, self.vs(), tw);
            }
        } else if ekey_prev == tkey_next_twin {
            self.link_twins(ekey_next_twin, tkey_prev_twin);
            proof {
                vs1 = self.vs();
                lemma_link(vs0, vs1, ekey_next_twin, tkey_prev_twin, twins(vs0));
                assert(linked(twins(vs0), ekey_next_twin, tkey_prev_twin) == tw);
                lemma_rebubbled_start(vs1, bs1);
                lemma_closes_by(vs1, tw, tkey_prev_twin);
            }
            let ghost o1 = orbit_by(tw, d, tkey_prev_twin);
            self.rebubble(b_top, tkey_prev_twin);
            proof {
                lemma_rebubbled_push(vs1, bs1, vs1, bs1, self.vs(), self.bs(), Seq::empty(), b_top, o1);
                lemma_twins_are_same(vs1, self.vs(), tw);
                lemma_closes_by(self.vs(), tw, ekey_next_twin);
            }
            let ghost c1 = Seq::<(BubbleKey, Seq<EdgeKey>)>::empty().push((b_top, o1));
            let ghost o2 = orbit_by(tw, d, ekey_next_twin);
            let ghost s1 = (self.vs(), self.bs());
            self.rebubble(b_right, ekey_next_twin);
            proof {
                lemma_rebubbled_push(vs1, bs1, s1.0, s1.1, self.vs(), self.bs(), c1, b_right, o2);
                assert(c1.push((b_right, o2)) =~= chain);
                lemma_twins_are_same(vs1, self.vs(), tw);
            }
        } else {
            self.link_twins(ekey_next_twin, ekey_prev_twin);
            let ghost va = self.vs();
            proof {
                lemma_link(vs0, va, ekey_next_twin, ekey_prev_twin, twins(vs0));
            }
            self.link_twins(tkey_next_twin, tkey_prev_twin);
            proof {
                vs1 = self.vs();
                lemma_link(va, vs1, tkey_next_twin, tkey_prev_twin, linked(twins(vs0), ekey_next_twin, ekey_prev_twin));
                assert(linked(linked(twins(vs0), ekey_next_twin, ekey_prev_twin), tkey_next_twin, tkey_prev_twin) == tw);
                assert forall|f: EdgeKey| #[trigger] has_edge(vs0, f) implies bubble_of(vs1, f) == bubble_of(vs0, f) by {
                    assert(has_edge(va, f));
                }
                lemma_rebubbled_start(vs1, bs1);
                lemma_closes_by(vs1, tw, ekey_next_twin);
            }
            let ghost o1 = orbit_by(tw, d, ekey_next_twin);
            self.rebubble(b_top, ekey_next_twin);
            proof {
                lemma_rebubbled_push(vs1, bs1, vs1, bs1, self.vs(), self.bs(), Seq::empty(), b_top, o1);
                lemma_twins_are_same(vs1, self.vs(), tw);
                lemma_closes_by(self.vs(), tw, ekey_prev_twin);
            }
            let ghost c1 = Seq::<(BubbleKey, Seq<EdgeKey>)>::empty().push((b_top, o1));
            let ghost o2 = orbit_by(tw, d, ekey_prev_twin);
            let ghost s1 = (self.vs(), self.bs());
            self.rebubble(b_right, ekey_prev_twin);
            proof {
                lemma_rebubbled_push(vs1, bs1, s1.0, s1.1, self.vs(), self.bs(), c1, b_right, o2);
                lemma_twins_are_same(vs1, self.vs(), tw);
                lemma_closes_by(self.vs(), tw, tkey_prev_twin);
            }
            let ghost c2 = c1.push((b_right, o2));
            let ghost o3 = orbit_by(tw, d, tkey_prev_twin);
            let ghost s2 = (self.vs(), self.bs());
            self.rebubble(b_left, tkey_prev_twin);
            proof {
                lemma_rebubbled_push(vs1, bs1, s2.0, s2.1, self.vs(), self.bs(), c2, b_left, o3);
                assert(c2.push((b_left, o3)) =~= chain);
                lemma_twins_are_same(vs1, self.vs(), tw);
            }
        }
        let ghost vr = self.vs();
        let ghost br = self.bs();
        let _ = self.bubbles.remove(b_bottom);
        let _ = self.vertices.remove(ekey.vertex);
        let _ = self.vertices.remove(tkey.vertex);
        proof {
            assert(rebubbled(vs1, bs1, vr, br, chain));
            assert forall|f: EdgeKey| #[trigger] has_edge(self.vs(), f) implies twin_of(self.vs(), f) == tw(f)
                && bubble_of(self.vs(), f) == chain_label(chain, f, bubble_of(vs0, f)) by {
                assert(has_edge(vr, f) && has_edge(vs1, f) && has_edge(vs0, f));
            }
            assert(self.vs().dom() =~= vs0.dom().remove(ekey.vertex.id).remove(tkey.vertex.id));
            assert(self.bs().dom() =~= bs0.dom().remove(b_bottom.id));
            assert forall|b: u64| #[trigger] self.bs().dom().contains(b) implies self.bs()[b].style == (if b == b_top.id {
                bs0[b_top.id].style.spec_merge(bs0[b_bottom.id].style)
            } else {
                bs0[b].style
            }) && self.bs()[b].edges@ == chain_list(chain, b, bs0[b].edges@) by {
                assert(bs1.dom().contains(b));
            }
            assert(merged(vs0, bs0, ekey, self.vs(), self.bs()));
        }
    }

    /// The walls of bubble `bkey` that have `bkey` on both sides, each pair
    /// once (the edge that comes first in key order), in the order of the
    /// bubble's boundary; none when there is no such bubble.
    pub fn get_degenerate_edges(&self, bkey: BubbleKey) -> (r: Vec<EdgeKey>)
        requires
            odd_version(bkey.id),
            degenerate_reads_ok(self.vs(), self.bs(), bkey),
        ensures
            r@ == degenerate_edges(self.vs(), self.bs(), bkey),
    {
        let mut r: Vec<EdgeKey> = Vec::new();
        if !self.bubbles.contains_key(bkey) {
            return r;
        }
        let ghost vs = self.vs();
        let edges = &self.bubbles.get(bkey).edges;
        let mut i: usize = 0;
        while i < edges.len()
            invariant
                i <= edges@.len(),
                vs == self.vs(),
                edges@ == self.bs()[bkey.id].edges@,
                self.bs().dom().contains(bkey.id),
                degenerate_reads_ok(self.vs(), self.bs(), bkey),
                r@ == edges@.take(i as int).filter(|f: EdgeKey| is_degenerate(vs, bkey, f)),
            decreases edges@.len() - i,
        {
            let e = edges[i];
            assert(has_edge(vs, edges@[i as int]));
            let t = self.vertices.get_edge(e).twin;
            let ghost pred = |f: EdgeKey| is_degenerate(vs, bkey, f);
            proof {
                reveal(Seq::filter);
                let s1 = edges@.take(i + 1);
                assert(s1.drop_last() =~= edges@.take(i as int));
                assert(s1.last() == e);
                assert(s1.filter(pred) == (if pred(e) { s1.drop_last().filter(pred).push(e) } else { s1.drop_last().filter(pred) }));
            }
            if self.vertices.get_edge(t).bubble == bkey && e.less_than(&t) {
                r.push(e);
            }
            i += 1;
        }
        proof {
            assert(edges@.take(edges@.len() as int) =~= edges@);
        }
        r
    }

    /// The open air: the first open-air bubble in key order.
    pub fn get_open_air(&self) -> (r: BubbleKey)
        requires
            exists|j: u64| self.bs().dom().contains(j) && (#[trigger] self.bs()[j].style).is_open_air(),
        ensures
            first_open_air(self.bs(), r.id),
            issued_key(r.id),
            distinct_slots(self.bs().dom()),
    {
        self.bubbles.get_open_air()
    }

    /// The vertices along the boundary of the open air, one per edge of its
    /// list, in order.
    pub fn get_open_air_vertices(&self) -> (r: Vec<VertexKey>)
        requires
            exists|j: u64| self.bs().dom().contains(j) && (#[trigger] self.bs()[j].style).is_open_air(),
        ensures
            distinct_slots(self.bs().dom()),
            exists|k: u64| #[trigger] first_open_air(self.bs(), k)
                && r@ == self.bs()[k].edges@.map_values(|e: EdgeKey| e.vertex),
    {
        let oa = self.get_open_air();
        let edges = &self.bubbles.get(oa).edges;
        let mut r: Vec<VertexKey> = Vec::new();
        let mut i: usize = 0;
        while i < edges.len()
            invariant
                i <= edges@.len(),
                r@ == edges@.take(i as int).map_values(|e: EdgeKey| e.vertex),
            decreases edges@.len() - i,
        {
            r.push(edges[i].vertex);
            proof {
                assert(edges@.take(i + 1).map_values(|e: EdgeKey| e.vertex)
                    =~= edges@.take(i as int).map_values(|e: EdgeKey| e.vertex).push(edges@[i as int].vertex));
            }
            i += 1;
        }
        proof {
            assert(edges@.take(edges@.len() as int) =~= edges@);
        }
        r
    }

    /// The edges a swap can take: for each wall of the player bubble, in
    /// the order of its boundary, the twin edge when the bubble beyond is a
    /// colored one. None when there is no player bubble.
    pub fn swap_candidates(&self) -> (r: Vec<EdgeKey>)
        requires
            swap_reads_ok(self.vs(), self.bs()),
        ensures
            r@ == swap_candidates_of(self.vs(), self.bs()),
    {
        let mut r: Vec<EdgeKey> = Vec::new();
        let player = self.bubbles.get_swappable();
        if player.is_none() {
            proof {
                assert(!exists|k: u64| is_player_key(self.bs(), k));
            }
            return r;
        }
        let pkey = player.unwrap();
        let ghost vs = self.vs();
        let ghost bs = self.bs();
        proof {
            assert(is_player_key(bs, pkey.id));
            lemma_player_unique(bs, pkey.id, choose|k: u64| is_player_key(bs, k));
        }
        let edges = &self.bubbles.get(pkey).edges;
        let mut i: usize = 0;
        while i < edges.len()
            invariant
                i <= edges@.len(),
                vs == self.vs(),
                bs == self.bs(),
                is_player_key(bs, pkey.id),
                edges@ == bs[pkey.id].edges@,
                swap_reads_ok(vs, bs),
                r@ == candidates_in(vs, bs, edges@.take(i as int)),
            decreases edges@.len() - i,
        {
            let e = edges[i];
            proof {
                assert(edges@.take(i + 1).drop_last() =~= edges@.take(i as int));
                assert(edges@.take(i + 1).last() == e);
                assert(bs[pkey.id].edges@[i as int] == e);
            }
            let t = self.vertices.get_edge(e).twin;
            let b = self.vertices.get_edge(t).bubble;
            if matches!(self.bubbles.style(b), BubbleStyle::Colored { .. }) {
                r.push(t);
            }
            i += 1;
        }
        proof {
            assert(edges@.take(edges@.len() as int) =~= edges@);
        }
        r
    }

    /// Links `a` and `b` as each other's twins; nothing else changes.
    fn link_twins(&mut self, a: EdgeKey, b: EdgeKey)
        requires
            has_edge(old(self).vertices@, a),
            has_edge(old(self).vertices@, b),
        ensures
            final(self).bubbles@ == old(self).bubbles@,
            link_post(old(self).vertices@, final(self).vertices@, a, b),
    {
        let ghost v0 = self.vertices@;
        let ea = self.vertices.get_edge(a);
        self.vertices.set_edge(a, Edge { twin: b, bubble: ea.bubble });
        let ghost v1 = self.vertices@;
        assert(has_edge(v0, b));
        let eb = self.vertices.get_edge(b);
        self.vertices.set_edge(b, Edge { twin: a, bubble: eb.bubble });
        proof {
            assert(has_edge(v1, a));
            assert forall|f: EdgeKey| #[trigger] has_edge(v0, f) implies
                bubble_of(self.vertices@, f) == bubble_of(v0, f) by {
                assert(has_edge(v1, f));
            }
            assert forall|f: EdgeKey| #[trigger] has_edge(v0, f) && f != a && f != b implies
                twin_of(self.vertices@, f) == twin_of(v0, f) by {
                assert(has_edge(v1, f));
            }
        }
    }

    /// Makes `bkey` the bubble of the boundary cycle through `ekey`: every
    /// edge on the walk from `ekey` around the bubble gets `bkey` as its
    /// bubble, and the bubble's edge list becomes that walk, starting at
    /// `ekey`. The walk must close within a thousand steps.
    pub fn rebubble(&mut self, bkey: BubbleKey, ekey: EdgeKey)
        requires
            old(self).bubbles@.dom().contains(bkey.id),
            closes(old(self).vertices@, ekey),
        ensures
            rebubble_post(
                old(self).vertices@,
                old(self).bubbles@,
                final(self).vertices@,
                final(self).bubbles@,
                bkey,
                orbit(old(self).vertices@, ekey),
            ),
            keys_valid(old(self).vertices@, old(self).bubbles@) && sane(old(self).vertices@, old(self).bubbles@)
                && has_edge(old(self).vertices@, ekey) && bkey == bubble_of(old(self).vertices@, ekey)
                ==> keys_valid(final(self).vertices@, final(self).bubbles@) && sane(final(self).vertices@, final(self).bubbles@)
                    && exists|i: int| 0 <= i < old(self).bubbles@[bkey.id].edges@.len()
                        && old(self).bubbles@[bkey.id].edges@[i] == ekey
                        && #[trigger] turned(old(self).bubbles@[bkey.id].edges@, i) == final(self).bubbles@[bkey.id].edges@,
    {
        let ghost vs0 = self.vertices@;
        let ghost n = orbit_len(vs0, ekey);
        proof {
            let m = choose|m: nat| closes_at(vs0, ekey, m);
            lemma_closes_unique(vs0, ekey, m);
        }
        let mut edges: Vec<EdgeKey> = Vec::new();
        let mut next_edge = ekey;
        let mut k: usize = 0;
        while k < 1000
            invariant
                vs0 == old(self).vertices@,
                n == orbit_len(vs0, ekey),
                closes_at(vs0, ekey, n),
                k < n,
                next_edge == walk(vs0, ekey, k as nat),
                edges@ == boundary_from(vs0, ekey, k as nat),
                same_twins(vs0, self.vertices@),
                forall|f: EdgeKey| #[trigger] has_edge(vs0, f) ==>
                    bubble_of(self.vertices@, f) == (if boundary_from(vs0, ekey, k as nat).contains(f) {
                        bkey
                    } else {
                        bubble_of(vs0, f)
                    }),
                self.bubbles@ == old(self).bubbles@,
                self.bubbles@.dom().contains(bkey.id),
            decreases 1000 - k,
        {
            let ghost before = self.vertices@;
            assert(has_edge(vs0, walk(vs0, ekey, k as nat)));
            let edge = self.vertices.get_edge(next_edge);
            self.vertices.set_edge(next_edge, Edge { twin: edge.twin, bubble: bkey });
            edges.push(next_edge);
            proof {
                assert(boundary_from(vs0, ekey, (k + 1) as nat) =~= boundary_from(vs0, ekey, k as nat).push(next_edge));
                assert forall|f: EdgeKey| #[trigger] has_edge(vs0, f) implies twin_of(self.vertices@, f) == twin_of(vs0, f) by {
                    assert(has_edge(before, f));
                }
                assert forall|f: EdgeKey| #[trigger] has_edge(vs0, f) implies
                    bubble_of(self.vertices@, f) == (if boundary_from(vs0, ekey, (k + 1) as nat).contains(f) {
                        bkey
                    } else {
                        bubble_of(vs0, f)
                    }) by {
                    assert(has_edge(before, f));
                    if f != next_edge {
                        let b0 = boundary_from(vs0, ekey, k as nat);
                        let b1 = boundary_from(vs0, ekey, (k + 1) as nat);
                        if b1.contains(f) {
                            let i = choose|i: int| 0 <= i < b1.len() && b1[i] == f;
                            assert(b0[i] == f);
                        }
                        if b0.contains(f) {
                            let i = choose|i: int| 0 <= i < b0.len() && b0[i] == f;
                            assert(b1[i] == f);
                        }
                    } else {
                        assert(boundary_from(vs0, ekey, (k + 1) as nat)[k as int] == f);
                    }
                }
            }
            assert(same_twins(vs0, self.vertices@));
            next_edge = self.vertices.next_on_bubble(next_edge);
            k += 1;
            if next_edge == ekey {
                proof {
                    if k < n {
                        assert(walk(vs0, ekey, k as nat) != ekey);
                    }
                    assert(k == n);
                    assert(orbit(vs0, ekey) == boundary_from(vs0, ekey, k as nat));
                    assert(same_twins(vs0, self.vertices@));
                }
                self.bubbles.set_edges(bkey, edges);
                proof {
                    let bs0 = old(self).bubbles@;
                    if keys_valid(vs0, bs0) && sane(vs0, bs0) && has_edge(vs0, ekey) && bkey == bubble_of(vs0, ekey) {
                        assert(rebubble_post(vs0, bs0, self.vertices@, self.bubbles@, bkey, orbit(vs0, ekey)));
                        law_retrace_keeps_sane(vs0, bs0, ekey, self.vertices@, self.bubbles@);
                    }
                }
                return;
            }
            proof {
                if k == n {
                    assert(walk(vs0, ekey, n) == ekey);
                }
            }
        }
        proof {
            assert(false);
        }
    }
}

} // verus!
