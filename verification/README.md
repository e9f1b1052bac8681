# PipPop

The rules of a bubble-popping puzzle, verified with Verus.

The bubbles form a planar, trivalent graph held as a half-edge structure
(`src/graph`): every vertex owns three outgoing half-edges, every half-edge
has a twin and bounds one bubble, and one bubble is the open air. The graph
offers the topological moves of the game — sliding a short wall (a T1 flip),
spawning a bubble at a vertex, removing a wall to merge two bubbles — each
with a contract that states exactly the graph it leaves. `src/graph/spec.rs`
holds the model (boundary walks, orbits, invariants), `src/graph/laws.rs`
and `src/graph/closure.rs` what the moves keep and why boundary walks close.
`src/graph/flip.rs` (with `src/graph/fold.rs` for a wall with the same
bubble on both sides), `src/graph/growth.rs` and `src/graph/merge.rs` (with
`src/graph/digon.rs` for a wall of a bubble with two edges) prove
that a slide, a spawn and a removal keep the invariants of the graph, by
following each boundary that the move changes; each law names the shapes
of the move it covers.

`src/game` holds the game rules on top of the graph: the phases of play,
swapping, bursting, popping, reaping, spawning, scoring, pausing, the end
of the game, and two checks of the graph's invariants.

`src/slots.rs` keeps the vertices and bubbles in `slotmap` slot maps behind
small trusted wrappers; their keys are handled in their 64-bit form.

`app/main.rs` is the program around the library: the window and input
(macroquad), the clock, the positions and physics of the bubbles, and the
drawing. `tests/` runs the library on concrete graphs.
