//! PipPop: the topology and game rules of a bubble-popping puzzle.
//!
//! The bubbles form a planar trivalent graph held as a half-edge structure:
//! every vertex owns three outgoing half-edges, every half-edge has a twin
//! running the other way, and every half-edge bounds exactly one bubble.
pub mod game;
pub mod graph;
pub mod slots;
pub mod ffi;
