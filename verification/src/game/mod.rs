//! The game rules: the phases of play, the events the rules raise, and the
//! managers that act on the graph.
pub mod state;
pub mod sanity;
pub mod burst;
pub mod pop;
pub mod reap;
pub mod swap;
pub mod colors;
pub mod spawn;
pub mod gameover;
pub mod score;
pub mod debug;
pub mod pause;
