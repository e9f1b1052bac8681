//! The kinds of bubbles as they are told across a C interface.
use vstd::prelude::*;

verus! {

/// The kind of a bubble across a C interface.
#[derive(Debug, Clone, Copy, PartialEq, Eq, Structural)]
pub enum CBubbleKindTag {
    Game,
    Player,
    Empty,
}

} // verus!
