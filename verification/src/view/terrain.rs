//! Terrain types that matter to movement; the numbers are the game's own.
use vstd::prelude::*;

verus! {

pub const EMPTY: u8 = 0;

pub const BLOCK: u8 = 15;

pub const SLIDING_BLOCK_LEFT: u8 = 17;

pub const SLIDING_BLOCK_RIGHT: u8 = 18;

pub const CONVEYOR_LEFT: u8 = 19;

pub const CONVEYOR_RIGHT: u8 = 20;

pub const SHAKER_LEFT: u8 = 21;

pub const SHAKER_RIGHT: u8 = 22;

/// Terrain that moves elements by itself: conveyors and shakers.
pub open spec fn conveyor_type(t: u8) -> bool {
    t == CONVEYOR_LEFT || t == CONVEYOR_RIGHT || t == SHAKER_LEFT || t == SHAKER_RIGHT
}

/// A conveyor moves what lies on it, so sliding diagonally off it is refused.
pub fn is_conveyor(t: u8) -> (r: bool)
    ensures
        r == conveyor_type(t),
{
    t == CONVEYOR_LEFT || t == CONVEYOR_RIGHT || t == SHAKER_LEFT || t == SHAKER_RIGHT
}

} // verus!
