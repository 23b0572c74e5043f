//! Levels of `skipPhysics`: how far a machine or conveyor has taken an
//! element under its own control.
use vstd::prelude::*;

verus! {

pub const NORMAL: u8 = 0;

pub const SKIP: u8 = 1;

pub const AGGRESSIVE: u8 = 2;

} // verus!
