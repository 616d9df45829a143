//! Board dimensions and index offsets of the directions a piece can step in.
use vstd::prelude::*;

verus! {

pub const BOARD_SIZE: usize = 8;

pub const NUM_SQUARES: usize = 64;

/// One rank up.
pub const NORTH: i8 = 8;

/// One rank down.
pub const SOUTH: i8 = -8;

/// Two ranks up.
pub const DOUBLE_NORTH: i8 = 16;

/// Two ranks down.
pub const DOUBLE_SOUTH: i8 = -16;

/// One rank up, one file toward the h-file.
pub const NORTH_EAST: i8 = 9;

/// One rank up, one file toward the a-file.
pub const NORTH_WEST: i8 = 7;

/// One rank down and one file toward the a-file: the capture a Black pawn
/// makes to its own left-hand side, whose wrap-around lands on the h-file.
pub const SOUTH_EAST: i8 = -9;

/// One rank down and one file toward the h-file: the capture a Black pawn
/// makes to its own right-hand side, whose wrap-around lands on the a-file.
pub const SOUTH_WEST: i8 = -7;

} // verus!
