use vstd::prelude::*;

verus! {

/// Number of columns of the playing field.
pub const MAP_WIDTH: u8 = 8;

/// Number of rows of the playing field.
pub const MAP_HEIGHT: u8 = 9;

} // verus!
