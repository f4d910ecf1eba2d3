use vstd::prelude::*;

verus! {

/// Where an entity stands: a grid cell `(x, y)` and the layer `z` on which it is drawn.
///
/// The layer orders drawing only; the movement rules never read it.
#[derive(Clone, Copy, Debug, PartialEq, Eq, Structural)]
pub struct Position {
    pub x: u8,
    pub y: u8,
    pub z: u8,
}

impl Position {
    /// The grid cell of this position, without its layer.
    pub open spec fn cell(self) -> (u8, u8) {
        (self.x, self.y)
    }
}

/// The image with which an entity is drawn, named by its resource path.
#[derive(Debug)]
pub struct Renderable {
    pub path: String,
}

/// Marks a wall.
#[derive(Clone, Copy, Debug)]
pub struct Wall {}

/// Marks the entity that the player steers.
#[derive(Clone, Copy, Debug)]
pub struct Player {}

/// Marks a box that the player pushes around.
#[derive(Clone, Copy, Debug)]
pub struct Box {}

/// Marks a spot on which a box is meant to end up.
#[derive(Clone, Copy, Debug)]
pub struct BoxSpot {}

/// Marks an entity that a push shifts by one cell.
#[derive(Clone, Copy, Debug)]
pub struct Movable;

/// Marks an entity that stops every push that reaches it.
#[derive(Clone, Copy, Debug)]
pub struct Immovable;

/// One of the four cardinal directions in which the player can try to move.
#[derive(Clone, Copy, Debug, PartialEq, Eq, Structural)]
pub enum Direction {
    Up,
    Down,
    Left,
    Right,
}

} // verus!
