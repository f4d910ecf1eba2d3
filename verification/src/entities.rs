use crate::components::{Box, BoxSpot, Immovable, Movable, Player, Position, Renderable, Wall};
use crate::store::{
    room, spawn_box, spawn_box_spot, spawn_floor, spawn_player, spawn_wall, spawned, Record,
};
use hecs::World;
use vstd::prelude::*;

verus! {

impl Position {
    /// This position on the layer `z`.
    pub open spec fn on_layer(self, z: u8) -> Position {
        Position { x: self.x, y: self.y, z }
    }
}

impl Record {
    /// A wall on the cell of `position`: drawn on layer 10, immovable.
    pub open spec fn wall(position: Position) -> Record {
        Record { wall: true, immovable: true, ..Record::drawn(position.on_layer(10), "/images/wall.png"@) }
    }

    /// A floor tile on the cell of `position`: drawn on layer 5.
    pub open spec fn floor(position: Position) -> Record {
        Record::drawn(position.on_layer(5), "/images/floor.png"@)
    }

    /// A box on the cell of `position`: drawn on layer 10, movable.
    pub open spec fn crate_(position: Position) -> Record {
        Record { crate_: true, movable: true, ..Record::drawn(position.on_layer(10), "/images/box.png"@) }
    }

    /// A box spot on the cell of `position`: drawn on layer 9.
    pub open spec fn box_spot(position: Position) -> Record {
        Record { box_spot: true, ..Record::drawn(position.on_layer(9), "/images/box_spot.png"@) }
    }

    /// The player on the cell of `position`: drawn on layer 10, movable.
    pub open spec fn player(position: Position) -> Record {
        Record { player: true, movable: true, ..Record::drawn(position.on_layer(10), "/images/player.png"@) }
    }
}

/// Puts a wall on the cell of `position`, on layer 10: it is drawn and immovable. Returns the
/// number of the new entity.
pub fn create_wall(world: &mut World, position: Position) -> (id: u64)
    requires
        room(*old(world), 1),
    ensures
        spawned(*old(world), *final(world), id, Record::wall(position)),
{
    spawn_wall(
        world,
        Position { x: position.x, y: position.y, z: 10 },
        Renderable { path: "/images/wall.png".to_owned() },
        Wall {},
        Immovable {},
    )
}

/// Puts a floor tile on the cell of `position`, on layer 5: it is drawn and takes no part in
/// collisions. Returns the number of the new entity.
pub fn create_floor(world: &mut World, position: Position) -> (id: u64)
    requires
        room(*old(world), 1),
    ensures
        spawned(*old(world), *final(world), id, Record::floor(position)),
{
    spawn_floor(
        world,
        Position { x: position.x, y: position.y, z: 5 },
        Renderable { path: "/images/floor.png".to_owned() },
    )
}

/// Puts a box on the cell of `position`, on layer 10: it is drawn and movable. Returns the
/// number of the new entity.
pub fn create_box(world: &mut World, position: Position) -> (id: u64)
    requires
        room(*old(world), 1),
    ensures
        spawned(*old(world), *final(world), id, Record::crate_(position)),
{
    spawn_box(
        world,
        Position { x: position.x, y: position.y, z: 10 },
        Renderable { path: "/images/box.png".to_owned() },
        Box {},
        Movable {},
    )
}

/// Puts a box spot on the cell of `position`, on layer 9: it is drawn and takes no part in
/// collisions. Returns the number of the new entity.
pub fn create_box_spot(world: &mut World, position: Position) -> (id: u64)
    requires
        room(*old(world), 1),
    ensures
        spawned(*old(world), *final(world), id, Record::box_spot(position)),
{
    spawn_box_spot(
        world,
        Position { x: position.x, y: position.y, z: 9 },
        Renderable { path: "/images/box_spot.png".to_owned() },
        BoxSpot {},
    )
}

/// Puts the player on the cell of `position`, on layer 10: it is drawn and movable. Returns
/// the number of the new entity.
pub fn create_player(world: &mut World, position: Position) -> (id: u64)
    requires
        room(*old(world), 1),
    ensures
        spawned(*old(world), *final(world), id, Record::player(position)),
{
    spawn_player(
        world,
        Position { x: position.x, y: position.y, z: 10 },
        Renderable { path: "/images/player.png".to_owned() },
        Player {},
        Movable {},
    )
}

} // verus!
