use crate::components::{Box, BoxSpot, Immovable, Movable, Player, Position, Renderable, Wall};
use hecs::{Entity, World};
use vstd::prelude::*;

verus! {

/// `hecs::World`, the store of the entities and their components. Nothing of its inside is
/// known here: what it holds is named by `entities`.
#[verifier::external_type_specification]
#[verifier::external_body]
pub struct ExWorld(hecs::World);

/// The components of one entity, as far as this library attaches or reads them.
pub ghost struct Record {
    /// The entity's `Position`, if it has one.
    pub position: Option<Position>,
    /// The path of the entity's `Renderable`, if it has one.
    pub image: Option<Seq<char>>,
    /// Whether the entity carries `Wall`.
    pub wall: bool,
    /// Whether the entity carries `Player`.
    pub player: bool,
    /// Whether the entity carries `Box`.
    pub crate_: bool,
    /// Whether the entity carries `BoxSpot`.
    pub box_spot: bool,
    /// Whether the entity carries `Movable`.
    pub movable: bool,
    /// Whether the entity carries `Immovable`.
    pub immovable: bool,
}

/// The kinds of entity that the movement rules tell apart.
pub ghost enum Kind {
    /// Entities with `Position` and `Movable`.
    Movable,
    /// Entities with `Position` and `Immovable`.
    Immovable,
    /// Entities with `Position` and `Player`.
    Player,
}

/// The entities of a world, each under the number that `hecs::Entity::to_bits` gives it, with
/// the components that `Record` lists. An entity that was reserved and not yet given any
/// component is there too, with an empty record.
pub uninterp spec fn entities(world: World) -> Map<u64, Record>;

impl Record {
    /// A drawn entity at `position` that carries no marker.
    pub open spec fn drawn(position: Position, path: Seq<char>) -> Record {
        Record {
            position: Some(position),
            image: Some(path),
            wall: false,
            player: false,
            crate_: false,
            box_spot: false,
            movable: false,
            immovable: false,
        }
    }

    /// Whether the entity stands on the grid and a push shifts it.
    pub open spec fn is_movable(self) -> bool {
        self.movable && self.position is Some
    }

    /// Whether the entity stands on the grid and stops pushes.
    pub open spec fn is_immovable(self) -> bool {
        self.immovable && self.position is Some
    }

    /// Whether the entity stands on the grid and is steered by the player.
    pub open spec fn is_player(self) -> bool {
        self.player && self.position is Some
    }

    /// Whether the entity is drawn: it has a position and an image.
    pub open spec fn is_drawn(self) -> bool {
        self.position is Some && self.image is Some
    }

    /// Whether the entity stands on the grid and is of the kind `kind`.
    pub open spec fn has(self, kind: Kind) -> bool {
        match kind {
            Kind::Movable => self.is_movable(),
            Kind::Immovable => self.is_immovable(),
            Kind::Player => self.is_player(),
        }
    }

    /// The record with its position replaced.
    pub open spec fn at(self, position: Position) -> Record {
        Record { position: Some(position), ..self }
    }
}

/// Whether `n` more entities fit beside those of `m`. The store numbers its entities with 32
/// bits, and stops the program when it is asked for an entity and has no number left.
pub open spec fn fit_beside(m: Map<u64, Record>, n: nat) -> bool {
    m.dom().finite() && m.dom().len() + n <= u32::MAX
}

/// Whether `n` more entities fit into the world.
pub open spec fn room(world: World, n: nat) -> bool {
    fit_beside(entities(world), n)
}

/// The position stored for `id`, if that entity exists and has one.
pub open spec fn stored_position(m: Map<u64, Record>, id: u64) -> Option<Position> {
    if m.contains_key(id) {
        m[id].position
    } else {
        None
    }
}

/// Whether `after` is `before` with one new entity `id` that holds `record`.
pub open spec fn spawned(before: World, after: World, id: u64, record: Record) -> bool {
    !entities(before).contains_key(id) && entities(after) == entities(before).insert(id, record)
}

/// An entity found by a query: its number and its position.
pub type Placed = (u64, Position);

/// Whether `found` names each entity of `m` of the kind `kind` exactly once, with the position
/// it has in `m`, and no other entity. The order is left open.
pub open spec fn lists(found: Seq<Placed>, m: Map<u64, Record>, kind: Kind) -> bool {
    &&& forall|i: int, j: int| 0 <= i < j < found.len() ==> found[i].0 != found[j].0
    &&& forall|i: int|
        0 <= i < found.len() ==> m.contains_key(#[trigger] found[i].0) && m[found[i].0].has(kind)
            && m[found[i].0].position == Some(found[i].1)
    &&& forall|id: u64|
        m.contains_key(id) && #[trigger] m[id].has(kind) ==> exists|i: int|
            0 <= i < found.len() && #[trigger] found[i].0 == id
}

/// What a world without entities holds.
pub open spec fn no_entities() -> Map<u64, Record> {
    Map::empty()
}

/// `hecs::World::new`: a world without entities.
#[verifier::external_body]
pub(crate) fn new_world() -> (made: World)
    ensures
        entities(made) == no_entities(),
{
    World::new()
}

/// `hecs::World::spawn` with the bundle of a floor tile: a position and an image. The new
/// entity gets a number that no entity of the world had, and nothing else changes. The world
/// must have a number left for it.
#[verifier::external_body]
pub(crate) fn spawn_floor(world: &mut World, position: Position, renderable: Renderable) -> (id: u64)
    requires
        room(*old(world), 1),
    ensures
        spawned(*old(world), *final(world), id, Record::drawn(position, renderable.path@)),
{
    world.spawn((position, renderable)).to_bits().get()
}

/// `hecs::World::spawn` with the bundle of a wall: a position, an image, `Wall` and
/// `Immovable`.
#[verifier::external_body]
pub(crate) fn spawn_wall(
    world: &mut World,
    position: Position,
    renderable: Renderable,
    wall: Wall,
    immovable: Immovable,
) -> (id: u64)
    requires
        room(*old(world), 1),
    ensures
        spawned(
            *old(world),
            *final(world),
            id,
            (Record { wall: true, immovable: true, ..Record::drawn(position, renderable.path@) }),
        ),
{
    world.spawn((position, renderable, wall, immovable)).to_bits().get()
}

/// `hecs::World::spawn` with the bundle of a box: a position, an image, `Box` and `Movable`.
#[verifier::external_body]
pub(crate) fn spawn_box(
    world: &mut World,
    position: Position,
    renderable: Renderable,
    marker: Box,
    movable: Movable,
) -> (id: u64)
    requires
        room(*old(world), 1),
    ensures
        spawned(
            *old(world),
            *final(world),
            id,
            (Record { crate_: true, movable: true, ..Record::drawn(position, renderable.path@) }),
        ),
{
    world.spawn((position, renderable, marker, movable)).to_bits().get()
}

/// `hecs::World::spawn` with the bundle of a box spot: a position, an image and `BoxSpot`.
#[verifier::external_body]
pub(crate) fn spawn_box_spot(
    world: &mut World,
    position: Position,
    renderable: Renderable,
    spot: BoxSpot,
) -> (id: u64)
    requires
        room(*old(world), 1),
    ensures
        spawned(
            *old(world),
            *final(world),
            id,
            (Record { box_spot: true, ..Record::drawn(position, renderable.path@) }),
        ),
{
    world.spawn((position, renderable, spot)).to_bits().get()
}

/// `hecs::World::spawn` with the bundle of the player: a position, an image, `Player` and
/// `Movable`.
#[verifier::external_body]
pub(crate) fn spawn_player(
    world: &mut World,
    position: Position,
    renderable: Renderable,
    player: Player,
    movable: Movable,
) -> (id: u64)
    requires
        room(*old(world), 1),
    ensures
        spawned(
            *old(world),
            *final(world),
            id,
            (Record { player: true, movable: true, ..Record::drawn(position, renderable.path@) }),
        ),
{
    world.spawn((position, renderable, player, movable)).to_bits().get()
}

/// `hecs::World::query_mut` for `Position` with `Movable`: every entity that has both, once,
/// in the order in which the store walks them. The world is only read.
#[verifier::external_body]
pub(crate) fn movables(world: &mut World) -> (found: Vec<Placed>)
    ensures
        entities(*final(world)) == entities(*old(world)),
        lists(found@, entities(*old(world)), Kind::Movable),
{
    world.query_mut::<(&Position, &Movable)>().into_iter().map(|(e, (p, _))| (e.to_bits().get(), *p)).collect()
}

/// `hecs::World::query_mut` for `Position` with `Immovable`: every entity that has both, once.
/// The world is only read.
#[verifier::external_body]
pub(crate) fn immovables(world: &mut World) -> (found: Vec<Placed>)
    ensures
        entities(*final(world)) == entities(*old(world)),
        lists(found@, entities(*old(world)), Kind::Immovable),
{
    world.query_mut::<(&Position, &Immovable)>().into_iter().map(|(e, (p, _))| (e.to_bits().get(), *p)).collect()
}

/// `hecs::World::query_mut` for `Position` with `Player`: every entity that has both, once.
/// The world is only read.
#[verifier::external_body]
pub(crate) fn players(world: &mut World) -> (found: Vec<Placed>)
    ensures
        entities(*final(world)) == entities(*old(world)),
        lists(found@, entities(*old(world)), Kind::Player),
{
    world.query_mut::<(&Position, &Player)>().into_iter().map(|(e, (p, _))| (e.to_bits().get(), *p)).collect()
}

/// An entity to draw: its number, where it stands, and the path of its image.
#[derive(Debug, PartialEq, Eq)]
pub struct Sprite {
    pub entity: u64,
    pub position: Position,
    pub path: String,
}

/// Whether `found` names each drawn entity of `m` exactly once, with the position and the
/// image it has in `m`, and no other entity. The order is left open.
pub open spec fn shows(found: Seq<Sprite>, m: Map<u64, Record>) -> bool {
    &&& forall|i: int, j: int| 0 <= i < j < found.len() ==> found[i].entity != found[j].entity
    &&& forall|i: int|
        0 <= i < found.len() ==> m.contains_key((#[trigger] found[i]).entity)
            && m[found[i].entity].position == Some(found[i].position) && m[found[i].entity].image
            == Some(found[i].path@)
    &&& forall|id: u64|
        m.contains_key(id) && #[trigger] m[id].is_drawn() ==> exists|i: int|
            0 <= i < found.len() && (#[trigger] found[i]).entity == id
}

/// `hecs::World::query_mut` for `Position` with `Renderable`: every entity that has both,
/// once, with a copy of its image's path. The world is only read.
#[verifier::external_body]
pub(crate) fn drawables(world: &mut World) -> (found: Vec<Sprite>)
    ensures
        entities(*final(world)) == entities(*old(world)),
        shows(found@, entities(*old(world))),
{
    world.query_mut::<(&Position, &Renderable)>().into_iter().map(
        |(e, (p, r))| Sprite { entity: e.to_bits().get(), position: *p, path: r.path.clone() },
    ).collect()
}

/// `hecs::World::query_one_mut` for the `Position` of one entity: `None` where no entity has
/// the number `id`, or the entity has no position. The world is only read.
#[verifier::external_body]
pub(crate) fn position_of(world: &mut World, id: u64) -> (found: Option<Position>)
    ensures
        entities(*final(world)) == entities(*old(world)),
        found == stored_position(entities(*old(world)), id),
{
    match Entity::from_bits(id) {
        Some(entity) => match world.query_one_mut::<&Position>(entity) {
            Ok(position) => Some(*position),
            Err(_) => None,
        },
        None => None,
    }
}

/// `hecs::World::query_one_mut` for the `Position` of one entity, which is then overwritten.
/// Returns whether the entity exists and has a position; where it does not, nothing changes.
#[verifier::external_body]
pub(crate) fn set_position(world: &mut World, id: u64, position: Position) -> (done: bool)
    ensures
        done == stored_position(entities(*old(world)), id).is_some(),
        done ==> entities(*final(world)) == entities(*old(world)).insert(
            id,
            entities(*old(world))[id].at(position),
        ),
        !done ==> entities(*final(world)) == entities(*old(world)),
{
    match Entity::from_bits(id) {
        Some(entity) => match world.query_one_mut::<&mut Position>(entity) {
            Ok(stored) => {
                *stored = position;
                true
            },
            Err(_) => false,
        },
        None => false,
    }
}

} // verus!
