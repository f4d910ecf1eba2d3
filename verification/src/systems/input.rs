use crate::components::{Direction, Position};
use crate::grid::{index_of, Bounds, GridIndex};
use crate::constants::{MAP_HEIGHT, MAP_WIDTH};
use crate::rules::{drifted, lemma_plan, listed, push_made, pushed, steers, well_formed};
use crate::store::{
    entities, immovables, movables, players, position_of, set_position, stored_position, Placed,
    Record,
};
use hecs::World;
use vstd::prelude::*;

verus! {

impl Direction {
    /// The change of `x` that one step in this direction makes.
    pub open spec fn dx(self) -> int {
        match self {
            Direction::Left => -1,
            Direction::Right => 1,
            _ => 0,
        }
    }

    /// The change of `y` that one step in this direction makes. Rows count downwards.
    pub open spec fn dy(self) -> int {
        match self {
            Direction::Up => -1,
            Direction::Down => 1,
            _ => 0,
        }
    }
}

/// The intent that the keyboard gives in one frame. A key that is held down repeats, and a
/// repeat gives no intent; else the first of up, down, left and right that went down in this
/// frame decides.
pub fn intent_from_keys(repeated: bool, up: bool, down: bool, left: bool, right: bool) -> (intent:
    Option<Direction>)
    ensures
        intent == (if repeated {
            None
        } else if up {
            Some(Direction::Up)
        } else if down {
            Some(Direction::Down)
        } else if left {
            Some(Direction::Left)
        } else if right {
            Some(Direction::Right)
        } else {
            None
        }),
{
    if repeated {
        None
    } else if up {
        Some(Direction::Up)
    } else if down {
        Some(Direction::Down)
    } else if left {
        Some(Direction::Left)
    } else if right {
        Some(Direction::Right)
    } else {
        None
    }
}

/// How many cells lie between `(x, y)` and the edge of the field in `direction`, the cell
/// itself included; zero for a cell off the field.
pub open spec fn reach(bounds: Bounds, x: int, y: int, direction: Direction) -> nat {
    if !bounds.holds(x, y) {
        0
    } else {
        match direction {
            Direction::Up => (y + 1) as nat,
            Direction::Down => (bounds.height - y) as nat,
            Direction::Left => (x + 1) as nat,
            Direction::Right => (bounds.width - x) as nat,
        }
    }
}

/// The entities that a push arriving at `(x, y)` shifts, nearest first, or `None` where the
/// push is blocked.
///
/// A movable entity on the cell joins the chain and passes the push on to the next cell. An
/// immovable one blocks it, and so does the edge of the field. An empty cell takes the chain
/// in.
pub open spec fn chain(
    movable: Map<(u8, u8), u64>,
    immovable: Map<(u8, u8), u64>,
    bounds: Bounds,
    x: int,
    y: int,
    direction: Direction,
) -> Option<Seq<u64>>
    decreases reach(bounds, x, y, direction),
{
    if !bounds.holds(x, y) {
        None
    } else if movable.contains_key((x as u8, y as u8)) {
        match chain(movable, immovable, bounds, x + direction.dx(), y + direction.dy(), direction) {
            Some(rest) => Some(seq![movable[(x as u8, y as u8)]] + rest),
            None => None,
        }
    } else if immovable.contains_key((x as u8, y as u8)) {
        None
    } else {
        Some(Seq::empty())
    }
}

/// `head` put in front of what `tail` holds; blocked where `tail` is.
pub open spec fn lead(head: Seq<u64>, tail: Option<Seq<u64>>) -> Option<Seq<u64>> {
    match tail {
        Some(rest) => Some(head + rest),
        None => None,
    }
}

/// The moves of a push: each entity of the chain with the direction in which it goes, or none
/// where the push is blocked.
pub open spec fn moves_of(pushed: Option<Seq<u64>>, direction: Direction) -> Seq<(u64, Direction)> {
    match pushed {
        Some(ids) => Seq::new(ids.len(), |i: int| (ids[i], direction)),
        None => Seq::empty(),
    }
}

/// Resolves one push: the player at `player` tries to go one cell in `direction`.
///
/// Returns the entities that move, nearest to the player first, each with `direction`. The
/// list is empty where the push is blocked, and where no movable entity stands on the
/// player's cell.
pub fn resolve(
    direction: Direction,
    player: Position,
    movable: &GridIndex,
    immovable: &GridIndex,
    bounds: Bounds,
) -> (moves: Vec<(u64, Direction)>)
    ensures
        moves@ == moves_of(
            chain(movable@, immovable@, bounds, player.x as int, player.y as int, direction),
            direction,
        ),
{
    let mut moves: Vec<(u64, Direction)> = Vec::new();
    let ghost mut ids: Seq<u64> = Seq::empty();
    let mut x: u8 = player.x;
    let mut y: u8 = player.y;
    proof {
        let whole = chain(movable@, immovable@, bounds, x as int, y as int, direction);
        if whole is Some {
            assert(ids + whole.unwrap() =~= whole.unwrap());
        }
    }
    loop
        invariant
            chain(movable@, immovable@, bounds, player.x as int, player.y as int, direction) == lead(
                ids,
                chain(movable@, immovable@, bounds, x as int, y as int, direction),
            ),
            moves@ == moves_of(Some(ids), direction),
        decreases reach(bounds, x as int, y as int, direction),
    {
        if !bounds.contains(x, y) {
            return Vec::new();
        }
        match movable.get(x, y) {
            Some(id) => {
                let ghost rest = chain(
                    movable@,
                    immovable@,
                    bounds,
                    x + direction.dx(),
                    y + direction.dy(),
                    direction,
                );
                proof {
                    if rest is Some {
                        assert(ids + (seq![id] + rest.unwrap()) =~= ids.push(id) + rest.unwrap());
                    }
                }
                let at_edge = match direction {
                    Direction::Up => y == 0,
                    Direction::Down => false,
                    Direction::Left => x == 0,
                    Direction::Right => false,
                };
                if at_edge {
                    return Vec::new();
                }
                moves.push((id, direction));
                proof {
                    ids = ids.push(id);
                    assert(moves@ =~= moves_of(Some(ids), direction));
                }
                match direction {
                    Direction::Up => {
                        y = y - 1;
                    },
                    Direction::Down => {
                        y = y + 1;
                    },
                    Direction::Left => {
                        x = x - 1;
                    },
                    Direction::Right => {
                        x = x + 1;
                    },
                }
            },
            None => {
                match immovable.get(x, y) {
                    Some(_) => {
                        return Vec::new();
                    },
                    None => {
                        assert(ids + Seq::<u64>::empty() =~= ids);
                        return moves;
                    },
                }
            },
        }
    }
}

/// The moves that one push makes, from what the world lists: the first listed player pushes
/// in `direction` through the cells that `movables` and `immovables` occupy. No player, no
/// move.
pub open spec fn plan_of(
    direction: Direction,
    players: Seq<Placed>,
    movables: Seq<Placed>,
    immovables: Seq<Placed>,
    bounds: Bounds,
) -> Seq<(u64, Direction)> {
    if players.len() == 0 {
        Seq::empty()
    } else {
        moves_of(
            chain(
                index_of(movables),
                index_of(immovables),
                bounds,
                players[0].1.x as int,
                players[0].1.y as int,
                direction,
            ),
            direction,
        )
    }
}

/// Plans one push from the placed entities of a world: indexes the movable and the immovable
/// ones by cell, and resolves the push of the first listed player.
pub fn plan(
    direction: Direction,
    players: &Vec<Placed>,
    movables: &Vec<Placed>,
    immovables: &Vec<Placed>,
    bounds: Bounds,
) -> (moves: Vec<(u64, Direction)>)
    ensures
        moves@ == plan_of(direction, players@, movables@, immovables@, bounds),
{
    if players.len() == 0 {
        return Vec::new();
    }
    let movable = GridIndex::build(movables);
    let immovable = GridIndex::build(immovables);
    resolve(direction, players[0].1, &movable, &immovable, bounds)
}

impl Position {
    /// Whether one step in `direction` stays within the range of the coordinates.
    pub open spec fn can_step(self, direction: Direction) -> bool {
        0 <= self.x + direction.dx() <= u8::MAX && 0 <= self.y + direction.dy() <= u8::MAX
    }

    /// The position one step further in `direction`, on the same layer.
    pub open spec fn step(self, direction: Direction) -> Position {
        Position {
            x: (self.x + direction.dx()) as u8,
            y: (self.y + direction.dy()) as u8,
            z: self.z,
        }
    }

    /// The position one step further in `direction`, on the same layer.
    pub fn stepped(self, direction: Direction) -> (next: Position)
        requires
            self.can_step(direction),
        ensures
            next == self.step(direction),
    {
        match direction {
            Direction::Up => Position { x: self.x, y: self.y - 1, z: self.z },
            Direction::Down => Position { x: self.x, y: self.y + 1, z: self.z },
            Direction::Left => Position { x: self.x - 1, y: self.y, z: self.z },
            Direction::Right => Position { x: self.x + 1, y: self.y, z: self.z },
        }
    }
}

/// The entities after one move: the entity of `mv` stands one step further in the direction
/// of `mv`. A move of an entity that does not exist, or has no position, changes nothing.
pub open spec fn moved(m: Map<u64, Record>, mv: (u64, Direction)) -> Map<u64, Record> {
    match stored_position(m, mv.0) {
        Some(position) => m.insert(mv.0, m[mv.0].at(position.step(mv.1))),
        None => m,
    }
}

/// The entities after the moves of `moves`, made in order.
pub open spec fn applied(m: Map<u64, Record>, moves: Seq<(u64, Direction)>) -> Map<u64, Record>
    decreases moves.len(),
{
    if moves.len() == 0 {
        m
    } else {
        moved(applied(m, moves.drop_last()), moves.last())
    }
}

/// Whether each move of `moves`, at its turn, finds its entity with a position from which it
/// can step.
pub open spec fn applicable(m: Map<u64, Record>, moves: Seq<(u64, Direction)>) -> bool
    decreases moves.len(),
{
    moves.len() == 0 || (applicable(m, moves.drop_last()) && match stored_position(
        applied(m, moves.drop_last()),
        moves.last().0,
    ) {
        Some(position) => position.can_step(moves.last().1),
        None => false,
    })
}

/// The first `k` moves of an applicable list are applicable.
pub proof fn lemma_applicable_prefix(m: Map<u64, Record>, moves: Seq<(u64, Direction)>, k: int)
    requires
        applicable(m, moves),
        0 <= k <= moves.len(),
    ensures
        applicable(m, moves.take(k)),
    decreases moves.len(),
{
    if k < moves.len() {
        lemma_applicable_prefix(m, moves.drop_last(), k);
        assert(moves.drop_last().take(k) == moves.take(k));
    } else {
        assert(moves.take(k) == moves);
    }
}

/// Makes the moves of `moves` in order: each entity goes one step in its direction.
pub fn apply_moves(world: &mut World, moves: &Vec<(u64, Direction)>)
    requires
        applicable(entities(*old(world)), moves@),
    ensures
        entities(*final(world)) == applied(entities(*old(world)), moves@),
{
    let ghost start = entities(*world);
    let mut i: usize = 0;
    assert(moves@.take(0) =~= Seq::empty());
    while i < moves.len()
        invariant
            i <= moves.len(),
            applicable(start, moves@),
            entities(*world) == applied(start, moves@.take(i as int)),
        decreases moves.len() - i,
    {
        let (id, direction) = moves[i];
        proof {
            lemma_applicable_prefix(start, moves@, i + 1);
            assert(moves@.take(i + 1).drop_last() == moves@.take(i as int));
            assert(moves@.take(i + 1).last() == moves@[i as int]);
        }
        match position_of(world, id) {
            Some(position) => {
                set_position(world, id, position.stepped(direction));
            },
            None => {},
        }
        i += 1;
    }
    assert(moves@.take(moves.len() as int) == moves@);
}

/// Lets the player of `world` push in `direction` on a field of the size `bounds`.
///
/// The moves are planned from the players, the movable and the immovable entities as the
/// world lists them, and then made. In a well-formed world the chain in front of the player
/// moves as a whole, or nothing does. In any world only movable entities change, and only
/// their place, by one step in `direction`; a world without a player stays as it is.
pub fn push(world: &mut World, direction: Direction, bounds: Bounds)
    ensures
        push_made(entities(*old(world)), entities(*final(world)), direction, bounds),
        drifted(entities(*old(world)), entities(*final(world)), direction),
        well_formed(entities(*old(world))) ==> entities(*final(world)) == pushed(
            entities(*old(world)),
            direction,
            bounds,
        ),
        (forall|id: u64| !steers(entities(*old(world)), id)) ==> entities(*final(world)) == entities(
            *old(world),
        ),
{
    let movable = movables(world);
    let immovable = immovables(world);
    let player = players(world);
    let moves = plan(direction, &player, &movable, &immovable, bounds);
    proof {
        lemma_plan(entities(*world), direction, player@, movable@, immovable@, bounds);
        assert(listed(entities(*world), player@, movable@, immovable@));
    }
    apply_moves(world, &moves);
}

/// The playing field of the game.
pub open spec fn field() -> Bounds {
    Bounds { width: MAP_WIDTH, height: MAP_HEIGHT }
}

/// One tick of input: with an intent, the player pushes in its direction on the field of the
/// game; without one, the world stays as it is.
pub fn run_input(world: &mut World, intent: Option<Direction>)
    ensures
        match intent {
            Some(direction) => {
                &&& push_made(entities(*old(world)), entities(*final(world)), direction, field())
                &&& drifted(entities(*old(world)), entities(*final(world)), direction)
                &&& well_formed(entities(*old(world))) ==> entities(*final(world)) == pushed(
                    entities(*old(world)),
                    direction,
                    field(),
                )
                &&& (forall|id: u64| !steers(entities(*old(world)), id)) ==> entities(*final(world))
                    == entities(*old(world))
            },
            None => entities(*final(world)) == entities(*old(world)),
        },
{
    match intent {
        Some(direction) => push(world, direction, Bounds { width: MAP_WIDTH, height: MAP_HEIGHT }),
        None => {},
    }
}

} // verus!
