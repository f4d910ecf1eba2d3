use crate::components::{Direction, Position};
use crate::grid::{index_of, lemma_index_of, Bounds};
use crate::store::{lists, Kind, Placed, Record};
use crate::systems::input::{applicable, applied, chain, moved, moves_of, plan_of};
use vstd::prelude::*;

verus! {

/// The coordinate reached from `x` by `i` steps in `direction`.
pub open spec fn along_x(x: int, direction: Direction, i: int) -> int {
    match direction {
        Direction::Left => x - i,
        Direction::Right => x + i,
        _ => x,
    }
}

/// The coordinate reached from `y` by `i` steps in `direction`.
pub open spec fn along_y(y: int, direction: Direction, i: int) -> int {
    match direction {
        Direction::Up => y - i,
        Direction::Down => y + i,
        _ => y,
    }
}

/// The cell reached from `(x, y)` by `i` steps in `direction`.
pub open spec fn cell_along(x: int, y: int, direction: Direction, i: int) -> (u8, u8) {
    (along_x(x, direction, i) as u8, along_y(y, direction, i) as u8)
}

/// Whether the cell `i` steps from `(x, y)` in `direction` lies on the field and holds a
/// movable entity.
pub open spec fn movable_along(
    movable: Map<(u8, u8), u64>,
    bounds: Bounds,
    x: int,
    y: int,
    direction: Direction,
    i: int,
) -> bool {
    bounds.holds(along_x(x, direction, i), along_y(y, direction, i)) && movable.contains_key(
        cell_along(x, y, direction, i),
    )
}

/// Whether the `n` cells from `(x, y)` on in `direction` lie on the field and each holds a
/// movable entity.
pub open spec fn run_of_movables(
    movable: Map<(u8, u8), u64>,
    bounds: Bounds,
    x: int,
    y: int,
    direction: Direction,
    n: nat,
) -> bool {
    forall|i: int| 0 <= i < n ==> #[trigger] movable_along(movable, bounds, x, y, direction, i)
}

/// A chain that moves is a run of movable entities on the field, followed by a cell of the
/// field that holds neither a movable nor an immovable entity.
pub proof fn lemma_chain_moves(
    movable: Map<(u8, u8), u64>,
    immovable: Map<(u8, u8), u64>,
    bounds: Bounds,
    x: int,
    y: int,
    direction: Direction,
)
    requires
        chain(movable, immovable, bounds, x, y, direction) is Some,
    ensures
        ({
            let ids = chain(movable, immovable, bounds, x, y, direction).unwrap();
            let n = ids.len();
            &&& run_of_movables(movable, bounds, x, y, direction, n)
            &&& forall|i: int| 0 <= i < n ==> ids[i] == movable[#[trigger] cell_along(x, y, direction, i)]
            &&& bounds.holds(along_x(x, direction, n as int), along_y(y, direction, n as int))
            &&& !movable.contains_key(cell_along(x, y, direction, n as int))
            &&& !immovable.contains_key(cell_along(x, y, direction, n as int))
        }),
    decreases crate::systems::input::reach(bounds, x, y, direction),
{
    let ids = chain(movable, immovable, bounds, x, y, direction).unwrap();
    if movable.contains_key((x as u8, y as u8)) {
        let nx = x + direction.dx();
        let ny = y + direction.dy();
        lemma_chain_moves(movable, immovable, bounds, nx, ny, direction);
        let rest = chain(movable, immovable, bounds, nx, ny, direction).unwrap();
        assert(ids == seq![movable[(x as u8, y as u8)]] + rest);
        assert forall|i: int| 0 <= i < ids.len() implies #[trigger] movable_along(
            movable,
            bounds,
            x,
            y,
            direction,
            i,
        ) by {
            if i > 0 {
                assert(movable_along(movable, bounds, nx, ny, direction, i - 1));
                assert(cell_along(x, y, direction, i) == cell_along(nx, ny, direction, i - 1));
            }
        }
        assert forall|i: int| 0 <= i < ids.len() implies ids[i] == movable[#[trigger] cell_along(
            x,
            y,
            direction,
            i,
        )] by {
            if i > 0 {
                assert(cell_along(x, y, direction, i) == cell_along(nx, ny, direction, i - 1));
                assert(ids[i] == rest[i - 1]);
            }
        }
        assert(cell_along(x, y, direction, ids.len() as int) == cell_along(
            nx,
            ny,
            direction,
            rest.len() as int,
        ));
    }
}

/// The tail of a run of movable entities is a run that starts one cell further on.
proof fn lemma_run_tail(
    movable: Map<(u8, u8), u64>,
    bounds: Bounds,
    x: int,
    y: int,
    direction: Direction,
    n: nat,
)
    requires
        n > 0,
        run_of_movables(movable, bounds, x, y, direction, n),
    ensures
        bounds.holds(x, y),
        movable.contains_key((x as u8, y as u8)),
        run_of_movables(
            movable,
            bounds,
            x + direction.dx(),
            y + direction.dy(),
            direction,
            (n - 1) as nat,
        ),
        forall|i: int| #[trigger]
            cell_along(x + direction.dx(), y + direction.dy(), direction, i) == cell_along(
                x,
                y,
                direction,
                i + 1,
            ),
        forall|i: int|
            along_x(x + direction.dx(), direction, i) == #[trigger] along_x(x, direction, i + 1),
        forall|i: int|
            along_y(y + direction.dy(), direction, i) == #[trigger] along_y(y, direction, i + 1),
{
    let nx = x + direction.dx();
    let ny = y + direction.dy();
    assert(movable_along(movable, bounds, x, y, direction, 0));
    assert forall|i: int| 0 <= i < n - 1 implies #[trigger] movable_along(
        movable,
        bounds,
        nx,
        ny,
        direction,
        i,
    ) by {
        assert(movable_along(movable, bounds, x, y, direction, i + 1));
        assert(cell_along(nx, ny, direction, i) == cell_along(x, y, direction, i + 1));
    }
}

/// A run of `n` movable entities followed by a free cell of the field moves as a whole.
pub proof fn lemma_run_moves(
    movable: Map<(u8, u8), u64>,
    immovable: Map<(u8, u8), u64>,
    bounds: Bounds,
    x: int,
    y: int,
    direction: Direction,
    n: nat,
)
    requires
        run_of_movables(movable, bounds, x, y, direction, n),
        bounds.holds(along_x(x, direction, n as int), along_y(y, direction, n as int)),
        !movable.contains_key(cell_along(x, y, direction, n as int)),
        !immovable.contains_key(cell_along(x, y, direction, n as int)),
    ensures
        chain(movable, immovable, bounds, x, y, direction) == Some(
            Seq::new(n, |i: int| movable[cell_along(x, y, direction, i)]),
        ),
    decreases n,
{
    let expected = Seq::new(n, |i: int| movable[cell_along(x, y, direction, i)]);
    if n == 0 {
        assert(chain(movable, immovable, bounds, x, y, direction) == Some(Seq::<u64>::empty()));
        assert(expected =~= Seq::<u64>::empty());
    } else {
        let nx = x + direction.dx();
        let ny = y + direction.dy();
        lemma_run_tail(movable, bounds, x, y, direction, n);
        lemma_run_moves(movable, immovable, bounds, nx, ny, direction, (n - 1) as nat);
        let rest = Seq::new((n - 1) as nat, |i: int| movable[cell_along(nx, ny, direction, i)]);
        assert forall|i: int| 0 <= i < n implies expected[i] == (seq![movable[(x as u8, y as u8)]]
            + rest)[i] by {
            if i > 0 {
                assert(cell_along(nx, ny, direction, i - 1) == cell_along(x, y, direction, i));
            }
        }
        assert(expected =~= seq![movable[(x as u8, y as u8)]] + rest);
    }
}

/// A run of `n` movable entities followed by an immovable one, or by the edge of the field,
/// is blocked.
pub proof fn lemma_run_blocked(
    movable: Map<(u8, u8), u64>,
    immovable: Map<(u8, u8), u64>,
    bounds: Bounds,
    x: int,
    y: int,
    direction: Direction,
    n: nat,
)
    requires
        run_of_movables(movable, bounds, x, y, direction, n),
        !bounds.holds(along_x(x, direction, n as int), along_y(y, direction, n as int)) || (
        !movable.contains_key(cell_along(x, y, direction, n as int)) && immovable.contains_key(
            cell_along(x, y, direction, n as int),
        )),
    ensures
        chain(movable, immovable, bounds, x, y, direction) is None,
    decreases n,
{
    if n > 0 {
        let nx = x + direction.dx();
        let ny = y + direction.dy();
        lemma_run_tail(movable, bounds, x, y, direction, n);
        lemma_run_blocked(movable, immovable, bounds, nx, ny, direction, (n - 1) as nat);
    }
}

/// Whether the entity `id` of `m` is of the kind `kind` and stands on the cell `c`.
pub open spec fn stands(m: Map<u64, Record>, kind: Kind, id: u64, c: (u8, u8)) -> bool {
    m.contains_key(id) && m[id].has(kind) && m[id].position.unwrap().cell() == c
}

/// The cells on which an entity of the kind `kind` stands, each with such an entity.
pub open spec fn occupants(m: Map<u64, Record>, kind: Kind) -> Map<(u8, u8), u64> {
    Map::new(
        |c: (u8, u8)| exists|id: u64| stands(m, kind, id, c),
        |c: (u8, u8)| choose|id: u64| stands(m, kind, id, c),
    )
}

/// Whether the entity `id` of `m` takes part in collisions: it stands on the grid and is
/// movable or immovable.
pub open spec fn solid(m: Map<u64, Record>, id: u64) -> bool {
    m.contains_key(id) && (m[id].is_movable() || m[id].is_immovable())
}

/// Whether `id` is the entity of `m` that the player steers.
pub open spec fn steers(m: Map<u64, Record>, id: u64) -> bool {
    m.contains_key(id) && m[id].is_player()
}

/// The entity that the player steers, in a world that has one.
pub open spec fn the_player(m: Map<u64, Record>) -> u64 {
    choose|id: u64| steers(m, id)
}

/// The state that every tick starts from and ends in: exactly one entity is the player, and
/// it is movable; no entity is movable and immovable at once; no two entities that take part
/// in collisions stand on one cell.
pub open spec fn well_formed(m: Map<u64, Record>) -> bool {
    &&& exists|id: u64| steers(m, id)
    &&& forall|a: u64, b: u64| #[trigger] steers(m, a) && #[trigger] steers(m, b) ==> a == b
    &&& m[the_player(m)].movable
    &&& forall|id: u64| #[trigger] m.contains_key(id) ==> !(m[id].movable && m[id].immovable)
    &&& forall|a: u64, b: u64|
        #[trigger] solid(m, a) && #[trigger] solid(m, b) && a != b ==> m[a].position.unwrap().cell()
            != m[b].position.unwrap().cell()
}

/// The entities of `m` with each one of `ids` one step further in `direction`.
pub open spec fn shifted(m: Map<u64, Record>, ids: Seq<u64>, direction: Direction) -> Map<u64, Record> {
    Map::new(
        |id: u64| m.contains_key(id),
        |id: u64|
            if ids.contains(id) {
                m[id].at(m[id].position.unwrap().step(direction))
            } else {
                m[id]
            },
    )
}

/// The chain that the player of a well-formed world pushes in `direction`, the player first,
/// or `None` where the push is blocked.
pub open spec fn push_chain(m: Map<u64, Record>, direction: Direction, bounds: Bounds) -> Option<Seq<u64>> {
    let start = m[the_player(m)].position.unwrap();
    chain(
        occupants(m, Kind::Movable),
        occupants(m, Kind::Immovable),
        bounds,
        start.x as int,
        start.y as int,
        direction,
    )
}

/// A well-formed world after its player has pushed in `direction`: the whole chain one step
/// further, or nothing changed where the push is blocked.
pub open spec fn pushed(m: Map<u64, Record>, direction: Direction, bounds: Bounds) -> Map<u64, Record> {
    match push_chain(m, direction, bounds) {
        Some(ids) => shifted(m, ids, direction),
        None => m,
    }
}

/// Whether `after` differs from `before` at most in that some movable entities stand one step
/// further in `direction`.
pub open spec fn drifted(before: Map<u64, Record>, after: Map<u64, Record>, direction: Direction) -> bool {
    &&& after.dom() =~= before.dom()
    &&& forall|id: u64| #[trigger]
        before.contains_key(id) ==> after[id] == before[id] || (before[id].is_movable()
            && before[id].position.unwrap().can_step(direction) && after[id] == before[id].at(
            before[id].position.unwrap().step(direction),
        ))
}

/// Whether the three lists name the players, the movable and the immovable entities of `m`,
/// each in some order.
pub open spec fn listed(
    m: Map<u64, Record>,
    players: Seq<Placed>,
    movables: Seq<Placed>,
    immovables: Seq<Placed>,
) -> bool {
    lists(players, m, Kind::Player) && lists(movables, m, Kind::Movable) && lists(
        immovables,
        m,
        Kind::Immovable,
    )
}

/// Whether `after` is `before` with the moves made that are planned from its entities, listed
/// in some order. Only in a world that is not well-formed can the order matter: there it
/// decides which player pushes, and which of two entities on one cell is pushed.
pub open spec fn push_made(
    before: Map<u64, Record>,
    after: Map<u64, Record>,
    direction: Direction,
    bounds: Bounds,
) -> bool {
    exists|players: Seq<Placed>, movables: Seq<Placed>, immovables: Seq<Placed>| #[trigger]
        listed(before, players, movables, immovables) && after == applied(
            before,
            plan_of(direction, players, movables, immovables, bounds),
        )
}

/// In a world where no two entities of a kind share a cell, the index that is built from a
/// listing of that kind is the map of its occupants, whatever the order of the listing.
pub proof fn lemma_index_agrees(found: Seq<Placed>, m: Map<u64, Record>, kind: Kind)
    requires
        lists(found, m, kind),
        forall|a: u64, b: u64, c: (u8, u8)|
            #[trigger] stands(m, kind, a, c) && #[trigger] stands(m, kind, b, c) ==> a == b,
    ensures
        index_of(found) == occupants(m, kind),
{
    lemma_index_of(found);
    let index = index_of(found);
    let occupied = occupants(m, kind);
    assert forall|c: (u8, u8)| index.contains_key(c) implies occupied.contains_key(c) && index[c]
        == occupied[c] by {
        let i = choose|i: int|
            0 <= i < found.len() && #[trigger] found[i].1.cell() == c && found[i].0 == index[c];
        assert(m.contains_key(found[i].0));
        assert(stands(m, kind, found[i].0, c));
        assert(stands(m, kind, occupied[c], c));
    }
    assert forall|c: (u8, u8)| occupied.contains_key(c) implies index.contains_key(c) by {
        let id = choose|id: u64| stands(m, kind, id, c);
        let i = choose|i: int| 0 <= i < found.len() && #[trigger] found[i].0 == id;
        assert(m.contains_key(found[i].0));
        assert(index.contains_key(found[i].1.cell()));
    }
    assert(index =~= occupied);
}

/// Moving the entities of `ids` one after the other moves them all, where they are distinct
/// and each can step.
pub proof fn lemma_shift_all(m: Map<u64, Record>, ids: Seq<u64>, direction: Direction)
    requires
        ids.no_duplicates(),
        forall|i: int|
            0 <= i < ids.len() ==> m.contains_key(#[trigger] ids[i]) && m[ids[i]].position is Some
                && m[ids[i]].position.unwrap().can_step(direction),
    ensures
        applicable(m, moves_of(Some(ids), direction)),
        applied(m, moves_of(Some(ids), direction)) == shifted(m, ids, direction),
    decreases ids.len(),
{
    let moves = moves_of(Some(ids), direction);
    if ids.len() == 0 {
        assert(shifted(m, ids, direction) =~= m);
    } else {
        let front = ids.drop_last();
        let last = ids.last();
        lemma_shift_all(m, front, direction);
        assert(moves.drop_last() =~= moves_of(Some(front), direction));
        assert(moves.last() == (last, direction));
        let middle = shifted(m, front, direction);
        assert(!front.contains(last)) by {
            if front.contains(last) {
                let j = choose|j: int| 0 <= j < front.len() && front[j] == last;
                assert(ids[j] == ids[ids.len() - 1]);
            }
        }
        assert(m.contains_key(ids[ids.len() - 1]));
        assert(middle[last] == m[last]);
        assert forall|id: u64| m.contains_key(id) implies moved(middle, (last, direction))[id]
            == shifted(m, ids, direction)[id] by {
            if id == last {
                assert(ids[ids.len() - 1] == id);
            } else if ids.contains(id) {
                let j = choose|j: int| 0 <= j < ids.len() && ids[j] == id;
                assert(front[j] == id);
            } else if front.contains(id) {
                let j = choose|j: int| 0 <= j < front.len() && front[j] == id;
                assert(ids[j] == id);
            }
        }
        assert(moved(middle, (last, direction)) =~= shifted(m, ids, direction));
    }
}

/// The chain that a push finds through the index of a listing of movable entities: its
/// entities are distinct, stand in a row from the start of the push, and each can step.
pub proof fn lemma_chain_of_listing(
    m: Map<u64, Record>,
    movables: Seq<Placed>,
    immovable: Map<(u8, u8), u64>,
    bounds: Bounds,
    x: int,
    y: int,
    direction: Direction,
)
    requires
        forall|i: int|
            0 <= i < movables.len() ==> m.contains_key(#[trigger] movables[i].0)
                && m[movables[i].0].is_movable() && m[movables[i].0].position == Some(movables[i].1),
        chain(index_of(movables), immovable, bounds, x, y, direction) is Some,
    ensures
        ({
            let ids = chain(index_of(movables), immovable, bounds, x, y, direction).unwrap();
            &&& ids.no_duplicates()
            &&& forall|i: int|
                0 <= i < ids.len() ==> m.contains_key(#[trigger] ids[i]) && m[ids[i]].is_movable()
                    && m[ids[i]].position.unwrap().cell() == cell_along(x, y, direction, i)
                    && m[ids[i]].position.unwrap().can_step(direction)
        }),
{
    let index = index_of(movables);
    let ids = chain(index, immovable, bounds, x, y, direction).unwrap();
    let n = ids.len() as int;
    lemma_chain_moves(index, immovable, bounds, x, y, direction);
    lemma_index_of(movables);
    assert forall|i: int| 0 <= i < n implies m.contains_key(#[trigger] ids[i])
        && m[ids[i]].is_movable() && m[ids[i]].position.unwrap().cell() == cell_along(
        x,
        y,
        direction,
        i,
    ) && m[ids[i]].position.unwrap().can_step(direction) by {
        let c = cell_along(x, y, direction, i);
        assert(movable_along(index, bounds, x, y, direction, i));
        assert(ids[i] == index[c]);
        let j = choose|j: int|
            0 <= j < movables.len() && #[trigger] movables[j].1.cell() == c && movables[j].0
                == index[c];
        assert(m.contains_key(movables[j].0));
        if i + 1 < n {
            assert(movable_along(index, bounds, x, y, direction, i + 1));
        }
    }
    assert forall|i: int, j: int| 0 <= i < j < n implies ids[i] != ids[j] by {
        assert(movable_along(index, bounds, x, y, direction, i));
        assert(movable_along(index, bounds, x, y, direction, j));
        assert(m.contains_key(ids[i]) && m.contains_key(ids[j]));
        assert(cell_along(x, y, direction, i) != cell_along(x, y, direction, j));
    }
}

/// What the planned moves do to the world whose listings they were planned from.
///
/// Whatever the order of the listings, the moves can be made, and they shift movable
/// entities only, each by one step. In a well-formed world they make the push of its player.
/// In a world without a player they change nothing.
pub proof fn lemma_plan(
    m: Map<u64, Record>,
    direction: Direction,
    players: Seq<Placed>,
    movables: Seq<Placed>,
    immovables: Seq<Placed>,
    bounds: Bounds,
)
    requires
        lists(players, m, Kind::Player),
        lists(movables, m, Kind::Movable),
        lists(immovables, m, Kind::Immovable),
    ensures
        ({
            let moves = plan_of(direction, players, movables, immovables, bounds);
            &&& applicable(m, moves)
            &&& drifted(m, applied(m, moves), direction)
            &&& well_formed(m) ==> applied(m, moves) == pushed(m, direction, bounds)
            &&& (forall|id: u64| !steers(m, id)) ==> applied(m, moves) == m
        }),
{
    let moves = plan_of(direction, players, movables, immovables, bounds);
    if players.len() == 0 {
        if well_formed(m) {
            let id = choose|id: u64| steers(m, id);
            assert(m[id].has(Kind::Player));
        }
    } else {
        let start = players[0].1;
        assert(m.contains_key(players[0].0));
        assert(steers(m, players[0].0));
        let found = chain(
            index_of(movables),
            index_of(immovables),
            bounds,
            start.x as int,
            start.y as int,
            direction,
        );
        if found is Some {
            let ids = found.unwrap();
            lemma_chain_of_listing(
                m,
                movables,
                index_of(immovables),
                bounds,
                start.x as int,
                start.y as int,
                direction,
            );
            lemma_shift_all(m, ids, direction);
            assert forall|id: u64| #[trigger] m.contains_key(id) && ids.contains(id)
                implies m[id].is_movable() && m[id].position.unwrap().can_step(direction) by {
                let i = choose|i: int| 0 <= i < ids.len() && ids[i] == id;
                assert(m.contains_key(ids[i]));
            }
        }
        if well_formed(m) {
            assert(players[0].0 == the_player(m));
            assert forall|a: u64, b: u64, c: (u8, u8)|
                #[trigger] stands(m, Kind::Movable, a, c) && #[trigger] stands(
                    m,
                    Kind::Movable,
                    b,
                    c,
                ) implies a == b by {
                assert(solid(m, a) && solid(m, b));
            }
            assert forall|a: u64, b: u64, c: (u8, u8)|
                #[trigger] stands(m, Kind::Immovable, a, c) && #[trigger] stands(
                    m,
                    Kind::Immovable,
                    b,
                    c,
                ) implies a == b by {
                assert(solid(m, a) && solid(m, b));
            }
            lemma_index_agrees(movables, m, Kind::Movable);
            lemma_index_agrees(immovables, m, Kind::Immovable);
        }
    }
}

} // verus!
