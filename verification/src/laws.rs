use crate::components::{Direction, Position};
use crate::grid::Bounds;
use crate::map::{added, fits, records_of, records_of_row, records_of_tile, Tile};
use crate::rules::{
    along_x, along_y, cell_along, lemma_chain_moves, lemma_run_blocked, lemma_run_moves,
    movable_along, occupants, push_chain, pushed, run_of_movables, shifted, solid, stands, steers,
    the_player, well_formed,
};
use crate::store::{Kind, Record};
use vstd::prelude::*;

verus! {

/// Whether no entity that takes part in collisions stands on the cell `(x, y)`.
pub open spec fn free(m: Map<u64, Record>, x: int, y: int) -> bool {
    forall|id: u64| #[trigger]
        solid(m, id) ==> !(m[id].position.unwrap().x == x && m[id].position.unwrap().y == y)
}

/// Whether the player of `m` stands on the field, and each of the `n` cells in front of it,
/// in `direction`, lies on the field and holds a movable entity.
pub open spec fn boxes_ahead(m: Map<u64, Record>, direction: Direction, bounds: Bounds, n: nat) -> bool {
    let start = m[the_player(m)].position.unwrap();
    run_of_movables(occupants(m, Kind::Movable), bounds, start.x as int, start.y as int, direction, n + 1)
}

/// In a well-formed world the occupant of a cell is the one entity of its kind that stands
/// there.
proof fn lemma_occupant(m: Map<u64, Record>, kind: Kind, id: u64, c: (u8, u8))
    requires
        well_formed(m),
        kind != Kind::Player,
        stands(m, kind, id, c),
    ensures
        occupants(m, kind).contains_key(c),
        occupants(m, kind)[c] == id,
{
    let other = occupants(m, kind)[c];
    assert(stands(m, kind, other, c));
    assert(solid(m, id) && solid(m, other));
}

/// A cell's occupant stands on that cell.
proof fn lemma_occupants(m: Map<u64, Record>, kind: Kind)
    ensures
        forall|c: (u8, u8)| #[trigger]
            occupants(m, kind).contains_key(c) ==> stands(m, kind, occupants(m, kind)[c], c),
{
}

/// The player of a well-formed world occupies its own cell.
proof fn lemma_player_occupies(m: Map<u64, Record>)
    requires
        well_formed(m),
    ensures
        steers(m, the_player(m)),
        m[the_player(m)].is_movable(),
        occupants(m, Kind::Movable).contains_key(m[the_player(m)].position.unwrap().cell()),
        occupants(m, Kind::Movable)[m[the_player(m)].position.unwrap().cell()] == the_player(m),
{
    let player = the_player(m);
    lemma_occupant(m, Kind::Movable, player, m[player].position.unwrap().cell());
}

/// A free cell has no occupant of either kind.
proof fn lemma_free(m: Map<u64, Record>, x: int, y: int)
    requires
        free(m, x, y),
        0 <= x <= u8::MAX,
        0 <= y <= u8::MAX,
    ensures
        !occupants(m, Kind::Movable).contains_key((x as u8, y as u8)),
        !occupants(m, Kind::Immovable).contains_key((x as u8, y as u8)),
{
    let c = (x as u8, y as u8);
    if occupants(m, Kind::Movable).contains_key(c) {
        let id = choose|id: u64| stands(m, Kind::Movable, id, c);
        assert(solid(m, id));
    }
    if occupants(m, Kind::Immovable).contains_key(c) {
        let id = choose|id: u64| stands(m, Kind::Immovable, id, c);
        assert(solid(m, id));
    }
}

/// A player that pushes into a free cell of the field goes there, and nothing else changes.
pub proof fn law_step_into_free_cell(m: Map<u64, Record>, direction: Direction, bounds: Bounds)
    requires
        well_formed(m),
        ({
            let start = m[the_player(m)].position.unwrap();
            &&& bounds.holds(start.x as int, start.y as int)
            &&& bounds.holds(start.x + direction.dx(), start.y + direction.dy())
            &&& free(m, start.x + direction.dx(), start.y + direction.dy())
        }),
    ensures
        pushed(m, direction, bounds) == m.insert(
            the_player(m),
            m[the_player(m)].at(m[the_player(m)].position.unwrap().step(direction)),
        ),
{
    let player = the_player(m);
    let start = m[player].position.unwrap();
    let movable = occupants(m, Kind::Movable);
    let immovable = occupants(m, Kind::Immovable);
    let (x, y) = (start.x as int, start.y as int);
    lemma_player_occupies(m);
    lemma_free(m, x + direction.dx(), y + direction.dy());
    assert(cell_along(x, y, direction, 0) == start.cell());
    assert(cell_along(x, y, direction, 1) == ((x + direction.dx()) as u8, (y + direction.dy()) as u8));
    assert forall|i: int| 0 <= i < 1 implies #[trigger] movable_along(movable, bounds, x, y, direction, i) by {}
    lemma_run_moves(movable, immovable, bounds, x, y, direction, 1);
    let ids = push_chain(m, direction, bounds).unwrap();
    assert(ids =~= seq![player]);
    assert(ids[0] == player);
    assert forall|id: u64| ids.contains(id) implies id == player by {}
    assert(shifted(m, ids, direction) =~= m.insert(player, m[player].at(start.step(direction))));
}

/// A player that pushes one box into a free cell of the field moves with the box: both go one
/// step, so the box stays next to the player, and nothing else changes.
pub proof fn law_push_one_box(m: Map<u64, Record>, direction: Direction, bounds: Bounds, pushed_box: u64)
    requires
        well_formed(m),
        m.contains_key(pushed_box),
        m[pushed_box].is_movable(),
        ({
            let start = m[the_player(m)].position.unwrap();
            let place = m[pushed_box].position.unwrap();
            &&& bounds.holds(start.x as int, start.y as int)
            &&& place.x == start.x + direction.dx()
            &&& place.y == start.y + direction.dy()
            &&& bounds.holds(place.x + direction.dx(), place.y + direction.dy())
            &&& free(m, place.x + direction.dx(), place.y + direction.dy())
        }),
    ensures
        pushed(m, direction, bounds) == m.insert(
            the_player(m),
            m[the_player(m)].at(m[the_player(m)].position.unwrap().step(direction)),
        ).insert(pushed_box, m[pushed_box].at(m[pushed_box].position.unwrap().step(direction))),
{
    let player = the_player(m);
    let start = m[player].position.unwrap();
    let place = m[pushed_box].position.unwrap();
    let movable = occupants(m, Kind::Movable);
    let immovable = occupants(m, Kind::Immovable);
    let (x, y) = (start.x as int, start.y as int);
    lemma_player_occupies(m);
    lemma_occupant(m, Kind::Movable, pushed_box, place.cell());
    lemma_free(m, place.x + direction.dx(), place.y + direction.dy());
    assert(cell_along(x, y, direction, 0) == start.cell());
    assert(cell_along(x, y, direction, 1) == place.cell());
    assert(cell_along(x, y, direction, 2) == (
        (place.x + direction.dx()) as u8,
        (place.y + direction.dy()) as u8,
    ));
    assert(bounds.holds(place.x as int, place.y as int));
    assert forall|i: int| 0 <= i < 2 implies #[trigger] movable_along(movable, bounds, x, y, direction, i) by {
        if i == 0 {
        } else {
            assert(i == 1);
        }
    }
    lemma_run_moves(movable, immovable, bounds, x, y, direction, 2);
    let ids = push_chain(m, direction, bounds).unwrap();
    assert(ids =~= seq![player, pushed_box]);
    assert(ids[0] == player && ids[1] == pushed_box);
    assert forall|id: u64| ids.contains(id) implies id == player || id == pushed_box by {}
    assert(shifted(m, ids, direction) =~= m.insert(player, m[player].at(start.step(direction))).insert(
        pushed_box,
        m[pushed_box].at(place.step(direction)),
    ));
}

/// A player that pushes a row of `n` boxes against an immovable entity moves nothing: the
/// player and the boxes all stay where they are.
pub proof fn law_blocked_by_immovable(
    m: Map<u64, Record>,
    direction: Direction,
    bounds: Bounds,
    n: nat,
    block: u64,
)
    requires
        well_formed(m),
        boxes_ahead(m, direction, bounds, n),
        m.contains_key(block),
        m[block].is_immovable(),
        ({
            let start = m[the_player(m)].position.unwrap();
            let place = m[block].position.unwrap();
            &&& place.x == along_x(start.x as int, direction, n as int + 1)
            &&& place.y == along_y(start.y as int, direction, n as int + 1)
        }),
    ensures
        pushed(m, direction, bounds) == m,
{
    let start = m[the_player(m)].position.unwrap();
    let place = m[block].position.unwrap();
    let movable = occupants(m, Kind::Movable);
    let immovable = occupants(m, Kind::Immovable);
    let c = cell_along(start.x as int, start.y as int, direction, n as int + 1);
    assert(c == place.cell());
    lemma_occupant(m, Kind::Immovable, block, c);
    if movable.contains_key(c) {
        let other = choose|id: u64| stands(m, Kind::Movable, id, c);
        assert(solid(m, other) && solid(m, block));
        assert(m.contains_key(block));
    }
    lemma_run_blocked(movable, immovable, bounds, start.x as int, start.y as int, direction, n + 1);
}

/// A player that pushes a row of `n` boxes against the edge of the field moves nothing: the
/// edge blocks like an immovable entity.
pub proof fn law_blocked_by_edge(m: Map<u64, Record>, direction: Direction, bounds: Bounds, n: nat)
    requires
        well_formed(m),
        boxes_ahead(m, direction, bounds, n),
        ({
            let start = m[the_player(m)].position.unwrap();
            !bounds.holds(
                along_x(start.x as int, direction, n as int + 1),
                along_y(start.y as int, direction, n as int + 1),
            )
        }),
    ensures
        pushed(m, direction, bounds) == m,
{
    let start = m[the_player(m)].position.unwrap();
    lemma_run_blocked(
        occupants(m, Kind::Movable),
        occupants(m, Kind::Immovable),
        bounds,
        start.x as int,
        start.y as int,
        direction,
        n + 1,
    );
}

/// A player that pushes a row of `n` boxes into a free cell of the field moves with all of
/// them: each goes one step, and nothing else changes.
pub proof fn law_push_row(m: Map<u64, Record>, direction: Direction, bounds: Bounds, n: nat)
    requires
        well_formed(m),
        boxes_ahead(m, direction, bounds, n),
        ({
            let start = m[the_player(m)].position.unwrap();
            let x = along_x(start.x as int, direction, n as int + 1);
            let y = along_y(start.y as int, direction, n as int + 1);
            bounds.holds(x, y) && free(m, x, y)
        }),
    ensures
        ({
            let start = m[the_player(m)].position.unwrap();
            let row = Seq::new(
                n + 1,
                |i: int|
                    occupants(m, Kind::Movable)[cell_along(start.x as int, start.y as int, direction, i)],
            );
            &&& row[0] == the_player(m)
            &&& pushed(m, direction, bounds) == shifted(m, row, direction)
        }),
{
    let start = m[the_player(m)].position.unwrap();
    let (x, y) = (start.x as int, start.y as int);
    lemma_player_occupies(m);
    lemma_free(m, along_x(x, direction, n as int + 1), along_y(y, direction, n as int + 1));
    assert(cell_along(x, y, direction, 0) == start.cell());
    lemma_run_moves(occupants(m, Kind::Movable), occupants(m, Kind::Immovable), bounds, x, y, direction, n + 1);
}

/// A push keeps a well-formed world well-formed: afterwards there is still one movable
/// player, and still no two entities that take part in collisions share a cell; so no entity
/// has moved onto an immovable one, nor onto another movable one.
pub proof fn law_push_keeps_well_formed(m: Map<u64, Record>, direction: Direction, bounds: Bounds)
    requires
        well_formed(m),
    ensures
        well_formed(pushed(m, direction, bounds)),
{
    let after = pushed(m, direction, bounds);
    let found = push_chain(m, direction, bounds);
    if found is Some {
        let ids = found.unwrap();
        let n = ids.len() as int;
        let start = m[the_player(m)].position.unwrap();
        let (x, y) = (start.x as int, start.y as int);
        let movable = occupants(m, Kind::Movable);
        let immovable = occupants(m, Kind::Immovable);
        lemma_chain_moves(movable, immovable, bounds, x, y, direction);
        lemma_occupants(m, Kind::Movable);
        assert forall|i: int| 0 <= i < n implies stands(
            m,
            Kind::Movable,
            #[trigger] ids[i],
            cell_along(x, y, direction, i),
        ) && bounds.holds(along_x(x, direction, i), along_y(y, direction, i)) && bounds.holds(
            along_x(x, direction, i + 1),
            along_y(y, direction, i + 1),
        ) by {
            assert(movable_along(movable, bounds, x, y, direction, i));
            assert(ids[i] == movable[cell_along(x, y, direction, i)]);
            if i + 1 < n {
                assert(movable_along(movable, bounds, x, y, direction, i + 1));
            }
        }
        assert forall|id: u64| steers(after, id) == steers(m, id) by {}
        let player = the_player(m);
        assert(steers(after, player));
        assert(the_player(after) == player);
        assert forall|a: u64, b: u64|
            #[trigger] solid(after, a) && #[trigger] solid(after, b) && a != b
            implies after[a].position.unwrap().cell() != after[b].position.unwrap().cell() by {
            assert(solid(m, a) && solid(m, b));
            if ids.contains(a) && ids.contains(b) {
                let i = choose|i: int| 0 <= i < n && ids[i] == a;
                let j = choose|j: int| 0 <= j < n && ids[j] == b;
                assert(stands(m, Kind::Movable, ids[i], cell_along(x, y, direction, i)));
                assert(stands(m, Kind::Movable, ids[j], cell_along(x, y, direction, j)));
            } else if ids.contains(a) {
                let i = choose|i: int| 0 <= i < n && ids[i] == a;
                assert(stands(m, Kind::Movable, ids[i], cell_along(x, y, direction, i)));
                lemma_lands_on_no_other(m, direction, bounds, ids, i, b);
            } else if ids.contains(b) {
                let j = choose|j: int| 0 <= j < n && ids[j] == b;
                assert(stands(m, Kind::Movable, ids[j], cell_along(x, y, direction, j)));
                lemma_lands_on_no_other(m, direction, bounds, ids, j, a);
            }
        }
    }
}

/// The cell onto which an entity of a moving chain steps holds no entity outside the chain.
proof fn lemma_lands_on_no_other(
    m: Map<u64, Record>,
    direction: Direction,
    bounds: Bounds,
    ids: Seq<u64>,
    i: int,
    other: u64,
)
    requires
        well_formed(m),
        push_chain(m, direction, bounds) == Some(ids),
        0 <= i < ids.len(),
        solid(m, other),
        !ids.contains(other),
    ensures
        m[other].position.unwrap().cell() != m[ids[i]].position.unwrap().step(direction).cell(),
        m[ids[i]].position.unwrap().cell() == cell_along(
            m[the_player(m)].position.unwrap().x as int,
            m[the_player(m)].position.unwrap().y as int,
            direction,
            i,
        ),
{
    let n = ids.len() as int;
    let start = m[the_player(m)].position.unwrap();
    let (x, y) = (start.x as int, start.y as int);
    let movable = occupants(m, Kind::Movable);
    let immovable = occupants(m, Kind::Immovable);
    lemma_chain_moves(movable, immovable, bounds, x, y, direction);
    lemma_occupants(m, Kind::Movable);
    assert(movable_along(movable, bounds, x, y, direction, i));
    assert(ids[i] == movable[cell_along(x, y, direction, i)]);
    let next = cell_along(x, y, direction, i + 1);
    if i + 1 < n {
        assert(movable_along(movable, bounds, x, y, direction, i + 1));
        assert(ids[i + 1] == movable[next]);
        assert(solid(m, ids[i + 1]));
        if m[other].position.unwrap().cell() == next {
            assert(other == ids[i + 1]);
        }
    } else {
        if m[other].position.unwrap().cell() == next {
            if m[other].is_movable() {
                assert(stands(m, Kind::Movable, other, next));
            } else {
                assert(stands(m, Kind::Immovable, other, next));
            }
        }
    }
    assert(m[ids[i]].position.unwrap().step(direction).cell() == next);
}

/// Whether `record` is what a level puts on one of the cells of `rows`: it stands on a cell
/// of the level, is not movable and immovable at once, and is the player only on a player's
/// tile, where it is movable.
pub open spec fn from_level(record: Record, rows: Seq<Seq<Tile>>) -> bool {
    &&& record.position is Some
    &&& (record.position.unwrap().y as int) < rows.len()
    &&& (record.position.unwrap().x as int) < rows[record.position.unwrap().y as int].len()
    &&& !(record.movable && record.immovable)
    &&& record.player ==> record.movable && rows[record.position.unwrap().y as int][record.position.unwrap().x as int]
        == Tile::Player
}

/// Whether `record` takes part in collisions.
pub open spec fn collides(record: Record) -> bool {
    record.is_movable() || record.is_immovable()
}

/// Whether some record of `records` is a player on the cell `(x, y)`.
pub open spec fn player_placed(records: Seq<Record>, x: int, y: int) -> bool {
    exists|i: int|
        0 <= i < records.len() && (#[trigger] records[i]).is_player() && records[i].position.unwrap().x
            == x && records[i].position.unwrap().y == y
}

/// What a level puts on its cells: see `lemma_level_records`, of which this is the part for
/// one row.
proof fn lemma_row_records(rows: Seq<Seq<Tile>>, y: int)
    requires
        fits(rows),
        0 <= y < rows.len(),
    ensures
        ({
            let records = records_of_row(rows[y], y as u8);
            &&& forall|i: int|
                0 <= i < records.len() ==> from_level(#[trigger] records[i], rows)
                    && records[i].position.unwrap().y == y
            &&& forall|i: int, j: int|
                0 <= i < j < records.len() && collides(#[trigger] records[i]) && collides(
                    #[trigger] records[j],
                ) ==> records[i].position.unwrap().x != records[j].position.unwrap().x
            &&& forall|x: int|
                0 <= x < rows[y].len() && #[trigger] rows[y][x] == Tile::Player ==> player_placed(
                    records,
                    x,
                    y,
                )
        }),
{
    lemma_row_prefix_records(rows, y, rows[y].len() as int);
    assert(rows[y].take(rows[y].len() as int) == rows[y]);
}

/// What the first `k` tiles of the row `y` of a level put on its cells.
proof fn lemma_row_prefix_records(rows: Seq<Seq<Tile>>, y: int, k: int)
    requires
        fits(rows),
        0 <= y < rows.len(),
        0 <= k <= rows[y].len(),
    ensures
        ({
            let records = records_of_row(rows[y].take(k), y as u8);
            &&& forall|i: int|
                0 <= i < records.len() ==> from_level(#[trigger] records[i], rows)
                    && records[i].position.unwrap().y == y && records[i].position.unwrap().x < k
            &&& forall|i: int, j: int|
                0 <= i < j < records.len() && collides(#[trigger] records[i]) && collides(
                    #[trigger] records[j],
                ) ==> records[i].position.unwrap().x != records[j].position.unwrap().x
            &&& forall|x: int|
                0 <= x < k && #[trigger] rows[y][x] == Tile::Player ==> player_placed(records, x, y)
        }),
    decreases k,
{
    let row = rows[y].take(k);
    let records = records_of_row(row, y as u8);
    if k > 0 {
        lemma_row_prefix_records(rows, y, k - 1);
        assert(row.drop_last() == rows[y].take(k - 1));
        assert(row.last() == rows[y][k - 1]);
        let left = records_of_row(rows[y].take(k - 1), y as u8);
        let here = Position { x: (k - 1) as u8, y: y as u8, z: 0 };
        let new = records_of_tile(rows[y][k - 1], here);
        assert(records == left + new);
        assert forall|i: int| 0 <= i < records.len() implies from_level(#[trigger] records[i], rows)
            && records[i].position.unwrap().y == y && records[i].position.unwrap().x < k by {
            if i < left.len() {
                assert(records[i] == left[i]);
            } else {
                assert(records[i] == new[i - left.len()]);
            }
        }
        assert forall|i: int, j: int|
            0 <= i < j < records.len() && collides(#[trigger] records[i]) && collides(
                #[trigger] records[j],
            ) implies records[i].position.unwrap().x != records[j].position.unwrap().x by {
            if j < left.len() {
                assert(records[i] == left[i] && records[j] == left[j]);
            } else if i < left.len() {
                assert(records[i] == left[i]);
                assert(records[j] == new[j - left.len()]);
            } else {
                assert(records[i] == new[i - left.len()]);
                assert(records[j] == new[j - left.len()]);
            }
        }
        assert forall|x: int| 0 <= x < k && #[trigger] rows[y][x] == Tile::Player implies player_placed(
            records,
            x,
            y,
        ) by {
            if x < k - 1 {
                assert(player_placed(left, x, y));
                let i = choose|i: int|
                    0 <= i < left.len() && (#[trigger] left[i]).is_player() && left[i].position.unwrap().x
                        == x && left[i].position.unwrap().y == y;
                assert(records[i] == left[i]);
            } else {
                assert(records[left.len() as int + 1] == new[1]);
            }
        }
    }
}

/// What a level puts on its cells: every entity stands on a cell of the level, a player only
/// on a player's tile and every player's tile has one, and no two entities that take part in
/// collisions share a cell.
proof fn lemma_level_records(rows: Seq<Seq<Tile>>, k: int)
    requires
        fits(rows),
        0 <= k <= rows.len(),
    ensures
        ({
            let records = records_of(rows.take(k));
            &&& forall|i: int|
                0 <= i < records.len() ==> from_level(#[trigger] records[i], rows)
                    && records[i].position.unwrap().y < k
            &&& forall|i: int, j: int|
                0 <= i < j < records.len() && collides(#[trigger] records[i]) && collides(
                    #[trigger] records[j],
                ) ==> records[i].position.unwrap().cell() != records[j].position.unwrap().cell()
            &&& forall|x: int, y: int|
                0 <= y < k && 0 <= x < rows[y].len() && #[trigger] rows[y][x] == Tile::Player
                    ==> player_placed(records, x, y)
        }),
    decreases k,
{
    let records = records_of(rows.take(k));
    if k > 0 {
        lemma_level_records(rows, k - 1);
        lemma_row_records(rows, k - 1);
        assert(rows.take(k).drop_last() == rows.take(k - 1));
        assert(rows.take(k).last() == rows[k - 1]);
        let above = records_of(rows.take(k - 1));
        let new = records_of_row(rows[k - 1], (k - 1) as u8);
        assert(records == above + new);
        assert forall|i: int| 0 <= i < records.len() implies from_level(#[trigger] records[i], rows)
            && records[i].position.unwrap().y < k by {
            if i < above.len() {
                assert(records[i] == above[i]);
            } else {
                assert(records[i] == new[i - above.len()]);
            }
        }
        assert forall|i: int, j: int|
            0 <= i < j < records.len() && collides(#[trigger] records[i]) && collides(
                #[trigger] records[j],
            ) implies records[i].position.unwrap().cell() != records[j].position.unwrap().cell() by {
            if j < above.len() {
                assert(records[i] == above[i] && records[j] == above[j]);
            } else if i < above.len() {
                assert(records[i] == above[i]);
                assert(records[j] == new[j - above.len()]);
            } else {
                assert(records[i] == new[i - above.len()]);
                assert(records[j] == new[j - above.len()]);
            }
        }
        assert forall|x: int, y: int|
            0 <= y < k && 0 <= x < rows[y].len() && #[trigger] rows[y][x] == Tile::Player
            implies player_placed(records, x, y) by {
            if y < k - 1 {
                assert(player_placed(above, x, y));
                let i = choose|i: int|
                    0 <= i < above.len() && (#[trigger] above[i]).is_player()
                        && above[i].position.unwrap().x == x && above[i].position.unwrap().y == y;
                assert(records[i] == above[i]);
            } else {
                assert(player_placed(new, x, y));
                let i = choose|i: int|
                    0 <= i < new.len() && (#[trigger] new[i]).is_player() && new[i].position.unwrap().x
                        == x && new[i].position.unwrap().y == y;
                assert(records[above.len() as int + i] == new[i]);
            }
        }
    }
}

/// A level with exactly one player's tile, loaded into an empty world, gives a well-formed
/// world: the loader puts no two entities that take part in collisions on one cell.
pub proof fn law_level_is_well_formed(
    after: Map<u64, Record>,
    ids: Seq<u64>,
    rows: Seq<Seq<Tile>>,
    x: int,
    y: int,
)
    requires
        fits(rows),
        added(Map::empty(), after, ids, records_of(rows)),
        0 <= y < rows.len(),
        0 <= x < rows[y].len(),
        rows[y][x] == Tile::Player,
        forall|x2: int, y2: int|
            0 <= y2 < rows.len() && 0 <= x2 < rows[y2].len() && #[trigger] rows[y2][x2] == Tile::Player
                ==> x2 == x && y2 == y,
    ensures
        well_formed(after),
{
    let records = records_of(rows);
    lemma_level_records(rows, rows.len() as int);
    assert(rows.take(rows.len() as int) == rows);
    assert forall|id: u64| #[trigger] after.contains_key(id) implies exists|i: int|
        0 <= i < ids.len() && ids[i] == id && after[id] == records[i] by {
        assert(ids.contains(id));
        let i = choose|i: int| 0 <= i < ids.len() && ids[i] == id;
        assert(after[ids[i]] == records[i]);
    }
    assert(player_placed(records, x, y));
    let first = choose|i: int|
        0 <= i < records.len() && (#[trigger] records[i]).is_player() && records[i].position.unwrap().x
            == x && records[i].position.unwrap().y == y;
    assert(after.contains_key(ids[first]) && after[ids[first]] == records[first]);
    assert(steers(after, ids[first]));
    assert forall|a: u64, b: u64| #[trigger] steers(after, a) && #[trigger] steers(after, b) implies a
        == b by {
        let i = choose|i: int| 0 <= i < ids.len() && ids[i] == a && after[a] == records[i];
        let j = choose|j: int| 0 <= j < ids.len() && ids[j] == b && after[b] == records[j];
        assert(from_level(records[i], rows) && from_level(records[j], rows));
        assert(collides(records[i]) && collides(records[j]));
        let (yi, xi) = (records[i].position.unwrap().y as int, records[i].position.unwrap().x as int);
        let (yj, xj) = (records[j].position.unwrap().y as int, records[j].position.unwrap().x as int);
        assert(rows[yi][xi] == Tile::Player);
        assert(rows[yj][xj] == Tile::Player);
    }
    let player = the_player(after);
    assert(steers(after, player));
    assert forall|id: u64| #[trigger] after.contains_key(id) implies !(after[id].movable
        && after[id].immovable) && (after[id].is_player() ==> after[id].movable) by {
        let i = choose|i: int| 0 <= i < ids.len() && ids[i] == id && after[id] == records[i];
        assert(from_level(records[i], rows));
    }
    assert forall|a: u64, b: u64| #[trigger] solid(after, a) && #[trigger] solid(after, b) && a != b
        implies after[a].position.unwrap().cell() != after[b].position.unwrap().cell() by {
        let i = choose|i: int| 0 <= i < ids.len() && ids[i] == a && after[a] == records[i];
        let j = choose|j: int| 0 <= j < ids.len() && ids[j] == b && after[b] == records[j];
        assert(collides(records[i]) && collides(records[j]));
    }
}

} // verus!
