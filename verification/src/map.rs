use crate::components::Position;
use crate::entities::{create_box, create_box_spot, create_floor, create_player, create_wall};
use crate::store::{entities, fit_beside, new_world, room, Record};
use hecs::World;
use vstd::prelude::*;

verus! {

/// What a level puts on one cell.
#[derive(Clone, Copy, Debug, PartialEq, Eq, Structural)]
pub enum Tile {
    /// `.`: floor.
    Floor,
    /// `W`: floor with a wall on it.
    Wall,
    /// `P`: floor on which the player starts.
    Player,
    /// `B`: floor with a box on it.
    Crate,
    /// `S`: floor with a box spot on it.
    Spot,
    /// `N`: nothing at all.
    Void,
}

/// Why a text is no level.
#[derive(Clone, Copy, Debug, PartialEq, Eq, Structural)]
pub enum LevelError {
    /// The token at this row and column, both counted from zero, names no tile.
    UnknownTile { row: usize, column: usize },
    /// The level has more than 256 rows, or a row of more than 256 tiles: the coordinates of a
    /// cell are single bytes.
    TooLarge,
}

/// Whether `c` is white space, as Unicode defines it: the characters with the property
/// `White_Space`.
pub open spec fn is_space(c: char) -> bool {
    ('\u{9}' <= c && c <= '\u{d}') || c == ' ' || c == '\u{85}' || c == '\u{a0}' || c == '\u{1680}'
        || ('\u{2000}' <= c && c <= '\u{200a}') || c == '\u{2028}' || c == '\u{2029}' || c
        == '\u{202f}' || c == '\u{205f}' || c == '\u{3000}'
}

/// `s` without the white space at its start.
pub open spec fn trim_start(s: Seq<char>) -> Seq<char>
    decreases s.len(),
{
    if s.len() > 0 && is_space(s[0]) {
        trim_start(s.drop_first())
    } else {
        s
    }
}

/// `s` without the white space at its end.
pub open spec fn trim_end(s: Seq<char>) -> Seq<char>
    decreases s.len(),
{
    if s.len() > 0 && is_space(s.last()) {
        trim_end(s.drop_last())
    } else {
        s
    }
}

/// `s` without the white space at its start and at its end.
pub open spec fn trimmed(s: Seq<char>) -> Seq<char> {
    trim_end(trim_start(s))
}

/// The pieces of `s` between the occurrences of `sep`, in order: one more piece than there
/// are occurrences, each free of `sep`, some perhaps empty.
pub open spec fn split(s: Seq<char>, sep: char) -> Seq<Seq<char>>
    decreases s.len(),
{
    if s.len() == 0 {
        seq![Seq::empty()]
    } else {
        let front = split(s.drop_last(), sep);
        if s.last() == sep {
            front.push(Seq::empty())
        } else {
            front.drop_last().push(front.last().push(s.last()))
        }
    }
}

/// The tokens of one line: the line is trimmed, and its tokens are what single blanks
/// separate.
pub open spec fn tokens_of_line(line: Seq<char>) -> Seq<Seq<char>> {
    split(trimmed(line), ' ')
}

/// The tokens of a text, row by row: the text is trimmed, its lines are what line feeds
/// separate, and each line holds the tokens of one row.
pub open spec fn tokens_of(text: Seq<char>) -> Seq<Seq<Seq<char>>> {
    split(trimmed(text), '\n').map_values(|line: Seq<char>| tokens_of_line(line))
}

/// The tile that a token names, if it names one.
pub open spec fn tile_of(token: Seq<char>) -> Option<Tile> {
    if token.len() != 1 {
        None
    } else if token[0] == '.' {
        Some(Tile::Floor)
    } else if token[0] == 'W' {
        Some(Tile::Wall)
    } else if token[0] == 'P' {
        Some(Tile::Player)
    } else if token[0] == 'B' {
        Some(Tile::Crate)
    } else if token[0] == 'S' {
        Some(Tile::Spot)
    } else if token[0] == 'N' {
        Some(Tile::Void)
    } else {
        None
    }
}

/// The tiles of a row of tokens, or the column of the first token that names no tile.
pub open spec fn scan_row(tokens: Seq<Seq<char>>) -> Result<Seq<Tile>, int>
    decreases tokens.len(),
{
    if tokens.len() == 0 {
        Ok(Seq::empty())
    } else {
        match scan_row(tokens.drop_last()) {
            Err(column) => Err(column),
            Ok(tiles) => match tile_of(tokens.last()) {
                Some(tile) => Ok(tiles.push(tile)),
                None => Err(tokens.len() - 1),
            },
        }
    }
}

/// The rows of tiles of rows of tokens, or the place of the first token, in reading order,
/// that names no tile.
pub open spec fn scan_rows(rows: Seq<Seq<Seq<char>>>) -> Result<Seq<Seq<Tile>>, LevelError>
    decreases rows.len(),
{
    if rows.len() == 0 {
        Ok(Seq::empty())
    } else {
        match scan_rows(rows.drop_last()) {
            Err(e) => Err(e),
            Ok(above) => match scan_row(rows.last()) {
                Ok(tiles) => Ok(above.push(tiles)),
                Err(column) => Err(
                    LevelError::UnknownTile { row: (rows.len() - 1) as usize, column: column as usize },
                ),
            },
        }
    }
}

/// Whether every tile of `rows` has coordinates that fit a cell.
pub open spec fn fits(rows: Seq<Seq<Tile>>) -> bool {
    rows.len() <= 256 && forall|y: int| 0 <= y < rows.len() ==> (#[trigger] rows[y]).len() <= 256
}

/// The level that a text describes. The first token, in reading order, that names no tile
/// makes the text invalid; a text of known tokens whose rows do not fit the coordinates is
/// too large.
pub open spec fn parsed(text: Seq<char>) -> Result<Seq<Seq<Tile>>, LevelError> {
    match scan_rows(tokens_of(text)) {
        Err(e) => Err(e),
        Ok(rows) => if fits(rows) {
            Ok(rows)
        } else {
            Err(LevelError::TooLarge)
        },
    }
}

/// The contents of the vectors of `pieces`.
pub open spec fn views<T>(pieces: Seq<Vec<T>>) -> Seq<Seq<T>> {
    pieces.map_values(|piece: Vec<T>| piece@)
}

/// The contents of rows of vectors.
pub open spec fn grid<T>(rows: Seq<Vec<Vec<T>>>) -> Seq<Seq<Seq<T>>> {
    rows.map_values(|row: Vec<Vec<T>>| views(row@))
}

/// Whether `c` is white space.
pub fn is_blank(c: char) -> (blank: bool)
    ensures
        blank == is_space(c),
{
    ('\u{9}' <= c && c <= '\u{d}') || c == ' ' || c == '\u{85}' || c == '\u{a0}' || c == '\u{1680}'
        || ('\u{2000}' <= c && c <= '\u{200a}') || c == '\u{2028}' || c == '\u{2029}' || c
        == '\u{202f}' || c == '\u{205f}' || c == '\u{3000}'
}

/// The characters of `text`.
pub fn chars_of(text: &str) -> (chars: Vec<char>)
    ensures
        chars@ == text@,
{
    let mut chars: Vec<char> = Vec::new();
    for c in it: text.chars()
        invariant
            it.seq() == text@,
            chars@ == it.seq().take(it.index() as int),
    {
        chars.push(c);
    }
    chars
}

/// Copies `text` without the white space at its start and at its end.
pub fn trim(text: &[char]) -> (kept: Vec<char>)
    ensures
        kept@ == trimmed(text@),
{
    let len = text.len();
    let mut from: usize = 0;
    assert(text@.subrange(0, len as int) == text@);
    while from < len && is_blank(text[from])
        invariant
            from <= len == text@.len(),
            trim_start(text@) == trim_start(text@.subrange(from as int, len as int)),
        decreases len - from,
    {
        assert(text@.subrange(from as int, len as int).drop_first() == text@.subrange(
            from + 1,
            len as int,
        ));
        from += 1;
    }
    let mut to: usize = len;
    while to > from && is_blank(text[to - 1])
        invariant
            from <= to <= len == text@.len(),
            trim_end(text@.subrange(from as int, len as int)) == trim_end(
                text@.subrange(from as int, to as int),
            ),
        decreases to - from,
    {
        assert(text@.subrange(from as int, to as int).drop_last() == text@.subrange(
            from as int,
            to - 1,
        ));
        to -= 1;
    }
    let mut kept: Vec<char> = Vec::new();
    let mut i: usize = from;
    while i < to
        invariant
            from <= i <= to <= text@.len(),
            kept@ == text@.subrange(from as int, i as int),
        decreases to - i,
    {
        kept.push(text[i]);
        assert(kept@ == text@.subrange(from as int, i + 1));
        i += 1;
    }
    kept
}

/// Copies the pieces of `text` between the occurrences of `sep`.
pub fn split_at_each(text: &[char], sep: char) -> (pieces: Vec<Vec<char>>)
    ensures
        views(pieces@) == split(text@, sep),
{
    let mut pieces: Vec<Vec<char>> = Vec::new();
    let mut current: Vec<char> = Vec::new();
    let mut i: usize = 0;
    assert(views(pieces@).push(current@) =~= split(text@.take(0), sep));
    while i < text.len()
        invariant
            i <= text@.len(),
            views(pieces@).push(current@) == split(text@.take(i as int), sep),
        decreases text.len() - i,
    {
        let c = text[i];
        let ghost done = views(pieces@);
        let ghost open = current@;
        proof {
            assert(text@.take(i + 1).drop_last() == text@.take(i as int));
            assert(text@.take(i + 1).last() == c);
            assert(done.push(open).drop_last() =~= done);
        }
        if c == sep {
            pieces.push(current);
            current = Vec::new();
            assert(views(pieces@) =~= done.push(open));
        } else {
            current.push(c);
        }
        i += 1;
    }
    assert(text@.take(text@.len() as int) == text@);
    let ghost done = views(pieces@);
    pieces.push(current);
    assert(views(pieces@) =~= done.push(current@));
    pieces
}

/// Reads the tokens of a text, row by row.
pub fn tokens(text: &str) -> (rows: Vec<Vec<Vec<char>>>)
    ensures
        grid(rows@) == tokens_of(text@),
{
    let all = chars_of(text);
    let body = trim(all.as_slice());
    let lines = split_at_each(body.as_slice(), '\n');
    let mut rows: Vec<Vec<Vec<char>>> = Vec::new();
    let mut y: usize = 0;
    while y < lines.len()
        invariant
            y <= lines.len(),
            views(lines@) == split(trimmed(text@), '\n'),
            rows@.len() == y,
            forall|k: int| 0 <= k < y ==> views((#[trigger] rows@[k])@) == tokens_of_line(lines@[k]@),
        decreases lines.len() - y,
    {
        let line = trim(lines[y].as_slice());
        let row = split_at_each(line.as_slice(), ' ');
        rows.push(row);
        y += 1;
    }
    assert(grid(rows@) =~= tokens_of(text@));
    rows
}

/// Reads one token.
pub fn read_tile(token: &[char]) -> (tile: Option<Tile>)
    ensures
        tile == tile_of(token@),
{
    if token.len() != 1 {
        None
    } else if token[0] == '.' {
        Some(Tile::Floor)
    } else if token[0] == 'W' {
        Some(Tile::Wall)
    } else if token[0] == 'P' {
        Some(Tile::Player)
    } else if token[0] == 'B' {
        Some(Tile::Crate)
    } else if token[0] == 'S' {
        Some(Tile::Spot)
    } else if token[0] == 'N' {
        Some(Tile::Void)
    } else {
        None
    }
}

/// Reads a level from its text.
///
/// The text holds one row per line, and in each row one token per cell, with single blanks
/// between them: `.` floor, `W` wall, `P` player, `B` box, `S` box spot, `N` nothing. White
/// space around the text and around each line is skipped. A text with a token that names no
/// tile is refused with the place of the first such token, which `tokens` holds at that
/// place.
pub fn parse_level(text: &str) -> (level: Result<Vec<Vec<Tile>>, LevelError>)
    ensures
        match level {
            Ok(rows) => parsed(text@) == Ok::<Seq<Seq<Tile>>, LevelError>(views(rows@)),
            Err(e) => parsed(text@) == Err::<Seq<Seq<Tile>>, LevelError>(e),
        },
        level matches Err(LevelError::UnknownTile { row, column }) ==> row < tokens_of(text@).len()
            && column < tokens_of(text@)[row as int].len() && tile_of(
            tokens_of(text@)[row as int][column as int],
        ) is None,
{
    let lines = tokens(text);
    let ghost all = grid(lines@);
    let mut rows: Vec<Vec<Tile>> = Vec::new();
    let mut y: usize = 0;
    assert(all.take(0) =~= Seq::empty());
    assert(views(rows@) =~= Seq::empty());
    while y < lines.len()
        invariant
            y <= lines.len(),
            all == grid(lines@),
            all == tokens_of(text@),
            scan_rows(all.take(y as int)) == Ok::<Seq<Seq<Tile>>, LevelError>(views(rows@)),
        decreases lines.len() - y,
    {
        let row = &lines[y];
        let mut tiles: Vec<Tile> = Vec::new();
        let mut x: usize = 0;
        proof {
            assert(all.take(y + 1).drop_last() == all.take(y as int));
            assert(all.take(y + 1).last() == views(row@));
            assert(views(row@).take(0) =~= Seq::empty());
        }
        while x < row.len()
            invariant
                x <= row.len(),
                y < lines.len(),
                all == grid(lines@),
                all == tokens_of(text@),
                all.take(y + 1).drop_last() == all.take(y as int),
                all.take(y + 1).last() == views(row@),
                scan_rows(all.take(y as int)) == Ok::<Seq<Seq<Tile>>, LevelError>(views(rows@)),
                scan_row(views(row@).take(x as int)) == Ok::<Seq<Tile>, int>(tiles@),
            decreases row.len() - x,
        {
            proof {
                assert(views(row@).take(x + 1).drop_last() == views(row@).take(x as int));
                assert(views(row@).take(x + 1).last() == row@[x as int]@);
            }
            match read_tile(row[x].as_slice()) {
                Some(tile) => {
                    tiles.push(tile);
                },
                None => {
                    proof {
                        lemma_scan_row_fails(views(row@), x + 1);
                        lemma_scan_rows_fails(all, y + 1);
                        assert(all[y as int] == views(row@));
                    }
                    return Err(LevelError::UnknownTile { row: y, column: x });
                },
            }
            x += 1;
        }
        let ghost done = views(rows@);
        rows.push(tiles);
        proof {
            assert(views(row@).take(row@.len() as int) == views(row@));
            assert(views(rows@) =~= done.push(tiles@));
        }
        y += 1;
    }
    assert(all.take(all.len() as int) == all);
    if rows.len() > 256 {
        return Err(LevelError::TooLarge);
    }
    let mut k: usize = 0;
    while k < rows.len()
        invariant
            k <= rows.len() <= 256,
            scan_rows(tokens_of(text@)) == Ok::<Seq<Seq<Tile>>, LevelError>(views(rows@)),
            forall|j: int| 0 <= j < k ==> (#[trigger] views(rows@)[j]).len() <= 256,
        decreases rows.len() - k,
    {
        if rows[k].len() > 256 {
            assert(views(rows@)[k as int].len() > 256);
            return Err(LevelError::TooLarge);
        }
        k += 1;
    }
    Ok(rows)
}

/// A row that fails within its first `k` tokens fails as a whole, at the same column.
pub proof fn lemma_scan_row_fails(tokens: Seq<Seq<char>>, k: int)
    requires
        0 <= k <= tokens.len(),
        scan_row(tokens.take(k)) is Err,
    ensures
        scan_row(tokens) == scan_row(tokens.take(k)),
    decreases tokens.len(),
{
    if k < tokens.len() {
        assert(tokens.drop_last().take(k) == tokens.take(k));
        lemma_scan_row_fails(tokens.drop_last(), k);
    } else {
        assert(tokens.take(k) == tokens);
    }
}

/// A level that fails within its first `k` rows fails as a whole, at the same place.
pub proof fn lemma_scan_rows_fails(rows: Seq<Seq<Seq<char>>>, k: int)
    requires
        0 <= k <= rows.len(),
        scan_rows(rows.take(k)) is Err,
    ensures
        scan_rows(rows) == scan_rows(rows.take(k)),
    decreases rows.len(),
{
    if k < rows.len() {
        assert(rows.drop_last().take(k) == rows.take(k));
        lemma_scan_rows_fails(rows.drop_last(), k);
    } else {
        assert(rows.take(k) == rows);
    }
}

/// The entities that a tile puts on the cell of `position`, in the order in which they are
/// made: the floor first, then what stands on it.
pub open spec fn records_of_tile(tile: Tile, position: Position) -> Seq<Record> {
    match tile {
        Tile::Floor => seq![Record::floor(position)],
        Tile::Wall => seq![Record::floor(position), Record::wall(position)],
        Tile::Player => seq![Record::floor(position), Record::player(position)],
        Tile::Crate => seq![Record::floor(position), Record::crate_(position)],
        Tile::Spot => seq![Record::floor(position), Record::box_spot(position)],
        Tile::Void => Seq::empty(),
    }
}

/// The entities of the row `y` of a level, tile by tile from the left.
pub open spec fn records_of_row(row: Seq<Tile>, y: u8) -> Seq<Record>
    decreases row.len(),
{
    if row.len() == 0 {
        Seq::empty()
    } else {
        records_of_row(row.drop_last(), y) + records_of_tile(
            row.last(),
            Position { x: (row.len() - 1) as u8, y, z: 0 },
        )
    }
}

/// The entities of a level, row by row from the top.
pub open spec fn records_of(rows: Seq<Seq<Tile>>) -> Seq<Record>
    decreases rows.len(),
{
    if rows.len() == 0 {
        Seq::empty()
    } else {
        records_of(rows.drop_last()) + records_of_row(rows.last(), (rows.len() - 1) as u8)
    }
}

/// Whether `after` is `before` with the new entities `ids`, which hold `records` in the same
/// order, and with nothing else changed.
pub open spec fn added(
    before: Map<u64, Record>,
    after: Map<u64, Record>,
    ids: Seq<u64>,
    records: Seq<Record>,
) -> bool {
    &&& ids.len() == records.len()
    &&& ids.no_duplicates()
    &&& forall|i: int|
        0 <= i < ids.len() ==> !before.contains_key(#[trigger] ids[i]) && after.contains_key(ids[i])
            && after[ids[i]] == records[i]
    &&& forall|id: u64| #[trigger]
        before.contains_key(id) ==> after.contains_key(id) && after[id] == before[id]
    &&& forall|id: u64| #[trigger] after.contains_key(id) ==> before.contains_key(id) || ids.contains(id)
}

/// Entities added in two goes are added.
pub proof fn lemma_added_twice(
    before: Map<u64, Record>,
    between: Map<u64, Record>,
    after: Map<u64, Record>,
    first: Seq<u64>,
    first_records: Seq<Record>,
    second: Seq<u64>,
    second_records: Seq<Record>,
)
    requires
        added(before, between, first, first_records),
        added(between, after, second, second_records),
    ensures
        added(before, after, first + second, first_records + second_records),
{
    let ids = first + second;
    assert forall|i: int, j: int| 0 <= i < j < ids.len() implies ids[i] != ids[j] by {
        if i < first.len() && j >= first.len() {
            assert(between.contains_key(first[i]));
            assert(!between.contains_key(second[j - first.len()]));
        }
    }
    assert forall|i: int| 0 <= i < ids.len() implies !before.contains_key(#[trigger] ids[i])
        && after.contains_key(ids[i]) && after[ids[i]] == (first_records + second_records)[i] by {
        if i < first.len() {
            assert(between.contains_key(first[i]));
        } else {
            let id = second[i - first.len()];
            assert(!between.contains_key(id));
        }
    }
    assert forall|id: u64| #[trigger] after.contains_key(id) implies before.contains_key(id)
        || ids.contains(id) by {
        if between.contains_key(id) {
            if !before.contains_key(id) {
                let i = choose|i: int| 0 <= i < first.len() && first[i] == id;
                assert(ids[i] == id);
            }
        } else {
            let j = choose|j: int| 0 <= j < second.len() && second[j] == id;
            assert(ids[first.len() + j] == id);
        }
    }
}

/// Adding entities to a finite world makes it larger by their number.
pub proof fn lemma_added_len(
    before: Map<u64, Record>,
    after: Map<u64, Record>,
    ids: Seq<u64>,
    records: Seq<Record>,
)
    requires
        added(before, after, ids, records),
        before.dom().finite(),
    ensures
        after.dom().finite(),
        after.dom().len() == before.dom().len() + ids.len(),
{
    ids.unique_seq_to_set();
    let fresh = ids.to_set();
    assert(before.dom().disjoint(fresh)) by {
        assert forall|id: u64| before.dom().contains(id) implies !fresh.contains(id) by {
            if fresh.contains(id) {
                let i = choose|i: int| 0 <= i < ids.len() && ids[i] == id;
                assert(!before.contains_key(ids[i]));
            }
        }
    }
    vstd::set_lib::lemma_set_disjoint_lens(before.dom(), fresh);
    assert(after.dom() =~= before.dom() + fresh) by {
        assert forall|id: u64| after.dom().contains(id) <==> (before.dom() + fresh).contains(id) by {
            if fresh.contains(id) {
                let i = choose|i: int| 0 <= i < ids.len() && ids[i] == id;
                assert(after.contains_key(ids[i]));
            }
        }
    }
}

/// The first `k` rows of a level hold no more entities than the level.
pub proof fn lemma_records_prefix(rows: Seq<Seq<Tile>>, k: int)
    requires
        0 <= k <= rows.len(),
    ensures
        records_of(rows.take(k)).len() <= records_of(rows).len(),
    decreases rows.len(),
{
    if k < rows.len() {
        assert(rows.drop_last().take(k) == rows.take(k));
        lemma_records_prefix(rows.drop_last(), k);
    } else {
        assert(rows.take(k) == rows);
    }
}

/// The first `k` tiles of a row hold no more entities than the row.
pub proof fn lemma_row_prefix(row: Seq<Tile>, y: u8, k: int)
    requires
        0 <= k <= row.len(),
    ensures
        records_of_row(row.take(k), y).len() <= records_of_row(row, y).len(),
    decreases row.len(),
{
    if k < row.len() {
        assert(row.drop_last().take(k) == row.take(k));
        lemma_row_prefix(row.drop_last(), y, k);
    } else {
        assert(row.take(k) == row);
    }
}

/// One new entity is added.
pub proof fn lemma_added_one(before: Map<u64, Record>, id: u64, record: Record)
    requires
        !before.contains_key(id),
    ensures
        added(before, before.insert(id, record), seq![id], seq![record]),
{
    assert(seq![id][0] == id);
}

/// Makes the entities of one tile on the cell of `position`. Returns their numbers, in the
/// order in which they were made.
pub fn place_tile(world: &mut World, tile: Tile, position: Position) -> (ids: Vec<u64>)
    requires
        room(*old(world), records_of_tile(tile, position).len()),
    ensures
        added(entities(*old(world)), entities(*final(world)), ids@, records_of_tile(tile, position)),
{
    let ghost start = entities(*world);
    let mut ids: Vec<u64> = Vec::new();
    if let Tile::Void = tile {
        return ids;
    }
    let floor = create_floor(world, position);
    ids.push(floor);
    let ghost between = entities(*world);
    proof {
        lemma_added_one(start, floor, Record::floor(position));
        assert(ids@ =~= seq![floor]);
    }
    let piece = match tile {
        Tile::Wall => create_wall(world, position),
        Tile::Player => create_player(world, position),
        Tile::Crate => create_box(world, position),
        Tile::Spot => create_box_spot(world, position),
        _ => {
            return ids;
        },
    };
    ids.push(piece);
    proof {
        let records = records_of_tile(tile, position);
        lemma_added_one(between, piece, records[1]);
        lemma_added_twice(
            start,
            between,
            entities(*world),
            seq![floor],
            seq![Record::floor(position)],
            seq![piece],
            seq![records[1]],
        );
        assert(ids@ =~= seq![floor] + seq![piece]);
        assert(records =~= seq![Record::floor(position)] + seq![records[1]]);
    }
    ids
}

/// Makes the entities of a level, row by row from the top and tile by tile from the left: the
/// tile in row `y` and column `x` stands on the cell `(x, y)`. Returns the numbers of the new
/// entities, in the order in which they were made.
pub fn place_level(world: &mut World, rows: &Vec<Vec<Tile>>) -> (ids: Vec<u64>)
    requires
        fits(views(rows@)),
        room(*old(world), records_of(views(rows@)).len()),
    ensures
        added(entities(*old(world)), entities(*final(world)), ids@, records_of(views(rows@))),
{
    let ghost start = entities(*world);
    let ghost level = views(rows@);
    let mut ids: Vec<u64> = Vec::new();
    let mut y: usize = 0;
    assert(level.take(0) =~= Seq::empty());
    while y < rows.len()
        invariant
            y <= rows.len(),
            level == views(rows@),
            fits(level),
            fit_beside(start, records_of(level).len()),
            added(start, entities(*world), ids@, records_of(level.take(y as int))),
        decreases rows.len() - y,
    {
        let row = &rows[y];
        let ghost above = records_of(level.take(y as int));
        let mut x: usize = 0;
        proof {
            assert(level.take(y + 1).drop_last() == level.take(y as int));
            assert(level.take(y + 1).last() == row@);
            assert(level[y as int] == row@);
            assert(row@.take(0) =~= Seq::empty());
            assert(above + Seq::<Record>::empty() =~= above);
            lemma_records_prefix(level, y + 1);
        }
        while x < row.len()
            invariant
                x <= row.len() <= 256,
                y < 256,
                fit_beside(start, records_of(level).len()),
                above.len() + records_of_row(row@, y as u8).len() <= records_of(level).len(),
                added(start, entities(*world), ids@, above + records_of_row(row@.take(x as int), y as u8)),
            decreases row.len() - x,
        {
            let ghost before = entities(*world);
            let ghost left = records_of_row(row@.take(x as int), y as u8);
            let position = Position { x: x as u8, y: y as u8, z: 0 };
            proof {
                assert(row@.take(x + 1).drop_last() == row@.take(x as int));
                assert(row@.take(x + 1).last() == row@[x as int]);
                lemma_row_prefix(row@, y as u8, x + 1);
                lemma_added_len(start, before, ids@, above + left);
            }
            let mut made = place_tile(world, row[x], position);
            proof {
                lemma_added_twice(
                    start,
                    before,
                    entities(*world),
                    ids@,
                    above + left,
                    made@,
                    records_of_tile(row@[x as int], position),
                );
                assert((above + left) + records_of_tile(row@[x as int], position) =~= above + (left
                    + records_of_tile(row@[x as int], position)));
            }
            ids.append(&mut made);
            x += 1;
        }
        assert(row@.take(row@.len() as int) == row@);
        y += 1;
    }
    assert(level.take(level.len() as int) == level);
    ids
}

/// The first `k` tiles of a row make at most two entities each.
pub proof fn lemma_row_count(row: Seq<Tile>, y: u8)
    ensures
        records_of_row(row, y).len() <= 2 * row.len(),
    decreases row.len(),
{
    if row.len() > 0 {
        lemma_row_count(row.drop_last(), y);
    }
}

/// A level that fits the coordinates makes at most 131072 entities: two for each cell.
pub proof fn lemma_level_count(rows: Seq<Seq<Tile>>)
    requires
        fits(rows),
    ensures
        records_of(rows).len() <= 512 * rows.len() <= 131072,
    decreases rows.len(),
{
    if rows.len() > 0 {
        assert(rows.drop_last().len() == rows.len() - 1);
        assert forall|y: int| 0 <= y < rows.drop_last().len() implies (#[trigger] rows.drop_last()[y]).len()
            <= 256 by {
            assert(rows.drop_last()[y] == rows[y]);
        }
        lemma_level_count(rows.drop_last());
        lemma_row_count(rows.last(), (rows.len() - 1) as u8);
        assert(rows.last() == rows[rows.len() - 1]);
    }
}

/// How many entities a level makes.
pub fn entity_count(rows: &Vec<Vec<Tile>>) -> (count: usize)
    requires
        fits(views(rows@)),
    ensures
        count == records_of(views(rows@)).len(),
{
    let ghost level = views(rows@);
    let mut count: usize = 0;
    let mut y: usize = 0;
    assert(level.take(0) =~= Seq::empty());
    while y < rows.len()
        invariant
            y <= rows.len() <= 256,
            level == views(rows@),
            fits(level),
            count == records_of(level.take(y as int)).len(),
            count <= 512 * y,
        decreases rows.len() - y,
    {
        let row = &rows[y];
        let ghost above = count;
        let mut x: usize = 0;
        proof {
            assert(level.take(y + 1).drop_last() == level.take(y as int));
            assert(level.take(y + 1).last() == row@);
            assert(level[y as int] == row@);
            assert(row@.take(0) =~= Seq::empty());
        }
        while x < row.len()
            invariant
                x <= row.len() <= 256,
                y < 256,
                above <= 512 * y,
                count == above + records_of_row(row@.take(x as int), y as u8).len(),
                count <= above + 2 * x,
            decreases row.len() - x,
        {
            proof {
                assert(row@.take(x + 1).drop_last() == row@.take(x as int));
                assert(row@.take(x + 1).last() == row@[x as int]);
            }
            match row[x] {
                Tile::Void => {},
                Tile::Floor => {
                    count += 1;
                },
                _ => {
                    count += 2;
                },
            }
            x += 1;
        }
        assert(row@.take(row@.len() as int) == row@);
        y += 1;
    }
    assert(level.take(level.len() as int) == level);
    count
}

/// Whether `text` describes a level, and `world` has room for its entities.
pub open spec fn loadable(world: World, text: Seq<char>) -> bool {
    parsed(text) is Ok && room(world, records_of(parsed(text).unwrap()).len())
}

/// Whether `after` is `before` with the entities of the level that `text` describes, and
/// with nothing else changed.
pub open spec fn loaded(before: Map<u64, Record>, after: Map<u64, Record>, text: Seq<char>) -> bool {
    exists|ids: Seq<u64>| added(before, after, ids, records_of(parsed(text).unwrap()))
}

/// Loads the level that `map_string` describes into `world`. The text must describe a level:
/// `parse_level` tells.
pub fn laod_map(world: &mut World, map_string: String)
    requires
        loadable(*old(world), map_string@),
    ensures
        loaded(entities(*old(world)), entities(*final(world)), map_string@),
{
    if let Ok(rows) = parse_level(map_string.as_str()) {
        place_level(world, &rows);
    }
}

/// Makes a world that holds the level that `map_string` describes, and nothing else; or
/// says why the text describes no level.
pub fn load_world(map_string: String) -> (outcome: Result<World, LevelError>)
    ensures
        match outcome {
            Ok(world) => parsed(map_string@) is Ok && loaded(Map::empty(), entities(world), map_string@),
            Err(e) => parsed(map_string@) == Err::<Seq<Seq<Tile>>, LevelError>(e),
        },
{
    match parse_level(map_string.as_str()) {
        Ok(rows) => {
            let mut world = new_world();
            proof {
                lemma_level_count(views(rows@));
                assert(entities(world).dom() =~= Set::empty());
            }
            laod_map(&mut world, map_string);
            Ok(world)
        },
        Err(e) => Err(e),
    }
}

/// The level of the game.
pub const LEVEL: &'static str = "
    N N W W W W W W
    W W W . . . . W
    W . . . B . . W
    W . . . . . . W 
    W . P . . . . W
    W . . . . . . W
    W . . S . . . W
    W . . . . . . W
    W W W W W W W W
    ";

/// Loads the level of the game into `world`.
pub fn initialize_level(world: &mut World)
    requires
        loadable(*old(world), LEVEL@),
    ensures
        loaded(entities(*old(world)), entities(*final(world)), LEVEL@),
{
    laod_map(world, LEVEL.to_owned())
}

} // verus!
