use crate::components::Position;
use crate::store::Placed;
use std::collections::HashMap;
use vstd::prelude::*;

verus! {

/// The size of the playing field: cells `(x, y)` with `x < width` and `y < height`.
#[derive(Clone, Copy, Debug, PartialEq, Eq, Structural)]
pub struct Bounds {
    pub width: u8,
    pub height: u8,
}

impl Bounds {
    /// Whether the cell `(x, y)` lies on the field.
    pub open spec fn holds(self, x: int, y: int) -> bool {
        0 <= x < self.width && 0 <= y < self.height
    }

    /// Whether the cell `(x, y)` lies on the field.
    pub fn contains(&self, x: u8, y: u8) -> (inside: bool)
        ensures
            inside == self.holds(x as int, y as int),
    {
        x < self.width && y < self.height
    }
}

/// The occupants of the cells, from a list of placed entities: each cell on which an entry of
/// `placed` stands maps to the entity of the last such entry.
pub open spec fn index_of(placed: Seq<Placed>) -> Map<(u8, u8), u64>
    decreases placed.len(),
{
    if placed.len() == 0 {
        Map::empty()
    } else {
        index_of(placed.drop_last()).insert(placed.last().1.cell(), placed.last().0)
    }
}

/// A cell of `index_of(placed)` holds an entity of an entry of `placed` that stands on it, and
/// every entry's cell is in the index.
pub proof fn lemma_index_of(placed: Seq<Placed>)
    ensures
        forall|c: (u8, u8)| #[trigger]
            index_of(placed).contains_key(c) ==> exists|i: int|
                0 <= i < placed.len() && #[trigger] placed[i].1.cell() == c && placed[i].0
                    == index_of(placed)[c],
        forall|i: int|
            0 <= i < placed.len() ==> index_of(placed).contains_key(#[trigger] placed[i].1.cell()),
    decreases placed.len(),
{
    if placed.len() > 0 {
        let front = placed.drop_last();
        lemma_index_of(front);
        assert forall|c: (u8, u8)| #[trigger] index_of(placed).contains_key(c) implies exists|i: int|
            0 <= i < placed.len() && #[trigger] placed[i].1.cell() == c && placed[i].0 == index_of(
                placed,
            )[c] by {
            if c == placed.last().1.cell() {
                assert(placed[placed.len() - 1].1.cell() == c);
            } else {
                assert(index_of(front).contains_key(c));
                let i = choose|i: int|
                    0 <= i < front.len() && #[trigger] front[i].1.cell() == c && front[i].0
                        == index_of(front)[c];
                assert(placed[i].1.cell() == c);
            }
        }
        assert forall|i: int| 0 <= i < placed.len() implies index_of(placed).contains_key(
            #[trigger] placed[i].1.cell(),
        ) by {
            if i < placed.len() - 1 {
                assert(front[i] == placed[i]);
            }
        }
    }
}

/// The number under which the table of a `GridIndex` keeps the cell `(x, y)`.
pub open spec fn cell_key(c: (u8, u8)) -> u16 {
    (c.0 as int * 256 + c.1 as int) as u16
}

/// A lookup from grid cell to the entity that occupies it, valid for one tick.
pub struct GridIndex {
    table: HashMap<u16, u64>,
}

impl View for GridIndex {
    type V = Map<(u8, u8), u64>;

    closed spec fn view(&self) -> Map<(u8, u8), u64> {
        Map::new(|c: (u8, u8)| self.table@.contains_key(cell_key(c)), |c: (u8, u8)| self.table@[cell_key(c)])
    }
}

impl GridIndex {
    fn key(x: u8, y: u8) -> (k: u16)
        ensures
            k == cell_key((x, y)),
    {
        (x as u16) * 256 + (y as u16)
    }

    /// Builds the index of the entities in `placed`. Where several stand on one cell, the one
    /// listed last occupies it.
    pub fn build(placed: &Vec<Placed>) -> (index: GridIndex)
        ensures
            index@ == index_of(placed@),
    {
        broadcast use vstd::std_specs::hash::group_hash_axioms;

        let mut index = GridIndex { table: HashMap::new() };
        assert(index@ =~= index_of(placed@.take(0)));
        let mut i: usize = 0;
        while i < placed.len()
            invariant
                i <= placed.len(),
                index@ == index_of(placed@.take(i as int)),
            decreases placed.len() - i,
        {
            let (id, position) = placed[i];
            let ghost before = index@;
            index.table.insert(Self::key(position.x, position.y), id);
            proof {
                let next = placed@.take(i + 1);
                assert(next.drop_last() == placed@.take(i as int));
                assert(next.last() == placed@[i as int]);
                assert forall|c: (u8, u8)| #[trigger] cell_key(c) == cell_key(position.cell()) implies c
                    == position.cell() by {}
                assert(index@ =~= before.insert(position.cell(), id));
            }
            i += 1;
        }
        assert(placed@.take(placed.len() as int) == placed@);
        index
    }

    /// The entity that occupies the cell `(x, y)`, if any does.
    pub fn get(&self, x: u8, y: u8) -> (occupant: Option<u64>)
        ensures
            occupant == (if self@.contains_key((x, y)) {
                Some(self@[(x, y)])
            } else {
                None
            }),
    {
        broadcast use vstd::std_specs::hash::group_hash_axioms;

        match self.table.get(&Self::key(x, y)) {
            Some(id) => Some(*id),
            None => None,
        }
    }
}

} // verus!
