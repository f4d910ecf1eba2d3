use crate::store::{drawables, entities, shows, Sprite};
use hecs::World;
use vstd::prelude::*;

verus! {

/// Whether the layers of `list` never fall: what comes first is drawn first and lies below.
pub open spec fn back_to_front(list: Seq<Sprite>) -> bool {
    forall|i: int, j: int| 0 <= i < j < list.len() ==> list[i].position.z <= list[j].position.z
}

/// Whether some place of the new order holds what stood at `k`.
pub open spec fn taken(origin: Seq<int>, k: int) -> bool {
    exists|i: int| 0 <= i < origin.len() && #[trigger] origin[i] == k
}

/// Whether `to` holds the sprites of `from` in another order, `to[i]` being the one that
/// stood at `origin[i]`, each taken once and none left out.
pub open spec fn reorders(from: Seq<Sprite>, to: Seq<Sprite>, origin: Seq<int>) -> bool {
    &&& origin.len() == to.len()
    &&& from.len() == to.len()
    &&& forall|i: int|
        0 <= i < to.len() ==> 0 <= #[trigger] origin[i] < from.len() && to[i] == from[origin[i]]
    &&& forall|i: int, j: int| 0 <= i < j < to.len() ==> origin[i] != origin[j]
    &&& forall|k: int| 0 <= k < from.len() ==> #[trigger] taken(origin, k)
}

/// Whether sprites of one layer stand in `to` in the order in which they stood before.
pub open spec fn keeps_order(to: Seq<Sprite>, origin: Seq<int>) -> bool {
    forall|i: int, j: int|
        0 <= i < j < to.len() && to[i].position.z == to[j].position.z ==> origin[i] < origin[j]
}

/// Orders sprites by layer, lowest first. Sprites of one layer keep their order.
pub fn sort_by_layer(sprites: Vec<Sprite>) -> (sorted: Vec<Sprite>)
    ensures
        back_to_front(sorted@),
        exists|origin: Seq<int>| reorders(sprites@, sorted@, origin) && keeps_order(sorted@, origin),
{
    let ghost all = sprites@;
    let mut rest = sprites;
    let mut sorted: Vec<Sprite> = Vec::new();
    let ghost mut origin: Seq<int> = Seq::empty();
    loop
        invariant
            rest@ == all.take(rest@.len() as int),
            rest@.len() <= all.len(),
            origin.len() == sorted@.len(),
            sorted@.len() + rest@.len() == all.len(),
            forall|i: int|
                0 <= i < sorted@.len() ==> rest@.len() <= #[trigger] origin[i] < all.len() && sorted@[i]
                    == all[origin[i]],
            forall|i: int, j: int| 0 <= i < j < sorted@.len() ==> origin[i] != origin[j],
            forall|k: int| rest@.len() <= k < all.len() ==> #[trigger] taken(origin, k),
            back_to_front(sorted@),
            keeps_order(sorted@, origin),
        ensures
            rest@.len() == 0,
        decreases rest@.len(),
    {
        let ghost k = rest@.len() - 1;
        let sprite = match rest.pop() {
            Some(sprite) => sprite,
            None => {
                break ;
            },
        };
        assert(sprite == all[k]);
        let mut at: usize = 0;
        while at < sorted.len() && sorted[at].position.z < sprite.position.z
            invariant
                at <= sorted@.len(),
                forall|i: int| 0 <= i < at ==> sorted@[i].position.z < sprite.position.z,
            decreases sorted@.len() - at,
        {
            at += 1;
        }
        let ghost before = sorted@;
        let ghost origin_before = origin;
        sorted.insert(at, sprite);
        proof {
            origin = origin.insert(at as int, k);
            before.insert_ensures(at as int, sprite);
            origin_before.insert_ensures(at as int, k);
            assert forall|i: int| 0 <= i < sorted@.len() implies (if i < at {
                sorted@[i] == before[i] && origin[i] == origin_before[i]
            } else if i == at {
                sorted@[i] == sprite && origin[i] == k
            } else {
                sorted@[i] == before[i - 1] && origin[i] == origin_before[i - 1]
            }) by {}
            assert forall|m: int| k <= m < all.len() implies #[trigger] taken(origin, m) by {
                if m == k {
                    assert(origin[at as int] == k);
                } else {
                    assert(taken(origin_before, m));
                    let i = choose|i: int| 0 <= i < before.len() && #[trigger] origin_before[i] == m;
                    if i < at {
                        assert(origin[i] == m);
                    } else {
                        assert(origin[i + 1] == m);
                    }
                }
            }
            assert forall|i: int, j: int| 0 <= i < j < sorted@.len() implies origin[i] != origin[j]
                && sorted@[i].position.z <= sorted@[j].position.z && (sorted@[i].position.z
                == sorted@[j].position.z ==> origin[i] < origin[j]) by {
                let a = if i < at { i } else { i - 1 };
                let b = if j < at { j } else { j - 1 };
                if i != at && j != at {
                    assert(origin_before[a] != origin_before[b]);
                    assert(before[a].position.z <= before[b].position.z);
                } else if i == at {
                    assert(k < origin_before[b]);
                    if at < before.len() {
                        assert(before[at as int].position.z <= before[b].position.z || at as int == b);
                    }
                } else {
                    assert(k < origin_before[a]);
                }
            }
            assert(rest@ == all.take(rest@.len() as int));
        }
    }
    proof {
        assert(reorders(all, sorted@, origin));
    }
    sorted
}

/// Lists what is to be drawn, in drawing order: every entity of the world that has a
/// position and an image, once, lowest layer first.
pub fn run_rendering(world: &mut World) -> (list: Vec<Sprite>)
    ensures
        entities(*final(world)) == entities(*old(world)),
        shows(list@, entities(*old(world))),
        back_to_front(list@),
{
    let found = drawables(world);
    let ghost listed = found@;
    let list = sort_by_layer(found);
    proof {
        let m = entities(*world);
        let origin = choose|origin: Seq<int>| reorders(listed, list@, origin) && keeps_order(list@, origin);
        assert forall|id: u64| m.contains_key(id) && #[trigger] m[id].is_drawn() implies exists|i: int|
            0 <= i < list@.len() && (#[trigger] list@[i]).entity == id by {
            let k = choose|k: int| 0 <= k < listed.len() && (#[trigger] listed[k]).entity == id;
            assert(taken(origin, k));
            let i = choose|i: int| 0 <= i < list@.len() && #[trigger] origin[i] == k;
            assert(list@[i].entity == id);
        }
        assert forall|i: int| 0 <= i < list@.len() implies m.contains_key((#[trigger] list@[i]).entity)
            && m[list@[i].entity].position == Some(list@[i].position) && m[list@[i].entity].image
            == Some(list@[i].path@) by {
            assert(list@[i] == listed[origin[i]]);
        }
        assert forall|i: int, j: int| 0 <= i < j < list@.len() implies list@[i].entity
            != list@[j].entity by {
            assert(list@[i] == listed[origin[i]]);
            assert(list@[j] == listed[origin[j]]);
        }
    }
    list
}

} // verus!
