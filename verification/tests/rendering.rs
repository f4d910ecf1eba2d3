use hecs::World;
use rust_sokoban::components::{Direction, Position};
use rust_sokoban::entities::{create_box, create_box_spot, create_floor, create_player, create_wall};
use rust_sokoban::map::initialize_level;
use rust_sokoban::store::Sprite;
use rust_sokoban::systems::input::run_input;
use rust_sokoban::systems::rendering::{run_rendering, sort_by_layer};

fn sprite(entity: u64, z: u8) -> Sprite {
    Sprite { entity, position: Position { x: entity as u8, y: 0, z }, path: format!("/{}.png", entity) }
}

fn order(list: &Vec<Sprite>) -> Vec<u64> {
    list.iter().map(|s| s.entity).collect()
}

#[test]
fn sprites_are_ordered_by_layer() {
    let sorted = sort_by_layer(vec![sprite(1, 10), sprite(2, 5), sprite(3, 9), sprite(4, 0)]);
    assert_eq!(order(&sorted), vec![4, 2, 3, 1]);
    assert_eq!(sorted[0], sprite(4, 0));
    assert_eq!(sorted[3], sprite(1, 10));
}

#[test]
fn sprites_of_one_layer_keep_their_order() {
    let sorted = sort_by_layer(vec![
        sprite(1, 10),
        sprite(2, 5),
        sprite(3, 10),
        sprite(4, 5),
        sprite(5, 10),
        sprite(6, 5),
        sprite(7, 255),
        sprite(8, 0),
    ]);
    assert_eq!(order(&sorted), vec![8, 2, 4, 6, 1, 3, 5, 7]);
}

#[test]
fn sorting_nothing_gives_nothing() {
    assert_eq!(sort_by_layer(Vec::new()), vec![]);
    assert_eq!(sort_by_layer(vec![sprite(1, 3)]), vec![sprite(1, 3)]);
}

#[test]
fn the_draw_list_goes_from_the_floor_up() {
    let mut world = World::new();
    let here = Position { x: 1, y: 1, z: 0 };
    let player = create_player(&mut world, here);
    let spot = create_box_spot(&mut world, Position { x: 2, y: 1, z: 0 });
    let floor = create_floor(&mut world, here);
    let wall = create_wall(&mut world, Position { x: 0, y: 1, z: 0 });
    let crate_ = create_box(&mut world, Position { x: 2, y: 1, z: 0 });

    let list = run_rendering(&mut world);
    assert_eq!(list.len(), 5);
    assert_eq!(list[0], Sprite { entity: floor, position: Position { x: 1, y: 1, z: 5 }, path: "/images/floor.png".to_string() });
    assert_eq!(list[1], Sprite { entity: spot, position: Position { x: 2, y: 1, z: 9 }, path: "/images/box_spot.png".to_string() });
    let mut top = order(&list)[2..].to_vec();
    top.sort();
    let mut expected = vec![player, wall, crate_];
    expected.sort();
    assert_eq!(top, expected);
    for s in &list[2..] {
        assert_eq!(s.position.z, 10);
    }
    assert_eq!(world.len(), 5);
}

#[test]
fn the_draw_list_follows_the_moves() {
    let mut world = World::new();
    let player = create_player(&mut world, Position { x: 1, y: 1, z: 0 });
    run_input(&mut world, Some(Direction::Down));
    let list = run_rendering(&mut world);
    assert_eq!(
        list,
        vec![Sprite { entity: player, position: Position { x: 1, y: 2, z: 10 }, path: "/images/player.png".to_string() }]
    );
}

#[test]
fn an_entity_without_an_image_is_not_drawn() {
    let mut world = World::new();
    world.spawn((Position { x: 1, y: 1, z: 3 },));
    assert_eq!(run_rendering(&mut world), vec![]);
}

#[test]
fn the_level_of_the_game_is_drawn_whole() {
    let mut world = World::new();
    initialize_level(&mut world);
    let list = run_rendering(&mut world);
    assert_eq!(list.len(), 103);
    for pair in list.windows(2) {
        assert!(pair[0].position.z <= pair[1].position.z);
    }
    let layers: Vec<u8> = list.iter().map(|s| s.position.z).collect();
    assert_eq!(layers.iter().filter(|z| **z == 5).count(), 70);
    assert_eq!(layers.iter().filter(|z| **z == 9).count(), 1);
    assert_eq!(layers.iter().filter(|z| **z == 10).count(), 32);
    let mut ids = order(&list);
    ids.sort();
    ids.dedup();
    assert_eq!(ids.len(), 103);
}
