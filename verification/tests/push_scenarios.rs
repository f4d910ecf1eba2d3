use hecs::{Entity, World};
use rust_sokoban::components::{Direction, Position};
use rust_sokoban::entities::{create_box, create_box_spot, create_floor, create_player, create_wall};
use rust_sokoban::grid::Bounds;
use rust_sokoban::systems::input::{apply_moves, push, run_input};

const ALL: [Direction; 4] = [Direction::Up, Direction::Down, Direction::Left, Direction::Right];

fn at(x: u8, y: u8) -> Position {
    Position { x, y, z: 0 }
}

fn delta(direction: Direction) -> (i16, i16) {
    match direction {
        Direction::Up => (0, -1),
        Direction::Down => (0, 1),
        Direction::Left => (-1, 0),
        Direction::Right => (1, 0),
    }
}

/// The cell `steps` steps from `(x, y)` in `direction`.
fn ahead(x: u8, y: u8, direction: Direction, steps: i16) -> (u8, u8) {
    let (dx, dy) = delta(direction);
    ((x as i16 + dx * steps) as u8, (y as i16 + dy * steps) as u8)
}

fn place(cell: (u8, u8)) -> Position {
    at(cell.0, cell.1)
}

fn cell_of(world: &World, id: u64) -> (u8, u8) {
    let entity = Entity::from_bits(id).unwrap();
    let position = world.get::<&Position>(entity).unwrap();
    (position.x, position.y)
}

fn layer_of(world: &World, id: u64) -> u8 {
    let entity = Entity::from_bits(id).unwrap();
    let position = world.get::<&Position>(entity).unwrap();
    position.z
}

/// Every position of the world, sorted by entity, to compare two states.
fn snapshot(world: &World) -> Vec<(u64, u8, u8, u8)> {
    let mut all: Vec<(u64, u8, u8, u8)> = world
        .query::<&Position>()
        .iter()
        .map(|(e, p)| (e.to_bits().get(), p.x, p.y, p.z))
        .collect();
    all.sort();
    all
}

#[test]
fn pushes_compose_tick_after_tick() {
    let mut world = World::new();
    for x in 0..4 {
        create_floor(&mut world, at(x, 0));
    }
    let player = create_player(&mut world, at(0, 0));
    let crate_ = create_box(&mut world, at(2, 0));

    run_input(&mut world, Some(Direction::Right));
    assert_eq!(cell_of(&world, player), (1, 0));
    assert_eq!(cell_of(&world, crate_), (2, 0));

    run_input(&mut world, Some(Direction::Right));
    assert_eq!(cell_of(&world, player), (2, 0));
    assert_eq!(cell_of(&world, crate_), (3, 0));
}

#[test]
fn box_against_wall_blocks_the_player() {
    let mut world = World::new();
    let player = create_player(&mut world, at(0, 0));
    let crate_ = create_box(&mut world, at(1, 0));
    let wall = create_wall(&mut world, at(2, 0));

    run_input(&mut world, Some(Direction::Right));
    assert_eq!(cell_of(&world, player), (0, 0));
    assert_eq!(cell_of(&world, crate_), (1, 0));
    assert_eq!(cell_of(&world, wall), (2, 0));
}

#[test]
fn player_steps_into_a_free_cell_in_every_direction() {
    for direction in ALL {
        let mut world = World::new();
        let player = create_player(&mut world, at(3, 3));
        let far_box = create_box(&mut world, at(6, 6));
        let far_wall = create_wall(&mut world, at(0, 0));
        let floor = create_floor(&mut world, place(ahead(3, 3, direction, 1)));
        let spot = create_box_spot(&mut world, place(ahead(3, 3, direction, 1)));

        run_input(&mut world, Some(direction));

        assert_eq!(cell_of(&world, player), ahead(3, 3, direction, 1));
        assert_eq!(cell_of(&world, far_box), (6, 6));
        assert_eq!(cell_of(&world, far_wall), (0, 0));
        assert_eq!(cell_of(&world, floor), ahead(3, 3, direction, 1));
        assert_eq!(cell_of(&world, spot), ahead(3, 3, direction, 1));
    }
}

#[test]
fn player_and_box_move_together_in_every_direction() {
    for direction in ALL {
        let mut world = World::new();
        let player = create_player(&mut world, at(3, 3));
        let crate_ = create_box(&mut world, place(ahead(3, 3, direction, 1)));
        let bystander = create_box(&mut world, at(6, 7));

        run_input(&mut world, Some(direction));

        assert_eq!(cell_of(&world, player), ahead(3, 3, direction, 1));
        assert_eq!(cell_of(&world, crate_), ahead(3, 3, direction, 2));
        assert_eq!(cell_of(&world, bystander), (6, 7));
    }
}

#[test]
fn a_move_keeps_the_layer() {
    let mut world = World::new();
    let player = create_player(&mut world, at(3, 3));
    let crate_ = create_box(&mut world, at(4, 3));
    run_input(&mut world, Some(Direction::Right));
    assert_eq!(layer_of(&world, player), 10);
    assert_eq!(layer_of(&world, crate_), 10);
}

#[test]
fn a_row_of_boxes_moves_as_a_whole() {
    for direction in ALL {
        let mut world = World::new();
        let player = create_player(&mut world, at(4, 4));
        let first = create_box(&mut world, place(ahead(4, 4, direction, 1)));
        let second = create_box(&mut world, place(ahead(4, 4, direction, 2)));

        run_input(&mut world, Some(direction));

        assert_eq!(cell_of(&world, player), ahead(4, 4, direction, 1));
        assert_eq!(cell_of(&world, first), ahead(4, 4, direction, 2));
        assert_eq!(cell_of(&world, second), ahead(4, 4, direction, 3));
    }
}

#[test]
fn boxes_against_a_wall_move_nothing() {
    for direction in ALL {
        for n in 0..3i16 {
            let mut world = World::new();
            let player = create_player(&mut world, at(4, 4));
            let mut boxes = Vec::new();
            for i in 1..=n {
                boxes.push(create_box(&mut world, place(ahead(4, 4, direction, i))));
            }
            let wall = create_wall(&mut world, place(ahead(4, 4, direction, n + 1)));
            let before = snapshot(&world);

            run_input(&mut world, Some(direction));

            assert_eq!(snapshot(&world), before);
            assert_eq!(cell_of(&world, player), (4, 4));
            assert_eq!(cell_of(&world, wall), ahead(4, 4, direction, n + 1));
            for (i, id) in boxes.iter().enumerate() {
                assert_eq!(cell_of(&world, *id), ahead(4, 4, direction, i as i16 + 1));
            }
        }
    }
}

#[test]
fn boxes_against_the_right_edge_move_nothing() {
    let mut world = World::new();
    let player = create_player(&mut world, at(5, 0));
    let first = create_box(&mut world, at(6, 0));
    let second = create_box(&mut world, at(7, 0));

    run_input(&mut world, Some(Direction::Right));

    assert_eq!(cell_of(&world, player), (5, 0));
    assert_eq!(cell_of(&world, first), (6, 0));
    assert_eq!(cell_of(&world, second), (7, 0));
}

#[test]
fn boxes_against_the_other_edges_move_nothing() {
    let cases = [
        (Direction::Left, (2, 3), (1, 3), (0, 3)),
        (Direction::Up, (3, 2), (3, 1), (3, 0)),
        (Direction::Down, (3, 6), (3, 7), (3, 8)),
    ];
    for (direction, start, near, far) in cases {
        let mut world = World::new();
        let player = create_player(&mut world, place(start));
        let first = create_box(&mut world, place(near));
        let second = create_box(&mut world, place(far));

        run_input(&mut world, Some(direction));

        assert_eq!(cell_of(&world, player), start);
        assert_eq!(cell_of(&world, first), near);
        assert_eq!(cell_of(&world, second), far);
    }
}

#[test]
fn the_player_alone_stops_at_every_edge() {
    let cases = [
        (Direction::Left, (0, 4)),
        (Direction::Right, (7, 4)),
        (Direction::Up, (4, 0)),
        (Direction::Down, (4, 8)),
    ];
    for (direction, start) in cases {
        let mut world = World::new();
        let player = create_player(&mut world, place(start));
        run_input(&mut world, Some(direction));
        assert_eq!(cell_of(&world, player), start);
    }
}

#[test]
fn the_last_cell_before_the_edge_can_be_entered() {
    let mut world = World::new();
    let player = create_player(&mut world, at(5, 7));
    let crate_ = create_box(&mut world, at(6, 7));
    run_input(&mut world, Some(Direction::Right));
    assert_eq!(cell_of(&world, player), (6, 7));
    assert_eq!(cell_of(&world, crate_), (7, 7));

    run_input(&mut world, Some(Direction::Down));
    assert_eq!(cell_of(&world, player), (6, 8));
    run_input(&mut world, Some(Direction::Down));
    assert_eq!(cell_of(&world, player), (6, 8));
}

#[test]
fn no_intent_changes_nothing() {
    let mut world = World::new();
    create_player(&mut world, at(1, 1));
    create_box(&mut world, at(2, 1));
    create_wall(&mut world, at(1, 2));
    create_floor(&mut world, at(1, 1));
    let before = snapshot(&world);

    run_input(&mut world, None);
    assert_eq!(snapshot(&world), before);
    run_input(&mut world, None);
    assert_eq!(snapshot(&world), before);
}

#[test]
fn a_wall_stops_the_push_for_what_lies_behind_it() {
    let mut world = World::new();
    let player = create_player(&mut world, at(0, 0));
    let wall = create_wall(&mut world, at(1, 0));
    let behind = create_box(&mut world, at(2, 0));

    run_input(&mut world, Some(Direction::Right));

    assert_eq!(cell_of(&world, player), (0, 0));
    assert_eq!(cell_of(&world, wall), (1, 0));
    assert_eq!(cell_of(&world, behind), (2, 0));
}

#[test]
fn a_world_without_a_player_stays_as_it_is() {
    let mut world = World::new();
    create_box(&mut world, at(2, 2));
    create_wall(&mut world, at(3, 2));
    let before = snapshot(&world);
    for direction in ALL {
        run_input(&mut world, Some(direction));
        assert_eq!(snapshot(&world), before);
    }
}

#[test]
fn a_player_off_the_field_does_not_move() {
    let mut world = World::new();
    let player = create_player(&mut world, at(20, 20));
    for direction in ALL {
        run_input(&mut world, Some(direction));
        assert_eq!(cell_of(&world, player), (20, 20));
    }
}

#[test]
fn the_field_of_a_push_can_be_chosen() {
    let mut world = World::new();
    let player = create_player(&mut world, at(0, 0));
    let crate_ = create_box(&mut world, at(1, 0));
    let narrow = Bounds { width: 2, height: 1 };
    push(&mut world, Direction::Right, narrow);
    assert_eq!(cell_of(&world, player), (0, 0));
    assert_eq!(cell_of(&world, crate_), (1, 0));

    let wider = Bounds { width: 3, height: 1 };
    push(&mut world, Direction::Right, wider);
    assert_eq!(cell_of(&world, player), (1, 0));
    assert_eq!(cell_of(&world, crate_), (2, 0));

    push(&mut world, Direction::Down, wider);
    assert_eq!(cell_of(&world, player), (1, 0));
}

#[test]
fn pushes_never_stack_two_entities_on_a_cell() {
    let mut world = World::new();
    let mut solid = vec![create_player(&mut world, at(3, 4))];
    for cell in [(4, 4), (5, 4), (3, 2), (3, 6), (1, 4)] {
        solid.push(create_box(&mut world, place(cell)));
    }
    for cell in [(7, 4), (3, 0), (3, 8), (0, 4)] {
        solid.push(create_wall(&mut world, place(cell)));
    }
    let walk = [
        Direction::Right,
        Direction::Right,
        Direction::Right,
        Direction::Left,
        Direction::Up,
        Direction::Up,
        Direction::Up,
        Direction::Down,
        Direction::Down,
        Direction::Down,
        Direction::Down,
        Direction::Left,
        Direction::Left,
        Direction::Left,
    ];
    for direction in walk {
        run_input(&mut world, Some(direction));
        let mut cells: Vec<(u8, u8)> = solid.iter().map(|id| cell_of(&world, *id)).collect();
        cells.sort();
        cells.dedup();
        assert_eq!(cells.len(), solid.len());
    }
}

#[test]
fn moves_are_made_one_after_the_other() {
    let mut world = World::new();
    let first = create_box(&mut world, at(2, 2));
    let second = create_box(&mut world, at(5, 5));
    let moves = vec![
        (first, Direction::Right),
        (second, Direction::Up),
        (first, Direction::Down),
    ];
    apply_moves(&mut world, &moves);
    assert_eq!(cell_of(&world, first), (3, 3));
    assert_eq!(cell_of(&world, second), (5, 4));
    assert_eq!(layer_of(&world, first), 10);
}
