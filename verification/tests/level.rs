use hecs::{Entity, World};
use rust_sokoban::components::{
    Box, BoxSpot, Direction, Immovable, Movable, Player, Position, Renderable, Wall,
};
use rust_sokoban::entities::{create_box, create_box_spot, create_floor, create_player, create_wall};
use rust_sokoban::systems::input::run_input;
use rust_sokoban::map::{
    chars_of, entity_count, initialize_level, is_blank, laod_map, load_world, parse_level,
    place_level, place_tile, read_tile, split_at_each, tokens, trim, LevelError, Tile, LEVEL,
};

fn chars(text: &str) -> Vec<char> {
    text.chars().collect()
}

fn entity(id: u64) -> Entity {
    Entity::from_bits(id).unwrap()
}

fn position_of(world: &World, id: u64) -> Position {
    *world.get::<&Position>(entity(id)).unwrap()
}

fn image_of(world: &World, id: u64) -> String {
    world.get::<&Renderable>(entity(id)).unwrap().path.clone()
}

/// The markers of an entity: wall, player, box, box spot, movable, immovable.
fn markers(world: &World, id: u64) -> [bool; 6] {
    let found = world.entity(entity(id)).unwrap();
    [
        found.has::<Wall>(),
        found.has::<Player>(),
        found.has::<Box>(),
        found.has::<BoxSpot>(),
        found.has::<Movable>(),
        found.has::<Immovable>(),
    ]
}

fn cells_with<T: Send + Sync + 'static>(world: &World) -> Vec<(u8, u8)> {
    let mut cells: Vec<(u8, u8)> =
        world.query::<(&Position, &T)>().iter().map(|(_, (p, _))| (p.x, p.y)).collect();
    cells.sort();
    cells
}

#[test]
fn white_space_is_what_unicode_says() {
    for code in 0..=0x10ffffu32 {
        if let Some(c) = char::from_u32(code) {
            assert_eq!(is_blank(c), c.is_whitespace(), "U+{:04X}", code);
        }
    }
}

#[test]
fn white_space_is_named_char_by_char() {
    let white = [
        '\t', '\n', '\u{b}', '\u{c}', '\r', ' ', '\u{85}', '\u{a0}', '\u{1680}', '\u{2000}',
        '\u{2001}', '\u{2005}', '\u{200a}', '\u{2028}', '\u{2029}', '\u{202f}', '\u{205f}',
        '\u{3000}',
    ];
    for c in white {
        assert!(is_blank(c));
    }
    for c in ['.', 'W', '\0', '\u{8}', '\u{e}', '\u{1f}', '!', '\u{84}', '\u{86}', '\u{200b}',
        '\u{1fff}', '\u{2060}', '\u{feff}', '\u{3001}']
    {
        assert!(!is_blank(c));
    }
}

#[test]
fn the_chars_of_a_text_are_its_characters() {
    assert_eq!(chars_of("W \u{e9}\u{3000}"), vec!['W', ' ', '\u{e9}', '\u{3000}']);
    assert_eq!(chars_of(""), Vec::<char>::new());
}

#[test]
fn trim_drops_white_space_at_both_ends_only() {
    assert_eq!(trim(&chars("  \n\t W . W \r\n ")), chars("W . W"));
    assert_eq!(trim(&chars("W")), chars("W"));
    assert_eq!(trim(&chars("")), chars(""));
    assert_eq!(trim(&chars(" \n ")), chars(""));
    assert_eq!(trim(&chars("a \n b")), chars("a \n b"));
}

#[test]
fn trim_drops_what_the_standard_trim_drops() {
    let samples = [
        "P\u{a0}",
        "\u{a0}P",
        "\u{3000}W . P\u{3000}",
        "\u{2003}\u{85} W\u{a0}W \u{1680}\u{2028}",
        "\u{200b}W\u{200b}",
        " \u{feff} ",
        "\u{a0}\u{3000}",
    ];
    for text in samples {
        assert_eq!(trim(&chars(text)), chars(text.trim()));
    }
}

#[test]
fn split_gives_one_more_piece_than_separators() {
    assert_eq!(split_at_each(&chars("W . P"), ' '), vec![chars("W"), chars("."), chars("P")]);
    assert_eq!(split_at_each(&chars(""), ' '), vec![chars("")]);
    assert_eq!(split_at_each(&chars("W"), ' '), vec![chars("W")]);
    assert_eq!(
        split_at_each(&chars(" W  . "), ' '),
        vec![chars(""), chars("W"), chars(""), chars("."), chars("")]
    );
    assert_eq!(split_at_each(&chars("a\nb\n"), '\n'), vec![chars("a"), chars("b"), chars("")]);
}

#[test]
fn split_cuts_where_the_standard_split_cuts() {
    for text in ["W . P", "", " ", "  W", "W\u{a0}W W", "a\n\nb", "\n"] {
        for sep in [' ', '\n'] {
            let expected: Vec<Vec<char>> = text.split(sep).map(chars).collect();
            assert_eq!(split_at_each(&chars(text), sep), expected);
        }
    }
}

#[test]
fn tokens_are_read_row_by_row() {
    assert_eq!(
        tokens("\n  W P\n  . xy  B \n"),
        vec![
            vec![chars("W"), chars("P")],
            vec![chars("."), chars("xy"), chars(""), chars("B")],
        ]
    );
    assert_eq!(tokens(""), vec![vec![chars("")]]);
}

#[test]
fn each_token_names_its_tile() {
    assert_eq!(read_tile(&chars(".")), Some(Tile::Floor));
    assert_eq!(read_tile(&chars("W")), Some(Tile::Wall));
    assert_eq!(read_tile(&chars("P")), Some(Tile::Player));
    assert_eq!(read_tile(&chars("B")), Some(Tile::Crate));
    assert_eq!(read_tile(&chars("S")), Some(Tile::Spot));
    assert_eq!(read_tile(&chars("N")), Some(Tile::Void));
}

#[test]
fn other_tokens_name_no_tile() {
    for token in ["", "w", "X", "WW", "\t", "W\t", "\u{a0}", "\u{e9}"] {
        assert_eq!(read_tile(&chars(token)), None);
    }
}

#[test]
fn a_level_is_read_row_by_row() {
    let level = parse_level("\n    N W W\n    W P . \n    B S W\n    ");
    assert_eq!(
        level,
        Ok(vec![
            vec![Tile::Void, Tile::Wall, Tile::Wall],
            vec![Tile::Wall, Tile::Player, Tile::Floor],
            vec![Tile::Crate, Tile::Spot, Tile::Wall],
        ])
    );
}

#[test]
fn rows_may_differ_in_length() {
    assert_eq!(
        parse_level("W\nW . .\nW ."),
        Ok(vec![
            vec![Tile::Wall],
            vec![Tile::Wall, Tile::Floor, Tile::Floor],
            vec![Tile::Wall, Tile::Floor],
        ])
    );
}

#[test]
fn lines_may_end_with_a_carriage_return() {
    assert_eq!(
        parse_level("W P\r\nW .\r\n"),
        Ok(vec![vec![Tile::Wall, Tile::Player], vec![Tile::Wall, Tile::Floor]])
    );
}

#[test]
fn a_no_break_space_around_the_text_is_skipped() {
    assert_eq!(parse_level("P\u{a0}"), Ok(vec![vec![Tile::Player]]));
    assert_eq!(parse_level("\u{a0}P"), Ok(vec![vec![Tile::Player]]));
    assert_eq!(
        parse_level("\u{a0}\u{a0}W P\nW .\u{a0}"),
        Ok(vec![vec![Tile::Wall, Tile::Player], vec![Tile::Wall, Tile::Floor]])
    );
}

#[test]
fn an_ideographic_space_around_the_text_is_skipped() {
    assert_eq!(parse_level("\u{3000}P\u{3000}"), Ok(vec![vec![Tile::Player]]));
    assert_eq!(
        parse_level("\u{3000}\n W B\n\u{3000}"),
        Ok(vec![vec![Tile::Wall, Tile::Crate]])
    );
}

#[test]
fn unicode_white_space_around_a_row_is_skipped() {
    assert_eq!(
        parse_level("W P\u{a0}\n\u{3000}W .\u{3000}\n\u{a0}B S"),
        Ok(vec![
            vec![Tile::Wall, Tile::Player],
            vec![Tile::Wall, Tile::Floor],
            vec![Tile::Crate, Tile::Spot],
        ])
    );
}

#[test]
fn unicode_white_space_inside_a_row_is_no_separator() {
    assert_eq!(parse_level("W\u{a0}P"), Err(LevelError::UnknownTile { row: 0, column: 0 }));
    assert_eq!(parse_level("W \u{3000} P"), Err(LevelError::UnknownTile { row: 0, column: 1 }));
}

#[test]
fn the_first_unknown_token_is_reported() {
    assert_eq!(
        parse_level("W W W\nW x W\nW ? W"),
        Err(LevelError::UnknownTile { row: 1, column: 1 })
    );
    assert_eq!(parse_level("Q W\nW x"), Err(LevelError::UnknownTile { row: 0, column: 0 }));
    assert_eq!(parse_level("W W\nW . PB"), Err(LevelError::UnknownTile { row: 1, column: 2 }));
}

#[test]
fn the_unknown_token_stands_where_the_error_says() {
    let text = "W P\n. X B";
    assert_eq!(parse_level(text), Err(LevelError::UnknownTile { row: 1, column: 1 }));
    assert_eq!(tokens(text)[1][1], chars("X"));
    assert_eq!(parse_level("P X"), Err(LevelError::UnknownTile { row: 0, column: 1 }));
    assert_eq!(tokens("P X")[0][1], chars("X"));
}

#[test]
fn an_empty_text_has_one_empty_token() {
    assert_eq!(parse_level(""), Err(LevelError::UnknownTile { row: 0, column: 0 }));
    assert_eq!(parse_level("  \n \n"), Err(LevelError::UnknownTile { row: 0, column: 0 }));
}

#[test]
fn two_blanks_hold_an_empty_token() {
    assert_eq!(parse_level("W  W"), Err(LevelError::UnknownTile { row: 0, column: 1 }));
}

#[test]
fn an_empty_line_holds_an_empty_token() {
    assert_eq!(parse_level("W W\n\nW W"), Err(LevelError::UnknownTile { row: 1, column: 0 }));
}

#[test]
fn a_tab_between_tokens_is_no_separator() {
    assert_eq!(parse_level("W\tW"), Err(LevelError::UnknownTile { row: 0, column: 0 }));
}

#[test]
fn a_level_of_256_columns_fits() {
    let row = vec!["."; 256].join(" ");
    let level = parse_level(&row).unwrap();
    assert_eq!(level.len(), 1);
    assert_eq!(level[0].len(), 256);
}

#[test]
fn a_level_of_257_columns_is_too_large() {
    let row = vec!["."; 257].join(" ");
    assert_eq!(parse_level(&row), Err(LevelError::TooLarge));
}

#[test]
fn a_level_of_257_rows_is_too_large() {
    let text = vec!["."; 257].join("\n");
    assert_eq!(parse_level(&text), Err(LevelError::TooLarge));
    let fitting = vec!["."; 256].join("\n");
    assert_eq!(parse_level(&fitting).unwrap().len(), 256);
}

#[test]
fn an_unknown_token_counts_before_the_size() {
    let mut text = vec!["."; 257].join("\n");
    text.push_str(" x");
    assert_eq!(parse_level(&text), Err(LevelError::UnknownTile { row: 256, column: 1 }));
}

#[test]
fn a_level_makes_two_entities_for_a_piece_and_one_for_a_floor() {
    let rows = parse_level("N . .\nW P B S\nN").unwrap();
    assert_eq!(entity_count(&rows), 2 + 4 * 2);
    assert_eq!(entity_count(&Vec::new()), 0);
    assert_eq!(entity_count(&vec![vec![Tile::Void; 256]; 256]), 0);
    assert_eq!(entity_count(&vec![vec![Tile::Wall; 256]; 256]), 131072);
    assert_eq!(entity_count(&parse_level(LEVEL).unwrap()), 103);
}

#[test]
fn a_wall_is_drawn_and_immovable() {
    let mut world = World::new();
    let id = create_wall(&mut world, Position { x: 3, y: 4, z: 0 });
    assert_eq!(position_of(&world, id), Position { x: 3, y: 4, z: 10 });
    assert_eq!(image_of(&world, id), "/images/wall.png");
    assert_eq!(markers(&world, id), [true, false, false, false, false, true]);
}

#[test]
fn a_floor_tile_is_only_drawn() {
    let mut world = World::new();
    let id = create_floor(&mut world, Position { x: 3, y: 4, z: 77 });
    assert_eq!(position_of(&world, id), Position { x: 3, y: 4, z: 5 });
    assert_eq!(image_of(&world, id), "/images/floor.png");
    assert_eq!(markers(&world, id), [false; 6]);
}

#[test]
fn a_box_is_drawn_and_movable() {
    let mut world = World::new();
    let id = create_box(&mut world, Position { x: 1, y: 2, z: 0 });
    assert_eq!(position_of(&world, id), Position { x: 1, y: 2, z: 10 });
    assert_eq!(image_of(&world, id), "/images/box.png");
    assert_eq!(markers(&world, id), [false, false, true, false, true, false]);
}

#[test]
fn a_box_spot_is_only_drawn_below_the_boxes() {
    let mut world = World::new();
    let id = create_box_spot(&mut world, Position { x: 1, y: 2, z: 0 });
    assert_eq!(position_of(&world, id), Position { x: 1, y: 2, z: 9 });
    assert_eq!(image_of(&world, id), "/images/box_spot.png");
    assert_eq!(markers(&world, id), [false, false, false, true, false, false]);
}

#[test]
fn the_player_is_drawn_and_movable() {
    let mut world = World::new();
    let id = create_player(&mut world, Position { x: 0, y: 255, z: 0 });
    assert_eq!(position_of(&world, id), Position { x: 0, y: 255, z: 10 });
    assert_eq!(image_of(&world, id), "/images/player.png");
    assert_eq!(markers(&world, id), [false, true, false, false, true, false]);
}

#[test]
fn new_entities_get_new_numbers() {
    let mut world = World::new();
    let here = Position { x: 0, y: 0, z: 0 };
    let mut ids = vec![
        create_floor(&mut world, here),
        create_wall(&mut world, here),
        create_box(&mut world, here),
        create_box_spot(&mut world, here),
        create_player(&mut world, here),
    ];
    ids.sort();
    ids.dedup();
    assert_eq!(ids.len(), 5);
    assert_eq!(world.len(), 5);
}

#[test]
fn a_tile_makes_its_floor_first() {
    let here = Position { x: 6, y: 7, z: 0 };
    let expected = [
        (Tile::Floor, 1, [false; 6]),
        (Tile::Wall, 2, [true, false, false, false, false, true]),
        (Tile::Player, 2, [false, true, false, false, true, false]),
        (Tile::Crate, 2, [false, false, true, false, true, false]),
        (Tile::Spot, 2, [false, false, false, true, false, false]),
    ];
    for (tile, count, piece) in expected {
        let mut world = World::new();
        let ids = place_tile(&mut world, tile, here);
        assert_eq!(ids.len(), count);
        assert_eq!(world.len() as usize, count);
        assert_eq!(image_of(&world, ids[0]), "/images/floor.png");
        assert_eq!(markers(&world, ids[0]), [false; 6]);
        assert_eq!(markers(&world, ids[count - 1]), piece);
        for id in ids {
            let position = position_of(&world, id);
            assert_eq!((position.x, position.y), (6, 7));
        }
    }
}

#[test]
fn the_void_tile_makes_nothing() {
    let mut world = World::new();
    assert_eq!(place_tile(&mut world, Tile::Void, Position { x: 1, y: 1, z: 0 }), vec![]);
    assert_eq!(world.len(), 0);
}

#[test]
fn a_level_is_placed_by_column_and_row() {
    let mut world = World::new();
    let rows = vec![vec![Tile::Void, Tile::Wall], vec![Tile::Player, Tile::Crate, Tile::Spot]];
    let ids = place_level(&mut world, &rows);
    assert_eq!(ids.len(), 8);
    let cells: Vec<(u8, u8, u8)> = ids
        .iter()
        .map(|id| {
            let p = position_of(&world, *id);
            (p.x, p.y, p.z)
        })
        .collect();
    assert_eq!(
        cells,
        vec![
            (1, 0, 5),
            (1, 0, 10),
            (0, 1, 5),
            (0, 1, 10),
            (1, 1, 5),
            (1, 1, 10),
            (2, 1, 5),
            (2, 1, 9),
        ]
    );
    assert_eq!(cells_with::<Wall>(&world), vec![(1, 0)]);
    assert_eq!(cells_with::<Player>(&world), vec![(0, 1)]);
    assert_eq!(cells_with::<Box>(&world), vec![(1, 1)]);
    assert_eq!(cells_with::<BoxSpot>(&world), vec![(2, 1)]);
}

#[test]
fn a_level_uses_the_whole_range_of_coordinates() {
    let mut world = World::new();
    let mut rows = vec![vec![Tile::Void]; 255];
    let mut last = vec![Tile::Void; 255];
    last.push(Tile::Wall);
    rows.push(last);
    let ids = place_level(&mut world, &rows);
    assert_eq!(ids.len(), 2);
    assert_eq!(position_of(&world, ids[1]), Position { x: 255, y: 255, z: 10 });
}

#[test]
fn loading_adds_to_what_the_world_holds() {
    let mut world = World::new();
    let old = create_box(&mut world, Position { x: 9, y: 9, z: 0 });
    laod_map(&mut world, "W P\n. B".to_string());
    assert_eq!(world.len(), 1 + 7);
    assert_eq!(position_of(&world, old), Position { x: 9, y: 9, z: 10 });
    assert_eq!(cells_with::<Player>(&world), vec![(1, 0)]);
    assert_eq!(cells_with::<Box>(&world), vec![(1, 1), (9, 9)]);
}

#[test]
fn a_text_framed_by_a_no_break_space_loads() {
    let mut world = World::new();
    laod_map(&mut world, "P\u{a0}".to_string());
    assert_eq!(world.len(), 2);
    assert_eq!(cells_with::<Player>(&world), vec![(0, 0)]);
    assert_eq!(cells_with::<Movable>(&world), vec![(0, 0)]);
    assert_eq!(cells_with::<Renderable>(&world), vec![(0, 0), (0, 0)]);
}

#[test]
fn a_text_framed_by_ideographic_spaces_loads() {
    let mut world = World::new();
    laod_map(&mut world, "\u{3000}W P\u{3000}\n\u{a0}. B\u{3000}\n\u{3000}".to_string());
    assert_eq!(world.len(), 7);
    assert_eq!(cells_with::<Wall>(&world), vec![(0, 0)]);
    assert_eq!(cells_with::<Immovable>(&world), vec![(0, 0)]);
    assert_eq!(cells_with::<Player>(&world), vec![(1, 0)]);
    assert_eq!(cells_with::<Box>(&world), vec![(1, 1)]);
    assert_eq!(cells_with::<Movable>(&world), vec![(1, 0), (1, 1)]);
}

#[test]
fn a_new_world_holds_the_level_and_nothing_else() {
    let world = load_world("W P\n. B S".to_string()).unwrap();
    assert_eq!(world.len(), 2 + 2 + 1 + 2 + 2);
    assert_eq!(cells_with::<Wall>(&world), vec![(0, 0)]);
    assert_eq!(cells_with::<Player>(&world), vec![(1, 0)]);
    assert_eq!(cells_with::<Box>(&world), vec![(1, 1)]);
    assert_eq!(cells_with::<BoxSpot>(&world), vec![(2, 1)]);
    let framed = load_world("P\u{a0}".to_string()).unwrap();
    assert_eq!(framed.len(), 2);
    assert_eq!(cells_with::<Player>(&framed), vec![(0, 0)]);
}

#[test]
fn a_bad_text_gives_no_world() {
    assert_eq!(
        load_world("W P\nW B\nW Z".to_string()).err(),
        Some(LevelError::UnknownTile { row: 2, column: 1 })
    );
    assert_eq!(load_world("P X".to_string()).err(), Some(LevelError::UnknownTile { row: 0, column: 1 }));
    let too_wide = vec!["."; 300].join(" ");
    assert_eq!(load_world(too_wide).err(), Some(LevelError::TooLarge));
    assert_eq!(
        load_world("W \u{e9} W".to_string()).err(),
        Some(LevelError::UnknownTile { row: 0, column: 1 })
    );
}

#[test]
fn the_level_of_the_game_loads() {
    let mut world = World::new();
    initialize_level(&mut world);
    assert_eq!(cells_with::<Player>(&world), vec![(2, 4)]);
    assert_eq!(cells_with::<Box>(&world), vec![(4, 2)]);
    assert_eq!(cells_with::<BoxSpot>(&world), vec![(3, 6)]);
    assert_eq!(cells_with::<Wall>(&world).len(), 30);
    assert_eq!(cells_with::<Movable>(&world), vec![(2, 4), (4, 2)]);
    assert_eq!(cells_with::<Immovable>(&world), cells_with::<Wall>(&world));
    assert_eq!(cells_with::<Renderable>(&world).len(), 70 + 33);
    assert!(!cells_with::<Renderable>(&world).contains(&(0, 0)));
    assert!(!cells_with::<Renderable>(&world).contains(&(1, 0)));
}

#[test]
fn the_level_of_the_game_fills_the_field() {
    let rows = parse_level(LEVEL).unwrap();
    assert_eq!(rows.len(), 9);
    for row in &rows {
        assert_eq!(row.len(), 8);
    }
    assert_eq!(rows[0][0], Tile::Void);
    assert_eq!(rows[0][2], Tile::Wall);
    assert_eq!(rows[4][2], Tile::Player);
}

#[test]
fn the_level_of_the_game_can_be_played() {
    let mut world = World::new();
    initialize_level(&mut world);
    let walls = cells_with::<Wall>(&world);

    run_input(&mut world, Some(Direction::Up));
    run_input(&mut world, Some(Direction::Up));
    assert_eq!(cells_with::<Player>(&world), vec![(2, 2)]);
    run_input(&mut world, Some(Direction::Right));
    assert_eq!(cells_with::<Player>(&world), vec![(3, 2)]);
    assert_eq!(cells_with::<Box>(&world), vec![(4, 2)]);
    run_input(&mut world, Some(Direction::Right));
    run_input(&mut world, Some(Direction::Right));
    assert_eq!(cells_with::<Player>(&world), vec![(5, 2)]);
    assert_eq!(cells_with::<Box>(&world), vec![(6, 2)]);
    run_input(&mut world, Some(Direction::Right));
    assert_eq!(cells_with::<Player>(&world), vec![(5, 2)]);
    assert_eq!(cells_with::<Box>(&world), vec![(6, 2)]);
    run_input(&mut world, Some(Direction::Up));
    run_input(&mut world, Some(Direction::Up));
    assert_eq!(cells_with::<Player>(&world), vec![(5, 1)]);
    assert_eq!(cells_with::<Wall>(&world), walls);
    assert_eq!(cells_with::<BoxSpot>(&world), vec![(3, 6)]);
}
