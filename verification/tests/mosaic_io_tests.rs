use mosaic::datatypes::{ComponentField, ComponentType, Datatype};
use mosaic::mosaic_state::MosaicState;
use mosaic::mosaic_io::placed_tile;
use mosaic::tile::TileType;
use mosaic::datatypes::S32;
use mosaic::mosaic_io::{
    load_mosaic_commands, save_mosaic, save_mosaic_bytes, saved_definitions, sort_by_id, MosaicLoadCommand,
    SavedTile,
};

fn padded(name: &str) -> String {
    let mut s = name.to_string();
    while s.len() < 32 {
        s.push('\0');
    }
    s
}

#[test]
fn saved_bytes_follow_the_format() {
    let defs = vec!["A:u8".to_string()];
    let tiles = vec![SavedTile { id: 5, source: 6, target: 7, component: S32::from_text("A"), data: vec![9] }];
    let bytes = save_mosaic_bytes(&defs, &tiles);
    let mut expected = vec![0u8, 4, b'A', b':', b'u', b'8', 0, 0];
    expected.extend([0, 0, 0, 0, 0, 0, 0, 5]);
    expected.extend([0, 0, 0, 0, 0, 0, 0, 6]);
    expected.extend([0, 0, 0, 0, 0, 0, 0, 7]);
    expected.extend([0, 0, 0, 0, 0, 0, 0, 1, b'A']);
    expected.extend([0, 0, 0, 1, 9]);
    assert_eq!(bytes, expected);
}

#[test]
fn a_saved_mosaic_loads_back() {
    let defs = vec!["Foo: i32;".to_string(), "Bar: unit;".to_string()];
    let tiles = vec![
        SavedTile { id: 1, source: 1, target: 1, component: S32::from_text("Foo"), data: vec![0, 0, 0, 7] },
        SavedTile { id: 2, source: 1, target: 3, component: S32::from_text("Foo"), data: vec![] },
    ];
    let bytes = save_mosaic_bytes(&defs, &tiles);
    let loaded = load_mosaic_commands(&bytes).unwrap();
    assert_eq!(
        loaded,
        vec![
            MosaicLoadCommand::AddType("Foo: i32;".to_string()),
            MosaicLoadCommand::CreateTile(1, 1, 1, S32(padded("Foo")), vec![0, 0, 0, 7]),
            MosaicLoadCommand::CreateTile(2, 1, 3, S32(padded("Foo")), vec![]),
        ]
    );
}

#[test]
fn an_empty_mosaic_is_a_zero_length() {
    let bytes = save_mosaic_bytes(&vec![], &vec![]);
    assert_eq!(bytes, vec![0, 0]);
    assert_eq!(load_mosaic_commands(&bytes).unwrap(), vec![]);
    let bytes = save_mosaic_bytes(&vec!["Unused: unit;".to_string()], &vec![]);
    assert_eq!(load_mosaic_commands(&bytes).unwrap(), vec![]);
}

#[test]
fn definitions_are_matched_by_the_name_before_the_colon() {
    let defs = vec!["Pos: { x: i32 };".to_string(), "Posy: u8;".to_string(), "Label".to_string()];
    let tiles = vec![
        SavedTile { id: 0, source: 0, target: 0, component: S32::from_text("Pos"), data: vec![] },
        SavedTile { id: 1, source: 1, target: 1, component: S32::from_text("  Label "), data: vec![] },
    ];
    let loaded = load_mosaic_commands(&save_mosaic_bytes(&defs, &tiles)).unwrap();
    assert_eq!(loaded[0], MosaicLoadCommand::AddType("Pos: { x: i32 };".to_string()));
    assert_eq!(loaded[1], MosaicLoadCommand::AddType("Label".to_string()));
    assert_eq!(loaded.len(), 4);
}

#[test]
fn long_names_are_cut_to_thirty_two_bytes() {
    let long = "abcdefghijklmnopqrstuvwxyz0123456789";
    let name = S32::from_text(long);
    assert_eq!(name.0, "abcdefghijklmnopqrstuvwxyz012345");
    assert_eq!(name.to_string(), "abcdefghijklmnopqrstuvwxyz012345");
    assert_eq!(S32::from_text(&"é".repeat(17)).0, "é".repeat(16));
    let odd = format!("a{}", "é".repeat(16));
    assert_eq!(S32::from_text(&odd).0, format!("a{}\0", "é".repeat(15)));
}

#[test]
fn names_are_shown_without_padding_or_white_space() {
    assert_eq!(S32::from_text(" \tPosition\u{3000}").to_string(), "Position");
    assert_eq!(S32::from_text("").to_string(), "");
    assert_eq!(S32::from_text("").0, "\0".repeat(32));
}

#[test]
fn hand_written_bytes_load() {
    let mut bytes = vec![0u8, 3, b'X', b':', b';', 0, 0];
    bytes.extend([0, 0, 0, 0, 0, 0, 0, 2]);
    bytes.extend([0, 0, 0, 0, 0, 0, 0, 2]);
    bytes.extend([0, 0, 0, 0, 0, 0, 0, 4]);
    bytes.extend([0, 0, 0, 0, 0, 0, 0, 1, b'X']);
    bytes.extend([0, 0, 0, 2, 1, 2]);
    let loaded = load_mosaic_commands(&bytes).unwrap();
    assert_eq!(
        loaded,
        vec![
            MosaicLoadCommand::AddType("X:;".to_string()),
            MosaicLoadCommand::CreateTile(2, 2, 4, S32(padded("X")), vec![1, 2]),
        ]
    );
}

fn tile(id: usize, name: &str, data: Vec<u8>) -> SavedTile {
    SavedTile { id, source: id, target: id, component: S32::from_text(name), data }
}

#[test]
fn only_used_definitions_are_saved_sorted_and_once() {
    let defs = vec![
        "B: u8;".to_string(),
        "A: u8;".to_string(),
        "Z: u8;".to_string(),
        "A: u8;".to_string(),
        "Ab: u8;".to_string(),
    ];
    let tiles = vec![tile(5, "B", vec![]), tile(2, "A", vec![]), tile(3, "Ab", vec![])];
    assert_eq!(
        saved_definitions(&defs, &tiles),
        vec!["A: u8;".to_string(), "Ab: u8;".to_string(), "B: u8;".to_string()]
    );
    assert_eq!(saved_definitions(&defs, &vec![]), Vec::<String>::new());
}

#[test]
fn tiles_are_sorted_by_identifier_keeping_ties_in_order() {
    let sorted = sort_by_id(vec![tile(5, "B", vec![1]), tile(2, "A", vec![]), tile(5, "C", vec![2]), tile(0, "A", vec![])]);
    let ids: Vec<usize> = sorted.iter().map(|t| t.id).collect();
    assert_eq!(ids, vec![0, 2, 5, 5]);
    assert_eq!(sorted[2].data, vec![1]);
    assert_eq!(sorted[3].data, vec![2]);
}

#[test]
fn a_saved_mosaic_loads_in_identifier_order() {
    let defs = vec!["Pos: { x: i32 };".to_string(), "Age: u8;".to_string(), "Unused: unit;".to_string()];
    let tiles = vec![tile(7, "Pos", vec![0, 0, 0, 1]), tile(3, "Age", vec![9])];
    let loaded = load_mosaic_commands(&save_mosaic(&defs, tiles)).unwrap();
    assert_eq!(
        loaded,
        vec![
            MosaicLoadCommand::AddType("Age: u8;".to_string()),
            MosaicLoadCommand::AddType("Pos: { x: i32 };".to_string()),
            MosaicLoadCommand::CreateTile(3, 3, 3, S32(padded("Age")), vec![9]),
            MosaicLoadCommand::CreateTile(7, 7, 7, S32(padded("Pos")), vec![0, 0, 0, 1]),
        ]
    );
}

#[test]
fn definitions_name_their_type_before_the_colon() {
    use_name("Position : { x: i32 };", "Position");
    use_name("  Label: s32;", "Label");
    use_name("NoColon", "NoColon");
}

fn use_name(definition: &str, name: &str) {
    assert_eq!(mosaic::mosaic_io::defined_type_name(definition), S32::from_text(name));
}

fn reference_bytes() -> Vec<u8> {
    vec![
        0, 9, 70, 111, 111, 58, 32, 105, 51, 50, 59, 0, 11, 118, 111, 105, 100, 58, 32, 117,
        110, 105, 116, 59, 0, 0, 0, 0, 0, 0, 0, 0, 0, 0, 0, 0, 0, 0, 0, 0, 0, 0, 0, 0, 0, 0, 0,
        0, 0, 0, 0, 0, 0, 0, 0, 0, 0, 3, 70, 111, 111, 0, 0, 0, 4, 0, 0, 0, 101, 0, 0, 0, 0, 0,
        0, 0, 1, 0, 0, 0, 0, 0, 0, 0, 1, 0, 0, 0, 0, 0, 0, 0, 1, 0, 0, 0, 0, 0, 0, 0, 4, 118,
        111, 105, 100, 0, 0, 0, 0, 0, 0, 0, 0, 0, 0, 0, 2, 0, 0, 0, 0, 0, 0, 0, 2, 0, 0, 0, 0,
        0, 0, 0, 2, 0, 0, 0, 0, 0, 0, 0, 4, 118, 111, 105, 100, 0, 0, 0, 0, 0, 0, 0, 0, 0, 0,
        0, 3, 0, 0, 0, 0, 0, 0, 0, 0, 0, 0, 0, 0, 0, 0, 0, 1, 0, 0, 0, 0, 0, 0, 0, 4, 118, 111,
        105, 100, 0, 0, 0, 0, 0, 0, 0, 0, 0, 0, 0, 4, 0, 0, 0, 0, 0, 0, 0, 1, 0, 0, 0, 0, 0, 0,
        0, 2, 0, 0, 0, 0, 0, 0, 0, 4, 118, 111, 105, 100, 0, 0, 0, 0,
    ]
}

fn reference_tiles() -> Vec<SavedTile> {
    let tile = |id: usize, source: usize, target: usize, name: &str, data: Vec<u8>| SavedTile {
        id,
        source,
        target,
        component: S32::from_text(name),
        data,
    };
    vec![
        tile(4, 1, 2, "void", vec![]),
        tile(0, 0, 0, "Foo", vec![0, 0, 0, 101]),
        tile(2, 2, 2, "void", vec![]),
        tile(3, 0, 1, "void", vec![]),
        tile(1, 1, 1, "void", vec![]),
    ]
}

#[test]
fn saved_test_data_loads_seven_commands() {
    let data = reference_bytes();
    assert_eq!(data.len(), 229);
    let loaded = load_mosaic_commands(&data).unwrap();
    assert_eq!(loaded.len(), 7);
    assert_eq!(loaded[0], MosaicLoadCommand::AddType("Foo: i32;".to_string()));
    assert_eq!(loaded[1], MosaicLoadCommand::AddType("void: unit;".to_string()));
    assert_eq!(loaded[2], MosaicLoadCommand::CreateTile(0, 0, 0, S32(padded("Foo")), vec![0, 0, 0, 101]));
    assert_eq!(loaded[5], MosaicLoadCommand::CreateTile(3, 0, 1, S32(padded("void")), vec![]));
    assert_eq!(loaded[6], MosaicLoadCommand::CreateTile(4, 1, 2, S32(padded("void")), vec![]));
}

#[test]
fn test_save() {
    let defs = vec!["Foo: i32;".to_string(), "void: unit;".to_string()];
    assert_eq!(save_mosaic(&defs, reference_tiles()), reference_bytes());
}

#[test]
fn placed_tiles_are_shifted_and_classified() {
    assert_eq!(placed_tile(10, 0, 0, 0), (10, TileType::Object));
    assert_eq!(placed_tile(10, 3, 0, 1), (13, TileType::Arrow { source: 10, target: 11 }));
    assert_eq!(placed_tile(10, 3, 3, 1), (13, TileType::Descriptor { subject: 11 }));
    assert_eq!(placed_tile(10, 3, 1, 3), (13, TileType::Extension { subject: 11 }));
    assert_eq!(placed_tile(0, 4, 1, 2), (4, TileType::Arrow { source: 1, target: 2 }));
}

fn with_type(m: &mut MosaicState, definition: &str, name: &str, datatype: Datatype) {
    m.registry.add_raw_component_type(ComponentType::Alias(ComponentField { name: S32::from_text(name), datatype }));
    m.registry.component_definitions.push(definition.to_string());
}

fn mosaic_with_foo() -> MosaicState {
    let mut m = MosaicState::new();
    with_type(&mut m, "Foo: i32;", "Foo", Datatype::I32);
    m
}

#[test]
fn test_clean_load() {
    let mut mosaic = mosaic_with_foo();
    let data = reference_bytes();
    let loaded = load_mosaic_commands(&data).unwrap();
    assert_eq!(7, loaded.len());
    mosaic.load(&data).unwrap();
    let new_obj = mosaic.new_object("void", vec![]);
    for id in 0..5 {
        assert!(mosaic.is_tile_valid(id));
    }
    assert!(mosaic.is_tile_valid(new_obj));
    assert_eq!(5, new_obj);
}

#[test]
fn test_transitioning_load() {
    let data = reference_bytes();
    let mut mosaic = mosaic_with_foo();
    let loaded = load_mosaic_commands(&data).unwrap();
    assert_eq!(7, loaded.len());
    let new_obj = mosaic.new_object("void", vec![]);
    mosaic.load(&data).unwrap();
    for id in 1..6 {
        assert!(mosaic.is_tile_valid(id));
    }
    assert!(mosaic.is_tile_valid(new_obj));
    assert_eq!(0, new_obj);
}

#[test]
fn loading_the_test_data_places_its_tiles() {
    let cmds = load_mosaic_commands(&reference_bytes()).unwrap();
    let mut m = mosaic_with_foo();
    assert!(m.load_into(cmds).is_ok());
    assert_eq!(m.counter, 0);
    assert_eq!(m.registry.component_type_map.len(), 2);
    assert_eq!(m.registry.component_definitions, vec!["void: unit;".to_string(), "Foo: i32;".to_string()]);
    assert_eq!(m.tiles.len(), 5);
    assert_eq!(m.tiles[&0].id, 0);
    assert_eq!(m.tiles[&0].tile_type, TileType::Object);
    assert_eq!(m.tiles[&0].data, vec![0, 0, 0, 101]);
    assert_eq!(m.tiles[&0].component, S32(padded("Foo")));
    assert_eq!(m.tiles[&3].tile_type, TileType::Arrow { source: 0, target: 1 });
    assert_eq!(m.tiles[&4].tile_type, TileType::Arrow { source: 1, target: 2 });
    assert_eq!(m.dependents, vec![(0, 3), (1, 3), (1, 4), (2, 4)]);
    for k in 0..3 {
        assert!(m.object_ids.is_member(k));
        assert!(!m.arrow_ids.is_member(k));
    }
    assert!(m.arrow_ids.is_member(3));
    assert!(m.arrow_ids.is_member(4));
}

#[test]
fn loading_shifts_identifiers_by_the_counter() {
    let mut m = mosaic_with_foo();
    m.counter = 10;
    assert!(m.load_into(load_mosaic_commands(&reference_bytes()).unwrap()).is_ok());
    assert_eq!(m.counter, 10);
    let mut ids: Vec<usize> = m.tiles.keys().cloned().collect();
    ids.sort();
    assert_eq!(ids, vec![10, 11, 12, 13, 14]);
    assert_eq!(m.tiles[&13].id, 13);
    assert_eq!(m.tiles[&13].tile_type, TileType::Arrow { source: 10, target: 11 });
    assert_eq!(m.dependents, vec![(10, 13), (11, 13), (11, 14), (12, 14)]);
    assert!(m.load_into(load_mosaic_commands(&reference_bytes()).unwrap()).is_ok());
    assert_eq!(m.registry.component_type_map.len(), 2);
    assert_eq!(m.tiles.len(), 5);
}

#[test]
fn loading_sorts_tiles_into_kinds() {
    let defs = vec!["Pos: u8;".to_string()];
    let tiles = vec![
        SavedTile { id: 0, source: 0, target: 0, component: S32::from_text("Pos"), data: vec![1] },
        SavedTile { id: 1, source: 1, target: 0, component: S32::from_text("Pos"), data: vec![2, 9, 9] },
        SavedTile { id: 2, source: 0, target: 2, component: S32::from_text("Pos"), data: vec![3] },
    ];
    let mut m = MosaicState::new();
    with_type(&mut m, "Pos: u8;", "Pos", Datatype::U8);
    assert!(m.load(&save_mosaic(&defs, tiles)).is_ok());
    assert_eq!(m.tiles[&1].tile_type, TileType::Descriptor { subject: 0 });
    assert_eq!(m.tiles[&1].data, vec![2]);
    assert_eq!(m.tiles[&2].tile_type, TileType::Extension { subject: 0 });
    assert!(m.descriptor_ids.is_member(1));
    assert!(m.extension_ids.is_member(2));
    assert_eq!(m.dependents, vec![(0, 1), (0, 2)]);
}

#[test]
fn loading_stops_at_data_too_short_for_its_component() {
    let defs = vec!["Pair: u32;".to_string()];
    let tiles = vec![
        SavedTile { id: 0, source: 0, target: 0, component: S32::from_text("Pair"), data: vec![0, 0, 0, 1] },
        SavedTile { id: 1, source: 1, target: 1, component: S32::from_text("Pair"), data: vec![0, 0] },
        SavedTile { id: 2, source: 2, target: 2, component: S32::from_text("Pair"), data: vec![0, 0, 0, 2] },
    ];
    let mut m = MosaicState::new();
    with_type(&mut m, "Pair: u32;", "Pair", Datatype::U32);
    assert!(m.load(&save_mosaic(&defs, tiles)).is_err());
    assert!(m.is_tile_valid(0));
    assert!(!m.is_tile_valid(1));
    assert!(!m.is_tile_valid(2));
}

#[test]
fn new_objects_take_the_next_free_identifier() {
    let mut m = MosaicState::new();
    assert_eq!(m.new_object("void", vec![]), 0);
    assert_eq!(m.new_object("void", vec![]), 1);
    m.counter = 0;
    assert_eq!(m.new_object("void", vec![]), 2);
    assert_eq!(m.counter, 3);
    assert_eq!(m.tiles[&2].component, S32(padded("void")));
    assert!(m.object_ids.is_member(2));
}

#[test]
fn a_loaded_mosaic_saves_the_same_bytes() {
    let mut m = mosaic_with_foo();
    m.load(&reference_bytes()).unwrap();
    assert_eq!(m.save(), reference_bytes());
}

#[test]
fn a_saved_mosaic_state_loads_back_the_same_tiles() {
    let mut m1 = mosaic_with_foo();
    let a = m1.new_object("Foo", vec![0, 0, 0, 7]);
    let b = m1.new_object("void", vec![]);
    m1.load(&reference_bytes()).unwrap();
    let bytes = m1.save();
    let mut m2 = mosaic_with_foo();
    assert!(m2.load(&bytes).is_ok());
    assert_eq!(m2.tiles.len(), m1.tiles.len());
    for (k, t) in m1.tiles.iter() {
        let u = &m2.tiles[k];
        assert_eq!(u.tile_type, t.tile_type);
        assert_eq!(u.component, t.component);
        assert_eq!(u.data, t.data);
    }
    assert!(m2.is_tile_valid(a) && m2.is_tile_valid(b));
}
