use converter::scene::{
    brush_kind, classify_block, facing, left_out, model_for, offset, place, texture_for,
    voxel_properties, BlockKind, BrushKind,
};
use converter::text::{characters, contains, same_text, starts_with};
use converter::util::{parse_properties, Face, Properties};

#[test]
fn text_is_compared_character_by_character() {
    assert!(same_text("stone", "stone"));
    assert!(same_text("", ""));
    assert!(!same_text("stone", "stones"));
    assert!(!same_text("stone", "store"));
    assert!(!same_text("", "a"));
    assert_eq!(characters("a\u{e9}\u{4e2d}"), vec!['a', '\u{e9}', '\u{4e2d}']);
}

#[test]
fn a_prefix_stands_at_the_start() {
    assert!(starts_with("potted_fern", "potted_"));
    assert!(starts_with("potted_", "potted_"));
    assert!(starts_with("anything", ""));
    assert!(!starts_with("potted", "potted_"));
    assert!(!starts_with("a_potted_fern", "potted_"));
}

#[test]
fn a_substring_stands_anywhere() {
    assert!(contains("oak_door", "door"));
    assert!(contains("door", "door"));
    assert!(contains("trapdoor_iron", "door"));
    assert!(contains("anything", ""));
    assert!(contains("", ""));
    assert!(!contains("dor", "door"));
    assert!(!contains("do_or", "door"));
    assert!(!contains("", "door"));
    assert!(contains("aab", "ab"));
}

#[test]
fn doors_signs_ladders_and_liquids_are_skipped() {
    for id in ["oak_door", "iron_trapdoor", "birch_sign", "wall_sign", "ladder", "water", "lava"] {
        assert_eq!(classify_block(id), BlockKind::Skipped);
    }
    // what is skipped is skipped whatever else it is
    assert_eq!(classify_block("potted_door"), BlockKind::Skipped);
    assert_eq!(classify_block("lava_torch"), BlockKind::Skipped);
}

#[test]
fn small_blocks_are_models() {
    for id in [
        "campfire",
        "grass",
        "oxeye_daisy",
        "cornflower",
        "azure_bluet",
        "poppy",
        "dandelion",
        "oak_pressure_plate",
        "stone_pressure_plate",
        "heavy_weighted_pressure_plate",
        "light_weighted_pressure_plate",
        "flower_pot",
        "fire",
        "lectern",
        "potted_fern",
        "potted_",
    ] {
        assert_eq!(classify_block(id), BlockKind::Model);
    }
}

#[test]
fn torches_are_lights_and_the_rest_are_voxels() {
    assert_eq!(classify_block("torch"), BlockKind::Torch);
    assert_eq!(classify_block("wall_torch"), BlockKind::Torch);
    assert_eq!(classify_block("redstone_torch"), BlockKind::Torch);
    assert_eq!(classify_block("stone"), BlockKind::Voxel);
    assert_eq!(classify_block("grass_block"), BlockKind::Voxel);
    assert_eq!(classify_block("soul_campfire"), BlockKind::Voxel);
    assert_eq!(classify_block(""), BlockKind::Voxel);
}

#[test]
fn leaves_lose_their_properties() {
    assert_eq!(voxel_properties("oak_leaves", "[distance=3]".to_string()), "");
    assert_eq!(voxel_properties("leaves", "[a=b]".to_string()), "");
    assert_eq!(voxel_properties("oak_log", "[axis=y]".to_string()), "[axis=y]");
    assert_eq!(voxel_properties("stone", String::new()), "");
}

#[test]
fn places_are_counted_from_the_least_corner() {
    assert_eq!(offset((3, -2, 5), (-1, -7, 5)), (4, 5, 0));
    assert_eq!(offset((0, 0, 0), (0, 0, 0)), (0, 0, 0));
    assert_eq!(
        offset((i32::MAX, i32::MAX, i32::MAX), (i32::MIN, i32::MIN, i32::MIN)),
        (4294967295, 4294967295, 4294967295)
    );
}

#[test]
fn the_z_axis_is_turned_round() {
    assert_eq!(place((3, -2, 5), (-1, -7, 5), (8, 0, 9)), (4, 5, 4));
    assert_eq!(place((3, -2, 9), (-1, -7, 5), (8, 0, 9)), (4, 5, 0));
    assert_eq!(place((0, 0, 0), (0, 0, 0), (0, 0, 0)), (0, 0, 0));
    assert_eq!(
        place(
            (i32::MAX, i32::MAX, i32::MIN),
            (i32::MIN, i32::MIN, i32::MIN),
            (i32::MAX, i32::MAX, i32::MAX)
        ),
        (4294967295, 4294967295, 4294967295)
    );
}

#[test]
fn six_places_are_left_out() {
    let places =
        [(21, 37, 113), (31, 30, 33), (21, 35, 113), (31, 27, 33), (4, 33, 36), (12, 22, 30)];
    for at in places {
        assert!(left_out(at));
    }
    assert!(!left_out((21, 37, 112)));
    assert!(!left_out((21, 30, 33)));
    assert!(!left_out((0, 0, 0)));
    assert!(!left_out((113, 37, 21)));
}

#[test]
fn glass_breaks_and_leaves_let_through() {
    assert_eq!(brush_kind("glass"), BrushKind::Breakable);
    assert_eq!(brush_kind("blue_stained_glass"), BrushKind::Breakable);
    assert_eq!(brush_kind("glass_leaves"), BrushKind::Breakable);
    assert_eq!(brush_kind("tinted_glass"), BrushKind::World);
    assert_eq!(brush_kind("oak_leaves"), BrushKind::Illusionary);
    assert_eq!(brush_kind("tinted_glass_leaves"), BrushKind::Illusionary);
    assert_eq!(brush_kind("stone"), BrushKind::World);
}

#[test]
fn the_facing_names_a_face() {
    assert_eq!(facing(&parse_properties("[facing=north]")), Some(Face::North));
    assert_eq!(facing(&parse_properties("[facing=east]")), Some(Face::East));
    assert_eq!(facing(&parse_properties("[facing=south]")), Some(Face::South));
    assert_eq!(facing(&parse_properties("[facing=west]")), Some(Face::West));
    assert_eq!(facing(&parse_properties("[facing=up]")), Some(Face::Top));
    assert_eq!(facing(&parse_properties("[facing=down]")), Some(Face::Bottom));
    assert_eq!(facing(&parse_properties("[lit=true,facing=west]")), Some(Face::West));
}

#[test]
fn without_a_facing_a_block_looks_north() {
    assert_eq!(facing(&Properties::new()), Some(Face::North));
    assert_eq!(facing(&parse_properties("[lit=true]")), Some(Face::North));
}

#[test]
fn an_unknown_facing_names_no_face() {
    assert_eq!(facing(&parse_properties("[facing=sideways]")), None);
    assert_eq!(facing(&parse_properties("[facing=]")), None);
    assert_eq!(facing(&parse_properties("[facing=North]")), None);
}

fn texture(id: &str, side: usize, face: Face) -> String {
    let textures = vec!["stone.png".to_string()];
    let mut missing = Vec::new();
    let (name, is_missing) = texture_for(id, side, face, &textures, &mut missing);
    assert!(!is_missing);
    assert!(missing.is_empty());
    name
}

#[test]
fn blocks_with_one_texture() {
    for (id, name) in [
        ("tinted_glass", "SKY"),
        ("barrier", "CLIP"),
        ("light_blue_concrete", "lbconc"),
        ("chiseled_polished_blackstone", "cpbs"),
        ("cracked_polished_blackstone_bricks", "cpbsb"),
        ("gilded_blackstone", "gbs"),
        ("polished_blackstone", "pbs"),
        ("polished_blackstone_bricks", "pbsb"),
        ("stripped_spruce_log", "ssl"),
        ("white_terracotta", "wt"),
        ("light_gray_terracotta", "lgt"),
        ("light_blue_terracotta", "lbt"),
        ("chiseled_stone_bricks", "csb"),
        ("glass", "{glass"),
        ("glass_pane", "{glass"),
        ("blue_stained_glass", "{bsg"),
        ("oak_leaves", "{oak_leaves"),
        ("spruce_leaves", "{spruce_leaves"),
    ] {
        for side in 0..6 {
            assert_eq!(texture(id, side, Face::North), name);
        }
    }
}

#[test]
fn blocks_with_a_top_and_a_bottom() {
    let sides = |id: &str| -> Vec<String> { (0..6).map(|s| texture(id, s, Face::North)).collect() };
    assert_eq!(sides("grass_block"), ["gbs2", "gbs2", "gbs2", "gbs2", "dirt", "grass_block"]);
    assert_eq!(
        sides("barrel"),
        ["barrel_side", "barrel_side", "barrel_side", "barrel_side", "barrel_bottom", "barrel_top"]
    );
    assert_eq!(
        sides("oak_log"),
        ["oak_log", "oak_log", "oak_log", "oak_log", "oak_log_top", "oak_log_top"]
    );
    assert_eq!(
        sides("birch_log"),
        ["birch_log", "birch_log", "birch_log", "birch_log", "birch_log_top", "birch_log_top"]
    );
    assert_eq!(sides("stripped_dark_oak_log"), ["sdol", "sdol", "sdol", "sdol", "sdolt", "sdolt"]);
}

#[test]
fn blocks_with_a_front() {
    let sides = |id: &str, face: Face| -> Vec<String> {
        (0..6).map(|s| texture(id, s, face)).collect()
    };
    assert_eq!(
        sides("crafting_table", Face::East),
        ["ct_side", "ct_front", "ct_side", "ct_side", "ct_side", "ct_top"]
    );
    assert_eq!(
        sides("furnace", Face::South),
        [
            "furnace_front",
            "furnace_side",
            "furnace_side",
            "furnace_side",
            "furnace_side",
            "furnace_top"
        ]
    );
    assert_eq!(
        sides("blast_furnace", Face::West),
        ["bf_side", "bf_side", "bf_side", "bf_front", "bf_side", "bf_top"]
    );
    assert_eq!(
        sides("smoker", Face::North),
        [
            "smoker_side",
            "smoker_side",
            "smoker_front",
            "smoker_side",
            "smoker_bottom",
            "smoker_top"
        ]
    );
    // the top wins over the front, and for a smoker the bottom does too
    assert_eq!(
        sides("furnace", Face::Top),
        [
            "furnace_side",
            "furnace_side",
            "furnace_side",
            "furnace_side",
            "furnace_side",
            "furnace_top"
        ]
    );
    assert_eq!(
        sides("crafting_table", Face::Bottom),
        ["ct_side", "ct_side", "ct_side", "ct_side", "ct_front", "ct_top"]
    );
    assert_eq!(
        sides("smoker", Face::Bottom),
        [
            "smoker_side",
            "smoker_side",
            "smoker_side",
            "smoker_side",
            "smoker_bottom",
            "smoker_top"
        ]
    );
}

#[test]
fn other_blocks_take_the_texture_of_their_name() {
    let textures = vec!["cobblestone.png".to_string(), "stone.png".to_string()];
    let mut missing = vec!["andesite".to_string()];
    let found = texture_for("stone", 3, Face::North, &textures, &mut missing);
    assert_eq!(found, ("stone".to_string(), false));
    assert_eq!(missing, vec!["andesite".to_string()]);
}

#[test]
fn a_missing_texture_is_noted_once() {
    let textures = vec!["stone.png".to_string(), "gravel".to_string(), "gravel.PNG".to_string()];
    let mut missing = vec!["andesite".to_string()];
    let found = texture_for("gravel", 0, Face::North, &textures, &mut missing);
    assert_eq!(found, ("MISSING".to_string(), true));
    assert_eq!(missing, vec!["andesite".to_string(), "gravel".to_string()]);
    let found = texture_for("gravel", 1, Face::North, &textures, &mut missing);
    assert_eq!(found, ("MISSING".to_string(), true));
    assert_eq!(missing, vec!["andesite".to_string(), "gravel".to_string()]);
    let found = texture_for("andesite", 5, Face::East, &textures, &mut missing);
    assert_eq!(found, ("MISSING".to_string(), true));
    assert_eq!(missing, vec!["andesite".to_string(), "gravel".to_string()]);
}

#[test]
fn models_by_name() {
    let none = Properties::new();
    assert_eq!(model_for("campfire", &none), Some("campfire".to_string()));
    assert_eq!(model_for("grass", &none), Some("grass".to_string()));
    assert_eq!(model_for("potted_fern", &none), Some("flower_pot".to_string()));
    assert_eq!(model_for("potted_", &none), Some("flower_pot".to_string()));
    assert_eq!(model_for("poppy", &none), Some("poppy".to_string()));
    let east = parse_properties("[facing=east]");
    assert_eq!(model_for("lectern", &east), Some("lectern".to_string()));
}

#[test]
fn a_fire_has_a_model_where_nothing_is_true() {
    assert_eq!(model_for("fire", &Properties::new()), Some("fire_floor".to_string()));
    assert_eq!(
        model_for("fire", &parse_properties("[east=false,north=false,age=3]")),
        Some("fire_floor".to_string())
    );
    assert_eq!(model_for("fire", &parse_properties("[east=false,north=true]")), None);
    assert_eq!(model_for("fire", &parse_properties("[up=true]")), None);
    assert_eq!(
        model_for("fire", &parse_properties("[up=True]")),
        Some("fire_floor".to_string())
    );
}
