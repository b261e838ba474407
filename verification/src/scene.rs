//! The rules by which blocks of a world become parts of a scene: which
//! blocks are kept, where they stand, and which texture or model each gets.

use vstd::prelude::*;
use vstd::string::StringExecFns;
use crate::lattice::Pos;
use crate::text::{contains, has_prefix, has_substring, same_text, starts_with};
use crate::util::{Face, Properties};

verus! {

/// What becomes of a block of the world.
#[derive(Debug, Clone, Copy, PartialEq, Eq, Structural)]
pub enum BlockKind {
    /// The block is left out.
    Skipped,
    /// The block is shown as a model.
    Model,
    /// The block is a light.
    Torch,
    /// The block is a voxel of the store.
    Voxel,
}

/// Doors, signs, ladders, water and lava are left out.
pub open spec fn is_skipped(id: Seq<char>) -> bool {
    ||| has_substring(id, "door"@)
    ||| has_substring(id, "sign"@)
    ||| has_substring(id, "ladder"@)
    ||| has_substring(id, "water"@)
    ||| has_substring(id, "lava"@)
}

/// The blocks that are shown as models.
pub open spec fn is_model(id: Seq<char>) -> bool {
    ||| id == "campfire"@
    ||| id == "grass"@
    ||| id == "oxeye_daisy"@
    ||| id == "cornflower"@
    ||| id == "azure_bluet"@
    ||| id == "poppy"@
    ||| id == "dandelion"@
    ||| id == "oak_pressure_plate"@
    ||| id == "stone_pressure_plate"@
    ||| id == "heavy_weighted_pressure_plate"@
    ||| id == "light_weighted_pressure_plate"@
    ||| id == "flower_pot"@
    ||| id == "fire"@
    ||| id == "lectern"@
    ||| has_prefix(id, "potted_"@)
}

/// What becomes of the block with the identity `id`.
pub open spec fn kind_of(id: Seq<char>) -> BlockKind {
    if is_skipped(id) {
        BlockKind::Skipped
    } else if is_model(id) {
        BlockKind::Model
    } else if has_substring(id, "torch"@) {
        BlockKind::Torch
    } else {
        BlockKind::Voxel
    }
}

fn skipped(id: &str) -> (skip: bool)
    ensures
        skip == is_skipped(id@),
{
    contains(id, "door") || contains(id, "sign") || contains(id, "ladder") || contains(id, "water")
        || contains(id, "lava")
}

fn shown_as_model(id: &str) -> (model: bool)
    ensures
        model == is_model(id@),
{
    same_text(id, "campfire") || same_text(id, "grass") || same_text(id, "oxeye_daisy")
        || same_text(id, "cornflower") || same_text(id, "azure_bluet") || same_text(id, "poppy")
        || same_text(id, "dandelion") || same_text(id, "oak_pressure_plate") || same_text(
        id,
        "stone_pressure_plate",
    ) || same_text(id, "heavy_weighted_pressure_plate") || same_text(
        id,
        "light_weighted_pressure_plate",
    ) || same_text(id, "flower_pot") || same_text(id, "fire") || same_text(id, "lectern")
        || starts_with(id, "potted_")
}

/// What becomes of the block with the identity `id`.
pub fn classify_block(id: &str) -> (kind: BlockKind)
    ensures
        kind == kind_of(id@),
{
    if skipped(id) {
        BlockKind::Skipped
    } else if shown_as_model(id) {
        BlockKind::Model
    } else if contains(id, "torch") {
        BlockKind::Torch
    } else {
        BlockKind::Voxel
    }
}

/// The property string that a voxel keeps: leaves lose theirs.
pub fn voxel_properties(id: &str, properties: String) -> (kept: String)
    ensures
        kept@ == if has_substring(id@, "leaves"@) {
            Seq::<char>::empty()
        } else {
            properties@
        },
{
    if contains(id, "leaves") {
        String::new()
    } else {
        properties
    }
}

/// The place of a block counted from the least corner `min` of the world.
pub fn offset(pos: (i32, i32, i32), min: (i32, i32, i32)) -> (at: Pos)
    requires
        min.0 <= pos.0,
        min.1 <= pos.1,
        min.2 <= pos.2,
    ensures
        at.0 == pos.0 - min.0,
        at.1 == pos.1 - min.1,
        at.2 == pos.2 - min.2,
{
    let x = pos.0 as i64 - min.0 as i64;
    let y = pos.1 as i64 - min.1 as i64;
    let z = pos.2 as i64 - min.2 as i64;
    (x as usize, y as usize, z as usize)
}

/// Where a block stands in the store: its place counted from the least
/// corner `min` of the world, with the `z` axis turned round.
pub fn place(pos: (i32, i32, i32), min: (i32, i32, i32), max: (i32, i32, i32)) -> (at: Pos)
    requires
        min.0 <= pos.0 <= max.0,
        min.1 <= pos.1 <= max.1,
        min.2 <= pos.2 <= max.2,
    ensures
        at.0 == pos.0 - min.0,
        at.1 == pos.1 - min.1,
        at.2 == max.2 - pos.2,
{
    let x = pos.0 as i64 - min.0 as i64;
    let y = pos.1 as i64 - min.1 as i64;
    let z = max.2 as i64 - pos.2 as i64;
    (x as usize, y as usize, z as usize)
}

/// The places, counted from the least corner and before the `z` axis is
/// turned round, whose blocks are left out whatever they are.
pub open spec fn is_left_out(at: Pos) -> bool {
    ||| at == (21usize, 37usize, 113usize)
    ||| at == (31usize, 30usize, 33usize)
    ||| at == (21usize, 35usize, 113usize)
    ||| at == (31usize, 27usize, 33usize)
    ||| at == (4usize, 33usize, 36usize)
    ||| at == (12usize, 22usize, 30usize)
}

pub fn left_out(at: Pos) -> (out: bool)
    ensures
        out == is_left_out(at),
{
    (at.0 == 21 && at.1 == 37 && at.2 == 113) || (at.0 == 31 && at.1 == 30 && at.2 == 33) || (at.0
        == 21 && at.1 == 35 && at.2 == 113) || (at.0 == 31 && at.1 == 27 && at.2 == 33) || (at.0
        == 4 && at.1 == 33 && at.2 == 36) || (at.0 == 12 && at.1 == 22 && at.2 == 30)
}

/// How a box of the mesh stands in the scene.
#[derive(Debug, Clone, Copy, PartialEq, Eq, Structural)]
pub enum BrushKind {
    /// Glass that can be broken.
    Breakable,
    /// Leaves that can be walked through.
    Illusionary,
    /// Part of the world.
    World,
}

pub open spec fn brush_kind_of(id: Seq<char>) -> BrushKind {
    if has_substring(id, "glass"@) && !has_substring(id, "tinted"@) {
        BrushKind::Breakable
    } else if has_substring(id, "leaves"@) {
        BrushKind::Illusionary
    } else {
        BrushKind::World
    }
}

/// How the box with the identity `id` stands in the scene.
pub fn brush_kind(id: &str) -> (kind: BrushKind)
    ensures
        kind == brush_kind_of(id@),
{
    if contains(id, "glass") && !contains(id, "tinted") {
        BrushKind::Breakable
    } else if contains(id, "leaves") {
        BrushKind::Illusionary
    } else {
        BrushKind::World
    }
}

/// The face that the word `word` names.
pub open spec fn face_named(word: Seq<char>) -> Option<Face> {
    if word == "north"@ {
        Some(Face::North)
    } else if word == "east"@ {
        Some(Face::East)
    } else if word == "south"@ {
        Some(Face::South)
    } else if word == "west"@ {
        Some(Face::West)
    } else if word == "up"@ {
        Some(Face::Top)
    } else if word == "down"@ {
        Some(Face::Bottom)
    } else {
        None
    }
}

/// The face that the properties give as `facing`: north where they give
/// none, `None` where they give a word that names no face.
pub open spec fn facing_of(properties: Map<Seq<char>, Seq<char>>) -> Option<Face> {
    if properties.contains_key("facing"@) {
        face_named(properties["facing"@])
    } else {
        Some(Face::North)
    }
}

fn face_of_word(word: &str) -> (face: Option<Face>)
    ensures
        face == face_named(word@),
{
    if same_text(word, "north") {
        Some(Face::North)
    } else if same_text(word, "east") {
        Some(Face::East)
    } else if same_text(word, "south") {
        Some(Face::South)
    } else if same_text(word, "west") {
        Some(Face::West)
    } else if same_text(word, "up") {
        Some(Face::Top)
    } else if same_text(word, "down") {
        Some(Face::Bottom)
    } else {
        None
    }
}

/// The face that a block with these properties looks at.
pub fn facing(properties: &Properties) -> (face: Option<Face>)
    requires
        properties.well_formed(),
    ensures
        face == facing_of(properties@),
{
    match properties.get("facing") {
        Some(word) => face_of_word(word.as_str()),
        None => Some(Face::North),
    }
}

/// The texture of the blocks that show one texture on all sides.
pub open spec fn plain_texture_of(id: Seq<char>) -> Option<Seq<char>> {
    if id == "tinted_glass"@ {
        Some("SKY"@)
    } else if id == "barrier"@ {
        Some("CLIP"@)
    } else if id == "light_blue_concrete"@ {
        Some("lbconc"@)
    } else if id == "chiseled_polished_blackstone"@ {
        Some("cpbs"@)
    } else if id == "cracked_polished_blackstone_bricks"@ {
        Some("cpbsb"@)
    } else if id == "gilded_blackstone"@ {
        Some("gbs"@)
    } else if id == "polished_blackstone"@ {
        Some("pbs"@)
    } else if id == "polished_blackstone_bricks"@ {
        Some("pbsb"@)
    } else if id == "stripped_spruce_log"@ {
        Some("ssl"@)
    } else if id == "white_terracotta"@ {
        Some("wt"@)
    } else if id == "light_gray_terracotta"@ {
        Some("lgt"@)
    } else if id == "light_blue_terracotta"@ {
        Some("lbt"@)
    } else if id == "chiseled_stone_bricks"@ {
        Some("csb"@)
    } else if id == "glass"@ {
        Some("{glass"@)
    } else if id == "glass_pane"@ {
        Some("{glass"@)
    } else if id == "blue_stained_glass"@ {
        Some("{bsg"@)
    } else if id == "oak_leaves"@ {
        Some("{oak_leaves"@)
    } else if id == "spruce_leaves"@ {
        Some("{spruce_leaves"@)
    } else {
        None
    }
}

/// The texture of the blocks whose texture depends on the side. The sides
/// are numbered as the faces are, and `face` is the face that the block
/// looks at.
pub open spec fn sided_texture_of(id: Seq<char>, side: int, face: Face) -> Option<Seq<char>> {
    if id == "grass_block"@ {
        if side == Face::Top.number() {
            Some("grass_block"@)
        } else if side == Face::Bottom.number() {
            Some("dirt"@)
        } else {
            Some("gbs2"@)
        }
    } else if id == "crafting_table"@ {
        if side == Face::Top.number() {
            Some("ct_top"@)
        } else if side == face.number() {
            Some("ct_front"@)
        } else {
            Some("ct_side"@)
        }
    } else if id == "furnace"@ {
        if side == Face::Top.number() {
            Some("furnace_top"@)
        } else if side == face.number() {
            Some("furnace_front"@)
        } else {
            Some("furnace_side"@)
        }
    } else if id == "blast_furnace"@ {
        if side == Face::Top.number() {
            Some("bf_top"@)
        } else if side == face.number() {
            Some("bf_front"@)
        } else {
            Some("bf_side"@)
        }
    } else if id == "smoker"@ {
        if side == Face::Top.number() {
            Some("smoker_top"@)
        } else if side == Face::Bottom.number() {
            Some("smoker_bottom"@)
        } else if side == face.number() {
            Some("smoker_front"@)
        } else {
            Some("smoker_side"@)
        }
    } else if id == "barrel"@ {
        if side == Face::Top.number() {
            Some("barrel_top"@)
        } else if side == Face::Bottom.number() {
            Some("barrel_bottom"@)
        } else {
            Some("barrel_side"@)
        }
    } else if id == "oak_log"@ {
        if side == Face::Top.number() || side == Face::Bottom.number() {
            Some("oak_log_top"@)
        } else {
            Some("oak_log"@)
        }
    } else if id == "birch_log"@ {
        if side == Face::Top.number() || side == Face::Bottom.number() {
            Some("birch_log_top"@)
        } else {
            Some("birch_log"@)
        }
    } else if id == "stripped_dark_oak_log"@ {
        if side == Face::Top.number() || side == Face::Bottom.number() {
            Some("sdolt"@)
        } else {
            Some("sdol"@)
        }
    } else {
        None
    }
}

/// The texture that the rules name for the side `side` of a block, if they
/// name one.
pub open spec fn named_texture_of(id: Seq<char>, side: int, face: Face) -> Option<Seq<char>> {
    if plain_texture_of(id) is Some {
        plain_texture_of(id)
    } else {
        sided_texture_of(id, side, face)
    }
}

fn plain_texture(id: &str) -> (texture: Option<String>)
    ensures
        texture is Some <==> plain_texture_of(id@) is Some,
        texture matches Some(name) ==> plain_texture_of(id@) == Some(name@),
{
    if same_text(id, "tinted_glass") {
        Some("SKY".to_owned())
    } else if same_text(id, "barrier") {
        Some("CLIP".to_owned())
    } else if same_text(id, "light_blue_concrete") {
        Some("lbconc".to_owned())
    } else if same_text(id, "chiseled_polished_blackstone") {
        Some("cpbs".to_owned())
    } else if same_text(id, "cracked_polished_blackstone_bricks") {
        Some("cpbsb".to_owned())
    } else if same_text(id, "gilded_blackstone") {
        Some("gbs".to_owned())
    } else if same_text(id, "polished_blackstone") {
        Some("pbs".to_owned())
    } else if same_text(id, "polished_blackstone_bricks") {
        Some("pbsb".to_owned())
    } else if same_text(id, "stripped_spruce_log") {
        Some("ssl".to_owned())
    } else if same_text(id, "white_terracotta") {
        Some("wt".to_owned())
    } else if same_text(id, "light_gray_terracotta") {
        Some("lgt".to_owned())
    } else if same_text(id, "light_blue_terracotta") {
        Some("lbt".to_owned())
    } else if same_text(id, "chiseled_stone_bricks") {
        Some("csb".to_owned())
    } else if same_text(id, "glass") {
        Some("{glass".to_owned())
    } else if same_text(id, "glass_pane") {
        Some("{glass".to_owned())
    } else if same_text(id, "blue_stained_glass") {
        Some("{bsg".to_owned())
    } else if same_text(id, "oak_leaves") {
        Some("{oak_leaves".to_owned())
    } else if same_text(id, "spruce_leaves") {
        Some("{spruce_leaves".to_owned())
    } else {
        None
    }
}

fn sided_texture(id: &str, side: usize, face: Face) -> (texture: Option<String>)
    ensures
        texture is Some <==> sided_texture_of(id@, side as int, face) is Some,
        texture matches Some(name) ==> sided_texture_of(id@, side as int, face) == Some(name@),
{
    if same_text(id, "grass_block") {
        if side == 5 {
            Some("grass_block".to_owned())
        } else if side == 4 {
            Some("dirt".to_owned())
        } else {
            Some("gbs2".to_owned())
        }
    } else if same_text(id, "crafting_table") {
        if side == 5 {
            Some("ct_top".to_owned())
        } else if side == face.index() {
            Some("ct_front".to_owned())
        } else {
            Some("ct_side".to_owned())
        }
    } else if same_text(id, "furnace") {
        if side == 5 {
            Some("furnace_top".to_owned())
        } else if side == face.index() {
            Some("furnace_front".to_owned())
        } else {
            Some("furnace_side".to_owned())
        }
    } else if same_text(id, "blast_furnace") {
        if side == 5 {
            Some("bf_top".to_owned())
        } else if side == face.index() {
            Some("bf_front".to_owned())
        } else {
            Some("bf_side".to_owned())
        }
    } else if same_text(id, "smoker") {
        if side == 5 {
            Some("smoker_top".to_owned())
        } else if side == 4 {
            Some("smoker_bottom".to_owned())
        } else if side == face.index() {
            Some("smoker_front".to_owned())
        } else {
            Some("smoker_side".to_owned())
        }
    } else if same_text(id, "barrel") {
        if side == 5 {
            Some("barrel_top".to_owned())
        } else if side == 4 {
            Some("barrel_bottom".to_owned())
        } else {
            Some("barrel_side".to_owned())
        }
    } else if same_text(id, "oak_log") {
        if side == 5 || side == 4 {
            Some("oak_log_top".to_owned())
        } else {
            Some("oak_log".to_owned())
        }
    } else if same_text(id, "birch_log") {
        if side == 5 || side == 4 {
            Some("birch_log_top".to_owned())
        } else {
            Some("birch_log".to_owned())
        }
    } else if same_text(id, "stripped_dark_oak_log") {
        if side == 5 || side == 4 {
            Some("sdolt".to_owned())
        } else {
            Some("sdol".to_owned())
        }
    } else {
        None
    }
}

/// A list of names as the contracts see it.
pub open spec fn name_views(names: Seq<String>) -> Seq<Seq<char>> {
    names.map_values(|name: String| name@)
}

fn listed(names: &Vec<String>, name: &String) -> (found: bool)
    ensures
        found == name_views(names@).contains(name@),
{
    for i in 0..names.len()
        invariant
            forall|h: int| 0 <= h < i ==> (#[trigger] name_views(names@)[h]) != name@,
    {
        if names[i] == *name {
            assert(name_views(names@)[i as int] == name@);
            return true;
        }
    }
    false
}

/// The texture of the side `side` of a block, and whether it is missing.
/// Where the rules name no texture for the block, its texture is named
/// as the block is if `textures` lists the file of that name with `.png`
/// behind it; if not, the texture is `MISSING`.
pub open spec fn texture_of(
    id: Seq<char>,
    side: int,
    face: Face,
    textures: Seq<Seq<char>>,
) -> (Seq<char>, bool) {
    match named_texture_of(id, side, face) {
        Some(name) => (name, false),
        None => if textures.contains(id + ".png"@) {
            (id, false)
        } else {
            ("MISSING"@, true)
        },
    }
}

/// The texture of the side `side` of the block `id` that looks at `face`,
/// and whether it is missing. A block whose texture is missing is noted in
/// `missing_textures`, once.
pub fn texture_for(
    id: &str,
    side: usize,
    face: Face,
    textures: &Vec<String>,
    missing_textures: &mut Vec<String>,
) -> (found: (String, bool))
    ensures
        (found.0@, found.1) == texture_of(id@, side as int, face, name_views(textures@)),
        name_views(final(missing_textures)@) == if found.1 && !name_views(
            old(missing_textures)@,
        ).contains(id@) {
            name_views(old(missing_textures)@).push(id@)
        } else {
            name_views(old(missing_textures)@)
        },
{
    if let Some(name) = plain_texture(id) {
        return (name, false);
    }
    if let Some(name) = sided_texture(id, side, face) {
        return (name, false);
    }
    let own = id.to_owned();
    let file = id.to_owned().concat(".png");
    if listed(textures, &file) {
        (own, false)
    } else {
        if !listed(missing_textures, &own) {
            missing_textures.push(own);
        }
        ("MISSING".to_owned(), true)
    }
}

/// No property has the value `true`.
pub open spec fn nothing_is_true(properties: Map<Seq<char>, Seq<char>>) -> bool {
    forall|key: Seq<char>| properties.contains_key(key) ==> properties[key] != "true"@
}

/// The model that shows a block with the identity `id`: a fire has one
/// only where none of its properties is `true`, a potted plant is shown as
/// a flower pot, and every other block has the model of its own name.
pub open spec fn model_of(id: Seq<char>, properties: Map<Seq<char>, Seq<char>>) -> Option<
    Seq<char>,
> {
    if id == "campfire"@ {
        Some("campfire"@)
    } else if id == "grass"@ {
        Some("grass"@)
    } else if id == "fire"@ {
        if nothing_is_true(properties) {
            Some("fire_floor"@)
        } else {
            None
        }
    } else if has_prefix(id, "potted_"@) {
        Some("flower_pot"@)
    } else {
        Some(id)
    }
}

fn nothing_true(properties: &Properties) -> (none: bool)
    requires
        properties.well_formed(),
    ensures
        none == nothing_is_true(properties@),
{
    let n = properties.len();
    for i in 0..n
        invariant
            properties.well_formed(),
            n == properties.entries_view().len(),
            forall|h: int| 0 <= h < i ==> properties.entries_view()[h].1 != "true"@,
    {
        let entry = properties.entry(i);
        if same_text(entry.1.as_str(), "true") {
            proof {
                properties.lemma_entry_is_held(i as int);
            }
            return false;
        }
    }
    proof {
        assert forall|key: Seq<char>| properties@.contains_key(key) implies properties@[key]
            != "true"@ by {
            let h = properties.lemma_held_entry(key);
        }
    }
    true
}

/// The model that shows the block `id` with these properties.
pub fn model_for(id: &str, properties: &Properties) -> (model: Option<String>)
    requires
        properties.well_formed(),
    ensures
        model is Some <==> model_of(id@, properties@) is Some,
        model matches Some(name) ==> model_of(id@, properties@) == Some(name@),
{
    if same_text(id, "campfire") {
        Some("campfire".to_owned())
    } else if same_text(id, "grass") {
        Some("grass".to_owned())
    } else if same_text(id, "fire") {
        if nothing_true(properties) {
            Some("fire_floor".to_owned())
        } else {
            None
        }
    } else if starts_with(id, "potted_") {
        Some("flower_pot".to_owned())
    } else {
        Some(id.to_owned())
    }
}

} // verus!
