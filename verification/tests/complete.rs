use snorm::complete::{candidates, palette_block_names, region_candidates, split_override_word};
use snorm::schematic::{BlockPos, Schematic, SchematicRegion};
use snorm::block::BlockState;

fn strings(v: &[&str]) -> Vec<String> {
    v.iter().map(|s| String::from(*s)).collect()
}

#[test]
fn block_ids_complete_with_or_without_namespace() {
    let blocks = strings(&["minecraft:stone", "minecraft:stone_bricks", "create:stone_casing", "minecraft:dirt"]);

    assert_eq!(candidates(&blocks, "sto", ""), strings(&["stone", "stone_bricks", "create:stone_casing"]));
    assert_eq!(
        candidates(&blocks, "minecraft:st", ""),
        strings(&["minecraft:stone", "minecraft:stone_bricks"])
    );
    assert_eq!(candidates(&blocks, "di", "minecraft:oak_stairs="), strings(&["minecraft:oak_stairs=dirt"]));
    assert!(candidates(&blocks, "x", "").is_empty());
}

#[test]
fn override_words_split_at_the_target_or_the_last_source() {
    assert_eq!(split_override_word("dirt,gra"), (false, String::from("dirt,"), String::from("gra")));
    assert_eq!(split_override_word("a,b,c"), (false, String::from("a,b,"), String::from("c")));
    assert_eq!(split_override_word("dirt"), (false, String::new(), String::from("dirt")));
    assert_eq!(split_override_word("dirt,grass=sto"), (true, String::from("dirt,grass="), String::from("sto")));
    assert_eq!(split_override_word("a=b=c"), (true, String::from("a="), String::from("b=c")));
}

#[test]
fn region_names_complete_and_renames_get_an_equals_sign() {
    let names = strings(&["tower", "keep", "tower_top"]);

    assert_eq!(region_candidates(&names, "tow", false), strings(&["tower", "tower_top"]));
    assert_eq!(region_candidates(&names, "k", true), strings(&["keep="]));
    assert!(region_candidates(&names, "keep=", true).is_empty());
    assert_eq!(region_candidates(&names, "", false), names);
}

#[test]
fn schematic_blocks_are_sorted_once_without_air() {
    let mut schematic = Schematic::new(String::from("s"), String::new(), String::new());
    let mut a = SchematicRegion::new(String::from("a"), BlockPos::new(0, 0, 0), BlockPos::new(2, 1, 1));
    a.set_block(BlockPos::new(0, 0, 0), BlockState::new(String::from("minecraft:stone"), Vec::new()));
    a.set_block(BlockPos::new(1, 0, 0), BlockState::new(String::from("minecraft:dirt"), Vec::new()));
    let mut b = SchematicRegion::new(String::from("b"), BlockPos::new(0, 0, 0), BlockPos::new(1, 1, 1));
    b.set_block(BlockPos::new(0, 0, 0), BlockState::new(String::from("minecraft:stone"), Vec::new()));
    schematic.regions.push(a);
    schematic.regions.push(b);

    assert_eq!(palette_block_names(&schematic), strings(&["minecraft:dirt", "minecraft:stone"]));
}
