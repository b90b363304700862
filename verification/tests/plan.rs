use std::borrow::Cow;
use std::collections::HashMap;

use snorm::block::{state_key, BlockId, BlockState};
use snorm::category::Category;
use snorm::mcdata::{BlockDefinition, BlockInfo, McData};
use snorm::overrides::OverrideSpec;
use snorm::palette::Palette;
use snorm::plan::{apply, solid_candidates, Decision, EntryPlan, ReplacementPlan};
use snorm::schematic::{BlockPos, SchematicRegion};

fn state(name: &str, properties: &[(&str, &str)]) -> BlockState {
    BlockState::new(
        String::from(name),
        properties
            .iter()
            .map(|(n, v)| (String::from(*n), String::from(*v)))
            .collect(),
    )
}

fn id(input: &str) -> BlockId {
    BlockId::parse(input).unwrap()
}

fn palette_with_stair(target: &str) -> Palette {
    let mut palette = Palette::default();
    palette.targets.insert(Category::Stair, id(target));
    palette
}

fn plan_for(entry: &BlockState, palette: &Palette, cli: &[OverrideSpec]) -> EntryPlan {
    plan_for_with(entry, palette, cli, &McData::empty())
}

fn plan_for_with(entry: &BlockState, palette: &Palette, cli: &[OverrideSpec], mcdata: &McData) -> EntryPlan {
    let entries = vec![entry.clone()];
    let plan = ReplacementPlan::build(&entries, palette, cli, &Vec::new(), mcdata);

    plan.get(&state_key(entry)).unwrap().clone()
}

fn plain_block_mcdata(names: &[&str]) -> McData {
    let blocks = names
        .iter()
        .map(|name| {
            (
                String::from(*name),
                BlockInfo {
                    definition: BlockDefinition {
                        kind: Some(String::from("minecraft:block")),
                    },
                    properties: Vec::new(),
                },
            )
        })
        .collect();

    McData::for_tests(blocks, Vec::new())
}

#[test]
fn palette_category_replaces_and_preserves_state() {
    let stairs = state(
        "minecraft:oak_stairs",
        &[("facing", "north"), ("half", "top"), ("shape", "straight")],
    );

    let entry = plan_for(&stairs, &palette_with_stair("minecraft:stone_brick_stairs"), &[]);

    let Decision::Replace {
        state,
        dropped,
        explicit,
    } = &entry.decision
    else {
        panic!("expected a replacement");
    };

    assert_eq!(state.name, "minecraft:stone_brick_stairs");
    assert_eq!(state.property("facing").unwrap(), "north");
    assert_eq!(state.property("half").unwrap(), "top");
    assert!(dropped.is_empty());
    assert!(!explicit);
}

#[test]
fn cli_override_beats_palette() {
    let stairs = state("minecraft:oak_stairs", &[("facing", "north")]);
    let palette = palette_with_stair("minecraft:stone_brick_stairs");

    let keep = OverrideSpec::parse("minecraft:oak_stairs=").unwrap();
    let entry = plan_for(&stairs, &palette, &[keep]);
    assert!(matches!(entry.decision, Decision::Keep));

    let redirect = OverrideSpec::parse("minecraft:oak_stairs=minecraft:spruce_stairs").unwrap();
    let entry = plan_for(&stairs, &palette, &[redirect]);

    let Decision::Replace { state, explicit, .. } = &entry.decision else {
        panic!("expected a replacement");
    };

    assert_eq!(state.name, "minecraft:spruce_stairs");
    assert!(explicit);
}

#[test]
fn cli_override_beats_config_override() {
    let stairs = state("minecraft:oak_stairs", &[]);

    let mut palette = Palette::default();
    palette
        .overrides
        .push(OverrideSpec::parse("minecraft:oak_stairs=minecraft:stone_brick_stairs").unwrap());

    let cli = OverrideSpec::parse("minecraft:oak_stairs=minecraft:spruce_stairs").unwrap();
    let entry = plan_for(&stairs, &palette, &[cli]);

    let Decision::Replace { state, .. } = &entry.decision else {
        panic!("expected a replacement");
    };

    assert_eq!(state.name, "minecraft:spruce_stairs");
}

#[test]
fn solid_members_use_solid_target() {
    let mut palette = Palette::default();
    palette.targets.insert(Category::Solid, id("minecraft:stone_bricks"));
    palette.solid_members.insert(id("minecraft:cobblestone"));

    let cobble = state("minecraft:cobblestone", &[]);
    let entry = plan_for(&cobble, &palette, &[]);

    let Decision::Replace {
        state: replacement, ..
    } = &entry.decision
    else {
        panic!("expected a replacement");
    };

    assert_eq!(replacement.name, "minecraft:stone_bricks");
    assert_eq!(entry.category, Some(Category::Solid));

    // Without extracted data nothing is automatically solid.
    let dirt = state("minecraft:dirt", &[]);
    let entry = plan_for(&dirt, &palette, &[]);
    assert!(matches!(entry.decision, Decision::Keep));
}

#[test]
fn solid_replaces_only_selected_blocks() {
    let mcdata = plain_block_mcdata(&["minecraft:dirt", "minecraft:obsidian"]);

    let mut palette = Palette::default();
    palette.targets.insert(Category::Solid, id("minecraft:stone_bricks"));

    let selection: Vec<BlockId> = vec![id("minecraft:dirt")];

    let dirt = state("minecraft:dirt", &[]);
    let entries = vec![dirt.clone()];
    let plan = ReplacementPlan::build(&entries, &palette, &[], &selection, &mcdata);
    let entry = plan.get(&state_key(&dirt)).unwrap();

    let Decision::Replace {
        state: replacement, ..
    } = &entry.decision
    else {
        panic!("expected a replacement");
    };

    assert_eq!(replacement.name, "minecraft:stone_bricks");
    assert_eq!(entry.category, Some(Category::Solid));

    // A candidate that was not selected passes through untouched.
    let obsidian = state("minecraft:obsidian", &[]);
    let entry = plan_for_with(&obsidian, &palette, &[], &mcdata);
    assert!(matches!(entry.decision, Decision::Keep));
}

#[test]
fn solid_candidates_are_ranked_by_usage() {
    let mcdata = plain_block_mcdata(&[
        "minecraft:dirt",
        "minecraft:stone",
        "minecraft:obsidian",
        "minecraft:stone_bricks",
    ]);

    let mut palette = Palette::default();
    palette.targets.insert(Category::Solid, id("minecraft:stone_bricks"));
    palette.protected.insert(id("minecraft:obsidian"));

    let mut region = SchematicRegion::new(String::from("main"), BlockPos::new(0, 0, 0), BlockPos::new(8, 1, 1));

    for x in 0..3 {
        region.set_block(BlockPos::new(x, 0, 0), state("minecraft:stone", &[]));
    }
    region.set_block(BlockPos::new(3, 0, 0), state("minecraft:dirt", &[]));
    region.set_block(BlockPos::new(4, 0, 0), state("minecraft:obsidian", &[]));
    region.set_block(BlockPos::new(5, 0, 0), state("minecraft:stone_bricks", &[]));
    region.set_block(BlockPos::new(6, 0, 0), state("minecraft:piston", &[]));

    let candidates = solid_candidates(&[&region], &palette, &[], &mcdata);

    let names: Vec<(&str, u64)> = candidates
        .iter()
        .map(|(id, count)| (id.as_str(), *count))
        .collect();

    // The most used candidate comes first; the protected block, the
    // target itself, and non-plain classes are absent.
    assert_eq!(names, vec![("minecraft:stone", 3), ("minecraft:dirt", 1)]);
}

#[test]
fn protected_blocks_survive_categories_but_not_overrides() {
    let mcdata = plain_block_mcdata(&["minecraft:obsidian"]);

    let mut palette = Palette::default();
    palette.targets.insert(Category::Solid, id("minecraft:stone_bricks"));
    palette.protected.insert(id("minecraft:obsidian"));

    let obsidian = state("minecraft:obsidian", &[]);

    let entry = plan_for_with(&obsidian, &palette, &[], &mcdata);
    assert!(matches!(entry.decision, Decision::Keep));
    assert!(entry.protected);

    let redirect = OverrideSpec::parse("minecraft:obsidian=minecraft:crying_obsidian").unwrap();
    let entry = plan_for_with(&obsidian, &palette, &[redirect], &mcdata);

    let Decision::Replace {
        state: replacement, ..
    } = &entry.decision
    else {
        panic!("expected a replacement");
    };

    assert_eq!(replacement.name, "minecraft:crying_obsidian");
}

#[test]
fn air_is_untouchable() {
    let mut palette = Palette::default();
    palette.targets.insert(Category::Solid, id("minecraft:stone_bricks"));
    palette.solid_members.insert(id("minecraft:air"));

    let air = state("minecraft:air", &[]);
    let entry = plan_for(&air, &palette, &[]);
    assert!(matches!(entry.decision, Decision::Keep));
}

#[test]
fn coral_swaps_family_preserving_shape() {
    let mut palette = Palette::default();
    palette.coral_family = Some(String::from("tube"));

    let cases = [
        ("minecraft:dead_brain_coral_fan", "minecraft:dead_tube_coral_fan"),
        ("minecraft:brain_coral_block", "minecraft:tube_coral_block"),
        ("minecraft:brain_coral_wall_fan", "minecraft:tube_coral_wall_fan"),
        ("minecraft:brain_coral", "minecraft:tube_coral"),
    ];

    for (source, expected) in cases {
        let coral = state(source, &[("waterlogged", "true")]);
        let entry = plan_for(&coral, &palette, &[]);

        let Decision::Replace { state, .. } = &entry.decision else {
            panic!("expected a replacement for {source}");
        };

        assert_eq!(state.name.as_str(), expected);
        assert_eq!(state.property("waterlogged").unwrap(), "true");
    }

    let already_tube = state("minecraft:tube_coral", &[]);
    let entry = plan_for(&already_tube, &palette, &[]);
    assert!(matches!(entry.decision, Decision::Keep));
}

#[test]
fn same_target_is_a_keep() {
    let stairs = state("minecraft:stone_brick_stairs", &[("facing", "north")]);
    let entry = plan_for(&stairs, &palette_with_stair("minecraft:stone_brick_stairs"), &[]);

    assert!(matches!(entry.decision, Decision::Keep));
}

fn to_file_state(state: &BlockState) -> mcdata::GenericBlockState {
    mcdata::GenericBlockState {
        name: Cow::Owned(state.name.clone()),
        properties: state
            .properties
            .iter()
            .map(|(n, v)| (Cow::Owned(n.clone()), Cow::Owned(v.clone())))
            .collect(),
    }
}

fn to_file_region(region: &SchematicRegion) -> rustmatica::Region {
    let p = region.position();
    let s = region.size();
    let mut out = rustmatica::Region::new(
        String::from(region.name()),
        mcdata::util::BlockPos::new(p.x, p.y, p.z),
        mcdata::util::BlockPos::new(s.x, s.y, s.z),
    );

    for i in 0..region.volume() {
        let pos = region.position_of_index(i);
        out.set_block(
            mcdata::util::BlockPos::new(pos.x, pos.y, pos.z),
            to_file_state(region.block_at_index(i)),
        );
    }

    for pos in region.block_entities() {
        out.block_entities.push(mcdata::GenericBlockEntity {
            id: "".into(),
            pos: mcdata::util::BlockPos::new(pos.x, pos.y, pos.z),
            properties: HashMap::new(),
        });
    }

    out
}

#[test]
fn applies_a_plan_end_to_end_through_a_file() {
    let mut region = SchematicRegion::new(String::from("build"), BlockPos::new(0, 0, 0), BlockPos::new(4, 1, 1));

    let stairs = state(
        "minecraft:oak_stairs",
        &[("facing", "east"), ("half", "top"), ("shape", "straight")],
    );
    region.set_block(BlockPos::new(0, 0, 0), stairs);

    let chest = state("minecraft:chest", &[("facing", "north")]);
    region.set_block(BlockPos::new(1, 0, 0), chest.clone());
    region.set_block(BlockPos::new(2, 0, 0), chest);

    for x in [1, 2] {
        region.add_block_entity(BlockPos::new(x, 0, 0));
    }

    let modded = state("create:brass_block", &[]);
    region.set_block(BlockPos::new(3, 0, 0), modded);

    let mut palette = Palette::default();
    palette.targets.insert(Category::Stair, id("minecraft:stone_brick_stairs"));

    // An explicit override targets chests, which must replace them and drop
    // their block entities.
    let chest_override = OverrideSpec::parse("minecraft:chest=minecraft:stone_bricks").unwrap();

    let mcdata = McData::empty();
    let entries = region.block_palette().to_vec();
    let plan = ReplacementPlan::build(&entries, &palette, &[chest_override], &Vec::new(), &mcdata);

    let report = apply(&mut region, &plan);

    assert_eq!(
        report.replacements.get(&(
            String::from("minecraft:oak_stairs"),
            String::from("minecraft:stone_brick_stairs")
        )),
        1
    );
    assert_eq!(
        report.replacements.get(&(
            String::from("minecraft:chest"),
            String::from("minecraft:stone_bricks")
        )),
        2
    );
    assert_eq!(report.replaced(), 3);
    assert!(report.skipped_block_entities.is_empty());
    assert!(region.block_entities().is_empty());

    let mut built: rustmatica::Litematic = rustmatica::Litematic::new("test", "", "snorm");
    built.regions.push(to_file_region(&region));

    let dir = tempfile::tempdir().unwrap();
    let path = dir.path().join("normalized.litematic");
    built.write_file(&path).unwrap();
    let loaded: rustmatica::Litematic = rustmatica::Litematic::read_file(&path).unwrap();

    let region = &loaded.regions[0];

    let stairs = region.get_block(mcdata::util::BlockPos::new(0, 0, 0));
    assert_eq!(stairs.name, "minecraft:stone_brick_stairs");
    assert_eq!(stairs.properties.get("facing").unwrap(), "east");
    assert_eq!(stairs.properties.get("half").unwrap(), "top");

    let former_chest = region.get_block(mcdata::util::BlockPos::new(1, 0, 0));
    assert_eq!(former_chest.name, "minecraft:stone_bricks");
    assert!(former_chest.properties.get("facing").is_some());

    let untouched = region.get_block(mcdata::util::BlockPos::new(3, 0, 0));
    assert_eq!(untouched.name, "create:brass_block");
}

#[test]
fn category_replacement_skips_block_entities() {
    let mut region = SchematicRegion::new(String::from("build"), BlockPos::new(0, 0, 0), BlockPos::new(1, 1, 1));

    region.set_block(BlockPos::new(0, 0, 0), state("minecraft:cobblestone", &[]));
    region.add_block_entity(BlockPos::new(0, 0, 0));

    let mut palette = Palette::default();
    palette.targets.insert(Category::Solid, id("minecraft:stone_bricks"));
    palette.solid_members.insert(id("minecraft:cobblestone"));

    let entries = region.block_palette().to_vec();
    let plan = ReplacementPlan::build(&entries, &palette, &[], &Vec::new(), &McData::empty());
    let report = apply(&mut region, &plan);

    assert_eq!(report.replaced(), 0);
    assert_eq!(
        report
            .skipped_block_entities
            .get(&String::from("minecraft:cobblestone")),
        1
    );
    assert_eq!(
        region.get_block(BlockPos::new(0, 0, 0)).name,
        "minecraft:cobblestone"
    );
    assert_eq!(region.block_entities().len(), 1);
}
