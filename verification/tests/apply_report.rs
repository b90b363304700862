use snorm::block::{BlockId, BlockState};
use snorm::category::Category;
use snorm::mcdata::{BlockDefinition, BlockInfo, McData};
use snorm::palette::Palette;
use snorm::plan::{apply, Decision, ReplacementPlan};
use snorm::report::{ChangeReport, Counts};
use snorm::schematic::{BlockPos, SchematicRegion};

fn state(name: &str, properties: &[(&str, &str)]) -> BlockState {
    BlockState::new(
        String::from(name),
        properties
            .iter()
            .map(|(n, v)| (String::from(*n), String::from(*v)))
            .collect(),
    )
}

fn stairs_schema() -> McData {
    let info = BlockInfo {
        definition: BlockDefinition {
            kind: Some(String::from("minecraft:stair")),
        },
        properties: vec![
            (String::from("facing"), vec![String::from("north"), String::from("east")]),
            (String::from("half"), vec![String::from("top"), String::from("bottom")]),
        ],
    };
    McData::for_tests(
        vec![(String::from("minecraft:stone_brick_stairs"), info)],
        Vec::new(),
    )
}

#[test]
fn replacement_drops_what_the_target_does_not_accept() {
    let mut palette = Palette::default();
    palette
        .targets
        .insert(Category::Stair, BlockId::parse("minecraft:stone_brick_stairs").unwrap());
    let mcdata = stairs_schema();

    let source = state(
        "minecraft:oak_stairs",
        &[("waterlogged", "true"), ("facing", "east"), ("half", "left"), ("shape", "straight")],
    );
    let plan = ReplacementPlan::build(&[source.clone()], &palette, &[], &Vec::new(), &mcdata);
    let entry = plan.get(&snorm::block::state_key(&source)).unwrap();

    let Decision::Replace { state, dropped, explicit } = &entry.decision else {
        panic!("expected a replacement");
    };
    assert_eq!(state.properties, vec![(String::from("facing"), String::from("east"))]);
    assert_eq!(
        dropped,
        &vec![String::from("half"), String::from("shape"), String::from("waterlogged")]
    );
    assert!(!explicit);
}

#[test]
fn apply_reports_each_block_once() {
    let mut region = SchematicRegion::new(String::from("tower"), BlockPos::new(1, 2, 3), BlockPos::new(-3, 1, 2));

    let oak = state("minecraft:oak_stairs", &[("facing", "east"), ("waterlogged", "false")]);
    region.set_block(BlockPos::new(0, 0, 0), oak.clone());
    region.set_block(BlockPos::new(1, 0, 0), oak.clone());
    region.set_block(BlockPos::new(2, 0, 1), oak);
    region.set_block(BlockPos::new(0, 0, 1), state("minecraft:stone", &[]));

    let mut palette = Palette::default();
    palette
        .targets
        .insert(Category::Stair, BlockId::parse("minecraft:stone_brick_stairs").unwrap());
    let mcdata = stairs_schema();

    let entries = region.block_palette().to_vec();
    let plan = ReplacementPlan::build(&entries, &palette, &[], &Vec::new(), &mcdata);
    let report = apply(&mut region, &plan);

    assert_eq!(report.name, "tower");
    assert_eq!(report.size, (3, 1, 2));
    assert_eq!(report.blocks, 4);
    assert_eq!(report.replaced(), 3);
    assert_eq!(
        report.warnings,
        vec![String::from(
            "dropped waterlogged replacing minecraft:oak_stairs -> minecraft:stone_brick_stairs"
        )]
    );
    assert_eq!(
        report.kept.get(&(String::from("minecraft:stone"), None)),
        1
    );
    assert_eq!(report.kept.len(), 1);

    let replaced = region.get_block(BlockPos::new(2, 0, 1));
    assert_eq!(replaced.name, "minecraft:stone_brick_stairs");
    assert_eq!(replaced.property("facing"), Some(String::from("east")));
    assert_eq!(replaced.property("waterlogged"), None);
    assert_eq!(region.get_block(BlockPos::new(1, 0, 1)).name, "minecraft:air");

    let mut all = ChangeReport::default();
    all.regions.push(report);
    assert_eq!(all.replaced(), 3);
    assert_eq!(all.blocks(), 4);
    assert_eq!(all.warning_count(), 1);
}

#[test]
fn protected_and_categorized_blocks_are_labelled_when_kept() {
    let mut region = SchematicRegion::new(String::from("r"), BlockPos::new(0, 0, 0), BlockPos::new(3, 1, 1));
    region.set_block(BlockPos::new(0, 0, 0), state("minecraft:obsidian", &[]));
    region.set_block(BlockPos::new(1, 0, 0), state("minecraft:oak_slab", &[("type", "top")]));

    let mut palette = Palette::default();
    palette.protected.insert(BlockId::parse("minecraft:obsidian").unwrap());

    let entries = region.block_palette().to_vec();
    let plan = ReplacementPlan::build(&entries, &palette, &[], &Vec::new(), &McData::empty());
    let report = apply(&mut region, &plan);

    assert_eq!(report.replaced(), 0);
    assert_eq!(report.blocks, 2);
    assert_eq!(
        report
            .kept
            .get(&(String::from("minecraft:obsidian"), Some(String::from("protected")))),
        1
    );
    assert_eq!(
        report
            .kept
            .get(&(String::from("minecraft:oak_slab"), Some(String::from("slab")))),
        1
    );
    assert_eq!(report.kept.len(), 2);
}

#[test]
fn counters_list_in_key_order() {
    let mut kept: Counts<(String, Option<String>)> = Counts::new();
    for key in [
        ("minecraft:stone", Some("solid")),
        ("minecraft:oak_stairs", Some("stair")),
        ("minecraft:stone", None),
        ("minecraft:dirt", None),
        ("minecraft:oak_stairs", Some("stair")),
    ] {
        kept.increment((String::from(key.0), key.1.map(String::from)));
    }

    let entries = kept.entries();
    let listed: Vec<(String, Option<String>, u64)> = kept
        .key_order_positions()
        .into_iter()
        .map(|p| (entries[p].0 .0.clone(), entries[p].0 .1.clone(), entries[p].1))
        .collect();

    assert_eq!(
        listed,
        vec![
            (String::from("minecraft:dirt"), None, 1),
            (String::from("minecraft:oak_stairs"), Some(String::from("stair")), 2),
            (String::from("minecraft:stone"), None, 1),
            (String::from("minecraft:stone"), Some(String::from("solid")), 1),
        ]
    );

    let mut pairs: Counts<(String, String)> = Counts::new();
    pairs.increment((String::from("b"), String::from("a")));
    pairs.increment((String::from("a"), String::from("z")));
    pairs.increment((String::from("a"), String::from("b")));
    let entries = pairs.entries();
    let order: Vec<&(String, String)> = pairs.key_order_positions().into_iter().map(|p| &entries[p].0).collect();
    assert_eq!(
        order,
        vec![
            &(String::from("a"), String::from("b")),
            &(String::from("a"), String::from("z")),
            &(String::from("b"), String::from("a")),
        ]
    );
}

#[test]
fn regions_with_an_empty_axis_are_left_as_they_are() {
    let mut region = SchematicRegion::new(String::from("flat"), BlockPos::new(0, 0, 0), BlockPos::new(3, 0, 2));
    let mut palette = Palette::default();
    palette.targets.insert(Category::Stair, BlockId::parse("stone_brick_stairs").unwrap());

    let entries = region.block_palette().to_vec();
    let plan = ReplacementPlan::build(&entries, &palette, &[], &Vec::new(), &McData::empty());
    let report = apply(&mut region, &plan);

    assert_eq!(region.volume(), 0);
    assert_eq!(report.blocks, 0);
    assert_eq!(report.replaced(), 0);
    assert_eq!(report.size, (3, 0, 2));
}
