use snorm::block::{BlockId, BlockState};
use snorm::category::Category;
use snorm::inspect::{block_lines, marker};
use snorm::mcdata::{BlockDefinition, BlockInfo, McData};
use snorm::overrides::OverrideSpec;
use snorm::palette::Palette;
use snorm::schematic::{BlockPos, SchematicRegion};

fn state(name: &str) -> BlockState {
    BlockState::new(String::from(name), Vec::new())
}

fn plain(names: &[&str]) -> McData {
    McData::for_tests(
        names
            .iter()
            .map(|n| {
                (
                    String::from(*n),
                    BlockInfo {
                        definition: BlockDefinition {
                            kind: Some(String::from("minecraft:block")),
                        },
                        properties: Vec::new(),
                    },
                )
            })
            .collect(),
        Vec::new(),
    )
}

#[test]
fn markers_follow_what_normalize_would_do() {
    let mcdata = plain(&["minecraft:stone", "minecraft:obsidian", "minecraft:dirt", "minecraft:stone_bricks"]);
    let mut palette = Palette::default();
    palette.protected.insert(BlockId::parse("obsidian").unwrap());
    palette.solid_members.insert(BlockId::parse("dirt").unwrap());
    palette.targets.insert(Category::Solid, BlockId::parse("stone_bricks").unwrap());
    palette.overrides.push(OverrideSpec::parse("granite=").unwrap());

    assert_eq!(marker(&state("minecraft:obsidian"), &palette, &mcdata), Some(String::from("protected")));
    assert_eq!(marker(&state("minecraft:granite"), &palette, &mcdata), Some(String::from("override")));
    assert_eq!(marker(&state("minecraft:dirt"), &palette, &mcdata), Some(String::from("solid")));
    assert_eq!(marker(&state("minecraft:stone"), &palette, &mcdata), Some(String::from("solid candidate")));
    assert_eq!(marker(&state("minecraft:stone_bricks"), &palette, &mcdata), None);
    assert_eq!(marker(&state("minecraft:tinted_glass"), &palette, &mcdata), Some(String::from("glass")));
    assert_eq!(marker(&state("Not An Id"), &palette, &mcdata), None);

    // A configuration override beats protection, as it does in normalize.
    palette.overrides.push(OverrideSpec::parse("obsidian=crying_obsidian").unwrap());
    assert_eq!(marker(&state("minecraft:obsidian"), &palette, &mcdata), Some(String::from("override")));
}

#[test]
fn block_listing_is_ranked_by_count_then_name() {
    let mut region = SchematicRegion::new(String::from("r"), BlockPos::new(0, 0, 0), BlockPos::new(5, 1, 1));
    region.set_block(BlockPos::new(0, 0, 0), state("minecraft:stone"));
    region.set_block(BlockPos::new(1, 0, 0), state("minecraft:stone"));
    region.set_block(BlockPos::new(2, 0, 0), state("minecraft:dirt"));
    region.set_block(BlockPos::new(3, 0, 0), state("minecraft:cyan_glazed_terracotta"));

    let lines = block_lines(&region, &Palette::default(), &McData::empty());
    let view: Vec<(&str, u64, Option<&str>)> = lines
        .iter()
        .map(|l| (l.name.as_str(), l.count, l.marker.as_deref()))
        .collect();

    assert_eq!(
        view,
        vec![
            ("minecraft:stone", 2, None),
            ("minecraft:air", 1, None),
            ("minecraft:cyan_glazed_terracotta", 1, Some("terracotta")),
            ("minecraft:dirt", 1, None),
        ]
    );
}
