use std::path::PathBuf;

use snorm::block::BlockId;
use snorm::category::Category;
use snorm::mcdata::McData;
use snorm::palette::{
    discover, parse, MemberList, PaletteErrorKind, RawCategories, RawConfig, RawData, RawMembers, RawPalette,
};

fn members(entries: &[&str]) -> RawMembers {
    RawMembers {
        members: entries.iter().map(|e| String::from(*e)).collect(),
    }
}

#[test]
fn parses_a_full_config() {
    let raw = RawConfig {
        data: RawData {
            jar: Some(PathBuf::from("/tmp/server.jar")),
        },
        palette: RawPalette {
            solid: Some(String::from("minecraft:stone_bricks")),
            stair: Some(String::from("stone_brick_stairs")),
            coral: Some(String::from("tube")),
            ..RawPalette::default()
        },
        categories: RawCategories {
            solid: members(&["minecraft:cobblestone", "andesite"]),
            protected: members(&["minecraft:obsidian", "#minecraft:beacon_base_blocks"]),
        },
        overrides: vec![
            (String::from("minecraft:mossy_cobblestone"), String::from("minecraft:stone_bricks")),
            (String::from("minecraft:oak_stairs"), String::from("")),
        ],
    };

    let palette = parse(raw).unwrap();
    let mcdata = McData::empty();

    assert_eq!(
        palette.targets.get(&Category::Solid).unwrap().as_str(),
        "minecraft:stone_bricks"
    );
    assert_eq!(
        palette.targets.get(&Category::Stair).unwrap().as_str(),
        "minecraft:stone_brick_stairs"
    );
    assert_eq!(palette.coral_family.as_deref(), Some("tube"));
    assert!(palette
        .solid_members
        .contains(&BlockId::parse("minecraft:andesite").unwrap(), &mcdata));
    assert!(palette
        .protected
        .contains(&BlockId::parse("minecraft:obsidian").unwrap(), &mcdata));
    assert_eq!(palette.overrides.len(), 2);
    assert!(palette
        .overrides
        .iter()
        .any(|o| o.sources[0].as_str() == "minecraft:oak_stairs" && o.target.is_none()));
    assert_eq!(palette.jar, Some(PathBuf::from("/tmp/server.jar")));
}

#[test]
fn member_tags_resolve_through_mcdata() {
    let raw = RawConfig {
        categories: RawCategories {
            protected: members(&["#minecraft:beacon_base_blocks"]),
            ..RawCategories::default()
        },
        ..RawConfig::default()
    };

    let palette = parse(raw).unwrap();

    let mcdata = McData::for_tests(
        Vec::new(),
        vec![(
            String::from("beacon_base_blocks"),
            vec![String::from("minecraft:iron_block")],
        )],
    );

    let iron = BlockId::parse("minecraft:iron_block").unwrap();
    assert!(palette.protected.contains(&iron, &mcdata));
    assert!(!palette.protected.contains(&iron, &McData::empty()));
}

#[test]
fn rejects_non_minecraft_tag_references() {
    let raw = RawConfig {
        categories: RawCategories {
            protected: members(&["#c:ores"]),
            ..RawCategories::default()
        },
        ..RawConfig::default()
    };

    assert!(parse(raw).is_err());
}

#[test]
fn rejects_invalid_coral_family() {
    let raw = RawConfig {
        palette: RawPalette {
            coral: Some(String::from("minecraft:tube_coral")),
            ..RawPalette::default()
        },
        ..RawConfig::default()
    };

    assert!(parse(raw).is_err());
}

#[test]
fn palette_errors_name_what_was_refused() {
    let target = RawConfig {
        palette: RawPalette {
            wall: Some(String::from("minecraft:Stone_Wall")),
            ..RawPalette::default()
        },
        ..RawConfig::default()
    };
    assert!(matches!(
        parse(target).unwrap_err().get_kind(),
        PaletteErrorKind::InvalidTarget(Category::Wall, _)
    ));

    let member = RawConfig {
        categories: RawCategories {
            solid: members(&["minecraft:"]),
            ..RawCategories::default()
        },
        ..RawConfig::default()
    };
    assert!(matches!(
        parse(member).unwrap_err().get_kind(),
        PaletteErrorKind::InvalidMember(MemberList::Solid, _)
    ));

    let tag = RawConfig {
        categories: RawCategories {
            protected: members(&["#c:ores"]),
            ..RawCategories::default()
        },
        ..RawConfig::default()
    };
    assert_eq!(
        parse(tag).unwrap_err().get_kind(),
        PaletteErrorKind::InvalidTagReference(MemberList::Protected)
    );

    let empty_family = RawConfig {
        palette: RawPalette {
            coral: Some(String::new()),
            ..RawPalette::default()
        },
        ..RawConfig::default()
    };
    assert_eq!(
        parse(empty_family).unwrap_err().get_kind(),
        PaletteErrorKind::InvalidCoralFamily
    );

    let override_error = RawConfig {
        overrides: vec![(String::from("dirt"), String::from("a=b"))],
        ..RawConfig::default()
    };
    assert!(matches!(
        parse(override_error).unwrap_err().get_kind(),
        PaletteErrorKind::InvalidOverride(_)
    ));
}

#[test]
fn members_are_ids_or_minecraft_tags() {
    let raw = RawConfig {
        categories: RawCategories {
            solid: members(&["cobblestone", "#minecraft:stone_bricks"]),
            ..RawCategories::default()
        },
        ..RawConfig::default()
    };
    let palette = parse(raw).unwrap();

    assert!(palette.solid_members.has_entries());
    assert!(!palette.protected.has_entries());

    let mcdata = McData::for_tests(
        Vec::new(),
        vec![(
            String::from("stone_bricks"),
            vec![String::from("minecraft:mossy_stone_bricks")],
        )],
    );
    let mossy = BlockId::parse("mossy_stone_bricks").unwrap();
    let cobble = BlockId::parse("minecraft:cobblestone").unwrap();
    assert!(palette.solid_members.contains(&mossy, &mcdata));
    assert!(palette.solid_members.contains(&cobble, &McData::empty()));
    assert!(!palette.solid_members.contains(&mossy, &McData::empty()));
}

#[test]
fn discovery_prefers_the_explicit_path() {
    let explicit = PathBuf::from("/x/mine.toml");
    let search = vec![
        (PathBuf::from("/cwd/snorm.toml"), false),
        (PathBuf::from("/home/palette.toml"), true),
    ];

    assert_eq!(discover(Some(&explicit), &search), Some(explicit.clone()));
    assert_eq!(discover(None, &search), Some(PathBuf::from("/home/palette.toml")));
    assert_eq!(discover(None, &search[..1]), None);
}
