use snorm::block::{BlockId, BlockIdErrorKind, BlockState, BlockStateKey};
use snorm::block::state_key;

#[test]
fn parses_namespaced_id() {
    let id = BlockId::parse("minecraft:stone_bricks").unwrap();

    assert_eq!(id.as_str(), "minecraft:stone_bricks");
    assert_eq!(id.namespace(), "minecraft");
    assert_eq!(id.path(), "stone_bricks");
}

#[test]
fn defaults_to_minecraft_namespace() {
    let id = BlockId::parse("dirt").unwrap();

    assert_eq!(id.as_str(), "minecraft:dirt");
}

#[test]
fn accepts_modded_namespaces() {
    let id = BlockId::parse("create:brass_block").unwrap();

    assert_eq!(id.namespace(), "create");
}

#[test]
fn rejects_invalid_ids() {
    assert!(BlockId::parse("").is_err());
    assert!(BlockId::parse("  ").is_err());
    assert!(BlockId::parse(":stone").is_err());
    assert!(BlockId::parse("minecraft:").is_err());
    assert!(BlockId::parse("a:b:c").is_err());
    assert!(BlockId::parse("Minecraft:Stone").is_err());
    assert!(BlockId::parse("minecraft:sto ne").is_err());
}

#[test]
fn state_key_sorts_properties() {
    let a = BlockStateKey::new(
        String::from("minecraft:oak_stairs"),
        vec![
            (String::from("half"), String::from("bottom")),
            (String::from("facing"), String::from("north")),
        ],
    );

    let b = BlockStateKey::new(
        String::from("minecraft:oak_stairs"),
        vec![
            (String::from("facing"), String::from("north")),
            (String::from("half"), String::from("bottom")),
        ],
    );

    assert_eq!(a, b);
}

#[test]
fn block_id_errors_name_the_broken_rule() {
    let kind = |input: &str| BlockId::parse(input).unwrap_err().kind;

    assert_eq!(kind(""), BlockIdErrorKind::Empty);
    assert_eq!(kind("  "), BlockIdErrorKind::Empty);
    assert_eq!(kind(":stone"), BlockIdErrorKind::EmptyNamespace);
    assert_eq!(kind("minecraft:"), BlockIdErrorKind::EmptyPath);
    assert_eq!(kind("a:b:c"), BlockIdErrorKind::ExtraColon);
    assert_eq!(kind("Minecraft:stone"), BlockIdErrorKind::InvalidNamespace);
    assert_eq!(kind("minecraft:sto ne"), BlockIdErrorKind::InvalidPath);
}

#[test]
fn block_id_error_messages() {
    let message = |input: &str| BlockId::parse(input).unwrap_err().message();

    assert_eq!(message(""), "block id is empty");
    assert_eq!(message(" :stone "), "block id ':stone' has an empty namespace");
    assert_eq!(message("minecraft:"), "block id 'minecraft:' has an empty path");
    assert_eq!(message("a:b:c"), "block id 'a:b:c' contains more than one ':'");
    assert_eq!(
        message("Minecraft:stone"),
        "block id 'Minecraft:stone' has invalid characters in its namespace"
    );
    assert_eq!(
        message("minecraft:Stone"),
        "block id 'minecraft:Stone' has invalid characters in its path"
    );
}

#[test]
fn parsing_trims_and_accepts_path_slashes() {
    let id = BlockId::parse("  mod.x:deco/lamp-1  ").unwrap();

    assert_eq!(id.as_str(), "mod.x:deco/lamp-1");
    assert_eq!(id.namespace(), "mod.x");
    assert_eq!(id.path(), "deco/lamp-1");
}

#[test]
fn parsing_a_canonical_id_gives_it_back() {
    for input in ["dirt", "minecraft:stone", "create:brass_block", " mod:a/b "] {
        let id = BlockId::parse(input).unwrap();
        let again = BlockId::parse(id.as_str()).unwrap();

        assert_eq!(again, id);
    }
}

#[test]
fn equal_keys_mean_equal_states() {
    let a = BlockState::new(
        String::from("minecraft:oak_stairs"),
        vec![
            (String::from("half"), String::from("bottom")),
            (String::from("facing"), String::from("north")),
        ],
    );
    let b = BlockState::new(
        String::from("minecraft:oak_stairs"),
        vec![
            (String::from("facing"), String::from("north")),
            (String::from("half"), String::from("bottom")),
        ],
    );
    let c = BlockState::new(
        String::from("minecraft:oak_stairs"),
        vec![
            (String::from("facing"), String::from("south")),
            (String::from("half"), String::from("bottom")),
        ],
    );

    assert_eq!(state_key(&a), state_key(&b));
    assert_ne!(state_key(&a), state_key(&c));
    assert_eq!(
        state_key(&a).properties().to_vec(),
        vec![
            (String::from("facing"), String::from("north")),
            (String::from("half"), String::from("bottom")),
        ]
    );
    assert_eq!(a.property("half"), Some(String::from("bottom")));
    assert_eq!(a.property("shape"), None);
}
