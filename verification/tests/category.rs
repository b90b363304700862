use snorm::block::BlockStateKey;
use snorm::category::{detect, is_solid_candidate, Category};
use snorm::mcdata::{BlockDefinition, BlockInfo, McData};

fn key(name: &str, properties: &[(&str, &str)]) -> BlockStateKey {
    BlockStateKey::new(
        String::from(name),
        properties
            .iter()
            .map(|(n, v)| (String::from(*n), String::from(*v)))
            .collect(),
    )
}

#[test]
fn detects_by_signature_without_mcdata() {
    let mcdata = McData::empty();

    let stairs = key(
        "mod:fancy_steps",
        &[("facing", "north"), ("half", "bottom"), ("shape", "straight")],
    );
    assert_eq!(detect(&stairs, &mcdata), Some(Category::Stair));

    let slab = key("mod:fancy_step", &[("type", "double")]);
    assert_eq!(detect(&slab, &mcdata), Some(Category::Slab));

    let wall = key(
        "mod:fancy_barrier",
        &[
            ("north", "low"),
            ("east", "none"),
            ("south", "tall"),
            ("west", "none"),
            ("up", "true"),
        ],
    );
    assert_eq!(detect(&wall, &mcdata), Some(Category::Wall));

    let fence = key(
        "minecraft:oak_fence",
        &[
            ("north", "true"),
            ("east", "false"),
            ("south", "true"),
            ("west", "false"),
        ],
    );
    assert_eq!(detect(&fence, &mcdata), None);

    let pane = key(
        "mod:crystal_pane",
        &[
            ("north", "true"),
            ("east", "false"),
            ("south", "true"),
            ("west", "false"),
        ],
    );
    assert_eq!(detect(&pane, &mcdata), Some(Category::GlassPane));
}

#[test]
fn detects_by_name_without_mcdata() {
    let mcdata = McData::empty();

    assert_eq!(
        detect(&key("minecraft:cyan_glazed_terracotta", &[]), &mcdata),
        Some(Category::Terracotta)
    );
    assert_eq!(detect(&key("minecraft:cyan_terracotta", &[]), &mcdata), None);
    assert_eq!(
        detect(&key("minecraft:tinted_glass", &[]), &mcdata),
        Some(Category::Glass)
    );
    assert_eq!(
        detect(&key("minecraft:dead_brain_coral_fan", &[]), &mcdata),
        Some(Category::Coral)
    );
    assert_eq!(detect(&key("minecraft:wall_torch", &[]), &mcdata), None);
    assert_eq!(detect(&key("minecraft:stone", &[]), &mcdata), None);
}

fn block(kind: &str, properties: &[(&str, &[&str])]) -> BlockInfo {
    BlockInfo {
        definition: BlockDefinition {
            kind: Some(String::from(kind)),
        },
        properties: properties
            .iter()
            .map(|(n, vs)| (String::from(*n), vs.iter().map(|v| String::from(*v)).collect()))
            .collect(),
    }
}

#[test]
fn tags_and_definitions_beat_signatures() {
    let mcdata = McData::for_tests(
        vec![
            (String::from("minecraft:oak_stairs"), block("minecraft:stair", &[])),
            (String::from("minecraft:stone"), block("minecraft:block", &[])),
            (
                String::from("minecraft:oak_log"),
                block("minecraft:rotated_pillar", &[("axis", &["x", "y", "z"])]),
            ),
        ],
        vec![(
            String::from("slabs"),
            vec![String::from("mod:odd_steps")],
        )],
    );

    // A tag wins over the stair-shaped signature.
    let odd = key(
        "mod:odd_steps",
        &[("facing", "north"), ("half", "bottom"), ("shape", "straight")],
    );
    assert_eq!(detect(&odd, &mcdata), Some(Category::Slab));
    assert_eq!(detect(&key("minecraft:oak_stairs", &[]), &mcdata), Some(Category::Stair));

    assert!(is_solid_candidate("minecraft:stone", &mcdata));
    assert!(!is_solid_candidate("minecraft:oak_log", &mcdata));
    assert!(!is_solid_candidate("minecraft:oak_stairs", &mcdata));
    assert!(!is_solid_candidate("minecraft:dirt", &mcdata));
    assert!(!is_solid_candidate("minecraft:stone", &McData::empty()));
}

#[test]
fn category_keys() {
    assert_eq!(Category::Solid.key(), "solid");
    assert_eq!(Category::GlassPane.key(), "glass_pane");
    assert_eq!(Category::Coral.key(), "coral");
}
