use snorm::tags::{resolve_tag, resolve_tags, tag_names, TagValue};

fn raw(entries: &[(&str, &[&str])]) -> Vec<(String, Vec<String>)> {
    entries
        .iter()
        .map(|(name, values)| (String::from(*name), values.iter().map(|v| String::from(*v)).collect()))
        .collect()
}

fn sorted(mut v: Vec<String>) -> Vec<String> {
    v.sort();
    v
}

#[test]
fn nested_tag_references_are_resolved() {
    let tags = raw(&[
        ("stairs", &["minecraft:oak_stairs", "#minecraft:wooden_stairs"]),
        ("wooden_stairs", &["minecraft:spruce_stairs", "minecraft:oak_stairs"]),
    ]);

    assert_eq!(
        sorted(resolve_tag(&tags, "stairs")),
        vec!["minecraft:oak_stairs", "minecraft:spruce_stairs"]
    );
    assert_eq!(sorted(resolve_tag(&tags, "wooden_stairs")), vec!["minecraft:oak_stairs", "minecraft:spruce_stairs"]);
}

#[test]
fn cycles_and_foreign_references_end_the_walk() {
    let tags = raw(&[
        ("a", &["minecraft:stone", "#minecraft:b", "#create:casings"]),
        ("b", &["minecraft:dirt", "#minecraft:a"]),
    ]);

    assert_eq!(sorted(resolve_tag(&tags, "a")), vec!["minecraft:dirt", "minecraft:stone"]);
    assert_eq!(sorted(resolve_tag(&tags, "b")), vec!["minecraft:dirt", "minecraft:stone"]);
}

#[test]
fn unknown_tags_are_empty() {
    let tags = raw(&[("a", &["minecraft:stone", "#minecraft:missing"])]);

    assert!(resolve_tag(&tags, "missing").is_empty());
    assert_eq!(resolve_tag(&tags, "a"), vec!["minecraft:stone"]);
}

#[test]
fn every_tag_is_resolved_once() {
    let tags = raw(&[
        ("mineable/axe", &["#minecraft:planks"]),
        ("planks", &["minecraft:oak_planks", "minecraft:oak_planks"]),
    ]);

    let resolved = resolve_tags(&tags);

    assert_eq!(resolved.len(), 2);
    assert_eq!(resolved[0].0, "mineable/axe");
    assert_eq!(resolved[0].1, vec!["minecraft:oak_planks"]);
    assert_eq!(resolved[1].0, "planks");
    assert_eq!(resolved[1].1, vec!["minecraft:oak_planks"]);
}

#[test]
fn tag_files_list_names_and_entry_ids() {
    let values = vec![
        TagValue::Name(String::from("minecraft:stone")),
        TagValue::Entry(Some(String::from("#minecraft:logs"))),
        TagValue::Entry(None),
        TagValue::Other,
        TagValue::Name(String::from("minecraft:dirt")),
    ];

    assert_eq!(tag_names(&values), vec!["minecraft:stone", "#minecraft:logs", "minecraft:dirt"]);
    assert!(tag_names(&Vec::new()).is_empty());
}
