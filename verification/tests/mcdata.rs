use std::path::PathBuf;

use snorm::mcdata::{best_cached_version, cached_version, sort_versions, versions_to_clean, CacheManifest, CachedVersion, McData};

fn version(id: &str, data_version: i32) -> CachedVersion {
    CachedVersion {
        manifest: CacheManifest {
            id: String::from(id),
            data_version,
        },
        path: PathBuf::from(format!("/cache/{id}")),
    }
}

fn ids(versions: &[CachedVersion]) -> Vec<&str> {
    versions.iter().map(|v| v.manifest.id.as_str()).collect()
}

#[test]
fn versions_are_listed_newest_first_keeping_ties_in_order() {
    let sorted = sort_versions(vec![
        version("1.20.1", 3465),
        version("1.21.5", 4325),
        version("snapshot-a", 3700),
        version("snapshot-b", 3700),
        version("1.19", 3105),
    ]);

    assert_eq!(ids(&sorted), vec!["1.21.5", "snapshot-a", "snapshot-b", "1.20.1", "1.19"]);
}

#[test]
fn best_version_is_the_oldest_at_least_as_new() {
    let versions = sort_versions(vec![version("a", 3465), version("b", 4325), version("c", 3700)]);

    assert_eq!(best_cached_version(&versions, 3600).unwrap().manifest.id, "c");
    assert_eq!(best_cached_version(&versions, 3465).unwrap().manifest.id, "a");
    assert_eq!(best_cached_version(&versions, 100).unwrap().manifest.id, "a");
    // Newer than everything cached: the newest.
    let newest = best_cached_version(&versions, 9999).unwrap();
    assert_eq!(newest.manifest.id, "b");
    assert_eq!(newest.path, PathBuf::from("/cache/b"));
    assert!(best_cached_version(&[], 3465).is_none());
}

#[test]
fn cached_version_finds_by_id() {
    let versions = vec![version("1.21.5", 4325), version("1.20.1", 3465)];

    assert_eq!(cached_version(&versions, "1.20.1").unwrap().manifest.data_version, 3465);
    assert!(cached_version(&versions, "1.18").is_none());
}

#[test]
fn data_without_a_manifest_is_degraded() {
    assert!(McData::empty().is_degraded());
    assert!(McData::empty().manifest().is_none());
    assert!(McData::empty().block("minecraft:stone").is_none());
    assert!(!McData::empty().tag_contains("stairs", "minecraft:oak_stairs"));

    let data = McData::new(
        CacheManifest {
            id: String::from("1.21.5"),
            data_version: 4325,
        },
        Vec::new(),
        vec![(String::from("stairs"), vec![String::from("minecraft:oak_stairs")])],
    );
    assert!(!data.is_degraded());
    assert_eq!(data.manifest().unwrap().data_version, 4325);
    assert!(data.tag_contains("stairs", "minecraft:oak_stairs"));
    assert!(!data.tag_contains("slabs", "minecraft:oak_stairs"));
}

#[test]
fn cleaning_takes_all_versions_or_those_named() {
    let all = || vec![version("1.21.5", 4325), version("1.20.1", 3465), version("1.21.5", 4325)];

    let everything = versions_to_clean(all(), None).unwrap();
    assert_eq!(ids(&everything), vec!["1.21.5", "1.20.1", "1.21.5"]);

    let named = versions_to_clean(all(), Some("1.21.5")).unwrap();
    assert_eq!(ids(&named), vec!["1.21.5", "1.21.5"]);

    assert!(versions_to_clean(all(), Some("1.8")).is_none());
    assert_eq!(versions_to_clean(Vec::new(), None).map(|v| v.len()), Some(0));
}
