use std::io::{Cursor, Write};

use zip::write::SimpleFileOptions;
use zip::{CompressionMethod, ZipWriter};

use snorm::extract::tag_file_path;
use snorm::jar::{
    JarError, JarErrorKind, block_tag_entries, block_tags_among, data_archive, tag_files, version_json, zip_entry,
};

fn zip_with(entries: &[(&str, &[u8])], options: SimpleFileOptions) -> Vec<u8> {
    let mut buffer = Cursor::new(Vec::new());
    let mut writer = ZipWriter::new(&mut buffer);

    for (name, bytes) in entries {
        writer.start_file(*name, options).unwrap();
        writer.write_all(bytes).unwrap();
    }

    writer.finish().unwrap();

    buffer.into_inner()
}

fn zip_bytes(entries: &[(&str, &[u8])]) -> Vec<u8> {
    zip_with(entries, SimpleFileOptions::default())
}

fn error(kind: JarErrorKind, entry: &str) -> JarError {
    JarError { kind, entry: String::from(entry) }
}

const VERSION_JSON: &[u8] = br#"{"id": "1.0.0", "world_version": 42}"#;

const VERSIONS_LIST: &str = "META-INF/versions.list";

#[test]
fn opens_plain_jars_directly() {
    let jar = zip_bytes(&[("version.json", VERSION_JSON)]);

    let (archive, bundler) = data_archive(jar.clone()).unwrap();

    assert!(!bundler);
    assert_eq!(archive, jar);
    assert!(zip_entry(&archive, "version.json").unwrap().is_some());
}

#[test]
fn opens_the_inner_jar_of_bundlers() {
    let inner = zip_bytes(&[
        ("version.json", VERSION_JSON),
        ("data/minecraft/tags/block/stairs.json", br#"{"values": []}"#),
    ]);

    let outer = zip_bytes(&[
        (VERSIONS_LIST, b"abc123\t1.0.0\t1.0.0/server-1.0.0.jar"),
        ("META-INF/versions/1.0.0/server-1.0.0.jar", &inner),
    ]);

    let (archive, bundler) = data_archive(outer).unwrap();

    assert!(bundler);
    assert_eq!(archive, inner);

    let version = zip_entry(&archive, "version.json").unwrap().unwrap();
    let info: serde_json::Value = serde_json::from_slice(&version).unwrap();
    assert_eq!(info["id"], "1.0.0");
    assert_eq!(info["world_version"], 42);

    let tags = tag_files(&archive).unwrap();
    assert_eq!(tags.len(), 1);
    assert_eq!(tags[0].0, "stairs.json");
    assert_eq!(tags[0].1, br#"{"values": []}"#.to_vec());
}

#[test]
fn bytes_that_are_not_a_zip_are_not_a_jar() {
    assert_eq!(data_archive(b"not a zip".to_vec()), Err(error(JarErrorKind::NotAJar, "")));
}

#[test]
fn a_versions_list_must_be_utf8() {
    let jar = zip_bytes(&[(VERSIONS_LIST, &[0xff, 0xfe, b'a'])]);

    assert_eq!(data_archive(jar), Err(error(JarErrorKind::InvalidVersionsList, VERSIONS_LIST)));
}

#[test]
fn a_versions_list_must_name_a_jar() {
    let jar = zip_bytes(&[(VERSIONS_LIST, b"  \t \nabc\t1.0.0\t1.0.0/server.jar")]);

    assert_eq!(data_archive(jar), Err(error(JarErrorKind::EmptyVersionsList, VERSIONS_LIST)));
}

#[test]
fn the_named_jar_must_be_bundled() {
    let jar = zip_bytes(&[(VERSIONS_LIST, b"abc\t1.0.0\t1.0.0/server.jar")]);

    assert_eq!(
        data_archive(jar),
        Err(error(JarErrorKind::MissingInner, "META-INF/versions/1.0.0/server.jar"))
    );
}

#[test]
fn the_bundled_jar_must_be_a_zip() {
    let jar = zip_bytes(&[
        (VERSIONS_LIST, b"abc\t1.0.0\t1.0.0/server.jar"),
        ("META-INF/versions/1.0.0/server.jar", b"plain text"),
    ]);

    assert_eq!(
        data_archive(jar),
        Err(error(JarErrorKind::InvalidBundledJar, "META-INF/versions/1.0.0/server.jar"))
    );
}

#[test]
fn a_corrupted_entry_cannot_be_read() {
    let stored = SimpleFileOptions::default().compression_method(CompressionMethod::Stored);
    let mut jar = zip_with(&[(VERSIONS_LIST, b"abc\t1.0.0\t1.0.0/server.jar")], stored);

    let start = jar.windows(3).position(|w| w == b"abc").unwrap();
    jar[start] = b'x';

    assert_eq!(zip_entry(&jar, VERSIONS_LIST), Err(error(JarErrorKind::Unreadable, VERSIONS_LIST)));
    assert_eq!(data_archive(jar), Err(error(JarErrorKind::Unreadable, VERSIONS_LIST)));
}

#[test]
fn version_json_is_read_from_the_data_archive() {
    let archive = zip_bytes(&[("version.json", VERSION_JSON)]);
    assert_eq!(version_json(&archive).unwrap(), VERSION_JSON.to_vec());

    let empty = zip_bytes(&[("other.txt", b"x")]);
    assert_eq!(version_json(&empty), Err(error(JarErrorKind::NoVersionJson, "version.json")));
    assert_eq!(zip_entry(&empty, "version.json"), Ok(None));
}

#[test]
fn block_tags_are_found_in_both_layouts_in_archive_order() {
    let archive = zip_bytes(&[
        ("data/minecraft/tags/blocks/old.json", b"1"),
        ("data/minecraft/tags/item/stairs.json", b"2"),
        ("data/minecraft/tags/block/mineable/pickaxe.json", b"3"),
        ("data/minecraft/tags/block/", b""),
        ("version.json", VERSION_JSON),
    ]);

    let entries = block_tag_entries(&archive).unwrap();
    assert_eq!(
        entries,
        vec![
            (String::from("data/minecraft/tags/blocks/old.json"), String::from("old.json")),
            (
                String::from("data/minecraft/tags/block/mineable/pickaxe.json"),
                String::from("mineable/pickaxe.json")
            ),
        ]
    );

    let files = tag_files(&archive).unwrap();
    assert_eq!(
        files,
        vec![
            (String::from("old.json"), b"1".to_vec()),
            (String::from("mineable/pickaxe.json"), b"3".to_vec()),
        ]
    );
}

#[test]
fn an_archive_without_block_tags_is_refused() {
    let archive = zip_bytes(&[("data/minecraft/tags/item/stairs.json", b"2")]);

    assert_eq!(block_tag_entries(&archive), Err(error(JarErrorKind::NoBlockTags, "")));
    assert_eq!(tag_files(&archive), Err(error(JarErrorKind::NoBlockTags, "")));
    assert_eq!(tag_files(b"not a zip"), Err(error(JarErrorKind::Unreadable, "")));
}

#[test]
fn block_tags_among_names_keeps_their_order() {
    let names = vec![
        String::from("data/minecraft/tags/block/b.json"),
        String::from("data/minecraft/tags/block/a.json"),
        String::from("data/minecraft/tags/blocks/"),
    ];

    let tags = block_tags_among(&names);
    assert_eq!(tags.len(), 2);
    assert_eq!(tags[0].1, "b.json");
    assert_eq!(tags[1].1, "a.json");
    assert_eq!(tag_file_path("data/minecraft/tags/blocks/"), None);
}
