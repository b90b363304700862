use snorm::extract::{bundled_jar_entry, checksum_matches, jar_checksum_matches, jar_sha1_hex, pick_version, tag_file_path};

#[test]
fn digests_compare_as_lowercase_hex() {
    assert!(checksum_matches(&[0x00, 0x0f, 0xa0, 0xff], "000fa0ff"));
    assert!(!checksum_matches(&[0x00, 0x0f, 0xa0, 0xff], "000FA0FF"));
    assert!(!checksum_matches(&[0x12], "1"));
    assert!(checksum_matches(&[], ""));
}

#[test]
fn jars_are_checked_by_their_sha1() {
    // SHA-1 of the empty input and of "abc".
    assert!(jar_checksum_matches(b"", "da39a3ee5e6b4b0d3255bfef95601890afd80709"));
    assert!(jar_checksum_matches(b"abc", "a9993e364706816aba3e25717850c26c9cd0d89d"));
    assert!(!jar_checksum_matches(b"abd", "a9993e364706816aba3e25717850c26c9cd0d89d"));
    assert_eq!(jar_sha1_hex(b"abc"), "a9993e364706816aba3e25717850c26c9cd0d89d");
}

#[test]
fn the_requested_version_wins_over_the_latest_release() {
    let ids = vec![String::from("1.21.5"), String::from("1.21.4"), String::from("1.20.1")];

    assert_eq!(pick_version(&ids, "1.21.5", None), (String::from("1.21.5"), Some(0)));
    assert_eq!(pick_version(&ids, "1.21.5", Some("1.20.1")), (String::from("1.20.1"), Some(2)));
    assert_eq!(pick_version(&ids, "1.21.5", Some("0.1")), (String::from("0.1"), None));
}

#[test]
fn bundlers_name_their_server_jar_on_the_first_line() {
    assert_eq!(
        bundled_jar_entry("abc123\t1.0.0\t1.0.0/server-1.0.0.jar"),
        Some(String::from("META-INF/versions/1.0.0/server-1.0.0.jar"))
    );
    assert_eq!(
        bundled_jar_entry("h\t1.21\t1.21/server-1.21.jar  \r\nh\t1.20\t1.20/other.jar\n"),
        Some(String::from("META-INF/versions/1.21/server-1.21.jar"))
    );
    assert_eq!(bundled_jar_entry(""), None);
    assert_eq!(bundled_jar_entry("   \nh x y"), None);
}

#[test]
fn block_tags_are_found_in_both_layouts() {
    assert_eq!(
        tag_file_path("data/minecraft/tags/block/stairs.json"),
        Some(String::from("stairs.json"))
    );
    assert_eq!(
        tag_file_path("data/minecraft/tags/blocks/mineable/axe.json"),
        Some(String::from("mineable/axe.json"))
    );
    assert_eq!(tag_file_path("data/minecraft/tags/block/mineable/"), None);
    assert_eq!(tag_file_path("data/minecraft/tags/item/stairs.json"), None);
}
