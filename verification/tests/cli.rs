use std::path::PathBuf;

use snorm::cli::{parse_block_id, parse_override, parse_rename, OutputTarget};

#[test]
fn renames_are_old_equals_new() {
    assert_eq!(
        parse_rename("tower=keep").unwrap(),
        (String::from("tower"), String::from("keep"))
    );
    assert_eq!(
        parse_rename("a=b=c").unwrap(),
        (String::from("a"), String::from("b=c"))
    );
    for bad in ["tower", "=keep", "tower=", ""] {
        assert_eq!(parse_rename(bad).unwrap_err(), "expected 'OLD=NEW'");
    }
}

#[test]
fn argument_parsers_report_messages() {
    assert_eq!(parse_block_id(" dirt ").unwrap().as_str(), "minecraft:dirt");
    assert_eq!(parse_block_id("a:b:c").unwrap_err(), "block id 'a:b:c' contains more than one ':'");

    assert_eq!(parse_override("dirt=stone").unwrap().sources.len(), 1);
    assert_eq!(
        parse_override("dirt").unwrap_err(),
        "override 'dirt' is missing '=' (expected 'source[,source]=target')"
    );
    assert_eq!(parse_override("dirt=St").unwrap_err(), "in override 'dirt=St'");
}

#[test]
fn output_targets_resolve_against_the_input() {
    let input = PathBuf::from("/builds/tower.litematic");

    assert_eq!(OutputTarget::InPlace.resolve(&input), input);
    assert_eq!(
        OutputTarget::Path(PathBuf::from("/out/x.litematic")).resolve(&input),
        PathBuf::from("/out/x.litematic")
    );
}
