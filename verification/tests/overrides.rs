use snorm::block::{BlockId, BlockIdErrorKind};
use snorm::overrides::{OverrideErrorKind, OverrideSpec};

fn id(input: &str) -> BlockId {
    BlockId::parse(input).unwrap()
}

#[test]
fn parses_single_source() {
    let spec = OverrideSpec::parse("minecraft:dirt=minecraft:stone").unwrap();

    assert_eq!(spec.sources, vec![id("minecraft:dirt")]);
    assert_eq!(spec.target, Some(id("minecraft:stone")));
}

#[test]
fn parses_multiple_sources() {
    let spec = OverrideSpec::parse("dirt,grass_block=stone").unwrap();

    assert_eq!(spec.sources, vec![id("dirt"), id("grass_block")]);
    assert_eq!(spec.target, Some(id("stone")));
}

#[test]
fn empty_target_means_keep() {
    let spec = OverrideSpec::parse("minecraft:oak_stairs=").unwrap();

    assert_eq!(spec.sources, vec![id("minecraft:oak_stairs")]);
    assert_eq!(spec.target, None);
}

#[test]
fn allows_modded_target() {
    let spec = OverrideSpec::parse("minecraft:stone=create:brass_block").unwrap();

    assert_eq!(spec.target, Some(id("create:brass_block")));
}

#[test]
fn rejects_malformed_specs() {
    assert!(OverrideSpec::parse("minecraft:dirt").is_err());
    assert!(OverrideSpec::parse("=minecraft:stone").is_err());
    assert!(OverrideSpec::parse("a=b=c").is_err());
    assert!(OverrideSpec::parse("dirt,=stone").is_err());
    assert!(OverrideSpec::parse("").is_err());
}

#[test]
fn override_errors_name_the_broken_rule() {
    let kind = |input: &str| OverrideSpec::parse(input).unwrap_err().kind;

    assert_eq!(kind("minecraft:dirt"), OverrideErrorKind::MissingEquals);
    assert_eq!(kind(""), OverrideErrorKind::MissingEquals);
    assert_eq!(kind("a=b=c"), OverrideErrorKind::ExtraEquals);
    assert_eq!(
        kind("=minecraft:stone"),
        OverrideErrorKind::InvalidSource(BlockIdErrorKind::Empty)
    );
    assert_eq!(
        kind("dirt,=stone"),
        OverrideErrorKind::InvalidSource(BlockIdErrorKind::Empty)
    );
    assert_eq!(
        kind("dirt=Stone"),
        OverrideErrorKind::InvalidTarget(BlockIdErrorKind::InvalidPath)
    );

    let error = OverrideSpec::parse("dirt=Stone").unwrap_err();
    assert_eq!(error.input, "dirt=Stone");
    assert_eq!(error.cause.unwrap().input, "Stone");
}

#[test]
fn override_messages() {
    let message = |input: &str| OverrideSpec::parse(input).unwrap_err().message();

    assert_eq!(
        message("dirt"),
        "override 'dirt' is missing '=' (expected 'source[,source]=target')"
    );
    assert_eq!(message("a=b=c"), "override 'a=b=c' contains more than one '='");
    assert_eq!(message("dirt=Stone"), "in override 'dirt=Stone'");
}

#[test]
fn sources_and_target_are_trimmed() {
    let spec = OverrideSpec::parse(" dirt , minecraft:sand =  stone ").unwrap();

    assert_eq!(spec.sources, vec![id("dirt"), id("sand")]);
    assert_eq!(spec.target, Some(id("stone")));

    let keep = OverrideSpec::parse("dirt=   ").unwrap();
    assert_eq!(keep.target, None);
}
