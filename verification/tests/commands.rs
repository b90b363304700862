use std::path::PathBuf;

use snorm::block::BlockId;
use snorm::cli::OutputTarget;
use snorm::commands::{
    normalized_file_name, DataCleanCommand, DataExtractCommand, InspectCommand, NormalizeCommand, RegionListCommand,
    RegionRenameCommand,
};
use snorm::errors::{indent_cause, CliError, Verbosity};
use snorm::overrides::OverrideSpec;

fn normalize_command(out: Option<&str>, in_place: bool) -> NormalizeCommand {
    NormalizeCommand {
        schematic: PathBuf::from("build/house.litematic"),
        palette: Some(PathBuf::from("snorm.toml")),
        overrides: vec![OverrideSpec::parse("dirt=stone").unwrap()],
        solids: vec![BlockId::parse("minecraft:stone_bricks").unwrap()],
        out: out.map(PathBuf::from),
        in_place,
        regions: vec![String::from("main")],
        renames: vec![(String::from("main"), String::from("house"))],
        dry_run: true,
        mc_version: Some(String::from("1.21.5")),
    }
}

fn path_of(target: &OutputTarget) -> Option<PathBuf> {
    match target {
        OutputTarget::InPlace => None,
        OutputTarget::Path(p) => Some(p.clone()),
    }
}

#[test]
fn normalize_writes_next_to_the_input_by_default() {
    assert_eq!(normalized_file_name("house"), "house.normalized.litematic");
    assert_eq!(normalized_file_name(""), ".normalized.litematic");

    let default = PathBuf::from("build/house.normalized.litematic");

    let options = normalize_command(None, false).options(&default);
    assert_eq!(path_of(&options.output), Some(default.clone()));
    assert_eq!(options.schematic, PathBuf::from("build/house.litematic"));
    assert_eq!(options.palette, Some(PathBuf::from("snorm.toml")));
    assert_eq!(options.overrides.len(), 1);
    assert_eq!(options.overrides[0].sources[0].as_str(), "minecraft:dirt");
    assert_eq!(options.solids[0].as_str(), "minecraft:stone_bricks");
    assert_eq!(options.regions, vec![String::from("main")]);
    assert_eq!(options.renames, vec![(String::from("main"), String::from("house"))]);
    assert!(options.dry_run);
    assert_eq!(options.mc_version, Some(String::from("1.21.5")));

    let options = normalize_command(Some("out.litematic"), false).options(&default);
    assert_eq!(path_of(&options.output), Some(PathBuf::from("out.litematic")));

    let options = normalize_command(None, true).options(&default);
    assert_eq!(path_of(&options.output), None);
}

#[test]
fn other_commands_hand_their_arguments_on() {
    let inspect = InspectCommand { schematic: PathBuf::from("a.litematic"), palette: None }.options();
    assert_eq!(inspect.schematic, PathBuf::from("a.litematic"));
    assert_eq!(inspect.palette, None);

    let list = RegionListCommand { schematic: PathBuf::from("a.litematic") }.options();
    assert_eq!(list.schematic, PathBuf::from("a.litematic"));

    let rename = RegionRenameCommand {
        schematic: PathBuf::from("a.litematic"),
        renames: vec![(String::from("a"), String::from("b"))],
        out: None,
        in_place: true,
    }
    .options();
    assert_eq!(path_of(&rename.output), None);
    assert_eq!(rename.renames, vec![(String::from("a"), String::from("b"))]);

    let rename = RegionRenameCommand {
        schematic: PathBuf::from("a.litematic"),
        renames: Vec::new(),
        out: Some(PathBuf::from("b.litematic")),
        in_place: false,
    }
    .options();
    assert_eq!(path_of(&rename.output), Some(PathBuf::from("b.litematic")));

    let extract = DataExtractCommand { mc_version: None, jar: Some(PathBuf::from("server.jar")), force: true }.options();
    assert_eq!(extract.jar, Some(PathBuf::from("server.jar")));
    assert!(extract.force);
    assert_eq!(extract.mc_version, None);

    let clean = DataCleanCommand { mc_version: Some(String::from("1.20.1")) }.options();
    assert_eq!(clean.mc_version, Some(String::from("1.20.1")));
}

#[test]
fn exit_codes_follow_the_kind_of_error() {
    assert_eq!(CliError::from_failure("boom").exit_code, 101);
    assert_eq!(CliError::from_io("disk").exit_code, 1);
    assert_eq!(CliError::from_usage("bad flag", true).exit_code, 1);
    assert_eq!(CliError::from_usage("--help", false).exit_code, 0);
    let e = CliError::new("x", 7);
    assert_eq!((e.error, e.exit_code), (Some("x"), 7));
}

#[test]
fn quiet_wins_over_verbose() {
    assert_eq!(Verbosity::from_flags(true, 3), Verbosity::Quiet);
    assert_eq!(Verbosity::from_flags(false, 0), Verbosity::Regular);
    assert_eq!(Verbosity::from_flags(false, 1), Verbosity::Verbose);
    assert_eq!(Verbosity::from_flags(false, 5), Verbosity::VeryVerbose);
    assert!(!Verbosity::Quiet.shows_status());
    assert!(Verbosity::Verbose.shows_status());
}

#[test]
fn causes_are_indented_line_by_line() {
    assert_eq!(indent_cause("one"), "  one\n");
    assert_eq!(indent_cause("one\n\ntwo\r\n"), "  one\n\n  two\n");
    assert_eq!(indent_cause(""), "");
    assert_eq!(indent_cause("a\r"), "  a\r\n");
}
