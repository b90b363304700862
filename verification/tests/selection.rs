use snorm::block::{BlockId, BlockIdErrorKind};
use snorm::schematic::{BlockPos, Schematic, SchematicRegion};
use snorm::selection::{
    missing_region, offer_step, parse_selection, region_selected, solid_step, OfferStep, SelectionAnswer, SolidStep,
};

fn candidates() -> Vec<(BlockId, u64)> {
    vec![
        (BlockId::parse("stone").unwrap(), 41230),
        (BlockId::parse("andesite").unwrap(), 892),
    ]
}

fn chosen(line: &str) -> Vec<String> {
    match parse_selection(line, &candidates()) {
        SelectionAnswer::Chosen(ids) => ids.iter().map(|id| String::from(id.as_str())).collect(),
        other => panic!("unexpected {other:?}"),
    }
}

#[test]
fn empty_or_none_skips_the_solid_step() {
    for line in ["", "   ", "none", " NoNe \n"] {
        assert!(matches!(parse_selection(line, &candidates()), SelectionAnswer::Skip));
    }
}

#[test]
fn numbers_pick_candidates_and_ids_name_blocks() {
    assert_eq!(chosen("1"), vec!["minecraft:stone"]);
    assert_eq!(chosen(" 2 , 1 "), vec!["minecraft:andesite", "minecraft:stone"]);
    assert_eq!(chosen("+1,stone,minecraft:stone"), vec!["minecraft:stone"]);
    assert_eq!(chosen("dirt, 2"), vec!["minecraft:dirt", "minecraft:andesite"]);
    assert_eq!(chosen(",,1,,"), vec!["minecraft:stone"]);
}

#[test]
fn bad_tokens_spoil_the_answer() {
    match parse_selection("1, 3", &candidates()) {
        SelectionAnswer::NoCandidate(token) => assert_eq!(token, "3"),
        other => panic!("unexpected {other:?}"),
    }
    match parse_selection("0", &candidates()) {
        SelectionAnswer::NoCandidate(token) => assert_eq!(token, "0"),
        other => panic!("unexpected {other:?}"),
    }
    match parse_selection("Stone,1", &candidates()) {
        SelectionAnswer::InvalidId(e) => {
            assert_eq!(e.kind, BlockIdErrorKind::InvalidPath);
            assert_eq!(e.input, "Stone");
        }
        other => panic!("unexpected {other:?}"),
    }
    // Too large for a candidate number, so it is read as a block id.
    assert_eq!(chosen("99999999999999999999999999"), vec!["minecraft:99999999999999999999999999"]);
    assert!(matches!(parse_selection(",, ,", &candidates()), SelectionAnswer::Retry));
}

#[test]
fn solid_step_decisions() {
    assert_eq!(solid_step(true, true, false), SolidStep::Given);
    assert_eq!(solid_step(true, false, true), SolidStep::MissingTarget);
    assert_eq!(solid_step(false, false, false), SolidStep::Skip);
    assert_eq!(solid_step(false, true, true), SolidStep::Skip);
    assert_eq!(solid_step(false, true, false), SolidStep::Rank);

    assert_eq!(offer_step(0, true), OfferStep::Nothing);
    assert_eq!(offer_step(3, false), OfferStep::NoTerminal);
    assert_eq!(offer_step(3, true), OfferStep::Prompt);
}

#[test]
fn region_requests() {
    let mut schematic = Schematic::new(String::from("s"), String::new(), String::new());
    for name in ["tower", "moat"] {
        schematic.regions.push(SchematicRegion::new(
            String::from(name),
            BlockPos::new(0, 0, 0),
            BlockPos::new(1, 1, 1),
        ));
    }

    let requested = vec![String::from("moat"), String::from("keep"), String::from("yard")];
    assert_eq!(missing_region(&schematic, &requested), Some(String::from("keep")));
    assert_eq!(missing_region(&schematic, &requested[..1]), None);

    assert!(region_selected(&[], "tower"));
    assert!(region_selected(&requested, "moat"));
    assert!(!region_selected(&requested, "tower"));
}
