use snorm::block::BlockState;
use snorm::schematic::{region_names, rename_regions, BlockPos, RenameError, Schematic, SchematicRegion};

fn stone() -> BlockState {
    BlockState::new(String::from("minecraft:stone"), Vec::new())
}

fn fixture() -> Schematic {
    let mut tower = SchematicRegion::new(String::from("tower"), BlockPos::new(0, 0, 0), BlockPos::new(2, 2, 2));
    tower.set_block(BlockPos::new(0, 1, 0), stone());
    tower.set_block(BlockPos::new(1, 1, 1), stone());

    let mut moat = SchematicRegion::new(String::from("moat"), BlockPos::new(4, 0, 4), BlockPos::new(-2, 1, -2));
    moat.set_block(
        BlockPos::new(1, 0, 1),
        BlockState::new(
            String::from("minecraft:water"),
            vec![(String::from("level"), String::from("0"))],
        ),
    );

    let mut schematic = Schematic::new(
        String::from("fixture"),
        String::from("a test build"),
        String::from("snorm"),
    );
    schematic.regions.push(tower);
    schematic.regions.push(moat);
    schematic
}

#[test]
fn renames_regions_with_validation() {
    let mut schematic = fixture();

    rename_regions(&mut schematic, &[(String::from("tower"), String::from("keep"))]).unwrap();

    assert_eq!(region_names(&schematic), vec!["keep", "moat"]);

    let missing = rename_regions(&mut schematic, &[(String::from("tower"), String::from("other"))]);
    assert!(missing.is_err());

    let collision = rename_regions(&mut schematic, &[(String::from("keep"), String::from("moat"))]);
    assert!(collision.is_err());

    let unchanged = rename_regions(&mut schematic, &[(String::from("keep"), String::from("keep"))]);
    assert!(unchanged.is_err());
}

#[test]
fn refused_renames_say_why_and_keep_earlier_ones() {
    let mut schematic = fixture();

    let result = rename_regions(
        &mut schematic,
        &[
            (String::from("moat"), String::from("pond")),
            (String::from("castle"), String::from("fort")),
            (String::from("tower"), String::from("keep")),
        ],
    );

    match result {
        Err(RenameError::Missing { old, available }) => {
            assert_eq!(old, "castle");
            assert_eq!(available, vec!["tower", "pond"]);
        }
        other => panic!("unexpected {other:?}"),
    }
    assert_eq!(region_names(&schematic), vec!["tower", "pond"]);

    match rename_regions(&mut schematic, &[(String::from("tower"), String::from("pond"))]) {
        Err(RenameError::Exists { new }) => assert_eq!(new, "pond"),
        other => panic!("unexpected {other:?}"),
    }
    match rename_regions(&mut schematic, &[(String::from("pond"), String::from("pond"))]) {
        Err(RenameError::Unchanged { old, new }) => {
            assert_eq!(old, "pond");
            assert_eq!(new, "pond");
        }
        other => panic!("unexpected {other:?}"),
    }
}

#[test]
fn schematic_totals() {
    let schematic = fixture();

    assert_eq!(schematic.total_blocks(), 3);
    assert_eq!(schematic.total_volume(), 12);

    // tower covers 0..=1 on every axis; moat covers x 3..=4, y 0, z 3..=4.
    let size = schematic.enclosing_size();
    assert_eq!((size.x, size.y, size.z), (5, 2, 5));
}

#[test]
fn regions_index_x_fastest_then_z_then_y() {
    let region = SchematicRegion::new(String::from("r"), BlockPos::new(0, 0, 0), BlockPos::new(3, 2, -4));

    assert_eq!(region.volume(), 24);
    assert_eq!(region.index(BlockPos::new(2, 0, 0)), 2);
    assert_eq!(region.index(BlockPos::new(0, 0, 1)), 3);
    assert_eq!(region.index(BlockPos::new(0, 1, 0)), 12);

    for i in 0..region.volume() {
        let pos = region.position_of_index(i);
        assert!(region.is_in_bounds(pos));
        assert_eq!(region.index(pos), i);
    }
    assert!(!region.is_in_bounds(BlockPos::new(0, 0, 4)));
    assert!(region.get_block_opt(BlockPos::new(-1, 0, 0)).is_none());
}

#[test]
fn regions_are_rebuilt_from_their_file_parts() {
    let air = BlockState::new(String::from("minecraft:air"), Vec::new());
    let region = SchematicRegion::from_parts(
        String::from("r"),
        BlockPos::new(1, 2, 3),
        BlockPos::new(2, 1, -1),
        vec![air.clone(), stone()],
        vec![1, 0],
        vec![BlockPos::new(0, 0, 0)],
    )
    .unwrap();

    assert_eq!(region.name(), "r");
    assert_eq!(region.get_block(BlockPos::new(0, 0, 0)).name, "minecraft:stone");
    assert_eq!(region.get_block(BlockPos::new(1, 0, 0)).name, "minecraft:air");
    assert_eq!(region.block_entities(), &[BlockPos::new(0, 0, 0)]);
    assert_eq!(region.total_blocks(), 1);

    // A grid of the wrong length, an index outside the palette and an empty
    // palette are refused.
    assert!(SchematicRegion::from_parts(String::from("r"), BlockPos::new(0, 0, 0), BlockPos::new(2, 1, 1), vec![air.clone()], vec![0], Vec::new()).is_none());
    assert!(SchematicRegion::from_parts(String::from("r"), BlockPos::new(0, 0, 0), BlockPos::new(1, 1, 1), vec![air.clone()], vec![1], Vec::new()).is_none());
    assert!(SchematicRegion::from_parts(String::from("r"), BlockPos::new(0, 0, 0), BlockPos::new(1, 1, 1), Vec::new(), vec![0], Vec::new()).is_none());

    // An empty axis makes an empty grid.
    let flat = SchematicRegion::from_parts(String::from("flat"), BlockPos::new(0, 0, 0), BlockPos::new(0, 3, 1), vec![air], Vec::new(), Vec::new()).unwrap();
    assert_eq!(flat.volume(), 0);
    assert_eq!(flat.total_blocks(), 0);
    assert_eq!(flat.abs_size(), (0, 3, 1));
}

#[test]
fn region_sizes_must_be_indexable() {
    assert!(SchematicRegion::is_valid_size(BlockPos::new(-3, 4, 5)));
    assert!(SchematicRegion::is_valid_size(BlockPos::new(0, 4, 5)));
    assert!(SchematicRegion::is_valid_size(BlockPos::new(65536, 65536, 0)));
    assert!(!SchematicRegion::is_valid_size(BlockPos::new(i32::MIN, 1, 1)));
    assert!(!SchematicRegion::is_valid_size(BlockPos::new(65536, 65536, 1)));
    assert!(SchematicRegion::is_valid_size(BlockPos::new(i32::MAX, 1, 1)));
}
