use wfc_solver::bits::Mask;
use wfc_solver::description::{
    CompiledDescription, HorizontalConnection, ProblemDescription, Tile, TileData, TileRotation,
    VerticalConnection,
};
use wfc_solver::utils::Dimensions;

fn mask_of(pattern: &[u8]) -> Mask {
    let mut m = Mask::repeat(false, pattern.len());
    for (i, b) in pattern.iter().enumerate() {
        if *b == 1 {
            m.set(i, true);
        }
    }
    m
}

fn vertical(tag: &str) -> VerticalConnection {
    VerticalConnection { connection: tag.to_string() }
}

fn horizontal(tag: &str, flipped: bool, symmetry: bool) -> HorizontalConnection {
    HorizontalConnection { symmetry, flipped, connection: tag.to_string() }
}

fn basic_straight_air_description() -> ProblemDescription<usize> {
    ProblemDescription {
        connections: vec!["air".to_string(), "half".to_string(), "full".to_string()],
        dimensions: Dimensions::new(3, 3, 3),
        tiles: vec![
            Tile {
                id: 0,
                can_flip: false,
                can_rotate: true,
                up: vec![vertical("air")],
                down: vec![vertical("air")],
                forward: vec![horizontal("air", false, true)],
                backward: vec![horizontal("air", false, true)],
                left: vec![horizontal("air", false, true)],
                right: vec![horizontal("air", false, true)],
            },
            Tile {
                id: 1, // straight
                can_flip: false,
                can_rotate: true,
                up: vec![vertical("air")],
                down: vec![vertical("full")],
                left: vec![horizontal("half", false, false)],
                right: vec![horizontal("half", true, false)],
                forward: vec![horizontal("air", false, true)],
                backward: vec![horizontal("air", false, true)],
            },
            Tile {
                id: 2, // corner
                can_flip: false,
                can_rotate: true,
                up: vec![vertical("air")],
                down: vec![vertical("full")],
                left: vec![horizontal("half", false, false)],
                right: vec![horizontal("air", false, true)],
                forward: vec![horizontal("half", true, false)],
                backward: vec![horizontal("air", false, true)],
            },
        ],
    }
}

fn basic_straight_air_compiled() -> CompiledDescription {
    CompiledDescription {
        dimensions: Dimensions::new(3, 3, 3),
        transformation: vec![
            TileData::new(0, TileRotation::R0, false),
            TileData::new(0, TileRotation::R90, false),
            TileData::new(0, TileRotation::R180, false),
            TileData::new(0, TileRotation::R270, false),
            TileData::new(1, TileRotation::R0, false),
            TileData::new(1, TileRotation::R90, false),
            TileData::new(1, TileRotation::R180, false),
            TileData::new(1, TileRotation::R270, false),
            TileData::new(2, TileRotation::R0, false),
            TileData::new(2, TileRotation::R90, false),
            TileData::new(2, TileRotation::R180, false),
            TileData::new(2, TileRotation::R270, false),
        ],
        up: vec![
            // Air
            mask_of(&[1, 1, 1, 1, 0, 0, 0, 0, 0, 0, 0, 0]),
            mask_of(&[1, 1, 1, 1, 0, 0, 0, 0, 0, 0, 0, 0]),
            mask_of(&[1, 1, 1, 1, 0, 0, 0, 0, 0, 0, 0, 0]),
            mask_of(&[1, 1, 1, 1, 0, 0, 0, 0, 0, 0, 0, 0]),
            // Straight
            mask_of(&[1, 1, 1, 1, 0, 0, 0, 0, 0, 0, 0, 0]),
            mask_of(&[1, 1, 1, 1, 0, 0, 0, 0, 0, 0, 0, 0]),
            mask_of(&[1, 1, 1, 1, 0, 0, 0, 0, 0, 0, 0, 0]),
            mask_of(&[1, 1, 1, 1, 0, 0, 0, 0, 0, 0, 0, 0]),
            // Corner
            mask_of(&[1, 1, 1, 1, 0, 0, 0, 0, 0, 0, 0, 0]),
            mask_of(&[1, 1, 1, 1, 0, 0, 0, 0, 0, 0, 0, 0]),
            mask_of(&[1, 1, 1, 1, 0, 0, 0, 0, 0, 0, 0, 0]),
            mask_of(&[1, 1, 1, 1, 0, 0, 0, 0, 0, 0, 0, 0]),
        ],
        down: vec![
            // Air
            mask_of(&[1, 1, 1, 1, 1, 1, 1, 1, 1, 1, 1, 1]),
            mask_of(&[1, 1, 1, 1, 1, 1, 1, 1, 1, 1, 1, 1]),
            mask_of(&[1, 1, 1, 1, 1, 1, 1, 1, 1, 1, 1, 1]),
            mask_of(&[1, 1, 1, 1, 1, 1, 1, 1, 1, 1, 1, 1]),
            // Straight
            mask_of(&[0, 0, 0, 0, 0, 0, 0, 0, 0, 0, 0, 0]),
            mask_of(&[0, 0, 0, 0, 0, 0, 0, 0, 0, 0, 0, 0]),
            mask_of(&[0, 0, 0, 0, 0, 0, 0, 0, 0, 0, 0, 0]),
            mask_of(&[0, 0, 0, 0, 0, 0, 0, 0, 0, 0, 0, 0]),
            // Corner
            mask_of(&[0, 0, 0, 0, 0, 0, 0, 0, 0, 0, 0, 0]),
            mask_of(&[0, 0, 0, 0, 0, 0, 0, 0, 0, 0, 0, 0]),
            mask_of(&[0, 0, 0, 0, 0, 0, 0, 0, 0, 0, 0, 0]),
            mask_of(&[0, 0, 0, 0, 0, 0, 0, 0, 0, 0, 0, 0]),
        ],
        left: vec![
            // Air
            mask_of(&[1, 1, 1, 1, 0, 1, 0, 1, 1, 0, 0, 1]),
            mask_of(&[1, 1, 1, 1, 0, 1, 0, 1, 1, 0, 0, 1]),
            mask_of(&[1, 1, 1, 1, 0, 1, 0, 1, 1, 0, 0, 1]),
            mask_of(&[1, 1, 1, 1, 0, 1, 0, 1, 1, 0, 0, 1]),
            // Straight
            mask_of(&[0, 0, 0, 0, 1, 0, 0, 0, 0, 1, 0, 0]),
            mask_of(&[1, 1, 1, 1, 0, 1, 0, 1, 1, 0, 0, 1]),
            mask_of(&[0, 0, 0, 0, 0, 0, 1, 0, 0, 0, 1, 0]),
            mask_of(&[1, 1, 1, 1, 0, 1, 0, 1, 1, 0, 0, 1]),
            // Corner
            mask_of(&[0, 0, 0, 0, 1, 0, 0, 0, 0, 1, 0, 0]),
            mask_of(&[1, 1, 1, 1, 0, 1, 0, 1, 1, 0, 0, 1]),
            mask_of(&[1, 1, 1, 1, 0, 1, 0, 1, 1, 0, 0, 1]),
            mask_of(&[0, 0, 0, 0, 0, 0, 1, 0, 0, 0, 1, 0]),
        ],
        right: vec![
            // Air
            mask_of(&[1, 1, 1, 1, 0, 1, 0, 1, 0, 1, 1, 0]),
            mask_of(&[1, 1, 1, 1, 0, 1, 0, 1, 0, 1, 1, 0]),
            mask_of(&[1, 1, 1, 1, 0, 1, 0, 1, 0, 1, 1, 0]),
            mask_of(&[1, 1, 1, 1, 0, 1, 0, 1, 0, 1, 1, 0]),
            // Straight
            mask_of(&[0, 0, 0, 0, 1, 0, 0, 0, 1, 0, 0, 0]),
            mask_of(&[1, 1, 1, 1, 0, 1, 0, 1, 0, 1, 1, 0]),
            mask_of(&[0, 0, 0, 0, 0, 0, 1, 0, 0, 0, 0, 1]),
            mask_of(&[1, 1, 1, 1, 0, 1, 0, 1, 0, 1, 1, 0]),
            // Corner
            mask_of(&[1, 1, 1, 1, 0, 1, 0, 1, 0, 1, 1, 0]),
            mask_of(&[0, 0, 0, 0, 1, 0, 0, 0, 1, 0, 0, 0]),
            mask_of(&[0, 0, 0, 0, 0, 0, 1, 0, 0, 0, 0, 1]),
            mask_of(&[1, 1, 1, 1, 0, 1, 0, 1, 0, 1, 1, 0]),
        ],
        forward: vec![
            // Air
            mask_of(&[1, 1, 1, 1, 1, 0, 1, 0, 1, 1, 0, 0]),
            mask_of(&[1, 1, 1, 1, 1, 0, 1, 0, 1, 1, 0, 0]),
            mask_of(&[1, 1, 1, 1, 1, 0, 1, 0, 1, 1, 0, 0]),
            mask_of(&[1, 1, 1, 1, 1, 0, 1, 0, 1, 1, 0, 0]),
            // Straight
            mask_of(&[1, 1, 1, 1, 1, 0, 1, 0, 1, 1, 0, 0]),
            mask_of(&[0, 0, 0, 0, 0, 1, 0, 0, 0, 0, 1, 0]),
            mask_of(&[1, 1, 1, 1, 1, 0, 1, 0, 1, 1, 0, 0]),
            mask_of(&[0, 0, 0, 0, 0, 0, 0, 1, 0, 0, 0, 1]),
            // Corner
            mask_of(&[0, 0, 0, 0, 0, 0, 0, 1, 0, 0, 0, 1]),
            mask_of(&[0, 0, 0, 0, 0, 1, 0, 0, 0, 0, 1, 0]),
            mask_of(&[1, 1, 1, 1, 1, 0, 1, 0, 1, 1, 0, 0]),
            mask_of(&[1, 1, 1, 1, 1, 0, 1, 0, 1, 1, 0, 0]),
        ],
        backward: vec![
            // Air
            mask_of(&[1, 1, 1, 1, 1, 0, 1, 0, 0, 0, 1, 1]),
            mask_of(&[1, 1, 1, 1, 1, 0, 1, 0, 0, 0, 1, 1]),
            mask_of(&[1, 1, 1, 1, 1, 0, 1, 0, 0, 0, 1, 1]),
            mask_of(&[1, 1, 1, 1, 1, 0, 1, 0, 0, 0, 1, 1]),
            // Straight
            mask_of(&[1, 1, 1, 1, 1, 0, 1, 0, 0, 0, 1, 1]),
            mask_of(&[0, 0, 0, 0, 0, 1, 0, 0, 0, 1, 0, 0]),
            mask_of(&[1, 1, 1, 1, 1, 0, 1, 0, 0, 0, 1, 1]),
            mask_of(&[0, 0, 0, 0, 0, 0, 0, 1, 1, 0, 0, 0]),
            // Corner
            mask_of(&[1, 1, 1, 1, 1, 0, 1, 0, 0, 0, 1, 1]),
            mask_of(&[1, 1, 1, 1, 1, 0, 1, 0, 0, 0, 1, 1]),
            mask_of(&[0, 0, 0, 0, 0, 1, 0, 0, 0, 1, 0, 0]),
            mask_of(&[0, 0, 0, 0, 0, 0, 0, 1, 1, 0, 0, 0]),
        ],
    }
}

#[test]
fn test_compile() {
    let desc = basic_straight_air_description();

    let compiled = desc.compile();

    let ref_compiled = basic_straight_air_compiled();

    assert_eq!(ref_compiled, compiled);
}

#[test]
fn compile_twice_is_structurally_equal() {
    let desc = basic_straight_air_description();
    let first = desc.compile();
    let second = desc.compile();
    assert_eq!(first, second);
}

#[test]
fn transformation_round_trips_to_catalog() {
    let desc = basic_straight_air_description();
    let compiled = desc.compile();
    assert_eq!(compiled.len(), 12);
    let rotations = [
        TileRotation::R0,
        TileRotation::R90,
        TileRotation::R180,
        TileRotation::R270,
    ];
    for i in 0..compiled.len() {
        let data = compiled.data(i);
        assert_eq!(*data, TileData::new(i / 4, rotations[i % 4], false));
    }
}

#[test]
fn up_rows_admit_only_air() {
    let desc = basic_straight_air_description();
    let compiled = desc.compile();
    let expected = mask_of(&[1, 1, 1, 1, 0, 0, 0, 0, 0, 0, 0, 0]);
    for i in 0..12 {
        assert!(compiled.up(i).same_bits(&expected));
    }
}

#[test]
fn down_rows_admit_everything_below_air_and_nothing_below_the_rest() {
    let desc = basic_straight_air_description();
    let compiled = desc.compile();
    let all_ones = mask_of(&[1, 1, 1, 1, 1, 1, 1, 1, 1, 1, 1, 1]);
    let all_zeros = mask_of(&[0, 0, 0, 0, 0, 0, 0, 0, 0, 0, 0, 0]);
    for i in 0..4 {
        assert!(compiled.down(i).same_bits(&all_ones));
    }
    for i in 4..12 {
        assert!(compiled.down(i).same_bits(&all_zeros));
    }
}

#[test]
fn asymmetric_connection_wants_opposite_handedness() {
    let a = horizontal("k", false, false);
    let b = horizontal("k", false, false);
    assert!(!a.is_connected(&b, false, false));
    assert!(a.is_connected(&b, false, true));

    let sym_a = horizontal("k", false, true);
    assert!(sym_a.is_connected(&b, false, false));
    assert!(sym_a.is_connected(&b, false, true));
    assert!(sym_a.is_connected(&b, true, false));
    assert!(sym_a.is_connected(&b, true, true));
    let sym_b = horizontal("k", false, true);
    assert!(a.is_connected(&sym_b, false, false));
    assert!(a.is_connected(&sym_b, true, false));
}

#[test]
fn vertical_connection_compares_tags() {
    assert!(vertical("air").is_connected(&vertical("air")));
    assert!(!vertical("air").is_connected(&vertical("full")));
}

#[test]
fn horizontal_lookup_rotates_with_the_tile() {
    let tile: Tile<usize> = Tile {
        id: 7,
        up: vec![],
        down: vec![],
        left: vec![horizontal("l", false, true)],
        right: vec![horizontal("r", false, true)],
        forward: vec![horizontal("f", false, true)],
        backward: vec![horizontal("b", false, true)],
        can_rotate: true,
        can_flip: false,
    };
    // A tile facing R0 shows its own faces unturned.
    assert_eq!(
        tile.get_horizontal_connection(TileRotation::R0, TileRotation::R0)[0].connection,
        "f"
    );
    // Turned a quarter to the right, its left face now looks forward.
    assert_eq!(
        tile.get_horizontal_connection(TileRotation::R0, TileRotation::R90)[0].connection,
        "l"
    );
    assert_eq!(
        tile.get_horizontal_connection(TileRotation::R90, TileRotation::R270)[0].connection,
        "b"
    );
    assert_eq!(
        tile.get_horizontal_connection(TileRotation::R270, TileRotation::R180)[0].connection,
        "r"
    );
}

#[test]
fn rotation_opposite_is_half_turn() {
    assert_eq!(TileRotation::R0.opposite(), TileRotation::R180);
    assert_eq!(TileRotation::R90.opposite(), TileRotation::R270);
    assert_eq!(TileRotation::R180.opposite(), TileRotation::R0);
    assert_eq!(TileRotation::R270.opposite(), TileRotation::R90);
}
