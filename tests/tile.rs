use dungeon::tile::{grid_from_codes, grid_to_codes, Tile};

#[test]
fn test_tile_display() {
    assert_eq!(Tile::Empty.to_string(), " ");
    assert_eq!(Tile::Walkable.to_string(), "1");
    assert_eq!(Tile::Wall.to_string(), "2");
}

#[test]
fn test_tile_serialise() {
    assert_eq!(serde_json::to_string(&Tile::Empty.code()).unwrap(), "0");
    assert_eq!(serde_json::to_string(&Tile::Walkable.code()).unwrap(), "1");
}

#[test]
fn tile_codes() {
    assert_eq!(Tile::Empty.code(), 0);
    assert_eq!(Tile::Walkable.code(), 1);
    assert_eq!(Tile::Wall.code(), 2);
    assert_eq!(Tile::from_code(0), Tile::Empty);
    assert_eq!(Tile::from_code(1), Tile::Walkable);
    assert_eq!(Tile::from_code(2), Tile::Wall);
}

#[test]
fn unknown_codes_read_as_empty() {
    assert_eq!(Tile::from_code(3), Tile::Empty);
    assert_eq!(Tile::from_code(-1), Tile::Empty);
    assert_eq!(Tile::from_code(i32::MAX), Tile::Empty);
}

#[test]
fn grid_round_trip() {
    let grid = vec![
        vec![Tile::Empty, Tile::Walkable, Tile::Wall],
        vec![Tile::Wall, Tile::Wall, Tile::Empty],
    ];
    let codes = grid_to_codes(&grid);
    assert_eq!(codes, vec![vec![0, 1, 2], vec![2, 2, 0]]);
    assert_eq!(grid_from_codes(&codes), grid);
    assert_eq!(grid_from_codes(&vec![vec![7, 1], vec![]]), vec![vec![Tile::Empty, Tile::Walkable], vec![]]);
}
