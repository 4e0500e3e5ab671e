use dungeon::bsp::{split_axis, template_fits, BspLevel};
use dungeon::level::Level;
use dungeon::roomscorridors::{place_candidate, RoomsCorridors};
use dungeon::tile::Tile;
use rand::rngs::StdRng;
use rand::SeedableRng;

#[test]
fn candidate_crossing_the_edge_is_shifted_back() {
    let mut level = Level::new(10, 12, "h", 1, 1);
    assert!(place_candidate(&mut level, 8, 3, 4, 5));
    assert_eq!(level.rooms.len(), 1);
    let room = &level.rooms[0];
    assert_eq!((room.x, room.y, room.x2, room.y2), (6, 3, 10, 8));
    assert_eq!(level.board[3][6], Tile::Walkable);
    assert_eq!(level.board[7][9], Tile::Walkable);
    assert_eq!(level.board[3][5], Tile::Empty);
}

#[test]
fn candidate_crossing_the_bottom_is_shifted_up() {
    let mut level = Level::new(10, 12, "h", 1, 1);
    assert!(place_candidate(&mut level, 0, 11, 3, 5));
    assert_eq!((level.rooms[0].x, level.rooms[0].y, level.rooms[0].y2), (0, 7, 12));
}

#[test]
fn touching_candidate_is_dropped() {
    let mut level = Level::new(10, 12, "h", 1, 1);
    assert!(place_candidate(&mut level, 6, 3, 4, 5));
    let before = level.board.clone();
    assert!(!place_candidate(&mut level, 0, 0, 6, 3));
    assert_eq!(level.rooms.len(), 1);
    assert_eq!(level.board, before);
    assert!(place_candidate(&mut level, 0, 9, 3, 3));
    assert_eq!(level.rooms.len(), 2);
    assert_eq!((level.rooms[1].x, level.rooms[1].y), (0, 9));
}

#[test]
fn rooms_scenario_has_a_room() {
    let level = RoomsCorridors::new(48, 40, "seed", &mut StdRng::from_seed([9u8; 32]), false, 4, 5);
    assert!(!level.rooms.is_empty());
    assert!(level.board.iter().flatten().any(|t| *t == Tile::Walkable));
}

#[test]
fn split_axis_follows_the_shape() {
    assert!(!split_axis(0, 40, 10));
    assert!(!split_axis(1, 40, 10));
    assert!(split_axis(0, 10, 40));
    assert!(split_axis(1, 10, 40));
    assert!(!split_axis(1, 25, 20));
    assert!(split_axis(1, 24, 20));
    assert!(!split_axis(0, 24, 20));
    assert!(split_axis(1, 20, 20));
    assert!(!split_axis(0, 20, 20));
}

#[test]
fn template_fit_test() {
    assert!(template_fits(40, 30, 8, 10, 48, 40));
    assert!(!template_fits(41, 30, 8, 10, 48, 40));
    assert!(!template_fits(40, 31, 8, 10, 48, 40));
    assert!(template_fits(48, 40, 0, 0, 48, 40));
}

#[test]
fn small_templates_always_fit() {
    let template = vec![vec![Tile::Walkable; 5]; 6];
    for seed in 0..8u8 {
        let templates = vec![template.clone(), template.clone(), template.clone()];
        let level = BspLevel::create(48, 40, "t", &mut StdRng::from_seed([seed; 32]), true, 4, 5, &templates);
        let level = level.expect("templates this small always fit");
        let used = level.rooms.iter().filter(|r| r.width == 5 && r.height == 6).count();
        assert!(used >= 1);
    }
}

#[test]
fn bsp_corridors_cover_both_ends() {
    let level = BspLevel::create(48, 40, "c", &mut StdRng::from_seed([3u8; 32]), false, 4, 5, &vec![]).unwrap();
    for r in level.rooms.iter().filter(|r| r.width == 1 && r.height > 1) {
        for row in r.y..r.y2 {
            assert_eq!(level.board[row as usize][r.x as usize], Tile::Walkable);
        }
    }
}
