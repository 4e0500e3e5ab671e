use dungeon::level::Level;
use dungeon::room::Room;
use dungeon::tile::{grid_from_codes, Tile};

fn board(level: &Level) -> Vec<Vec<i32>> {
    level.board.iter().map(|row| row.iter().map(|t| t.code()).collect()).collect()
}

#[test]
fn new_level_is_empty() {
    let level = Level::new(3, 2, "abc", 4, 5);
    assert_eq!(level.board, vec![vec![Tile::Empty; 3]; 2]);
    assert!(level.rooms.is_empty());
    assert_eq!(level.hash, "abc");
    assert_eq!(level.tile_size, 16);
    assert_eq!(level.min_room_width, 4);
    assert_eq!(level.min_room_height, 5);
}

#[test]
fn add_room_stamps_and_records() {
    let mut level = Level::new(5, 4, "h", 1, 1);
    level.add_room(&Room::new(1, 1, 2, 2, None));
    assert_eq!(board(&level), vec![
        vec![0, 0, 0, 0, 0],
        vec![0, 1, 1, 0, 0],
        vec![0, 1, 1, 0, 0],
        vec![0, 0, 0, 0, 0],
    ]);
    let layout = grid_from_codes(&vec![vec![2, 0]]);
    level.add_room(&Room::new(2, 2, 2, 1, Some(layout)));
    assert_eq!(board(&level), vec![
        vec![0, 0, 0, 0, 0],
        vec![0, 1, 1, 0, 0],
        vec![0, 1, 2, 0, 0],
        vec![0, 0, 0, 0, 0],
    ]);
    assert_eq!(level.rooms.len(), 2);
    assert_eq!(level.rooms[1].x, 2);
    assert_eq!(level.rooms[0].width, 2);
}

#[test]
fn walls_surround_walkable_cells() {
    let mut level = Level::new(6, 5, "h", 1, 1);
    level.add_room(&Room::new(1, 1, 2, 2, None));
    level.add_walls();
    assert_eq!(board(&level), vec![
        vec![2, 2, 2, 2, 0, 0],
        vec![2, 1, 1, 2, 0, 0],
        vec![2, 1, 1, 2, 0, 0],
        vec![2, 2, 2, 2, 0, 0],
        vec![0, 0, 0, 0, 0, 0],
    ]);
}

#[test]
fn walls_clip_at_edges() {
    let mut level = Level::new(3, 3, "h", 1, 1);
    level.add_room(&Room::new(0, 0, 1, 1, None));
    level.add_room(&Room::new(2, 2, 1, 1, None));
    level.add_walls();
    assert_eq!(board(&level), vec![
        vec![1, 2, 0],
        vec![2, 2, 2],
        vec![0, 2, 1],
    ]);
}

#[test]
fn walls_twice_same_as_once() {
    let mut level = Level::new(7, 6, "h", 1, 1);
    level.add_room(&Room::new(1, 1, 3, 2, None));
    level.add_room(&Room::new(4, 3, 2, 2, None));
    level.add_walls();
    let once = level.board.clone();
    level.add_walls();
    assert_eq!(level.board, once);
}

#[test]
fn walls_keep_old_walls_and_walkable_cells() {
    let mut level = Level::new(5, 5, "h", 1, 1);
    let layout = grid_from_codes(&vec![vec![2, 0, 0], vec![0, 1, 0], vec![0, 0, 0]]);
    level.add_room(&Room::new(0, 0, 3, 3, Some(layout)));
    level.add_room(&Room::new(4, 4, 1, 1, None));
    level.add_walls();
    assert_eq!(board(&level), vec![
        vec![2, 2, 2, 0, 0],
        vec![2, 1, 2, 0, 0],
        vec![2, 2, 2, 0, 0],
        vec![0, 0, 0, 2, 2],
        vec![0, 0, 0, 2, 1],
    ]);
}

#[test]
fn empty_board_gets_no_walls() {
    let mut level = Level::new(4, 3, "h", 1, 1);
    level.add_walls();
    assert_eq!(level.board, vec![vec![Tile::Empty; 4]; 3]);
}

#[test]
fn board_to_csv_format() {
    let mut level = Level::new(3, 2, "h", 1, 1);
    level.add_room(&Room::new(0, 0, 1, 1, None));
    level.add_walls();
    assert_eq!(level.board_to_csv(), "1,2,0\n2,2,0");
}

#[test]
fn board_to_csv_empty_rows() {
    let level = Level::new(0, 2, "h", 1, 1);
    assert_eq!(level.board_to_csv(), "\n");
    let flat = Level::new(2, 0, "h", 1, 1);
    assert_eq!(flat.board_to_csv(), "");
}

#[test]
fn level_text_rendering() {
    let mut level = Level::new(2, 2, "seed", 1, 1);
    level.add_room(&Room::new(0, 0, 1, 1, None));
    level.add_walls();
    assert_eq!(level.to_string(), "seed1 2 \n2 2 \n");
}
