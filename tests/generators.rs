use dungeon::bsp::{BspLevel, Leaf};
use dungeon::level::Level;
use dungeon::roomscorridors::RoomsCorridors;
use dungeon::tile::{grid_from_codes, Tile};
use rand::rngs::StdRng;
use rand::SeedableRng;

const SEED: &[u8; 32] = b"0123456789abcdef0123456789abcdef";

fn rng() -> StdRng {
    StdRng::from_seed(*SEED)
}

fn rooms_level(walls: bool) -> Level {
    RoomsCorridors::new(48, 40, "seed", &mut rng(), walls, 4, 5)
}

fn bsp_level(walls: bool, templates: &Vec<Vec<Vec<Tile>>>) -> Option<Level> {
    BspLevel::create(48, 40, "seed", &mut rng(), walls, 4, 5, templates)
}

fn in_bounds(level: &Level) -> bool {
    level.rooms.iter().all(|r| {
        r.x >= 0 && r.y >= 0 && r.x2 <= level.width && r.y2 <= level.height
    })
}

fn enclosed(level: &Level) -> bool {
    let h = level.board.len() as i64;
    let w = level.board[0].len() as i64;
    for y in 0..h {
        for x in 0..w {
            if level.board[y as usize][x as usize] != Tile::Walkable {
                continue;
            }
            for dy in -1..=1i64 {
                for dx in -1..=1i64 {
                    let (nx, ny) = (x + dx, y + dy);
                    if nx < 0 || ny < 0 || nx >= w || ny >= h {
                        continue;
                    }
                    if level.board[ny as usize][nx as usize] == Tile::Empty {
                        return false;
                    }
                }
            }
        }
    }
    true
}

fn count(level: &Level, tile: Tile) -> usize {
    level.board.iter().flatten().filter(|t| **t == tile).count()
}

#[test]
fn rooms_end_to_end_with_walls() {
    let level = rooms_level(true);
    assert_eq!(level.width, 48);
    assert_eq!(level.height, 40);
    assert_eq!(level.board.len(), 40);
    assert!(level.board.iter().all(|row| row.len() == 48));
    assert!(count(&level, Tile::Walkable) > 0);
    assert!(count(&level, Tile::Wall) > 0);
    assert!(enclosed(&level));
    let again = rooms_level(true);
    assert_eq!(level.board, again.board);
}

#[test]
fn rooms_are_deterministic() {
    let a = rooms_level(false);
    let b = rooms_level(false);
    assert_eq!(a.board, b.board);
    assert_eq!(a.rooms.len(), b.rooms.len());
    for (ra, rb) in a.rooms.iter().zip(b.rooms.iter()) {
        assert_eq!((ra.x, ra.y, ra.width, ra.height), (rb.x, rb.y, rb.width, rb.height));
    }
}

#[test]
fn rooms_do_not_overlap_and_fit() {
    let level = rooms_level(false);
    assert!(level.rooms.len() >= 2);
    assert!(level.rooms.len() <= 10);
    for (i, a) in level.rooms.iter().enumerate() {
        assert!(a.width >= 4 && a.width < 8);
        assert!(a.height >= 5 && a.height < 12);
        for (j, b) in level.rooms.iter().enumerate() {
            if i != j {
                assert!(!a.intersects(b));
            }
        }
    }
    assert!(in_bounds(&level));
    assert_eq!(count(&level, Tile::Wall), 0);
}

#[test]
fn rooms_differ_between_seeds() {
    let a = RoomsCorridors::new(48, 40, "a", &mut StdRng::from_seed([1u8; 32]), false, 4, 5);
    let b = RoomsCorridors::new(48, 40, "b", &mut StdRng::from_seed([2u8; 32]), false, 4, 5);
    assert_ne!(a.board, b.board);
    assert!(a.rooms.iter().any(|r| r.x != 0 || r.y != 0));
}

#[test]
fn rooms_on_smallest_board() {
    let level = RoomsCorridors::new(7, 11, "s", &mut rng(), true, 7, 11);
    assert_eq!(level.rooms.len(), 1);
    assert!(level.board.iter().all(|row| row.iter().all(|t| *t == Tile::Walkable)));
}

#[test]
fn rooms_walls_twice_same_as_once() {
    let mut level = rooms_level(true);
    let once = level.board.clone();
    level.add_walls();
    assert_eq!(level.board, once);
}

#[test]
fn bsp_without_templates() {
    let level = bsp_level(true, &vec![]).expect("no template, so the level is made");
    assert_eq!(level.board.len(), 40);
    assert!(level.board.iter().all(|row| row.len() == 48));
    assert!(count(&level, Tile::Walkable) > 0);
    assert!(in_bounds(&level));
    assert!(enclosed(&level));
    assert!(level.rooms.len() >= 2);
}

#[test]
fn bsp_is_deterministic() {
    let a = bsp_level(false, &vec![]).unwrap();
    let b = bsp_level(false, &vec![]).unwrap();
    assert_eq!(a.board, b.board);
    assert_eq!(a.rooms.len(), b.rooms.len());
    assert_eq!(count(&a, Tile::Wall), 0);
}

#[test]
fn bsp_small_board_has_one_room() {
    let level = BspLevel::create(10, 10, "s", &mut rng(), false, 4, 5, &vec![]).unwrap();
    assert_eq!(level.rooms.len(), 1);
    let room = &level.rooms[0];
    assert!(room.width >= 4 && room.width < 10);
    assert!(room.height >= 5 && room.height < 10);
    assert!(in_bounds(&level));
}

#[test]
fn bsp_uses_template() {
    let template = grid_from_codes(&vec![vec![1, 1], vec![1, 2]]);
    let level = bsp_level(false, &vec![template.clone()]).unwrap();
    assert!(level.rooms.iter().any(|r| r.layout == template && r.width == 2 && r.height == 2));
    assert!(in_bounds(&level));
}

#[test]
fn bsp_template_too_large_is_refused() {
    let template = vec![vec![Tile::Walkable; 60]; 50];
    assert!(bsp_level(false, &vec![template]).is_none());
}

#[test]
fn leaf_starts_bare() {
    let leaf = Leaf::new(1, 2, 30, 20, 8, 4, 5);
    assert!(leaf.is_leaf());
    assert!(leaf.get_room().is_none());
    assert_eq!(leaf.iter().len(), 1);
    assert!(leaf.corridors.is_empty());
    assert_eq!((leaf.x, leaf.y, leaf.width, leaf.height), (1, 2, 30, 20));
}
