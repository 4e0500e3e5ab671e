use dungeon::room::Room;
use dungeon::tile::{grid_from_codes, Tile};

#[test]
fn test_new_room() {
    let room = Room::new(2, 12, 8, 9, None);
    assert_eq!(room.x, 2);
    assert_eq!(room.x2, 10);
    assert_eq!(room.y, 12);
    assert_eq!(room.y2, 21);
    assert_eq!(room.width, 8);
    assert_eq!(room.height, 9);
    assert_eq!(room.centre.x, 6);
    assert_eq!(room.centre.y, 16);
}

#[test]
fn test_intersects() {
    let room = Room::new(2, 12, 8, 9, None);
    let other = Room::new(3, 12, 8, 9, None);
    let third = Room::new(18, 20, 4, 4, None);

    assert!(room.intersects(&other));
    assert!(!room.intersects(&third));
    assert!(other.intersects(&room));
    assert!(!other.intersects(&third));
    assert!(!third.intersects(&other));
    assert!(!third.intersects(&room));
}

#[test]
fn test_macro() {
    let room = grid_from_codes(&vec![
        vec![1, 1, 1, 1, 1],
        vec![1, 1, 1, 1, 1],
        vec![1, 1, 1, 1, 1],
    ]);
    let another = grid_from_codes(&vec![
        vec![0, 0, 0, 1, 0, 0, 0],
        vec![0, 0, 1, 1, 1, 0, 0],
        vec![0, 1, 1, 1, 1, 1, 0],
        vec![1, 1, 1, 1, 1, 1, 1],
        vec![1, 1, 0, 1, 0, 1, 1],
        vec![1, 1, 1, 1, 1, 1, 1],
        vec![1, 1, 0, 1, 0, 1, 1],
        vec![1, 1, 1, 1, 1, 1, 1],
        vec![0, 1, 1, 1, 1, 1, 0],
        vec![0, 0, 1, 1, 1, 0, 0],
        vec![0, 0, 0, 1, 0, 0, 0],
    ]);
    let walls = grid_from_codes(&vec![
        vec![2, 2, 2, 2, 2],
        vec![2, 1, 1, 1, 2],
        vec![2, 1, 0, 1, 2],
        vec![2, 1, 1, 1, 2],
        vec![2, 2, 2, 2, 2],
    ]);

    assert_eq!(room, vec![
        vec![Tile::Walkable, Tile::Walkable, Tile::Walkable, Tile::Walkable, Tile::Walkable],
        vec![Tile::Walkable, Tile::Walkable, Tile::Walkable, Tile::Walkable, Tile::Walkable],
        vec![Tile::Walkable, Tile::Walkable, Tile::Walkable, Tile::Walkable, Tile::Walkable]
    ]);

    assert_eq!(another, vec![
        vec![Tile::Empty, Tile::Empty, Tile::Empty, Tile::Walkable, Tile::Empty, Tile::Empty, Tile::Empty],
        vec![Tile::Empty, Tile::Empty, Tile::Walkable, Tile::Walkable, Tile::Walkable, Tile::Empty, Tile::Empty],
        vec![Tile::Empty, Tile::Walkable, Tile::Walkable, Tile::Walkable, Tile::Walkable, Tile::Walkable, Tile::Empty],
        vec![Tile::Walkable, Tile::Walkable, Tile::Walkable, Tile::Walkable, Tile::Walkable, Tile::Walkable, Tile::Walkable],
        vec![Tile::Walkable, Tile::Walkable, Tile::Empty, Tile::Walkable, Tile::Empty, Tile::Walkable, Tile::Walkable],
        vec![Tile::Walkable, Tile::Walkable, Tile::Walkable, Tile::Walkable, Tile::Walkable, Tile::Walkable, Tile::Walkable],
        vec![Tile::Walkable, Tile::Walkable, Tile::Empty, Tile::Walkable, Tile::Empty, Tile::Walkable, Tile::Walkable],
        vec![Tile::Walkable, Tile::Walkable, Tile::Walkable, Tile::Walkable, Tile::Walkable, Tile::Walkable, Tile::Walkable],
        vec![Tile::Empty, Tile::Walkable, Tile::Walkable, Tile::Walkable, Tile::Walkable, Tile::Walkable, Tile::Empty],
        vec![Tile::Empty, Tile::Empty, Tile::Walkable, Tile::Walkable, Tile::Walkable, Tile::Empty, Tile::Empty],
        vec![Tile::Empty, Tile::Empty, Tile::Empty, Tile::Walkable, Tile::Empty, Tile::Empty, Tile::Empty],
    ]);

    assert_eq!(walls, vec![
        vec![Tile::Wall, Tile::Wall, Tile::Wall, Tile::Wall, Tile::Wall],
        vec![Tile::Wall, Tile::Walkable, Tile::Walkable, Tile::Walkable, Tile::Wall],
        vec![Tile::Wall, Tile::Walkable, Tile::Empty, Tile::Walkable, Tile::Wall],
        vec![Tile::Wall, Tile::Walkable, Tile::Walkable, Tile::Walkable, Tile::Wall],
        vec![Tile::Wall, Tile::Wall, Tile::Wall, Tile::Wall, Tile::Wall]
    ]);
}

#[test]
fn room_with_layout_keeps_it() {
    let layout = grid_from_codes(&vec![vec![1, 0], vec![2, 1], vec![0, 0]]);
    let room = Room::new(4, 5, 2, 3, Some(layout.clone()));
    assert_eq!(room.layout, layout);
    assert_eq!(room.x2, 6);
    assert_eq!(room.y2, 8);
    assert_eq!(room.centre.x, 5);
    assert_eq!(room.centre.y, 6);
}

#[test]
fn blank_room_is_all_walkable() {
    let room = Room::new(0, 0, 3, 2, None);
    assert_eq!(room.layout, vec![vec![Tile::Walkable; 3]; 2]);
    let empty = Room::new(1, 1, 0, 0, None);
    assert!(empty.layout.is_empty());
    assert_eq!(empty.centre.x, 1);
}

#[test]
fn touching_rooms_intersect() {
    let a = Room::new(0, 0, 4, 4, None);
    let b = Room::new(4, 0, 4, 4, None);
    let c = Room::new(5, 0, 4, 4, None);
    assert!(a.intersects(&b));
    assert!(!a.intersects(&c));
}

#[test]
fn duplicate_keeps_everything() {
    let layout = grid_from_codes(&vec![vec![1, 2, 0]]);
    let room = Room::new(3, 4, 3, 1, Some(layout));
    let copy = room.duplicate();
    assert_eq!(copy.x, room.x);
    assert_eq!(copy.y2, room.y2);
    assert_eq!(copy.centre, room.centre);
    assert_eq!(copy.layout, room.layout);
}
