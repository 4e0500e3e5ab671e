use vstd::prelude::*;

use crate::tile::{grid_view, Tile};

verus! {

/// A point on the board.
#[derive(Debug, Clone, Copy, PartialEq, Eq, Structural)]
pub struct Point {
    pub x: i32,
    pub y: i32,
}

/// An axis-aligned rectangle of the board with the tiles stamped inside it.
#[derive(Debug, Clone)]
pub struct Room {
    pub x: i32,
    pub y: i32,
    pub x2: i32,
    pub y2: i32,
    pub width: i32,
    pub height: i32,
    pub centre: Point,
    pub layout: Vec<Vec<Tile>>,
}

/// `g` has `h` rows of `w` tiles each.
pub open spec fn is_grid(g: Seq<Seq<Tile>>, w: int, h: int) -> bool {
    &&& g.len() == h
    &&& forall|i: int| 0 <= i < h ==> (#[trigger] g[i]).len() == w
}

/// `h` rows of `w` copies of `t`.
pub open spec fn filled(w: int, h: int, t: Tile) -> Seq<Seq<Tile>> {
    Seq::new(h as nat, |i: int| Seq::new(w as nat, |j: int| t))
}

/// Two rooms with the same geometry and the same tiles.
pub open spec fn same_room(a: Room, b: Room) -> bool {
    &&& a.x == b.x
    &&& a.y == b.y
    &&& a.x2 == b.x2
    &&& a.y2 == b.y2
    &&& a.width == b.width
    &&& a.height == b.height
    &&& a.centre == b.centre
    &&& grid_view(a.layout) == grid_view(b.layout)
}

/// The inclusive overlap test: rectangles that share an edge intersect.
pub open spec fn rects_intersect(a: Room, b: Room) -> bool {
    a.x <= b.x2 && a.x2 >= b.x && a.y <= b.y2 && a.y2 >= b.y
}

/// Copies a grid of tiles row by row.
pub fn copy_grid(g: &Vec<Vec<Tile>>) -> (r: Vec<Vec<Tile>>)
    ensures
        grid_view(r) == grid_view(*g),
{
    let mut out: Vec<Vec<Tile>> = Vec::new();
    let mut i: usize = 0;
    while i < g.len()
        invariant
            i <= g@.len(),
            out@.len() == i,
            forall|k: int| 0 <= k < i ==> (#[trigger] out@[k])@ == g@[k]@,
        decreases g@.len() - i,
    {
        let row = &g[i];
        let mut copy: Vec<Tile> = Vec::new();
        let mut j: usize = 0;
        while j < row.len()
            invariant
                j <= row@.len(),
                copy@ == row@.subrange(0, j as int),
            decreases row@.len() - j,
        {
            copy.push(row[j]);
            j = j + 1;
            assert(copy@ =~= row@.subrange(0, j as int));
        }
        assert(copy@ =~= row@);
        out.push(copy);
        i = i + 1;
    }
    assert(grid_view(out) =~= grid_view(*g));
    out
}

impl Room {
    /// The derived fields agree with the rectangle and the layout is
    /// `height` rows of `width` tiles.
    pub open spec fn wf(&self) -> bool {
        &&& self.width >= 0
        &&& self.height >= 0
        &&& self.x2 == self.x + self.width
        &&& self.y2 == self.y + self.height
        &&& self.centre.x == self.x + self.width / 2
        &&& self.centre.y == self.y + self.height / 2
        &&& is_grid(grid_view(self.layout), self.width as int, self.height as int)
    }

    /// A room at `(x, y)` of the given size. Without a layout it is all
    /// `Walkable`; with one, that layout is kept as it is.
    pub fn new(x: i32, y: i32, width: i32, height: i32, layout: Option<Vec<Vec<Tile>>>) -> (r: Self)
        requires
            width >= 0,
            height >= 0,
            x + width <= i32::MAX,
            y + height <= i32::MAX,
            layout matches Some(l) ==> is_grid(grid_view(l), width as int, height as int),
        ensures
            r.wf(),
            r.x == x,
            r.y == y,
            r.width == width,
            r.height == height,
            r.x2 == x + width,
            r.y2 == y + height,
            r.centre == (Point { x: (x + width / 2) as i32, y: (y + height / 2) as i32 }),
            grid_view(r.layout) == match layout {
                Some(l) => grid_view(l),
                None => filled(width as int, height as int, Tile::Walkable),
            },
    {
        let tiles = match layout {
            Some(tiles) => tiles,
            None => {
                let mut board: Vec<Vec<Tile>> = Vec::new();
                let mut i: i32 = 0;
                while i < height
                    invariant
                        0 <= i <= height,
                        width >= 0,
                        grid_view(board) == filled(width as int, i as int, Tile::Walkable),
                    decreases height - i,
                {
                    let row = vec![Tile::Walkable; width as usize];
                    assert(row@ =~= Seq::new(width as nat, |j: int| Tile::Walkable));
                    let ghost prev = grid_view(board);
                    board.push(row);
                    assert(grid_view(board) =~= prev.push(row@));
                    i = i + 1;
                    assert(grid_view(board) =~= filled(width as int, i as int, Tile::Walkable));
                }
                board
            },
        };
        Room {
            x,
            x2: x + width,
            y,
            y2: y + height,
            width,
            height,
            centre: Point { x: x + width / 2, y: y + height / 2 },
            layout: tiles,
        }
    }

    /// Whether the two rectangles overlap or touch, bounds included.
    pub fn intersects(&self, other: &Self) -> (r: bool)
        ensures
            r == rects_intersect(*self, *other),
    {
        self.x <= other.x2 && self.x2 >= other.x && self.y <= other.y2 && self.y2 >= other.y
    }

    /// A copy of this room, tiles included.
    pub fn duplicate(&self) -> (r: Room)
        ensures
            same_room(r, *self),
    {
        Room {
            x: self.x,
            y: self.y,
            x2: self.x2,
            y2: self.y2,
            width: self.width,
            height: self.height,
            centre: self.centre,
            layout: copy_grid(&self.layout),
        }
    }
}

} // verus!
