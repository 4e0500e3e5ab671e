use vstd::prelude::*;

use crate::room::{filled, is_grid, same_room, Room};
use crate::tile::{glyph_of, grid_view, Tile};

verus! {

/// A board of tiles and the rooms that were stamped onto it, in order.
pub struct Level {
    pub hash: String,
    pub tile_size: i32,
    pub width: i32,
    pub height: i32,
    pub board: Vec<Vec<Tile>>,
    pub rooms: Vec<Room>,
    pub min_room_width: i32,
    pub min_room_height: i32,
}

/// The room lies on a `w` by `h` board.
pub open spec fn fits(r: Room, w: int, h: int) -> bool {
    &&& r.wf()
    &&& 0 <= r.x
    &&& r.x2 <= w
    &&& 0 <= r.y
    &&& r.y2 <= h
}

/// `b` with the layout of `r` written over the cells that `r` covers.
pub open spec fn stamp(b: Seq<Seq<Tile>>, r: Room) -> Seq<Seq<Tile>> {
    Seq::new(
        b.len(),
        |y: int|
            Seq::new(
                b[y].len(),
                |x: int|
                    if r.x <= x < r.x2 && r.y <= y < r.y2 {
                        grid_view(r.layout)[y - r.y][x - r.x]
                    } else {
                        b[y][x]
                    },
            ),
    )
}

/// The cell `(x, y)` lies on the board and is walkable.
pub open spec fn walkable_at(b: Seq<Seq<Tile>>, x: int, y: int) -> bool {
    0 <= y < b.len() && 0 <= x < b[y].len() && b[y][x] == Tile::Walkable
}

/// One of the eight neighbours of `(x, y)` is walkable.
pub open spec fn near_walkable(b: Seq<Seq<Tile>>, x: int, y: int) -> bool {
    ||| walkable_at(b, x - 1, y - 1)
    ||| walkable_at(b, x, y - 1)
    ||| walkable_at(b, x + 1, y - 1)
    ||| walkable_at(b, x - 1, y)
    ||| walkable_at(b, x + 1, y)
    ||| walkable_at(b, x - 1, y + 1)
    ||| walkable_at(b, x, y + 1)
    ||| walkable_at(b, x + 1, y + 1)
}

/// The board after the wall pass: every empty cell next to a walkable one
/// becomes a wall, and every other cell keeps its tile.
pub open spec fn walled(b: Seq<Seq<Tile>>) -> Seq<Seq<Tile>> {
    Seq::new(
        b.len(),
        |y: int|
            Seq::new(
                b[y].len(),
                |x: int|
                    if b[y][x] == Tile::Empty && near_walkable(b, x, y) {
                        Tile::Wall
                    } else {
                        b[y][x]
                    },
            ),
    )
}

/// The cell `(x, y)` is walkable and comes before `(px, py)` in row-major order.
pub open spec fn seen(b: Seq<Seq<Tile>>, x: int, y: int, px: int, py: int) -> bool {
    walkable_at(b, x, y) && (y < py || (y == py && x < px))
}

/// One of the neighbours of `(x, y)` is walkable and comes before `(px, py)`.
pub open spec fn near_seen(b: Seq<Seq<Tile>>, x: int, y: int, px: int, py: int) -> bool {
    ||| seen(b, x - 1, y - 1, px, py)
    ||| seen(b, x, y - 1, px, py)
    ||| seen(b, x + 1, y - 1, px, py)
    ||| seen(b, x - 1, y, px, py)
    ||| seen(b, x + 1, y, px, py)
    ||| seen(b, x - 1, y + 1, px, py)
    ||| seen(b, x, y + 1, px, py)
    ||| seen(b, x + 1, y + 1, px, py)
}

/// The board once the wall pass has handled every cell before `(px, py)`.
pub open spec fn walled_upto(b: Seq<Seq<Tile>>, px: int, py: int) -> Seq<Seq<Tile>> {
    Seq::new(
        b.len(),
        |y: int|
            Seq::new(
                b[y].len(),
                |x: int|
                    if b[y][x] == Tile::Empty && near_seen(b, x, y, px, py) {
                        Tile::Wall
                    } else {
                        b[y][x]
                    },
            ),
    )
}

/// `(x, y)` is one of the eight neighbours of `(px, py)`.
pub open spec fn adjacent(x: int, y: int, px: int, py: int) -> bool {
    -1 <= x - px <= 1 && -1 <= y - py <= 1 && !(x == px && y == py)
}

/// `b` with every empty neighbour of `(px, py)` turned into a wall.
pub open spec fn mark_around(b: Seq<Seq<Tile>>, px: int, py: int) -> Seq<Seq<Tile>> {
    Seq::new(
        b.len(),
        |y: int|
            Seq::new(
                b[y].len(),
                |x: int|
                    if b[y][x] == Tile::Empty && adjacent(x, y, px, py) {
                        Tile::Wall
                    } else {
                        b[y][x]
                    },
            ),
    )
}

/// `b` with the cell `(px, py)` turned into a wall if it is on the board
/// and empty.
pub open spec fn mark_cell(b: Seq<Seq<Tile>>, px: int, py: int) -> Seq<Seq<Tile>> {
    Seq::new(
        b.len(),
        |y: int|
            Seq::new(
                b[y].len(),
                |x: int|
                    if x == px && y == py && b[y][x] == Tile::Empty {
                        Tile::Wall
                    } else {
                        b[y][x]
                    },
            ),
    )
}

/// The character of a tile in the comma-separated format: its code.
pub open spec fn csv_cell(t: Tile) -> char {
    match t {
        Tile::Empty => '0',
        Tile::Walkable => '1',
        Tile::Wall => '2',
    }
}

/// The cells of a row, comma-separated.
pub open spec fn csv_row(r: Seq<Tile>) -> Seq<char>
    decreases r.len(),
{
    if r.len() == 0 {
        seq![]
    } else if r.len() == 1 {
        seq![csv_cell(r[0])]
    } else {
        csv_row(r.drop_last()) + seq![','] + seq![csv_cell(r.last())]
    }
}

/// The rows of a board in the comma-separated format, newline-separated.
pub open spec fn csv_lines(rows: Seq<Seq<Tile>>) -> Seq<char>
    decreases rows.len(),
{
    if rows.len() == 0 {
        seq![]
    } else if rows.len() == 1 {
        csv_row(rows[0])
    } else {
        csv_lines(rows.drop_last()) + seq!['\n'] + csv_row(rows.last())
    }
}

/// A row in the text rendering: each glyph followed by a space.
pub open spec fn text_row(r: Seq<Tile>) -> Seq<char>
    decreases r.len(),
{
    if r.len() == 0 {
        seq![]
    } else {
        text_row(r.drop_last()) + glyph_of(r.last()) + seq![' ']
    }
}

/// The rows of a board in the text rendering, each ended by a newline.
pub open spec fn text_lines(rows: Seq<Seq<Tile>>) -> Seq<char>
    decreases rows.len(),
{
    if rows.len() == 0 {
        seq![]
    } else {
        text_lines(rows.drop_last()) + text_row(rows.last()) + seq!['\n']
    }
}

/// The code of a tile as text.
fn csv_code(t: Tile) -> (r: &'static str)
    ensures
        r@ == seq![csv_cell(t)],
{
    match t {
        Tile::Empty => {
            proof {
                reveal_strlit("0");
            }
            "0"
        },
        Tile::Walkable => {
            proof {
                reveal_strlit("1");
            }
            "1"
        },
        Tile::Wall => {
            proof {
                reveal_strlit("2");
            }
            "2"
        },
    }
}

impl Level {
    /// The board is `height` rows of `width` tiles.
    pub open spec fn wf(&self) -> bool {
        &&& self.width >= 0
        &&& self.height >= 0
        &&& is_grid(grid_view(self.board), self.width as int, self.height as int)
    }

    /// The board as rows of tiles.
    pub open spec fn cells(&self) -> Seq<Seq<Tile>> {
        grid_view(self.board)
    }

    /// Everything but the board and the rooms is the same in both levels.
    pub open spec fn same_settings(&self, other: &Level) -> bool {
        &&& self.hash@ == other.hash@
        &&& self.tile_size == other.tile_size
        &&& self.width == other.width
        &&& self.height == other.height
        &&& self.min_room_width == other.min_room_width
        &&& self.min_room_height == other.min_room_height
    }

    /// An empty board of `width` by `height` with no rooms.
    pub fn new(width: i32, height: i32, hash: &str, min_room_width: i32, min_room_height: i32) -> (r: Self)
        requires
            width >= 0,
            height >= 0,
        ensures
            r.wf(),
            r.cells() == filled(width as int, height as int, Tile::Empty),
            r.rooms@.len() == 0,
            r.hash@ == hash@,
            r.tile_size == 16,
            r.width == width,
            r.height == height,
            r.min_room_width == min_room_width,
            r.min_room_height == min_room_height,
    {
        let mut board: Vec<Vec<Tile>> = Vec::new();
        let mut i: i32 = 0;
        while i < height
            invariant
                0 <= i <= height,
                width >= 0,
                grid_view(board) == filled(width as int, i as int, Tile::Empty),
            decreases height - i,
        {
            let row = vec![Tile::Empty; width as usize];
            assert(row@ =~= Seq::new(width as nat, |j: int| Tile::Empty));
            let ghost prev = grid_view(board);
            board.push(row);
            assert(grid_view(board) =~= prev.push(row@));
            i = i + 1;
            assert(grid_view(board) =~= filled(width as int, i as int, Tile::Empty));
        }
        Level {
            tile_size: 16,
            width,
            height,
            board,
            rooms: Vec::new(),
            hash: String::from_str(hash),
            min_room_width,
            min_room_height,
        }
    }

    /// Writes the layout of `room` over the board at its position, later
    /// rooms winning where they overlap, and appends the room to `rooms`.
    pub fn add_room(&mut self, room: &Room)
        requires
            old(self).wf(),
            fits(*room, old(self).width as int, old(self).height as int),
        ensures
            final(self).wf(),
            final(self).same_settings(old(self)),
            final(self).cells() == stamp(old(self).cells(), *room),
            final(self).rooms@.len() == old(self).rooms@.len() + 1,
            forall|i: int|
                0 <= i < old(self).rooms@.len() ==> #[trigger] final(self).rooms@[i]
                    == old(self).rooms@[i],
            same_room(final(self).rooms@.last(), *room),
    {
        let ghost before = self.cells();
        let ghost lay = grid_view(room.layout);
        let mut row: usize = 0;
        while row < room.layout.len()
            invariant
                self.wf(),
                self.same_settings(old(self)),
                self.rooms@ == old(self).rooms@,
                before == old(self).cells(),
                lay == grid_view(room.layout),
                fits(*room, self.width as int, self.height as int),
                row <= lay.len(),
                forall|y: int, x: int|
                    0 <= y < self.height && 0 <= x < self.width ==> #[trigger] self.cells()[y][x]
                        == if room.x <= x < room.x2 && room.y <= y < room.y + row {
                        lay[y - room.y][x - room.x]
                    } else {
                        before[y][x]
                    },
            decreases lay.len() - row,
        {
            let mut col: usize = 0;
            while col < room.layout[row].len()
                invariant
                    self.wf(),
                    self.same_settings(old(self)),
                    self.rooms@ == old(self).rooms@,
                    before == old(self).cells(),
                    lay == grid_view(room.layout),
                    fits(*room, self.width as int, self.height as int),
                    row < lay.len(),
                    col <= lay[row as int].len(),
                    forall|y: int, x: int|
                        0 <= y < self.height && 0 <= x < self.width ==> #[trigger] self.cells()[y][x]
                            == if (room.x <= x < room.x2 && room.y <= y < room.y + row) || (y
                            == room.y + row && room.x <= x < room.x + col) {
                            lay[y - room.y][x - room.x]
                        } else {
                            before[y][x]
                        },
                decreases lay[row as int].len() - col,
            {
                let y = room.y as usize + row;
                let x = room.x as usize + col;
                assert(lay[row as int].len() == room.width);
                assert(self.cells()[y as int].len() == self.width);
                assert(self.board@[y as int]@ == self.cells()[y as int]);
                let t = room.layout[row][col];
                let ghost prev = self.cells();
                self.board[y][x] = t;
                assert(self.cells() =~= prev.update(y as int, prev[y as int].update(x as int, t)));
                col = col + 1;
            }
            row = row + 1;
        }
        assert(self.cells() =~= stamp(before, *room)) by {
            assert forall|y: int| 0 <= y < before.len() implies #[trigger] self.cells()[y]
                =~= stamp(before, *room)[y] by {}
        }
        self.rooms.push(room.duplicate());
    }

    /// The board as comma-separated tile codes, one line per row, lines
    /// joined by newlines.
    pub fn board_to_csv(&self) -> (r: String)
        requires
            self.wf(),
        ensures
            r@ == csv_lines(self.cells()),
    {
        let ghost rows = self.cells();
        let mut output = String::new();
        let mut row: usize = 0;
        while row < self.height as usize
            invariant
                self.wf(),
                rows == self.cells(),
                row <= self.height,
                output@ == csv_lines(rows.take(row as int)),
            decreases self.height - row,
        {
            assert(self.board@[row as int]@ == rows[row as int]);
            let ghost cells = rows[row as int];
            let mut line = String::new();
            let mut col: usize = 0;
            while col < self.width as usize
                invariant
                    self.wf(),
                    rows == self.cells(),
                    row < self.height,
                    cells == rows[row as int],
                    cells == self.board@[row as int]@,
                    cells.len() == self.width,
                    col <= self.width,
                    line@ == csv_row(cells.take(col as int)),
                decreases self.width - col,
            {
                if col > 0 {
                    proof {
                        reveal_strlit(",");
                    }
                    line.append(",");
                }
                line.append(csv_code(self.board[row][col]));
                assert(cells.take(col + 1).drop_last() =~= cells.take(col as int));
                col = col + 1;
            }
            assert(cells.take(col as int) =~= cells);
            if row > 0 {
                proof {
                    reveal_strlit("\n");
                }
                output.append("\n");
            }
            output.append(line.as_str());
            assert(rows.take(row + 1).drop_last() =~= rows.take(row as int));
            row = row + 1;
        }
        assert(rows.take(row as int) =~= rows);
        output
    }

    /// The text rendering: the hash, then each row as its glyphs, each
    /// followed by a space, and a newline.
    pub fn to_string(&self) -> (r: String)
        requires
            self.wf(),
        ensures
            r@ == self.hash@ + text_lines(self.cells()),
    {
        let ghost rows = self.cells();
        let mut output = String::from_str(self.hash.as_str());
        let mut row: usize = 0;
        while row < self.height as usize
            invariant
                self.wf(),
                rows == self.cells(),
                row <= self.height,
                output@ == self.hash@ + text_lines(rows.take(row as int)),
            decreases self.height - row,
        {
            assert(self.board@[row as int]@ == rows[row as int]);
            let ghost cells = rows[row as int];
            let mut line = String::new();
            let mut col: usize = 0;
            while col < self.width as usize
                invariant
                    self.wf(),
                    rows == self.cells(),
                    row < self.height,
                    cells == rows[row as int],
                    cells == self.board@[row as int]@,
                    cells.len() == self.width,
                    col <= self.width,
                    line@ == text_row(cells.take(col as int)),
                decreases self.width - col,
            {
                let glyph = self.board[row][col].to_string();
                line.append(glyph.as_str());
                proof {
                    reveal_strlit(" ");
                }
                line.append(" ");
                assert(cells.take(col + 1).drop_last() =~= cells.take(col as int));
                col = col + 1;
            }
            assert(cells.take(col as int) =~= cells);
            proof {
                reveal_strlit("\n");
            }
            line.append("\n");
            output.append(line.as_str());
            assert(rows.take(row + 1).drop_last() =~= rows.take(row as int));
            row = row + 1;
        }
        assert(rows.take(row as int) =~= rows);
        output
    }

    /// Marks the cells next to walkable ones as walls: one row-major pass
    /// that turns each empty neighbour of a walkable cell into a wall.
    pub fn add_walls(&mut self)
        requires
            old(self).wf(),
        ensures
            final(self).wf(),
            final(self).same_settings(old(self)),
            final(self).rooms@ == old(self).rooms@,
            final(self).cells() == walled(old(self).cells()),
    {
        let ghost b = self.cells();
        proof {
            lemma_walled_upto_start(b);
        }
        let mut y: usize = 0;
        while y < self.board.len()
            invariant
                self.wf(),
                self.same_settings(old(self)),
                self.rooms@ == old(self).rooms@,
                b == old(self).cells(),
                is_grid(b, self.width as int, self.height as int),
                y <= self.height,
                self.cells() == walled_upto(b, 0, y as int),
            decreases self.height - y,
        {
            let mut x: usize = 0;
            while x < self.board[y].len()
                invariant
                    self.wf(),
                    self.same_settings(old(self)),
                    self.rooms@ == old(self).rooms@,
                    b == old(self).cells(),
                    is_grid(b, self.width as int, self.height as int),
                    y < self.height,
                    x <= self.width,
                    self.cells() == walled_upto(b, x as int, y as int),
                decreases self.width - x,
            {
                assert(self.board@[y as int]@ == self.cells()[y as int]);
                proof {
                    lemma_walled_upto_step(b, x as int, y as int, self.width as int, self.height as int);
                }
                if self.board[y][x] == Tile::Walkable {
                    let ghost cur = self.cells();
                    if x >= 1 {
                        if y >= 1 {
                            self.add_wall(x - 1, y - 1);
                        }
                        self.add_wall(x - 1, y);
                        self.add_wall(x - 1, y + 1);
                    }
                    if y >= 1 {
                        self.add_wall(x, y - 1);
                        self.add_wall(x + 1, y - 1);
                    }
                    self.add_wall(x + 1, y);
                    self.add_wall(x, y + 1);
                    self.add_wall(x + 1, y + 1);
                    assert(self.cells() =~= mark_around(cur, x as int, y as int)) by {
                        assert forall|j: int| 0 <= j < cur.len() implies #[trigger] self.cells()[j]
                            =~= mark_around(cur, x as int, y as int)[j] by {}
                    }
                }
                x = x + 1;
            }
            assert(self.board@[y as int]@ == self.cells()[y as int]);
            proof {
                lemma_walled_upto_row(b, y as int, self.width as int, self.height as int);
            }
            y = y + 1;
        }
        proof {
            lemma_walled_upto_end(b, self.width as int, self.height as int);
        }
    }

    /// Turns the cell `(x, y)` into a wall if it is on the board and empty.
    fn add_wall(&mut self, x: usize, y: usize)
        requires
            old(self).wf(),
        ensures
            final(self).wf(),
            final(self).same_settings(old(self)),
            final(self).rooms@ == old(self).rooms@,
            final(self).cells() == mark_cell(old(self).cells(), x as int, y as int),
    {
        if x >= self.width as usize || y >= self.height as usize {
            assert(self.cells() =~= mark_cell(self.cells(), x as int, y as int)) by {
                assert forall|j: int| 0 <= j < self.cells().len() implies #[trigger] self.cells()[j]
                    =~= mark_cell(self.cells(), x as int, y as int)[j] by {}
            }
            return;
        }
        let ghost cur = self.cells();
        assert(self.board@[y as int]@ == cur[y as int]);
        if self.board[y][x] == Tile::Empty {
            self.board[y][x] = Tile::Wall;
            assert(self.cells() =~= cur.update(y as int, cur[y as int].update(x as int, Tile::Wall)));
        }
        assert(self.cells() =~= mark_cell(cur, x as int, y as int)) by {
            assert forall|j: int| 0 <= j < cur.len() implies #[trigger] self.cells()[j]
                =~= mark_cell(cur, x as int, y as int)[j] by {}
        }
    }
}

/// Before any cell is handled the board is unchanged.
proof fn lemma_walled_upto_start(b: Seq<Seq<Tile>>)
    ensures
        walled_upto(b, 0, 0) == b,
{
    assert forall|y: int| 0 <= y < b.len() implies #[trigger] walled_upto(b, 0, 0)[y] =~= b[y] by {}
    assert(walled_upto(b, 0, 0) =~= b);
}

/// Handling the cell `(px, py)` marks its empty neighbours if it is
/// walkable, and changes nothing otherwise.
proof fn lemma_walled_upto_step(b: Seq<Seq<Tile>>, px: int, py: int, w: int, h: int)
    requires
        is_grid(b, w, h),
        0 <= px < w,
        0 <= py < h,
    ensures
        (walled_upto(b, px, py)[py][px] == Tile::Walkable) == walkable_at(b, px, py),
        walkable_at(b, px, py) ==> mark_around(walled_upto(b, px, py), px, py) == walled_upto(
            b,
            px + 1,
            py,
        ),
        !walkable_at(b, px, py) ==> walled_upto(b, px, py) == walled_upto(b, px + 1, py),
{
    let cur = walled_upto(b, px, py);
    let next = walled_upto(b, px + 1, py);
    assert(b[py].len() == w);
    if walkable_at(b, px, py) {
        assert forall|y: int| 0 <= y < h implies #[trigger] mark_around(cur, px, py)[y] =~= next[y] by {
            assert forall|x: int| 0 <= x < w implies mark_around(cur, px, py)[y][x] == next[y][x] by {
                assert(b[y].len() == w);
            }
        }
        assert(mark_around(cur, px, py) =~= next);
    } else {
        assert forall|y: int| 0 <= y < h implies #[trigger] cur[y] =~= next[y] by {
            assert forall|x: int| 0 <= x < w implies cur[y][x] == next[y][x] by {
                assert(b[y].len() == w);
            }
        }
        assert(cur =~= next);
    }
}

/// The end of one row is the start of the next.
proof fn lemma_walled_upto_row(b: Seq<Seq<Tile>>, py: int, w: int, h: int)
    requires
        is_grid(b, w, h),
        0 <= py < h,
    ensures
        walled_upto(b, w, py) == walled_upto(b, 0, py + 1),
{
    assert forall|y: int| 0 <= y < h implies #[trigger] walled_upto(b, w, py)[y] =~= walled_upto(
        b,
        0,
        py + 1,
    )[y] by {
        assert(b[y].len() == w);
    }
    assert(walled_upto(b, w, py) =~= walled_upto(b, 0, py + 1));
}

/// Once every row is handled the board is the walled board.
proof fn lemma_walled_upto_end(b: Seq<Seq<Tile>>, w: int, h: int)
    requires
        is_grid(b, w, h),
    ensures
        walled_upto(b, 0, h) == walled(b),
{
    assert forall|y: int| 0 <= y < h implies #[trigger] walled_upto(b, 0, h)[y] =~= walled(b)[y] by {
        assert(b[y].len() == w);
    }
    assert(walled_upto(b, 0, h) =~= walled(b));
}

/// The wall pass never overwrites a walkable cell, changes nothing but empty
/// cells into walls, and a cell that it turns into a wall was empty and had
/// a walkable neighbour.
pub proof fn lemma_walls_sound(b: Seq<Seq<Tile>>, x: int, y: int)
    requires
        0 <= y < b.len(),
        0 <= x < b[y].len(),
    ensures
        b[y][x] == Tile::Walkable ==> walled(b)[y][x] == Tile::Walkable,
        walled(b)[y][x] == Tile::Wall && b[y][x] != Tile::Wall ==> b[y][x] == Tile::Empty
            && near_walkable(b, x, y),
        walled(b)[y][x] != b[y][x] ==> b[y][x] == Tile::Empty && walled(b)[y][x] == Tile::Wall,
{
}

/// Running the wall pass a second time changes nothing.
pub proof fn lemma_walls_idempotent(b: Seq<Seq<Tile>>)
    ensures
        walled(walled(b)) == walled(b),
{
    let once = walled(b);
    assert forall|y: int, x: int| #[trigger] walkable_at(once, x, y) == walkable_at(b, x, y) by {}
    assert forall|y: int| 0 <= y < b.len() implies #[trigger] walled(once)[y] =~= once[y] by {
        assert forall|x: int| 0 <= x < b[y].len() implies walled(once)[y][x] == once[y][x] by {
            assert(near_walkable(once, x, y) == near_walkable(b, x, y));
        }
    }
    assert(walled(once) =~= once);
}

/// After the wall pass no empty cell touches a walkable one: every walkable
/// cell is enclosed by walls, other walkable cells or the edge of the board.
pub proof fn lemma_walls_enclose(b: Seq<Seq<Tile>>, x: int, y: int)
    requires
        0 <= y < b.len(),
        0 <= x < b[y].len(),
        walled(b)[y][x] == Tile::Empty,
    ensures
        !near_walkable(walled(b), x, y),
{
    let once = walled(b);
    assert forall|j: int, i: int| #[trigger] walkable_at(once, i, j) == walkable_at(b, i, j) by {}
}

} // verus!
