use rand::rngs::StdRng;
use vstd::prelude::*;

use crate::level::{fits, stamp, walled, Level};
use crate::room::is_grid;
use crate::random::gen_range;
use crate::room::{filled, rects_intersect, Room};
use crate::tile::{grid_view, Tile};

verus! {

/// How many rooms the placer tries to put down.
pub const MAX_ROOMS: u32 = 10;

/// Room widths are drawn below this bound.
pub const MAX_ROOM_WIDTH: i32 = 8;

/// Room heights are drawn below this bound.
pub const MAX_ROOM_HEIGHT: i32 = 12;

/// The cell `(x, y)` lies inside the rectangle of `r`.
pub open spec fn in_room(r: Room, x: int, y: int) -> bool {
    r.x <= x < r.x2 && r.y <= y < r.y2
}

/// `v` lies between `a` and `b`, both included, whichever is smaller.
pub open spec fn between(v: int, a: int, b: int) -> bool {
    (a <= v <= b) || (b <= v <= a)
}

/// The cell `(x, y)` lies on the L-shaped corridor from the centre of `a` to
/// the centre of `b`: along the row of `a`'s centre, then along the column of
/// `b`'s centre.
pub open spec fn on_link(a: Room, b: Room, x: int, y: int) -> bool {
    ||| (y == a.centre.y && between(x, a.centre.x as int, b.centre.x as int))
    ||| (x == b.centre.x && between(y, a.centre.y as int, b.centre.y as int))
}

/// The cell is inside one of the rooms, or on one of the first `links`
/// corridors between consecutive rooms.
pub open spec fn covered(rooms: Seq<Room>, links: int, x: int, y: int) -> bool {
    ||| exists|i: int| 0 <= i < rooms.len() && #[trigger] in_room(rooms[i], x, y)
    ||| exists|i: int| 0 <= i < links && #[trigger] on_link(rooms[i], rooms[i + 1], x, y)
}

/// The cell lies on one of the first `links` corridors between consecutive
/// rooms.
pub open spec fn on_some_link(rooms: Seq<Room>, links: int, x: int, y: int) -> bool {
    exists|i: int| 0 <= i < links && #[trigger] on_link(rooms[i], rooms[i + 1], x, y)
}

/// `b` with the first `links` corridors between consecutive rooms made
/// walkable.
pub open spec fn with_links(b: Seq<Seq<Tile>>, rooms: Seq<Room>, links: int) -> Seq<Seq<Tile>> {
    Seq::new(
        b.len(),
        |y: int|
            Seq::new(
                b[y].len(),
                |x: int|
                    if on_some_link(rooms, links, x, y) {
                        Tile::Walkable
                    } else {
                        b[y][x]
                    },
            ),
    )
}

/// The rectangle from `(x, y)` to `(x2, y2)` overlaps or touches `b`,
/// bounds included.
pub open spec fn meets(x: int, y: int, x2: int, y2: int, b: Room) -> bool {
    x <= b.x2 && x2 >= b.x && y <= b.y2 && y2 >= b.y
}

/// Where a room of size `size` drawn at `v` starts once it is shifted back
/// onto a board of extent `bound`.
pub open spec fn clamp_origin(v: int, size: int, bound: int) -> int {
    if v + size > bound {
        bound - size
    } else {
        v
    }
}

/// A `w` by `h` board on which the covered cells are walkable and all others
/// empty.
pub open spec fn carved(rooms: Seq<Room>, links: int, w: int, h: int) -> Seq<Seq<Tile>> {
    Seq::new(
        h as nat,
        |y: int| Seq::new(w as nat, |x: int| if covered(rooms, links, x, y) {
            Tile::Walkable
        } else {
            Tile::Empty
        }),
    )
}

/// No two of the rooms intersect.
pub open spec fn apart(rooms: Seq<Room>) -> bool {
    forall|i: int, j: int|
        0 <= i < rooms.len() && 0 <= j < rooms.len() && i != j ==> !rects_intersect(
            #[trigger] rooms[i],
            #[trigger] rooms[j],
        )
}

/// Every room lies on the board, is all walkable, and its size was drawn
/// from `[min_w, max_w)` by `[min_h, max_h)`.
pub open spec fn placed(rooms: Seq<Room>, w: int, h: int, min_w: int, max_w: int, min_h: int, max_h: int) -> bool {
    forall|i: int|
        0 <= i < rooms.len() ==> {
            &&& fits(#[trigger] rooms[i], w, h)
            &&& min_w <= rooms[i].width < max_w
            &&& min_h <= rooms[i].height < max_h
            &&& grid_view(rooms[i].layout) == filled(
                rooms[i].width as int,
                rooms[i].height as int,
                Tile::Walkable,
            )
        }
}

/// `b` with every cell of the rectangle `[x0, x1]` by `[y0, y1]` made
/// walkable, bounds included.
pub open spec fn paint(b: Seq<Seq<Tile>>, x0: int, x1: int, y0: int, y1: int) -> Seq<Seq<Tile>> {
    Seq::new(
        b.len(),
        |y: int|
            Seq::new(
                b[y].len(),
                |x: int|
                    if x0 <= x <= x1 && y0 <= y <= y1 {
                        Tile::Walkable
                    } else {
                        b[y][x]
                    },
            ),
    )
}

/// Puts down a room drawn at `(x, y)` of the given size. Its origin is first
/// shifted left and up so that it does not cross the right or bottom edge;
/// the room is then placed, stamped and recorded, unless it intersects a
/// room already placed, in which case nothing changes. Returns whether it
/// was placed.
pub fn place_candidate(level: &mut Level, x: i32, y: i32, width: i32, height: i32) -> (placed: bool)
    requires
        old(level).wf(),
        0 <= x,
        0 <= y,
        0 <= width <= old(level).width,
        0 <= height <= old(level).height,
    ensures
        final(level).wf(),
        final(level).same_settings(old(level)),
        ({
            let cx = clamp_origin(x as int, width as int, old(level).width as int);
            let cy = clamp_origin(y as int, height as int, old(level).height as int);
            let rooms = old(level).rooms@;
            &&& placed == forall|i: int|
                0 <= i < rooms.len() ==> !meets(cx, cy, cx + width, cy + height, #[trigger] rooms[i])
            &&& placed ==> {
                let r = final(level).rooms@.last();
                &&& final(level).rooms@.len() == rooms.len() + 1
                &&& final(level).rooms@.drop_last() == rooms
                &&& r.wf()
                &&& r.x == cx && r.y == cy && r.width == width && r.height == height
                &&& grid_view(r.layout) == filled(width as int, height as int, Tile::Walkable)
                &&& final(level).cells() == stamp(old(level).cells(), r)
            }
            &&& !placed ==> final(level).rooms@ == rooms && final(level).cells() == old(
                level,
            ).cells()
        }),
{
    let mut cx = x;
    let mut cy = y;
    if x > level.width - width {
        cx = level.width - width;
    }
    if y > level.height - height {
        cy = level.height - height;
    }
    let room = Room::new(cx, cy, width, height, None);
    let mut collides = false;
    let mut k: usize = 0;
    while k < level.rooms.len() && !collides
        invariant
            k <= level.rooms@.len(),
            !collides ==> forall|j: int|
                0 <= j < k ==> !rects_intersect(room, #[trigger] level.rooms@[j]),
            collides ==> k < level.rooms@.len() && rects_intersect(room, level.rooms@[k as int]),
        decreases level.rooms@.len() - k + if collides {
            0int
        } else {
            1int
        },
    {
        if room.intersects(&level.rooms[k]) {
            collides = true;
        } else {
            k = k + 1;
        }
    }
    if !collides {
        level.add_room(&room);
        assert(level.rooms@.drop_last() =~= old(level).rooms@);
    }
    !collides
}

/// The rooms-and-corridors generator: scattered rooms that do not touch,
/// linked in the order they were placed.
pub struct RoomsCorridors {
    level: Level,
}

impl RoomsCorridors {
    /// Places up to `MAX_ROOMS` rooms that do not intersect, links each to
    /// the next with an L-shaped corridor between their centres, and adds
    /// walls round them when `add_walls` is set.
    pub fn new(
        width: i32,
        height: i32,
        hash: &str,
        rng: &mut StdRng,
        add_walls: bool,
        min_room_width: i32,
        min_room_height: i32,
    ) -> (r: Level)
        requires
            MAX_ROOM_WIDTH - 1 <= width,
            MAX_ROOM_HEIGHT - 1 <= height,
            0 < min_room_width < MAX_ROOM_WIDTH,
            0 < min_room_height < MAX_ROOM_HEIGHT,
        ensures
            r.wf(),
            r.width == width,
            r.height == height,
            r.hash@ == hash@,
            r.min_room_width == min_room_width,
            r.min_room_height == min_room_height,
            1 <= r.rooms@.len() <= MAX_ROOMS,
            apart(r.rooms@),
            placed(
                r.rooms@,
                width as int,
                height as int,
                min_room_width as int,
                MAX_ROOM_WIDTH as int,
                min_room_height as int,
                MAX_ROOM_HEIGHT as int,
            ),
            ({
                let base = carved(r.rooms@, r.rooms@.len() - 1, width as int, height as int);
                r.cells() == if add_walls {
                    walled(base)
                } else {
                    base
                }
            }),
    {
        let level = Level::new(width, height, hash, min_room_width, min_room_height);
        let mut map = RoomsCorridors { level };
        map.place_rooms(rng, MAX_ROOMS, MAX_ROOM_WIDTH, MAX_ROOM_HEIGHT);
        let ghost rooms = map.level.rooms@;
        map.place_corridors(rng);
        proof {
            lemma_links_over_rooms(rooms, rooms.len() - 1, width as int, height as int);
        }
        if add_walls {
            map.level.add_walls();
        }
        map.level
    }

    /// Makes the cells from `start_x` to `end_x` of row `y` walkable.
    fn horz_corridor(&mut self, start_x: i32, end_x: i32, y: i32)
        requires
            old(self).level.wf(),
            0 <= start_x,
            end_x < old(self).level.width,
            0 <= y < old(self).level.height,
        ensures
            final(self).level.wf(),
            final(self).level.same_settings(&old(self).level),
            final(self).level.rooms@ == old(self).level.rooms@,
            final(self).level.cells() == paint(
                old(self).level.cells(),
                start_x as int,
                end_x as int,
                y as int,
                y as int,
            ),
    {
        let ghost before = self.level.cells();
        assert(before =~= paint(before, start_x as int, start_x - 1, y as int, y as int)) by {
            assert forall|j: int| 0 <= j < before.len() implies #[trigger] before[j] =~= paint(
                before,
                start_x as int, start_x - 1, y as int, y as int,
            )[j] by {}
        }
        let mut col: i32 = start_x;
        while col <= end_x
            invariant
                self.level.wf(),
                self.level.same_settings(&old(self).level),
                self.level.rooms@ == old(self).level.rooms@,
                before == old(self).level.cells(),
                start_x <= col,
                0 <= start_x,
                end_x < self.level.width,
                0 <= y < self.level.height,
                col <= end_x + 1 || col == start_x,
                self.level.cells() == paint(before, start_x as int, col - 1, y as int, y as int),
            decreases end_x + 1 - col,
        {
            let ghost prev = self.level.cells();
            assert(self.level.board@[y as int]@ == prev[y as int]);
            self.level.board[y as usize][col as usize] = Tile::Walkable;
            assert(self.level.cells() =~= prev.update(
                y as int,
                prev[y as int].update(col as int, Tile::Walkable),
            ));
            col = col + 1;
            assert(self.level.cells() =~= paint(before, start_x as int, col - 1, y as int, y as int))
                by {
                assert forall|j: int| 0 <= j < before.len() implies #[trigger] self.level.cells()[j]
                    =~= paint(before, start_x as int, col - 1, y as int, y as int)[j] by {}
            }
        }
        assert(self.level.cells() =~= paint(before, start_x as int, end_x as int, y as int, y as int))
            by {
            assert forall|j: int| 0 <= j < before.len() implies #[trigger] self.level.cells()[j]
                =~= paint(before, start_x as int, end_x as int, y as int, y as int)[j] by {}
        }
    }

    /// Makes the cells from `start_y` to `end_y` of column `x` walkable.
    fn vert_corridor(&mut self, start_y: i32, end_y: i32, x: i32)
        requires
            old(self).level.wf(),
            0 <= start_y,
            end_y < old(self).level.height,
            0 <= x < old(self).level.width,
        ensures
            final(self).level.wf(),
            final(self).level.same_settings(&old(self).level),
            final(self).level.rooms@ == old(self).level.rooms@,
            final(self).level.cells() == paint(
                old(self).level.cells(),
                x as int,
                x as int,
                start_y as int,
                end_y as int,
            ),
    {
        let ghost before = self.level.cells();
        assert(before =~= paint(before, x as int, x as int, start_y as int, start_y - 1)) by {
            assert forall|j: int| 0 <= j < before.len() implies #[trigger] before[j] =~= paint(
                before,
                x as int, x as int, start_y as int, start_y - 1,
            )[j] by {}
        }
        let mut row: i32 = start_y;
        while row <= end_y
            invariant
                self.level.wf(),
                self.level.same_settings(&old(self).level),
                self.level.rooms@ == old(self).level.rooms@,
                before == old(self).level.cells(),
                start_y <= row,
                0 <= start_y,
                end_y < self.level.height,
                0 <= x < self.level.width,
                row <= end_y + 1 || row == start_y,
                self.level.cells() == paint(before, x as int, x as int, start_y as int, row - 1),
            decreases end_y + 1 - row,
        {
            let ghost prev = self.level.cells();
            assert(self.level.board@[row as int]@ == prev[row as int]);
            self.level.board[row as usize][x as usize] = Tile::Walkable;
            assert(self.level.cells() =~= prev.update(
                row as int,
                prev[row as int].update(x as int, Tile::Walkable),
            ));
            row = row + 1;
            assert(self.level.cells() =~= paint(before, x as int, x as int, start_y as int, row - 1))
                by {
                assert forall|j: int| 0 <= j < before.len() implies #[trigger] self.level.cells()[j]
                    =~= paint(before, x as int, x as int, start_y as int, row - 1)[j] by {}
            }
        }
        assert(self.level.cells() =~= paint(before, x as int, x as int, start_y as int, end_y as int))
            by {
            assert forall|j: int| 0 <= j < before.len() implies #[trigger] self.level.cells()[j]
                =~= paint(before, x as int, x as int, start_y as int, end_y as int)[j] by {}
        }
    }

    /// Tries `max_rooms` times to put down a room of random position and
    /// size with `place_candidate`. The first try always succeeds, as
    /// there is nothing yet to intersect.
    fn place_rooms(&mut self, rng: &mut StdRng, max_rooms: u32, max_room_width: i32, max_room_height: i32)
        requires
            old(self).level.wf(),
            old(self).level.rooms@.len() == 0,
            old(self).level.cells() == filled(
                old(self).level.width as int,
                old(self).level.height as int,
                Tile::Empty,
            ),
            max_room_width - 1 <= old(self).level.width,
            max_room_height - 1 <= old(self).level.height,
            0 < old(self).level.min_room_width < max_room_width,
            0 < old(self).level.min_room_height < max_room_height,
        ensures
            final(self).level.wf(),
            final(self).level.same_settings(&old(self).level),
            final(self).level.rooms@.len() <= max_rooms,
            max_rooms >= 1 ==> final(self).level.rooms@.len() >= 1,
            apart(final(self).level.rooms@),
            placed(
                final(self).level.rooms@,
                final(self).level.width as int,
                final(self).level.height as int,
                final(self).level.min_room_width as int,
                max_room_width as int,
                final(self).level.min_room_height as int,
                max_room_height as int,
            ),
            final(self).level.cells() == carved(
                final(self).level.rooms@,
                0,
                final(self).level.width as int,
                final(self).level.height as int,
            ),
    {
        let w = self.level.width;
        let h = self.level.height;
        let min_w = self.level.min_room_width;
        let min_h = self.level.min_room_height;
        assert(self.level.cells() =~= carved(self.level.rooms@, 0, w as int, h as int)) by {
            assert forall|j: int| 0 <= j < h implies #[trigger] self.level.cells()[j]
                =~= carved(self.level.rooms@, 0, w as int, h as int)[j] by {}
        }
        let mut attempt: u32 = 0;
        while attempt < max_rooms
            invariant
                self.level.wf(),
                self.level.same_settings(&old(self).level),
                w == self.level.width,
                h == self.level.height,
                min_w == self.level.min_room_width,
                min_h == self.level.min_room_height,
                max_room_width - 1 <= w,
                max_room_height - 1 <= h,
                0 < min_w < max_room_width,
                0 < min_h < max_room_height,
                attempt <= max_rooms,
                self.level.rooms@.len() <= attempt,
                attempt > 0 ==> self.level.rooms@.len() >= 1,
                apart(self.level.rooms@),
                placed(
                    self.level.rooms@,
                    w as int,
                    h as int,
                    min_w as int,
                    max_room_width as int,
                    min_h as int,
                    max_room_height as int,
                ),
                self.level.cells() == carved(self.level.rooms@, 0, w as int, h as int),
            decreases max_rooms - attempt,
        {
            let x = gen_range(rng, 0, w);
            let y = gen_range(rng, 0, h);
            let width = gen_range(rng, min_w, max_room_width);
            let height = gen_range(rng, min_h, max_room_height);
            let ghost old_rooms = self.level.rooms@;
            let ghost old_cells = self.level.cells();
            if place_candidate(&mut self.level, x, y, width, height) {
                proof {
                    let rooms = self.level.rooms@;
                    assert forall|i: int| 0 <= i < old_rooms.len() implies #[trigger] rooms[i]
                        == old_rooms[i] by {
                        assert(rooms[i] == rooms.drop_last()[i]);
                    }
                    lemma_carve_room(old_rooms, rooms, rooms.last(), old_cells, w as int, h as int);
                    assert(placed(
                        rooms,
                        w as int,
                        h as int,
                        min_w as int,
                        max_room_width as int,
                        min_h as int,
                        max_room_height as int,
                    )) by {
                        assert forall|i: int| 0 <= i < rooms.len() implies fits(
                            #[trigger] rooms[i],
                            w as int,
                            h as int,
                        ) by {
                            if i < old_rooms.len() {
                                assert(rooms[i] == old_rooms[i]);
                            }
                        }
                    }
                    assert(apart(rooms)) by {
                        assert forall|i: int, j: int|
                            0 <= i < rooms.len() && 0 <= j < rooms.len() && i != j implies !rects_intersect(
                            #[trigger] rooms[i],
                            #[trigger] rooms[j],
                        ) by {
                            if i < old_rooms.len() {
                                assert(rooms[i] == old_rooms[i]);
                            }
                            if j < old_rooms.len() {
                                assert(rooms[j] == old_rooms[j]);
                            }
                        }
                    }
                }
            }
            attempt = attempt + 1;
        }
    }

    /// Links each room to the next one in placement order with an L-shaped
    /// corridor between their centres, made walkable over whatever the board
    /// holds; one random bit picks which leg is carved first, which does not
    /// change the cells carved. With fewer than two rooms nothing changes.
    fn place_corridors(&mut self, rng: &mut StdRng)
        requires
            old(self).level.wf(),
            placed(
                old(self).level.rooms@,
                old(self).level.width as int,
                old(self).level.height as int,
                1,
                i32::MAX as int,
                1,
                i32::MAX as int,
            ),
        ensures
            final(self).level.wf(),
            final(self).level.same_settings(&old(self).level),
            final(self).level.rooms@ == old(self).level.rooms@,
            final(self).level.cells() == with_links(
                old(self).level.cells(),
                old(self).level.rooms@,
                old(self).level.rooms@.len() - 1,
            ),
            old(self).level.rooms@.len() < 2 ==> final(self).level.cells() == old(
                self,
            ).level.cells(),
    {
        let ghost rooms = self.level.rooms@;
        let ghost w = self.level.width as int;
        let ghost h = self.level.height as int;
        let ghost b0 = self.level.cells();
        proof {
            lemma_no_links(b0, rooms, 0);
        }
        let mut i: usize = 0;
        while self.level.rooms.len() > 0 && i < self.level.rooms.len() - 1
            invariant
                self.level.wf(),
                self.level.same_settings(&old(self).level),
                self.level.rooms@ == rooms,
                rooms == old(self).level.rooms@,
                w == self.level.width,
                h == self.level.height,
                placed(rooms, w, h, 1, i32::MAX as int, 1, i32::MAX as int),
                i == 0 || i < rooms.len(),
                b0 == old(self).level.cells(),
                is_grid(b0, w, h),
                self.level.cells() == with_links(b0, rooms, i as int),
            decreases rooms.len() - i,
        {
            let a = self.level.rooms[i].centre;
            let b = self.level.rooms[i + 1].centre;
            assert(fits(rooms[i as int], w, h));
            assert(fits(rooms[i + 1], w, h));
            let ghost before = self.level.cells();
            let (x0, x1) = if a.x <= b.x {
                (a.x, b.x)
            } else {
                (b.x, a.x)
            };
            let (y0, y1) = if a.y <= b.y {
                (a.y, b.y)
            } else {
                (b.y, a.y)
            };
            if gen_range(rng, 0, 2) == 0 {
                self.horz_corridor(x0, x1, a.y);
                self.vert_corridor(y0, y1, b.x);
            } else {
                self.vert_corridor(y0, y1, b.x);
                self.horz_corridor(x0, x1, a.y);
            }
            proof {
                lemma_link_step(b0, rooms, i as int, before, self.level.cells(), w, h);
            }
            i = i + 1;
        }
        proof {
            if rooms.len() < 2 {
                lemma_no_links(b0, rooms, rooms.len() - 1);
            }
            if rooms.len() == 0 {
                lemma_no_links(b0, rooms, -1);
            }
        }
    }
}

/// Stamping one more all-walkable room onto a carved board carves it too.
proof fn lemma_carve_room(
    rooms: Seq<Room>,
    rooms2: Seq<Room>,
    room: Room,
    b: Seq<Seq<Tile>>,
    w: int,
    h: int,
)
    requires
        0 <= w,
        0 <= h,
        b == carved(rooms, 0, w, h),
        room.wf(),
        grid_view(room.layout) == filled(room.width as int, room.height as int, Tile::Walkable),
        rooms2.len() == rooms.len() + 1,
        forall|i: int| 0 <= i < rooms.len() ==> #[trigger] rooms2[i] == rooms[i],
        rooms2.last().x == room.x,
        rooms2.last().y == room.y,
        rooms2.last().x2 == room.x2,
        rooms2.last().y2 == room.y2,
    ensures
        stamp(b, room) == carved(rooms2, 0, w, h),
{
    assert forall|y: int| 0 <= y < h implies #[trigger] stamp(b, room)[y] =~= carved(rooms2, 0, w, h)[y] by {
        assert(b[y].len() == w as nat);
        assert(stamp(b, room)[y].len() == w as nat);
        assert(carved(rooms2, 0, w, h)[y].len() == w as nat);
        assert forall|x: int| 0 <= x < w implies #[trigger] stamp(b, room)[y][x] == carved(rooms2, 0, w, h)[y][x] by {
            assert(b[y][x] == (if covered(rooms, 0, x, y) { Tile::Walkable } else { Tile::Empty }));
            if in_room(room, x, y) {
                assert(grid_view(room.layout)[y - room.y][x - room.x] == Tile::Walkable);
                assert(stamp(b, room)[y][x] == Tile::Walkable);
                assert(in_room(rooms2[rooms.len() as int], x, y));
            }
            if covered(rooms, 0, x, y) {
                let i = choose|i: int| 0 <= i < rooms.len() && #[trigger] in_room(rooms[i], x, y);
                assert(in_room(rooms2[i], x, y));
            }
            if covered(rooms2, 0, x, y) && !in_room(room, x, y) {
                let i = choose|i: int| 0 <= i < rooms2.len() && #[trigger] in_room(rooms2[i], x, y);
                assert(i < rooms.len());
                assert(in_room(rooms[i], x, y));
            }
        }
    }
    assert(stamp(b, room) =~= carved(rooms2, 0, w, h));
}

/// Carving the corridor from room `i` to room `i + 1` on a board with the
/// first `i` corridors gives the board with the first `i + 1`.
proof fn lemma_link_step(
    b0: Seq<Seq<Tile>>,
    rooms: Seq<Room>,
    i: int,
    before: Seq<Seq<Tile>>,
    after: Seq<Seq<Tile>>,
    w: int,
    h: int,
)
    requires
        0 <= w,
        0 <= h,
        0 <= i,
        i + 1 < rooms.len(),
        is_grid(b0, w, h),
        before == with_links(b0, rooms, i),
        ({
            let a = rooms[i].centre;
            let b = rooms[i + 1].centre;
            let x0 = if a.x <= b.x { a.x as int } else { b.x as int };
            let x1 = if a.x <= b.x { b.x as int } else { a.x as int };
            let y0 = if a.y <= b.y { a.y as int } else { b.y as int };
            let y1 = if a.y <= b.y { b.y as int } else { a.y as int };
            ||| after == paint(paint(before, x0, x1, a.y as int, a.y as int), b.x as int, b.x as int, y0, y1)
            ||| after == paint(paint(before, b.x as int, b.x as int, y0, y1), x0, x1, a.y as int, a.y as int)
        }),
    ensures
        after == with_links(b0, rooms, i + 1),
{
    let next = with_links(b0, rooms, i + 1);
    assert forall|y: int| 0 <= y < h implies #[trigger] after[y] =~= next[y] by {
        assert(b0[y].len() == w);
        assert(before[y].len() == w as nat);
        assert(after[y].len() == w as nat);
        assert(next[y].len() == w as nat);
        assert forall|x: int| 0 <= x < w implies #[trigger] after[y][x] == next[y][x] by {
            if on_link(rooms[i], rooms[i + 1], x, y) {
                assert(on_some_link(rooms, i + 1, x, y));
            }
            if on_some_link(rooms, i + 1, x, y) && !on_some_link(rooms, i, x, y) {
                let k = choose|k: int| 0 <= k < i + 1 && #[trigger] on_link(rooms[k], rooms[k + 1], x, y);
                assert(k == i);
            }
            if on_some_link(rooms, i, x, y) {
                let k = choose|k: int| 0 <= k < i && #[trigger] on_link(rooms[k], rooms[k + 1], x, y);
                assert(on_some_link(rooms, i + 1, x, y));
            }
        }
    }
    assert(after =~= next);
}

/// With no corridors the board is unchanged.
proof fn lemma_no_links(b: Seq<Seq<Tile>>, rooms: Seq<Room>, links: int)
    requires
        links <= 0,
    ensures
        with_links(b, rooms, links) == b,
{
    assert forall|y: int| 0 <= y < b.len() implies #[trigger] with_links(b, rooms, links)[y] =~= b[y] by {}
    assert(with_links(b, rooms, links) =~= b);
}

/// The corridors carved over the rooms' board give the carved board.
proof fn lemma_links_over_rooms(rooms: Seq<Room>, links: int, w: int, h: int)
    requires
        0 <= w,
        0 <= h,
    ensures
        with_links(carved(rooms, 0, w, h), rooms, links) == carved(rooms, links, w, h),
{
    let b = carved(rooms, 0, w, h);
    let next = carved(rooms, links, w, h);
    assert forall|y: int| 0 <= y < h implies #[trigger] with_links(b, rooms, links)[y] =~= next[y] by {
        assert forall|x: int| 0 <= x < w implies #[trigger] with_links(b, rooms, links)[y][x] == next[y][x] by {
            if on_some_link(rooms, links, x, y) {
                let k = choose|k: int| 0 <= k < links && #[trigger] on_link(rooms[k], rooms[k + 1], x, y);
                assert(covered(rooms, links, x, y));
            }
            if covered(rooms, links, x, y) && !on_some_link(rooms, links, x, y) {
                assert(!(exists|k: int| 0 <= k < links && #[trigger] on_link(rooms[k], rooms[k + 1], x, y)));
            }
            if covered(rooms, 0, x, y) {
                assert(covered(rooms, links, x, y));
            }
        }
    }
    assert(with_links(b, rooms, links) =~= next);
}

} // verus!
