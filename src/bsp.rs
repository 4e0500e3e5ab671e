use rand::rngs::StdRng;
use vstd::prelude::*;

use crate::level::{fits, stamp, walled, Level};
use crate::random::gen_range;
use crate::room::{copy_grid, filled, is_grid, same_room, Room};
use crate::tile::{grid_view, Tile};

verus! {

/// A region of the board in the partition tree, with the room or the
/// corridors that it carries once rooms are made.
pub struct Leaf {
    pub min_size: i32,
    pub min_room_width: i32,
    pub min_room_height: i32,
    pub x: i32,
    pub y: i32,
    pub width: i32,
    pub height: i32,
    pub left_child: Option<Box<Leaf>>,
    pub right_child: Option<Box<Leaf>>,
    pub room: Option<Room>,
    pub corridors: Vec<Room>,
}

/// The split of `t` into `l` and `r` cuts its region in two along one axis,
/// the first part at least `min_size` and the second more than `min_size`
/// across that axis, and hands the settings on.
pub open spec fn split_ok(t: Leaf, l: Leaf, r: Leaf) -> bool {
    &&& l.min_size == t.min_size && r.min_size == t.min_size
    &&& l.min_room_width == t.min_room_width && r.min_room_width == t.min_room_width
    &&& l.min_room_height == t.min_room_height && r.min_room_height == t.min_room_height
    &&& l.x == t.x && l.y == t.y
    &&& {
        ||| {
            &&& l.width == t.width && r.width == t.width
            &&& r.x == t.x && r.y == t.y + l.height
            &&& l.height + r.height == t.height
            &&& l.height >= t.min_size && r.height > t.min_size
        }
        ||| {
            &&& l.height == t.height && r.height == t.height
            &&& r.y == t.y && r.x == t.x + l.width
            &&& l.width + r.width == t.width
            &&& l.width >= t.min_size && r.width > t.min_size
        }
    }
}

/// Every region of the tree is wider and taller than the smallest room, and
/// each node has no child or two children that split it.
pub open spec fn tree_wf(t: Leaf) -> bool
    decreases t,
{
    &&& 1 <= t.min_room_width < t.min_size
    &&& 1 <= t.min_room_height < t.min_size
    &&& t.width > t.min_room_width
    &&& t.height > t.min_room_height
    &&& match (t.left_child, t.right_child) {
        (None, None) => true,
        (Some(l), Some(r)) => split_ok(t, *l, *r) && tree_wf(*l) && tree_wf(*r),
        _ => false,
    }
}

/// The axis a region is cut across: horizontally (`true`) when it is at
/// least 1.25 times as tall as wide, vertically (`false`) when at least 1.25
/// times as wide as tall, and as `drawn` says otherwise.
pub open spec fn axis_of(drawn: bool, w: int, h: int) -> bool {
    if w > h && 4 * w >= 5 * h {
        false
    } else if h > w && 4 * h >= 5 * w {
        true
    } else {
        drawn
    }
}

/// The region is refused whatever axis is drawn: the side that its shape
/// forces to be cut is at most twice `min_size`, or, when neither side is
/// forced, one of them is.
pub open spec fn unsplittable(t: Leaf) -> bool {
    if t.width > t.height && 4 * t.width >= 5 * t.height {
        t.width - t.min_size <= t.min_size
    } else if t.height > t.width && 4 * t.height >= 5 * t.width {
        t.height - t.min_size <= t.min_size
    } else {
        t.width - t.min_size <= t.min_size || t.height - t.min_size <= t.min_size
    }
}

/// The region is cut whatever axis is drawn: the side that its shape forces
/// to be cut is more than twice `min_size`, or, when neither side is forced,
/// both are.
pub open spec fn surely_split(t: Leaf) -> bool {
    if t.width > t.height && 4 * t.width >= 5 * t.height {
        t.width - t.min_size > t.min_size
    } else if t.height > t.width && 4 * t.height >= 5 * t.width {
        t.height - t.min_size > t.min_size
    } else {
        t.width - t.min_size > t.min_size && t.height - t.min_size > t.min_size
    }
}

/// No region of the tree could have been split further: every leaf is
/// refused whatever axis is drawn.
pub open spec fn leaves_small(t: Leaf) -> bool
    decreases t,
{
    match (t.left_child, t.right_child) {
        (Some(l), Some(r)) => leaves_small(*l) && leaves_small(*r),
        _ => unsplittable(t),
    }
}

/// The axis to cut a `width` by `height` region across, given the drawn
/// bit: `true` for a horizontal cut, which divides the height.
pub fn split_axis(bit: i32, width: i32, height: i32) -> (horz: bool)
    ensures
        horz == axis_of(bit != 0, width as int, height as int),
{
    let mut split_horz = bit != 0;
    let w = width as i64;
    let h = height as i64;
    if w > h && 4 * w >= 5 * h {
        split_horz = false;
    } else if h > w && 4 * h >= 5 * w {
        split_horz = true;
    }
    split_horz
}

/// The node has no children, no room and no corridors yet.
pub open spec fn fresh(t: Leaf) -> bool {
    t.left_child is None && t.right_child is None && t.room is None && t.corridors@.len() == 0
}

/// No node of the tree has a room or corridors yet.
pub open spec fn bare(t: Leaf) -> bool
    decreases t,
{
    &&& t.room is None
    &&& t.corridors@.len() == 0
    &&& match (t.left_child, t.right_child) {
        (Some(l), Some(r)) => bare(*l) && bare(*r),
        (Some(l), None) => bare(*l),
        (None, Some(r)) => bare(*r),
        (None, None) => true,
    }
}

/// The room of the first leaf, left first, that has one.
pub open spec fn first_room(t: Leaf) -> Option<Room>
    decreases t,
{
    if t.left_child is None && t.right_child is None {
        t.room
    } else {
        let from_left = match t.left_child {
            Some(l) => first_room(*l),
            None => None,
        };
        if from_left is Some {
            from_left
        } else {
            match t.right_child {
                Some(r) => first_room(*r),
                None => None,
            }
        }
    }
}

/// The room lies on a `w` by `h` board and covers at least one cell.
pub open spec fn usable(r: Room, w: int, h: int) -> bool {
    fits(r, w, h) && r.width >= 1 && r.height >= 1
}

/// Every leaf of the tree has a room and every corridor of the tree lies on
/// a `w` by `h` board.
pub open spec fn rooms_ok(t: Leaf, w: int, h: int) -> bool
    decreases t,
{
    &&& forall|i: int| 0 <= i < t.corridors@.len() ==> fits(#[trigger] t.corridors@[i], w, h)
    &&& match (t.left_child, t.right_child) {
        (None, None) => t.room matches Some(r) && usable(r, w, h),
        (Some(l), Some(r)) => rooms_ok(*l, w, h) && rooms_ok(*r, w, h),
        _ => false,
    }
}

/// `r` is an all-walkable rectangle inside the region of `t`, at least the
/// smallest room size and smaller than the region on each axis.
pub open spec fn random_room(t: Leaf, r: Room) -> bool {
    &&& t.x <= r.x && r.x2 < t.x + t.width
    &&& t.y <= r.y && r.y2 < t.y + t.height
    &&& t.min_room_width <= r.width
    &&& t.min_room_height <= r.height
    &&& grid_view(r.layout) == filled(r.width as int, r.height as int, Tile::Walkable)
}

/// The room of leaf `t`, which is handed template `k` when there is one:
/// then its room, if it has one, is that template, of the template's size,
/// placed from a cell of the leaf's region; otherwise its room is a random
/// one.
pub open spec fn leaf_room_from(t: Leaf, ts: Seq<Vec<Vec<Tile>>>, k: int) -> bool {
    if k < ts.len() {
        t.room matches Some(r) ==> {
            let g = grid_view(ts[k]);
            &&& grid_view(r.layout) == g
            &&& r.width == g[0].len() && r.height == g.len()
            &&& t.x <= r.x < t.x + t.width
            &&& t.y <= r.y < t.y + t.height
        }
    } else {
        t.room matches Some(r) && random_room(t, r)
    }
}

/// The leaves of the tree, left to right.
pub open spec fn leaves_of(t: Leaf) -> Seq<Leaf>
    decreases t,
{
    match (t.left_child, t.right_child) {
        (Some(l), Some(r)) => leaves_of(*l) + leaves_of(*r),
        _ => seq![t],
    }
}

/// Only leaves hold rooms: every node with children has none.
pub open spec fn rooms_at_leaves(t: Leaf) -> bool
    decreases t,
{
    match (t.left_child, t.right_child) {
        (Some(l), Some(r)) => t.room is None && rooms_at_leaves(*l) && rooms_at_leaves(*r),
        _ => true,
    }
}

/// Every template is at most one wider than the smallest room width and
/// one taller than the smallest room height: it always fits on the board
/// from the origin that is drawn for it.
pub open spec fn templates_small(ts: Seq<Vec<Vec<Tile>>>, min_room_width: int, min_room_height: int) -> bool {
    forall|i: int|
        0 <= i < ts.len() ==> {
            let g = grid_view(#[trigger] ts[i]);
            g.len() <= min_room_height + 1 && g[0].len() <= min_room_width + 1
        }
}

/// Each room template has at least one row, at least one column, and rows
/// of equal length.
pub open spec fn templates_ok(ts: Seq<Vec<Vec<Tile>>>) -> bool {
    forall|i: int|
        0 <= i < ts.len() ==> {
            let g = grid_view(#[trigger] ts[i]);
            g.len() >= 1 && g[0].len() >= 1 && is_grid(g, g[0].len() as int, g.len() as int)
        }
}

/// `c` is the all-walkable horizontal corridor over the cells `x0` to `x1`
/// of row `y`.
pub open spec fn hline(c: Room, x0: int, x1: int, y: int) -> bool {
    &&& c.wf() && c.x == x0 && c.y == y && c.width == x1 - x0 + 1 && c.height == 1
    &&& grid_view(c.layout) == filled(c.width as int, 1, Tile::Walkable)
}

/// `c` is the all-walkable vertical corridor over the cells `y0` to `y1` of
/// column `x`.
pub open spec fn vline(c: Room, x: int, y0: int, y1: int) -> bool {
    &&& c.wf() && c.x == x && c.y == y0 && c.width == 1 && c.height == y1 - y0 + 1
    &&& grid_view(c.layout) == filled(1, c.height as int, Tile::Walkable)
}

/// The smaller of two integers.
pub open spec fn lo(a: int, b: int) -> int {
    if a <= b {
        a
    } else {
        b
    }
}

/// The larger of two integers.
pub open spec fn hi(a: int, b: int) -> int {
    if a <= b {
        b
    } else {
        a
    }
}

/// `(px, py)` is a cell of the room.
pub open spec fn inside(r: Room, px: int, py: int) -> bool {
    r.x <= px < r.x + r.width && r.y <= py < r.y + r.height
}

/// `c1` then `c2` join a cell `p` of room `a` to a cell `q` of room `b`:
/// along `p`'s row and then `q`'s column, or along `p`'s column and then
/// `q`'s row.
pub open spec fn joins(a: Room, b: Room, c1: Room, c2: Room) -> bool {
    exists|px: int, py: int, qx: int, qy: int|
        #![trigger inside(a, px, py), inside(b, qx, qy)]
        inside(a, px, py) && inside(b, qx, qy) && {
            ||| hline(c1, lo(px, qx), hi(px, qx), py) && vline(c2, qx, lo(py, qy), hi(py, qy))
            ||| vline(c1, px, lo(py, qy), hi(py, qy)) && hline(c2, lo(px, qx), hi(px, qx), qy)
        }
}

/// The two children of every split node are joined: the left child holds
/// exactly the two corridors from its first room to the right child's first
/// room, and the right child holds none.
pub open spec fn linked(t: Leaf) -> bool
    decreases t,
{
    match (t.left_child, t.right_child) {
        (Some(l), Some(r)) => {
            &&& l.corridors@.len() == 2
            &&& r.corridors@.len() == 0
            &&& first_room(*l) is Some
            &&& first_room(*r) is Some
            &&& joins(
                first_room(*l)->Some_0,
                first_room(*r)->Some_0,
                l.corridors@[0],
                l.corridors@[1],
            )
            &&& linked(*l)
            &&& linked(*r)
        },
        _ => true,
    }
}

/// The nodes of the tree in pre-order, the left subtree before the right.
pub open spec fn nodes_of(t: Leaf) -> Seq<Leaf>
    decreases t,
{
    let from_left = match t.left_child {
        Some(l) => nodes_of(*l),
        None => Seq::empty(),
    };
    let from_right = match t.right_child {
        Some(r) => nodes_of(*r),
        None => Seq::empty(),
    };
    seq![t] + from_left + from_right
}

/// A node's corridors lie on the board and, for a leaf, so does its room.
pub open spec fn node_ok(t: Leaf, w: int, h: int) -> bool {
    &&& forall|i: int| 0 <= i < t.corridors@.len() ==> fits(#[trigger] t.corridors@[i], w, h)
    &&& (t.left_child is None && t.right_child is None) ==> (t.room matches Some(r) && usable(
        r,
        w,
        h,
    ))
}

/// The room of a leaf that has one, alone; nothing for other nodes.
pub open spec fn leaf_room(t: Leaf) -> Seq<Room> {
    if t.left_child is None && t.right_child is None && t.room is Some {
        seq![t.room->Some_0]
    } else {
        Seq::empty()
    }
}

/// What a node adds to the level: its room if it is a leaf, then its
/// corridors.
pub open spec fn node_rooms(t: Leaf) -> Seq<Room> {
    leaf_room(t) + t.corridors@
}

/// What the nodes add to the level, in order.
pub open spec fn collected(nodes: Seq<Leaf>) -> Seq<Room>
    decreases nodes.len(),
{
    if nodes.len() == 0 {
        Seq::empty()
    } else {
        collected(nodes.drop_last()) + node_rooms(nodes.last())
    }
}

/// The two sequences hold rooms of the same geometry and tiles, in order.
pub open spec fn same_rooms(a: Seq<Room>, b: Seq<Room>) -> bool {
    a.len() == b.len() && forall|i: int| 0 <= i < a.len() ==> same_room(#[trigger] a[i], b[i])
}

/// `t` is a finished partition of a `w` by `h` board: its regions split the
/// board down to leaves that could not be split further, every leaf has a
/// room and no other node does, the two halves of every split are joined by
/// corridors, and every room and corridor lies on the board.
pub open spec fn partition(t: Leaf, w: int, h: int, min_room_width: int, min_room_height: int) -> bool {
    &&& tree_wf(t)
    &&& leaves_small(t)
    &&& rooms_ok(t, w, h)
    &&& linked(t)
    &&& rooms_at_leaves(t)
    &&& t.corridors@.len() == 0
    &&& t.x == 0 && t.y == 0 && t.width == w && t.height == h
    &&& t.min_size == MIN_LEAF_SIZE
    &&& t.min_room_width == min_room_width
    &&& t.min_room_height == min_room_height
}

/// `b` with each room written over it in turn.
pub open spec fn stamp_all(b: Seq<Seq<Tile>>, rooms: Seq<Room>) -> Seq<Seq<Tile>>
    decreases rooms.len(),
{
    if rooms.len() == 0 {
        b
    } else {
        stamp(stamp_all(b, rooms.drop_last()), rooms.last())
    }
}

/// Every room that the tree holds lies within the range of `i32`
/// coordinates and covers at least one cell.
pub open spec fn rooms_sane(t: Leaf) -> bool
    decreases t,
{
    &&& t.room matches Some(r) ==> usable(r, i32::MAX as int, i32::MAX as int)
    &&& t.left_child matches Some(l) ==> rooms_sane(*l)
    &&& t.right_child matches Some(r) ==> rooms_sane(*r)
}

/// `a` and `b` cover the same region with the same settings.
pub open spec fn same_region(a: Leaf, b: Leaf) -> bool {
    &&& a.min_size == b.min_size
    &&& a.min_room_width == b.min_room_width
    &&& a.min_room_height == b.min_room_height
    &&& a.x == b.x
    &&& a.y == b.y
    &&& a.width == b.width
    &&& a.height == b.height
}

/// `a` and `b` agree on everything but their corridors.
pub open spec fn same_but_corridors(a: Leaf, b: Leaf) -> bool {
    &&& a.min_size == b.min_size
    &&& a.min_room_width == b.min_room_width
    &&& a.min_room_height == b.min_room_height
    &&& a.x == b.x
    &&& a.y == b.y
    &&& a.width == b.width
    &&& a.height == b.height
    &&& a.left_child == b.left_child
    &&& a.right_child == b.right_child
    &&& a.room == b.room
}

/// The region of `t` lies on a `w` by `h` board.
pub open spec fn region_in(t: Leaf, w: int, h: int) -> bool {
    0 <= t.x && t.x + t.width <= w && 0 <= t.y && t.y + t.height <= h
}

impl Leaf {
    /// A node for the region at `(x, y)` of the given size, with no children.
    pub fn new(
        x: i32,
        y: i32,
        width: i32,
        height: i32,
        min_size: i32,
        min_room_width: i32,
        min_room_height: i32,
    ) -> (r: Self)
        ensures
            fresh(r),
            r.x == x,
            r.y == y,
            r.width == width,
            r.height == height,
            r.min_size == min_size,
            r.min_room_width == min_room_width,
            r.min_room_height == min_room_height,
    {
        Leaf {
            min_size,
            min_room_width,
            min_room_height,
            x,
            y,
            width,
            height,
            left_child: None,
            right_child: None,
            room: None,
            corridors: Vec::new(),
        }
    }

    /// Whether the node has no children.
    pub fn is_leaf(&self) -> (r: bool)
        ensures
            r == (self.left_child is None && self.right_child is None),
    {
        match self.left_child {
            None => self.right_child.is_none(),
            Some(_) => false,
        }
    }

    /// Splits the region in two at a random position, across a random axis
    /// unless one side is at least 1.25 times the other, in which case the
    /// longer side is cut. Refuses, and returns `false`, when the side to
    /// cut is at most twice `min_size`.
    fn split(&mut self, rng: &mut StdRng) -> (r: bool)
        requires
            fresh(*old(self)),
            tree_wf(*old(self)),
            old(self).x + old(self).width <= i32::MAX,
            old(self).y + old(self).height <= i32::MAX,
        ensures
            r ==> {
                &&& final(self).left_child matches Some(l) && fresh(*l)
                &&& final(self).right_child matches Some(rt) && fresh(*rt)
                &&& split_ok(*final(self), *final(self).left_child->Some_0, *final(self).right_child->Some_0)
            },
            !r ==> *final(self) == *old(self) && unsplittable(*old(self)),
            surely_split(*old(self)) ==> r,
            r && old(self).width > old(self).height && 4 * old(self).width >= 5 * old(self).height
                ==> final(self).left_child->Some_0.height == old(self).height,
            r && old(self).height > old(self).width && 4 * old(self).height >= 5 * old(self).width
                ==> final(self).left_child->Some_0.width == old(self).width,
            final(self).x == old(self).x,
            final(self).y == old(self).y,
            final(self).width == old(self).width,
            final(self).height == old(self).height,
            final(self).min_size == old(self).min_size,
            final(self).min_room_width == old(self).min_room_width,
            final(self).min_room_height == old(self).min_room_height,
            final(self).room is None,
            final(self).corridors@.len() == 0,
    {
        let bit = gen_range(rng, 0, 2);
        let split_horz = split_axis(bit, self.width, self.height);
        let max = if split_horz {
            self.height - self.min_size
        } else {
            self.width - self.min_size
        };
        if max <= self.min_size {
            return false;
        }
        let split_pos = gen_range(rng, self.min_size, max);
        if split_horz {
            self.left_child = Some(
                Box::new(
                    Leaf::new(
                        self.x,
                        self.y,
                        self.width,
                        split_pos,
                        self.min_size,
                        self.min_room_width,
                        self.min_room_height,
                    ),
                ),
            );
            self.right_child = Some(
                Box::new(
                    Leaf::new(
                        self.x,
                        self.y + split_pos,
                        self.width,
                        self.height - split_pos,
                        self.min_size,
                        self.min_room_width,
                        self.min_room_height,
                    ),
                ),
            );
        } else {
            self.left_child = Some(
                Box::new(
                    Leaf::new(
                        self.x,
                        self.y,
                        split_pos,
                        self.height,
                        self.min_size,
                        self.min_room_width,
                        self.min_room_height,
                    ),
                ),
            );
            self.right_child = Some(
                Box::new(
                    Leaf::new(
                        self.x + split_pos,
                        self.y,
                        self.width - split_pos,
                        self.height,
                        self.min_size,
                        self.min_room_width,
                        self.min_room_height,
                    ),
                ),
            );
        }
        true
    }

    /// Splits the region again and again until no part can be split, each
    /// branch on its own.
    fn generate(&mut self, rng: &mut StdRng)
        requires
            fresh(*old(self)),
            tree_wf(*old(self)),
            old(self).x + old(self).width <= i32::MAX,
            old(self).y + old(self).height <= i32::MAX,
        ensures
            tree_wf(*final(self)),
            leaves_small(*final(self)),
            final(self).x == old(self).x,
            final(self).y == old(self).y,
            final(self).width == old(self).width,
            final(self).height == old(self).height,
            final(self).min_size == old(self).min_size,
            final(self).min_room_width == old(self).min_room_width,
            final(self).min_room_height == old(self).min_room_height,
            bare(*final(self)),
        decreases old(self).width + old(self).height,
    {
        if self.is_leaf() && self.split(rng) {
            let left = self.left_child.take();
            if let Some(b) = left {
                let mut l = *b;
                l.generate(rng);
                self.left_child = Some(Box::new(l));
            }
            let right = self.right_child.take();
            if let Some(b) = right {
                let mut r = *b;
                r.generate(rng);
                self.right_child = Some(Box::new(r));
            }
        }
    }

    /// Gives every leaf a room, children before parents: the next template
    /// if any is left, else a random rectangle inside the leaf's region;
    /// then joins the first rooms of the two children of each node with
    /// corridors. Returns `false` when a template placed at its random
    /// position would cross the edge of the board.
    fn create_rooms(
        &mut self,
        rng: &mut StdRng,
        templates: &Vec<Vec<Vec<Tile>>>,
        next: &mut usize,
        board_width: i32,
        board_height: i32,
    ) -> (ok: bool)
        requires
            tree_wf(*old(self)),
            leaves_small(*old(self)),
            bare(*old(self)),
            region_in(*old(self), board_width as int, board_height as int),
            templates_ok(templates@),
            *old(next) <= templates@.len(),
        ensures
            *final(next) == if *old(next) + leaves_of(*final(self)).len() <= templates@.len() {
                *old(next) + leaves_of(*final(self)).len()
            } else {
                templates@.len() as int
            },
            forall|i: int|
                0 <= i < leaves_of(*final(self)).len() ==> leaf_room_from(
                    #[trigger] leaves_of(*final(self))[i],
                    templates@,
                    *old(next) + i,
                ),
            rooms_at_leaves(*final(self)),
            templates_small(
                templates@,
                old(self).min_room_width as int,
                old(self).min_room_height as int,
            ) ==> ok,
            tree_wf(*final(self)),
            leaves_small(*final(self)),
            same_region(*final(self), *old(self)),
            final(self).corridors@ == old(self).corridors@,
            rooms_sane(*final(self)),
            ok ==> linked(*final(self)),
            ok ==> rooms_ok(*final(self), board_width as int, board_height as int),
            !ok ==> templates@.len() > 0,
        decreases old(self).width + old(self).height,
    {
        let ghost n0 = *next as int;
        let mut ok = true;
        let left = self.left_child.take();
        if let Some(b) = left {
            let mut l = *b;
            assert(bare(l));
            assert(l.corridors@.len() == 0);
            if !l.create_rooms(rng, templates, next, board_width, board_height) {
                ok = false;
            }
            self.left_child = Some(Box::new(l));
        }
        let ghost left_done = self.left_child;
        let ghost n1 = *next as int;
        let right = self.right_child.take();
        if let Some(b) = right {
            let mut r = *b;
            assert(bare(r));
            assert(r.corridors@.len() == 0);
            if !r.create_rooms(rng, templates, next, board_width, board_height) {
                ok = false;
            }
            self.right_child = Some(Box::new(r));
        }
        if self.is_leaf() {
            let mut template: Option<&Vec<Vec<Tile>>> = None;
            if *next < templates.len() {
                template = Some(&templates[*next]);
                *next = *next + 1;
            }
            let width = gen_range(rng, self.min_room_width, self.width);
            let height = gen_range(rng, self.min_room_height, self.height);
            let x = gen_range(rng, 0, self.width - width);
            let y = gen_range(rng, 0, self.height - height);
            match template {
                Some(prebuilt) => {
                    let ghost g = grid_view(*prebuilt);
                    assert(g[0] == prebuilt@[0]@);
                    let tw = prebuilt[0].len();
                    let th = prebuilt.len();
                    let ox = x + self.x;
                    let oy = y + self.y;
                    if template_fits(ox, oy, tw, th, board_width, board_height) {
                        self.room = Some(
                            Room::new(ox, oy, tw as i32, th as i32, Some(copy_grid(prebuilt))),
                        );
                    } else {
                        ok = false;
                    }
                },
                None => {
                    self.room = Some(Room::new(x + self.x, y + self.y, width, height, None));
                    assert(random_room(*self, self.room->Some_0));
                },
            }
        }
        let left = self.left_child.take();
        let right = self.right_child.take();
        match (left, right) {
            (Some(lb), Some(rb)) => {
                let mut l = *lb;
                let r = *rb;
                proof {
                    lemma_first_room_sane(l);
                    lemma_first_room_sane(r);
                    if ok {
                        lemma_first_room_ok(l, board_width as int, board_height as int);
                        lemma_first_room_ok(r, board_width as int, board_height as int);
                    }
                }
                let ghost before = l;
                create_corridors(rng, &mut l, &r);
                proof {
                    assert(rooms_at_leaves(l) == rooms_at_leaves(before));
                    lemma_leaves_same(l, before, templates@);
                    let ll = leaves_of(l);
                    let lr = leaves_of(r);
                    assert forall|i: int| 0 <= i < ll.len() + lr.len() implies leaf_room_from(
                        #[trigger] (ll + lr)[i],
                        templates@,
                        n0 + i,
                    ) by {
                        if i < ll.len() {
                            assert((ll + lr)[i] == ll[i]);
                            assert(leaf_room_from(leaves_of(before)[i], templates@, n0 + i));
                        } else {
                            assert((ll + lr)[i] == lr[i - ll.len()]);
                            assert(leaf_room_from(lr[i - ll.len()], templates@, n1 + (i - ll.len())));
                        }
                    }
                    assert(rooms_sane(l));
                    assert(tree_wf(l));
                    assert(leaves_small(l));
                    if ok {
                        let n = before.corridors@.len() as int;
                        lemma_joins_fit(
                            first_room(before)->Some_0,
                            first_room(r)->Some_0,
                            l.corridors@[n],
                            l.corridors@[n + 1],
                            board_width as int,
                            board_height as int,
                        );
                        assert forall|i: int| 0 <= i < l.corridors@.len() implies fits(
                            #[trigger] l.corridors@[i],
                            board_width as int,
                            board_height as int,
                        ) by {
                            if i < n {
                                assert(l.corridors@[i] == l.corridors@.subrange(0, n)[i]);
                            }
                        }
                        assert(rooms_ok(l, board_width as int, board_height as int));
                        assert(before == *left_done->Some_0);
                        assert(n == 0);
                        assert(first_room(l) == first_room(before));
                        assert(linked(l));
                        assert(l.corridors@.len() == 2);
                    }
                }
                self.left_child = Some(Box::new(l));
                self.right_child = Some(Box::new(r));
                assert(split_ok(*self, l, r));
                assert(leaves_of(*self) == leaves_of(l) + leaves_of(r));
            },
            (left, right) => {
                self.left_child = left;
                self.right_child = right;
            },
        }
        ok
    }

    /// The nodes of the tree in pre-order, the left subtree before the
    /// right.
    pub fn iter(&self) -> (r: Vec<&Leaf>)
        ensures
            r@.map_values(|n: &Leaf| *n) == nodes_of(*self),
    {
        let mut out: Vec<&Leaf> = Vec::new();
        push_nodes(self, &mut out);
        assert(out@.map_values(|n: &Leaf| *n) =~= nodes_of(*self));
        out
    }

    /// The room of the first leaf, left first, that has one.
    pub fn get_room(&self) -> (r: Option<Room>)
        ensures
            r is Some == first_room(*self) is Some,
            r matches Some(a) ==> same_room(a, first_room(*self)->Some_0),
        decreases self,
    {
        if self.is_leaf() {
            return match &self.room {
                Some(room) => Some(room.duplicate()),
                None => None,
            };
        }
        let mut left_room: Option<Room> = None;
        let mut right_room: Option<Room> = None;
        if let Some(left) = &self.left_child {
            left_room = left.get_room();
        }
        if let Some(right) = &self.right_child {
            right_room = right.get_room();
        }
        match (left_room, right_room) {
            (None, None) => None,
            (Some(room), _) => Some(room),
            (_, Some(room)) => Some(room),
        }
    }
}

/// Appends the nodes of the tree under `node` to `out` in pre-order, the
/// left subtree before the right.
fn push_nodes<'a>(node: &'a Leaf, out: &mut Vec<&'a Leaf>)
    ensures
        final(out)@.map_values(|n: &Leaf| *n) == old(out)@.map_values(|n: &Leaf| *n) + nodes_of(
            *node,
        ),
    decreases node,
{
    let ghost start = out@.map_values(|n: &Leaf| *n);
    out.push(node);
    assert(out@.map_values(|n: &Leaf| *n) =~= start + seq![*node]);
    let ghost mid = out@.map_values(|n: &Leaf| *n);
    if let Some(left) = &node.left_child {
        push_nodes(left, out);
    }
    let ghost from_left = if node.left_child is Some {
        nodes_of(*node.left_child->Some_0)
    } else {
        Seq::empty()
    };
    assert(out@.map_values(|n: &Leaf| *n) =~= mid + from_left);
    let ghost mid2 = out@.map_values(|n: &Leaf| *n);
    if let Some(right) = &node.right_child {
        push_nodes(right, out);
    }
    let ghost from_right = if node.right_child is Some {
        nodes_of(*node.right_child->Some_0)
    } else {
        Seq::empty()
    };
    assert(out@.map_values(|n: &Leaf| *n) =~= mid2 + from_right);
    assert(nodes_of(*node) == seq![*node] + from_left + from_right);
    assert(out@.map_values(|n: &Leaf| *n) =~= start + (seq![*node] + from_left + from_right));
}

/// Whether a template of `width` by `height` placed at `(x, y)` stays on a
/// `board_width` by `board_height` board.
pub fn template_fits(x: i32, y: i32, width: usize, height: usize, board_width: i32, board_height: i32) -> (r: bool)
    requires
        0 <= x <= board_width,
        0 <= y <= board_height,
    ensures
        r == (x + width <= board_width && y + height <= board_height),
{
    width <= (board_width - x) as usize && height <= (board_height - y) as usize
}

/// A corridor one cell high over the cells `start_x` to `end_x` of row
/// `start_y`.
fn horz_corridor(start_x: i32, start_y: i32, end_x: i32) -> (r: Room)
    requires
        0 <= start_x <= end_x < i32::MAX,
        start_y < i32::MAX,
    ensures
        hline(r, start_x as int, end_x as int, start_y as int),
{
    Room::new(start_x, start_y, (end_x - start_x) + 1, 1, None)
}

/// A corridor one cell wide over the cells `start_y` to `end_y` of column
/// `start_x`.
fn vert_corridor(start_x: i32, start_y: i32, end_y: i32) -> (r: Room)
    requires
        0 <= start_y <= end_y < i32::MAX,
        start_x < i32::MAX,
    ensures
        vline(r, start_x as int, start_y as int, end_y as int),
{
    Room::new(start_x, start_y, 1, (end_y - start_y) + 1, None)
}

/// Joins the first room of `left` to the first room of `right` with two
/// corridors between a random cell of each, added to `left`'s corridors;
/// one random bit picks which leg comes first. Does nothing when either
/// side has no room.
fn create_corridors(rng: &mut StdRng, left: &mut Leaf, right: &Leaf)
    requires
        first_room(*old(left)) matches Some(a) ==> usable(a, i32::MAX as int, i32::MAX as int),
        first_room(*right) matches Some(b) ==> usable(b, i32::MAX as int, i32::MAX as int),
    ensures
        same_but_corridors(*final(left), *old(left)),
        match (first_room(*old(left)), first_room(*right)) {
            (Some(a), Some(b)) => {
                let n = old(left).corridors@.len() as int;
                &&& final(left).corridors@.len() == n + 2
                &&& final(left).corridors@.subrange(0, n) == old(left).corridors@
                &&& joins(a, b, final(left).corridors@[n], final(left).corridors@[n + 1])
            },
            _ => final(left).corridors@ == old(left).corridors@,
        },
{
    let lr = left.get_room();
    let rr = right.get_room();
    if let (Some(left_room), Some(right_room)) = (lr, rr) {
        let ghost a = first_room(*left);
        let ghost b = first_room(*right);
        let ghost n = left.corridors@.len() as int;
        let lx = gen_range(rng, left_room.x, left_room.x + left_room.width);
        let ly = gen_range(rng, left_room.y, left_room.y + left_room.height);
        let rx = gen_range(rng, right_room.x, right_room.x + right_room.width);
        let ry = gen_range(rng, right_room.y, right_room.y + right_room.height);
        if gen_range(rng, 0, 2) == 0 {
            if lx <= rx {
                left.corridors.push(horz_corridor(lx, ly, rx));
            } else {
                left.corridors.push(horz_corridor(rx, ly, lx));
            }
            if ly <= ry {
                left.corridors.push(vert_corridor(rx, ly, ry));
            } else {
                left.corridors.push(vert_corridor(rx, ry, ly));
            }
        } else {
            if ly <= ry {
                left.corridors.push(vert_corridor(lx, ly, ry));
            } else {
                left.corridors.push(vert_corridor(lx, ry, ly));
            }
            if lx <= rx {
                left.corridors.push(horz_corridor(lx, ry, rx));
            } else {
                left.corridors.push(horz_corridor(rx, ry, lx));
            }
        }
        assert(left.corridors@.subrange(0, n) =~= old(left).corridors@);
        assert(inside(a->Some_0, lx as int, ly as int));
        assert(inside(b->Some_0, rx as int, ry as int));
    }
}

/// Two corridors that join rooms on a `w` by `h` board lie on it too.
proof fn lemma_joins_fit(a: Room, b: Room, c1: Room, c2: Room, w: int, h: int)
    requires
        usable(a, w, h),
        usable(b, w, h),
        joins(a, b, c1, c2),
    ensures
        fits(c1, w, h),
        fits(c2, w, h),
{
    let (px, py, qx, qy) = choose|px: int, py: int, qx: int, qy: int|
        #![trigger inside(a, px, py), inside(b, qx, qy)]
        inside(a, px, py) && inside(b, qx, qy) && {
            ||| hline(c1, lo(px, qx), hi(px, qx), py) && vline(c2, qx, lo(py, qy), hi(py, qy))
            ||| vline(c1, px, lo(py, qy), hi(py, qy)) && hline(c2, lo(px, qx), hi(px, qx), qy)
        };
}

/// The first room of a tree whose rooms are all in range is in range too.
proof fn lemma_first_room_sane(t: Leaf)
    requires
        rooms_sane(t),
    ensures
        first_room(t) matches Some(r) ==> usable(r, i32::MAX as int, i32::MAX as int),
    decreases t,
{
    if let Some(l) = t.left_child {
        lemma_first_room_sane(*l);
    }
    if let Some(r) = t.right_child {
        lemma_first_room_sane(*r);
    }
}

/// A tree whose leaves all have rooms on the board has a first room, and it
/// lies on the board.
proof fn lemma_first_room_ok(t: Leaf, w: int, h: int)
    requires
        rooms_ok(t, w, h),
    ensures
        first_room(t) matches Some(r) && usable(r, w, h),
    decreases t,
{
    if let Some(l) = t.left_child {
        lemma_first_room_ok(*l, w, h);
    }
    if let Some(r) = t.right_child {
        lemma_first_room_ok(*r, w, h);
    }
}

/// When every leaf of a tree has a room on the board, so does every leaf
/// among its nodes, and every corridor of every node lies on the board.
proof fn lemma_nodes_ok(t: Leaf, w: int, h: int)
    requires
        rooms_ok(t, w, h),
    ensures
        forall|i: int| 0 <= i < nodes_of(t).len() ==> node_ok(#[trigger] nodes_of(t)[i], w, h),
    decreases t,
{
    let from_left = match t.left_child {
        Some(l) => nodes_of(*l),
        None => Seq::empty(),
    };
    let from_right = match t.right_child {
        Some(r) => nodes_of(*r),
        None => Seq::empty(),
    };
    if let Some(l) = t.left_child {
        lemma_nodes_ok(*l, w, h);
    }
    if let Some(r) = t.right_child {
        lemma_nodes_ok(*r, w, h);
    }
    assert forall|i: int| 0 <= i < nodes_of(t).len() implies node_ok(#[trigger] nodes_of(t)[i], w, h) by {
        if i == 0 {
            assert(nodes_of(t)[0] == t);
        } else if i < 1 + from_left.len() {
            assert(nodes_of(t)[i] == from_left[i - 1]);
        } else {
            assert(nodes_of(t)[i] == from_right[i - 1 - from_left.len()]);
        }
    }
}

/// Nodes that differ only in their corridors have leaves that hold the same
/// rooms in the same regions.
proof fn lemma_leaves_same(a: Leaf, b: Leaf, ts: Seq<Vec<Vec<Tile>>>)
    requires
        same_but_corridors(a, b),
    ensures
        leaves_of(a).len() == leaves_of(b).len(),
        forall|i: int, k: int|
            0 <= i < leaves_of(a).len() ==> #[trigger] leaf_room_from(leaves_of(a)[i], ts, k)
                == leaf_room_from(leaves_of(b)[i], ts, k),
{
    if a.left_child is Some && a.right_child is Some {
        assert(leaves_of(a) == leaves_of(b));
    } else {
        assert(leaves_of(a) == seq![a]);
        assert(leaves_of(b) == seq![b]);
    }
}

/// Appending a room to both sides keeps two room sequences alike.
proof fn lemma_same_rooms_push(a: Seq<Room>, a2: Seq<Room>, b: Seq<Room>, r: Room)
    requires
        same_rooms(a, b),
        a2.len() == a.len() + 1,
        a2.drop_last() == a,
        same_room(a2.last(), r),
    ensures
        same_rooms(a2, b.push(r)),
{
    assert forall|i: int| 0 <= i < a2.len() implies same_room(#[trigger] a2[i], b.push(r)[i]) by {
        if i < a.len() {
            assert(a2[i] == a2.drop_last()[i]);
        }
    }
}

/// Rooms with the same geometry and tiles stamp the same cells.
proof fn lemma_stamp_same(b: Seq<Seq<Tile>>, r1: Room, r2: Room)
    requires
        same_room(r1, r2),
    ensures
        stamp(b, r1) == stamp(b, r2),
{
    assert forall|y: int| 0 <= y < b.len() implies #[trigger] stamp(b, r1)[y] =~= stamp(b, r2)[y] by {}
    assert(stamp(b, r1) =~= stamp(b, r2));
}

/// The side below which the partition does not cut a region.
pub const MIN_LEAF_SIZE: i32 = 8;

/// The binary-space-partition generator: the board is cut into regions
/// recursively, each final region gets one room, and the two halves of
/// every cut are joined by corridors.
pub struct BspLevel {
    level: Level,
}

impl BspLevel {
    /// Builds a level by binary space partition and adds walls when
    /// `add_walls` is set. The level's rooms are those of a finished
    /// partition of the board, collected node by node in pre-order, and its
    /// board is those rooms stamped in that order. The leaves, left to
    /// right, take the templates in order; leaves past the last template
    /// get a random walkable rectangle inside their region. Returns `None`
    /// when a template at its random position would cross the edge of the
    /// board, which cannot happen when every template is at most one wider
    /// and one taller than the smallest room.
    pub fn create(
        width: i32,
        height: i32,
        hash: &str,
        rng: &mut StdRng,
        add_walls: bool,
        min_room_width: i32,
        min_room_height: i32,
        templates: &Vec<Vec<Vec<Tile>>>,
    ) -> (r: Option<Level>)
        requires
            1 <= min_room_width < MIN_LEAF_SIZE,
            1 <= min_room_height < MIN_LEAF_SIZE,
            min_room_width < width,
            min_room_height < height,
            templates_ok(templates@),
        ensures
            r is None ==> templates@.len() > 0,
            templates_small(templates@, min_room_width as int, min_room_height as int) ==> r is Some,
            r matches Some(level) ==> {
                &&& level.wf()
                &&& level.width == width
                &&& level.height == height
                &&& level.hash@ == hash@
                &&& level.min_room_width == min_room_width
                &&& level.min_room_height == min_room_height
                &&& forall|i: int|
                    0 <= i < level.rooms@.len() ==> fits(
                        #[trigger] level.rooms@[i],
                        width as int,
                        height as int,
                    )
                &&& exists|t: Leaf|
                    #![trigger nodes_of(t)]
                    partition(
                        t,
                        width as int,
                        height as int,
                        min_room_width as int,
                        min_room_height as int,
                    ) && same_rooms(level.rooms@, collected(nodes_of(t))) && forall|i: int|
                        0 <= i < leaves_of(t).len() ==> leaf_room_from(
                            #[trigger] leaves_of(t)[i],
                            templates@,
                            i,
                        )
                &&& {
                    let base = stamp_all(
                        filled(width as int, height as int, Tile::Empty),
                        level.rooms@,
                    );
                    level.cells() == if add_walls {
                        walled(base)
                    } else {
                        base
                    }
                }
            },
    {
        let level = Level::new(width, height, hash, min_room_width, min_room_height);
        let mut map = BspLevel { level };
        if !map.place_rooms(rng, templates) {
            return None;
        }
        if add_walls {
            map.level.add_walls();
        }
        Some(map.level)
    }

    /// Partitions the board, makes the rooms and corridors, and stamps them
    /// in pre-order: for each node its room if it is a leaf, then its
    /// corridors. Returns `false`, having stamped nothing, when a template
    /// does not fit on the board.
    fn place_rooms(&mut self, rng: &mut StdRng, templates: &Vec<Vec<Vec<Tile>>>) -> (ok: bool)
        requires
            old(self).level.wf(),
            old(self).level.rooms@.len() == 0,
            old(self).level.cells() == filled(
                old(self).level.width as int,
                old(self).level.height as int,
                Tile::Empty,
            ),
            1 <= old(self).level.min_room_width < MIN_LEAF_SIZE,
            1 <= old(self).level.min_room_height < MIN_LEAF_SIZE,
            old(self).level.min_room_width < old(self).level.width,
            old(self).level.min_room_height < old(self).level.height,
            templates_ok(templates@),
        ensures
            final(self).level.wf(),
            final(self).level.same_settings(&old(self).level),
            !ok ==> templates@.len() > 0,
            ok ==> forall|i: int|
                0 <= i < final(self).level.rooms@.len() ==> fits(
                    #[trigger] final(self).level.rooms@[i],
                    final(self).level.width as int,
                    final(self).level.height as int,
                ),
            ok ==> final(self).level.cells() == stamp_all(
                old(self).level.cells(),
                final(self).level.rooms@,
            ),
            ok ==> exists|t: Leaf|
                #![trigger nodes_of(t)]
                partition(
                    t,
                    final(self).level.width as int,
                    final(self).level.height as int,
                    final(self).level.min_room_width as int,
                    final(self).level.min_room_height as int,
                ) && same_rooms(final(self).level.rooms@, collected(nodes_of(t))) && forall|i: int|
                    0 <= i < leaves_of(t).len() ==> leaf_room_from(
                        #[trigger] leaves_of(t)[i],
                        templates@,
                        i,
                    ),
            templates_small(
                templates@,
                old(self).level.min_room_width as int,
                old(self).level.min_room_height as int,
            ) ==> ok,
    {
        let w = self.level.width;
        let h = self.level.height;
        let mut root = Leaf::new(
            0,
            0,
            w,
            h,
            MIN_LEAF_SIZE,
            self.level.min_room_width,
            self.level.min_room_height,
        );
        root.generate(rng);
        let mut next: usize = 0;
        if !root.create_rooms(rng, templates, &mut next, w, h) {
            return false;
        }
        proof {
            lemma_nodes_ok(root, w as int, h as int);
        }
        let ghost empty = self.level.cells();
        let ghost ns = nodes_of(root);
        let nodes = root.iter();
        assert forall|i: int| 0 <= i < nodes@.len() implies node_ok(*#[trigger] nodes@[i], w as int, h as int) by {
            assert(nodes@.map_values(|n: &Leaf| *n)[i] == *nodes@[i]);
        }
        let mut k: usize = 0;
        while k < nodes.len()
            invariant
                self.level.wf(),
                self.level.same_settings(&old(self).level),
                w == self.level.width,
                h == self.level.height,
                empty == old(self).level.cells(),
                nodes@.map_values(|n: &Leaf| *n) == nodes_of(root),
                forall|i: int| 0 <= i < nodes@.len() ==> node_ok(*#[trigger] nodes@[i], w as int, h as int),
                k <= nodes@.len(),
                forall|i: int|
                    0 <= i < self.level.rooms@.len() ==> fits(
                        #[trigger] self.level.rooms@[i],
                        w as int,
                        h as int,
                    ),
                self.level.cells() == stamp_all(empty, self.level.rooms@),
                ns == nodes_of(root),
                same_rooms(self.level.rooms@, collected(ns.take(k as int))),
            decreases nodes@.len() - k,
        {
            let node = nodes[k];
            assert(nodes@.map_values(|n: &Leaf| *n)[k as int] == *nodes@[k as int]);
            assert(node_ok(*nodes@[k as int], w as int, h as int));
            let ghost done = collected(ns.take(k as int));
            if node.is_leaf() {
                if let Some(room) = node.get_room() {
                    let ghost before = self.level.rooms@;
                    self.add_room_checked(&room, Ghost(empty));
                    proof {
                        lemma_same_rooms_push(before, self.level.rooms@, done, node.room->Some_0);
                        assert(seq![node.room->Some_0] == leaf_room(*node));
                        assert(done.push(node.room->Some_0) =~= done + leaf_room(*node));
                    }
                } else {
                    assert(done + leaf_room(*node) =~= done);
                }
            } else {
                assert(done + leaf_room(*node) =~= done);
            }
            assert(same_rooms(self.level.rooms@, done + leaf_room(*node)));
            assert(node.corridors@.take(0) =~= Seq::<Room>::empty());
            assert(done + leaf_room(*node) =~= done + leaf_room(*node) + node.corridors@.take(0));
            let mut j: usize = 0;
            while j < node.corridors.len()
                invariant
                    self.level.wf(),
                    self.level.same_settings(&old(self).level),
                    w == self.level.width,
                    h == self.level.height,
                    empty == old(self).level.cells(),
                    node_ok(*node, w as int, h as int),
                    j <= node.corridors@.len(),
                    forall|i: int|
                        0 <= i < self.level.rooms@.len() ==> fits(
                            #[trigger] self.level.rooms@[i],
                            w as int,
                            h as int,
                        ),
                    self.level.cells() == stamp_all(empty, self.level.rooms@),
                    same_rooms(
                        self.level.rooms@,
                        done + leaf_room(*node) + node.corridors@.take(j as int),
                    ),
                decreases node.corridors@.len() - j,
            {
                let ghost before = self.level.rooms@;
                self.add_room_checked(&node.corridors[j], Ghost(empty));
                proof {
                    lemma_same_rooms_push(
                        before,
                        self.level.rooms@,
                        done + leaf_room(*node) + node.corridors@.take(j as int),
                        node.corridors@[j as int],
                    );
                }
                assert(node.corridors@.take(j + 1) =~= node.corridors@.take(j as int).push(
                    node.corridors@[j as int],
                ));
                j = j + 1;
            }
            assert(node.corridors@.take(j as int) =~= node.corridors@);
            assert(ns.take(k + 1).drop_last() =~= ns.take(k as int));
            assert(ns[k as int] == *node);
            assert(collected(ns.take(k + 1)) == done + node_rooms(*node));
            assert(done + leaf_room(*node) + node.corridors@ =~= done + node_rooms(*node));
            k = k + 1;
        }
        assert(ns.take(k as int) =~= ns);
        assert(partition(
            root,
            w as int,
            h as int,
            self.level.min_room_width as int,
            self.level.min_room_height as int,
        ));
        true
    }

    /// Stamps a room that lies on the board, keeping the board equal to the
    /// rooms stamped in order.
    fn add_room_checked(&mut self, room: &Room, empty: Ghost<Seq<Seq<Tile>>>)
        requires
            old(self).level.wf(),
            fits(*room, old(self).level.width as int, old(self).level.height as int),
            forall|i: int|
                0 <= i < old(self).level.rooms@.len() ==> fits(
                    #[trigger] old(self).level.rooms@[i],
                    old(self).level.width as int,
                    old(self).level.height as int,
                ),
            old(self).level.cells() == stamp_all(empty@, old(self).level.rooms@),
        ensures
            final(self).level.wf(),
            final(self).level.same_settings(&old(self).level),
            forall|i: int|
                0 <= i < final(self).level.rooms@.len() ==> fits(
                    #[trigger] final(self).level.rooms@[i],
                    final(self).level.width as int,
                    final(self).level.height as int,
                ),
            final(self).level.cells() == stamp_all(empty@, final(self).level.rooms@),
            final(self).level.rooms@.len() == old(self).level.rooms@.len() + 1,
            final(self).level.rooms@.drop_last() == old(self).level.rooms@,
            same_room(final(self).level.rooms@.last(), *room),
    {
        let ghost before = self.level.rooms@;
        self.level.add_room(room);
        proof {
            let after = self.level.rooms@;
            assert(after.drop_last() =~= before);
            lemma_stamp_same(stamp_all(empty@, before), *room, after.last());
            assert forall|i: int| 0 <= i < after.len() implies fits(
                #[trigger] after[i],
                self.level.width as int,
                self.level.height as int,
            ) by {
                if i < before.len() {
                    assert(after[i] == before[i]);
                }
            }
        }
    }
}

} // verus!
