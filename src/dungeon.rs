//! The dungeon grid and the generation algorithm.
//!
//! Directions follow one table throughout: North is `(0, -1)`, South
//! `(0, 1)`, East `(1, 0)` and West `(-1, 0)`. A feature grows from an
//! attachment point in its direction; the cell it connects back to lies one
//! step the other way.

use crate::rng::{exclusive_random, inclusive_random, random_bool};
use vstd::prelude::*;

verus! {

/// Rooms are drawn with sides of `MIN_ROOM` to `MAX_ROOM` cells.
pub const MIN_ROOM: isize = 3;

pub const MAX_ROOM: isize = 16;

/// Corridors are drawn `MIN_CORRIDOR` to `MAX_CORRIDOR` cells long.
pub const MIN_CORRIDOR: isize = 3;

pub const MAX_CORRIDOR: isize = 10;

/// The chance, in percent, that a new feature is a room.
pub const ROOM_CHANCE: isize = 50;

/// How many seams are picked before attachment gives up.
pub const MAX_ATTEMPTS: usize = 1000;

/// What one cell of the grid holds.
#[derive(PartialEq, Eq, Structural, Debug, Clone, Copy)]
pub enum Tile {
    Unused,
    Floor,
    Corridor,
    Wall,
    ClosedDoor,
    OpenDoor,
    Exit,
    Entrance,
}

impl Tile {
    /// A tile that building rooms and corridors writes.
    pub open spec fn is_structure(self) -> bool {
        self == Tile::Floor || self == Tile::Corridor || self == Tile::Wall || self == Tile::ClosedDoor
    }

    /// A tile that may stand on the border of a placed feature: a wall, a
    /// door, or an open corridor connection.
    pub open spec fn is_barrier(self) -> bool {
        self == Tile::Wall || self == Tile::ClosedDoor || self == Tile::Corridor
    }
}

/// The direction in which a feature grows.
#[derive(PartialEq, Eq, Structural, Debug, Clone, Copy)]
pub enum Dir {
    North,
    South,
    East,
    West,
}

impl Dir {
    pub open spec fn dx(self) -> int {
        match self {
            Dir::East => 1,
            Dir::West => -1,
            _ => 0,
        }
    }

    pub open spec fn dy(self) -> int {
        match self {
            Dir::North => -1,
            Dir::South => 1,
            _ => 0,
        }
    }

    pub open spec fn all() -> Seq<Dir> {
        seq![Dir::North, Dir::South, Dir::East, Dir::West]
    }

    /// The four directions, in the order in which attachments are tried.
    pub fn iterator() -> (r: Vec<Dir>)
        ensures
            r@ == Dir::all(),
    {
        let r = vec![Dir::North, Dir::South, Dir::East, Dir::West];
        assert(r@ =~= Dir::all());
        r
    }

    /// The direction at index `i` of the order North, South, East, West.
    pub fn dir_at(i: isize) -> (r: Dir)
        requires
            0 <= i <= 3,
        ensures
            r == Dir::all()[i as int],
    {
        let dirs = Dir::iterator();
        dirs[i as usize]
    }

    /// A direction drawn uniformly.
    pub fn get_random_dir() -> (r: Dir)
        ensures
            exists|i: int| 0 <= i <= 3 && r == #[trigger] Dir::all()[i],
    {
        let i = inclusive_random(0, 3);
        Dir::dir_at(i)
    }

    /// The unit step of this direction.
    pub fn delta(&self) -> (r: (isize, isize))
        ensures
            r.0 == self.dx(),
            r.1 == self.dy(),
    {
        match self {
            Dir::North => (0, -1),
            Dir::South => (0, 1),
            Dir::East => (1, 0),
            Dir::West => (-1, 0),
        }
    }
}

/// An axis-aligned rectangle of cells: the footprint of a placed feature, or
/// a pending seam where a new one may attach.
#[derive(PartialEq, Eq, Structural, Debug, Clone, Copy)]
pub struct Rect {
    pub x: isize,
    pub y: isize,
    pub width: isize,
    pub height: isize,
}

impl Rect {
    pub fn new(x: isize, y: isize, width: isize, height: isize) -> (r: Rect)
        ensures
            r == (Rect { x, y, width, height }),
    {
        Rect { x, y, width, height }
    }

    /// The cell lies in the rectangle.
    pub open spec fn contains(self, a: int, b: int) -> bool {
        self.x <= a < self.x + self.width && self.y <= b < self.y + self.height
    }

    /// The cell lies in the one-cell ring around the rectangle.
    pub open spec fn on_border(self, a: int, b: int) -> bool {
        &&& self.x - 1 <= a <= self.x + self.width
        &&& self.y - 1 <= b <= self.y + self.height
        &&& !self.contains(a, b)
    }

    /// The cell lies in the rectangle or on its ring.
    pub open spec fn covers(self, a: int, b: int) -> bool {
        self.x - 1 <= a <= self.x + self.width && self.y - 1 <= b <= self.y + self.height
    }

    /// Neither rectangle reaches into the other or into its ring.
    pub open spec fn apart(self, o: Rect) -> bool {
        ||| self.x + self.width < o.x
        ||| o.x + o.width < self.x
        ||| self.y + self.height < o.y
        ||| o.y + o.height < self.y
    }
}

/// The whole state of a dungeon, as values.
pub struct DungeonView {
    pub width: int,
    pub height: int,
    /// Row-major cells: `(x, y)` at `x + y * width`.
    pub tiles: Seq<Tile>,
    /// Rooms still free to receive an object.
    pub rooms: Seq<Rect>,
    /// Pending seams.
    pub exits: Seq<Rect>,
    /// Every feature placed so far, in order.
    pub placed: Seq<Rect>,
}

impl DungeonView {
    pub open spec fn in_bounds(self, x: int, y: int) -> bool {
        0 <= x < self.width && 0 <= y < self.height
    }

    /// The tile at a cell; `Unused` off the grid.
    pub open spec fn tile_at(self, x: int, y: int) -> Tile {
        if self.in_bounds(x, y) {
            self.tiles[x + y * self.width]
        } else {
            Tile::Unused
        }
    }

    /// The rectangle is non-empty and keeps one cell from every edge of the
    /// grid, so that its ring lies on the grid.
    pub open spec fn fits(self, r: Rect) -> bool {
        &&& r.width >= 1 && r.height >= 1
        &&& r.x >= 1 && r.y >= 1
        &&& r.x + r.width <= self.width - 1
        &&& r.y + r.height <= self.height - 1
    }

    /// A seam is one cell thick and lies on the grid.
    pub open spec fn seam_ok(self, r: Rect) -> bool {
        &&& r.width >= 1 && r.height >= 1
        &&& r.width == 1 || r.height == 1
        &&& r.x >= 0 && r.y >= 0
        &&& r.x + r.width <= self.width
        &&& r.y + r.height <= self.height
    }

    /// A feature may be placed on the rectangle.
    pub open spec fn can_place(self, r: Rect) -> bool {
        &&& self.fits(r)
        &&& forall|a: int, b: int| #[trigger] r.contains(a, b) ==> self.tile_at(a, b) == Tile::Unused
    }

    /// The tile at a cell once `r` is placed with `tile`.
    pub open spec fn stamped(self, r: Rect, tile: Tile, a: int, b: int) -> Tile {
        if r.contains(a, b) {
            tile
        } else if r.on_border(a, b) {
            Tile::Wall
        } else {
            self.tile_at(a, b)
        }
    }

    /// The grid of `next` is that of `self` with `r` placed with `tile`.
    pub open spec fn grid_step(self, next: DungeonView, r: Rect, tile: Tile) -> bool {
        &&& next.width == self.width
        &&& next.height == self.height
        &&& next.tiles.len() == self.tiles.len()
        &&& next.placed == self.placed.push(r)
        &&& forall|a: int, b: int| #[trigger] next.tile_at(a, b) == self.stamped(r, tile, a, b)
    }

    /// `next` differs from `self` only in that `r` was placed with `tile`.
    pub open spec fn place_step(self, next: DungeonView, r: Rect, tile: Tile) -> bool {
        &&& self.grid_step(next, r, tile)
        &&& next.rooms == self.rooms
        &&& next.exits == self.exits
    }

    /// `next` is `self` with the room `room` placed, grown in `dir`, and its
    /// seams pending.
    pub open spec fn room_step(self, next: DungeonView, room: Rect, dir: Dir, first: bool) -> bool {
        &&& self.grid_step(next, room, Tile::Floor)
        &&& next.rooms == self.rooms.push(room)
        &&& next.exits == self.exits + room_seams(room, dir, first)
    }

    /// `next` is `self` with the corridor `c` placed, grown in `dir`, and its
    /// seams pending.
    pub open spec fn corridor_step(self, next: DungeonView, c: Rect, dir: Dir) -> bool {
        &&& self.grid_step(next, c, Tile::Corridor)
        &&& next.rooms == self.rooms
        &&& next.exits == self.exits + corridor_seams(c, dir)
    }

    /// The cell behind an attachment point, which a feature grown in `dir`
    /// from `(x, y)` connects back to.
    pub open spec fn behind(self, x: int, y: int, dir: Dir) -> Tile {
        self.tile_at(x - dir.dx(), y - dir.dy())
    }

    /// A feature may grow from `(x, y)` only off a floor or a corridor.
    pub open spec fn behind_open(self, x: int, y: int, dir: Dir) -> bool {
        self.behind(x, y, dir) == Tile::Floor || self.behind(x, y, dir) == Tile::Corridor
    }

    /// What the attachment point becomes once `f` is built from it.
    pub open spec fn joint(self, x: int, y: int, dir: Dir, f: Feature) -> Tile {
        match f {
            Feature::Room { .. } => Tile::ClosedDoor,
            Feature::Corridor { .. } => if self.behind(x, y, dir) == Tile::Floor {
                Tile::ClosedDoor
            } else {
                Tile::Corridor
            },
        }
    }

    /// `next` is `self` with `f` built from `(x, y)` in `dir` and its joint
    /// written at the attachment point.
    pub open spec fn attach_step(self, next: DungeonView, x: int, y: int, dir: Dir, f: Feature) -> bool {
        let r = feature_rect(x, y, dir, f);
        &&& next.width == self.width
        &&& next.height == self.height
        &&& next.tiles.len() == self.tiles.len()
        &&& next.placed == self.placed.push(r)
        &&& next.rooms == match f {
            Feature::Room { .. } => self.rooms.push(r),
            Feature::Corridor { .. } => self.rooms,
        }
        &&& next.exits == self.exits + match f {
            Feature::Room { .. } => room_seams(r, dir, false),
            Feature::Corridor { .. } => corridor_seams(r, dir),
        }
        &&& forall|a: int, b: int| #[trigger]
            next.tile_at(a, b) == if a == x && b == y {
                self.joint(x, y, dir, f)
            } else {
                self.stamped(r, feature_tile(f), a, b)
            }
    }

    /// Trying to build the valid feature `f` from `(x, y)` in `dir` gave `r`:
    /// success exactly when the cell behind is open and the feature fits, and
    /// then `next` holds it.
    pub open spec fn attach_outcome(
        self,
        next: DungeonView,
        x: int,
        y: int,
        dir: Dir,
        f: Feature,
        r: bool,
    ) -> bool {
        &&& f.valid()
        &&& r == (self.behind_open(x, y, dir) && self.can_place(feature_rect(x, y, dir, f)))
        &&& r ==> self.attach_step(next, x, y, dir, f)
    }

    /// Trying to place a room of `w` by `h` cells, both within the drawn
    /// range, grown from `(x, y)` in `dir`, gave `r`: success exactly when it
    /// can be placed, and then `next` holds it.
    pub open spec fn room_outcome(
        self,
        next: DungeonView,
        x: int,
        y: int,
        dir: Dir,
        first: bool,
        w: int,
        h: int,
        r: bool,
    ) -> bool {
        &&& MIN_ROOM <= w <= MAX_ROOM
        &&& MIN_ROOM <= h <= MAX_ROOM
        &&& r == self.can_place(room_at(x, y, dir, w, h))
        &&& r ==> self.room_step(next, room_at(x, y, dir, w, h), dir, first)
    }

    /// Every valid feature grown from `(x, y)` in `d` can be built.
    pub open spec fn always_grows(self, x: int, y: int, d: Dir) -> bool {
        forall|f: Feature|
            f.valid() ==> self.behind_open(x, y, d) && self.can_place(
                #[trigger] feature_rect(x, y, d, f),
            )
    }

    /// From every cell of every pending seam, some direction grows whatever
    /// is drawn.
    pub open spec fn every_seam_grows(self) -> bool {
        forall|k: int, x: int, y: int|
            #![trigger self.exits[k].contains(x, y)]
            0 <= k < self.exits.len() && self.exits[k].contains(x, y) ==> exists|d: Dir| #[trigger]
                self.always_grows(x, y, d)
    }

    /// `next` differs from `self` only in the tile at `(x, y)`.
    pub open spec fn set_step(self, next: DungeonView, x: int, y: int, t: Tile) -> bool {
        &&& next.width == self.width
        &&& next.height == self.height
        &&& next.tiles.len() == self.tiles.len()
        &&& next.rooms == self.rooms
        &&& next.exits == self.exits
        &&& next.placed == self.placed
        &&& forall|a: int, b: int| #[trigger]
            next.tile_at(a, b) == if a == x && b == y {
                t
            } else {
                self.tile_at(a, b)
            }
    }

    /// `next` is `self` with `t` written at `(x, y)` and the free room at
    /// index `k` taken out of the pool.
    pub open spec fn object_step(self, next: DungeonView, k: int, x: int, y: int, t: Tile) -> bool {
        &&& next.width == self.width
        &&& next.height == self.height
        &&& next.tiles.len() == self.tiles.len()
        &&& next.placed == self.placed
        &&& next.exits == self.exits
        &&& next.rooms == self.rooms.remove(k)
        &&& forall|a: int, b: int| #[trigger]
            next.tile_at(a, b) == if a == x && b == y {
                t
            } else {
                self.tile_at(a, b)
            }
    }

    /// Every cell of `next` keeps its tile from `self` or holds a tile that
    /// building writes.
    pub open spec fn only_builds(self, next: DungeonView) -> bool {
        forall|a: int, b: int|
            #[trigger] next.tile_at(a, b) == self.tile_at(a, b) || next.tile_at(a, b).is_structure()
    }

    /// Every cell that differs between `self` and `next` lies in, or on the
    /// ring of, a feature that `next` placed beyond those of `self`.
    pub open spec fn changes_within(self, next: DungeonView) -> bool {
        forall|a: int, b: int|
            #[trigger] next.tile_at(a, b) != self.tile_at(a, b) ==> exists|i: int|
                self.placed.len() <= i < next.placed.len() && (#[trigger] next.placed[i]).covers(a, b)
    }

    /// No cell in use in `self` is blank in `next`.
    pub open spec fn keeps_used(self, next: DungeonView) -> bool {
        forall|a: int, b: int|
            self.tile_at(a, b) != Tile::Unused ==> #[trigger] next.tile_at(a, b) != Tile::Unused
    }

    /// The grid's shape and buffer.
    pub open spec fn wf_grid(self) -> bool {
        &&& 0 < self.width && 0 < self.height
        &&& self.width * self.height <= isize::MAX
        &&& self.tiles.len() == self.width * self.height
    }

    /// Placed features lie inside the grid, keep apart from one another, are
    /// never blank inside and are ringed by walls, doors or openings; every
    /// cell in use lies in a placed feature or on its ring.
    pub open spec fn wf_placed(self) -> bool {
        &&& forall|i: int| 0 <= i < self.placed.len() ==> self.fits(#[trigger] self.placed[i])
        &&& forall|i: int, j: int|
            0 <= i < self.placed.len() && 0 <= j < self.placed.len() && i != j
                ==> (#[trigger] self.placed[i]).apart(#[trigger] self.placed[j])
        &&& forall|i: int, a: int, b: int|
            0 <= i < self.placed.len() && (#[trigger] self.placed[i]).contains(a, b)
                ==> #[trigger] self.tile_at(a, b) != Tile::Unused
        &&& forall|i: int, a: int, b: int|
            0 <= i < self.placed.len() && (#[trigger] self.placed[i]).on_border(a, b)
                ==> (#[trigger] self.tile_at(a, b)).is_barrier()
        &&& forall|a: int, b: int|
            #[trigger] self.tile_at(a, b) != Tile::Unused ==> exists|i: int|
                0 <= i < self.placed.len() && (#[trigger] self.placed[i]).covers(a, b)
    }

    /// Free rooms are distinct placed rooms of at least three cells a side,
    /// floor in every cell; seams are one cell thick and lie on cells in use.
    pub open spec fn wf_pools(self) -> bool {
        &&& forall|i: int|
            0 <= i < self.rooms.len() ==> {
                &&& self.placed.contains(#[trigger] self.rooms[i])
                &&& self.fits(self.rooms[i])
                &&& self.rooms[i].width >= 3
                &&& self.rooms[i].height >= 3
            }
        &&& forall|i: int, j: int|
            0 <= i < self.rooms.len() && 0 <= j < self.rooms.len() && i != j
                ==> #[trigger] self.rooms[i] != #[trigger] self.rooms[j]
        &&& forall|i: int, a: int, b: int|
            0 <= i < self.rooms.len() && (#[trigger] self.rooms[i]).contains(a, b)
                ==> #[trigger] self.tile_at(a, b) == Tile::Floor
        &&& forall|i: int| 0 <= i < self.exits.len() ==> self.seam_ok(#[trigger] self.exits[i])
        &&& forall|i: int, a: int, b: int|
            0 <= i < self.exits.len() && (#[trigger] self.exits[i]).contains(a, b)
                ==> #[trigger] self.tile_at(a, b) != Tile::Unused
    }

    pub open spec fn wf(self) -> bool {
        &&& self.wf_grid()
        &&& self.wf_placed()
        &&& self.wf_pools()
    }
}

/// The one-row strip above a rectangle.
pub open spec fn top_side(r: Rect) -> Rect {
    Rect { x: r.x, y: (r.y - 1) as isize, width: r.width, height: 1 }
}

/// The one-row strip below a rectangle.
pub open spec fn bottom_side(r: Rect) -> Rect {
    Rect { x: r.x, y: (r.y + r.height) as isize, width: r.width, height: 1 }
}

/// The one-column strip left of a rectangle.
pub open spec fn left_side(r: Rect) -> Rect {
    Rect { x: (r.x - 1) as isize, y: r.y, width: 1, height: r.height }
}

/// The one-column strip right of a rectangle.
pub open spec fn right_side(r: Rect) -> Rect {
    Rect { x: (r.x + r.width) as isize, y: r.y, width: 1, height: r.height }
}

/// The seam `r` alone when it is kept, else nothing.
pub open spec fn opt_seam(keep: bool, r: Rect) -> Seq<Rect> {
    if keep {
        seq![r]
    } else {
        seq![]
    }
}

/// The chosen sides of a rectangle, in the order top, bottom, left, right.
pub open spec fn sides(r: Rect, top: bool, bottom: bool, left: bool, right: bool) -> Seq<Rect> {
    opt_seam(top, top_side(r)) + opt_seam(bottom, bottom_side(r)) + opt_seam(left, left_side(r))
        + opt_seam(right, right_side(r))
}

/// The seams of a room grown in `dir`: every side but the one it was
/// attached from, or all four for the first room.
pub open spec fn room_seams(room: Rect, dir: Dir, first: bool) -> Seq<Rect> {
    sides(
        room,
        dir != Dir::South || first,
        dir != Dir::North || first,
        dir != Dir::East || first,
        dir != Dir::West || first,
    )
}

/// The seams of a corridor grown in `dir`: its long sides, but not the one
/// it was attached from.
pub open spec fn corridor_seams(c: Rect, dir: Dir) -> Seq<Rect> {
    sides(
        c,
        dir != Dir::South && c.width != 1,
        dir != Dir::North && c.width != 1,
        dir != Dir::East && c.height != 1,
        dir != Dir::West && c.height != 1,
    )
}

/// The room of `w` by `h` cells grown from `(x, y)` in `dir`: the point lies
/// just outside the middle of the side facing it.
pub open spec fn room_at(x: int, y: int, dir: Dir, w: int, h: int) -> Rect {
    let (rx, ry) = match dir {
        Dir::North => (x - w / 2, y - h),
        Dir::South => (x - w / 2, y + 1),
        Dir::East => (x + 1, y - h / 2),
        Dir::West => (x - w, y - h / 2),
    };
    Rect { x: rx as isize, y: ry as isize, width: w as isize, height: h as isize }
}

/// The corridor of `len` cells grown from `(x, y)` in `dir`, lying along the
/// x axis when `horizontal`. Where it runs across `dir`, `skew` makes it
/// reach back (west, or north) from the point rather than forward.
pub open spec fn corridor_at(x: int, y: int, dir: Dir, horizontal: bool, len: int, skew: bool) -> Rect {
    let back = if skew {
        1 - len
    } else {
        0
    };
    let (cx, cy, w, h) = if horizontal {
        match dir {
            Dir::North => (x + back, y - 1, len, 1),
            Dir::South => (x + back, y + 1, len, 1),
            Dir::East => (x + 1, y, len, 1),
            Dir::West => (x - len, y, len, 1),
        }
    } else {
        match dir {
            Dir::North => (x, y - len, 1, len),
            Dir::South => (x, y + 1, 1, len),
            Dir::East => (x + 1, y + back, 1, len),
            Dir::West => (x - 1, y + back, 1, len),
        }
    };
    Rect { x: cx as isize, y: cy as isize, width: w as isize, height: h as isize }
}

/// A feature to build, with its shape already chosen.
#[derive(PartialEq, Eq, Structural, Debug, Clone, Copy)]
pub enum Feature {
    Room { width: isize, height: isize },
    Corridor { horizontal: bool, length: isize, skew: bool },
}

impl Feature {
    /// Rooms are 3 to 16 cells a side; corridors 3 to 10 cells long.
    pub open spec fn valid(self) -> bool {
        match self {
            Feature::Room { width, height } => MIN_ROOM <= width <= MAX_ROOM && MIN_ROOM <= height
                <= MAX_ROOM,
            Feature::Corridor { length, .. } => MIN_CORRIDOR <= length <= MAX_CORRIDOR,
        }
    }
}

pub open spec fn feature_rect(x: int, y: int, dir: Dir, f: Feature) -> Rect {
    match f {
        Feature::Room { width, height } => room_at(x, y, dir, width as int, height as int),
        Feature::Corridor { horizontal, length, skew } => corridor_at(
            x,
            y,
            dir,
            horizontal,
            length as int,
            skew,
        ),
    }
}

pub open spec fn feature_tile(f: Feature) -> Tile {
    match f {
        Feature::Room { .. } => Tile::Floor,
        Feature::Corridor { .. } => Tile::Corridor,
    }
}

/// The room's rectangle, computed.
pub fn room_rect(x: isize, y: isize, dir: Dir, w: isize, h: isize) -> (r: Rect)
    requires
        0 <= x < isize::MAX,
        0 <= y < isize::MAX,
        1 <= w <= 16,
        1 <= h <= 16,
    ensures
        r == room_at(x as int, y as int, dir, w as int, h as int),
{
    match dir {
        Dir::North => Rect::new(x - w / 2, y - h, w, h),
        Dir::South => Rect::new(x - w / 2, y + 1, w, h),
        Dir::East => Rect::new(x + 1, y - h / 2, w, h),
        Dir::West => Rect::new(x - w, y - h / 2, w, h),
    }
}

/// The corridor's rectangle, computed.
pub fn corridor_rect(x: isize, y: isize, dir: Dir, horizontal: bool, len: isize, skew: bool) -> (r:
    Rect)
    requires
        0 <= x < isize::MAX,
        0 <= y < isize::MAX,
        1 <= len <= 16,
    ensures
        r == corridor_at(x as int, y as int, dir, horizontal, len as int, skew),
{
    let back: isize = if skew {
        1 - len
    } else {
        0
    };
    if horizontal {
        match dir {
            Dir::North => Rect::new(x + back, y - 1, len, 1),
            Dir::South => Rect::new(x + back, y + 1, len, 1),
            Dir::East => Rect::new(x + 1, y, len, 1),
            Dir::West => Rect::new(x - len, y, len, 1),
        }
    } else {
        match dir {
            Dir::North => Rect::new(x, y - len, 1, len),
            Dir::South => Rect::new(x, y + 1, 1, len),
            Dir::East => Rect::new(x + 1, y + back, 1, len),
            Dir::West => Rect::new(x - 1, y + back, 1, len),
        }
    }
}

/// The attachment point lies on the ring of the feature grown from it.
proof fn lemma_point_on_border(x: int, y: int, dir: Dir, f: Feature)
    requires
        f.valid(),
        0 <= x < isize::MAX,
        0 <= y < isize::MAX,
    ensures
        feature_rect(x, y, dir, f).on_border(x, y),
        feature_rect(x, y, dir, f).width >= 1,
        feature_rect(x, y, dir, f).height >= 1,
{
}

/// How many entries of a pool of `n` a random index is drawn from: all of
/// them, as far as an `isize` reaches.
fn draw_bound(n: usize) -> (r: isize)
    requires
        n > 0,
    ensures
        0 < r <= n,
        n <= isize::MAX ==> r == n,
{
    if n > isize::MAX as usize {
        isize::MAX
    } else {
        n as isize
    }
}

/// A cell of the grid has its row-major index inside the buffer.
proof fn lemma_index(w: int, h: int, x: int, y: int)
    requires
        0 <= x < w,
        0 <= y < h,
    ensures
        0 <= x + y * w < w * h,
{
    assert(0 <= y * w <= (h - 1) * w) by (nonlinear_arith)
        requires
            0 <= y < h,
            0 < w,
    ;
    assert((h - 1) * w == w * h - w) by (nonlinear_arith);
}

/// Distinct cells of the grid have distinct row-major indices.
proof fn lemma_index_injective(w: int, x: int, y: int, a: int, b: int)
    requires
        0 <= x < w,
        0 <= a < w,
        0 <= y,
        0 <= b,
        x + y * w == a + b * w,
    ensures
        x == a && y == b,
{
    if y < b {
        assert(y * w + w <= b * w) by (nonlinear_arith)
            requires
                y < b,
                0 < w,
        ;
    } else if b < y {
        assert(b * w + w <= y * w) by (nonlinear_arith)
            requires
                b < y,
                0 < w,
        ;
    }
}

/// A rectangle whose cells are all blank keeps apart from every placed one.
proof fn lemma_fresh_apart(v: DungeonView, r: Rect)
    requires
        v.wf(),
        v.can_place(r),
    ensures
        forall|i: int| 0 <= i < v.placed.len() ==> r.apart(#[trigger] v.placed[i]),
{
    assert forall|i: int| 0 <= i < v.placed.len() implies r.apart(#[trigger] v.placed[i]) by {
        let p = v.placed[i];
        if !r.apart(p) {
            let a: int = if r.x >= p.x - 1 { r.x as int } else { p.x - 1 };
            let b: int = if r.y >= p.y - 1 { r.y as int } else { p.y - 1 };
            assert(r.contains(a, b));
            if p.contains(a, b) {
                assert(v.tile_at(a, b) != Tile::Unused);
            } else {
                assert(p.on_border(a, b));
                assert(v.tile_at(a, b).is_barrier());
            }
        }
    }
}

/// Placing a blank rectangle keeps the dungeon well formed.
proof fn lemma_place_keeps_wf(v: DungeonView, next: DungeonView, r: Rect, tile: Tile)
    requires
        v.wf(),
        v.can_place(r),
        tile != Tile::Unused,
        next.wf_grid(),
        v.place_step(next, r, tile),
    ensures
        next.wf(),
{
    lemma_fresh_apart(v, r);
    let n = v.placed.len() as int;
    assert(next.placed[n] == r);
    assert forall|i: int| 0 <= i < next.placed.len() implies next.fits(#[trigger] next.placed[i]) by {
        if i < n {
            assert(next.placed[i] == v.placed[i]);
        }
    }
    assert forall|i: int, j: int|
        0 <= i < next.placed.len() && 0 <= j < next.placed.len() && i != j
            implies (#[trigger] next.placed[i]).apart(#[trigger] next.placed[j]) by {
        if i < n && j < n {
            assert(next.placed[i] == v.placed[i]);
            assert(next.placed[j] == v.placed[j]);
        } else if i < n {
            assert(next.placed[i] == v.placed[i]);
        } else {
            assert(next.placed[j] == v.placed[j]);
        }
    }
    assert forall|i: int, a: int, b: int|
        0 <= i < next.placed.len() && (#[trigger] next.placed[i]).contains(a, b)
            implies #[trigger] next.tile_at(a, b) != Tile::Unused by {
        assert(next.tile_at(a, b) == v.stamped(r, tile, a, b));
        if i < n {
            assert(next.placed[i] == v.placed[i]);
            assert(r.apart(v.placed[i]));
        }
    }
    assert forall|i: int, a: int, b: int|
        0 <= i < next.placed.len() && (#[trigger] next.placed[i]).on_border(a, b)
            implies (#[trigger] next.tile_at(a, b)).is_barrier() by {
        assert(next.tile_at(a, b) == v.stamped(r, tile, a, b));
        if i < n {
            assert(next.placed[i] == v.placed[i]);
            assert(r.apart(v.placed[i]));
            assert(v.tile_at(a, b).is_barrier());
        }
    }
    assert forall|i: int| 0 <= i < next.rooms.len() implies next.placed.contains(#[trigger] next.rooms[i]) by {
        let k = choose|k: int| 0 <= k < v.placed.len() && v.placed[k] == v.rooms[i];
        assert(next.placed[k] == v.rooms[i]);
    }
    assert forall|i: int, a: int, b: int|
        0 <= i < next.rooms.len() && (#[trigger] next.rooms[i]).contains(a, b)
            implies #[trigger] next.tile_at(a, b) == Tile::Floor by {
        let k = choose|k: int| 0 <= k < v.placed.len() && v.placed[k] == v.rooms[i];
        assert(r.apart(v.placed[k]));
        assert(next.tile_at(a, b) == v.stamped(r, tile, a, b));
    }
    assert forall|i: int, a: int, b: int|
        0 <= i < next.exits.len() && (#[trigger] next.exits[i]).contains(a, b)
            implies #[trigger] next.tile_at(a, b) != Tile::Unused by {
        assert(v.tile_at(a, b) != Tile::Unused);
        assert(next.tile_at(a, b) == v.stamped(r, tile, a, b));
    }
    assert forall|a: int, b: int|
        #[trigger] next.tile_at(a, b) != Tile::Unused implies exists|i: int|
            0 <= i < next.placed.len() && (#[trigger] next.placed[i]).covers(a, b) by {
        assert(next.tile_at(a, b) == v.stamped(r, tile, a, b));
        if r.covers(a, b) {
            assert(next.placed[n].covers(a, b));
        } else {
            assert(v.tile_at(a, b) != Tile::Unused);
            let i = choose|i: int| 0 <= i < v.placed.len() && (#[trigger] v.placed[i]).covers(a, b);
            assert(next.placed[i].covers(a, b));
        }
    }
}

/// Writing a barrier tile on the ring of the newest feature keeps the
/// dungeon well formed.
proof fn lemma_joint_keeps_wf(v: DungeonView, next: DungeonView, x: int, y: int, t: Tile)
    requires
        v.wf(),
        v.placed.len() > 0,
        v.placed.last().on_border(x, y),
        t.is_barrier(),
        v.set_step(next, x, y, t),
        next.wf_grid(),
    ensures
        next.wf(),
{
    let n = v.placed.len() - 1;
    assert forall|i: int, a: int, b: int|
        0 <= i < next.placed.len() && (#[trigger] next.placed[i]).contains(a, b)
            implies #[trigger] next.tile_at(a, b) != Tile::Unused by {
        if a == x && b == y && i != n {
            assert(v.placed[i].apart(v.placed[n]));
        }
    }
    assert forall|i: int, a: int, b: int|
        0 <= i < next.rooms.len() && (#[trigger] next.rooms[i]).contains(a, b)
            implies #[trigger] next.tile_at(a, b) == Tile::Floor by {
        if a == x && b == y {
            let k = choose|k: int| 0 <= k < v.placed.len() && v.placed[k] == v.rooms[i];
            if k != n {
                assert(v.placed[k].apart(v.placed[n]));
            }
        }
    }
    assert forall|a: int, b: int|
        #[trigger] next.tile_at(a, b) != Tile::Unused implies exists|i: int|
            0 <= i < next.placed.len() && (#[trigger] next.placed[i]).covers(a, b) by {
        if a == x && b == y {
            assert(next.placed[n].covers(a, b));
        } else {
            assert(v.tile_at(a, b) != Tile::Unused);
        }
    }
}

/// Writing an object on a floor cell, and letting go of one free room, keeps
/// the dungeon well formed.
proof fn lemma_object_keeps_wf(v: DungeonView, next: DungeonView, k: int, x: int, y: int, t: Tile)
    requires
        v.wf(),
        0 <= k < v.rooms.len(),
        v.rooms[k].contains(x, y),
        t != Tile::Unused,
        next.wf_grid(),
        next.width == v.width,
        next.height == v.height,
        next.placed == v.placed,
        next.exits == v.exits,
        next.rooms == v.rooms.remove(k),
        forall|a: int, b: int| #[trigger]
            next.tile_at(a, b) == if a == x && b == y {
                t
            } else {
                v.tile_at(a, b)
            },
    ensures
        next.wf(),
{
    assert(v.tile_at(x, y) == Tile::Floor);
    assert forall|i: int, a: int, b: int|
        0 <= i < next.placed.len() && (#[trigger] next.placed[i]).on_border(a, b)
            implies (#[trigger] next.tile_at(a, b)).is_barrier() by {
        assert(v.tile_at(a, b).is_barrier());
    }
    assert forall|i: int, a: int, b: int|
        0 <= i < next.rooms.len() && (#[trigger] next.rooms[i]).contains(a, b)
            implies #[trigger] next.tile_at(a, b) == Tile::Floor by {
        let i2 = if i < k { i } else { i + 1 };
        assert(next.rooms[i] == v.rooms[i2]);
        if a == x && b == y {
            let p = choose|p: int| 0 <= p < v.placed.len() && v.placed[p] == v.rooms[i2];
            let q = choose|q: int| 0 <= q < v.placed.len() && v.placed[q] == v.rooms[k];
            assert(v.rooms[i2] != v.rooms[k]);
            assert(v.placed[p].apart(v.placed[q]));
        }
    }
    assert forall|a: int, b: int|
        #[trigger] next.tile_at(a, b) != Tile::Unused implies exists|i: int|
            0 <= i < next.placed.len() && (#[trigger] next.placed[i]).covers(a, b) by {
        assert(v.tile_at(a, b) != Tile::Unused);
    }
    assert forall|i: int| 0 <= i < next.rooms.len() implies next.placed.contains(#[trigger] next.rooms[i]) by {
        if i < k {
            assert(next.rooms[i] == v.rooms[i]);
        } else {
            assert(next.rooms[i] == v.rooms[i + 1]);
        }
    }
    assert forall|i: int, j: int|
        0 <= i < next.rooms.len() && 0 <= j < next.rooms.len() && i != j
            implies #[trigger] next.rooms[i] != #[trigger] next.rooms[j] by {
        let i2 = if i < k { i } else { i + 1 };
        let j2 = if j < k { j } else { j + 1 };
        assert(next.rooms[i] == v.rooms[i2]);
        assert(next.rooms[j] == v.rooms[j2]);
    }
}

/// The character that stands for a tile in a text dump.
pub open spec fn icon(t: Tile) -> char {
    match t {
        Tile::Floor => '.',
        Tile::Corridor => ',',
        Tile::Wall => '#',
        Tile::ClosedDoor => '+',
        Tile::OpenDoor => '-',
        Tile::Exit => '>',
        Tile::Entrance => '<',
        Tile::Unused => ' ',
    }
}

/// The cell where an object was dropped, and the room that holds it.
#[derive(PartialEq, Eq, Structural, Debug, Clone, Copy)]
pub struct ObjectSpot {
    pub x: isize,
    pub y: isize,
    pub room: Rect,
}

/// What one run of generation achieved.
#[derive(PartialEq, Eq, Structural, Debug, Clone, Copy)]
pub struct GenerationReport {
    /// The seed room at the centre was placed.
    pub first_room: bool,
    /// How many features were attached after the seed room.
    pub features: isize,
    pub exit: Option<ObjectSpot>,
    pub entrance: Option<ObjectSpot>,
}

/// Reading off the grid gives `Unused`; reading a cell of the grid right
/// after writing it gives what was written, and every other cell keeps its
/// tile.
pub proof fn lemma_read_after_write(v: DungeonView, next: DungeonView, x: int, y: int, t: Tile)
    requires
        v.set_step(next, x, y, t),
    ensures
        forall|a: int, b: int| !next.in_bounds(a, b) ==> #[trigger] next.tile_at(a, b) == Tile::Unused,
        next.in_bounds(x, y) ==> next.tile_at(x, y) == t,
        forall|a: int, b: int|
            (a != x || b != y) ==> #[trigger] next.tile_at(a, b) == v.tile_at(a, b),
{
}

/// No cell lies inside two placed features, and every cell on the ring of a
/// placed feature is a wall, a door or an open corridor joint, never blank.
pub proof fn lemma_no_overlap(v: DungeonView, i: int, j: int, a: int, b: int)
    requires
        v.wf(),
        0 <= i < v.placed.len(),
        0 <= j < v.placed.len(),
        i != j,
    ensures
        !(v.placed[i].contains(a, b) && v.placed[j].contains(a, b)),
        v.placed[i].on_border(a, b) ==> v.tile_at(a, b).is_barrier(),
        v.placed[i].contains(a, b) ==> v.tile_at(a, b) != Tile::Unused,
{
    assert(v.placed[i].apart(v.placed[j]));
    if v.placed[i].on_border(a, b) {
        assert(v.tile_at(a, b).is_barrier());
    }
    if v.placed[i].contains(a, b) {
        assert(v.tile_at(a, b) != Tile::Unused);
    }
}

/// Every placed feature, with its ring of walls, lies inside the grid, and
/// its cells keep off the grid's outermost rows and columns.
pub proof fn lemma_inside_grid(v: DungeonView, i: int, a: int, b: int)
    requires
        v.wf(),
        0 <= i < v.placed.len(),
    ensures
        v.placed[i].contains(a, b) ==> 1 <= a <= v.width - 2 && 1 <= b <= v.height - 2,
        v.placed[i].on_border(a, b) ==> v.in_bounds(a, b),
{
    assert(v.fits(v.placed[i]));
}

/// Every cell in use lies in a placed feature or on its ring, and so on the
/// grid.
pub proof fn lemma_used_cells_covered(v: DungeonView, a: int, b: int)
    requires
        v.wf(),
        v.tile_at(a, b) != Tile::Unused,
    ensures
        v.in_bounds(a, b),
        exists|i: int| 0 <= i < v.placed.len() && (#[trigger] v.placed[i]).covers(a, b),
{
}

/// A floor, exit or entrance cell lies inside a placed feature, so none of
/// its eight neighbours is blank.
pub proof fn lemma_floor_walled_in(v: DungeonView, a: int, b: int, da: int, db: int)
    requires
        v.wf(),
        v.tile_at(a, b) == Tile::Floor || v.tile_at(a, b) == Tile::Exit || v.tile_at(a, b)
            == Tile::Entrance,
        -1 <= da <= 1,
        -1 <= db <= 1,
    ensures
        v.tile_at(a + da, b + db) != Tile::Unused,
{
    let i = choose|i: int| 0 <= i < v.placed.len() && (#[trigger] v.placed[i]).covers(a, b);
    if v.placed[i].on_border(a, b) {
        assert(v.tile_at(a, b).is_barrier());
    }
    assert(v.placed[i].contains(a, b));
    if v.placed[i].contains(a + da, b + db) {
        assert(v.tile_at(a + da, b + db) != Tile::Unused);
    } else {
        assert(v.placed[i].on_border(a + da, b + db));
        assert(v.tile_at(a + da, b + db).is_barrier());
    }
}

/// A rectangle that covers a cell in use cannot be placed.
pub proof fn lemma_overlap_refused(v: DungeonView, r: Rect, a: int, b: int)
    requires
        r.contains(a, b),
        v.tile_at(a, b) != Tile::Unused,
    ensures
        !v.can_place(r),
{
}

/// A dungeon: a fixed grid of tiles, the rooms still free to receive an
/// object, and the seams where new features may attach.
pub struct Dungeon {
    width: isize,
    height: isize,
    tiles: Vec<Tile>,
    rooms: Vec<Rect>,
    exits: Vec<Rect>,
    placed: Ghost<Seq<Rect>>,
}

impl View for Dungeon {
    type V = DungeonView;

    closed spec fn view(&self) -> DungeonView {
        DungeonView {
            width: self.width as int,
            height: self.height as int,
            tiles: self.tiles@,
            rooms: self.rooms@,
            exits: self.exits@,
            placed: self.placed@,
        }
    }
}

impl Dungeon {
    /// A grid of `width` by `height` cells, all `Unused`, with nothing placed.
    pub fn new(width: isize, height: isize) -> (d: Dungeon)
        requires
            0 < width,
            0 < height,
            width * height <= isize::MAX,
        ensures
            d@.wf(),
            d@.width == width,
            d@.height == height,
            d@.rooms.len() == 0,
            d@.exits.len() == 0,
            d@.placed.len() == 0,
            forall|a: int, b: int| #[trigger] d@.tile_at(a, b) == Tile::Unused,
    {
        let n: isize = width * height;
        let mut tiles: Vec<Tile> = Vec::new();
        let mut i: isize = 0;
        while i < n
            invariant
                0 <= i <= n,
                tiles@.len() == i,
                forall|k: int| 0 <= k < i ==> tiles@[k] == Tile::Unused,
            decreases n - i,
        {
            tiles.push(Tile::Unused);
            i = i + 1;
        }
        let d = Dungeon {
            width,
            height,
            tiles,
            rooms: Vec::new(),
            exits: Vec::new(),
            placed: Ghost(Seq::empty()),
        };
        assert forall|a: int, b: int| #[trigger] d@.tile_at(a, b) == Tile::Unused by {
            if d@.in_bounds(a, b) {
                lemma_index(width as int, height as int, a, b);
            }
        }
        d
    }

    pub fn width(&self) -> (r: isize)
        ensures
            r == self@.width,
    {
        self.width
    }

    pub fn height(&self) -> (r: isize)
        ensures
            r == self@.height,
    {
        self.height
    }

    /// The tile at `(x, y)`; `Unused` for any cell off the grid.
    pub fn get_tile(&self, x: isize, y: isize) -> (t: Tile)
        requires
            self@.wf_grid(),
        ensures
            t == self@.tile_at(x as int, y as int),
    {
        if x < 0 || y < 0 || x >= self.width || y >= self.height {
            return Tile::Unused;
        }
        proof {
            lemma_index(self.width as int, self.height as int, x as int, y as int);
        }
        self.tiles[(x + y * self.width) as usize]
    }

    /// Writes `tile` at `(x, y)`, a cell of the grid; every other cell keeps
    /// its tile.
    pub fn set_tile(&mut self, x: isize, y: isize, tile: Tile)
        requires
            old(self)@.wf_grid(),
            old(self)@.in_bounds(x as int, y as int),
        ensures
            final(self)@.wf_grid(),
            old(self)@.set_step(final(self)@, x as int, y as int, tile),
    {
        proof {
            lemma_index(self.width as int, self.height as int, x as int, y as int);
        }
        let ghost pre = self@;
        let i = (x + y * self.width) as usize;
        self.tiles.set(i, tile);
        assert forall|a: int, b: int| #[trigger]
            self@.tile_at(a, b) == if a == x && b == y {
                tile
            } else {
                pre.tile_at(a, b)
            } by {
            if pre.in_bounds(a, b) {
                lemma_index(pre.width, pre.height, a, b);
                if a != x || b != y {
                    if a + b * pre.width == i {
                        lemma_index_injective(pre.width, x as int, y as int, a, b);
                    }
                }
            }
        }
    }
    /// Places a feature of `tile` on `rect` when the rectangle fits inside the
    /// grid with its ring and every cell of it is blank: its ring becomes
    /// wall and its cells `tile`. Otherwise nothing changes.
    pub fn place_rect(&mut self, rect: &Rect, tile: Tile) -> (r: bool)
        requires
            old(self)@.wf(),
            rect.width >= 1,
            rect.height >= 1,
            tile != Tile::Unused,
        ensures
            old(self)@.keeps_used(final(self)@),
            final(self)@.wf(),
            r == old(self)@.can_place(*rect),
            r ==> old(self)@.place_step(final(self)@, *rect, tile),
            !r ==> final(self)@ == old(self)@,
    {
        let ghost pre = self@;
        if rect.x < 1 || rect.y < 1 || rect.width > self.width - 1 - rect.x || rect.height
            > self.height - 1 - rect.y {
            return false;
        }
        let mut y: isize = rect.y;
        while y < rect.y + rect.height
            invariant
                self@ == pre,
                pre.wf(),
                pre.fits(*rect),
                rect.y <= y <= rect.y + rect.height,
                forall|a: int, b: int|
                    #![trigger rect.contains(a, b)]
                    rect.contains(a, b) && b < y ==> pre.tile_at(a, b) == Tile::Unused,
            decreases rect.y + rect.height - y,
        {
            let mut x: isize = rect.x;
            while x < rect.x + rect.width
                invariant
                    self@ == pre,
                    pre.wf(),
                    pre.fits(*rect),
                    rect.y <= y < rect.y + rect.height,
                    rect.x <= x <= rect.x + rect.width,
                    forall|a: int, b: int|
                        #![trigger rect.contains(a, b)]
                        rect.contains(a, b) && (b < y || (b == y && a < x)) ==> pre.tile_at(a, b)
                            == Tile::Unused,
                decreases rect.x + rect.width - x,
            {
                if self.get_tile(x, y) != Tile::Unused {
                    assert(rect.contains(x as int, y as int));
                    return false;
                }
                x = x + 1;
            }
            y = y + 1;
        }
        assert(pre.can_place(*rect));
        let mut y: isize = rect.y - 1;
        while y <= rect.y + rect.height
            invariant
                pre.wf(),
                pre.fits(*rect),
                self@.wf_grid(),
                self@.width == pre.width,
                self@.height == pre.height,
                self@.rooms == pre.rooms,
                self@.exits == pre.exits,
                self@.placed == pre.placed,
                rect.y - 1 <= y <= rect.y + rect.height + 1,
                forall|a: int, b: int| #[trigger]
                    self@.tile_at(a, b) == if b < y {
                        pre.stamped(*rect, tile, a, b)
                    } else {
                        pre.tile_at(a, b)
                    },
            decreases rect.y + rect.height + 1 - y,
        {
            let mut x: isize = rect.x - 1;
            while x <= rect.x + rect.width
                invariant
                    pre.wf(),
                    pre.fits(*rect),
                    self@.wf_grid(),
                    self@.width == pre.width,
                    self@.height == pre.height,
                    self@.rooms == pre.rooms,
                    self@.exits == pre.exits,
                    self@.placed == pre.placed,
                    rect.y - 1 <= y <= rect.y + rect.height,
                    rect.x - 1 <= x <= rect.x + rect.width + 1,
                    forall|a: int, b: int| #[trigger]
                        self@.tile_at(a, b) == if b < y || (b == y && a < x) {
                            pre.stamped(*rect, tile, a, b)
                        } else {
                            pre.tile_at(a, b)
                        },
                decreases rect.x + rect.width + 1 - x,
            {
                if x == rect.x - 1 || y == rect.y - 1 || x == rect.x + rect.width || y == rect.y
                    + rect.height {
                    self.set_tile(x, y, Tile::Wall);
                } else {
                    self.set_tile(x, y, tile);
                }
                x = x + 1;
            }
            y = y + 1;
        }
        proof {
            let ghost before = self@;
            self.placed = Ghost(pre.placed.push(*rect));
            assert forall|a: int, b: int| #[trigger]
                self@.tile_at(a, b) == pre.stamped(*rect, tile, a, b) by {
                assert(self@.tile_at(a, b) == before.tile_at(a, b));
                if b >= y {
                    assert(!rect.contains(a, b) && !rect.on_border(a, b));
                }
            }
            lemma_place_keeps_wf(pre, self@, *rect, tile);
        }
        true
    }
    /// Appends one seam to the pending ones.
    fn push_seam(&mut self, seam: Rect)
        requires
            old(self)@.wf(),
            old(self)@.seam_ok(seam),
            forall|a: int, b: int| seam.contains(a, b) ==> #[trigger] old(self)@.tile_at(a, b) != Tile::Unused,
        ensures
            final(self)@.wf(),
            final(self)@.exits == old(self)@.exits.push(seam),
            final(self)@.tiles == old(self)@.tiles,
            forall|a: int, b: int| #[trigger] final(self)@.tile_at(a, b) == old(self)@.tile_at(a, b),
            final(self)@.width == old(self)@.width,
            final(self)@.height == old(self)@.height,
            final(self)@.rooms == old(self)@.rooms,
            final(self)@.placed == old(self)@.placed,
    {
        let ghost pre = self@;
        self.exits.push(seam);
        assert forall|a: int, b: int| #[trigger] self@.tile_at(a, b) == pre.tile_at(a, b) by {}
        assert forall|i: int| 0 <= i < self@.exits.len() implies self@.seam_ok(
            #[trigger] self@.exits[i],
        ) by {
            if i < pre.exits.len() {
                assert(self@.exits[i] == pre.exits[i]);
            }
        }
        assert(self@.placed == pre.placed);
        assert(self@.rooms == pre.rooms);
        assert(self@.tiles == pre.tiles);
        assert forall|i: int, a: int, b: int|
            0 <= i < self@.exits.len() && (#[trigger] self@.exits[i]).contains(a, b)
                implies #[trigger] self@.tile_at(a, b) != Tile::Unused by {
            if i < pre.exits.len() {
                assert(self@.exits[i] == pre.exits[i]);
            }
        }
        assert forall|a: int, b: int|
            #[trigger] self@.tile_at(a, b) != Tile::Unused implies exists|i: int|
                0 <= i < self@.placed.len() && (#[trigger] self@.placed[i]).covers(a, b) by {
            assert(pre.tile_at(a, b) != Tile::Unused);
        }
    }

    /// Appends the chosen sides of the placed rectangle `r` to the pending
    /// seams.
    fn push_seams(&mut self, r: Rect, top: bool, bottom: bool, left: bool, right: bool)
        requires
            old(self)@.wf(),
            old(self)@.fits(r),
            forall|a: int, b: int| r.on_border(a, b) ==> #[trigger] old(self)@.tile_at(a, b) != Tile::Unused,
        ensures
            final(self)@.wf(),
            final(self)@.exits == old(self)@.exits + sides(r, top, bottom, left, right),
            final(self)@.tiles == old(self)@.tiles,
            final(self)@.width == old(self)@.width,
            final(self)@.height == old(self)@.height,
            final(self)@.rooms == old(self)@.rooms,
            final(self)@.placed == old(self)@.placed,
    {
        let ghost pre = self@;
        assert forall|a: int, b: int| #[trigger] self@.tile_at(a, b) == pre.tile_at(a, b) by {}
        if top {
            proof {
                assert forall|a: int, b: int| r.on_border(a, b) implies #[trigger] self@.tile_at(a, b)
                    != Tile::Unused by {
                    assert(pre.tile_at(a, b) != Tile::Unused);
                }
            }
            self.push_seam(Rect::new(r.x, r.y - 1, r.width, 1));
        }
        assert(self@.exits =~= pre.exits + opt_seam(top, top_side(r)));
        if bottom {
            proof {
                assert forall|a: int, b: int| r.on_border(a, b) implies #[trigger] self@.tile_at(a, b)
                    != Tile::Unused by {
                    assert(pre.tile_at(a, b) != Tile::Unused);
                }
            }
            self.push_seam(Rect::new(r.x, r.y + r.height, r.width, 1));
        }
        assert(self@.exits =~= pre.exits + opt_seam(top, top_side(r)) + opt_seam(
            bottom,
            bottom_side(r),
        ));
        if left {
            proof {
                assert forall|a: int, b: int| r.on_border(a, b) implies #[trigger] self@.tile_at(a, b)
                    != Tile::Unused by {
                    assert(pre.tile_at(a, b) != Tile::Unused);
                }
            }
            self.push_seam(Rect::new(r.x - 1, r.y, 1, r.height));
        }
        assert(self@.exits =~= pre.exits + opt_seam(top, top_side(r)) + opt_seam(
            bottom,
            bottom_side(r),
        ) + opt_seam(left, left_side(r)));
        if right {
            proof {
                assert forall|a: int, b: int| r.on_border(a, b) implies #[trigger] self@.tile_at(a, b)
                    != Tile::Unused by {
                    assert(pre.tile_at(a, b) != Tile::Unused);
                }
            }
            self.push_seam(Rect::new(r.x + r.width, r.y, 1, r.height));
        }
        assert(self@.exits =~= pre.exits + sides(r, top, bottom, left, right));
    }

    /// Places a room of `w` by `h` cells grown from `(x, y)` in `dir`, when it
    /// can be placed; its seams become pending, all four for the first room.
    pub fn make_room_sized(&mut self, x: isize, y: isize, dir: Dir, firstroom: bool, w: isize, h: isize) -> (r: bool)
        requires
            old(self)@.wf(),
            old(self)@.in_bounds(x as int, y as int),
            MIN_ROOM <= w <= MAX_ROOM,
            MIN_ROOM <= h <= MAX_ROOM,
        ensures
            old(self)@.changes_within(final(self)@),
            old(self)@.only_builds(final(self)@),
            old(self)@.keeps_used(final(self)@),
            final(self)@.wf(),
            r == old(self)@.can_place(room_at(x as int, y as int, dir, w as int, h as int)),
            r ==> old(self)@.room_step(
                final(self)@,
                room_at(x as int, y as int, dir, w as int, h as int),
                dir,
                firstroom,
            ),
            !r ==> final(self)@ == old(self)@,
    {
        let ghost pre = self@;
        let room = room_rect(x, y, dir, w, h);
        if !self.place_rect(&room, Tile::Floor) {
            return false;
        }
        let ghost mid = self@;
        self.rooms.push(room);
        proof {
            let v = self@;
            assert(v.placed.last() == room);
            assert forall|a: int, b: int| #[trigger] v.tile_at(a, b) == mid.tile_at(a, b) by {}
            assert forall|i: int| 0 <= i < v.rooms.len() implies v.placed.contains(
                #[trigger] v.rooms[i],
            ) by {
                if i < mid.rooms.len() {
                    assert(v.rooms[i] == mid.rooms[i]);
                    let k = choose|k: int| 0 <= k < mid.placed.len() && mid.placed[k] == mid.rooms[i];
                    assert(v.placed[k] == v.rooms[i]);
                } else {
                    assert(v.placed[v.placed.len() - 1] == room);
                }
            }
            assert forall|i: int, j: int|
                0 <= i < v.rooms.len() && 0 <= j < v.rooms.len() && i != j
                    implies #[trigger] v.rooms[i] != #[trigger] v.rooms[j] by {
                let n = mid.rooms.len() as int;
                if i == n || j == n {
                    let o = if i == n { j } else { i };
                    assert(v.rooms[o] == pre.rooms[o]);
                    let k = choose|k: int| 0 <= k < pre.placed.len() && pre.placed[k] == pre.rooms[o];
                    lemma_fresh_apart(pre, room);
                    assert(room.apart(pre.placed[k]));
                } else {
                    assert(v.rooms[i] == pre.rooms[i]);
                    assert(v.rooms[j] == pre.rooms[j]);
                }
            }
        }
        self.push_seams(
            room,
            dir != Dir::South || firstroom,
            dir != Dir::North || firstroom,
            dir != Dir::East || firstroom,
            dir != Dir::West || firstroom,
        );
        proof {
            assert forall|a: int, b: int| #[trigger]
                self@.tile_at(a, b) == pre.stamped(room, Tile::Floor, a, b) by {
                assert(self@.tile_at(a, b) == mid.tile_at(a, b));
            }
        }
        true
    }

    /// Places a corridor of `length` cells grown from `(x, y)` in `dir`, when
    /// it can be placed; its long sides, but the one it was attached from,
    /// become pending seams.
    pub fn make_corridor(&mut self, x: isize, y: isize, dir: Dir, horizontal: bool, length: isize, skew: bool) -> (r: bool)
        requires
            old(self)@.wf(),
            old(self)@.in_bounds(x as int, y as int),
            3 <= length <= 10,
        ensures
            old(self)@.changes_within(final(self)@),
            old(self)@.only_builds(final(self)@),
            old(self)@.keeps_used(final(self)@),
            final(self)@.wf(),
            r == old(self)@.can_place(corridor_at(x as int, y as int, dir, horizontal, length as int, skew)),
            r ==> old(self)@.corridor_step(
                final(self)@,
                corridor_at(x as int, y as int, dir, horizontal, length as int, skew),
                dir,
            ),
            !r ==> final(self)@ == old(self)@,
    {
        let ghost pre = self@;
        let c = corridor_rect(x, y, dir, horizontal, length, skew);
        if !self.place_rect(&c, Tile::Corridor) {
            return false;
        }
        let ghost mid = self@;
        self.push_seams(
            c,
            dir != Dir::South && c.width != 1,
            dir != Dir::North && c.width != 1,
            dir != Dir::East && c.height != 1,
            dir != Dir::West && c.height != 1,
        );
        proof {
            assert forall|a: int, b: int| #[trigger]
                self@.tile_at(a, b) == pre.stamped(c, Tile::Corridor, a, b) by {
                assert(self@.tile_at(a, b) == mid.tile_at(a, b));
            }
            assert(self@.placed[pre.placed.len() as int] == c);
            assert forall|a: int, b: int|
                #[trigger] self@.tile_at(a, b) != pre.tile_at(a, b) implies exists|i: int|
                    pre.placed.len() <= i < self@.placed.len() && (#[trigger] self@.placed[i]).covers(
                        a,
                        b,
                    ) by {
                assert(self@.placed[pre.placed.len() as int].covers(a, b));
            }
        }
        true
    }
    /// Places a room of random size, 3 to 16 cells a side, grown from
    /// `(x, y)` in `dir`, when it can be placed.
    pub fn make_room(&mut self, x: isize, y: isize, dir: Dir, firstroom: bool) -> (r: bool)
        requires
            old(self)@.wf(),
            old(self)@.in_bounds(x as int, y as int),
        ensures
            old(self)@.changes_within(final(self)@),
            old(self)@.only_builds(final(self)@),
            old(self)@.keeps_used(final(self)@),
            final(self)@.wf(),
            exists|w: int, h: int| #[trigger]
                old(self)@.room_outcome(final(self)@, x as int, y as int, dir, firstroom, w, h, r),
            !r ==> final(self)@ == old(self)@,
    {
        let w = inclusive_random(MIN_ROOM, MAX_ROOM);
        let h = inclusive_random(MIN_ROOM, MAX_ROOM);
        let placed = self.make_room_sized(x, y, dir, firstroom, w, h);
        assert(old(self)@.room_outcome(self@, x as int, y as int, dir, firstroom, w as int, h as int, placed));
        placed
    }

    /// Builds `f` from the attachment point `(x, y)` in `dir`: only off a
    /// floor or a corridor behind the point, and only where the feature can be
    /// placed. The point then joins the two: a closed door into a room, or
    /// out of one; an open corridor cell between corridors.
    pub fn attach(&mut self, x: isize, y: isize, dir: Dir, f: Feature) -> (r: bool)
        requires
            old(self)@.wf(),
            old(self)@.in_bounds(x as int, y as int),
            f.valid(),
        ensures
            old(self)@.changes_within(final(self)@),
            old(self)@.only_builds(final(self)@),
            old(self)@.keeps_used(final(self)@),
            final(self)@.wf(),
            r == (old(self)@.behind_open(x as int, y as int, dir) && old(self)@.can_place(
                feature_rect(x as int, y as int, dir, f),
            )),
            r ==> old(self)@.attach_step(final(self)@, x as int, y as int, dir, f),
            !r ==> final(self)@ == old(self)@,
    {
        let ghost pre = self@;
        let (dx, dy) = dir.delta();
        let behind = self.get_tile(x - dx, y - dy);
        if behind != Tile::Floor && behind != Tile::Corridor {
            return false;
        }
        let joint = match f {
            Feature::Room { width, height } => {
                if !self.make_room_sized(x, y, dir, false, width, height) {
                    return false;
                }
                Tile::ClosedDoor
            },
            Feature::Corridor { horizontal, length, skew } => {
                if !self.make_corridor(x, y, dir, horizontal, length, skew) {
                    return false;
                }
                if behind == Tile::Floor {
                    Tile::ClosedDoor
                } else {
                    Tile::Corridor
                }
            },
        };
        let ghost mid = self@;
        proof {
            lemma_point_on_border(x as int, y as int, dir, f);
            assert(mid.placed.last() == feature_rect(x as int, y as int, dir, f));
        }
        self.set_tile(x, y, joint);
        proof {
            lemma_joint_keeps_wf(mid, self@, x as int, y as int, joint);
        }
        true
    }

    /// Tries to grow a feature of random kind and shape from `(x, y)` in
    /// `dir`: a room half of the time, else a corridor.
    pub fn create_feature(&mut self, x: isize, y: isize, dir: Dir) -> (r: bool)
        requires
            old(self)@.wf(),
            old(self)@.in_bounds(x as int, y as int),
        ensures
            old(self)@.changes_within(final(self)@),
            old(self)@.only_builds(final(self)@),
            old(self)@.keeps_used(final(self)@),
            final(self)@.wf(),
            !old(self)@.behind_open(x as int, y as int, dir) ==> !r,
            exists|f: Feature| #[trigger]
                old(self)@.attach_outcome(final(self)@, x as int, y as int, dir, f, r),
            !r ==> final(self)@ == old(self)@,
    {
        let f = if exclusive_random(100) < ROOM_CHANCE {
            Feature::Room {
                width: inclusive_random(MIN_ROOM, MAX_ROOM),
                height: inclusive_random(MIN_ROOM, MAX_ROOM),
            }
        } else {
            Feature::Corridor {
                horizontal: random_bool(),
                length: inclusive_random(MIN_CORRIDOR, MAX_CORRIDOR),
                skew: random_bool(),
            }
        };
        let r = self.attach(x, y, dir, f);
        assert(old(self)@.attach_outcome(self@, x as int, y as int, dir, f, r));
        r
    }

    /// Consumes one pending seam: picks a seam and a cell of it at random and
    /// tries the four directions there in turn, until a feature grows. Gives
    /// up when no seam is pending or after a bounded number of picks.
    pub fn has_exits(&mut self) -> (r: bool)
        requires
            old(self)@.wf(),
        ensures
            old(self)@.changes_within(final(self)@),
            old(self)@.only_builds(final(self)@),
            old(self)@.keeps_used(final(self)@),
            final(self)@.wf(),
            old(self)@.exits.len() == 0 ==> !r,
            old(self)@.exits.len() > 0 && old(self)@.every_seam_grows() ==> r,
            !r ==> final(self)@ == old(self)@,
            final(self)@.rooms.len() >= old(self)@.rooms.len(),
            final(self)@.placed.len() >= old(self)@.placed.len(),
            forall|i: int|
                0 <= i < old(self)@.placed.len() ==> #[trigger] final(self)@.placed[i]
                    == old(self)@.placed[i],
            r ==> exists|k: int, x: int, y: int, d: Dir, f: Feature, mid: DungeonView|
                #![trigger old(self)@.attach_step(mid, x, y, d, f), old(self)@.exits[k]]
                {
                    &&& 0 <= k < old(self)@.exits.len()
                    &&& old(self)@.exits[k].contains(x, y)
                    &&& f.valid()
                    &&& old(self)@.attach_step(mid, x, y, d, f)
                    &&& final(self)@ == (DungeonView { exits: mid.exits.remove(k), ..mid })
                },
    {
        let ghost pre = self@;
        let mut attempt: usize = 0;
        while attempt < MAX_ATTEMPTS
            invariant
                self@ == pre,
                pre == old(self)@,
                pre.wf(),
                attempt > 0 ==> !(pre.exits.len() > 0 && pre.every_seam_grows()),
            decreases MAX_ATTEMPTS - attempt,
        {
            let n = self.exits.len();
            if n == 0 {
                return false;
            }
            let k = exclusive_random(draw_bound(n)) as usize;
            let e = self.exits[k];
            proof {
                assert(pre.exits[k as int] == e);
                assert(pre.seam_ok(e));
            }
            let x = inclusive_random(e.x, e.x + e.width - 1);
            let y = inclusive_random(e.y, e.y + e.height - 1);
            let dirs = Dir::iterator();
            proof {
                if pre.exits.len() > 0 && pre.every_seam_grows() {
                    assert(pre.exits[k as int].contains(x as int, y as int));
                    let d = choose|d: Dir| #[trigger] pre.always_grows(x as int, y as int, d);
                    let m: int = match d {
                        Dir::North => 0,
                        Dir::South => 1,
                        Dir::East => 2,
                        Dir::West => 3,
                    };
                    assert(dirs@[m] == d);
                }
            }
            let mut j: usize = 0;
            while j < dirs.len()
                invariant
                    self@ == pre,
                    pre == old(self)@,
                    pre.wf(),
                    dirs@ == Dir::all(),
                    0 <= k < pre.exits.len(),
                    pre.exits[k as int] == e,
                    e.contains(x as int, y as int),
                    pre.in_bounds(x as int, y as int),
                    0 <= j <= 4,
                    pre.exits.len() > 0 && pre.every_seam_grows() ==> exists|m: int|
                        j <= m < 4 && #[trigger] pre.always_grows(x as int, y as int, dirs@[m]),
                decreases dirs.len() - j,
            {
                let ghost good = pre.exits.len() > 0 && pre.every_seam_grows();
                let ghost m0: int = choose|m: int|
                    j <= m < 4 && #[trigger] pre.always_grows(x as int, y as int, dirs@[m]);
                if self.create_feature(x, y, dirs[j]) {
                    let ghost mid = self@;
                    let ghost f = choose|f: Feature|
                        f.valid() && #[trigger] pre.attach_step(mid, x as int, y as int, dirs[j as int], f);
                    self.exits.remove(k);
                    proof {
                        assert(self@ == (DungeonView { exits: mid.exits.remove(k as int), ..mid }));
                        assert forall|a: int, b: int| #[trigger] self@.tile_at(a, b) == mid.tile_at(a, b) by {}
                        assert forall|i: int| 0 <= i < self@.exits.len() implies self@.seam_ok(
                            #[trigger] self@.exits[i],
                        ) by {
                            if i < k {
                                assert(self@.exits[i] == mid.exits[i]);
                            } else {
                                assert(self@.exits[i] == mid.exits[i + 1]);
                            }
                        }
                        assert(pre.attach_step(mid, x as int, y as int, dirs[j as int], f));
                        assert(self@.rooms.len() >= pre.rooms.len());
                        assert(self@.placed == pre.placed.push(feature_rect(x as int, y as int, dirs[j as int], f)));
                    }
                    return true;
                }
                proof {
                    if good {
                        let f = choose|f: Feature| #[trigger]
                            pre.attach_outcome(self@, x as int, y as int, dirs@[j as int], f, false);
                        assert(pre.attach_outcome(self@, x as int, y as int, dirs@[j as int], f, false));
                        if m0 == j {
                            assert(f.valid() ==> pre.behind_open(x as int, y as int, dirs@[j as int])
                                && pre.can_place(feature_rect(x as int, y as int, dirs@[j as int], f)));
                        }
                        assert(m0 != j);
                    }
                }
                j = j + 1;
            }
            attempt = attempt + 1;
        }
        false
    }
    /// Drops `tile` on `(x, y)`, a cell of the free room at index `k`, and
    /// takes the room out of the pool. Every cell of a free room is floor,
    /// so this always succeeds.
    pub fn place_object_at(&mut self, tile: Tile, k: usize, x: isize, y: isize) -> (r: Option<
        ObjectSpot,
    >)
        requires
            old(self)@.wf(),
            k < old(self)@.rooms.len(),
            old(self)@.rooms[k as int].contains(x as int, y as int),
            tile != Tile::Unused,
        ensures
            old(self)@.keeps_used(final(self)@),
            final(self)@.wf(),
            r == Some(ObjectSpot { x, y, room: old(self)@.rooms[k as int] }),
            old(self)@.tile_at(x as int, y as int) == Tile::Floor,
            old(self)@.object_step(final(self)@, k as int, x as int, y as int, tile),
    {
        let ghost pre = self@;
        proof {
            assert(pre.tile_at(x as int, y as int) == Tile::Floor);
        }
        self.set_tile(x, y, tile);
        let ghost m = self@;
        let room = self.rooms.remove(k);
        proof {
            assert forall|a: int, b: int| #[trigger]
                self@.tile_at(a, b) == if a == x && b == y {
                    tile
                } else {
                    pre.tile_at(a, b)
                } by {
                assert(self@.tile_at(a, b) == m.tile_at(a, b));
            }
            lemma_object_keeps_wf(pre, self@, k as int, x as int, y as int, tile);
        }
        Some(ObjectSpot { x, y, room })
    }

    /// Drops `tile` on a random cell inside a random free room, away from the
    /// room's edge, when that cell is floor; the room then leaves the pool.
    pub fn place_object(&mut self, tile: Tile) -> (r: Option<ObjectSpot>)
        requires
            old(self)@.wf(),
            tile != Tile::Unused,
        ensures
            old(self)@.keeps_used(final(self)@),
            final(self)@.wf(),
            r is Some <==> 0 < old(self)@.rooms.len(),
            r is None ==> final(self)@ == old(self)@,
            r matches Some(s) ==> exists|k: int|
                {
                    &&& 0 <= k < old(self)@.rooms.len()
                    &&& s.room == #[trigger] old(self)@.rooms[k]
                    &&& s.room.x + 1 <= s.x <= s.room.x + s.room.width - 2
                    &&& s.room.y + 1 <= s.y <= s.room.y + s.room.height - 2
                    &&& old(self)@.tile_at(s.x as int, s.y as int) == Tile::Floor
                    &&& old(self)@.object_step(final(self)@, k, s.x as int, s.y as int, tile)
                },
    {
        let n = self.rooms.len();
        if n == 0 {
            return None;
        }
        let k = exclusive_random(draw_bound(n)) as usize;
        let room = self.rooms[k];
        proof {
            assert(self@.rooms[k as int] == room);
        }
        let x = inclusive_random(room.x + 1, room.x + room.width - 2);
        let y = inclusive_random(room.y + 1, room.y + room.height - 2);
        if self.get_tile(x, y) != Tile::Floor {
            return None;
        }
        self.place_object_at(tile, k, x, y)
    }

    /// Builds the dungeon: a seed room at the centre of the grid, then up to
    /// `maxfeatures - 1` features attached to pending seams, stopping early
    /// when none will attach; then an exit and an entrance, each in a free
    /// room of its own.
    #[verifier::rlimit(60)]
    #[verifier::spinoff_prover]
    pub fn generate(&mut self, maxfeatures: isize) -> (rep: GenerationReport)
        requires
            old(self)@.wf(),
        ensures
            old(self)@.keeps_used(final(self)@),
            final(self)@.wf(),
            final(self)@.width == old(self)@.width,
            final(self)@.height == old(self)@.height,
            0 <= rep.features,
            rep.features == 0 || rep.features < maxfeatures,
            final(self)@.placed.len() == old(self)@.placed.len() + (if rep.first_room {
                1int
            } else {
                0
            }) + rep.features,
            rep.exit matches Some(s) ==> s.room.contains(s.x as int, s.y as int)
                && final(self)@.tile_at(s.x as int, s.y as int) == Tile::Exit,
            rep.entrance matches Some(s) ==> s.room.contains(s.x as int, s.y as int)
                && final(self)@.tile_at(s.x as int, s.y as int) == Tile::Entrance,
            rep.exit matches Some(e) ==> rep.entrance matches Some(n) ==> e.room != n.room && (e.x
                != n.x || e.y != n.y),
            rep.entrance is Some ==> rep.exit is Some,
            rep.exit matches Some(s) ==> final(self)@.placed.contains(s.room) && s.room.x + 1 <= s.x
                <= s.room.x + s.room.width - 2 && s.room.y + 1 <= s.y <= s.room.y + s.room.height - 2,
            rep.entrance matches Some(s) ==> final(self)@.placed.contains(s.room) && s.room.x + 1
                <= s.x <= s.room.x + s.room.width - 2 && s.room.y + 1 <= s.y <= s.room.y
                + s.room.height - 2,
            forall|a: int, b: int|
                #[trigger] final(self)@.tile_at(a, b) == Tile::Exit && old(self)@.tile_at(a, b)
                    != Tile::Exit ==> (rep.exit matches Some(s) && s.x == a && s.y == b),
            forall|a: int, b: int|
                #[trigger] final(self)@.tile_at(a, b) == Tile::Entrance && old(self)@.tile_at(a, b)
                    != Tile::Entrance ==> (rep.entrance matches Some(s) && s.x == a && s.y == b),
            maxfeatures <= 1 ==> forall|a: int, b: int|
                #[trigger] final(self)@.tile_at(a, b) != old(self)@.tile_at(a, b) ==> {
                    ||| final(self)@.tile_at(a, b) == Tile::Floor
                    ||| final(self)@.tile_at(a, b) == Tile::Wall
                    ||| final(self)@.tile_at(a, b) == Tile::Exit
                    ||| final(self)@.tile_at(a, b) == Tile::Entrance
                },
            maxfeatures <= 1 && rep.first_room ==> final(self)@.exits.len() == old(self)@.exits.len()
                + 4,
            !rep.first_room && old(self)@.exits.len() == 0 && old(self)@.rooms.len() == 0
                ==> final(self)@ == old(self)@,
            forall|a: int, b: int|
                #[trigger] final(self)@.tile_at(a, b) != old(self)@.tile_at(a, b) ==> {
                    ||| (rep.exit matches Some(s) && s.x == a && s.y == b)
                    ||| (rep.entrance matches Some(s) && s.x == a && s.y == b)
                    ||| exists|i: int|
                        old(self)@.placed.len() <= i < final(self)@.placed.len()
                            && (#[trigger] final(self)@.placed[i]).covers(a, b)
                },
            rep.exit is None ==> final(self)@.rooms.len() == 0,
            rep.entrance is None ==> final(self)@.rooms.len() == 0,
            rep.first_room ==> rep.exit is Some,
            !rep.first_room && old(self)@.exits.len() == 0 ==> rep.features == 0,
            exists|d: Dir, w: int, h: int|
                {
                    &&& MIN_ROOM <= w <= MAX_ROOM
                    &&& MIN_ROOM <= h <= MAX_ROOM
                    &&& rep.first_room == old(self)@.can_place(
                        #[trigger] room_at(old(self)@.width / 2, old(self)@.height / 2, d, w, h),
                    )
                    &&& rep.first_room ==> final(self)@.placed[old(self)@.placed.len() as int]
                        == room_at(old(self)@.width / 2, old(self)@.height / 2, d, w, h)
                },
            (forall|d: Dir, w: int, h: int|
                MIN_ROOM <= w <= MAX_ROOM && MIN_ROOM <= h <= MAX_ROOM ==> old(self)@.can_place(
                    #[trigger] room_at(old(self)@.width / 2, old(self)@.height / 2, d, w, h),
                )) ==> rep.first_room && rep.exit is Some,
    {
        let ghost start = self@;
        let seed_dir = Dir::get_random_dir();
        let first_room = self.make_room(self.width / 2, self.height / 2, seed_dir, true);
        let ghost base = self@.placed.len();
        proof {
            let (w, h) = choose|w: int, h: int| #[trigger]
                start.room_outcome(self@, start.width / 2, start.height / 2, seed_dir, true, w, h, first_room);
            assert(start.room_outcome(
                self@,
                start.width / 2,
                start.height / 2,
                seed_dir,
                true,
                (w, h).0,
                (w, h).1,
                first_room,
            ));
        }
        let ghost size: (int, int) = choose|wh: (int, int)| #[trigger]
            start.room_outcome(self@, start.width / 2, start.height / 2, seed_dir, true, wh.0, wh.1, first_room);
        let ghost seed_room = room_at(start.width / 2, start.height / 2, seed_dir, size.0, size.1);
        let ghost after_seed = self@;
        proof {
            if first_room {
                assert(room_seams(seed_room, seed_dir, true).len() == 4);
            }
        }
        let mut features: isize = 0;
        let mut i: isize = 1;
        while i < maxfeatures
            invariant
                self@.wf(),
                self@.width == start.width,
                self@.height == start.height,
                1 <= i,
                i == 1 || i <= maxfeatures,
                features == i - 1,
                self@.placed.len() == base + features,
                first_room ==> self@.rooms.len() >= 1,
                start.keeps_used(self@),
                start.only_builds(self@),
                start.changes_within(self@),
                self@.placed.len() >= start.placed.len(),
                i == 1 ==> self@ == after_seed,
                !first_room ==> after_seed == start,
                first_room ==> start.room_step(after_seed, seed_room, seed_dir, true),
                first_room ==> self@.placed[start.placed.len() as int] == seed_room,
                MIN_ROOM <= size.0 <= MAX_ROOM && MIN_ROOM <= size.1 <= MAX_ROOM,
                first_room == start.can_place(seed_room),
                first_room ==> base == start.placed.len() + 1,
                self@.placed.len() >= base,
                !first_room && start.exits.len() == 0 ==> self@ == start && features == 0,
            decreases maxfeatures - i,
        {
            let ghost prev = self@;
            if !self.has_exits() {
                break;
            }
            proof {
                assert forall|a: int, b: int|
                    #[trigger] self@.tile_at(a, b) != start.tile_at(a, b) implies exists|k: int|
                        start.placed.len() <= k < self@.placed.len() && (#[trigger] self@.placed[k]).covers(
                            a,
                            b,
                        ) by {
                    if self@.tile_at(a, b) != prev.tile_at(a, b) {
                        let k = choose|k: int|
                            prev.placed.len() <= k < self@.placed.len() && (#[trigger] self@.placed[k]).covers(
                                a,
                                b,
                            );
                    } else {
                        assert(prev.tile_at(a, b) != start.tile_at(a, b));
                        let k = choose|k: int|
                            start.placed.len() <= k < prev.placed.len() && (#[trigger] prev.placed[k]).covers(
                                a,
                                b,
                            );
                        assert(self@.placed[k] == prev.placed[k]);
                    }
                }
            }
            features = features + 1;
            i = i + 1;
        }
        let ghost s0 = self@;
        proof {
            if first_room {
                assert(s0.rooms.len() >= 1);
            }
        }
        let exit = self.place_object(Tile::Exit);
        let ghost s1 = self@;
        let entrance = self.place_object(Tile::Entrance);
        let ghost s2 = self@;
        proof {
            if let Some(e) = exit {
                assert(s0.placed.contains(e.room));
                let k1 = choose|k: int|
                    {
                        &&& 0 <= k < s0.rooms.len()
                        &&& e.room == #[trigger] s0.rooms[k]
                        &&& e.room.x + 1 <= e.x <= e.room.x + e.room.width - 2
                        &&& e.room.y + 1 <= e.y <= e.room.y + e.room.height - 2
                        &&& s0.tile_at(e.x as int, e.y as int) == Tile::Floor
                        &&& s0.object_step(s1, k, e.x as int, e.y as int, Tile::Exit)
                    };
                assert(s1.tile_at(e.x as int, e.y as int) == Tile::Exit);
                if let Some(n) = entrance {
                    let k2 = choose|k: int|
                        {
                            &&& 0 <= k < s1.rooms.len()
                            &&& n.room == #[trigger] s1.rooms[k]
                            &&& n.room.x + 1 <= n.x <= n.room.x + n.room.width - 2
                            &&& n.room.y + 1 <= n.y <= n.room.y + n.room.height - 2
                            &&& s1.tile_at(n.x as int, n.y as int) == Tile::Floor
                            &&& s1.object_step(s2, k, n.x as int, n.y as int, Tile::Entrance)
                        };
                    let k0 = if k2 < k1 {
                        k2
                    } else {
                        k2 + 1
                    };
                    assert(n.room == s0.rooms[k0]);
                    assert(s0.placed.contains(n.room));
                    assert(s2.tile_at(e.x as int, e.y as int) == Tile::Exit);
                }
            }
        }
        proof {
            assert forall|a: int, b: int|
                #[trigger] s2.tile_at(a, b) == Tile::Exit && start.tile_at(a, b)
                    != Tile::Exit implies (exit matches Some(e) && e.x == a && e.y == b) by {
                assert(s0.tile_at(a, b) == start.tile_at(a, b) || s0.tile_at(a, b).is_structure());
            }
            assert forall|a: int, b: int|
                #[trigger] s2.tile_at(a, b) == Tile::Entrance && start.tile_at(a, b)
                    != Tile::Entrance implies (entrance matches Some(e) && e.x == a && e.y == b) by {
                assert(s0.tile_at(a, b) == start.tile_at(a, b) || s0.tile_at(a, b).is_structure());
            }
            if maxfeatures <= 1 {
                assert(s0 == after_seed);
                assert forall|a: int, b: int|
                    #[trigger] s2.tile_at(a, b) != start.tile_at(a, b) implies {
                        ||| s2.tile_at(a, b) == Tile::Floor
                        ||| s2.tile_at(a, b) == Tile::Wall
                        ||| s2.tile_at(a, b) == Tile::Exit
                        ||| s2.tile_at(a, b) == Tile::Entrance
                    } by {
                    assert(s0.tile_at(a, b) == start.tile_at(a, b) || s0.tile_at(a, b) == start.stamped(seed_room, Tile::Floor, a, b));
                }
            }
            assert(MIN_ROOM <= size.0 <= MAX_ROOM && MIN_ROOM <= size.1 <= MAX_ROOM);
            assert(first_room == start.can_place(seed_room));
        }
        GenerationReport { first_room, features, exit, entrance }
    }

    /// The character for each tile, as a debug dump draws it.
    pub fn get_tile_icon(tile: Tile) -> (c: char)
        ensures
            c == icon(tile),
    {
        match tile {
            Tile::Floor => '.',
            Tile::Corridor => ',',
            Tile::Wall => '#',
            Tile::ClosedDoor => '+',
            Tile::OpenDoor => '-',
            Tile::Exit => '>',
            Tile::Entrance => '<',
            Tile::Unused => ' ',
        }
    }

    /// Row `y` of the grid as a text dump draws it, one character per cell.
    pub fn row_icons(&self, y: isize) -> (r: Vec<char>)
        requires
            self@.wf(),
        ensures
            r@.len() == self@.width,
            forall|i: int| 0 <= i < r@.len() ==> r@[i] == icon(#[trigger] self@.tile_at(i, y as int)),
    {
        let mut r: Vec<char> = Vec::new();
        let mut x: isize = 0;
        while x < self.width
            invariant
                self@.wf(),
                0 <= x <= self@.width,
                r@.len() == x,
                forall|i: int| 0 <= i < x ==> r@[i] == icon(#[trigger] self@.tile_at(i, y as int)),
            decreases self@.width - x,
        {
            r.push(Dungeon::get_tile_icon(self.get_tile(x, y)));
            x = x + 1;
        }
        r
    }

    /// The rooms still free to receive an object.
    pub fn rooms(&self) -> (r: &Vec<Rect>)
        ensures
            r@ == self@.rooms,
    {
        &self.rooms
    }

    /// The pending seams.
    pub fn exits(&self) -> (r: &Vec<Rect>)
        ensures
            r@ == self@.exits,
    {
        &self.exits
    }
}

} // verus!
