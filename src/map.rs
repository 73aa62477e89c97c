use vstd::prelude::*;
use vstd::arithmetic::div_mod::lemma_fundamental_div_mod_converse;
use specs::Entity;
use crate::rect::Rect;

verus! {

#[verifier::external_type_specification]
#[verifier::external_body]
pub struct ExEntity(Entity);

/// Width of a generated level.
pub const MAPWIDTH: usize = 80;
/// Height of a generated level.
pub const MAPHEIGHT: usize = 50;

/// The kind of a tile.
#[derive(Clone, Copy, Debug, PartialEq, Eq, Structural)]
pub enum TileType {
    Wall,
    Floor,
}

/// A rectangular grid of tiles, stored row-major, with per-tile state.
pub struct TileMap {
    pub tiles: Vec<TileType>,
    pub rooms: Vec<Rect>,
    pub width: i32,
    pub height: i32,
    /// Tiles seen at some point.
    pub revealed_tiles: Vec<bool>,
    /// Tiles seen this turn.
    pub visible_tiles: Vec<bool>,
    /// Tiles that stop movement, as of the last `populate_blocked`.
    pub blocked: Vec<bool>,
    /// Entities standing on each tile, rebuilt every turn.
    pub tile_content: Vec<Vec<Entity>>,
}

/// `y * w + x` lies in `0..h * w` when `(x, y)` lies in the `w` by `h` grid.
pub proof fn lemma_index_in_grid(x: int, y: int, w: int, h: int)
    requires
        0 <= x < w,
        0 <= y < h,
    ensures
        0 <= y * w + x < h * w,
        y * w + x < w * h,
        0 <= y * w,
{
    assert(0 <= y * w + x < h * w && y * w + x < w * h) by (nonlinear_arith)
        requires
            0 <= x < w,
            0 <= y < h,
    ;
    assert(0 <= y * w) by (nonlinear_arith)
        requires
            0 <= x < w,
            0 <= y < h,
    ;
}

/// A tile count of `i32` extents fits an `i64`.
pub proof fn lemma_count_fits_i64(w: int, h: int)
    requires
        0 < w <= i32::MAX,
        0 < h <= i32::MAX,
    ensures
        w * h <= i64::MAX,
{
    assert(w * h <= i64::MAX) by (nonlinear_arith)
        requires
            0 < w <= i32::MAX,
            0 < h <= i32::MAX,
    ;
}

/// Decomposing the index `y * width + x` of a tile gives back its coordinates.
pub proof fn lemma_xy_idx_round_trip(x: int, y: int, width: int)
    requires
        0 <= x < width,
    ensures
        (y * width + x) % width == x,
        (y * width + x) / width == y,
{
    lemma_fundamental_div_mod_converse(y * width + x, width, y, x);
}

/// `after` is `before` with every tile whose index satisfies `region` set to
/// floor, and no other change.
pub open spec fn painted(before: Seq<TileType>, after: Seq<TileType>, region: spec_fn(int) -> bool) -> bool {
    &&& after.len() == before.len()
    &&& forall|i: int|
        0 <= i < before.len() ==> #[trigger] after[i] == if region(i) {
            TileType::Floor
        } else {
            before[i]
        }
}

/// Index of `(x, y)` in a row-major grid of width `w`.
pub open spec fn grid_index(w: int, x: int, y: int) -> int {
    y * w + x
}

/// Whether `i` is the index of `(x, y)`, in a grid of width `w`, for some row
/// `y` in `lo..=hi`.
pub open spec fn in_column(w: int, i: int, x: int, lo: int, hi: int) -> bool {
    exists|y: int| lo <= y <= hi && i == #[trigger] grid_index(w, x, y)
}

pub open spec fn min_int(a: int, b: int) -> int {
    if a <= b { a } else { b }
}

pub open spec fn max_int(a: int, b: int) -> int {
    if a <= b { b } else { a }
}

/// A paint is fixed by its region's members alone.
pub proof fn lemma_paint_same_region(
    a: Seq<TileType>,
    b: Seq<TileType>,
    r1: spec_fn(int) -> bool,
    r2: spec_fn(int) -> bool,
)
    requires
        painted(a, b, r1),
        forall|i: int| 0 <= i < a.len() ==> #[trigger] r1(i) == r2(i),
    ensures
        painted(a, b, r2),
{
    assert forall|i: int| 0 <= i < a.len() implies #[trigger] b[i] == if r2(i) {
        TileType::Floor
    } else {
        a[i]
    } by {
        assert(r1(i) == r2(i));
    }
}

/// Composing two paints sets to floor the union of their regions.
pub proof fn lemma_paint_compose(
    a: Seq<TileType>,
    b: Seq<TileType>,
    c: Seq<TileType>,
    r1: spec_fn(int) -> bool,
    r2: spec_fn(int) -> bool,
)
    requires
        painted(a, b, r1),
        painted(b, c, r2),
    ensures
        painted(a, c, |i: int| r1(i) || r2(i)),
{
    assert forall|i: int| 0 <= i < a.len() implies #[trigger] c[i] == if r1(i) || r2(i) {
        TileType::Floor
    } else {
        a[i]
    } by {
        assert(b[i] == if r1(i) { TileType::Floor } else { a[i] });
    }
}

impl TileMap {
    /// Number of tiles.
    pub open spec fn count(self) -> int {
        self.width * self.height
    }

    /// Positive extents, an indexable tile count, and one entry per tile in
    /// every per-tile array.
    pub open spec fn wf(self) -> bool {
        &&& 0 < self.width
        &&& 0 < self.height
        &&& self.count() <= usize::MAX
        &&& self.tiles@.len() == self.count()
        &&& self.revealed_tiles@.len() == self.count()
        &&& self.visible_tiles@.len() == self.count()
        &&& self.blocked@.len() == self.count()
        &&& self.tile_content@.len() == self.count()
    }

    pub open spec fn in_grid(self, x: int, y: int) -> bool {
        0 <= x < self.width && 0 <= y < self.height
    }

    pub open spec fn idx_of(self, x: int, y: int) -> int {
        grid_index(self.width as int, x, y)
    }

    /// Column of a tile index.
    pub open spec fn col(self, idx: int) -> int {
        idx % (self.width as int)
    }

    /// Row of a tile index.
    pub open spec fn row(self, idx: int) -> int {
        idx / (self.width as int)
    }

    pub open spec fn tile_at(self, x: int, y: int) -> TileType {
        self.tiles@[self.idx_of(x, y)]
    }

    /// Whether `(x, y)` lies on the outer ring of the grid.
    pub open spec fn on_border(self, x: int, y: int) -> bool {
        x == 0 || x == self.width - 1 || y == 0 || y == self.height - 1
    }

    /// Every tile of the outer ring is a wall.
    pub open spec fn border_is_wall(self) -> bool {
        forall|i: int|
            0 <= i < self.count() && #[trigger] self.on_border(self.col(i), self.row(i))
                ==> self.tiles@[i] == TileType::Wall
    }

    /// An all-wall grid of the given extents, with nothing revealed, visible,
    /// blocked or occupied, and no rooms.
    pub fn new(width: i32, height: i32) -> (r: TileMap)
        requires
            0 < width,
            0 < height,
            width * height <= usize::MAX,
        ensures
            r.wf(),
            r.width == width,
            r.height == height,
            r.rooms@.len() == 0,
            forall|i: int| 0 <= i < r.count() ==> #[trigger] r.tiles@[i] == TileType::Wall,
            forall|i: int| 0 <= i < r.count() ==> !#[trigger] r.revealed_tiles@[i],
            forall|i: int| 0 <= i < r.count() ==> !#[trigger] r.visible_tiles@[i],
            forall|i: int| 0 <= i < r.count() ==> !#[trigger] r.blocked@[i],
            forall|i: int| 0 <= i < r.count() ==> (#[trigger] r.tile_content@[i])@.len() == 0,
    {
        let count: usize = width as usize * height as usize;
        let mut tiles: Vec<TileType> = Vec::new();
        let mut revealed_tiles: Vec<bool> = Vec::new();
        let mut visible_tiles: Vec<bool> = Vec::new();
        let mut blocked: Vec<bool> = Vec::new();
        let mut tile_content: Vec<Vec<Entity>> = Vec::new();
        let mut i: usize = 0;
        while i < count
            invariant
                count == width * height,
                i <= count,
                tiles@.len() == i,
                revealed_tiles@.len() == i,
                visible_tiles@.len() == i,
                blocked@.len() == i,
                tile_content@.len() == i,
                forall|k: int| 0 <= k < i ==> #[trigger] tiles@[k] == TileType::Wall,
                forall|k: int| 0 <= k < i ==> !#[trigger] revealed_tiles@[k],
                forall|k: int| 0 <= k < i ==> !#[trigger] visible_tiles@[k],
                forall|k: int| 0 <= k < i ==> !#[trigger] blocked@[k],
                forall|k: int| 0 <= k < i ==> (#[trigger] tile_content@[k])@.len() == 0,
            decreases count - i,
        {
            tiles.push(TileType::Wall);
            revealed_tiles.push(false);
            visible_tiles.push(false);
            blocked.push(false);
            tile_content.push(Vec::new());
            i = i + 1;
        }
        TileMap {
            tiles,
            rooms: Vec::new(),
            width,
            height,
            revealed_tiles,
            visible_tiles,
            blocked,
            tile_content,
        }
    }

    /// The index of the tile at `(x, y)`; distinct coordinates get distinct
    /// indices.
    pub fn xy_idx(&self, x: i32, y: i32) -> (r: usize)
        requires
            self.wf(),
            self.in_grid(x as int, y as int),
        ensures
            r == self.idx_of(x as int, y as int),
            r < self.count(),
            self.col(r as int) == x,
            self.row(r as int) == y,
    {
        proof {
            lemma_index_in_grid(x as int, y as int, self.width as int, self.height as int);
            lemma_xy_idx_round_trip(x as int, y as int, self.width as int);
        }
        (y as usize * self.width as usize) + x as usize
    }

    /// The coordinates `(idx % width, idx / width)` of the tile at `idx`.
    pub fn idx_xy(&self, idx: usize) -> (r: (i32, i32))
        requires
            self.wf(),
            idx < self.count(),
        ensures
            r.0 == self.col(idx as int),
            r.1 == self.row(idx as int),
            self.in_grid(r.0 as int, r.1 as int),
            self.idx_of(r.0 as int, r.1 as int) == idx,
    {
        let w: usize = self.width as usize;
        let x: usize = idx % w;
        let y: usize = idx / w;
        proof {
            vstd::arithmetic::div_mod::lemma_fundamental_div_mod(idx as int, w as int);
            vstd::arithmetic::div_mod::lemma_div_pos_is_pos(idx as int, w as int);
            let (wi, hi, ii, yi) = (w as int, self.height as int, idx as int, y as int);
            vstd::arithmetic::mul::lemma_mul_is_commutative(wi, yi);
            assert(yi < hi) by (nonlinear_arith)
                requires
                    ii == wi * yi + ii % wi,
                    0 <= ii % wi,
                    ii < wi * hi,
                    0 < wi,
            ;
        }
        (x as i32, y as i32)
    }

    /// Indices strictly inside `room`: columns `x1 + 1 ..= x2`, rows `y1 + 1 ..= y2`.
    pub open spec fn room_interior(self, room: Rect) -> spec_fn(int) -> bool {
        |i: int|
            room.x1 < self.col(i) <= room.x2 && room.y1 < self.row(i) <= room.y2
    }

    /// Indices `y * width + x` for `x` between `x1` and `x2`, both included,
    /// that lie in `1..count`.
    pub open spec fn horizontal_run(self, x1: int, x2: int, y: int) -> spec_fn(int) -> bool {
        |i: int|
            0 < i < self.count() && y * self.width + min_int(x1, x2) <= i <= y * self.width
                + max_int(x1, x2)
    }

    /// Indices `y * width + x` for `y` between `y1` and `y2`, both included,
    /// that lie in `1..count`.
    pub open spec fn vertical_run(self, y1: int, y2: int, x: int) -> spec_fn(int) -> bool {
        |i: int|
            0 < i < self.count() && in_column(self.width as int, i, x, min_int(y1, y2), max_int(y1, y2))
    }

    /// Sets the interior of `room` to floor.
    pub fn apply_room_to_map(&mut self, room: &Rect)
        requires
            old(self).wf(),
            0 <= room.x1 <= room.x2 < old(self).width,
            0 <= room.y1 <= room.y2 < old(self).height,
        ensures
            final(self).wf(),
            final(self).same_but_tiles(*old(self)),
            painted(old(self).tiles@, final(self).tiles@, old(self).room_interior(*room)),
    {
        let ghost before = self.tiles@;
        let ghost w = self.width as int;
        let mut y: i32 = room.y1 + 1;
        while y <= room.y2
            invariant
                self.wf(),
                self.same_but_tiles(*old(self)),
                before == old(self).tiles@,
                w == self.width,
                0 <= room.x1 <= room.x2 < self.width,
                0 <= room.y1 <= room.y2 < self.height,
                room.y1 + 1 <= y <= room.y2 + 1,
                painted(before, self.tiles@, |i: int|
                    room.x1 < self.col(i) <= room.x2 && room.y1 < self.row(i) < y),
            decreases room.y2 + 1 - y,
        {
            let mut x: i32 = room.x1 + 1;
            while x <= room.x2
                invariant
                    self.wf(),
                    self.same_but_tiles(*old(self)),
                    before == old(self).tiles@,
                    w == self.width,
                    0 <= room.x1 <= room.x2 < self.width,
                    0 <= room.y1 <= room.y2 < self.height,
                    room.y1 + 1 <= y <= room.y2,
                    room.x1 + 1 <= x <= room.x2 + 1,
                    painted(before, self.tiles@, |i: int|
                        (room.x1 < self.col(i) <= room.x2 && room.y1 < self.row(i) < y)
                        || (self.row(i) == y && room.x1 < self.col(i) < x)),
                decreases room.x2 + 1 - x,
            {
                let idx = self.xy_idx(x, y);
                self.tiles.set(idx, TileType::Floor);
                proof {
                    assert forall|i: int| 0 <= i < self.count() && i != idx implies
                        !(self.col(i) == x && self.row(i) == y) by {
                        vstd::arithmetic::div_mod::lemma_fundamental_div_mod(i, w);
                        vstd::arithmetic::mul::lemma_mul_is_commutative(w, self.row(i));
                    }
                }
                x = x + 1;
            }
            y = y + 1;
        }
    }


    /// Everything but the tiles is as in `other`.
    pub open spec fn same_but_tiles(self, other: TileMap) -> bool {
        &&& self.same_but_layout(other)
        &&& self.rooms == other.rooms
    }

    /// Extents and per-tile state are as in `other`; tiles and rooms may differ.
    pub open spec fn same_but_layout(self, other: TileMap) -> bool {
        &&& self.width == other.width
        &&& self.height == other.height
        &&& self.revealed_tiles == other.revealed_tiles
        &&& self.visible_tiles == other.visible_tiles
        &&& self.blocked == other.blocked
        &&& self.tile_content == other.tile_content
    }

    /// Sets to floor the tiles of row `y` from column `min(x1, x2)` to column
    /// `max(x1, x2)`, skipping each whose index falls outside `1..count`.
    pub fn apply_horizontal_tunnel(&mut self, x1: i32, x2: i32, y: i32)
        requires
            old(self).wf(),
        ensures
            final(self).wf(),
            final(self).same_but_tiles(*old(self)),
            painted(old(self).tiles@, final(self).tiles@, old(self).horizontal_run(x1 as int, x2 as int, y as int)),
    {
        let ghost before = self.tiles@;
        proof {
            lemma_count_fits_i64(self.width as int, self.height as int);
        }
        let count: i64 = self.tiles.len() as i64;
        proof {
            let w = self.width as int;
            assert(-0x8000_0000 * w <= y * w <= 0x7fff_ffff * w) by (nonlinear_arith)
                requires
                    -0x8000_0000 <= y <= 0x7fff_ffff,
                    0 < w,
            ;
        }
        let base: i64 = y as i64 * self.width as i64;
        assert(-0x4000_0000_0000_0000 <= base <= 0x4000_0000_0000_0000);
        let lo: i64 = if x1 <= x2 { x1 as i64 } else { x2 as i64 };
        let hi: i64 = if x1 <= x2 { x2 as i64 } else { x1 as i64 };
        let mut x: i64 = lo;
        while x <= hi
            invariant
                self.wf(),
                self.same_but_tiles(*old(self)),
                before == old(self).tiles@,
                count == self.count(),
                base == y * self.width,
                -0x4000_0000_0000_0000 <= base <= 0x4000_0000_0000_0000,
                lo == min_int(x1 as int, x2 as int),
                hi == max_int(x1 as int, x2 as int),
                lo <= x <= hi + 1,
                painted(before, self.tiles@, |i: int| 0 < i < count && base + lo <= i < base + x),
            decreases hi + 1 - x,
        {
            let idx: i64 = base + x;
            if idx > 0 && idx < count {
                self.tiles.set(idx as usize, TileType::Floor);
            }
            x = x + 1;
        }
    }

    /// Sets to floor the tiles of column `x` from row `min(y1, y2)` to row
    /// `max(y1, y2)`, skipping each whose index falls outside `1..count`.
    pub fn apply_vertical_tunnel(&mut self, y1: i32, y2: i32, x: i32)
        requires
            old(self).wf(),
        ensures
            final(self).wf(),
            final(self).same_but_tiles(*old(self)),
            painted(old(self).tiles@, final(self).tiles@, old(self).vertical_run(y1 as int, y2 as int, x as int)),
    {
        let ghost before = self.tiles@;
        proof {
            lemma_count_fits_i64(self.width as int, self.height as int);
        }
        let count: i64 = self.tiles.len() as i64;
        let w: i64 = self.width as i64;
        let lo: i64 = if y1 <= y2 { y1 as i64 } else { y2 as i64 };
        let hi: i64 = if y1 <= y2 { y2 as i64 } else { y1 as i64 };
        let mut y: i64 = lo;
        while y <= hi
            invariant
                self.wf(),
                self.same_but_tiles(*old(self)),
                before == old(self).tiles@,
                count == self.count(),
                w == self.width,
                lo == min_int(y1 as int, y2 as int),
                hi == max_int(y1 as int, y2 as int),
                lo <= y <= hi + 1,
                painted(before, self.tiles@, |i: int| 0 < i < count && in_column(w as int, i, x as int, lo as int, y - 1)),
            decreases hi + 1 - y,
        {
            proof {
                assert(-0x8000_0000 * w <= y * w <= 0x7fff_ffff * w) by (nonlinear_arith)
                    requires -0x8000_0000 <= y <= 0x7fff_ffff, 0 < w;
            }
            let idx: i64 = y * w + x as i64;
            let ghost cur = self.tiles@;
            if idx > 0 && idx < count {
                self.tiles.set(idx as usize, TileType::Floor);
            }
            proof {
                assert forall|i: int| 0 <= i < count implies #[trigger] self.tiles@[i] == if 0 < i
                    < count && in_column(w as int, i, x as int, lo as int, y as int) {
                    TileType::Floor
                } else {
                    before[i]
                } by {
                    let prev = in_column(w as int, i, x as int, lo as int, y - 1);
                    assert(cur[i] == if 0 < i < count && prev { TileType::Floor } else { before[i] });
                    if in_column(w as int, i, x as int, lo as int, y as int) {
                        let yy = choose|yy: int| lo <= yy <= y && i == #[trigger] grid_index(w as int, x as int, yy);
                        if yy == y {
                            assert(i == idx);
                        } else {
                            assert(prev);
                        }
                    }
                    if prev {
                        let yy = choose|yy: int| lo <= yy <= y - 1 && i == #[trigger] grid_index(w as int, x as int, yy);
                        assert(in_column(w as int, i, x as int, lo as int, y as int));
                    }
                    if i == idx {
                        assert(i == grid_index(w as int, x as int, y as int));
                        assert(in_column(w as int, i, x as int, lo as int, y as int));
                    }
                }
            }
            y = y + 1;
        }
    }

}

} // verus!
