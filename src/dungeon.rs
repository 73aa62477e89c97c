use vstd::prelude::*;
use vstd::arithmetic::div_mod::lemma_fundamental_div_mod_converse;
use crate::map::{TileMap, TileType, painted, grid_index, in_column, min_int, max_int, lemma_index_in_grid, lemma_paint_compose, lemma_paint_same_region};
use crate::rect::Rect;
use crate::map::{MAPWIDTH, MAPHEIGHT};
use crate::random::{fresh_rng, draw_range, roll_one_die};
use rltk::RandomNumberGenerator;

verus! {

/// Attempts at placing a room while generating a level.
pub const MAX_ROOMS: i32 = 30;
/// Smallest side of a generated room.
pub const MIN_SIZE: i32 = 6;
/// Bound, not reached, on the side of a generated room.
pub const MAX_SIZE: i32 = 10;

/// One drawn room candidate: its corner, its size, and the direction of the
/// corridor that joins it to the room before it, should it be kept.
#[derive(Clone, Copy, Debug, PartialEq, Eq, Structural)]
pub struct RoomDraw {
    pub x: i32,
    pub y: i32,
    pub w: i32,
    pub h: i32,
    pub horizontal_first: bool,
}

impl RoomDraw {
    /// Within what the generator draws: each side in `MIN_SIZE..MAX_SIZE`,
    /// the corner in `0..=MAPWIDTH - w - 2` by `0..=MAPHEIGHT - h - 2`.
    pub open spec fn in_range(self) -> bool {
        &&& MIN_SIZE <= self.w < MAX_SIZE
        &&& MIN_SIZE <= self.h < MAX_SIZE
        &&& 0 <= self.x <= MAPWIDTH - self.w - 2
        &&& 0 <= self.y <= MAPHEIGHT - self.h - 2
    }

    pub open spec fn rect(self) -> Rect {
        Rect { x1: self.x, y1: self.y, x2: (self.x + self.w) as i32, y2: (self.y + self.h) as i32 }
    }
}

/// The rooms kept from `draws`, in order, each kept when it overlaps none
/// kept before it, with the corridor direction of each kept room.
pub open spec fn accepted(draws: Seq<RoomDraw>) -> (Seq<Rect>, Seq<bool>)
    decreases draws.len(),
{
    if draws.len() == 0 {
        (Seq::empty(), Seq::empty())
    } else {
        let (rooms, dirs) = accepted(draws.drop_last());
        let d = draws.last();
        if forall|k: int| 0 <= k < rooms.len() ==> !d.rect().overlaps(#[trigger] rooms[k]) {
            (rooms.push(d.rect()), dirs.push(d.horizontal_first))
        } else {
            (rooms, dirs)
        }
    }
}

impl TileMap {
    /// `room` keeps off the outer ring with its edges too, and is at least two
    /// tiles across each way, so that its center lies strictly inside it.
    pub open spec fn room_in_margin(self, room: Rect) -> bool {
        &&& 0 <= room.x1
        &&& room.x1 + 2 <= room.x2 <= self.width - 2
        &&& 0 <= room.y1
        &&& room.y1 + 2 <= room.y2 <= self.height - 2
    }

    /// The tile at `(x, y)` exists and is floor.
    pub open spec fn floor_at(self, x: int, y: int) -> bool {
        self.in_grid(x, y) && self.tile_at(x, y) == TileType::Floor
    }

    /// Row `y` is floor from column `x1` to column `x2`.
    pub open spec fn row_is_floor(self, x1: int, x2: int, y: int) -> bool {
        forall|x: int| min_int(x1, x2) <= x <= max_int(x1, x2) ==> #[trigger] self.floor_at(x, y)
    }

    /// Column `x` is floor from row `y1` to row `y2`.
    pub open spec fn column_is_floor(self, y1: int, y2: int, x: int) -> bool {
        forall|y: int| min_int(y1, y2) <= y <= max_int(y1, y2) ==> #[trigger] self.floor_at(x, y)
    }

    /// The centers of `a` and `b` are joined by floor along one horizontal and
    /// one vertical run, in either order.
    pub open spec fn joined(self, a: Rect, b: Rect) -> bool {
        let (px, py) = a.center_spec();
        let (nx, ny) = b.center_spec();
        (self.row_is_floor(px, nx, py) && self.column_is_floor(py, ny, nx)) || (
        self.column_is_floor(py, ny, px) && self.row_is_floor(px, nx, ny))
    }

    /// The tiles that an L-shaped corridor from the center of `a` to the center
    /// of `b` sets to floor: first along the row of `a`'s center, then along the
    /// column of `b`'s, or first along the column of `a`'s center, then along
    /// the row of `b`'s.
    pub open spec fn corridor(self, a: Rect, b: Rect, horizontal_first: bool) -> spec_fn(int) -> bool {
        let (px, py) = a.center_spec();
        let (nx, ny) = b.center_spec();
        if horizontal_first {
            |i: int| self.horizontal_run(px, nx, py)(i) || self.vertical_run(py, ny, nx)(i)
        } else {
            |i: int| self.vertical_run(py, ny, px)(i) || self.horizontal_run(px, nx, ny)(i)
        }
    }

    /// Whether room `k` of `rooms` carves tile `i`: its interior, and for
    /// `k >= 1` the corridor from room `k - 1`, laid in direction `dirs[k]`.
    pub open spec fn carved_by(self, rooms: Seq<Rect>, dirs: Seq<bool>, k: int, i: int) -> bool {
        self.room_interior(rooms[k])(i) || (k >= 1 && self.corridor(rooms[k - 1], rooms[k], dirs[k])(i))
    }

    /// Whether some room carves tile `i`, corridors laid in directions `dirs`.
    pub open spec fn in_layout(self, dirs: Seq<bool>, i: int) -> bool {
        exists|k: int| 0 <= k < self.rooms@.len() && #[trigger] self.carved_by(self.rooms@, dirs, k, i)
    }

    /// The floor tiles are exactly the room interiors and the corridors, each
    /// corridor laid in the direction that `dirs` gives for its room; every
    /// other tile is wall.
    pub open spec fn laid_out(self, dirs: Seq<bool>) -> bool {
        &&& dirs.len() == self.rooms@.len()
        &&& forall|i: int|
            0 <= i < self.count() ==> #[trigger] self.tiles@[i] == if self.in_layout(dirs, i) {
                TileType::Floor
            } else {
                TileType::Wall
            }
    }

    /// What a room-and-corridor level holds: a wall ring, rooms clear of the
    /// ring and of each other, each joined by a corridor to the one before it.
    pub open spec fn generated(self) -> bool {
        &&& self.wf()
        &&& self.border_is_wall()
        &&& forall|k: int| 0 <= k < self.rooms@.len() ==> self.room_in_margin(#[trigger] self.rooms@[k])
        &&& forall|j: int, k: int|
            0 <= j < k < self.rooms@.len() ==> !(#[trigger] self.rooms@[j]).overlaps(#[trigger] self.rooms@[k])
        &&& forall|k: int| 1 <= k < self.rooms@.len() ==> self.joined(self.rooms@[k - 1], #[trigger] self.rooms@[k])
    }

    /// Whether `room` overlaps none of the rooms placed so far.
    pub fn room_fits(&self, room: &Rect) -> (r: bool)
        ensures
            r == forall|k: int| 0 <= k < self.rooms@.len() ==> !room.overlaps(#[trigger] self.rooms@[k]),
    {
        let mut ok = true;
        let mut k: usize = 0;
        while k < self.rooms.len()
            invariant
                k <= self.rooms@.len(),
                ok == forall|j: int| 0 <= j < k ==> !room.overlaps(#[trigger] self.rooms@[j]),
            decreases self.rooms@.len() - k,
        {
            if room.intersect(&self.rooms[k]) {
                ok = false;
            }
            k = k + 1;
        }
        ok
    }

    /// Carves the interior of `room` and, after the first room, an L-shaped
    /// corridor from the center of the last room placed to the center of
    /// `room`; then appends `room` to the rooms.
    pub fn add_room(&mut self, room: Rect, horizontal_first: bool)
        requires
            old(self).generated(),
            old(self).room_in_margin(room),
            forall|k: int| 0 <= k < old(self).rooms@.len() ==> !room.overlaps(#[trigger] old(self).rooms@[k]),
        ensures
            final(self).generated(),
            final(self).same_but_layout(*old(self)),
            final(self).rooms@ == old(self).rooms@.push(room),
            painted(old(self).tiles@, final(self).tiles@, |i: int|
                old(self).room_interior(room)(i) || (old(self).rooms@.len() > 0 && old(self).corridor(
                    old(self).rooms@.last(), room, horizontal_first)(i))),
    {
        let ghost m0 = *self;
        let ghost interior = m0.room_interior(room);
        self.apply_room_to_map(&room);
        let ghost m1 = *self;
        proof {
            lemma_paint_keeps_border(m0, m1, interior);
            lemma_paint_keeps_joined(m0, m1, interior);
        }
        let ghost mut m3 = m1;
        if self.rooms.len() > 0 {
            let ghost prev = self.rooms@.last();
            let (new_x, new_y) = room.center();
            let (prev_x, prev_y) = self.rooms[self.rooms.len() - 1].center();
            let ghost (px, py, nx, ny) = (prev_x as int, prev_y as int, new_x as int, new_y as int);
            proof {
                assert(m0.room_in_margin(prev));
                lemma_runs_off_border(m1, px, nx, py, ny, nx, py);
                lemma_runs_off_border(m1, px, nx, py, ny, px, ny);
            }
            if horizontal_first {
                self.apply_horizontal_tunnel(prev_x, new_x, prev_y);
                let ghost m2 = *self;
                proof {
                    lemma_paint_keeps_border(m1, m2, m1.horizontal_run(px, nx, py));
                    lemma_paint_keeps_joined(m1, m2, m1.horizontal_run(px, nx, py));
                    lemma_runs_floor(m1, m2, px, nx, py, ny, nx, py);
                }
                self.apply_vertical_tunnel(prev_y, new_y, new_x);
                proof {
                    m3 = *self;
                    lemma_paint_keeps_border(m2, m3, m2.vertical_run(py, ny, nx));
                    lemma_paint_keeps_joined(m2, m3, m2.vertical_run(py, ny, nx));
                    lemma_runs_floor(m2, m3, px, nx, py, ny, nx, py);
                    assert(m3.joined(prev, room));
                    lemma_paint_compose(m1.tiles@, m2.tiles@, m3.tiles@, m1.horizontal_run(px, nx, py), m2.vertical_run(py, ny, nx));
                }
            } else {
                self.apply_vertical_tunnel(prev_y, new_y, prev_x);
                let ghost m2 = *self;
                proof {
                    lemma_paint_keeps_border(m1, m2, m1.vertical_run(py, ny, px));
                    lemma_paint_keeps_joined(m1, m2, m1.vertical_run(py, ny, px));
                    lemma_runs_floor(m1, m2, px, nx, py, ny, px, ny);
                }
                self.apply_horizontal_tunnel(prev_x, new_x, new_y);
                proof {
                    m3 = *self;
                    lemma_paint_keeps_border(m2, m3, m2.horizontal_run(px, nx, ny));
                    lemma_paint_keeps_joined(m2, m3, m2.horizontal_run(px, nx, ny));
                    lemma_runs_floor(m2, m3, px, nx, py, ny, px, ny);
                    assert(m3.joined(prev, room));
                    lemma_paint_compose(m1.tiles@, m2.tiles@, m3.tiles@, m1.vertical_run(py, ny, px), m2.horizontal_run(px, nx, ny));
                }
            }
            proof {
                let c = m0.corridor(prev, room, horizontal_first);
                lemma_paint_compose(m0.tiles@, m1.tiles@, m3.tiles@, interior, c);
            }
        } else {
            proof {
                lemma_paint_same_region(m0.tiles@, m1.tiles@, interior, |i: int|
                    interior(i) || (m0.rooms@.len() > 0 && m0.corridor(m0.rooms@.last(), room, horizontal_first)(i)));
            }
        }
        self.rooms.push(room);
        proof {
            lemma_paint_keeps_joined(m3, *self, |i: int| false);
            lemma_paint_keeps_border(m3, *self, |i: int| false);
            assert(self.wf());
            assert forall|j: int, k: int| 0 <= j < k < self.rooms@.len() implies
                !(#[trigger] self.rooms@[j]).overlaps(#[trigger] self.rooms@[k]) by {
                if k == m0.rooms@.len() {
                    assert(!room.overlaps(m0.rooms@[j]));
                }
            }
            assert forall|k: int| 1 <= k < self.rooms@.len() implies self.joined(self.rooms@[k - 1], #[trigger] self.rooms@[k]) by {
                if k < m0.rooms@.len() {
                    assert(m0.joined(m0.rooms@[k - 1], m0.rooms@[k]));
                    assert(m1.joined(m0.rooms@[k - 1], m0.rooms@[k]));
                    assert(m3.joined(m0.rooms@[k - 1], m0.rooms@[k]));
                } else {
                    assert(m3.joined(m0.rooms@.last(), room));
                }
            }
        }
    }


    /// Per-tile state as a fresh level has it: nothing revealed, visible,
    /// blocked or occupied.
    pub open spec fn fresh_state(self) -> bool {
        &&& forall|i: int| 0 <= i < self.count() ==> !#[trigger] self.revealed_tiles@[i]
        &&& forall|i: int| 0 <= i < self.count() ==> !#[trigger] self.visible_tiles@[i]
        &&& forall|i: int| 0 <= i < self.count() ==> !#[trigger] self.blocked@[i]
        &&& forall|i: int| 0 <= i < self.count() ==> (#[trigger] self.tile_content@[i])@.len() == 0
    }

    /// A room as the generator draws it: each side in `MIN_SIZE..MAX_SIZE`.
    pub open spec fn drawn_size(room: Rect) -> bool {
        MIN_SIZE <= room.x2 - room.x1 < MAX_SIZE && MIN_SIZE <= room.y2 - room.y1 < MAX_SIZE
    }

    /// The level that `draws` give: each candidate in turn is kept when it
    /// overlaps no room kept before it, and then carved with its corridor.
    pub fn rooms_and_corridors_from_draws(draws: &Vec<RoomDraw>) -> (r: TileMap)
        requires
            forall|k: int| 0 <= k < draws@.len() ==> (#[trigger] draws@[k]).in_range(),
        ensures
            r.generated(),
            r.fresh_state(),
            r.width == MAPWIDTH,
            r.height == MAPHEIGHT,
            r.rooms@ == accepted(draws@).0,
            r.laid_out(accepted(draws@).1),
    {
        let mut map = TileMap::new(MAPWIDTH as i32, MAPHEIGHT as i32);
        proof {
            assert forall|i: int| 0 <= i < map.count() && #[trigger] map.on_border(map.col(i), map.row(i))
                implies map.tiles@[i] == TileType::Wall by {}
            assert(map.laid_out(Seq::empty()));
            assert(draws@.subrange(0, 0).len() == 0);
        }
        let mut n: usize = 0;
        while n < draws.len()
            invariant
                forall|k: int| 0 <= k < draws@.len() ==> (#[trigger] draws@[k]).in_range(),
                n <= draws@.len(),
                map.generated(),
                map.fresh_state(),
                map.width == MAPWIDTH,
                map.height == MAPHEIGHT,
                map.rooms@ == accepted(draws@.subrange(0, n as int)).0,
                map.laid_out(accepted(draws@.subrange(0, n as int)).1),
            decreases draws@.len() - n,
        {
            let d = draws[n];
            let ghost prefix = draws@.subrange(0, n as int + 1);
            proof {
                assert(prefix.drop_last() == draws@.subrange(0, n as int));
                assert(prefix.last() == d);
            }
            let new_room = Rect::new(d.x, d.y, d.w, d.h);
            if map.room_fits(&new_room) {
                let ghost before = map;
                map.add_room(new_room, d.horizontal_first);
                proof {
                    lemma_add_room_layout(before, map, new_room, d.horizontal_first,
                        accepted(draws@.subrange(0, n as int)).1);
                }
            }
            n = n + 1;
        }
        proof {
            assert(draws@.subrange(0, draws@.len() as int) == draws@);
        }
        map
    }

    /// A level of `MAPWIDTH` by `MAPHEIGHT` tiles with up to `MAX_ROOMS` rooms,
    /// each drawn from `rng` and kept when it overlaps none placed before it.
    pub fn rooms_and_corridors_from(rng: &mut RandomNumberGenerator) -> (r: TileMap)
        ensures
            r.generated(),
            r.fresh_state(),
            r.width == MAPWIDTH,
            r.height == MAPHEIGHT,
            1 <= r.rooms@.len() <= MAX_ROOMS,
            forall|k: int| 0 <= k < r.rooms@.len() ==> Self::drawn_size(#[trigger] r.rooms@[k]),
            exists|dirs: Seq<bool>| r.laid_out(dirs),
            forall|k: int, i: int|
                0 <= k < r.rooms@.len() && 0 <= i < r.count() && #[trigger] r.room_interior(r.rooms@[k])(i)
                    ==> #[trigger] r.tiles@[i] == TileType::Floor,
    {
        let mut map = TileMap::new(MAPWIDTH as i32, MAPHEIGHT as i32);
        proof {
            assert forall|i: int| 0 <= i < map.count() && #[trigger] map.on_border(map.col(i), map.row(i))
                implies map.tiles@[i] == TileType::Wall by {}
            assert(map.laid_out(Seq::empty()));
        }
        let ghost mut dirs: Seq<bool> = Seq::empty();
        let mut attempt: i32 = 0;
        while attempt < MAX_ROOMS
            invariant
                map.generated(),
                map.fresh_state(),
                map.width == MAPWIDTH,
                map.height == MAPHEIGHT,
                0 <= attempt <= MAX_ROOMS,
                map.rooms@.len() <= attempt,
                attempt > 0 ==> map.rooms@.len() >= 1,
                map.laid_out(dirs),
                forall|k: int| 0 <= k < map.rooms@.len() ==> Self::drawn_size(#[trigger] map.rooms@[k]),
            decreases MAX_ROOMS - attempt,
        {
            let w = draw_range(rng, MIN_SIZE, MAX_SIZE);
            let h = draw_range(rng, MIN_SIZE, MAX_SIZE);
            let x = roll_one_die(rng, map.width - w - 1) - 1;
            let y = roll_one_die(rng, map.height - h - 1) - 1;
            let new_room = Rect::new(x, y, w, h);
            if map.room_fits(&new_room) {
                let horizontal_first = if map.rooms.len() > 0 {
                    draw_range(rng, 0, 2) == 1
                } else {
                    false
                };
                let ghost before = map;
                map.add_room(new_room, horizontal_first);
                proof {
                    lemma_add_room_layout(before, map, new_room, horizontal_first, dirs);
                    dirs = dirs.push(horizontal_first);
                    assert forall|k: int| 0 <= k < map.rooms@.len() implies Self::drawn_size(#[trigger] map.rooms@[k]) by {
                        if k < before.rooms@.len() {
                            assert(Self::drawn_size(before.rooms@[k]));
                        }
                    }
                }
            }
            attempt = attempt + 1;
        }
        proof {
            lemma_interiors_are_floor(map, dirs);
        }
        map
    }

    /// A level of `MAPWIDTH` by `MAPHEIGHT` tiles with up to `MAX_ROOMS` rooms,
    /// drawn from a generator seeded by the system.
    pub fn new_map_rooms_and_corridors() -> (r: TileMap)
        ensures
            r.generated(),
            r.fresh_state(),
            r.width == MAPWIDTH,
            r.height == MAPHEIGHT,
            1 <= r.rooms@.len() <= MAX_ROOMS,
            forall|k: int| 0 <= k < r.rooms@.len() ==> Self::drawn_size(#[trigger] r.rooms@[k]),
            exists|dirs: Seq<bool>| r.laid_out(dirs),
            forall|k: int, i: int|
                0 <= k < r.rooms@.len() && 0 <= i < r.count() && #[trigger] r.room_interior(r.rooms@[k])(i)
                    ==> #[trigger] r.tiles@[i] == TileType::Floor,
    {
        let mut rng = fresh_rng();
        Self::rooms_and_corridors_from(&mut rng)
    }

}

/// Carving depends on the extents alone, not on what the tiles hold.
proof fn lemma_carving_by_extents(m1: TileMap, m2: TileMap)
    requires
        m1.width == m2.width,
        m1.height == m2.height,
    ensures
        forall|rooms: Seq<Rect>, dirs: Seq<bool>, k: int, i: int|
            #[trigger] m1.carved_by(rooms, dirs, k, i) == m2.carved_by(rooms, dirs, k, i),
{
}

/// Adding a room, as `add_room` does, extends the layout by that room and the
/// direction of its corridor.
proof fn lemma_add_room_layout(m0: TileMap, m1: TileMap, room: Rect, horizontal_first: bool, dirs: Seq<bool>)
    requires
        m0.wf(),
        m1.same_but_layout(m0),
        m1.rooms@ == m0.rooms@.push(room),
        m0.laid_out(dirs),
        painted(m0.tiles@, m1.tiles@, |i: int|
            m0.room_interior(room)(i) || (m0.rooms@.len() > 0 && m0.corridor(
                m0.rooms@.last(), room, horizontal_first)(i))),
    ensures
        m1.laid_out(dirs.push(horizontal_first)),
{
    lemma_carving_by_extents(m0, m1);
    let n = m0.rooms@.len() as int;
    let d1 = dirs.push(horizontal_first);
    assert forall|i: int| 0 <= i < m1.count() implies #[trigger] m1.tiles@[i] == if m1.in_layout(d1, i) {
        TileType::Floor
    } else {
        TileType::Wall
    } by {
        let fresh = m0.room_interior(room)(i) || (n > 0 && m0.corridor(m0.rooms@.last(), room, horizontal_first)(i));
        assert(m1.tiles@[i] == if fresh { TileType::Floor } else { m0.tiles@[i] });
        if m0.in_layout(dirs, i) {
            let k = choose|k: int| 0 <= k < n && #[trigger] m0.carved_by(m0.rooms@, dirs, k, i);
            assert(m1.rooms@[k] == m0.rooms@[k]);
            if k >= 1 {
                assert(m1.rooms@[k - 1] == m0.rooms@[k - 1]);
            }
            assert(m1.carved_by(m1.rooms@, d1, k, i));
        }
        if fresh {
            assert(m1.carved_by(m1.rooms@, d1, n, i));
        }
        if m1.in_layout(d1, i) {
            let k = choose|k: int| 0 <= k < n + 1 && #[trigger] m1.carved_by(m1.rooms@, d1, k, i);
            if k < n {
                assert(m1.rooms@[k] == m0.rooms@[k]);
                if k >= 1 {
                    assert(m1.rooms@[k - 1] == m0.rooms@[k - 1]);
                }
                assert(m0.carved_by(m0.rooms@, dirs, k, i));
            } else {
                assert(fresh);
            }
        }
    }
}

/// Two maps of the same extents laid out from the same rooms in the same
/// directions have the same tiles: the rooms and the corridor directions fix
/// the whole level.
pub proof fn lemma_layout_determines_tiles(m1: TileMap, m2: TileMap, dirs: Seq<bool>)
    requires
        m1.wf(),
        m2.wf(),
        m1.width == m2.width,
        m1.height == m2.height,
        m1.rooms@ == m2.rooms@,
        m1.laid_out(dirs),
        m2.laid_out(dirs),
    ensures
        m1.tiles@ == m2.tiles@,
{
    lemma_carving_by_extents(m1, m2);
    assert forall|i: int| 0 <= i < m1.count() implies m1.tiles@[i] == m2.tiles@[i] by {
        if m1.in_layout(dirs, i) {
            let k = choose|k: int| 0 <= k < m1.rooms@.len() && #[trigger] m1.carved_by(m1.rooms@, dirs, k, i);
            assert(m2.carved_by(m2.rooms@, dirs, k, i));
        }
        if m2.in_layout(dirs, i) {
            let k = choose|k: int| 0 <= k < m2.rooms@.len() && #[trigger] m2.carved_by(m2.rooms@, dirs, k, i);
            assert(m1.carved_by(m1.rooms@, dirs, k, i));
        }
    }
    assert(m1.tiles@ =~= m2.tiles@);
}

/// The same draws give the same level: the same rooms, in the same order, and
/// the same tiles.
pub proof fn lemma_same_draws_same_level(m1: TileMap, m2: TileMap, draws: Seq<RoomDraw>)
    requires
        m1.wf(),
        m2.wf(),
        m1.width == m2.width,
        m1.height == m2.height,
        m1.rooms@ == accepted(draws).0,
        m2.rooms@ == accepted(draws).0,
        m1.laid_out(accepted(draws).1),
        m2.laid_out(accepted(draws).1),
    ensures
        m1.rooms@ == m2.rooms@,
        m1.tiles@ == m2.tiles@,
{
    lemma_layout_determines_tiles(m1, m2, accepted(draws).1);
}

/// A laid-out level without rooms is wall throughout.
pub proof fn lemma_no_rooms_all_wall(m: TileMap, dirs: Seq<bool>)
    requires
        m.laid_out(dirs),
        m.rooms@.len() == 0,
    ensures
        forall|i: int| 0 <= i < m.count() ==> #[trigger] m.tiles@[i] == TileType::Wall,
{
    assert forall|i: int| 0 <= i < m.count() implies #[trigger] m.tiles@[i] == TileType::Wall by {
        assert(!m.in_layout(dirs, i));
    }
}

/// In a laid-out level every room's interior is floor.
pub proof fn lemma_interiors_are_floor(m: TileMap, dirs: Seq<bool>)
    requires
        m.laid_out(dirs),
    ensures
        forall|k: int, i: int|
            0 <= k < m.rooms@.len() && 0 <= i < m.count() && #[trigger] m.room_interior(m.rooms@[k])(i)
                ==> #[trigger] m.tiles@[i] == TileType::Floor,
{
    assert forall|k: int, i: int|
        0 <= k < m.rooms@.len() && 0 <= i < m.count() && #[trigger] m.room_interior(m.rooms@[k])(i)
            implies #[trigger] m.tiles@[i] == TileType::Floor by {
        assert(m.carved_by(m.rooms@, dirs, k, i));
    }
}

/// A paint whose region avoids the outer ring keeps the ring wall.
proof fn lemma_paint_keeps_border(m1: TileMap, m2: TileMap, region: spec_fn(int) -> bool)
    requires
        m1.wf(),
        m2.width == m1.width,
        m2.height == m1.height,
        painted(m1.tiles@, m2.tiles@, region),
        m1.border_is_wall(),
        forall|i: int| 0 <= i < m1.count() && #[trigger] region(i) ==> !m1.on_border(m1.col(i), m1.row(i)),
    ensures
        m2.border_is_wall(),
{
    assert forall|i: int| 0 <= i < m2.count() && #[trigger] m2.on_border(m2.col(i), m2.row(i))
        implies m2.tiles@[i] == TileType::Wall by {
        assert(m1.on_border(m1.col(i), m1.row(i)));
    }
}

/// A paint keeps every floor tile floor, and so every joined pair joined.
proof fn lemma_paint_keeps_joined(m1: TileMap, m2: TileMap, region: spec_fn(int) -> bool)
    requires
        m1.wf(),
        m2.width == m1.width,
        m2.height == m1.height,
        painted(m1.tiles@, m2.tiles@, region),
    ensures
        forall|x: int, y: int| #[trigger] m1.floor_at(x, y) ==> m2.floor_at(x, y),
        forall|x1: int, x2: int, y: int| #[trigger] m1.row_is_floor(x1, x2, y) ==> m2.row_is_floor(x1, x2, y),
        forall|y1: int, y2: int, x: int| #[trigger] m1.column_is_floor(y1, y2, x) ==> m2.column_is_floor(y1, y2, x),
        forall|a: Rect, b: Rect| #[trigger] m1.joined(a, b) ==> m2.joined(a, b),
{
    assert forall|x: int, y: int| #[trigger] m1.floor_at(x, y) implies m2.floor_at(x, y) by {
        lemma_index_in_grid(x, y, m1.width as int, m1.height as int);
        let i = m1.idx_of(x, y);
        assert(m2.tiles@[i] == if region(i) { TileType::Floor } else { m1.tiles@[i] });
    }
    assert forall|x1: int, x2: int, y: int| #[trigger] m1.row_is_floor(x1, x2, y) implies m2.row_is_floor(x1, x2, y) by {
        assert forall|x: int| min_int(x1, x2) <= x <= max_int(x1, x2) implies #[trigger] m2.floor_at(x, y) by {
            assert(m1.floor_at(x, y));
        }
    }
    assert forall|y1: int, y2: int, x: int| #[trigger] m1.column_is_floor(y1, y2, x) implies m2.column_is_floor(y1, y2, x) by {
        assert forall|y: int| min_int(y1, y2) <= y <= max_int(y1, y2) implies #[trigger] m2.floor_at(x, y) by {
            assert(m1.floor_at(x, y));
        }
    }
    assert forall|a: Rect, b: Rect| #[trigger] m1.joined(a, b) implies m2.joined(a, b) by {
        let (px, py) = a.center_spec();
        let (nx, ny) = b.center_spec();
        if m1.row_is_floor(px, nx, py) && m1.column_is_floor(py, ny, nx) {
            assert(m2.row_is_floor(px, nx, py));
            assert(m2.column_is_floor(py, ny, nx));
        } else {
            assert(m2.column_is_floor(py, ny, px));
            assert(m2.row_is_floor(px, nx, ny));
        }
    }
}

/// Runs between points strictly inside the ring stay off it.
proof fn lemma_runs_off_border(m: TileMap, x1: int, x2: int, y1: int, y2: int, x: int, y: int)
    requires
        m.wf(),
        1 <= x1 <= m.width - 2,
        1 <= x2 <= m.width - 2,
        1 <= y1 <= m.height - 2,
        1 <= y2 <= m.height - 2,
        1 <= x <= m.width - 2,
        1 <= y <= m.height - 2,
    ensures
        forall|i: int| 0 <= i < m.count() && #[trigger] m.horizontal_run(x1, x2, y)(i)
            ==> !m.on_border(m.col(i), m.row(i)),
        forall|i: int| 0 <= i < m.count() && #[trigger] m.vertical_run(y1, y2, x)(i)
            ==> !m.on_border(m.col(i), m.row(i)),
{
    let w = m.width as int;
    assert forall|i: int| 0 <= i < m.count() && #[trigger] m.horizontal_run(x1, x2, y)(i)
        implies !m.on_border(m.col(i), m.row(i)) by {
        lemma_fundamental_div_mod_converse(i, w, y, i - y * w);
    }
    assert forall|i: int| 0 <= i < m.count() && #[trigger] m.vertical_run(y1, y2, x)(i)
        implies !m.on_border(m.col(i), m.row(i)) by {
        let yy = choose|yy: int| min_int(y1, y2) <= yy <= max_int(y1, y2) && i == #[trigger] grid_index(w, x, yy);
        lemma_fundamental_div_mod_converse(i, w, yy, x);
    }
}

/// After painting a run, the run is floor.
proof fn lemma_runs_floor(m1: TileMap, m2: TileMap, x1: int, x2: int, y1: int, y2: int, x: int, y: int)
    requires
        m1.wf(),
        m2.width == m1.width,
        m2.height == m1.height,
        1 <= x1 <= m1.width - 2,
        1 <= x2 <= m1.width - 2,
        1 <= y1 <= m1.height - 2,
        1 <= y2 <= m1.height - 2,
        1 <= x <= m1.width - 2,
        1 <= y <= m1.height - 2,
    ensures
        painted(m1.tiles@, m2.tiles@, m1.horizontal_run(x1, x2, y)) ==> m2.row_is_floor(x1, x2, y),
        painted(m1.tiles@, m2.tiles@, m1.vertical_run(y1, y2, x)) ==> m2.column_is_floor(y1, y2, x),
{
    let w = m1.width as int;
    if painted(m1.tiles@, m2.tiles@, m1.horizontal_run(x1, x2, y)) {
        assert forall|xx: int| min_int(x1, x2) <= xx <= max_int(x1, x2) implies #[trigger] m2.floor_at(xx, y) by {
            lemma_index_in_grid(xx, y, w, m1.height as int);
            let i = m1.idx_of(xx, y);
            assert(m1.horizontal_run(x1, x2, y)(i));
        }
    }
    if painted(m1.tiles@, m2.tiles@, m1.vertical_run(y1, y2, x)) {
        assert forall|yy: int| min_int(y1, y2) <= yy <= max_int(y1, y2) implies #[trigger] m2.floor_at(x, yy) by {
            lemma_index_in_grid(x, yy, w, m1.height as int);
            let i = m1.idx_of(x, yy);
            assert(i == grid_index(w, x, yy));
            assert(in_column(w, i, x, min_int(y1, y2), max_int(y1, y2)));
            assert(m1.vertical_run(y1, y2, x)(i));
        }
    }
}

} // verus!
