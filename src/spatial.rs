use vstd::prelude::*;
use crate::map::{TileMap, TileType, lemma_index_in_grid, lemma_xy_idx_round_trip};

verus! {

/// Cost of a step to a side neighbor, in hundredths of a step.
pub const CARDINAL_COST: u32 = 100;
/// Cost of a step to a corner neighbor, in hundredths of a step: 1.45, a
/// rough square root of two that path finding relies on as it stands.
pub const DIAGONAL_COST: u32 = 145;

/// What each tile's blocked flag is after a recompute: walls block.
pub open spec fn blocked_from(tiles: Seq<TileType>) -> Seq<bool> {
    tiles.map_values(|t: TileType| t == TileType::Wall)
}

/// `after` is `before` with the blocked flags recomputed from the tiles.
pub open spec fn recomputed(before: TileMap, after: TileMap) -> bool {
    &&& after.tiles == before.tiles
    &&& after.rooms == before.rooms
    &&& after.width == before.width
    &&& after.height == before.height
    &&& after.revealed_tiles == before.revealed_tiles
    &&& after.visible_tiles == before.visible_tiles
    &&& after.tile_content == before.tile_content
    &&& after.blocked@ == blocked_from(before.tiles@)
}

/// Recomputing the blocked flags twice in a row leaves the same flags, and
/// the same map, as recomputing them once.
pub proof fn lemma_populate_blocked_idempotent(m0: TileMap, m1: TileMap, m2: TileMap)
    requires
        recomputed(m0, m1),
        recomputed(m1, m2),
    ensures
        m2.blocked@ == m1.blocked@,
        m2.tiles == m1.tiles,
{
}

/// Adding one step keeps every listed step good and lengthens the list by at
/// most one.
proof fn lemma_step_good(m: TileMap, s: Seq<(usize, u32)>, idx: int, dx: int, dy: int, cost: u32)
    requires
        m.wf(),
        0 <= idx < m.count(),
        -1 <= dx <= 1,
        -1 <= dy <= 1,
        dx != 0 || dy != 0,
        (dx == 0 || dy == 0) ==> cost == CARDINAL_COST,
        (dx != 0 && dy != 0) ==> cost == DIAGONAL_COST,
        forall|k: int| 0 <= k < s.len() ==> m.good_exit(idx, #[trigger] s[k]),
    ensures
        forall|k: int| 0 <= k < m.with_step(s, idx, dx, dy, cost).len()
            ==> m.good_exit(idx, #[trigger] m.with_step(s, idx, dx, dy, cost)[k]),
        m.with_step(s, idx, dx, dy, cost).len() <= s.len() + 1,
{
    let (x, y) = (m.col(idx) + dx, m.row(idx) + dy);
    if m.exit_valid(x, y) {
        lemma_index_in_grid(x, y, m.width as int, m.height as int);
        lemma_xy_idx_round_trip(x, y, m.width as int);
        let t = m.with_step(s, idx, dx, dy, cost);
        let j = m.idx_of(x, y);
        assert(0 <= j < m.count());
        assert((j as usize) as int == j);
        assert(t[s.len() as int] == (j as usize, cost));
        assert(m.col(j) == x);
        assert(m.row(j) == y);
        assert(m.good_exit(idx, t[s.len() as int]));
        assert forall|k: int| 0 <= k < t.len() implies m.good_exit(idx, #[trigger] t[k]) by {
            if k < s.len() {
                assert(t[k] == s[k]);
            }
        }
    }
}

/// No step from a tile leads onto the outer ring or onto a blocked tile; there
/// are at most eight; each side step costs `CARDINAL_COST` and each corner
/// step `DIAGONAL_COST`.
pub proof fn lemma_exits_inside(m: TileMap, idx: int)
    requires
        m.wf(),
        0 <= idx < m.count(),
    ensures
        m.exits(idx).len() <= 8,
        forall|k: int| 0 <= k < m.exits(idx).len() ==> m.good_exit(idx, #[trigger] m.exits(idx)[k]),
{
    let s0 = Seq::<(usize, u32)>::empty();
    lemma_step_good(m, s0, idx, -1, 0, CARDINAL_COST);
    let s1 = m.with_step(s0, idx, -1, 0, CARDINAL_COST);
    lemma_step_good(m, s1, idx, 1, 0, CARDINAL_COST);
    let s2 = m.with_step(s1, idx, 1, 0, CARDINAL_COST);
    lemma_step_good(m, s2, idx, 0, -1, CARDINAL_COST);
    let s3 = m.with_step(s2, idx, 0, -1, CARDINAL_COST);
    lemma_step_good(m, s3, idx, 0, 1, CARDINAL_COST);
    let s4 = m.with_step(s3, idx, 0, 1, CARDINAL_COST);
    lemma_step_good(m, s4, idx, -1, -1, DIAGONAL_COST);
    let s5 = m.with_step(s4, idx, -1, -1, DIAGONAL_COST);
    lemma_step_good(m, s5, idx, 1, -1, DIAGONAL_COST);
    let s6 = m.with_step(s5, idx, 1, -1, DIAGONAL_COST);
    lemma_step_good(m, s6, idx, -1, 1, DIAGONAL_COST);
    let s7 = m.with_step(s6, idx, -1, 1, DIAGONAL_COST);
    lemma_step_good(m, s7, idx, 1, 1, DIAGONAL_COST);
}

impl TileMap {
    /// Whether `(x, y)` can be stepped on: strictly inside the outer ring and
    /// not blocked.
    pub open spec fn exit_valid(self, x: int, y: int) -> bool {
        1 <= x <= self.width - 2 && 1 <= y <= self.height - 2 && !self.blocked@[self.idx_of(x, y)]
    }

    /// `s` followed by the step from `idx` by `(dx, dy)` at `cost`, when that
    /// step is valid.
    pub open spec fn with_step(self, s: Seq<(usize, u32)>, idx: int, dx: int, dy: int, cost: u32) -> Seq<(usize, u32)> {
        let (x, y) = (self.col(idx) + dx, self.row(idx) + dy);
        if self.exit_valid(x, y) {
            s.push((self.idx_of(x, y) as usize, cost))
        } else {
            s
        }
    }

    /// The valid steps from `idx`: left, right, up, down, then up-left,
    /// up-right, down-left, down-right.
    pub open spec fn exits(self, idx: int) -> Seq<(usize, u32)> {
        let s = self.with_step(Seq::empty(), idx, -1, 0, CARDINAL_COST);
        let s = self.with_step(s, idx, 1, 0, CARDINAL_COST);
        let s = self.with_step(s, idx, 0, -1, CARDINAL_COST);
        let s = self.with_step(s, idx, 0, 1, CARDINAL_COST);
        let s = self.with_step(s, idx, -1, -1, DIAGONAL_COST);
        let s = self.with_step(s, idx, 1, -1, DIAGONAL_COST);
        let s = self.with_step(s, idx, -1, 1, DIAGONAL_COST);
        self.with_step(s, idx, 1, 1, DIAGONAL_COST)
    }

    /// `e` is a step from `idx` to a neighbor strictly inside the outer ring
    /// and not blocked, costing `CARDINAL_COST` to a side neighbor and
    /// `DIAGONAL_COST` to a corner one.
    pub open spec fn good_exit(self, idx: int, e: (usize, u32)) -> bool {
        let (j, cost) = e;
        let (dx, dy) = (self.col(j as int) - self.col(idx), self.row(j as int) - self.row(idx));
        &&& j < self.count()
        &&& !self.on_border(self.col(j as int), self.row(j as int))
        &&& !self.blocked@[j as int]
        &&& -1 <= dx <= 1
        &&& -1 <= dy <= 1
        &&& (dx == 0 || dy == 0) ==> cost == CARDINAL_COST && dx != dy
        &&& (dx != 0 && dy != 0) ==> cost == DIAGONAL_COST
    }

    /// Whether the tile at `idx` blocks sight: walls do.
    pub fn is_opaque(&self, idx: usize) -> (r: bool)
        requires
            self.wf(),
            idx < self.count(),
        ensures
            r == (self.tiles@[idx as int] == TileType::Wall),
    {
        self.tiles[idx] == TileType::Wall
    }

    /// Sets each tile's blocked flag to whether the tile is a wall.
    pub fn populate_blocked(&mut self)
        requires
            old(self).wf(),
        ensures
            final(self).wf(),
            recomputed(*old(self), *final(self)),
    {
        let mut i: usize = 0;
        while i < self.tiles.len()
            invariant
                self.wf(),
                self.tiles == old(self).tiles,
                self.rooms == old(self).rooms,
                self.width == old(self).width,
                self.height == old(self).height,
                self.revealed_tiles == old(self).revealed_tiles,
                self.visible_tiles == old(self).visible_tiles,
                self.tile_content == old(self).tile_content,
                i <= self.tiles@.len(),
                forall|k: int| 0 <= k < i ==> #[trigger] self.blocked@[k] == (self.tiles@[k] == TileType::Wall),
            decreases self.tiles@.len() - i,
        {
            let wall = self.tiles[i] == TileType::Wall;
            self.blocked.set(i, wall);
            i = i + 1;
        }
        assert(self.blocked@ =~= blocked_from(self.tiles@));
    }

    /// Empties every tile's list of entities.
    pub fn clear_content_index(&mut self)
        requires
            old(self).wf(),
        ensures
            final(self).wf(),
            final(self).tiles == old(self).tiles,
            final(self).rooms == old(self).rooms,
            final(self).width == old(self).width,
            final(self).height == old(self).height,
            final(self).revealed_tiles == old(self).revealed_tiles,
            final(self).visible_tiles == old(self).visible_tiles,
            final(self).blocked == old(self).blocked,
            final(self).tile_content@.len() == old(self).tile_content@.len(),
            forall|i: int| 0 <= i < final(self).count() ==> (#[trigger] final(self).tile_content@[i])@.len() == 0,
    {
        let mut i: usize = 0;
        while i < self.tile_content.len()
            invariant
                self.wf(),
                self.tiles == old(self).tiles,
                self.rooms == old(self).rooms,
                self.width == old(self).width,
                self.height == old(self).height,
                self.revealed_tiles == old(self).revealed_tiles,
                self.visible_tiles == old(self).visible_tiles,
                self.blocked == old(self).blocked,
                i <= self.tile_content@.len(),
                forall|k: int| 0 <= k < i ==> (#[trigger] self.tile_content@[k])@.len() == 0,
            decreases self.tile_content@.len() - i,
        {
            self.tile_content.set(i, Vec::new());
            i = i + 1;
        }
    }

    /// Whether `(x, y)` can be stepped on.
    fn is_exit_valid(&self, x: i32, y: i32) -> (r: bool)
        requires
            self.wf(),
        ensures
            r == self.exit_valid(x as int, y as int),
    {
        if x < 1 || x > self.width - 2 || y < 1 || y > self.height - 2 {
            return false;
        }
        let idx = self.xy_idx(x, y);
        !self.blocked[idx]
    }

    /// The valid steps from the tile at `idx`, each with its cost in
    /// hundredths of a step, in the order left, right, up, down, up-left,
    /// up-right, down-left, down-right.
    pub fn get_available_exits(&self, idx: usize) -> (r: Vec<(usize, u32)>)
        requires
            self.wf(),
            idx < self.count(),
        ensures
            r@ == self.exits(idx as int),
    {
        let mut exits: Vec<(usize, u32)> = Vec::new();
        let (x, y) = self.idx_xy(idx);

        // Cardinal directions
        if self.is_exit_valid(x - 1, y) {
            exits.push((self.xy_idx(x - 1, y), CARDINAL_COST));
        }
        if self.is_exit_valid(x + 1, y) {
            exits.push((self.xy_idx(x + 1, y), CARDINAL_COST));
        }
        if self.is_exit_valid(x, y - 1) {
            exits.push((self.xy_idx(x, y - 1), CARDINAL_COST));
        }
        if self.is_exit_valid(x, y + 1) {
            exits.push((self.xy_idx(x, y + 1), CARDINAL_COST));
        }

        // Diagonals
        if self.is_exit_valid(x - 1, y - 1) {
            exits.push((self.xy_idx(x - 1, y - 1), DIAGONAL_COST));
        }
        if self.is_exit_valid(x + 1, y - 1) {
            exits.push((self.xy_idx(x + 1, y - 1), DIAGONAL_COST));
        }
        if self.is_exit_valid(x - 1, y + 1) {
            exits.push((self.xy_idx(x - 1, y + 1), DIAGONAL_COST));
        }
        if self.is_exit_valid(x + 1, y + 1) {
            exits.push((self.xy_idx(x + 1, y + 1), DIAGONAL_COST));
        }
        exits
    }

    /// Records a sweep of sight: exactly the tiles at the indices in `seen`
    /// are visible now, and they join the tiles revealed before.
    pub fn update_visibility(&mut self, seen: &Vec<usize>)
        requires
            old(self).wf(),
            forall|k: int| 0 <= k < seen@.len() ==> #[trigger] seen@[k] < old(self).count(),
        ensures
            final(self).wf(),
            final(self).tiles == old(self).tiles,
            final(self).rooms == old(self).rooms,
            final(self).width == old(self).width,
            final(self).height == old(self).height,
            final(self).blocked == old(self).blocked,
            final(self).tile_content == old(self).tile_content,
            forall|i: int| 0 <= i < final(self).count() ==>
                #[trigger] final(self).visible_tiles@[i] == seen@.contains(i as usize),
            forall|i: int| 0 <= i < final(self).count() ==>
                #[trigger] final(self).revealed_tiles@[i] == (old(self).revealed_tiles@[i] || seen@.contains(i as usize)),
    {
        let mut i: usize = 0;
        while i < self.visible_tiles.len()
            invariant
                self.wf(),
                self.tiles == old(self).tiles,
                self.rooms == old(self).rooms,
                self.width == old(self).width,
                self.height == old(self).height,
                self.blocked == old(self).blocked,
                self.tile_content == old(self).tile_content,
                self.revealed_tiles == old(self).revealed_tiles,
                i <= self.visible_tiles@.len(),
                forall|j: int| 0 <= j < i ==> !#[trigger] self.visible_tiles@[j],
            decreases self.visible_tiles@.len() - i,
        {
            self.visible_tiles.set(i, false);
            i = i + 1;
        }
        let mut k: usize = 0;
        while k < seen.len()
            invariant
                self.wf(),
                self.tiles == old(self).tiles,
                self.rooms == old(self).rooms,
                self.width == old(self).width,
                self.height == old(self).height,
                self.blocked == old(self).blocked,
                self.tile_content == old(self).tile_content,
                k <= seen@.len(),
                forall|j: int| 0 <= j < seen@.len() ==> #[trigger] seen@[j] < old(self).count(),
                forall|i: int| 0 <= i < self.count() ==>
                    #[trigger] self.visible_tiles@[i] == seen@.subrange(0, k as int).contains(i as usize),
                forall|i: int| 0 <= i < self.count() ==>
                    #[trigger] self.revealed_tiles@[i] == (old(self).revealed_tiles@[i]
                        || seen@.subrange(0, k as int).contains(i as usize)),
            decreases seen@.len() - k,
        {
            let idx = seen[k];
            self.visible_tiles.set(idx, true);
            self.revealed_tiles.set(idx, true);
            proof {
                let before = seen@.subrange(0, k as int);
                let after = seen@.subrange(0, k as int + 1);
                assert(after == before.push(idx));
                assert forall|i: int| 0 <= i < self.count() implies
                    (#[trigger] after.contains(i as usize) == (before.contains(i as usize) || i == idx)) by {
                    if after.contains(i as usize) {
                        let w = choose|w: int| 0 <= w < after.len() && after[w] == i as usize;
                        if w < before.len() {
                            assert(before[w] == i as usize);
                        }
                    }
                    if i == idx {
                        assert(after[k as int] == idx);
                    }
                    if before.contains(i as usize) {
                        let w = choose|w: int| 0 <= w < before.len() && before[w] == i as usize;
                        assert(after[w] == i as usize);
                    }
                }
            }
            k = k + 1;
        }
        assert(seen@.subrange(0, seen@.len() as int) == seen@);
    }

    /// The extents `(width, height)`.
    pub fn dimensions(&self) -> (r: (i32, i32))
        ensures
            r == (self.width, self.height),
    {
        (self.width, self.height)
    }
}

} // verus!
