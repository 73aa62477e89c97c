use vstd::prelude::*;
use crate::map::{TileMap, TileType};

verus! {

/// Where a mover at `(x, y)` ends after trying to step by `(delta_x,
/// delta_y)`: the destination when it lies on the grid and is not a wall,
/// else where it stood.
pub open spec fn moved_to(map: TileMap, x: int, y: int, delta_x: int, delta_y: int) -> (int, int) {
    let (nx, ny) = (x + delta_x, y + delta_y);
    if map.in_grid(nx, ny) && map.tile_at(nx, ny) != TileType::Wall {
        (nx, ny)
    } else {
        (x, y)
    }
}

/// Tries to move a mover at `(x, y)` by `(delta_x, delta_y)`: a wall, or the
/// edge of the grid, stops the move.
pub fn try_move_player(map: &TileMap, x: i32, y: i32, delta_x: i32, delta_y: i32) -> (r: (i32, i32))
    requires
        map.wf(),
    ensures
        r.0 == moved_to(*map, x as int, y as int, delta_x as int, delta_y as int).0,
        r.1 == moved_to(*map, x as int, y as int, delta_x as int, delta_y as int).1,
{
    let nx: i64 = x as i64 + delta_x as i64;
    let ny: i64 = y as i64 + delta_y as i64;
    if nx < 0 || ny < 0 || nx >= map.width as i64 || ny >= map.height as i64 {
        return (x, y);
    }
    let destination_idx = map.xy_idx(nx as i32, ny as i32);
    if map.tiles[destination_idx] != TileType::Wall {
        (nx as i32, ny as i32)
    } else {
        (x, y)
    }
}

} // verus!
