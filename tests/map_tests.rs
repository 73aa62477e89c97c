use roguelike::dungeon::{RoomDraw, MAX_ROOMS, MAX_SIZE, MIN_SIZE};
use roguelike::map::{MAPHEIGHT, MAPWIDTH};
use roguelike::player::try_move_player;
use roguelike::spatial::{CARDINAL_COST, DIAGONAL_COST};
use roguelike::{Rect, TileMap, TileType};
use rltk::RandomNumberGenerator;
use specs::{Builder, World, WorldExt};

fn seeded_map(seed: u64) -> TileMap {
    let mut rng = RandomNumberGenerator::seeded(seed);
    TileMap::rooms_and_corridors_from(&mut rng)
}

fn on_border(map: &TileMap, idx: usize) -> bool {
    let (x, y) = map.idx_xy(idx);
    x == 0 || y == 0 || x == map.width - 1 || y == map.height - 1
}

fn floor(map: &TileMap, x: i32, y: i32) -> bool {
    map.tiles[map.xy_idx(x, y)] == TileType::Floor
}

fn check_generated(map: &TileMap) {
    assert_eq!(map.width, 80);
    assert_eq!(map.height, 50);
    assert_eq!(map.tiles.len(), 80 * 50);
    for idx in 0..map.tiles.len() {
        if on_border(map, idx) {
            assert_eq!(map.tiles[idx], TileType::Wall);
        }
    }
    assert!(map.rooms.len() <= MAX_ROOMS as usize);
    for (j, a) in map.rooms.iter().enumerate() {
        assert!(a.x2 - a.x1 >= MIN_SIZE && a.x2 - a.x1 < MAX_SIZE);
        assert!(a.y2 - a.y1 >= MIN_SIZE && a.y2 - a.y1 < MAX_SIZE);
        assert!(a.x1 >= 0 && a.y1 >= 0 && a.x2 <= 78 && a.y2 <= 48);
        for b in map.rooms.iter().skip(j + 1) {
            assert!(!a.intersect(b));
            assert!(!b.intersect(a));
        }
        for y in a.y1 + 1..=a.y2 {
            for x in a.x1 + 1..=a.x2 {
                assert!(floor(map, x, y));
            }
        }
    }
    for k in 1..map.rooms.len() {
        let (px, py) = map.rooms[k - 1].center();
        let (nx, ny) = map.rooms[k].center();
        let row = |x1: i32, x2: i32, y: i32| (x1.min(x2)..=x1.max(x2)).all(|x| floor(map, x, y));
        let col = |y1: i32, y2: i32, x: i32| (y1.min(y2)..=y1.max(y2)).all(|y| floor(map, x, y));
        assert!((row(px, nx, py) && col(py, ny, nx)) || (col(py, ny, px) && row(px, nx, ny)));
    }
}

#[test]
fn rect_new_sets_far_edges() {
    let r = Rect::new(3, 4, 6, 7);
    assert_eq!(r, Rect { x1: 3, y1: 4, x2: 9, y2: 11 });
}

#[test]
fn rect_sharing_an_edge_does_not_intersect() {
    let a = Rect::new(0, 0, 5, 5);
    let b = Rect::new(5, 0, 5, 5);
    assert!(!a.intersect(&b));
    assert!(!b.intersect(&a));
    let c = Rect::new(4, 4, 3, 3);
    assert!(a.intersect(&c));
    assert!(c.intersect(&a));
}

#[test]
fn rect_center_halves_toward_zero() {
    assert_eq!(Rect::new(10, 10, 6, 6).center(), (13, 13));
    assert_eq!(Rect::new(1, 2, 6, 7).center(), (4, 5));
    assert_eq!(Rect { x1: -3, y1: -5, x2: 0, y2: 2 }.center(), (-1, -1));
}

#[test]
fn new_map_is_all_wall() {
    let map = TileMap::new(7, 3);
    assert_eq!(map.tiles.len(), 21);
    assert!(map.tiles.iter().all(|t| *t == TileType::Wall));
    assert!(map.rooms.is_empty());
    assert!(map.revealed_tiles.iter().all(|b| !*b));
    assert!(map.visible_tiles.iter().all(|b| !*b));
    assert!(map.blocked.iter().all(|b| !*b));
    assert!(map.tile_content.iter().all(|c| c.is_empty()));
    assert_eq!(map.dimensions(), (7, 3));
}

#[test]
fn xy_idx_round_trips() {
    let map = TileMap::new(80, 50);
    assert_eq!(map.xy_idx(0, 0), 0);
    assert_eq!(map.xy_idx(79, 0), 79);
    assert_eq!(map.xy_idx(0, 1), 80);
    assert_eq!(map.xy_idx(79, 49), 3999);
    for y in 0..50 {
        for x in 0..80 {
            let idx = map.xy_idx(x, y);
            assert_eq!(idx, (y * 80 + x) as usize);
            assert_eq!(map.idx_xy(idx), (x, y));
        }
    }
}

#[test]
fn room_interior_is_carved() {
    let mut map = TileMap::new(80, 50);
    map.apply_room_to_map(&Rect::new(10, 10, 6, 6));
    for y in 0..50 {
        for x in 0..80 {
            // Columns x1 + 1 ..= x2 and rows y1 + 1 ..= y2, with x2 = y2 = 16.
            let inside = (11..=16).contains(&x) && (11..=16).contains(&y);
            assert_eq!(floor(&map, x, y), inside, "at ({}, {})", x, y);
        }
    }
    assert!(floor(&map, 11, 11) && floor(&map, 15, 15));
    assert!(!floor(&map, 10, 12));
    assert!(!floor(&map, 17, 12));
    assert!(!floor(&map, 12, 10));
    assert!(!floor(&map, 12, 17));
}

#[test]
fn horizontal_tunnel_runs_either_way_and_skips_index_zero() {
    let mut map = TileMap::new(10, 5);
    map.apply_horizontal_tunnel(6, 2, 3);
    for x in 0..10 {
        assert_eq!(floor(&map, x, 3), (2..=6).contains(&x));
    }
    map.apply_horizontal_tunnel(0, 3, 0);
    assert!(!floor(&map, 0, 0));
    assert!(floor(&map, 1, 0) && floor(&map, 2, 0) && floor(&map, 3, 0));
    assert_eq!(map.tiles.iter().filter(|t| **t == TileType::Floor).count(), 8);
}

#[test]
fn vertical_tunnel_skips_rows_off_the_grid() {
    let mut map = TileMap::new(10, 5);
    map.apply_vertical_tunnel(7, 2, 4);
    for y in 0..5 {
        assert_eq!(floor(&map, 4, y), y >= 2);
    }
    assert_eq!(map.tiles.iter().filter(|t| **t == TileType::Floor).count(), 3);
}

#[test]
fn seeded_generation_is_reproducible() {
    let a = seeded_map(20_240_611);
    let b = seeded_map(20_240_611);
    assert_eq!(a.tiles, b.tiles);
    assert_eq!(a.rooms, b.rooms);
    assert!(!a.rooms.is_empty());
    check_generated(&a);
}

#[test]
fn generated_levels_keep_their_invariants() {
    for seed in 0..20u64 {
        let map = seeded_map(seed);
        check_generated(&map);
        assert!(map.revealed_tiles.iter().all(|b| !*b));
        assert!(map.blocked.iter().all(|b| !*b));
    }
}

#[test]
fn unseeded_generation_keeps_its_invariants() {
    let map = TileMap::new_map_rooms_and_corridors();
    assert_eq!(map.dimensions(), (MAPWIDTH as i32, MAPHEIGHT as i32));
    check_generated(&map);
}

#[test]
fn populate_blocked_marks_walls_and_is_idempotent() {
    let mut map = seeded_map(7);
    map.populate_blocked();
    for idx in 0..map.tiles.len() {
        assert_eq!(map.blocked[idx], map.tiles[idx] == TileType::Wall);
    }
    let once = map.blocked.clone();
    map.populate_blocked();
    assert_eq!(map.blocked, once);
}

#[test]
fn opacity_follows_tile_kind() {
    let mut map = TileMap::new(5, 5);
    map.apply_room_to_map(&Rect::new(0, 0, 3, 3));
    assert!(map.is_opaque(0));
    assert!(!map.is_opaque(map.xy_idx(1, 1)));
    assert!(map.is_opaque(map.xy_idx(4, 4)));
}

fn open_five_by_five() -> TileMap {
    let mut map = TileMap::new(5, 5);
    map.apply_room_to_map(&Rect::new(0, 0, 3, 3));
    map.populate_blocked();
    map
}

#[test]
fn exits_from_the_middle_in_order() {
    let map = open_five_by_five();
    let c = CARDINAL_COST;
    let d = DIAGONAL_COST;
    assert_eq!(
        map.get_available_exits(12),
        vec![(11, c), (13, c), (7, c), (17, c), (6, d), (8, d), (16, d), (18, d)]
    );
    assert_eq!(c, 100);
    assert_eq!(d, 145);
}

#[test]
fn exits_from_a_corner_of_the_open_area() {
    let map = open_five_by_five();
    assert_eq!(map.get_available_exits(6), vec![(7, 100), (11, 100), (12, 145)]);
}

#[test]
fn exits_skip_blocked_tiles() {
    let mut map = open_five_by_five();
    map.blocked[13] = true;
    map.blocked[6] = true;
    assert_eq!(
        map.get_available_exits(12),
        vec![(11, 100), (7, 100), (17, 100), (8, 145), (16, 145), (18, 145)]
    );
}

#[test]
fn exits_never_reach_the_border() {
    let mut map = seeded_map(99);
    map.populate_blocked();
    for idx in 0..map.tiles.len() {
        let exits = map.get_available_exits(idx);
        assert!(exits.len() <= 8);
        let (x, y) = map.idx_xy(idx);
        for (j, cost) in exits {
            assert!(!on_border(&map, j));
            assert!(!map.blocked[j]);
            let (ex, ey) = map.idx_xy(j);
            let (dx, dy) = ((ex - x).abs(), (ey - y).abs());
            assert!(dx <= 1 && dy <= 1 && dx + dy >= 1);
            if dx + dy == 1 {
                assert_eq!(cost, 100);
            } else {
                assert_eq!(cost, 145);
            }
        }
    }
}

#[test]
fn origin_is_opaque_and_never_an_exit() {
    let mut map = seeded_map(3);
    assert!(map.is_opaque(0));
    // Even with the origin unblocked, it lies on the ring.
    map.populate_blocked();
    map.blocked[0] = false;
    for from in [1usize, 80, 81] {
        assert!(map.get_available_exits(from).iter().all(|(j, _)| *j != 0));
    }
}

#[test]
fn clear_content_index_empties_every_list() {
    let mut world = World::new();
    let e1 = world.create_entity().build();
    let e2 = world.create_entity().build();
    let mut map = TileMap::new(4, 4);
    map.tile_content[5].push(e1);
    map.tile_content[5].push(e2);
    map.tile_content[15].push(e2);
    map.clear_content_index();
    assert_eq!(map.tile_content.len(), 16);
    assert!(map.tile_content.iter().all(|c| c.is_empty()));
}

#[test]
fn moves_are_stopped_by_walls_and_the_edge() {
    let map = open_five_by_five();
    assert_eq!(try_move_player(&map, 2, 2, 1, 0), (3, 2));
    assert_eq!(try_move_player(&map, 2, 2, -1, -1), (1, 1));
    assert_eq!(try_move_player(&map, 3, 3, 1, 0), (3, 3));
    assert_eq!(try_move_player(&map, 0, 0, -1, 0), (0, 0));
    assert_eq!(try_move_player(&map, 4, 4, 0, 1), (4, 4));
}

#[test]
fn visibility_is_replaced_and_revealed_is_kept() {
    let mut map = TileMap::new(4, 4);
    map.update_visibility(&vec![1, 5, 5]);
    let visible: Vec<usize> = (0..16).filter(|i| map.visible_tiles[*i]).collect();
    assert_eq!(visible, vec![1, 5]);
    map.update_visibility(&vec![6]);
    let visible: Vec<usize> = (0..16).filter(|i| map.visible_tiles[*i]).collect();
    let revealed: Vec<usize> = (0..16).filter(|i| map.revealed_tiles[*i]).collect();
    assert_eq!(visible, vec![6]);
    assert_eq!(revealed, vec![1, 5, 6]);
    map.update_visibility(&vec![]);
    assert!(map.visible_tiles.iter().all(|b| !*b));
    assert_eq!(map.revealed_tiles.iter().filter(|b| **b).count(), 3);
}

#[test]
fn generation_draws_vary() {
    let maps: Vec<TileMap> = (0..10u64).map(seeded_map).collect();
    assert!(maps.iter().all(|m| m.rooms.len() > 1));
    let widths: Vec<i32> = maps.iter().flat_map(|m| m.rooms.iter().map(|r| r.x2 - r.x1)).collect();
    assert!(widths.iter().any(|w| *w != MIN_SIZE));
    assert!(widths.iter().any(|w| *w != MAX_SIZE - 1));
    let corners: Vec<(i32, i32)> = maps.iter().flat_map(|m| m.rooms.iter().map(|r| (r.x1, r.y1))).collect();
    assert!(corners.iter().any(|c| *c != corners[0]));
    assert!(maps.iter().any(|m| m.tiles != maps[0].tiles));
}

fn draw(x: i32, y: i32, w: i32, h: i32, horizontal_first: bool) -> RoomDraw {
    RoomDraw { x, y, w, h, horizontal_first }
}

#[test]
fn draws_fix_the_level() {
    let draws = vec![
        draw(2, 2, 6, 6, false),
        draw(5, 5, 8, 8, true),
        draw(30, 20, 9, 7, true),
        draw(60, 5, 6, 9, false),
    ];
    let a = TileMap::rooms_and_corridors_from_draws(&draws);
    let b = TileMap::rooms_and_corridors_from_draws(&draws);
    assert_eq!(a.tiles, b.tiles);
    assert_eq!(a.rooms, b.rooms);
    // The second candidate overlaps the first and is dropped.
    assert_eq!(
        a.rooms,
        vec![Rect::new(2, 2, 6, 6), Rect::new(30, 20, 9, 7), Rect::new(60, 5, 6, 9)]
    );
    check_generated(&a);
}

#[test]
fn draws_carve_exactly_rooms_and_corridors() {
    let draws = vec![draw(2, 2, 6, 6, true), draw(20, 10, 6, 6, true)];
    let map = TileMap::rooms_and_corridors_from_draws(&draws);
    // Centers (5, 5) and (23, 13); the corridor runs along row 5, then column 23.
    for y in 0..50 {
        for x in 0..80 {
            let room_a = (3..=8).contains(&x) && (3..=8).contains(&y);
            let room_b = (21..=26).contains(&x) && (11..=16).contains(&y);
            let run_row = y == 5 && (5..=23).contains(&x);
            let run_col = x == 23 && (5..=13).contains(&y);
            let expected = room_a || room_b || run_row || run_col;
            assert_eq!(floor(&map, x, y), expected, "at ({}, {})", x, y);
        }
    }
}

#[test]
fn draws_with_vertical_first_corridor() {
    let draws = vec![draw(2, 2, 6, 6, false), draw(20, 10, 6, 6, false)];
    let map = TileMap::rooms_and_corridors_from_draws(&draws);
    // Column 5 from row 5 to row 13, then row 13 from column 5 to column 23.
    assert!((5..=13).all(|y| floor(&map, 5, y)));
    assert!((5..=23).all(|x| floor(&map, x, 13)));
    assert!(!floor(&map, 15, 5));
}

#[test]
fn no_draws_give_an_all_wall_level() {
    let map = TileMap::rooms_and_corridors_from_draws(&vec![]);
    assert!(map.rooms.is_empty());
    assert!(map.tiles.iter().all(|t| *t == TileType::Wall));
}
