use dungeon_core::board::TileType;
use dungeon_core::pathfind::find_path;
use dungeon_core::posmap::PosMap;
use dungeon_core::vectors::Vector2Int;

fn open_grid(w: i32, h: i32) -> PosMap<TileType> {
    let mut tiles: PosMap<TileType> = PosMap::new();
    for x in 0..w {
        for y in 0..h {
            tiles.insert(Vector2Int::new(x, y), TileType::BaseFloor);
        }
    }
    tiles
}

// Pathfinder correctness: with no obstacles and a sufficient cap, the path
// length equals the Manhattan distance.
#[test]
fn open_grid_path_has_manhattan_length() {
    let tiles = open_grid(6, 5);
    let start = Vector2Int::new(0, 0);
    let end = Vector2Int::new(4, 3);
    let path = find_path(start, end, &tiles, &Vec::new(), false, 20).expect("path");
    assert_eq!(path.len() as i32, start.manhattan(end));
    assert_eq!(*path.last().unwrap(), end);
    assert_eq!(start.manhattan(path[0]), 1);
    for w in path.windows(2) {
        assert_eq!(w[0].manhattan(w[1]), 1);
    }
    // the cells are pairwise distinct and never revisit the start
    for (a, c) in path.iter().enumerate() {
        assert_ne!(*c, start);
        for d in path.iter().skip(a + 1) {
            assert_ne!(*c, *d);
        }
    }
}

#[test]
fn start_equals_end_yields_nothing() {
    let tiles = open_grid(3, 3);
    let p = Vector2Int::new(1, 1);
    assert!(find_path(p, p, &tiles, &Vec::new(), false, 10).is_none());
}

#[test]
fn cap_below_distance_yields_nothing() {
    let tiles = open_grid(6, 1);
    let start = Vector2Int::new(0, 0);
    let end = Vector2Int::new(5, 0);
    assert!(find_path(start, end, &tiles, &Vec::new(), false, 4).is_none());
    assert!(find_path(start, end, &tiles, &Vec::new(), false, 5).is_some());
}

// Pathfinder occupancy exception: an occupied target is still reached; an
// occupied intermediate cell with no detour blocks the search.
#[test]
fn occupied_end_is_still_reached() {
    let tiles = open_grid(4, 1);
    let start = Vector2Int::new(0, 0);
    let end = Vector2Int::new(3, 0);
    let blockers = vec![end];
    let path = find_path(start, end, &tiles, &blockers, false, 10).expect("path");
    assert_eq!(*path.last().unwrap(), end);
}

#[test]
fn occupied_corridor_blocks_without_detour() {
    let tiles = open_grid(4, 1);
    let start = Vector2Int::new(0, 0);
    let end = Vector2Int::new(3, 0);
    let blockers = vec![Vector2Int::new(1, 0)];
    assert!(find_path(start, end, &tiles, &blockers, false, 10).is_none());
}

#[test]
fn occupied_cell_is_walked_around_when_possible() {
    let tiles = open_grid(4, 2);
    let start = Vector2Int::new(0, 0);
    let end = Vector2Int::new(3, 0);
    let blockers = vec![Vector2Int::new(1, 0)];
    let path = find_path(start, end, &tiles, &blockers, false, 10).expect("path");
    assert_eq!(path.len(), 5);
    assert!(!path.contains(&Vector2Int::new(1, 0)));
}

// Pit/flight rule: a grounded search never stands on a pit; a flying one may.
#[test]
fn pits_block_grounded_but_not_flying() {
    let mut tiles = open_grid(5, 1);
    let pit = Vector2Int::new(2, 0);
    tiles.insert(pit, TileType::Pit);
    let start = Vector2Int::new(0, 0);
    let end = Vector2Int::new(4, 0);
    assert!(find_path(start, end, &tiles, &Vec::new(), false, 10).is_none());
    let flown = find_path(start, end, &tiles, &Vec::new(), true, 10).expect("path");
    assert!(flown.contains(&pit));
    assert_eq!(flown.len(), 4);
}

#[test]
fn grounded_path_only_stands_on_floor() {
    let mut tiles = open_grid(5, 3);
    tiles.insert(Vector2Int::new(2, 1), TileType::Pit);
    let start = Vector2Int::new(0, 1);
    let end = Vector2Int::new(4, 1);
    let path = find_path(start, end, &tiles, &Vec::new(), false, 10).expect("path");
    for c in &path {
        assert_eq!(tiles.get(*c).copied(), Some(TileType::BaseFloor));
    }
}

#[test]
fn void_tiles_are_never_entered() {
    let mut tiles = open_grid(3, 1);
    tiles.insert(Vector2Int::new(1, 0), TileType::Void);
    let start = Vector2Int::new(0, 0);
    let end = Vector2Int::new(2, 0);
    assert!(find_path(start, end, &tiles, &Vec::new(), true, 10).is_none());
}
