use dungeon_core::board::{BoardNeighbour, BoardPieceToGen, CurrentBoard, Piece, TileType};
use dungeon_core::posmap::PosMap;
use dungeon_core::vectors::{ortho_directions, Vector2Int};

#[test]
fn manhattan_distance_exact() {
    let a = Vector2Int::new(2, -3);
    let b = Vector2Int::new(-1, 4);
    assert_eq!(a.manhattan(b), 10);
    assert_eq!(b.manhattan(a), 10);
    assert_eq!(a.manhattan(a), 0);
}

#[test]
fn vector_component_arithmetic() {
    let a = Vector2Int::new(5, 7);
    let b = Vector2Int::new(-2, 3);
    let s = a.plus(b);
    assert_eq!((s.x, s.y), (3, 10));
    let d = a.minus(b);
    assert_eq!((d.x, d.y), (7, 4));
}

#[test]
fn four_orthogonal_directions() {
    let dirs = ortho_directions();
    assert_eq!(dirs.len(), 4);
    for d in &dirs {
        assert_eq!(d.x.abs() + d.y.abs(), 1);
    }
}

#[test]
fn posmap_insert_get_and_overwrite() {
    let mut m: PosMap<u32> = PosMap::new();
    let k = Vector2Int::new(3, 4);
    assert!(m.get(k).is_none());
    m.insert(k, 7);
    assert_eq!(m.get(k).copied(), Some(7));
    m.insert(k, 9);
    assert_eq!(m.get(k).copied(), Some(9));
    assert_eq!(m.entry_count(), 1);
    assert!(!m.contains_key(Vector2Int::new(4, 3)));
}

#[test]
fn board_get_reads_tiles() {
    let mut board = CurrentBoard::new_empty();
    board.tiles.insert(Vector2Int::new(1, 2), TileType::BaseFloor);
    board.tiles.insert(Vector2Int::new(2, 2), TileType::Pit);
    assert_eq!(board.get(1, 2).copied(), Some(TileType::BaseFloor));
    assert_eq!(board.get(2, 2).copied(), Some(TileType::Pit));
    assert!(board.get(0, 0).is_none());
}

#[test]
fn ai_control_default_radius() {
    let ai = dungeon_core::board::AiControl::default();
    assert_eq!(ai.max_distance_to_player, 5);
}

#[test]
fn animation_wraps_and_reports_frames() {
    let mut a = dungeon_core::board::Animation::new_with_index(5, 3);
    assert_eq!(a.current(), 3);
    a.bump_index();
    a.bump_index();
    assert_eq!(a.index, 5);
    assert_eq!(a.current(), 0);
    let mut m = dungeon_core::board::Animation::new_with_index(3, usize::MAX);
    m.bump_index();
    assert_eq!(m.index, 0);
}

#[test]
fn piece_to_gen_reads_neighbours() {
    let mut board = CurrentBoard::new_empty();
    board.tiles.insert(Vector2Int::new(1, 1), TileType::BaseFloor);
    board.tiles.insert(Vector2Int::new(1, 2), TileType::Pit);
    board.tiles.insert(Vector2Int::new(0, 1), TileType::Void);
    let p = BoardPieceToGen::from_pos(Vector2Int::new(1, 1), &board).expect("piece");
    assert_eq!(p.tile_type, TileType::BaseFloor);
    assert_eq!(p.neighbours[0], (BoardNeighbour::Up, TileType::Pit));
    assert_eq!(p.neighbours[1], (BoardNeighbour::Down, TileType::Void));
    assert_eq!(p.neighbours[2], (BoardNeighbour::Left, TileType::Void));
    assert_eq!(p.neighbours[3], (BoardNeighbour::Right, TileType::Void));
    // a void or ungenerated cell produces nothing
    assert!(BoardPieceToGen::from_pos(Vector2Int::new(0, 1), &board).is_none());
    assert!(BoardPieceToGen::from_pos(Vector2Int::new(5, 5), &board).is_none());
}

#[test]
fn print_renders_tiles_spawns_and_void() {
    let mut board = CurrentBoard::new_empty();
    for x in 0..3 {
        board.tiles.insert(Vector2Int::new(x, 0), TileType::BaseFloor);
    }
    board.tiles.insert(Vector2Int::new(2, 1), TileType::Pit);
    board.tiles.insert(Vector2Int::new(0, 1), TileType::Void);
    board.spawn_points.insert(Vector2Int::new(0, 0), Piece::Player);
    board.spawn_points.insert(Vector2Int::new(2, 0), Piece::Enemy);
    let lines = board.print();
    let rendered: Vec<String> = lines.iter().map(|l| l.iter().collect()).collect();
    assert_eq!(rendered, vec!["PfE".to_string(), "#*p".to_string()]);
}
