use dungeon_core::dungeon::{Area, Dungeon, LShapeTunneler, RandomTunneler, Room, Tunneler};
use dungeon_core::vectors::Vector2Int;

#[test]
fn room_new_normalises_corners() {
    let r = Room::new(Vector2Int::new(4, 1), Vector2Int::new(-2, 6));
    assert_eq!((r.a.x, r.a.y), (-2, 1));
    assert_eq!((r.b.x, r.b.y), (4, 6));
}

#[test]
fn room_corners_counter_clockwise() {
    let r = Room::new(Vector2Int::new(0, 0), Vector2Int::new(2, 3));
    let c = r.corners();
    assert_eq!(c.len(), 4);
    assert_eq!((c[0].x, c[0].y), (0, 0));
    assert_eq!((c[1].x, c[1].y), (2, 0));
    assert_eq!((c[2].x, c[2].y), (2, 3));
    assert_eq!((c[3].x, c[3].y), (0, 3));
}

#[test]
fn room_tiles_cover_the_rectangle() {
    let r = Room::new(Vector2Int::new(1, 1), Vector2Int::new(3, 2));
    let tiles = r.to_tiles();
    assert_eq!(tiles.len(), 6);
    for x in 1..=3 {
        for y in 1..=2 {
            assert!(tiles.contains(&Vector2Int::new(x, y)));
        }
    }
}

// Room interior containment: the interior pick never lands on the boundary.
#[test]
fn random_interior_point_avoids_walls() {
    let r = Room::new(Vector2Int::new(0, 0), Vector2Int::new(4, 6));
    for _ in 0..200 {
        let p = r.random_point_without_walls();
        assert!(0 < p.x && p.x < 4);
        assert!(0 < p.y && p.y < 6);
    }
}

// The smallest admissible room has a single interior cell, pinning the
// random draw exactly.
#[test]
fn minimal_room_interior_is_unique() {
    let r = Room::new(Vector2Int::new(0, 0), Vector2Int::new(2, 2));
    for _ in 0..20 {
        let p = r.random_point_without_walls();
        assert_eq!((p.x, p.y), (1, 1));
    }
}

#[test]
fn lshape_connect_exact_sequence() {
    // the x delta dominates: horizontal leg on a's row, vertical on b's column
    let a = Vector2Int::new(0, 0);
    let b = Vector2Int::new(3, 1);
    let path = LShapeTunneler.connect(a, b);
    let expect = vec![
        Vector2Int::new(3, 0),
        Vector2Int::new(3, 1),
        Vector2Int::new(0, 0),
        Vector2Int::new(1, 0),
        Vector2Int::new(2, 0),
        Vector2Int::new(3, 0),
    ];
    assert_eq!(path, expect);
}

// Tunneler connectivity for the L shape: its cells contain a step path
// between the endpoints.
#[test]
fn lshape_cells_join_endpoints() {
    let a = Vector2Int::new(2, 5);
    let b = Vector2Int::new(7, 3);
    let path = LShapeTunneler.connect(a, b);
    assert!(path.contains(&a));
    assert!(path.contains(&b));
    // the x delta dominates: walk from a along the horizontal leg, then up
    // the vertical one
    let mut cur = a;
    while cur.x != b.x {
        cur.x += if b.x > cur.x { 1 } else { -1 };
        assert!(path.contains(&cur), "gap at {},{}", cur.x, cur.y);
    }
    while cur.y != b.y {
        cur.y += if b.y > cur.y { 1 } else { -1 };
        assert!(path.contains(&cur), "gap at {},{}", cur.x, cur.y);
    }
}

// The first leg follows the larger delta by magnitude, whatever its sign:
// walking left five cells dominates walking up one.
#[test]
fn lshape_first_leg_by_absolute_delta() {
    let a = Vector2Int::new(0, 0);
    let b = Vector2Int::new(-5, 1);
    let path = LShapeTunneler.connect(a, b);
    assert!(path.contains(&a));
    assert!(path.contains(&b));
    // the horizontal leg lies on a's row and reaches back to a
    assert!(path.contains(&Vector2Int::new(-1, 0)));
    assert!(path.contains(&Vector2Int::new(-4, 0)));
    // the vertical leg lies on b's column
    assert!(path.contains(&Vector2Int::new(-5, 0)));
}

// Tunneler connectivity for the random walker: consecutive cells are one
// orthogonal step apart, from the start all the way to the target.
#[test]
fn random_tunneler_is_a_chain() {
    let a = Vector2Int::new(0, 0);
    let b = Vector2Int::new(4, 3);
    for _ in 0..50 {
        let path = RandomTunneler.connect(a, b);
        assert_eq!(path.len() as i32, a.manhattan(b) + 1);
        assert_eq!(path[0], a);
        assert_eq!(*path.last().unwrap(), b);
        for w in path.windows(2) {
            assert_eq!(w[0].manhattan(w[1]), 1);
        }
        for p in &path {
            assert!(0 <= p.x && p.x <= 4 && 0 <= p.y && p.y <= 3);
        }
    }
}

// With the remaining delta on one axis at zero, the weighted draw can never
// pick that axis: the walk is forced into a straight line.
#[test]
fn random_tunneler_straight_line_is_deterministic() {
    let a = Vector2Int::new(0, 0);
    let b = Vector2Int::new(3, 0);
    for _ in 0..20 {
        let path = RandomTunneler.connect(a, b);
        assert_eq!(
            path,
            vec![
                Vector2Int::new(0, 0),
                Vector2Int::new(1, 0),
                Vector2Int::new(2, 0),
                Vector2Int::new(3, 0),
            ]
        );
    }
}

#[test]
fn area_bounds_and_size() {
    let mut area = Area::new(Tunneler::LShape);
    area.generate_rooms();
    let bounds = area.get_bounds();
    assert_eq!((bounds.0.x, bounds.0.y), (0, 0));
    assert_eq!((bounds.1.x, bounds.1.y), (14, 8));
    let size = area.get_size();
    assert_eq!((size.x, size.y), (15, 9));
}

#[test]
fn area_shift_translates_rigidly() {
    let mut area = Area::new(Tunneler::LShape);
    area.generate_rooms();
    area.shift(Vector2Int::new(20, 30));
    let bounds = area.get_bounds();
    assert_eq!((bounds.0.x, bounds.0.y), (20, 30));
    assert_eq!((bounds.1.x, bounds.1.y), (34, 38));
    assert_eq!(area.rooms[0].a.x, 20);
    assert_eq!(area.rooms[0].a.y, 30);
}

#[test]
fn dungeon_generates_positive_tiles() {
    let mut dungeon = Dungeon::new(3);
    for idx in 0..6 {
        let tun = if idx % 2 == 0 { Tunneler::LShape } else { Tunneler::Random };
        dungeon.add_area(Area::new(tun));
    }
    dungeon.generate();
    assert_eq!(dungeon.areas.len(), 6);
    let tiles = dungeon.to_tiles();
    assert!(!tiles.is_empty());
    for t in &tiles {
        assert!(t.x >= 0 && t.y >= 0);
    }
    for area in &dungeon.areas {
        assert_eq!(area.rooms.len(), 2);
    }
}
