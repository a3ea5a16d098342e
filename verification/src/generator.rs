//! Level generation: build the dungeon, flatten it into the tile grid, sink
//! a few pits, and choose the spawn points.

use vstd::prelude::*;

use crate::board::{CurrentBoard, Piece, TileType};
use crate::dungeon::{area_has_cell, generated_area, rooms_apart, Area, Dungeon, Tunneler};
use crate::posmap::PosMap;
use crate::rng::rand_range_i32;
use crate::vectors::{in_bounds, Vector2Int};

verus! {

/// Every cell of a generated area lies in the non-negative quarter-plane,
/// within the coordinate bounds.
proof fn lemma_generated_cell_bounds(a: Area, c: Vector2Int)
    requires
        generated_area(a),
        area_has_cell(a, c),
    ensures
        0 <= c.x <= 0x0400_0000,
        0 <= c.y <= 0x0400_0000,
        in_bounds(c),
{
    if exists|j: int| 0 <= j < a.rooms@.len() && (#[trigger] a.rooms@[j]).contains_cell(c) {
        let j = choose|j: int| 0 <= j < a.rooms@.len() && (#[trigger] a.rooms@[j]).contains_cell(c);
        assert(a.rooms@[j].a.x >= 0);
    } else {
        let (j, t) = choose|j: int, t: int|
            0 <= j < a.paths@.len() && 0 <= t < a.paths@[j].len() && a.paths@[j][t] == c;
        assert(0 <= a.paths@[j][t].x <= 0x0400_0000 && 0 <= a.paths@[j][t].y <= 0x0400_0000);
    }
}

/// Exactly one spawn point carries the player.
pub open spec fn one_player_spawn(spawns: Map<Vector2Int, Piece>) -> bool {
    &&& exists|k: Vector2Int| spawns.contains_key(k) && spawns[k] == Piece::Player
    &&& forall|k1: Vector2Int, k2: Vector2Int|
        spawns.contains_key(k1) && spawns.contains_key(k2) && spawns[k1] == Piece::Player
            && spawns[k2] == Piece::Player ==> k1 == k2
}

/// The cell lies in a room the spawn pass has already handled: a room of an
/// earlier area, or an earlier room of area `i` (rooms before index `j`).
pub open spec fn spawn_in_earlier_room(areas: Seq<Area>, i: int, j: int, k: Vector2Int) -> bool {
    exists|i2: int, j2: int|
        0 <= i2 < areas.len() && 0 <= j2 < 2 && (i2 < i || (i2 == i && j2 < j))
            && #[trigger] areas[i2].rooms@[j2].contains_cell(k)
}

/// The cell lies strictly inside some room other than the very first one:
/// a later room of the first area, or any room of a later area.
pub open spec fn in_non_first_room_interior(areas: Seq<Area>, k: Vector2Int) -> bool {
    exists|i: int, j: int|
        0 <= i < areas.len() && 0 <= j < 2 && (i > 0 || j > 0)
            && #[trigger] areas[i].rooms@[j].contains_interior_cell(k)
}

/// Build a level: `area_count` areas laid out on `row_count` grid rows,
/// flattened to floor tiles, with a bounded random set of interior cells of
/// the non-first rooms sunk into pits, one player spawn on an interior cell
/// of the first room, and a bounded random number of enemy spawns per later
/// room, placed by bounded rejection sampling on free interior floor cells.
/// The tile grid holds exactly the cells of `area_count` generated areas.
pub fn create_map(area_count: usize, row_count: usize) -> (board: CurrentBoard)
    requires
        1 <= row_count <= area_count,
        area_count <= 0x10000,
    ensures
        board.wf(),
        forall|k: Vector2Int|
            #[trigger] board.tiles@.contains_key(k) ==> 0 <= k.x <= 0x0400_0000 && 0 <= k.y
                <= 0x0400_0000 && (board.tiles@[k] == TileType::BaseFloor || board.tiles@[k]
                == TileType::Pit),
        forall|k: Vector2Int|
            #[trigger] board.spawn_points@.contains_key(k) ==> board.tiles@.contains_key(k)
                && board.tiles@[k] == TileType::BaseFloor,
        one_player_spawn(board.spawn_points@),
        exists|areas: Seq<Area>|
            {
                &&& #[trigger] areas.len() == area_count
                &&& forall|i: int| 0 <= i < areas.len() ==> generated_area(#[trigger] areas[i])
                &&& forall|k: Vector2Int|
                    board.tiles@.contains_key(k) <==> exists|i: int|
                        0 <= i < areas.len() && area_has_cell(#[trigger] areas[i], k)
                &&& forall|k: Vector2Int|
                    #[trigger] board.tiles@.contains_key(k) && board.tiles@[k] == TileType::Pit
                        ==> in_non_first_room_interior(areas, k)
                &&& forall|k: Vector2Int|
                    #[trigger] board.spawn_points@.contains_key(k) && board.spawn_points@[k]
                        == Piece::Player ==> areas[0].rooms@[0].contains_interior_cell(k)
                &&& forall|k: Vector2Int|
                    #[trigger] board.spawn_points@.contains_key(k) && board.spawn_points@[k]
                        == Piece::Enemy ==> in_non_first_room_interior(areas, k)
            },
    {
    let mut dungeon = Dungeon::new(row_count);
    let mut idx: usize = 0;
    while idx < area_count
        invariant
            idx <= area_count <= 0x10000,
            row_count >= 1,
            dungeon.wf(),
            dungeon.row_count() == row_count,
            dungeon.areas@.len() == idx,
        decreases area_count - idx,
    {
        let tun = if idx % 2 == 0 {
            Tunneler::LShape
        } else {
            Tunneler::Random
        };
        dungeon.add_area(Area::new(tun));
        idx += 1;
    }
    dungeon.generate();
    let cells = dungeon.to_tiles();
    proof {
        assert forall|j: int|
            0 <= j < cells@.len() implies 0 <= (#[trigger] cells@[j]).x <= 0x0400_0000 && 0
            <= cells@[j].y <= 0x0400_0000 by {
            assert(cells@.contains(cells@[j]));
            assert(exists|i: int|
                0 <= i < dungeon.areas@.len() && area_has_cell(
                    #[trigger] dungeon.areas@[i],
                    cells@[j],
                ));
            let i = choose|i: int|
                0 <= i < dungeon.areas@.len() && area_has_cell(
                    #[trigger] dungeon.areas@[i],
                    cells@[j],
                );
            lemma_generated_cell_bounds(dungeon.areas@[i], cells@[j]);
        }
    }

    // flatten into the grid: every generated cell is plain floor
    let mut tiles: PosMap<TileType> = PosMap::new();
    let n = cells.len();
    let mut t: usize = 0;
    while t < n
        invariant
            n == cells@.len(),
            t <= n,
            tiles.wf(),
            forall|j: int| 0 <= j < cells@.len() ==> in_bounds(#[trigger] cells@[j]),
            forall|j: int|
                0 <= j < cells@.len() ==> 0 <= (#[trigger] cells@[j]).x <= 0x0400_0000 && 0
                    <= cells@[j].y <= 0x0400_0000,
            forall|j: int| 0 <= j < t ==> tiles@.contains_key(#[trigger] cells@[j]),
            forall|k: Vector2Int|
                #[trigger] tiles@.contains_key(k) ==> in_bounds(k) && 0 <= k.x <= 0x0400_0000 && 0
                    <= k.y <= 0x0400_0000 && tiles@[k] == TileType::BaseFloor,
            forall|k: Vector2Int| #[trigger] tiles@.contains_key(k) ==> cells@.contains(k),
        decreases n - t,
    {
        tiles.insert(cells[t], TileType::BaseFloor);
        t += 1;
    }

    proof {
        assert forall|k: Vector2Int| #[trigger] tiles@.contains_key(k) implies exists|i: int|
            0 <= i < dungeon.areas@.len() && area_has_cell(#[trigger] dungeon.areas@[i], k) by {
            assert(cells@.contains(k));
        }
    }

    // spawn points: the first generated room takes the player; every later
    // room sinks up to three pits and seats a random handful of enemies
    let mut spawn_points: PosMap<Piece> = PosMap::new();
    let mut first_room = true;
    let area_total = dungeon.areas.len();
    let mut i: usize = 0;
    while i < area_total
        invariant
            area_total == dungeon.areas@.len(),
            i <= area_total,
            dungeon.wf(),
            forall|j: int|
                0 <= j < dungeon.areas@.len() ==> generated_area(#[trigger] dungeon.areas@[j]),
            tiles.wf(),
            spawn_points.wf(),
            forall|k: Vector2Int|
                #[trigger] tiles@.contains_key(k) ==> in_bounds(k) && 0 <= k.x <= 0x0400_0000
                    && 0 <= k.y <= 0x0400_0000 && (tiles@[k] == TileType::BaseFloor || tiles@[k]
                    == TileType::Pit),
            forall|k: Vector2Int|
                #[trigger] tiles@.contains_key(k) ==> exists|jj: int|
                    0 <= jj < dungeon.areas@.len() && area_has_cell(
                        #[trigger] dungeon.areas@[jj],
                        k,
                    ),
            forall|j: int, c: Vector2Int|
                0 <= j < dungeon.areas@.len() && #[trigger] area_has_cell(dungeon.areas@[j], c)
                    ==> tiles@.contains_key(c),
            forall|k: Vector2Int|
                #[trigger] spawn_points.view().contains_key(k) ==> tiles@.contains_key(k),
            forall|i1: int, j1: int, i2: int, j2: int|
                0 <= i1 < dungeon.areas@.len() && 0 <= i2 < dungeon.areas@.len() && 0 <= j1 < 2
                    && 0 <= j2 < 2 && (i1 != i2 || j1 != j2) ==> #[trigger] rooms_apart(
                    dungeon.areas@[i1].rooms@[j1],
                    dungeon.areas@[i2].rooms@[j2],
                ),
            first_room ==> forall|k: Vector2Int|
                #[trigger] tiles@.contains_key(k) ==> tiles@[k] == TileType::BaseFloor,
            forall|k: Vector2Int|
                #[trigger] spawn_points@.contains_key(k) ==> tiles@[k] == TileType::BaseFloor,
            forall|k: Vector2Int|
                #[trigger] spawn_points@.contains_key(k) ==> spawn_in_earlier_room(
                    dungeon.areas@,
                    i as int,
                    0,
                    k,
                ),
            forall|k: Vector2Int|
                #[trigger] tiles@.contains_key(k) && tiles@[k] == TileType::Pit
                    ==> in_non_first_room_interior(dungeon.areas@, k),
            forall|k: Vector2Int|
                #[trigger] spawn_points@.contains_key(k) && spawn_points@[k] == Piece::Player
                    ==> dungeon.areas@[0].rooms@[0].contains_interior_cell(k),
            forall|k: Vector2Int|
                #[trigger] spawn_points@.contains_key(k) && spawn_points@[k] == Piece::Enemy
                    ==> in_non_first_room_interior(dungeon.areas@, k),
            !first_room ==> i > 0,
            first_room ==> spawn_points@ =~= Map::<Vector2Int, Piece>::empty(),
            first_room ==> i == 0,
            !first_room ==> one_player_spawn(spawn_points@),
        decreases area_total - i,
    {
        let room_total = dungeon.areas[i].rooms.len();
        let mut j: usize = 0;
        while j < room_total
            invariant
                i < area_total == dungeon.areas@.len(),
                room_total == dungeon.areas@[i as int].rooms@.len(),
                j <= room_total,
                dungeon.wf(),
                forall|jj: int|
                    0 <= jj < dungeon.areas@.len() ==> generated_area(
                        #[trigger] dungeon.areas@[jj],
                    ),
                tiles.wf(),
                spawn_points.wf(),
                forall|k: Vector2Int|
                    #[trigger] tiles@.contains_key(k) ==> in_bounds(k) && 0 <= k.x <= 0x0400_0000
                        && 0 <= k.y <= 0x0400_0000 && (tiles@[k] == TileType::BaseFloor
                        || tiles@[k] == TileType::Pit),
                    forall|k: Vector2Int|
                        #[trigger] tiles@.contains_key(k) ==> exists|jj: int|
                            0 <= jj < dungeon.areas@.len() && area_has_cell(
                                #[trigger] dungeon.areas@[jj],
                                k,
                            ),
                forall|jj: int, c: Vector2Int|
                    0 <= jj < dungeon.areas@.len() && #[trigger] area_has_cell(
                        dungeon.areas@[jj],
                        c,
                    ) ==> tiles@.contains_key(c),
                forall|k: Vector2Int|
                    #[trigger] spawn_points.view().contains_key(k) ==> tiles@.contains_key(k),
                forall|i1: int, j1: int, i2: int, j2: int|
                    0 <= i1 < dungeon.areas@.len() && 0 <= i2 < dungeon.areas@.len() && 0 <= j1 < 2
                        && 0 <= j2 < 2 && (i1 != i2 || j1 != j2) ==> #[trigger] rooms_apart(
                        dungeon.areas@[i1].rooms@[j1],
                        dungeon.areas@[i2].rooms@[j2],
                    ),
                first_room ==> forall|k: Vector2Int|
                    #[trigger] tiles@.contains_key(k) ==> tiles@[k] == TileType::BaseFloor,
                forall|k: Vector2Int|
                    #[trigger] spawn_points@.contains_key(k) ==> tiles@[k] == TileType::BaseFloor,
                forall|k: Vector2Int|
                    #[trigger] spawn_points@.contains_key(k) ==> spawn_in_earlier_room(
                        dungeon.areas@,
                        i as int,
                        j as int,
                        k,
                    ),
                forall|k: Vector2Int|
                    #[trigger] tiles@.contains_key(k) && tiles@[k] == TileType::Pit
                        ==> in_non_first_room_interior(dungeon.areas@, k),
                forall|k: Vector2Int|
                    #[trigger] spawn_points@.contains_key(k) && spawn_points@[k] == Piece::Player
                        ==> dungeon.areas@[0].rooms@[0].contains_interior_cell(k),
                forall|k: Vector2Int|
                    #[trigger] spawn_points@.contains_key(k) && spawn_points@[k] == Piece::Enemy
                        ==> in_non_first_room_interior(dungeon.areas@, k),
                !first_room ==> i > 0 || j > 0,
                first_room ==> spawn_points@ =~= Map::<Vector2Int, Piece>::empty(),
                first_room ==> i == 0 && j == 0,
                !first_room ==> one_player_spawn(spawn_points@),
            decreases room_total - j,
        {
            let room = dungeon.areas[i].rooms[j];
            proof {
                assert(room.b.x - room.a.x == 4 && room.b.y - room.a.y == 6);
            }
            if first_room {
                let p = room.random_point_without_walls();
                proof {
                    assert(room.contains_cell(p));
                    assert(area_has_cell(dungeon.areas@[i as int], p));
                }
                spawn_points.insert(p, Piece::Player);
                first_room = false;
                proof {
                    assert(spawn_points@.contains_key(p) && spawn_points@[p] == Piece::Player);
                    assert(tiles@[p] == TileType::BaseFloor);
                    assert(dungeon.areas@[i as int].rooms@[j as int].contains_cell(p));
                    assert(dungeon.areas@[0].rooms@[0].contains_interior_cell(p));
                    assert forall|k: Vector2Int|
                        #[trigger] spawn_points@.contains_key(k) implies spawn_in_earlier_room(
                        dungeon.areas@,
                        i as int,
                        j as int + 1,
                        k,
                    ) by {
                        assert(k == p);
                    }
                }
            } else {
                // sink up to three random interior cells into pits
                let pit_tries = rand_range_i32(0, 3);
                let mut pt: i32 = 0;
                while pt < pit_tries
                    invariant
                        0 <= pt,
                        pit_tries <= 3,
                        i < dungeon.areas@.len(),
                        dungeon.wf(),
                        forall|jj: int|
                            0 <= jj < dungeon.areas@.len() ==> generated_area(
                                #[trigger] dungeon.areas@[jj],
                            ),
                        room.wf(),
                        room.b.x - room.a.x == 4,
                        room.b.y - room.a.y == 6,
                        j < dungeon.areas@[i as int].rooms@.len(),
                        room == dungeon.areas@[i as int].rooms@[j as int],
                        tiles.wf(),
                        spawn_points.wf(),
                        forall|k: Vector2Int|
                            #[trigger] tiles@.contains_key(k) ==> in_bounds(k) && 0 <= k.x
                                <= 0x0400_0000 && 0 <= k.y <= 0x0400_0000 && (tiles@[k]
                                == TileType::BaseFloor || tiles@[k] == TileType::Pit),
                        forall|k: Vector2Int|
                            #[trigger] tiles@.contains_key(k) ==> exists|jj: int|
                                0 <= jj < dungeon.areas@.len() && area_has_cell(
                                    #[trigger] dungeon.areas@[jj],
                                    k,
                                ),
                        forall|jj: int, c: Vector2Int|
                            0 <= jj < dungeon.areas@.len() && #[trigger] area_has_cell(
                                dungeon.areas@[jj],
                                c,
                            ) ==> tiles@.contains_key(c),
                        forall|k: Vector2Int|
                            #[trigger] spawn_points.view().contains_key(k) ==> tiles@.contains_key(
                                k,
                            ),
                        forall|i1: int, j1: int, i2: int, j2: int|
                            0 <= i1 < dungeon.areas@.len() && 0 <= i2 < dungeon.areas@.len() && 0
                                <= j1 < 2 && 0 <= j2 < 2 && (i1 != i2 || j1 != j2)
                                ==> #[trigger] rooms_apart(
                                dungeon.areas@[i1].rooms@[j1],
                                dungeon.areas@[i2].rooms@[j2],
                            ),
                        !first_room,
                        i > 0 || j > 0,
                        forall|k: Vector2Int|
                            #[trigger] tiles@.contains_key(k) && tiles@[k] == TileType::Pit
                                ==> in_non_first_room_interior(dungeon.areas@, k),
                        forall|k: Vector2Int|
                            #[trigger] spawn_points@.contains_key(k) && spawn_points@[k] == Piece::Player
                                ==> dungeon.areas@[0].rooms@[0].contains_interior_cell(k),
                        forall|k: Vector2Int|
                            #[trigger] spawn_points@.contains_key(k) && spawn_points@[k] == Piece::Enemy
                                ==> in_non_first_room_interior(dungeon.areas@, k),
                        forall|k: Vector2Int|
                            #[trigger] spawn_points@.contains_key(k) ==> tiles@[k]
                                == TileType::BaseFloor,
                        forall|k: Vector2Int|
                            #[trigger] spawn_points@.contains_key(k) ==> spawn_in_earlier_room(
                                dungeon.areas@,
                                i as int,
                                j as int,
                                k,
                            ),
                    decreases pit_tries - pt,
                {
                    let p = room.random_point_without_walls();
                    proof {
                        assert(room.contains_cell(p));
                        assert(area_has_cell(dungeon.areas@[i as int], p));
                        assert(tiles@.contains_key(p));
                        assert(dungeon.areas@[i as int].rooms@[j as int].contains_interior_cell(
                            p,
                        ));
                        assert(in_non_first_room_interior(dungeon.areas@, p));
                    }
                    let ghost tiles0 = tiles@;
                    tiles.insert(p, TileType::Pit);
                    proof {
                        // a pit lands in the room being processed, which sits
                        // apart from every room that already holds a spawn
                        assert forall|k: Vector2Int|
                            #[trigger] spawn_points@.contains_key(k) implies tiles@[k]
                            == TileType::BaseFloor by {
                            let (i2, j2) = choose|i2: int, j2: int|
                                0 <= i2 < dungeon.areas@.len() && 0 <= j2 < 2 && (i2 < i as int || (
                                i2 == i as int && j2 < j as int))
                                    && #[trigger] dungeon.areas@[i2].rooms@[j2].contains_cell(k);
                            assert(rooms_apart(
                                dungeon.areas@[i2].rooms@[j2],
                                dungeon.areas@[i as int].rooms@[j as int],
                            ));
                            assert(k != p);
                            assert(tiles@[k] == tiles0[k]);
                        }
                    }
                    pt += 1;
                }
                // seat a random number of enemies on free floor cells
                let enemies_amount = rand_range_i32(1, 4);
                let mut e: i32 = 0;
                while e < enemies_amount
                    invariant
                        0 <= e,
                        enemies_amount <= 4,
                        i < dungeon.areas@.len(),
                        dungeon.wf(),
                        room.wf(),
                        room.b.x - room.a.x == 4,
                        room.b.y - room.a.y == 6,
                        j < dungeon.areas@[i as int].rooms@.len(),
                        j < 2,
                        room == dungeon.areas@[i as int].rooms@[j as int],
                        tiles.wf(),
                        spawn_points.wf(),
                        forall|k: Vector2Int|
                            #[trigger] tiles@.contains_key(k) ==> in_bounds(k) && 0 <= k.x
                                <= 0x0400_0000 && 0 <= k.y <= 0x0400_0000 && (tiles@[k]
                                == TileType::BaseFloor || tiles@[k] == TileType::Pit),
                        forall|k: Vector2Int|
                            #[trigger] tiles@.contains_key(k) ==> exists|jj: int|
                                0 <= jj < dungeon.areas@.len() && area_has_cell(
                                    #[trigger] dungeon.areas@[jj],
                                    k,
                                ),
                        forall|k: Vector2Int|
                            #[trigger] spawn_points.view().contains_key(k) ==> tiles@.contains_key(
                                k,
                            ),
                        forall|k: Vector2Int|
                            #[trigger] spawn_points@.contains_key(k) ==> tiles@[k]
                                == TileType::BaseFloor,
                        forall|k: Vector2Int|
                            #[trigger] spawn_points@.contains_key(k) ==> spawn_in_earlier_room(
                                dungeon.areas@,
                                i as int,
                                j as int + 1,
                                k,
                            ),
                        i > 0 || j > 0,
                        forall|k: Vector2Int|
                            #[trigger] tiles@.contains_key(k) && tiles@[k] == TileType::Pit
                                ==> in_non_first_room_interior(dungeon.areas@, k),
                        forall|k: Vector2Int|
                            #[trigger] spawn_points@.contains_key(k) && spawn_points@[k] == Piece::Player
                                ==> dungeon.areas@[0].rooms@[0].contains_interior_cell(k),
                        forall|k: Vector2Int|
                            #[trigger] spawn_points@.contains_key(k) && spawn_points@[k] == Piece::Enemy
                                ==> in_non_first_room_interior(dungeon.areas@, k),
                        one_player_spawn(spawn_points@),
                    decreases enemies_amount - e,
                {
                    let mut attempt: u32 = 0;
                    let mut placed = false;
                    while attempt < 5 && !placed
                        invariant
                            attempt <= 5,
                            room.wf(),
                            room.b.x - room.a.x == 4,
                            room.b.y - room.a.y == 6,
                            tiles.wf(),
                            spawn_points.wf(),
                            forall|k: Vector2Int|
                                #[trigger] tiles@.contains_key(k) ==> in_bounds(k) && 0 <= k.x
                                    <= 0x0400_0000 && 0 <= k.y <= 0x0400_0000 && (tiles@[k]
                                    == TileType::BaseFloor || tiles@[k] == TileType::Pit),
                            forall|k: Vector2Int|
                                #[trigger] spawn_points.view().contains_key(k)
                                    ==> tiles@.contains_key(k),
                            forall|k: Vector2Int|
                                #[trigger] spawn_points@.contains_key(k) ==> tiles@[k]
                                    == TileType::BaseFloor,
                            forall|k: Vector2Int|
                                #[trigger] spawn_points@.contains_key(k) ==> spawn_in_earlier_room(
                                    dungeon.areas@,
                                    i as int,
                                    j as int + 1,
                                    k,
                                ),
                            i < dungeon.areas@.len(),
                            j < dungeon.areas@[i as int].rooms@.len(),
                            j < 2,
                            room == dungeon.areas@[i as int].rooms@[j as int],
                            i > 0 || j > 0,
                            forall|k: Vector2Int|
                                #[trigger] tiles@.contains_key(k) && tiles@[k] == TileType::Pit
                                    ==> in_non_first_room_interior(dungeon.areas@, k),
                            forall|k: Vector2Int|
                                #[trigger] spawn_points@.contains_key(k) && spawn_points@[k] == Piece::Player
                                    ==> dungeon.areas@[0].rooms@[0].contains_interior_cell(k),
                            forall|k: Vector2Int|
                                #[trigger] spawn_points@.contains_key(k) && spawn_points@[k] == Piece::Enemy
                                    ==> in_non_first_room_interior(dungeon.areas@, k),
                            one_player_spawn(spawn_points@),
                        decreases 5 - attempt, (if placed { 0int } else { 1int }),
                    {
                        let p = room.random_point_without_walls();
                        let mut is_floor = false;
                        match tiles.get(p) {
                            Some(tt) => match tt {
                                TileType::BaseFloor => {
                                    is_floor = true;
                                },
                                _ => {},
                            },
                            None => {},
                        }
                        if is_floor && !spawn_points.contains_key(p) {
                            let ghost pre = spawn_points@;
                            spawn_points.insert(p, Piece::Enemy);
                            placed = true;
                            proof {
                                let pk = choose|k: Vector2Int|
                                    pre.contains_key(k) && pre[k] == Piece::Player;
                                assert(spawn_points@.contains_key(pk) && spawn_points@[pk]
                                    == Piece::Player);
                                assert(dungeon.areas@[i as int].rooms@[j as int].contains_cell(p));
                                assert(dungeon.areas@[i as int].rooms@[j as int].contains_interior_cell(
                                    p,
                                ));
                                assert(in_non_first_room_interior(dungeon.areas@, p));
                                assert forall|k: Vector2Int|
                                    #[trigger] spawn_points@.contains_key(
                                        k,
                                    ) implies spawn_in_earlier_room(
                                    dungeon.areas@,
                                    i as int,
                                    j as int + 1,
                                    k,
                                ) by {
                                    if k != p {
                                        assert(pre.contains_key(k));
                                    } else {
                                        assert(dungeon.areas@[i as int].rooms@[j as int].contains_cell(
                                            k,
                                        ));
                                    }
                                }
                            }
                        }
                        attempt += 1;
                    }
                    e += 1;
                }
            }
            j += 1;
        }
        i += 1;
    }
    proof {
        assert(exists|areas: Seq<Area>|
            {
                &&& #[trigger] areas.len() == area_count
                &&& forall|ii: int| 0 <= ii < areas.len() ==> generated_area(#[trigger] areas[ii])
                &&& forall|k: Vector2Int|
                    tiles@.contains_key(k) <==> exists|ii: int|
                        0 <= ii < areas.len() && area_has_cell(#[trigger] areas[ii], k)
            }) by {
            assert(dungeon.areas@.len() == area_count);
        }
    }
    CurrentBoard { tiles, spawn_points }
}

} // verus!
