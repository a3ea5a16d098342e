//! Uniform-cost search over the tile grid, honouring passability, occupancy,
//! flight and a distance cap.
//!
//! The search works level by level: every cell of distance `d` from the start
//! is expanded before any cell of distance `d + 1`, so a cell's recorded cost
//! is the length of a shortest route to it. The returned path excludes the
//! start, ends at the target, and is shortest among all valid paths.

use vstd::prelude::*;

use crate::board::TileType;
use crate::posmap::PosMap;
use crate::vectors::{adjacent, in_bounds, manhattan_s, ortho_dirs, ortho_directions, Node,
    Vector2Int};

verus! {

/// Component-wise sum at the specification level.
pub open spec fn vadd(a: Vector2Int, b: Vector2Int) -> Vector2Int {
    Vector2Int { x: (a.x + b.x) as i32, y: (a.y + b.y) as i32 }
}

/// A cell the search may stand on: generated, and either plain floor or a
/// pit crossed by a flying actor.
pub open spec fn walkable(tiles: Map<Vector2Int, TileType>, is_flying: bool, c: Vector2Int) -> bool {
    tiles.contains_key(c) && match tiles[c] {
        TileType::BaseFloor => true,
        TileType::Pit => is_flying,
        TileType::Void => false,
    }
}

/// A cell the search may enter: walkable and unoccupied, except that the
/// target itself may be occupied.
pub open spec fn passable(
    tiles: Map<Vector2Int, TileType>,
    blockers: Seq<Vector2Int>,
    is_flying: bool,
    end: Vector2Int,
    c: Vector2Int,
) -> bool {
    walkable(tiles, is_flying, c) && (c == end || !blockers.contains(c))
}

/// An ordered, non-empty run of cells leaving `start`: the first cell is one
/// step from `start`, consecutive cells are one step apart, and every cell is
/// passable (with the occupancy exception at `end`).
pub open spec fn is_route(
    tiles: Map<Vector2Int, TileType>,
    blockers: Seq<Vector2Int>,
    is_flying: bool,
    start: Vector2Int,
    end: Vector2Int,
    p: Seq<Vector2Int>,
) -> bool {
    &&& p.len() > 0
    &&& adjacent(start, p[0])
    &&& forall|i: int| 0 <= i < p.len() - 1 ==> adjacent(#[trigger] p[i], p[i + 1])
    &&& forall|i: int| 0 <= i < p.len() ==> passable(tiles, blockers, is_flying, end, #[trigger] p[i])
}

/// A valid path from `start` to `end`: a route whose last cell is `end`.
pub open spec fn is_path(
    tiles: Map<Vector2Int, TileType>,
    blockers: Seq<Vector2Int>,
    is_flying: bool,
    start: Vector2Int,
    end: Vector2Int,
    p: Seq<Vector2Int>,
) -> bool {
    is_route(tiles, blockers, is_flying, start, end, p) && p.last() == end
}

/// Every orthogonal unit step is a bounded coordinate.
proof fn lemma_dirs_in_bounds()
    ensures
        forall|k: int| 0 <= k < 4 ==> in_bounds(#[trigger] ortho_dirs()[k]),
{
}

/// Two adjacent cells differ by exactly one orthogonal unit step.
proof fn lemma_adjacent_is_dir(a: Vector2Int, b: Vector2Int)
    requires
        adjacent(a, b),
    ensures
        exists|k: int| 0 <= k < 4 && b == vadd(a, #[trigger] ortho_dirs()[k]),
{
    if b.x == a.x + 1 {
        assert(b == vadd(a, ortho_dirs()[3]));
    } else if b.x + 1 == a.x {
        assert(b == vadd(a, ortho_dirs()[2]));
    } else if b.y == a.y + 1 {
        assert(b == vadd(a, ortho_dirs()[0]));
    } else {
        assert(b == vadd(a, ortho_dirs()[1]));
    }
}

/// All neighbours of `u` that the search may enter are already recorded, with
/// a cost at most one above `u`'s.
pub open spec fn expansion_closed(
    tiles: Map<Vector2Int, TileType>,
    blockers: Seq<Vector2Int>,
    is_flying: bool,
    end: Vector2Int,
    visited: Map<Vector2Int, u32>,
    u: Vector2Int,
) -> bool {
    forall|k: int|
        0 <= k < 4 ==> {
            let n = vadd(u, #[trigger] ortho_dirs()[k]);
            passable(tiles, blockers, is_flying, end, n) ==> visited.contains_key(n)
                && visited[n] <= visited[u] + 1
        }
}

/// Closure holds of every recorded cell below cost `h`, the target excepted.
pub open spec fn closed_below(
    tiles: Map<Vector2Int, TileType>,
    blockers: Seq<Vector2Int>,
    is_flying: bool,
    end: Vector2Int,
    visited: Map<Vector2Int, u32>,
    h: int,
) -> bool {
    forall|u: Vector2Int|
        #[trigger] visited.contains_key(u) && u != end && visited[u] < h ==> expansion_closed(
            tiles,
            blockers,
            is_flying,
            end,
            visited,
            u,
        )
}

/// `visited2` extends `visited` without changing recorded costs.
pub open spec fn grows(visited: Map<Vector2Int, u32>, visited2: Map<Vector2Int, u32>) -> bool {
    forall|k: Vector2Int|
        #[trigger] visited.contains_key(k) ==> visited2.contains_key(k) && visited2[k] == visited[k]
}

proof fn lemma_closed_grow(
    tiles: Map<Vector2Int, TileType>,
    blockers: Seq<Vector2Int>,
    is_flying: bool,
    end: Vector2Int,
    visited: Map<Vector2Int, u32>,
    visited2: Map<Vector2Int, u32>,
    u: Vector2Int,
)
    requires
        visited.contains_key(u),
        expansion_closed(tiles, blockers, is_flying, end, visited, u),
        grows(visited, visited2),
    ensures
        expansion_closed(tiles, blockers, is_flying, end, visited2, u),
{
}

proof fn lemma_closed_below_grow(
    tiles: Map<Vector2Int, TileType>,
    blockers: Seq<Vector2Int>,
    is_flying: bool,
    end: Vector2Int,
    visited: Map<Vector2Int, u32>,
    visited2: Map<Vector2Int, u32>,
    h: int,
)
    requires
        closed_below(tiles, blockers, is_flying, end, visited, h),
        grows(visited, visited2),
        forall|k: Vector2Int|
            #[trigger] visited2.contains_key(k) && !visited.contains_key(k) ==> visited2[k] >= h,
    ensures
        closed_below(tiles, blockers, is_flying, end, visited2, h),
{
    assert forall|u: Vector2Int|
        #[trigger] visited2.contains_key(u) && u != end && visited2[u] < h implies expansion_closed(
        tiles,
        blockers,
        is_flying,
        end,
        visited2,
        u,
    ) by {
        assert(visited.contains_key(u));
        lemma_closed_grow(tiles, blockers, is_flying, end, visited, visited2, u);
    }
}

/// Completeness of the search state: whenever the recorded cells are
/// expansion-closed below `h`, any route of length at most `h` that avoids
/// the target until its last cell ends on a recorded cell, at a cost no
/// larger than the route's length.
proof fn lemma_bfs_complete(
    tiles: Map<Vector2Int, TileType>,
    blockers: Seq<Vector2Int>,
    is_flying: bool,
    start: Vector2Int,
    end: Vector2Int,
    visited: Map<Vector2Int, u32>,
    h: int,
    q: Seq<Vector2Int>,
)
    requires
        start != end,
        visited.contains_key(start),
        visited[start] == 0,
        closed_below(tiles, blockers, is_flying, end, visited, h),
        is_route(tiles, blockers, is_flying, start, end, q),
        forall|i: int| 0 <= i < q.len() - 1 ==> q[i] != end,
        q.len() <= h,
    ensures
        visited.contains_key(q.last()),
        visited[q.last()] <= q.len(),
    decreases q.len(),
{
    if q.len() == 1 {
        lemma_adjacent_is_dir(start, q[0]);
        assert(expansion_closed(tiles, blockers, is_flying, end, visited, start));
    } else {
        let q2 = q.drop_last();
        assert(is_route(tiles, blockers, is_flying, start, end, q2));
        lemma_bfs_complete(tiles, blockers, is_flying, start, end, visited, h - 1, q2);
        let u = q2.last();
        assert(u == q[q.len() - 2]);
        assert(u != end);
        assert(visited[u] < h);
        assert(expansion_closed(tiles, blockers, is_flying, end, visited, u));
        assert(adjacent(q[q.len() - 2], q[q.len() - 1]));
        lemma_adjacent_is_dir(u, q.last());
    }
}

/// The search bookkeeping: the start is recorded at cost zero, every other
/// recorded cell is passable, has a back-pointer to an adjacent recorded cell
/// of exactly one lower cost, and back-pointers stand only on recorded cells.
pub open spec fn inv_core(
    tiles: Map<Vector2Int, TileType>,
    blockers: Seq<Vector2Int>,
    is_flying: bool,
    start: Vector2Int,
    end: Vector2Int,
    vis: Map<Vector2Int, u32>,
    came: Map<Vector2Int, Vector2Int>,
) -> bool {
    &&& vis.contains_key(start)
    &&& vis[start] == 0
    &&& !came.contains_key(start)
    &&& forall|k: Vector2Int| #[trigger] vis.contains_key(k) ==> in_bounds(k)
    &&& forall|k: Vector2Int|
        #[trigger] vis.contains_key(k) && k != start ==> came.contains_key(k) && adjacent(came[k], k)
            && vis.contains_key(came[k]) && vis[came[k]] + 1 == vis[k] && passable(
            tiles,
            blockers,
            is_flying,
            end,
            k,
        )
    &&& forall|k: Vector2Int| #[trigger] came.contains_key(k) ==> vis.contains_key(k) && k != start
}

/// Every listed node is recorded at cost `c` and carries that cost.
pub open spec fn level_nodes(vis: Map<Vector2Int, u32>, nodes: Seq<Node>, c: u32) -> bool {
    forall|j: int|
        0 <= j < nodes.len() ==> vis.contains_key(#[trigger] nodes[j].v) && vis[nodes[j].v] == c
            && nodes[j].cost == c
}

/// Every cell recorded at cost `c` stands in the node list.
pub open spec fn level_covered(vis: Map<Vector2Int, u32>, nodes: Seq<Node>, c: u32) -> bool {
    forall|k: Vector2Int|
        #[trigger] vis.contains_key(k) && vis[k] == c ==> exists|j: int|
            0 <= j < nodes.len() && nodes[j].v == k
}

/// Whether `c` occurs in `cells`.
pub(crate) fn contains_cell(cells: &Vec<Vector2Int>, c: Vector2Int) -> (r: bool)
    ensures
        r == cells@.contains(c),
{
    let n = cells.len();
    let mut i: usize = 0;
    while i < n
        invariant
            n == cells@.len(),
            i <= n,
            forall|j: int| 0 <= j < i ==> cells@[j] != c,
        decreases n - i,
    {
        if cells[i] == c {
            return true;
        }
        i += 1;
    }
    false
}

/// Expand one frontier cell of cost `d`: record every passable, not yet
/// recorded neighbour at cost `d + 1` with a back-pointer to `v`, and push it
/// on the next frontier. Returns whether the target was newly recorded.
#[verifier::rlimit(30)]
fn expand_node(
    tiles: &PosMap<TileType>,
    blockers: &Vec<Vector2Int>,
    is_flying: bool,
    start: Vector2Int,
    end: Vector2Int,
    v: Vector2Int,
    d: u32,
    visited: &mut PosMap<u32>,
    came_from: &mut PosMap<Vector2Int>,
    next: &mut Vec<Node>,
) -> (found: bool)
    requires
        tiles.wf(),
        forall|k: Vector2Int| tiles@.contains_key(k) ==> in_bounds(k),
        in_bounds(start),
        start != end,
        old(visited).wf(),
        old(came_from).wf(),
        inv_core(tiles@, blockers@, is_flying, start, end, old(visited)@, old(came_from)@),
        old(visited)@.contains_key(v),
        old(visited)@[v] == d,
        v != end,
        d < 0xffff_ffffu32,
        forall|k: Vector2Int| #[trigger] old(visited)@.contains_key(k) ==> old(visited)@[k] <= d + 1,
        level_nodes(old(visited)@, old(next)@, (d + 1) as u32),
        level_covered(old(visited)@, old(next)@, (d + 1) as u32),
    ensures
        final(visited).wf(),
        final(came_from).wf(),
        inv_core(tiles@, blockers@, is_flying, start, end, final(visited)@, final(came_from)@),
        grows(old(visited)@, final(visited)@),
        forall|k: Vector2Int|
            #[trigger] final(visited)@.contains_key(k) && !old(visited)@.contains_key(k)
                ==> final(visited)@[k] == d + 1,
        forall|k: Vector2Int|
            #[trigger] final(visited)@.contains_key(k) ==> final(visited)@[k] <= d + 1,
        level_nodes(final(visited)@, final(next)@, (d + 1) as u32),
        level_covered(final(visited)@, final(next)@, (d + 1) as u32),
        expansion_closed(tiles@, blockers@, is_flying, end, final(visited)@, v),
        final(visited)@.contains_key(end) == (old(visited)@.contains_key(end) || found),
{
    let dirs = ortho_directions();
    let mut found = false;
    let mut k: usize = 0;
    while k < 4
        invariant
            tiles.wf(),
            forall|kk: Vector2Int| tiles@.contains_key(kk) ==> in_bounds(kk),
            in_bounds(start),
            start != end,
            dirs@ =~= ortho_dirs(),
            visited.wf(),
            came_from.wf(),
            inv_core(tiles@, blockers@, is_flying, start, end, visited@, came_from@),
            visited@.contains_key(v),
            visited@[v] == d,
            v != end,
            d < 0xffff_ffffu32,
            k <= 4,
            grows(old(visited)@, visited@),
            forall|kk: Vector2Int|
                #[trigger] visited@.contains_key(kk) && !old(visited)@.contains_key(kk)
                    ==> visited@[kk] == d + 1,
            forall|kk: Vector2Int|
                #[trigger] visited@.contains_key(kk) ==> visited@[kk] <= d + 1,
            level_nodes(visited@, next@, (d + 1) as u32),
            level_covered(visited@, next@, (d + 1) as u32),
            visited@.contains_key(end) == (old(visited)@.contains_key(end) || found),
            forall|kk: int|
                0 <= kk < k ==> {
                    let n = vadd(v, #[trigger] ortho_dirs()[kk]);
                    passable(tiles@, blockers@, is_flying, end, n) ==> visited@.contains_key(n)
                        && visited@[n] <= d + 1
                },
        decreases 4 - k,
    {
        let dir = dirs[k];
        proof {
            lemma_dirs_in_bounds();
            assert(in_bounds(v));
        }
        let n = v.plus(dir);
        assert(n == vadd(v, ortho_dirs()[k as int]));
        let mut ok = false;
        match tiles.get(n) {
            Some(t) => match t {
                TileType::BaseFloor => {
                    ok = true;
                },
                TileType::Pit => {
                    ok = is_flying;
                },
                TileType::Void => {
                    ok = false;
                },
            },
            None => {
                ok = false;
            },
        }
        assert(ok == walkable(tiles@, is_flying, n));
        if ok && n != end && contains_cell(blockers, n) {
            ok = false;
        }
        assert(ok == passable(tiles@, blockers@, is_flying, end, n));
        if ok {
            if !visited.contains_key(n) {
                let ghost vis0 = visited@;
                let ghost came0 = came_from@;
                let ghost next0 = next@;
                visited.insert(n, d + 1);
                came_from.insert(n, v);
                next.push(Node { v: n, cost: d + 1 });
                if n == end {
                    found = true;
                }
                proof {
                    assert(in_bounds(n));
                    assert(adjacent(v, n)) by {
                        assert(ortho_dirs().contains(ortho_dirs()[k as int]));
                    }
                    assert(inv_core(
                        tiles@,
                        blockers@,
                        is_flying,
                        start,
                        end,
                        visited@,
                        came_from@,
                    )) by {
                        assert(n != start);
                        assert forall|kk: Vector2Int|
                            #[trigger] visited@.contains_key(kk) && kk != start implies came_from@
                            .contains_key(kk) && adjacent(came_from@[kk], kk)
                            && visited@.contains_key(came_from@[kk]) && visited@[came_from@[kk]] + 1
                            == visited@[kk] && passable(
                            tiles@,
                            blockers@,
                            is_flying,
                            end,
                            kk,
                        ) by {
                            if kk == n {
                                assert(came_from@[n] == v);
                                assert(visited@[v] == d);
                            } else {
                                assert(vis0.contains_key(kk));
                            }
                        }
                    }
                    assert(level_covered(visited@, next@, (d + 1) as u32)) by {
                        assert forall|kk: Vector2Int|
                            #[trigger] visited@.contains_key(kk) && visited@[kk] == d + 1 implies exists|
                            j: int,
                        | 0 <= j < next@.len() && next@[j].v == kk by {
                            if kk == n {
                                assert(next@[next@.len() - 1].v == n);
                            } else {
                                assert(vis0.contains_key(kk) && vis0[kk] == d + 1);
                                let j = choose|j: int| 0 <= j < next0.len() && next0[j].v == kk;
                                assert(next@[j].v == kk);
                            }
                        }
                    }
                }
            }
        }
        k += 1;
    }
    proof {
        assert(expansion_closed(tiles@, blockers@, is_flying, end, visited@, v));
    }
    found
}

/// Any path to `end` contains a prefix that is itself a path to `end` and
/// meets `end` only at its last cell.
proof fn lemma_trim_path(
    tiles: Map<Vector2Int, TileType>,
    blockers: Seq<Vector2Int>,
    is_flying: bool,
    start: Vector2Int,
    end: Vector2Int,
    q: Seq<Vector2Int>,
) -> (t: Seq<Vector2Int>)
    requires
        is_path(tiles, blockers, is_flying, start, end, q),
    ensures
        is_path(tiles, blockers, is_flying, start, end, t),
        forall|i: int| 0 <= i < t.len() - 1 ==> t[i] != end,
        t.len() <= q.len(),
    decreases q.len(),
{
    if exists|i: int| 0 <= i < q.len() - 1 && q[i] == end {
        let i = choose|i: int| 0 <= i < q.len() - 1 && q[i] == end;
        let q2 = q.subrange(0, i + 1);
        assert(q2.last() == end);
        assert(is_path(tiles, blockers, is_flying, start, end, q2));
        lemma_trim_path(tiles, blockers, is_flying, start, end, q2)
    } else {
        q
    }
}

/// Expand every frontier cell of cost `d` once, building the next frontier.
/// On return the record is expansion-closed below `d + 1`.
#[verifier::rlimit(60)]
fn process_level(
    tiles: &PosMap<TileType>,
    blockers: &Vec<Vector2Int>,
    is_flying: bool,
    start: Vector2Int,
    end: Vector2Int,
    d: u32,
    current: &Vec<Node>,
    visited: &mut PosMap<u32>,
    came_from: &mut PosMap<Vector2Int>,
) -> (res: (Vec<Node>, bool))
    requires
        tiles.wf(),
        forall|k: Vector2Int| tiles@.contains_key(k) ==> in_bounds(k),
        in_bounds(start),
        start != end,
        old(visited).wf(),
        old(came_from).wf(),
        inv_core(tiles@, blockers@, is_flying, start, end, old(visited)@, old(came_from)@),
        d < 0xffff_ffffu32,
        forall|k: Vector2Int| #[trigger] old(visited)@.contains_key(k) ==> old(visited)@[k] <= d,
        level_nodes(old(visited)@, current@, d),
        level_covered(old(visited)@, current@, d),
        closed_below(tiles@, blockers@, is_flying, end, old(visited)@, d as int),
        !old(visited)@.contains_key(end),
    ensures
        final(visited).wf(),
        final(came_from).wf(),
        inv_core(tiles@, blockers@, is_flying, start, end, final(visited)@, final(came_from)@),
        grows(old(visited)@, final(visited)@),
        forall|k: Vector2Int|
            #[trigger] final(visited)@.contains_key(k) ==> final(visited)@[k] <= d + 1,
        level_nodes(final(visited)@, res.0@, (d + 1) as u32),
        level_covered(final(visited)@, res.0@, (d + 1) as u32),
        closed_below(tiles@, blockers@, is_flying, end, final(visited)@, d + 1),
        res.1 == final(visited)@.contains_key(end),
{
    let ghost vis_level = visited@;
    let mut next: Vec<Node> = Vec::new();
    let mut found = false;
    let mut i: usize = 0;
    while i < current.len()
        invariant
            tiles.wf(),
            forall|k: Vector2Int| tiles@.contains_key(k) ==> in_bounds(k),
            in_bounds(start),
            start != end,
            visited.wf(),
            came_from.wf(),
            inv_core(tiles@, blockers@, is_flying, start, end, visited@, came_from@),
            d < 0xffff_ffffu32,
            i <= current.len(),
            vis_level == old(visited)@,
            level_nodes(vis_level, current@, d),
            !vis_level.contains_key(end),
            grows(vis_level, visited@),
            forall|k: Vector2Int|
                #[trigger] visited@.contains_key(k) && !vis_level.contains_key(k)
                    ==> visited@[k] == d + 1,
            forall|k: Vector2Int| #[trigger] visited@.contains_key(k) ==> visited@[k] <= d + 1,
            level_nodes(visited@, next@, (d + 1) as u32),
            level_covered(visited@, next@, (d + 1) as u32),
            found == visited@.contains_key(end),
            forall|j: int|
                0 <= j < i ==> expansion_closed(
                    tiles@,
                    blockers@,
                    is_flying,
                    end,
                    visited@,
                    #[trigger] current@[j].v,
                ),
        decreases current.len() - i,
    {
        let v = current[i].v;
        proof {
            assert(vis_level.contains_key(v) && vis_level[v] == d);
            assert(visited@.contains_key(v) && visited@[v] == d);
            assert(v != end);
            assert(in_bounds(v));
        }
        let ghost vis_pre = visited@;
        let f2 = expand_node(
            tiles,
            blockers,
            is_flying,
            start,
            end,
            v,
            d,
            visited,
            came_from,
            &mut next,
        );
        found = found || f2;
        proof {
            assert forall|j: int| 0 <= j < i + 1 implies expansion_closed(
                tiles@,
                blockers@,
                is_flying,
                end,
                visited@,
                #[trigger] current@[j].v,
            ) by {
                if j < i {
                    lemma_closed_grow(
                        tiles@,
                        blockers@,
                        is_flying,
                        end,
                        vis_pre,
                        visited@,
                        current@[j].v,
                    );
                }
            }
        }
        i += 1;
    }
    proof {
        lemma_closed_below_grow(
            tiles@,
            blockers@,
            is_flying,
            end,
            vis_level,
            visited@,
            d as int,
        );
        // after the whole level is expanded, closure extends one level up
        assert(closed_below(tiles@, blockers@, is_flying, end, visited@, d + 1)) by {
            assert forall|u: Vector2Int|
                #[trigger] visited@.contains_key(u) && u != end && visited@[u] < d + 1 implies expansion_closed(
                tiles@,
                blockers@,
                is_flying,
                end,
                visited@,
                u,
            ) by {
                if visited@[u] == d {
                    assert(vis_level.contains_key(u) && vis_level[u] == d);
                    let j = choose|j: int| 0 <= j < current@.len() && current@[j].v == u;
                    assert(expansion_closed(tiles@, blockers@, is_flying, end, visited@, u));
                }
            }
        }
    }
    (next, found)
}

/// What the pathfinder guarantees of its result: a returned path is a valid
/// shortest path within the cap, and `None` comes only when no valid path
/// fits the cap (or the start already is the target).
pub open spec fn find_path_post(
    tiles: Map<Vector2Int, TileType>,
    blockers: Seq<Vector2Int>,
    is_flying: bool,
    start: Vector2Int,
    end: Vector2Int,
    max_distance: int,
    r: Option<Seq<Vector2Int>>,
) -> bool {
    match r {
        Some(p) => {
            &&& start != end
            &&& is_path(tiles, blockers, is_flying, start, end, p)
            &&& p.len() <= max_distance
            &&& forall|i: int, j: int| 0 <= i < j < p.len() ==> p[i] != p[j]
            &&& forall|i: int| 0 <= i < p.len() ==> p[i] != start
            &&& forall|q: Seq<Vector2Int>|
                is_path(tiles, blockers, is_flying, start, end, q) ==> p.len() <= q.len()
        },
        None => start == end || (forall|q: Seq<Vector2Int>|
            is_path(tiles, blockers, is_flying, start, end, q) ==> q.len() > max_distance),
    }
}

/// Uniform-cost search from `start` to `end` over 4-connected neighbours.
///
/// Cells absent from `tiles` or of kind `Void` are never entered; `Pit` cells
/// only when flying; cells in `blockers` only when they are `end` itself.
/// On success the result lists the cells of a shortest valid path, from the
/// first step (the start excluded) to `end`, and is no longer than
/// `max_distance`. `None` comes exactly when no valid path of length at most
/// `max_distance` exists — or when `start == end`, for which no route is
/// searched.
#[verifier::rlimit(100)]
pub fn find_path(
    start: Vector2Int,
    end: Vector2Int,
    tiles: &PosMap<TileType>,
    blockers: &Vec<Vector2Int>,
    is_flying: bool,
    max_distance: usize,
) -> (r: Option<Vec<Vector2Int>>)
    requires
        tiles.wf(),
        forall|k: Vector2Int| tiles@.contains_key(k) ==> in_bounds(k),
        in_bounds(start),
        max_distance <= 0xffff_ffff,
    ensures
        find_path_post(
            tiles@,
            blockers@,
            is_flying,
            start,
            end,
            max_distance as int,
            match r {
                Some(ref p) => Some(p@),
                None => None,
            },
        ),
{
    if start == end {
        return None;
    }
    let mut visited: PosMap<u32> = PosMap::new();
    let mut came_from: PosMap<Vector2Int> = PosMap::new();
    visited.insert(start, 0);
    let mut current: Vec<Node> = Vec::new();
    current.push(Node { v: start, cost: 0 });
    let mut d: u32 = 0;
    let mut found = false;
    proof {
        assert(current@[0] == (Node { v: start, cost: 0u32 }));
        assert forall|k: Vector2Int|
            #[trigger] visited@.contains_key(k) && visited@[k] == 0 implies exists|j: int|
            0 <= j < current@.len() && current@[j].v == k by {
            assert(current@[0].v == k);
        }
    }

    while !found && current.len() > 0 && (d as usize) < max_distance
        invariant
            tiles.wf(),
            forall|k: Vector2Int| tiles@.contains_key(k) ==> in_bounds(k),
            in_bounds(start),
            start != end,
            max_distance <= 0xffff_ffff,
            visited.wf(),
            came_from.wf(),
            inv_core(tiles@, blockers@, is_flying, start, end, visited@, came_from@),
            d as usize <= max_distance,
            forall|k: Vector2Int| #[trigger] visited@.contains_key(k) ==> visited@[k] <= d,
            level_nodes(visited@, current@, d),
            level_covered(visited@, current@, d),
            closed_below(tiles@, blockers@, is_flying, end, visited@, d as int),
            found == visited@.contains_key(end),
        decreases max_distance - d as usize,
    {
        let r = process_level(
            tiles,
            blockers,
            is_flying,
            start,
            end,
            d,
            &current,
            &mut visited,
            &mut came_from,
        );
        found = r.1;
        current = r.0;
        d = d + 1;
    }

    if !found {
        proof {
            assert forall|q: Seq<Vector2Int>|
                is_path(tiles@, blockers@, is_flying, start, end, q) implies q.len()
                > max_distance by {
                let t = lemma_trim_path(tiles@, blockers@, is_flying, start, end, q);
                if t.len() <= max_distance {
                    if current@.len() == 0 {
                        // an empty frontier means every recorded cell lies
                        // strictly below the current level, so closure holds
                        // at any horizon
                        assert(closed_below(
                            tiles@,
                            blockers@,
                            is_flying,
                            end,
                            visited@,
                            t.len() as int,
                        )) by {
                            assert forall|u: Vector2Int|
                                #[trigger] visited@.contains_key(u) && u != end && visited@[u]
                                    < t.len() implies expansion_closed(
                                tiles@,
                                blockers@,
                                is_flying,
                                end,
                                visited@,
                                u,
                            ) by {
                                assert(visited@[u] < d);
                            }
                        }
                        lemma_bfs_complete(
                            tiles@,
                            blockers@,
                            is_flying,
                            start,
                            end,
                            visited@,
                            t.len() as int,
                            t,
                        );
                        assert(false);
                    } else {
                        assert(d as usize == max_distance);
                        lemma_bfs_complete(
                            tiles@,
                            blockers@,
                            is_flying,
                            start,
                            end,
                            visited@,
                            d as int,
                            t,
                        );
                        assert(false);
                    }
                }
            }
        }
        return None;
    }

    // walk the back-pointers from the target to the start
    let mut rev: Vec<Vector2Int> = Vec::new();
    let mut cur = end;
    while cur != start
        invariant
            visited.wf(),
            came_from.wf(),
            inv_core(tiles@, blockers@, is_flying, start, end, visited@, came_from@),
            visited@.contains_key(end),
            visited@.contains_key(cur),
            visited@[cur] + rev@.len() == visited@[end],
            rev@.len() == 0 ==> cur == end,
            rev@.len() > 0 ==> rev@[0] == end,
            forall|t: int|
                0 <= t < rev@.len() ==> visited@.contains_key(#[trigger] rev@[t])
                    && visited@[rev@[t]] + t == visited@[end],
            rev@.len() > 0 ==> adjacent(cur, rev@[rev@.len() - 1]),
            forall|t: int| 0 <= t < rev@.len() - 1 ==> adjacent(#[trigger] rev@[t + 1], rev@[t]),
            forall|t: int|
                0 <= t < rev@.len() ==> passable(
                    tiles@,
                    blockers@,
                    is_flying,
                    end,
                    #[trigger] rev@[t],
                ),
        decreases visited@[cur],
    {
        rev.push(cur);
        let prev_opt = came_from.get(cur);
        let prev = match prev_opt {
            Some(p) => *p,
            None => {
                proof {
                    assert(came_from@.contains_key(cur));
                }
                // unreachable: every recorded cell but the start has a
                // back-pointer
                cur
            },
        };
        cur = prev;
    }
    proof {
        assert(rev@.len() == visited@[end]);
        assert(rev@.len() > 0) by {
            if rev@.len() == 0 {
                assert(cur == end);
            }
        }
    }

    // reverse into first-step .. end order
    let mut path: Vec<Vector2Int> = Vec::new();
    let mut j = rev.len();
    while j > 0
        invariant
            j <= rev@.len(),
            path@.len() == rev@.len() - j,
            forall|t: int| 0 <= t < path@.len() ==> path@[t] == rev@[rev@.len() - 1 - t],
        decreases j,
    {
        j -= 1;
        path.push(rev[j]);
    }
    proof {
        let p = path@;
        let ghost n = rev@.len();
        assert(p.len() == n);
        assert(p[0] == rev@[n - 1]);
        assert(adjacent(start, p[0]));
        assert(p.last() == rev@[0]);
        assert forall|t: int| 0 <= t < p.len() - 1 implies adjacent(#[trigger] p[t], p[t + 1]) by {
            assert(p[t] == rev@[n - 1 - t]);
            assert(p[t + 1] == rev@[n - 2 - t]);
            assert(adjacent(rev@[(n - 2 - t) + 1], rev@[n - 2 - t]));
        }
        assert(is_path(tiles@, blockers@, is_flying, start, end, path@));
        assert(path@.len() <= max_distance);
        // each reconstructed cell carries a distinct recorded cost, so the
        // cells are pairwise distinct and none is the start
        assert forall|t1: int, t2: int| 0 <= t1 < t2 < p.len() implies p[t1] != p[t2] by {
            assert(p[t1] == rev@[n - 1 - t1]);
            assert(p[t2] == rev@[n - 1 - t2]);
            assert(visited@[rev@[n - 1 - t1]] != visited@[rev@[n - 1 - t2]]);
        }
        assert forall|t: int| 0 <= t < p.len() implies p[t] != start by {
            assert(p[t] == rev@[n - 1 - t]);
            assert(visited@[rev@[n - 1 - t]] == visited@[end] - (n - 1 - t));
            assert(visited@[rev@[n - 1 - t]] >= 1);
        }
        // optimality: any valid path is at least as long as the recorded
        // shortest distance to the target
        assert forall|q: Seq<Vector2Int>|
            is_path(tiles@, blockers@, is_flying, start, end, q) implies path@.len() <= q.len() by {
            let t = lemma_trim_path(tiles@, blockers@, is_flying, start, end, q);
            if t.len() <= d as int {
                lemma_bfs_complete(
                    tiles@,
                    blockers@,
                    is_flying,
                    start,
                    end,
                    visited@,
                    d as int,
                    t,
                );
            } else {
                assert(visited@[end] <= d);
            }
        }
    }
    Some(path)
}

/// The axis-aligned rectangle spanned by two corners, inclusive.
pub open spec fn in_rect(a: Vector2Int, b: Vector2Int, c: Vector2Int) -> bool {
    &&& (a.x <= c.x <= b.x || b.x <= c.x <= a.x)
    &&& (a.y <= c.y <= b.y || b.y <= c.y <= a.y)
}

/// Each step changes the Manhattan distance from a fixed origin by at most
/// one, so any route is at least as long as the distance it covers.
proof fn lemma_route_len_ge_manhattan(
    tiles: Map<Vector2Int, TileType>,
    blockers: Seq<Vector2Int>,
    is_flying: bool,
    start: Vector2Int,
    end: Vector2Int,
    q: Seq<Vector2Int>,
)
    requires
        is_route(tiles, blockers, is_flying, start, end, q),
    ensures
        q.len() >= manhattan_s(start, q.last()),
    decreases q.len(),
{
    if q.len() > 1 {
        let q2 = q.drop_last();
        assert(is_route(tiles, blockers, is_flying, start, end, q2));
        lemma_route_len_ge_manhattan(tiles, blockers, is_flying, start, end, q2);
        assert(adjacent(q[q.len() - 2], q[q.len() - 1]));
    }
}

/// On an all-floor, unoccupied rectangle a straight L-shaped walk from
/// `start` to `end` is a valid path of length exactly the Manhattan distance.
proof fn lemma_build_straight_path(
    tiles: Map<Vector2Int, TileType>,
    blockers: Seq<Vector2Int>,
    is_flying: bool,
    start: Vector2Int,
    end: Vector2Int,
) -> (p: Seq<Vector2Int>)
    requires
        start != end,
        in_bounds(start),
        in_bounds(end),
        forall|c: Vector2Int|
            in_rect(start, end, c) ==> tiles.contains_key(c) && tiles[c]
                == TileType::BaseFloor,
        forall|c: Vector2Int| !blockers.contains(c),
    ensures
        is_path(tiles, blockers, is_flying, start, end, p),
        p.len() == manhattan_s(start, end),
    decreases manhattan_s(start, end),
{
    let step = if start.x < end.x {
        Vector2Int { x: (start.x + 1) as i32, y: start.y }
    } else if start.x > end.x {
        Vector2Int { x: (start.x - 1) as i32, y: start.y }
    } else if start.y < end.y {
        Vector2Int { x: start.x, y: (start.y + 1) as i32 }
    } else {
        Vector2Int { x: start.x, y: (start.y - 1) as i32 }
    };
    assert(adjacent(start, step));
    assert(in_rect(start, end, step));
    if step == end {
        let p = seq![end];
        assert(is_path(tiles, blockers, is_flying, start, end, p));
        p
    } else {
        assert(forall|c: Vector2Int|
            in_rect(step, end, c) ==> in_rect(start, end, c));
        let p2 = lemma_build_straight_path(tiles, blockers, is_flying, step, end);
        let p = seq![step] + p2;
        assert(p[0] == step);
        assert(p.last() == p2.last());
        assert forall|i: int| 0 <= i < p.len() - 1 implies adjacent(
            #[trigger] p[i],
            p[i + 1],
        ) by {
            if i == 0 {
                assert(p[1] == p2[0]);
            } else {
                assert(p[i] == p2[i - 1] && p[i + 1] == p2[i]);
            }
        }
        assert forall|i: int| 0 <= i < p.len() implies passable(
            tiles,
            blockers,
            is_flying,
            end,
            #[trigger] p[i],
        ) by {
            if i > 0 {
                assert(p[i] == p2[i - 1]);
                assert(passable(tiles, blockers, is_flying, end, p2[i - 1]));
            }
        }
        p
    }
}

/// On a rectangle of plain floor with no occupied cells, the pathfinder
/// reaches the target whenever the cap allows it, with a path of length
/// exactly the Manhattan distance between start and end. The last two
/// hypotheses are the pathfinder's own guarantees about its result.
pub proof fn lemma_pathfinder_open_grid(
    tiles: Map<Vector2Int, TileType>,
    blockers: Seq<Vector2Int>,
    is_flying: bool,
    start: Vector2Int,
    end: Vector2Int,
    max_distance: int,
    r: Option<Seq<Vector2Int>>,
)
    requires
        start != end,
        in_bounds(start),
        in_bounds(end),
        forall|c: Vector2Int|
            in_rect(start, end, c) ==> tiles.contains_key(c) && tiles[c]
                == TileType::BaseFloor,
        forall|c: Vector2Int| !blockers.contains(c),
        manhattan_s(start, end) <= max_distance,
        match r {
            Some(p) => is_path(tiles, blockers, is_flying, start, end, p) && (forall|
                q: Seq<Vector2Int>,
            | is_path(tiles, blockers, is_flying, start, end, q) ==> p.len() <= q.len()),
            None => forall|q: Seq<Vector2Int>|
                is_path(tiles, blockers, is_flying, start, end, q) ==> q.len() > max_distance,
        },
    ensures
        r is Some,
        r.unwrap().len() == manhattan_s(start, end),
{
    let w = lemma_build_straight_path(tiles, blockers, is_flying, start, end);
    match r {
        Some(p) => {
            lemma_route_len_ge_manhattan(tiles, blockers, is_flying, start, end, p);
        },
        None => {
            assert(w.len() > max_distance);
        },
    }
}

/// A path still comes back when the target cell itself is occupied: only
/// intermediate cells are barred. The second hypothesis is the pathfinder's
/// own guarantee about a `None` result; it is dischargeable whenever the
/// start differs from the target — a search from a cell to itself reports
/// nothing by design, whatever routes exist.
pub proof fn lemma_occupied_target_still_reached(
    tiles: Map<Vector2Int, TileType>,
    blockers: Seq<Vector2Int>,
    is_flying: bool,
    start: Vector2Int,
    end: Vector2Int,
    max_distance: int,
    r: Option<Seq<Vector2Int>>,
    witness: Seq<Vector2Int>,
)
    requires
        is_path(tiles, blockers, is_flying, start, end, witness),
        witness.len() <= max_distance,
        r is None ==> forall|q: Seq<Vector2Int>|
            is_path(tiles, blockers, is_flying, start, end, q) ==> q.len() > max_distance,
    ensures
        r is Some,
{
}

/// No returned path crosses an occupied cell other than the target.
pub proof fn lemma_path_avoids_blockers(
    tiles: Map<Vector2Int, TileType>,
    blockers: Seq<Vector2Int>,
    is_flying: bool,
    start: Vector2Int,
    end: Vector2Int,
    p: Seq<Vector2Int>,
)
    requires
        is_path(tiles, blockers, is_flying, start, end, p),
    ensures
        forall|i: int| 0 <= i < p.len() && p[i] != end ==> !blockers.contains(#[trigger] p[i]),
{
}

/// A non-flying search never stands on a pit: every cell of its path is
/// plain floor.
pub proof fn lemma_grounded_path_avoids_pits(
    tiles: Map<Vector2Int, TileType>,
    blockers: Seq<Vector2Int>,
    start: Vector2Int,
    end: Vector2Int,
    p: Seq<Vector2Int>,
)
    requires
        is_path(tiles, blockers, false, start, end, p),
    ensures
        forall|i: int|
            0 <= i < p.len() ==> tiles.contains_key(#[trigger] p[i]) && tiles[p[i]]
                == TileType::BaseFloor,
{
    assert forall|i: int|
        0 <= i < p.len() implies tiles.contains_key(#[trigger] p[i]) && tiles[p[i]]
        == TileType::BaseFloor by {
        assert(passable(tiles, blockers, false, end, p[i]));
    }
}

} // verus!
