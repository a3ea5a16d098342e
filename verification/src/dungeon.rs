//! Rooms, tunnelers, areas and the dungeon layout grid.

use vstd::prelude::*;

use crate::rng::{rand_range_i32, weighted_pick2};
use crate::vectors::{abs_val, adjacent, in_bounds, manhattan_s, Vector2Int};

verus! {

broadcast use vstd::seq_lib::lemma_seq_contains_after_push;

/// An axis-aligned rectangle, normalised so `a` is the minimum corner and
/// `b` the maximum on both axes.
#[derive(Clone, Copy, Debug, PartialEq, Eq, Structural)]
pub struct Room {
    pub a: Vector2Int,
    pub b: Vector2Int,
}

impl Room {
    /// Normalised and within coordinate bounds.
    pub open spec fn wf(&self) -> bool {
        &&& self.a.x <= self.b.x
        &&& self.a.y <= self.b.y
        &&& in_bounds(self.a)
        &&& in_bounds(self.b)
    }

    /// The cell lies in the room, border included.
    pub open spec fn contains_cell(&self, c: Vector2Int) -> bool {
        self.a.x <= c.x <= self.b.x && self.a.y <= c.y <= self.b.y
    }

    /// The cell lies strictly inside the room, off the one-cell border.
    pub open spec fn contains_interior_cell(&self, c: Vector2Int) -> bool {
        self.a.x < c.x < self.b.x && self.a.y < c.y < self.b.y
    }

    pub fn new(a: Vector2Int, b: Vector2Int) -> (r: Room)
        requires
            in_bounds(a),
            in_bounds(b),
        ensures
            r.wf(),
            r.a.x == if a.x <= b.x { a.x as int } else { b.x as int },
            r.a.y == if a.y <= b.y { a.y as int } else { b.y as int },
            r.b.x == if a.x <= b.x { b.x as int } else { a.x as int },
            r.b.y == if a.y <= b.y { b.y as int } else { a.y as int },
    {
        Room {
            a: Vector2Int {
                x: if a.x <= b.x { a.x } else { b.x },
                y: if a.y <= b.y { a.y } else { b.y },
            },
            b: Vector2Int {
                x: if a.x <= b.x { b.x } else { a.x },
                y: if a.y <= b.y { b.y } else { a.y },
            },
        }
    }

    /// The four corners, counter-clockwise from the minimum corner.
    pub fn corners(&self) -> (r: Vec<Vector2Int>)
        ensures
            r@ =~= seq![
                Vector2Int { x: self.a.x, y: self.a.y },
                Vector2Int { x: self.b.x, y: self.a.y },
                Vector2Int { x: self.b.x, y: self.b.y },
                Vector2Int { x: self.a.x, y: self.b.y },
            ],
    {
        let mut r: Vec<Vector2Int> = Vec::new();
        r.push(Vector2Int { x: self.a.x, y: self.a.y });
        r.push(Vector2Int { x: self.b.x, y: self.a.y });
        r.push(Vector2Int { x: self.b.x, y: self.b.y });
        r.push(Vector2Int { x: self.a.x, y: self.b.y });
        r
    }

    /// A uniformly random cell of the room, border included.
    pub fn random_point(&self) -> (r: Vector2Int)
        requires
            self.wf(),
        ensures
            self.contains_cell(r),
            in_bounds(r),
    {
        let x = rand_range_i32(self.a.x, self.b.x);
        let y = rand_range_i32(self.a.y, self.b.y);
        Vector2Int { x, y }
    }

    /// A uniformly random interior cell: never on the room's boundary.
    /// Requires width and height of at least 3, so the interior is non-empty.
    pub fn random_point_without_walls(&self) -> (r: Vector2Int)
        requires
            self.wf(),
            self.b.x - self.a.x >= 2,
            self.b.y - self.a.y >= 2,
        ensures
            self.contains_interior_cell(r),
            in_bounds(r),
    {
        let x = rand_range_i32(self.a.x + 1, self.b.x - 1);
        let y = rand_range_i32(self.a.y + 1, self.b.y - 1);
        Vector2Int { x, y }
    }

    /// Every cell of the room, border included, in row-major order: exactly
    /// width times height cells.
    pub fn to_tiles(&self) -> (r: Vec<Vector2Int>)
        requires
            self.wf(),
        ensures
            forall|c: Vector2Int| r@.contains(c) <==> self.contains_cell(c),
            forall|i: int| 0 <= i < r@.len() ==> in_bounds(#[trigger] r@[i]),
            r@.len() == (self.b.x - self.a.x + 1) * (self.b.y - self.a.y + 1),
    {
        let mut r: Vec<Vector2Int> = Vec::new();
        let ghost w = self.b.x - self.a.x + 1;
        let mut y = self.a.y;
        while y <= self.b.y
            invariant
                self.wf(),
                w == self.b.x - self.a.x + 1,
                self.a.y <= y <= self.b.y + 1,
                forall|c: Vector2Int|
                    r@.contains(c) <==> (self.a.x <= c.x <= self.b.x && self.a.y <= c.y < y),
                forall|i: int| 0 <= i < r@.len() ==> in_bounds(#[trigger] r@[i]),
                r@.len() == (y - self.a.y) * w,
            decreases self.b.y + 1 - y,
        {
            let mut x = self.a.x;
            while x <= self.b.x
                invariant
                    self.wf(),
                    w == self.b.x - self.a.x + 1,
                    self.a.y <= y <= self.b.y,
                    self.a.x <= x <= self.b.x + 1,
                    forall|c: Vector2Int|
                        r@.contains(c) <==> ((self.a.x <= c.x <= self.b.x && self.a.y <= c.y < y)
                            || (self.a.x <= c.x < x && c.y == y)),
                    forall|i: int| 0 <= i < r@.len() ==> in_bounds(#[trigger] r@[i]),
                    r@.len() == (y - self.a.y) * w + (x - self.a.x),
                decreases self.b.x + 1 - x,
            {
                let ghost r0 = r@;
                r.push(Vector2Int { x, y });
                proof {
                    assert(r@ == r0.push(Vector2Int { x, y }));
                }
                x = x + 1;
            }
            proof {
                assert((y + 1 - self.a.y) * w == (y - self.a.y) * w + w) by (nonlinear_arith);
            }
            y = y + 1;
        }
        proof {
            assert((self.b.x - self.a.x + 1) * (self.b.y - self.a.y + 1) == (self.b.y + 1
                - self.a.y) * w) by (nonlinear_arith)
                requires
                    w == self.b.x - self.a.x + 1,
            ;
        }
        r
    }
}

/// A non-empty run of cells whose consecutive members are one orthogonal
/// step apart.
pub open spec fn is_chain(p: Seq<Vector2Int>) -> bool {
    p.len() > 0 && forall|i: int| 0 <= i < p.len() - 1 ==> adjacent(#[trigger] p[i], p[i + 1])
}

/// The y of the horizontal leg and the x of the vertical leg of the L-shaped
/// connection: the first leg follows the axis of the larger absolute
/// coordinate delta.
pub open spec fn lshape_hor_y(a: Vector2Int, b: Vector2Int) -> int {
    if abs_val(b.x - a.x) > abs_val(b.y - a.y) {
        a.y as int
    } else {
        b.y as int
    }
}

pub open spec fn lshape_ver_x(a: Vector2Int, b: Vector2Int) -> int {
    if abs_val(b.x - a.x) > abs_val(b.y - a.y) {
        b.x as int
    } else {
        a.x as int
    }
}

/// The exact cell sequence of the L-shaped connection: the vertical leg,
/// then the horizontal leg.
pub open spec fn lshape_seq(a: Vector2Int, b: Vector2Int) -> Seq<Vector2Int> {
    let lox = if a.x <= b.x { a.x as int } else { b.x as int };
    let hix = if a.x <= b.x { b.x as int } else { a.x as int };
    let loy = if a.y <= b.y { a.y as int } else { b.y as int };
    let hiy = if a.y <= b.y { b.y as int } else { a.y as int };
    Seq::new((hiy - loy + 1) as nat, |i: int| Vector2Int { x: lshape_ver_x(a, b) as i32, y: (loy + i) as i32 })
        + Seq::new((hix - lox + 1) as nat, |i: int| Vector2Int { x: (lox + i) as i32, y: lshape_hor_y(a, b) as i32 })
}

/// A tunneler that connects two points with an exact right-angle bend:
/// it first moves along the axis of the larger absolute coordinate delta.
pub struct LShapeTunneler;

impl LShapeTunneler {
    pub fn connect(&self, a: Vector2Int, b: Vector2Int) -> (r: Vec<Vector2Int>)
        requires
            in_bounds(a),
            in_bounds(b),
        ensures
            r@ =~= lshape_seq(a, b),
    {
        let dx = b.x - a.x;
        let dy = b.y - a.y;
        let adx: i32 = if dx < 0 { -dx } else { dx };
        let ady: i32 = if dy < 0 { -dy } else { dy };
        let hor_y: i32 = if adx > ady { a.y } else { b.y };
        let ver_x: i32 = if adx > ady { b.x } else { a.x };
        let lox: i32 = if a.x <= b.x { a.x } else { b.x };
        let hix: i32 = if a.x <= b.x { b.x } else { a.x };
        let loy: i32 = if a.y <= b.y { a.y } else { b.y };
        let hiy: i32 = if a.y <= b.y { b.y } else { a.y };
        let mut r: Vec<Vector2Int> = Vec::new();
        let mut y = loy;
        while y <= hiy
            invariant
                loy <= y <= hiy + 1,
                -0x1000_0000 <= loy <= hiy <= 0x1000_0000,
                ver_x == lshape_ver_x(a, b),
                r@.len() == y - loy,
                forall|j: int| 0 <= j < r@.len() ==> r@[j] == (Vector2Int { x: ver_x, y: (loy + j) as i32 }),
            decreases hiy + 1 - y,
        {
            r.push(Vector2Int { x: ver_x, y });
            y = y + 1;
        }
        let mut x = lox;
        while x <= hix
            invariant
                lox <= x <= hix + 1,
                -0x1000_0000 <= lox <= hix <= 0x1000_0000,
                -0x1000_0000 <= loy <= hiy <= 0x1000_0000,
                ver_x == lshape_ver_x(a, b),
                hor_y == lshape_hor_y(a, b),
                r@.len() == (hiy - loy + 1) + (x - lox),
                forall|j: int|
                    0 <= j < hiy - loy + 1 ==> r@[j] == (Vector2Int { x: ver_x, y: (loy + j) as i32 }),
                forall|j: int|
                    hiy - loy + 1 <= j < r@.len() ==> r@[j] == (Vector2Int {
                        x: (lox + (j - (hiy - loy + 1))) as i32,
                        y: hor_y,
                    }),
            decreases hix + 1 - x,
        {
            r.push(Vector2Int { x, y: hor_y });
            x = x + 1;
        }
        proof {
            assert(r@ =~= lshape_seq(a, b));
        }
        r
    }
}

/// A tunneler that walks one step at a time toward the target, choosing the
/// horizontal or vertical axis at random with probability proportional to
/// the remaining distance on each axis. The returned run starts at `a`,
/// ends at `b`, and never leaves the rectangle they span.
pub struct RandomTunneler;

impl RandomTunneler {
    pub fn connect(&self, a: Vector2Int, b: Vector2Int) -> (r: Vec<Vector2Int>)
        requires
            in_bounds(a),
            in_bounds(b),
        ensures
            r@.len() == manhattan_s(a, b) + 1,
            r@[0] == a,
            r@[r@.len() - 1] == b,
            forall|i: int| 0 <= i < r@.len() - 1 ==> adjacent(#[trigger] r@[i], r@[i + 1]),
            forall|i: int| 0 <= i < r@.len() ==> crate::pathfind::in_rect(a, b, #[trigger] r@[i]),
    {
        let mut cur = a;
        let mut path: Vec<Vector2Int> = Vec::new();
        while cur != b
            invariant
                in_bounds(a),
                in_bounds(b),
                in_bounds(cur),
                crate::pathfind::in_rect(a, b, cur),
                path@.len() + manhattan_s(cur, b) == manhattan_s(a, b),
                path@.len() > 0 ==> path@[0] == a,
                path@.len() == 0 ==> cur == a,
                forall|i: int| 0 <= i < path@.len() - 1 ==> adjacent(#[trigger] path@[i], path@[i + 1]),
                path@.len() > 0 ==> adjacent(path@[path@.len() - 1], cur),
                forall|i: int|
                    0 <= i < path@.len() ==> crate::pathfind::in_rect(a, b, #[trigger] path@[i]),
            decreases manhattan_s(cur, b),
        {
            path.push(cur);
            let dx = b.x - cur.x;
            let dy = b.y - cur.y;
            let ax: u32 = if dx < 0 { (-dx) as u32 } else { dx as u32 };
            let ay: u32 = if dy < 0 { (-dy) as u32 } else { dy as u32 };
            let dir_idx = weighted_pick2(ax, ay);
            let dv = if dir_idx == 0 {
                Vector2Int { x: if dx > 0 { 1 } else { -1 }, y: 0 }
            } else {
                Vector2Int { x: 0, y: if dy > 0 { 1 } else { -1 } }
            };
            cur = cur.plus(dv);
        }
        path.push(b);
        path
    }
}

/// `w` lies between `u` and `v`, whichever order they come in.
pub open spec fn between(u: int, v: int, w: int) -> bool {
    u <= w <= v || v <= w <= u
}

/// The L-shaped connection holds exactly the cells of its two legs.
proof fn lemma_lshape_seq_contains(a: Vector2Int, b: Vector2Int)
    ensures
        forall|c: Vector2Int|
            lshape_seq(a, b).contains(c) <==> ((c.x == lshape_ver_x(a, b) && between(
                a.y as int,
                b.y as int,
                c.y as int,
            )) || (c.y == lshape_hor_y(a, b) && between(a.x as int, b.x as int, c.x as int))),
{
    let s = lshape_seq(a, b);
    let lox = if a.x <= b.x { a.x as int } else { b.x as int };
    let hix = if a.x <= b.x { b.x as int } else { a.x as int };
    let loy = if a.y <= b.y { a.y as int } else { b.y as int };
    let hiy = if a.y <= b.y { b.y as int } else { a.y as int };
    let vlen = hiy - loy + 1;
    assert forall|c: Vector2Int| s.contains(c) implies ((c.x == lshape_ver_x(a, b) && between(
        a.y as int,
        b.y as int,
        c.y as int,
    )) || (c.y == lshape_hor_y(a, b) && between(a.x as int, b.x as int, c.x as int))) by {
        let i = choose|i: int| 0 <= i < s.len() && s[i] == c;
        if i < vlen {
            assert(c == (Vector2Int { x: lshape_ver_x(a, b) as i32, y: (loy + i) as i32 }));
        } else {
            assert(c == (Vector2Int { x: (lox + (i - vlen)) as i32, y: lshape_hor_y(a, b) as i32 }));
        }
    }
    assert forall|c: Vector2Int|
        ((c.x == lshape_ver_x(a, b) && between(a.y as int, b.y as int, c.y as int)) || (c.y
            == lshape_hor_y(a, b) && between(a.x as int, b.x as int, c.x as int))) implies s.contains(
        c,
    ) by {
        if c.x == lshape_ver_x(a, b) && between(a.y as int, b.y as int, c.y as int) {
            let i = c.y - loy;
            assert(s[i] == c);
        } else {
            let i = vlen + (c.x - lox);
            assert(s[i] == c);
        }
    }
}

/// A step chain from `a` to `b` that first walks the x axis on `a`'s row,
/// then the y axis on `b`'s column.
proof fn lemma_chain_x_first(a: Vector2Int, b: Vector2Int) -> (p: Seq<Vector2Int>)
    ensures
        is_chain(p),
        p[0] == a,
        p.last() == b,
        forall|i: int|
            0 <= i < p.len() ==> ((#[trigger] p[i].y == a.y && between(
                a.x as int,
                b.x as int,
                p[i].x as int,
            )) || (p[i].x == b.x && between(a.y as int, b.y as int, p[i].y as int))),
    decreases manhattan_s(a, b),
{
    if a.x != b.x {
        let a2 = Vector2Int { x: if a.x < b.x { (a.x + 1) as i32 } else { (a.x - 1) as i32 }, y: a.y };
        let p2 = lemma_chain_x_first(a2, b);
        let p = seq![a] + p2;
        assert(p[0] == a);
        assert(adjacent(a, a2));
        assert(p[1] == p2[0]);
        assert(forall|i: int| 1 <= i < p.len() ==> p[i] == p2[i - 1]);
        p
    } else if a.y != b.y {
        let a2 = Vector2Int { x: a.x, y: if a.y < b.y { (a.y + 1) as i32 } else { (a.y - 1) as i32 } };
        let p2 = lemma_chain_x_first(a2, b);
        let p = seq![a] + p2;
        assert(p[0] == a);
        assert(adjacent(a, a2));
        assert(p[1] == p2[0]);
        assert(forall|i: int| 1 <= i < p.len() ==> p[i] == p2[i - 1]);
        p
    } else {
        seq![a]
    }
}

/// A step chain from `a` to `b` that first walks the y axis on `a`'s column,
/// then the x axis on `b`'s row.
proof fn lemma_chain_y_first(a: Vector2Int, b: Vector2Int) -> (p: Seq<Vector2Int>)
    ensures
        is_chain(p),
        p[0] == a,
        p.last() == b,
        forall|i: int|
            0 <= i < p.len() ==> ((#[trigger] p[i].x == a.x && between(
                a.y as int,
                b.y as int,
                p[i].y as int,
            )) || (p[i].y == b.y && between(a.x as int, b.x as int, p[i].x as int))),
    decreases manhattan_s(a, b),
{
    if a.y != b.y {
        let a2 = Vector2Int { x: a.x, y: if a.y < b.y { (a.y + 1) as i32 } else { (a.y - 1) as i32 } };
        let p2 = lemma_chain_y_first(a2, b);
        let p = seq![a] + p2;
        assert(p[0] == a);
        assert(adjacent(a, a2));
        assert(p[1] == p2[0]);
        assert(forall|i: int| 1 <= i < p.len() ==> p[i] == p2[i - 1]);
        p
    } else if a.x != b.x {
        let a2 = Vector2Int { x: if a.x < b.x { (a.x + 1) as i32 } else { (a.x - 1) as i32 }, y: a.y };
        let p2 = lemma_chain_y_first(a2, b);
        let p = seq![a] + p2;
        assert(p[0] == a);
        assert(adjacent(a, a2));
        assert(p[1] == p2[0]);
        assert(forall|i: int| 1 <= i < p.len() ==> p[i] == p2[i - 1]);
        p
    } else {
        seq![a]
    }
}

/// The cells of the L-shaped connection join its endpoints: a step chain
/// from `a` to `b` runs entirely through the returned cells.
pub proof fn lemma_lshape_connected(a: Vector2Int, b: Vector2Int)
    ensures
        exists|p: Seq<Vector2Int>|
            is_chain(p) && p[0] == a && p.last() == b && (forall|i: int|
                0 <= i < p.len() ==> lshape_seq(a, b).contains(#[trigger] p[i])),
{
    lemma_lshape_seq_contains(a, b);
    if abs_val(b.x - a.x) > abs_val(b.y - a.y) {
        let p = lemma_chain_x_first(a, b);
        assert(forall|i: int| 0 <= i < p.len() ==> lshape_seq(a, b).contains(#[trigger] p[i]));
        assert(is_chain(p) && p[0] == a && p.last() == b && (forall|i: int|
            0 <= i < p.len() ==> lshape_seq(a, b).contains(#[trigger] p[i])));
    } else {
        let p = lemma_chain_y_first(a, b);
        assert(forall|i: int| 0 <= i < p.len() ==> lshape_seq(a, b).contains(#[trigger] p[i]));
        assert(is_chain(p) && p[0] == a && p.last() == b && (forall|i: int|
            0 <= i < p.len() ==> lshape_seq(a, b).contains(#[trigger] p[i])));
    }
}

/// The two tunneling strategies an area may use.
pub enum Tunneler {
    LShape,
    Random,
}

/// What a tunneler run between `a` and `b` looks like: it stays within the
/// rectangle the endpoints span, and is either the exact L-shaped sequence
/// or a step chain from `a` to `b` of exactly the Manhattan distance.
pub open spec fn connect_post(t: Tunneler, a: Vector2Int, b: Vector2Int, r: Seq<Vector2Int>) -> bool {
    &&& forall|i: int| 0 <= i < r.len() ==> crate::pathfind::in_rect(a, b, #[trigger] r[i])
    &&& forall|i: int| 0 <= i < r.len() ==> in_bounds(#[trigger] r[i])
    &&& (t is LShape ==> r == lshape_seq(a, b))
    &&& (t is Random ==> r.len() == manhattan_s(a, b) + 1 && r[0] == a && r[r.len() - 1] == b
        && (forall|i: int| 0 <= i < r.len() - 1 ==> adjacent(#[trigger] r[i], r[i + 1])))
}

impl Tunneler {
    /// Produce an ordered run of corridor cells between two endpoint cells,
    /// staying within the rectangle the endpoints span: the exact L-shaped
    /// sequence, or a random step chain from `a` to `b`.
    pub fn connect(&self, a: Vector2Int, b: Vector2Int) -> (r: Vec<Vector2Int>)
        requires
            in_bounds(a),
            in_bounds(b),
        ensures
            connect_post(*self, a, b, r@),
    {
        let r = match self {
            Tunneler::LShape => LShapeTunneler.connect(a, b),
            Tunneler::Random => RandomTunneler.connect(a, b),
        };
        proof {
            if self is LShape {
                lemma_lshape_seq_contains(a, b);
                assert forall|i: int| 0 <= i < r@.len() implies crate::pathfind::in_rect(
                    a,
                    b,
                    #[trigger] r@[i],
                ) by {
                    assert(lshape_seq(a, b).contains(r@[i])) by {
                        assert(lshape_seq(a, b)[i] == r@[i]);
                    }
                }
            }
        }
        r
    }
}

/// The bounding box of a non-empty room list: minimum and maximum corner.
pub open spec fn bounds_of(rooms: Seq<Room>) -> (Vector2Int, Vector2Int)
    decreases rooms.len(),
{
    if rooms.len() <= 1 {
        (rooms[0].a, rooms[0].b)
    } else {
        let prev = bounds_of(rooms.drop_last());
        let r = rooms.last();
        (
            Vector2Int {
                x: if r.a.x < prev.0.x { r.a.x } else { prev.0.x },
                y: if r.a.y < prev.0.y { r.a.y } else { prev.0.y },
            },
            Vector2Int {
                x: if r.b.x > prev.1.x { r.b.x } else { prev.1.x },
                y: if r.b.y > prev.1.y { r.b.y } else { prev.1.y },
            },
        )
    }
}

/// The bounding box encloses every room, and each of its four extremes is
/// attained by some room.
pub proof fn lemma_bounds_enclose(rooms: Seq<Room>)
    requires
        rooms.len() > 0,
    ensures
        forall|j: int|
            0 <= j < rooms.len() ==> bounds_of(rooms).0.x <= (#[trigger] rooms[j]).a.x
                && bounds_of(rooms).0.y <= rooms[j].a.y && rooms[j].b.x <= bounds_of(rooms).1.x
                && rooms[j].b.y <= bounds_of(rooms).1.y,
        exists|j: int| 0 <= j < rooms.len() && (#[trigger] rooms[j]).a.x == bounds_of(rooms).0.x,
        exists|j: int| 0 <= j < rooms.len() && (#[trigger] rooms[j]).a.y == bounds_of(rooms).0.y,
        exists|j: int| 0 <= j < rooms.len() && (#[trigger] rooms[j]).b.x == bounds_of(rooms).1.x,
        exists|j: int| 0 <= j < rooms.len() && (#[trigger] rooms[j]).b.y == bounds_of(rooms).1.y,
    decreases rooms.len(),
{
    if rooms.len() > 1 {
        lemma_bounds_enclose(rooms.drop_last());
        assert(forall|j: int| 0 <= j < rooms.len() - 1 ==> rooms.drop_last()[j] == rooms[j]);
        assert(rooms.last() == rooms[rooms.len() - 1]);
        let prev = bounds_of(rooms.drop_last());
        let n = rooms.len() - 1;
        if rooms[n].a.x < prev.0.x {
            assert(rooms[n].a.x == bounds_of(rooms).0.x);
        } else {
            let j = choose|j: int| 0 <= j < n && (#[trigger] rooms.drop_last()[j]).a.x == prev.0.x;
            assert(rooms[j].a.x == bounds_of(rooms).0.x);
        }
        if rooms[n].a.y < prev.0.y {
            assert(rooms[n].a.y == bounds_of(rooms).0.y);
        } else {
            let j = choose|j: int| 0 <= j < n && (#[trigger] rooms.drop_last()[j]).a.y == prev.0.y;
            assert(rooms[j].a.y == bounds_of(rooms).0.y);
        }
        if rooms[n].b.x > prev.1.x {
            assert(rooms[n].b.x == bounds_of(rooms).1.x);
        } else {
            let j = choose|j: int| 0 <= j < n && (#[trigger] rooms.drop_last()[j]).b.x == prev.1.x;
            assert(rooms[j].b.x == bounds_of(rooms).1.x);
        }
        if rooms[n].b.y > prev.1.y {
            assert(rooms[n].b.y == bounds_of(rooms).1.y);
        } else {
            let j = choose|j: int| 0 <= j < n && (#[trigger] rooms.drop_last()[j]).b.y == prev.1.y;
            assert(rooms[j].b.y == bounds_of(rooms).1.y);
        }
    } else {
        assert(rooms[0].a.x == bounds_of(rooms).0.x);
        assert(rooms[0].a.y == bounds_of(rooms).0.y);
        assert(rooms[0].b.x == bounds_of(rooms).1.x);
        assert(rooms[0].b.y == bounds_of(rooms).1.y);
    }
}

/// An ordered list of rooms and corridor paths, translated as a rigid unit
/// during layout, together with its tunneling strategy.
pub struct Area {
    pub rooms: Vec<Room>,
    pub paths: Vec<Vec<Vector2Int>>,
    pub tunneler: Tunneler,
}

impl Area {
    /// Every room is well-formed and every corridor cell is in bounds.
    pub open spec fn wf(&self) -> bool {
        &&& forall|j: int| 0 <= j < self.rooms@.len() ==> (#[trigger] self.rooms@[j]).wf()
        &&& forall|j: int, t: int|
            0 <= j < self.paths@.len() && 0 <= t < self.paths@[j].len() ==> in_bounds(
                #[trigger] self.paths@[j][t],
            )
    }

    /// Every room corner and corridor cell lies in the rectangle spanned by
    /// `lo` and `hi`.
    pub open spec fn within(&self, lo: Vector2Int, hi: Vector2Int) -> bool {
        &&& forall|j: int|
            0 <= j < self.rooms@.len() ==> lo.x <= (#[trigger] self.rooms@[j]).a.x
                && lo.y <= self.rooms@[j].a.y && self.rooms@[j].b.x <= hi.x && self.rooms@[j].b.y
                <= hi.y
        &&& forall|j: int, t: int|
            0 <= j < self.paths@.len() && 0 <= t < self.paths@[j].len() ==> lo.x
                <= (#[trigger] self.paths@[j][t]).x <= hi.x && lo.y <= self.paths@[j][t].y <= hi.y
    }

    pub fn new(tunneler: Tunneler) -> (r: Area)
        ensures
            r.wf(),
            r.rooms@.len() == 0,
            r.paths@.len() == 0,
            r.tunneler == tunneler,
    {
        Area { rooms: Vec::new(), paths: Vec::new(), tunneler }
    }

    /// The bounding box over all rooms: minimum corner, then maximum corner.
    pub fn get_bounds(&self) -> (r: (Vector2Int, Vector2Int))
        requires
            self.wf(),
            self.rooms@.len() > 0,
        ensures
            r == bounds_of(self.rooms@),
            in_bounds(r.0),
            in_bounds(r.1),
            r.0.x <= r.1.x,
            r.0.y <= r.1.y,
    {
        let first = self.rooms[0];
        let mut lo = first.a;
        let mut hi = first.b;
        let mut i: usize = 1;
        while i < self.rooms.len()
            invariant
                self.wf(),
                1 <= i <= self.rooms@.len(),
                (lo, hi) == bounds_of(self.rooms@.take(i as int)),
                in_bounds(lo),
                in_bounds(hi),
                lo.x <= hi.x,
                lo.y <= hi.y,
            decreases self.rooms@.len() - i,
        {
            let room = self.rooms[i];
            proof {
                assert(self.rooms@[i as int].wf());
                assert(self.rooms@.take(i as int + 1).drop_last() =~= self.rooms@.take(i as int));
                assert(self.rooms@.take(i as int + 1).last() == self.rooms@[i as int]);
            }
            lo = Vector2Int {
                x: if room.a.x < lo.x { room.a.x } else { lo.x },
                y: if room.a.y < lo.y { room.a.y } else { lo.y },
            };
            hi = Vector2Int {
                x: if room.b.x > hi.x { room.b.x } else { hi.x },
                y: if room.b.y > hi.y { room.b.y } else { hi.y },
            };
            i += 1;
        }
        proof {
            assert(self.rooms@.take(self.rooms@.len() as int) =~= self.rooms@);
        }
        (lo, hi)
    }

    /// Translate the whole area as a rigid unit so that the minimum corner
    /// of its bounding box lands on `offset`.
    pub fn shift(&mut self, offset: Vector2Int)
        requires
            old(self).wf(),
            old(self).rooms@.len() > 0,
            forall|j: int, t: int|
                0 <= j < old(self).paths@.len() && 0 <= t < old(self).paths@[j].len()
                    ==> -0x1000_0000 <= (#[trigger] old(self).paths@[j][t]).x + offset.x
                    - bounds_of(old(self).rooms@).0.x <= 0x1000_0000 && -0x1000_0000
                    <= old(self).paths@[j][t].y + offset.y - bounds_of(old(self).rooms@).0.y
                    <= 0x1000_0000,
            -0x1000_0000 <= offset.x,
            -0x1000_0000 <= offset.y,
            offset.x + (bounds_of(old(self).rooms@).1.x - bounds_of(old(self).rooms@).0.x)
                <= 0x1000_0000,
            offset.y + (bounds_of(old(self).rooms@).1.y - bounds_of(old(self).rooms@).0.y)
                <= 0x1000_0000,
        ensures
            final(self).wf(),
            final(self).tunneler == old(self).tunneler,
            final(self).rooms@.len() == old(self).rooms@.len(),
            final(self).paths@.len() == old(self).paths@.len(),
            forall|j: int|
                0 <= j < old(self).rooms@.len() ==> (#[trigger] final(self).rooms@[j]).a.x
                    == old(self).rooms@[j].a.x + offset.x - bounds_of(old(self).rooms@).0.x
                    && final(self).rooms@[j].a.y == old(self).rooms@[j].a.y + offset.y - bounds_of(
                    old(self).rooms@,
                ).0.y && final(self).rooms@[j].b.x == old(self).rooms@[j].b.x + offset.x
                    - bounds_of(old(self).rooms@).0.x && final(self).rooms@[j].b.y == old(
                    self,
                ).rooms@[j].b.y + offset.y - bounds_of(old(self).rooms@).0.y,
            forall|j: int| 0 <= j < old(self).paths@.len() ==> (#[trigger] final(self).paths@[j]).len()
                == old(self).paths@[j].len(),
            forall|j: int, t: int|
                0 <= j < old(self).paths@.len() && 0 <= t < old(self).paths@[j].len()
                    ==> (#[trigger] final(self).paths@[j][t]).x == old(self).paths@[j][t].x
                    + offset.x - bounds_of(old(self).rooms@).0.x && final(self).paths@[j][t].y
                    == old(self).paths@[j][t].y + offset.y - bounds_of(old(self).rooms@).0.y,
            translated_by(
                *old(self),
                *final(self),
                offset.x - bounds_of(old(self).rooms@).0.x,
                offset.y - bounds_of(old(self).rooms@).0.y,
            ),
    {
        let bounds = self.get_bounds();
        let dx = offset.x - bounds.0.x;
        let dy = offset.y - bounds.0.y;
        proof {
            lemma_bounds_enclose(self.rooms@);
        }
        let n = self.rooms.len();
        let mut i: usize = 0;
        while i < n
            invariant
                n == self.rooms@.len() == old(self).rooms@.len(),
                i <= n,
                self.tunneler == old(self).tunneler,
                self.paths@ == old(self).paths@,
                dx == offset.x - bounds_of(old(self).rooms@).0.x,
                dy == offset.y - bounds_of(old(self).rooms@).0.y,
                old(self).wf(),
                forall|j: int, t: int|
                0 <= j < old(self).paths@.len() && 0 <= t < old(self).paths@[j].len()
                    ==> -0x1000_0000 <= (#[trigger] old(self).paths@[j][t]).x + offset.x
                    - bounds_of(old(self).rooms@).0.x <= 0x1000_0000 && -0x1000_0000
                    <= old(self).paths@[j][t].y + offset.y - bounds_of(old(self).rooms@).0.y
                    <= 0x1000_0000,
                -0x1000_0000 <= offset.x,
                -0x1000_0000 <= offset.y,
                offset.x + (bounds_of(old(self).rooms@).1.x - bounds_of(old(self).rooms@).0.x)
                    <= 0x1000_0000,
                offset.y + (bounds_of(old(self).rooms@).1.y - bounds_of(old(self).rooms@).0.y)
                    <= 0x1000_0000,
                forall|j: int|
                    0 <= j < old(self).rooms@.len() ==> bounds_of(old(self).rooms@).0.x
                        <= (#[trigger] old(self).rooms@[j]).a.x && bounds_of(old(self).rooms@).0.y
                        <= old(self).rooms@[j].a.y && old(self).rooms@[j].b.x <= bounds_of(
                        old(self).rooms@,
                    ).1.x && old(self).rooms@[j].b.y <= bounds_of(old(self).rooms@).1.y,
                forall|j: int| i <= j < n ==> #[trigger] self.rooms@[j] == old(self).rooms@[j],
                forall|j: int|
                    0 <= j < i ==> (#[trigger] self.rooms@[j]).wf() && self.rooms@[j].a.x == old(
                        self,
                    ).rooms@[j].a.x + dx && self.rooms@[j].a.y == old(self).rooms@[j].a.y + dy
                        && self.rooms@[j].b.x == old(self).rooms@[j].b.x + dx
                        && self.rooms@[j].b.y == old(self).rooms@[j].b.y + dy,
            decreases n - i,
        {
            let room = self.rooms[i];
            let nr = Room {
                a: Vector2Int { x: room.a.x + dx, y: room.a.y + dy },
                b: Vector2Int { x: room.b.x + dx, y: room.b.y + dy },
            };
            self.rooms.set(i, nr);
            i += 1;
        }
        let m = self.paths.len();
        let mut j: usize = 0;
        while j < m
            invariant
                m == self.paths@.len() == old(self).paths@.len(),
                j <= m,
                self.tunneler == old(self).tunneler,
                self.rooms@.len() == old(self).rooms@.len(),
                forall|t: int|
                    0 <= t < old(self).rooms@.len() ==> (#[trigger] self.rooms@[t]).wf()
                        && self.rooms@[t].a.x == old(self).rooms@[t].a.x + dx && self.rooms@[t].a.y
                        == old(self).rooms@[t].a.y + dy && self.rooms@[t].b.x == old(
                        self,
                    ).rooms@[t].b.x + dx && self.rooms@[t].b.y == old(self).rooms@[t].b.y + dy,
                dx == offset.x - bounds_of(old(self).rooms@).0.x,
                dy == offset.y - bounds_of(old(self).rooms@).0.y,
                old(self).wf(),
                forall|j: int, t: int|
                0 <= j < old(self).paths@.len() && 0 <= t < old(self).paths@[j].len()
                    ==> -0x1000_0000 <= (#[trigger] old(self).paths@[j][t]).x + offset.x
                    - bounds_of(old(self).rooms@).0.x <= 0x1000_0000 && -0x1000_0000
                    <= old(self).paths@[j][t].y + offset.y - bounds_of(old(self).rooms@).0.y
                    <= 0x1000_0000,
                -0x1000_0000 <= offset.x,
                -0x1000_0000 <= offset.y,
                offset.x + (bounds_of(old(self).rooms@).1.x - bounds_of(old(self).rooms@).0.x)
                    <= 0x1000_0000,
                offset.y + (bounds_of(old(self).rooms@).1.y - bounds_of(old(self).rooms@).0.y)
                    <= 0x1000_0000,
                forall|t: int| j <= t < m ==> #[trigger] self.paths@[t] == old(self).paths@[t],
                forall|t: int| 0 <= t < j ==> (#[trigger] self.paths@[t]).len()
                    == old(self).paths@[t].len(),
                forall|t: int, u: int|
                    0 <= t < j && 0 <= u < old(self).paths@[t].len()
                        ==> (#[trigger] self.paths@[t][u]).x == old(self).paths@[t][u].x + dx
                        && self.paths@[t][u].y == old(self).paths@[t][u].y + dy,
            decreases m - j,
        {
            let plen = self.paths[j].len();
            let mut np: Vec<Vector2Int> = Vec::new();
            let mut u: usize = 0;
            while u < plen
                invariant
                    j < m == self.paths@.len() == old(self).paths@.len(),
                    self.paths@[j as int] == old(self).paths@[j as int],
                    plen == self.paths@[j as int].len(),
                    u <= plen,
                    np@.len() == u,
                    dx == offset.x - bounds_of(old(self).rooms@).0.x,
                    dy == offset.y - bounds_of(old(self).rooms@).0.y,
                    forall|j: int, t: int|
                0 <= j < old(self).paths@.len() && 0 <= t < old(self).paths@[j].len()
                    ==> -0x1000_0000 <= (#[trigger] old(self).paths@[j][t]).x + offset.x
                    - bounds_of(old(self).rooms@).0.x <= 0x1000_0000 && -0x1000_0000
                    <= old(self).paths@[j][t].y + offset.y - bounds_of(old(self).rooms@).0.y
                    <= 0x1000_0000,
                    -0x1000_0000 <= offset.x,
                    -0x1000_0000 <= offset.y,
                    offset.x + (bounds_of(old(self).rooms@).1.x - bounds_of(old(self).rooms@).0.x)
                        <= 0x1000_0000,
                    offset.y + (bounds_of(old(self).rooms@).1.y - bounds_of(old(self).rooms@).0.y)
                        <= 0x1000_0000,
                    forall|t: int|
                        0 <= t < u ==> (#[trigger] np@[t]).x == old(self).paths@[j as int][t].x + dx
                            && np@[t].y == old(self).paths@[j as int][t].y + dy,
                decreases plen - u,
            {
                let c = self.paths[j][u];
                np.push(Vector2Int { x: c.x + dx, y: c.y + dy });
                u += 1;
            }
            self.paths.set(j, np);
            j += 1;
        }
    }

    /// Width and height of the bounding box.
    pub fn get_size(&self) -> (r: Vector2Int)
        requires
            self.wf(),
            self.rooms@.len() > 0,
        ensures
            r.x == bounds_of(self.rooms@).1.x - bounds_of(self.rooms@).0.x + 1,
            r.y == bounds_of(self.rooms@).1.y - bounds_of(self.rooms@).0.y + 1,
            r.x >= 1,
            r.y >= 1,
    {
        let bounds = self.get_bounds();
        Vector2Int { x: bounds.1.x - bounds.0.x + 1, y: bounds.1.y - bounds.0.y + 1 }
    }
}

/// The `k`-th corner of a room, counter-clockwise from the minimum corner.
pub open spec fn corner(r: Room, k: int) -> Vector2Int {
    if k == 0 {
        r.a
    } else if k == 1 {
        Vector2Int { x: r.b.x, y: r.a.y }
    } else if k == 2 {
        r.b
    } else {
        Vector2Int { x: r.a.x, y: r.b.y }
    }
}

/// `d` is the smallest Manhattan distance between any corner of `ra` and any
/// corner of `rb`.
pub open spec fn is_min_corner_dist(ra: Room, rb: Room, d: int) -> bool {
    &&& exists|u: int, v: int|
        0 <= u < 4 && 0 <= v < 4 && manhattan_s(#[trigger] corner(ra, u), #[trigger] corner(rb, v))
            == d
    &&& forall|u: int, v: int|
        0 <= u < 4 && 0 <= v < 4 ==> manhattan_s(#[trigger] corner(ra, u), #[trigger] corner(rb, v))
            >= d
}

/// The smallest Manhattan distance between corners of two rooms.
fn min_corner_distance(ra: &Room, rb: &Room) -> (d: i32)
    requires
        ra.wf(),
        rb.wf(),
    ensures
        is_min_corner_dist(*ra, *rb, d as int),
{
    let ca = ra.corners();
    let cb = rb.corners();
    proof {
        assert(forall|k: int| 0 <= k < 4 ==> ca@[k] == corner(*ra, k));
        assert(forall|k: int| 0 <= k < 4 ==> cb@[k] == corner(*rb, k));
        assert(forall|k: int| 0 <= k < 4 ==> in_bounds(#[trigger] ca@[k]));
        assert(forall|k: int| 0 <= k < 4 ==> in_bounds(#[trigger] cb@[k]));
    }
    let mut best: i32 = ca[0].manhattan(cb[0]);
    proof {
        assert(manhattan_s(corner(*ra, 0), corner(*rb, 0)) == best);
    }
    let mut u: usize = 0;
    while u < 4
        invariant
            ca@.len() == 4,
            cb@.len() == 4,
            forall|k: int| 0 <= k < 4 ==> ca@[k] == corner(*ra, k),
            forall|k: int| 0 <= k < 4 ==> cb@[k] == corner(*rb, k),
            forall|k: int| 0 <= k < 4 ==> in_bounds(#[trigger] ca@[k]),
            forall|k: int| 0 <= k < 4 ==> in_bounds(#[trigger] cb@[k]),
            u <= 4,
            exists|i: int, j: int|
                0 <= i < 4 && 0 <= j < 4 && manhattan_s(
                    #[trigger] corner(*ra, i),
                    #[trigger] corner(*rb, j),
                ) == best,
            forall|i: int, j: int|
                0 <= i < u && 0 <= j < 4 ==> manhattan_s(
                    #[trigger] corner(*ra, i),
                    #[trigger] corner(*rb, j),
                ) >= best,
        decreases 4 - u,
    {
        let mut v: usize = 0;
        while v < 4
            invariant
                ca@.len() == 4,
                cb@.len() == 4,
                forall|k: int| 0 <= k < 4 ==> ca@[k] == corner(*ra, k),
                forall|k: int| 0 <= k < 4 ==> cb@[k] == corner(*rb, k),
                forall|k: int| 0 <= k < 4 ==> in_bounds(#[trigger] ca@[k]),
                forall|k: int| 0 <= k < 4 ==> in_bounds(#[trigger] cb@[k]),
                u < 4,
                v <= 4,
                exists|i: int, j: int|
                    0 <= i < 4 && 0 <= j < 4 && manhattan_s(
                        #[trigger] corner(*ra, i),
                        #[trigger] corner(*rb, j),
                    ) == best,
                forall|i: int, j: int|
                    0 <= i < u && 0 <= j < 4 ==> manhattan_s(
                        #[trigger] corner(*ra, i),
                        #[trigger] corner(*rb, j),
                    ) >= best,
                forall|j: int|
                    0 <= j < v ==> manhattan_s(corner(*ra, u as int), #[trigger] corner(*rb, j))
                        >= best,
            decreases 4 - v,
        {
            let d = ca[u].manhattan(cb[v]);
            if d < best {
                best = d;
                proof {
                    assert(manhattan_s(corner(*ra, u as int), corner(*rb, v as int)) == best);
                }
            }
            v += 1;
        }
        u += 1;
    }
    best
}

impl Area {
    /// A corridor between random cells of two rooms, following the area's
    /// tunneling strategy. Every cell stays within the bounding box of the
    /// two rooms.
    pub fn join_rooms(&self, a: &Room, b: &Room) -> (r: Vec<Vector2Int>)
        requires
            a.wf(),
            b.wf(),
        ensures
            forall|i: int|
                0 <= i < r@.len() ==> (if a.a.x < b.a.x {
                    a.a.x
                } else {
                    b.a.x
                }) <= (#[trigger] r@[i]).x <= (if a.b.x > b.b.x {
                    a.b.x
                } else {
                    b.b.x
                }) && (if a.a.y < b.a.y {
                    a.a.y
                } else {
                    b.a.y
                }) <= r@[i].y <= (if a.b.y > b.b.y {
                    a.b.y
                } else {
                    b.b.y
                }),
            forall|i: int| 0 <= i < r@.len() ==> in_bounds(#[trigger] r@[i]),
            exists|pa: Vector2Int, pb: Vector2Int|
                a.contains_cell(pa) && b.contains_cell(pb) && #[trigger] connect_post(
                    self.tunneler,
                    pa,
                    pb,
                    r@,
                ),
    {
        let pa = a.random_point();
        let pb = b.random_point();
        let r = self.tunneler.connect(pa, pb);
        proof {
            assert(a.contains_cell(pa) && b.contains_cell(pb) && connect_post(
                self.tunneler,
                pa,
                pb,
                r@,
            ));
        }
        r
    }

    /// Synthesize the area's two fixed-size rooms at canonical offsets and
    /// connect them with one internal corridor.
    pub fn generate_rooms(&mut self)
        ensures
            final(self).wf(),
            final(self).tunneler == old(self).tunneler,
            final(self).rooms@.len() == 2,
            final(self).rooms@[0] == (Room {
                a: Vector2Int { x: 0, y: 0 },
                b: Vector2Int { x: 4, y: 6 },
            }),
            final(self).rooms@[1] == (Room {
                a: Vector2Int { x: 10, y: 2 },
                b: Vector2Int { x: 14, y: 8 },
            }),
            final(self).paths@.len() == 1,
            internal_corridor(*final(self)),
            final(self).within(Vector2Int { x: 0, y: 0 }, Vector2Int { x: 14, y: 8 }),
    {
        let r0 = Room::new(Vector2Int { x: 0, y: 0 }, Vector2Int { x: 4, y: 6 });
        let r1 = Room::new(Vector2Int { x: 10, y: 2 }, Vector2Int { x: 14, y: 8 });
        let ghost tun = self.tunneler;
        let path = self.join_rooms(&r0, &r1);
        let ghost pathv = path@;
        let mut rooms: Vec<Room> = Vec::new();
        rooms.push(r0);
        rooms.push(r1);
        let mut paths: Vec<Vec<Vector2Int>> = Vec::new();
        paths.push(path);
        self.rooms = rooms;
        self.paths = paths;
        proof {
            let (pa, pb) = choose|pa: Vector2Int, pb: Vector2Int|
                r0.contains_cell(pa) && r1.contains_cell(pb) && #[trigger] connect_post(
                    tun,
                    pa,
                    pb,
                    pathv,
                );
            assert(self.rooms@[0].contains_cell(pa) && self.rooms@[1].contains_cell(pb)
                && connect_post(self.tunneler, pa, pb, self.paths@[0]@));
        }
    }

    /// Flatten the area's rooms and corridors into one cell list.
    pub fn to_tiles(&self) -> (r: Vec<Vector2Int>)
        requires
            self.wf(),
        ensures
            forall|c: Vector2Int|
                #[trigger] r@.contains(c) ==> (exists|j: int|
                    0 <= j < self.rooms@.len() && (#[trigger] self.rooms@[j]).contains_cell(c))
                    || (exists|j: int, t: int|
                    0 <= j < self.paths@.len() && 0 <= t < self.paths@[j].len()
                        && self.paths@[j][t] == c),
            forall|j: int, c: Vector2Int|
                0 <= j < self.rooms@.len() && #[trigger] self.rooms@[j].contains_cell(c)
                    ==> #[trigger] r@.contains(c),
            forall|j: int, t: int|
                0 <= j < self.paths@.len() && 0 <= t < self.paths@[j].len() ==> r@.contains(
                    #[trigger] self.paths@[j][t],
                ),
            forall|i: int| 0 <= i < r@.len() ==> in_bounds(#[trigger] r@[i]),
    {
        let mut r: Vec<Vector2Int> = Vec::new();
        let nr = self.rooms.len();
        let mut i: usize = 0;
        while i < nr
            invariant
                self.wf(),
                nr == self.rooms@.len(),
                i <= nr,
                forall|c: Vector2Int|
                    #[trigger] r@.contains(c) ==> (exists|j: int|
                        0 <= j < i && (#[trigger] self.rooms@[j]).contains_cell(c)),
                forall|j: int, c: Vector2Int|
                    0 <= j < i && #[trigger] self.rooms@[j].contains_cell(c) ==> r@.contains(c),
                forall|t: int| 0 <= t < r@.len() ==> in_bounds(#[trigger] r@[t]),
            decreases nr - i,
        {
            let tiles = self.rooms[i].to_tiles();
            let tn = tiles.len();
            let mut t: usize = 0;
            while t < tn
                invariant
                    self.wf(),
                    i < nr == self.rooms@.len(),
                    tn == tiles@.len(),
                    t <= tn,
                    forall|c: Vector2Int|
                        tiles@.contains(c) <==> (#[trigger] self.rooms@[i as int]).contains_cell(
                            c,
                        ),
                    forall|k: int| 0 <= k < tiles@.len() ==> in_bounds(#[trigger] tiles@[k]),
                    forall|c: Vector2Int|
                        #[trigger] r@.contains(c) ==> (exists|j: int|
                            0 <= j <= i && (#[trigger] self.rooms@[j]).contains_cell(c)),
                    forall|j: int, c: Vector2Int|
                        0 <= j < i && #[trigger] self.rooms@[j].contains_cell(c) ==> r@.contains(c),
                    forall|k: int| 0 <= k < t ==> r@.contains(#[trigger] tiles@[k]),
                    forall|k: int| 0 <= k < r@.len() ==> in_bounds(#[trigger] r@[k]),
                decreases tn - t,
            {
                proof {
                    assert(tiles@.contains(tiles@[t as int]));
                    assert(self.rooms@[i as int].contains_cell(tiles@[t as int]));
                }
                r.push(tiles[t]);
                t += 1;
            }
            proof {
                assert forall|c: Vector2Int|
                    (#[trigger] self.rooms@[i as int]).contains_cell(c) implies r@.contains(c) by {
                    assert(tiles@.contains(c));
                    let k = choose|k: int| 0 <= k < tiles@.len() && tiles@[k] == c;
                    assert(r@.contains(tiles@[k]));
                }
            }
            i += 1;
        }
        let np = self.paths.len();
        let mut j: usize = 0;
        while j < np
            invariant
                self.wf(),
                np == self.paths@.len(),
                j <= np,
                forall|c: Vector2Int|
                    #[trigger] r@.contains(c) ==> (exists|jj: int|
                        0 <= jj < self.rooms@.len() && (#[trigger] self.rooms@[jj]).contains_cell(
                            c,
                        )) || (exists|jj: int, t: int|
                        0 <= jj < j && 0 <= t < self.paths@[jj].len() && self.paths@[jj][t] == c),
                forall|jj: int, c: Vector2Int|
                    0 <= jj < self.rooms@.len() && #[trigger] self.rooms@[jj].contains_cell(c)
                        ==> r@.contains(c),
                forall|jj: int, t: int|
                    0 <= jj < j && 0 <= t < self.paths@[jj].len() ==> r@.contains(
                        #[trigger] self.paths@[jj][t],
                    ),
                forall|k: int| 0 <= k < r@.len() ==> in_bounds(#[trigger] r@[k]),
            decreases np - j,
        {
            let plen = self.paths[j].len();
            let mut t: usize = 0;
            while t < plen
                invariant
                    self.wf(),
                    j < np == self.paths@.len(),
                    plen == self.paths@[j as int].len(),
                    t <= plen,
                    forall|c: Vector2Int|
                        #[trigger] r@.contains(c) ==> (exists|jj: int|
                            0 <= jj < self.rooms@.len()
                                && (#[trigger] self.rooms@[jj]).contains_cell(c)) || (exists|
                            jj: int,
                            tt: int,
                        |
                            0 <= jj <= j && 0 <= tt < self.paths@[jj].len() && self.paths@[jj][tt]
                                == c),
                    forall|jj: int, c: Vector2Int|
                        0 <= jj < self.rooms@.len() && #[trigger] self.rooms@[jj].contains_cell(c)
                            ==> r@.contains(c),
                    forall|jj: int, tt: int|
                        0 <= jj < j && 0 <= tt < self.paths@[jj].len() ==> r@.contains(
                            #[trigger] self.paths@[jj][tt],
                        ),
                    forall|tt: int| 0 <= tt < t ==> r@.contains(#[trigger] self.paths@[j as int][tt]),
                    forall|k: int| 0 <= k < r@.len() ==> in_bounds(#[trigger] r@[k]),
                decreases plen - t,
            {
                r.push(self.paths[j][t]);
                t += 1;
            }
            j += 1;
        }
        r
    }

    /// The pair of rooms, one from each area, whose corners lie closest by
    /// Manhattan distance: the first such pair in scan order.
    pub fn find_closest_room_pair(&self, other: &Area) -> (r: (usize, usize))
        requires
            self.wf(),
            other.wf(),
            self.rooms@.len() > 0,
            other.rooms@.len() > 0,
        ensures
            r.0 < self.rooms@.len(),
            r.1 < other.rooms@.len(),
            closest_rooms(self.rooms@, other.rooms@, r.0 as int, r.1 as int),
    {
        let mut bi: usize = 0;
        let mut bj: usize = 0;
        let mut best = min_corner_distance(&self.rooms[0], &other.rooms[0]);
        let mut i: usize = 0;
        while i < self.rooms.len()
            invariant
                self.wf(),
                other.wf(),
                self.rooms@.len() > 0,
                other.rooms@.len() > 0,
                i <= self.rooms@.len(),
                bi < self.rooms@.len(),
                bj < other.rooms@.len(),
                is_min_corner_dist(
                    self.rooms@[bi as int],
                    other.rooms@[bj as int],
                    best as int,
                ),
                forall|ii: int, jj: int, d2: int|
                    0 <= ii < i && 0 <= jj < other.rooms@.len() && #[trigger] is_min_corner_dist(
                        self.rooms@[ii],
                        other.rooms@[jj],
                        d2,
                    ) ==> best <= d2,
            decreases self.rooms@.len() - i,
        {
            let mut j: usize = 0;
            while j < other.rooms.len()
                invariant
                    self.wf(),
                    other.wf(),
                    self.rooms@.len() > 0,
                    other.rooms@.len() > 0,
                    i < self.rooms@.len(),
                    j <= other.rooms@.len(),
                    bi < self.rooms@.len(),
                    bj < other.rooms@.len(),
                    is_min_corner_dist(
                        self.rooms@[bi as int],
                        other.rooms@[bj as int],
                        best as int,
                    ),
                    forall|ii: int, jj: int, d2: int|
                        0 <= ii < i && 0 <= jj < other.rooms@.len()
                            && #[trigger] is_min_corner_dist(
                            self.rooms@[ii],
                            other.rooms@[jj],
                            d2,
                        ) ==> best <= d2,
                    forall|jj: int, d2: int|
                        0 <= jj < j && #[trigger] is_min_corner_dist(
                            self.rooms@[i as int],
                            other.rooms@[jj],
                            d2,
                        ) ==> best <= d2,
                decreases other.rooms@.len() - j,
            {
                let d = min_corner_distance(&self.rooms[i], &other.rooms[j]);
                if d < best {
                    best = d;
                    bi = i;
                    bj = j;
                }
                j += 1;
            }
            i += 1;
        }
        (bi, bj)
    }

    /// A corridor from this area to the other, between the closest pair of
    /// rooms. Every cell stays within the two areas' combined bounding box.
    pub fn join_area(&self, other: &Area) -> (r: Vec<Vector2Int>)
        requires
            self.wf(),
            other.wf(),
            self.rooms@.len() > 0,
            other.rooms@.len() > 0,
        ensures
            forall|i: int|
                0 <= i < r@.len() ==> (if bounds_of(self.rooms@).0.x < bounds_of(
                    other.rooms@,
                ).0.x {
                    bounds_of(self.rooms@).0.x
                } else {
                    bounds_of(other.rooms@).0.x
                }) <= (#[trigger] r@[i]).x <= (if bounds_of(self.rooms@).1.x > bounds_of(
                    other.rooms@,
                ).1.x {
                    bounds_of(self.rooms@).1.x
                } else {
                    bounds_of(other.rooms@).1.x
                }) && (if bounds_of(self.rooms@).0.y < bounds_of(other.rooms@).0.y {
                    bounds_of(self.rooms@).0.y
                } else {
                    bounds_of(other.rooms@).0.y
                }) <= r@[i].y <= (if bounds_of(self.rooms@).1.y > bounds_of(other.rooms@).1.y {
                    bounds_of(self.rooms@).1.y
                } else {
                    bounds_of(other.rooms@).1.y
                }),
            forall|i: int| 0 <= i < r@.len() ==> in_bounds(#[trigger] r@[i]),
            join_post(*self, *other, r@),
    {
        let rooms = self.find_closest_room_pair(other);
        proof {
            lemma_bounds_enclose(self.rooms@);
            lemma_bounds_enclose(other.rooms@);
        }
        let r = self.join_rooms(&self.rooms[rooms.0], &other.rooms[rooms.1]);
        proof {
            let (pa, pb) = choose|pa: Vector2Int, pb: Vector2Int|
                self.rooms@[rooms.0 as int].contains_cell(pa)
                    && other.rooms@[rooms.1 as int].contains_cell(pb)
                    && #[trigger] connect_post(self.tunneler, pa, pb, r@);
            assert(closest_rooms(self.rooms@, other.rooms@, rooms.0 as int, rooms.1 as int)
                && self.rooms@[rooms.0 as int].contains_cell(pa)
                && other.rooms@[rooms.1 as int].contains_cell(pb) && connect_post(
                self.tunneler,
                pa,
                pb,
                r@,
            ));
        }
        r
    }
}

/// `a2` is `a1` translated rigidly by `(dx, dy)`.
pub open spec fn translated_by(a1: Area, a2: Area, dx: int, dy: int) -> bool {
    &&& a2.tunneler == a1.tunneler
    &&& a2.rooms@.len() == a1.rooms@.len()
    &&& a2.paths@.len() == a1.paths@.len()
    &&& forall|j: int|
        0 <= j < a1.rooms@.len() ==> (#[trigger] a2.rooms@[j]).a.x == a1.rooms@[j].a.x + dx
            && a2.rooms@[j].a.y == a1.rooms@[j].a.y + dy && a2.rooms@[j].b.x == a1.rooms@[j].b.x
            + dx && a2.rooms@[j].b.y == a1.rooms@[j].b.y + dy
    &&& forall|j: int|
        0 <= j < a1.paths@.len() ==> (#[trigger] a2.paths@[j]).len() == a1.paths@[j].len()
    &&& forall|j: int, t: int|
        0 <= j < a1.paths@.len() && 0 <= t < a1.paths@[j].len() ==> (#[trigger] a2.paths@[j][t]).x
            == a1.paths@[j][t].x + dx && a2.paths@[j][t].y == a1.paths@[j][t].y + dy
}

/// Some room or corridor of the area covers the cell.
pub open spec fn area_has_cell(a: Area, c: Vector2Int) -> bool {
    ||| exists|j: int| 0 <= j < a.rooms@.len() && (#[trigger] a.rooms@[j]).contains_cell(c)
    ||| exists|j: int, t: int|
        0 <= j < a.paths@.len() && 0 <= t < a.paths@[j].len() && a.paths@[j][t] == c
}

/// The area's first corridor joins its two rooms: a tunneler run between a
/// cell of each.
pub open spec fn internal_corridor(a: Area) -> bool {
    &&& a.rooms@.len() >= 2
    &&& a.paths@.len() >= 1
    &&& exists|pa: Vector2Int, pb: Vector2Int|
        a.rooms@[0].contains_cell(pa) && a.rooms@[1].contains_cell(pb)
            && #[trigger] connect_post(a.tunneler, pa, pb, a.paths@[0]@)
}

/// `(ri, rj)` is a pair of rooms, one per list, whose corner distance is
/// minimal over all pairs.
pub open spec fn closest_rooms(r1: Seq<Room>, r2: Seq<Room>, ri: int, rj: int) -> bool {
    &&& 0 <= ri < r1.len()
    &&& 0 <= rj < r2.len()
    &&& forall|i: int, j: int, d: int, d2: int|
        0 <= i < r1.len() && 0 <= j < r2.len() && #[trigger] is_min_corner_dist(
            r1[ri],
            r2[rj],
            d,
        ) && #[trigger] is_min_corner_dist(r1[i], r2[j], d2) ==> d <= d2
}

/// `p` is a corridor from area `a1` to area `a2`: a tunneler run between a
/// cell of each of their closest rooms.
pub open spec fn join_post(a1: Area, a2: Area, p: Seq<Vector2Int>) -> bool {
    exists|ri: int, rj: int, pa: Vector2Int, pb: Vector2Int|
        #![trigger a1.rooms@[ri].contains_cell(pa), a2.rooms@[rj].contains_cell(pb)]
        closest_rooms(a1.rooms@, a2.rooms@, ri, rj) && a1.rooms@[ri].contains_cell(pa)
            && a2.rooms@[rj].contains_cell(pb) && connect_post(a1.tunneler, pa, pb, p)
}

/// `join_post` reads only the two areas' rooms and the first one's tunneler.
proof fn lemma_join_post_same_rooms(a1: Area, a1b: Area, a2: Area, a2b: Area, p: Seq<Vector2Int>)
    requires
        join_post(a1, a2, p),
        a1b.rooms@ == a1.rooms@,
        a1b.tunneler == a1.tunneler,
        a2b.rooms@ == a2.rooms@,
    ensures
        join_post(a1b, a2b, p),
{
    let (ri, rj, pa, pb) = choose|ri: int, rj: int, pa: Vector2Int, pb: Vector2Int|
        #![trigger a1.rooms@[ri].contains_cell(pa), a2.rooms@[rj].contains_cell(pb)]
        closest_rooms(a1.rooms@, a2.rooms@, ri, rj) && a1.rooms@[ri].contains_cell(pa)
            && a2.rooms@[rj].contains_cell(pb) && connect_post(a1.tunneler, pa, pb, p);
    assert(a1b.rooms@[ri].contains_cell(pa) && a2b.rooms@[rj].contains_cell(pb) && connect_post(
        a1b.tunneler,
        pa,
        pb,
        p,
    ));
}

/// A rigid translation carries a tunneler run between two cells to a
/// tunneler run between the translated cells.
proof fn lemma_connect_post_translated(
    t: Tunneler,
    pa: Vector2Int,
    pb: Vector2Int,
    p1: Seq<Vector2Int>,
    p2: Seq<Vector2Int>,
    dx: int,
    dy: int,
)
    requires
        connect_post(t, pa, pb, p1),
        in_bounds(Vector2Int { x: (pa.x + dx) as i32, y: (pa.y + dy) as i32 }),
        in_bounds(Vector2Int { x: (pb.x + dx) as i32, y: (pb.y + dy) as i32 }),
        -0x1000_0000 <= pa.x + dx <= 0x1000_0000,
        -0x1000_0000 <= pa.y + dy <= 0x1000_0000,
        -0x1000_0000 <= pb.x + dx <= 0x1000_0000,
        -0x1000_0000 <= pb.y + dy <= 0x1000_0000,
        p2.len() == p1.len(),
        forall|i: int|
            0 <= i < p1.len() ==> (#[trigger] p2[i]).x == p1[i].x + dx && p2[i].y == p1[i].y + dy,
        forall|i: int| 0 <= i < p2.len() ==> in_bounds(#[trigger] p2[i]),
    ensures
        connect_post(
            t,
            Vector2Int { x: (pa.x + dx) as i32, y: (pa.y + dy) as i32 },
            Vector2Int { x: (pb.x + dx) as i32, y: (pb.y + dy) as i32 },
            p2,
        ),
{
    let pa2 = Vector2Int { x: (pa.x + dx) as i32, y: (pa.y + dy) as i32 };
    let pb2 = Vector2Int { x: (pb.x + dx) as i32, y: (pb.y + dy) as i32 };
    assert forall|i: int| 0 <= i < p2.len() implies crate::pathfind::in_rect(
        pa2,
        pb2,
        #[trigger] p2[i],
    ) by {
        assert(crate::pathfind::in_rect(pa, pb, p1[i]));
    }
    if t is LShape {
        assert(p2 =~= lshape_seq(pa2, pb2)) by {
            assert(abs_val(pb2.x - pa2.x) == abs_val(pb.x - pa.x));
            assert(abs_val(pb2.y - pa2.y) == abs_val(pb.y - pa.y));
            assert(lshape_seq(pa2, pb2).len() == lshape_seq(pa, pb).len());
            assert forall|i: int| 0 <= i < p2.len() implies p2[i] == lshape_seq(pa2, pb2)[i] by {
                assert(p1[i] == lshape_seq(pa, pb)[i]);
            }
        }
    }
    if t is Random {
        assert(manhattan_s(pa2, pb2) == manhattan_s(pa, pb));
        assert(p2[0] == pa2);
        assert(p2[p2.len() - 1] == pb2);
        assert forall|i: int| 0 <= i < p2.len() - 1 implies adjacent(
            #[trigger] p2[i],
            p2[i + 1],
        ) by {
            assert(adjacent(p1[i], p1[i + 1]));
        }
    }
}

/// A rigid translation of an area keeps its internal corridor.
proof fn lemma_corridor_translated(a1: Area, a2: Area, dx: int, dy: int)
    requires
        internal_corridor(a1),
        translated_by(a1, a2, dx, dy),
        a2.wf(),
        a2.rooms@.len() >= 2,
    ensures
        internal_corridor(a2),
{
    let (pa, pb) = choose|pa: Vector2Int, pb: Vector2Int|
        a1.rooms@[0].contains_cell(pa) && a1.rooms@[1].contains_cell(pb)
            && #[trigger] connect_post(a1.tunneler, pa, pb, a1.paths@[0]@);
    let pa2 = Vector2Int { x: (pa.x + dx) as i32, y: (pa.y + dy) as i32 };
    let pb2 = Vector2Int { x: (pb.x + dx) as i32, y: (pb.y + dy) as i32 };
    assert(a2.rooms@[0].wf() && a2.rooms@[1].wf());
    assert(-0x1000_0000 <= pa.x + dx <= 0x1000_0000 && -0x1000_0000 <= pa.y + dy <= 0x1000_0000);
    assert(-0x1000_0000 <= pb.x + dx <= 0x1000_0000 && -0x1000_0000 <= pb.y + dy <= 0x1000_0000);
    lemma_connect_post_translated(a1.tunneler, pa, pb, a1.paths@[0]@, a2.paths@[0]@, dx, dy);
    assert(a2.rooms@[0].contains_cell(pa2) && a2.rooms@[1].contains_cell(pb2) && connect_post(
        a2.tunneler,
        pa2,
        pb2,
        a2.paths@[0]@,
    ));
}

/// The bounding-box width and height of an area with at least one room.
pub open spec fn area_size_x(a: Area) -> int {
    bounds_of(a.rooms@).1.x - bounds_of(a.rooms@).0.x + 1
}

pub open spec fn area_size_y(a: Area) -> int {
    bounds_of(a.rooms@).1.y - bounds_of(a.rooms@).0.y + 1
}

/// The widest area the grid places in column `c`, looking at rows `0..upto`;
/// zero where the column is empty.
pub open spec fn col_max_width(areas: Seq<Area>, grid: Seq<Vec<usize>>, c: int, upto: int) -> int
    decreases upto,
{
    if upto <= 0 {
        0
    } else {
        let m = col_max_width(areas, grid, c, upto - 1);
        if c < grid[upto - 1]@.len() {
            let sz = area_size_x(areas[grid[upto - 1]@[c] as int]);
            if sz > m {
                sz
            } else {
                m
            }
        } else {
            m
        }
    }
}

/// The tallest area among the first `upto` entries of one grid row.
pub open spec fn row_max_height(areas: Seq<Area>, row: Seq<usize>, upto: int) -> int
    decreases upto,
{
    if upto <= 0 {
        0
    } else {
        let m = row_max_height(areas, row, upto - 1);
        let sz = area_size_y(areas[row[upto - 1] as int]);
        if sz > m {
            sz
        } else {
            m
        }
    }
}

/// The cumulative x offset of grid column `c`: each earlier column
/// contributes its widest area plus the fixed spacing of four cells.
pub open spec fn column_offset(areas: Seq<Area>, grid: Seq<Vec<usize>>, c: int) -> int
    decreases c,
{
    if c <= 0 {
        0
    } else {
        column_offset(areas, grid, c - 1) + col_max_width(areas, grid, c - 1, grid.len() as int)
            + 4
    }
}

/// The cumulative y offset of grid row `r`: each earlier row contributes its
/// tallest area plus the fixed spacing of four cells.
pub open spec fn row_offset(areas: Seq<Area>, grid: Seq<Vec<usize>>, r: int) -> int
    decreases r,
{
    if r <= 0 {
        0
    } else {
        row_offset(areas, grid, r - 1) + row_max_height(
            areas,
            grid[r - 1]@,
            grid[r - 1]@.len() as int,
        ) + 4
    }
}

/// Over fresh areas every populated column folds to the canonical width.
proof fn lemma_col_max_width_fresh(
    areas: Seq<Area>,
    grid: Seq<Vec<usize>>,
    c: int,
    upto: int,
)
    requires
        forall|i: int| 0 <= i < areas.len() ==> fresh_area(#[trigger] areas[i]),
        forall|r: int, cc: int|
            0 <= r < grid.len() && 0 <= cc < grid[r]@.len() ==> #[trigger] grid[r]@[cc]
                < areas.len(),
        0 <= upto <= grid.len(),
        0 <= c,
    ensures
        col_max_width(areas, grid, c, upto) == if exists|r: int|
            0 <= r < upto && c < (#[trigger] grid[r]@).len() {
            15int
        } else {
            0int
        },
    decreases upto,
{
    if upto > 0 {
        lemma_col_max_width_fresh(areas, grid, c, upto - 1);
        if c < grid[upto - 1]@.len() {
            lemma_pair_bounds(areas[grid[upto - 1]@[c] as int].rooms@);
            assert(area_size_x(areas[grid[upto - 1]@[c] as int]) == 15);
            assert(exists|r: int| 0 <= r < upto && c < (#[trigger] grid[r]@).len()) by {
                assert(c < (grid[upto - 1]@).len());
            }
        } else {
            if exists|r: int| 0 <= r < upto && c < (#[trigger] grid[r]@).len() {
                let r = choose|r: int| 0 <= r < upto && c < (#[trigger] grid[r]@).len();
                assert(0 <= r < upto - 1 + 1);
                assert(r != upto - 1 || c < grid[upto - 1]@.len());
            }
        }
    }
}

/// Over fresh areas every non-empty row folds to the canonical height.
proof fn lemma_row_max_height_fresh(areas: Seq<Area>, row: Seq<usize>, upto: int)
    requires
        forall|i: int| 0 <= i < areas.len() ==> fresh_area(#[trigger] areas[i]),
        forall|cc: int| 0 <= cc < row.len() ==> row[cc] < areas.len(),
        0 <= upto <= row.len(),
    ensures
        row_max_height(areas, row, upto) == if upto > 0 {
            9int
        } else {
            0int
        },
    decreases upto,
{
    if upto > 0 {
        lemma_row_max_height_fresh(areas, row, upto - 1);
        lemma_pair_bounds(areas[row[upto - 1] as int].rooms@);
        assert(area_size_y(areas[row[upto - 1] as int]) == 9);
    }
}

/// Over fresh areas the cumulative column offset is nineteen cells per
/// earlier column, and the row offset thirteen per earlier row.
proof fn lemma_offsets_fresh(areas: Seq<Area>, grid: Seq<Vec<usize>>, c: int, r: int)
    requires
        forall|i: int| 0 <= i < areas.len() ==> fresh_area(#[trigger] areas[i]),
        forall|rr: int, cc: int|
            0 <= rr < grid.len() && 0 <= cc < grid[rr]@.len() ==> #[trigger] grid[rr]@[cc]
                < areas.len(),
        grid.len() >= 1,
        0 <= c <= grid[0]@.len(),
        0 <= r <= grid.len(),
        forall|rr: int| 0 <= rr < grid.len() ==> (#[trigger] grid[rr]@).len() >= 1,
        forall|rr: int|
            0 <= rr < grid.len() ==> (#[trigger] grid[rr]@).len() <= grid[0]@.len(),
    ensures
        column_offset(areas, grid, c) == 19 * c,
        row_offset(areas, grid, r) == 13 * r,
    decreases c + r,
{
    if c > 0 {
        lemma_offsets_fresh(areas, grid, c - 1, 0);
        lemma_col_max_width_fresh(areas, grid, c - 1, grid.len() as int);
        assert(c - 1 < grid[0]@.len());
    }
    if r > 0 {
        lemma_offsets_fresh(areas, grid, 0, r - 1);
        lemma_row_max_height_fresh(areas, grid[r - 1]@, grid[r - 1]@.len() as int);
    }
}

/// A freshly synthesized area: the two canonical rooms and one internal
/// corridor, all within the canonical bounding box.
pub open spec fn fresh_area(a: Area) -> bool {
    &&& a.wf()
    &&& a.rooms@.len() == 2
    &&& a.rooms@[0] == (Room { a: Vector2Int { x: 0, y: 0 }, b: Vector2Int { x: 4, y: 6 } })
    &&& a.rooms@[1] == (Room { a: Vector2Int { x: 10, y: 2 }, b: Vector2Int { x: 14, y: 8 } })
    &&& a.paths@.len() == 1
    &&& internal_corridor(a)
    &&& a.within(Vector2Int { x: 0, y: 0 }, Vector2Int { x: 14, y: 8 })
}

/// An area after layout: a rigid translation of the earlier area, to a
/// non-negative offset, with all cells in the non-negative quarter-plane.
pub open spec fn placed_area(a1: Area, a2: Area) -> bool {
    &&& a2.wf()
    &&& exists|dx: int, dy: int| 0 <= dx && 0 <= dy && #[trigger] translated_by(a1, a2, dx, dy)
    &&& a2.within(Vector2Int { x: 0, y: 0 }, Vector2Int { x: 0x0400_0000, y: 0x0400_0000 })
}

/// A generated area: two well-formed rooms, both five cells wide and seven
/// tall, at non-negative coordinates, joined by its internal corridor.
pub open spec fn generated_area(a: Area) -> bool {
    &&& a.wf()
    &&& a.rooms@.len() == 2
    &&& internal_corridor(a)
    &&& forall|j: int|
        0 <= j < 2 ==> (#[trigger] a.rooms@[j]).b.x - a.rooms@[j].a.x == 4 && a.rooms@[j].b.y
            - a.rooms@[j].a.y == 6 && a.rooms@[j].a.x >= 0 && a.rooms@[j].a.y >= 0
    &&& a.within(Vector2Int { x: 0, y: 0 }, Vector2Int { x: 0x0400_0000, y: 0x0400_0000 })
}

/// A fresh area translated to a bounded non-negative offset is placed.
proof fn lemma_place(a1: Area, a2: Area, dx: int, dy: int)
    requires
        fresh_area(a1),
        translated_by(a1, a2, dx, dy),
        0 <= dx <= 0x0200_0000,
        0 <= dy <= 0x0200_0000,
        a2.wf(),
    ensures
        placed_area(a1, a2),
{
    assert forall|j: int|
        0 <= j < a2.rooms@.len() implies 0 <= (#[trigger] a2.rooms@[j]).a.x && 0 <= a2.rooms@[j].a.y
        && a2.rooms@[j].b.x <= 0x0400_0000 && a2.rooms@[j].b.y <= 0x0400_0000 by {
        assert(a1.rooms@[j].wf());
        assert(a1.within(Vector2Int { x: 0, y: 0 }, Vector2Int { x: 14, y: 8 }));
    }
    assert forall|j: int, t: int|
        0 <= j < a2.paths@.len() && 0 <= t < a2.paths@[j].len() implies 0
        <= (#[trigger] a2.paths@[j][t]).x <= 0x0400_0000 && 0 <= a2.paths@[j][t].y
        <= 0x0400_0000 by {
        assert(0 <= a1.paths@[j][t].x <= 14 && 0 <= a1.paths@[j][t].y <= 8);
    }
}

/// Area `i` after the connection pass: its rooms, tunneler and earlier
/// corridors are untouched, and it gained exactly one corridor to its left
/// grid neighbour (when it has one) and one to its upper grid neighbour.
pub open spec fn connected_area(areas0: Seq<Area>, rc: int, i: int, a: Area) -> bool {
    &&& a.rooms@ == areas0[i].rooms@
    &&& a.tunneler == areas0[i].tunneler
    &&& forall|t: int|
        0 <= t < areas0[i].paths@.len() ==> #[trigger] a.paths@[t] == areas0[i].paths@[t]
    &&& a.paths@.len() == areas0[i].paths@.len() + (if i >= rc {
        1int
    } else {
        0int
    }) + (if i % rc > 0 {
        1int
    } else {
        0int
    })
    &&& i >= rc ==> join_post(
        areas0[i],
        areas0[i - rc],
        a.paths@[areas0[i].paths@.len() as int]@,
    )
    &&& i % rc > 0 ==> join_post(
        areas0[i],
        areas0[i - 1],
        a.paths@[areas0[i].paths@.len() + (if i >= rc {
            1int
        } else {
            0int
        })]@,
    )
}

/// The area index at grid cell `(r, c)` was already visited by a row-major
/// walk that stands at row `y`, column `x`.
pub open spec fn pos_processed(idx: int, rc: int, y: int, x: int) -> bool {
    idx % rc < y || (idx % rc == y && idx / rc < x)
}

/// The two canonical rooms span the canonical bounding box.
proof fn lemma_pair_bounds(rooms: Seq<Room>)
    requires
        rooms.len() == 2,
        rooms[0] == (Room { a: Vector2Int { x: 0, y: 0 }, b: Vector2Int { x: 4, y: 6 } }),
        rooms[1] == (Room { a: Vector2Int { x: 10, y: 2 }, b: Vector2Int { x: 14, y: 8 } }),
    ensures
        bounds_of(rooms) == (Vector2Int { x: 0, y: 0 }, Vector2Int { x: 14, y: 8 }),
{
    assert(rooms.drop_last().len() == 1);
    assert(rooms.drop_last()[0] == rooms[0]);
    assert(bounds_of(rooms.drop_last()) == (rooms[0].a, rooms[0].b));
}

/// Every grid entry indexes an existing area.
proof fn lemma_grid_entry_bound(n: int, rc: int, r: int, c: int)
    requires
        rc >= 1,
        n >= 0,
        0 <= r < rc,
        0 <= c < row_len(n, rc, r),
    ensures
        0 <= c * rc + r < n,
{
    vstd::arithmetic::div_mod::lemma_fundamental_div_mod(n, rc);
    vstd::arithmetic::div_mod::lemma_mod_bound(n, rc);
    vstd::arithmetic::div_mod::lemma_div_pos_is_pos(n, rc);
    let q = n / rc;
    let m = n % rc;
    assert(c * rc + r >= 0) by (nonlinear_arith)
        requires
            c >= 0,
            rc >= 1,
            r >= 0,
    ;
    if r < m {
        assert(c <= q);
        assert(c * rc <= q * rc) by (nonlinear_arith)
            requires
                c <= q,
                rc >= 1,
        ;
        assert(q * rc == rc * q) by (nonlinear_arith);
    } else {
        assert(c <= q - 1);
        assert(c * rc <= (q - 1) * rc) by (nonlinear_arith)
            requires
                c <= q - 1,
                rc >= 1,
        ;
        assert((q - 1) * rc == rc * q - rc) by (nonlinear_arith);
    }
}

/// The grid cell of area index `idx` lies within its row.
proof fn lemma_grid_entry_bound_converse(n: int, rc: int, idx: int)
    requires
        rc >= 1,
        0 <= idx < n,
    ensures
        0 <= idx % rc < rc,
        0 <= idx / rc < row_len(n, rc, idx % rc),
        (idx / rc) * rc + (idx % rc) == idx,
    decreases 0int,
{
    vstd::arithmetic::div_mod::lemma_fundamental_div_mod(idx, rc);
    vstd::arithmetic::div_mod::lemma_mod_bound(idx, rc);
    vstd::arithmetic::div_mod::lemma_div_pos_is_pos(idx, rc);
    vstd::arithmetic::div_mod::lemma_fundamental_div_mod(n, rc);
    vstd::arithmetic::div_mod::lemma_mod_bound(n, rc);
    vstd::arithmetic::div_mod::lemma_div_pos_is_pos(n, rc);
    let q = idx / rc;
    let r = idx % rc;
    let nq = n / rc;
    let nm = n % rc;
    assert(q * rc == rc * q) by (nonlinear_arith);
    assert(idx == q * rc + r);
    assert(n == nq * rc + nm) by {
        assert(nq * rc == rc * nq) by (nonlinear_arith);
    }
    // compare q with n / rc
    if q > nq {
        assert(q * rc >= (nq + 1) * rc) by (nonlinear_arith)
            requires
                q >= nq + 1,
                rc >= 1,
        ;
        assert((nq + 1) * rc == nq * rc + rc) by (nonlinear_arith);
        assert(idx >= n - nm + rc);
        assert(false);
    }
    if q == nq {
        assert(r < nm);
    }
}

/// Row lengths never increase with the row index; with at least as many
/// areas as rows every row is populated, and no row is longer than the area
/// count.
proof fn lemma_row_lens(n: int, rc: int)
    requires
        rc >= 1,
        n >= 0,
    ensures
        forall|r1: int, r2: int|
            0 <= r1 <= r2 < rc ==> #[trigger] row_len(n, rc, r1) >= #[trigger] row_len(n, rc, r2),
        forall|r: int| 0 <= r < rc ==> #[trigger] row_len(n, rc, r) <= row_len(n, rc, 0),
        n >= rc ==> forall|r: int| 0 <= r < rc ==> #[trigger] row_len(n, rc, r) >= 1,
        row_len(n, rc, 0) <= n,
{
    vstd::arithmetic::div_mod::lemma_fundamental_div_mod(n, rc);
    vstd::arithmetic::div_mod::lemma_mod_bound(n, rc);
    vstd::arithmetic::div_mod::lemma_div_pos_is_pos(n, rc);
    let q = n / rc;
    let m = n % rc;
    assert(n == rc * q + m);
    if n >= rc {
        assert(q >= 1) by (nonlinear_arith)
            requires
                n == rc * q + m,
                n >= rc,
                0 <= m < rc,
                q >= 0,
        ;
    }
    if m > 0 {
        // the first row is one longer than the shortest; q + 1 <= n
        assert(rc * q <= n);
        assert(q + 1 <= n) by (nonlinear_arith)
            requires
                n == rc * q + m,
                0 < m < rc,
                q >= 0,
                rc >= 1,
        ;
    } else {
        assert(q <= n) by (nonlinear_arith)
            requires
                n == rc * q,
                q >= 0,
                rc >= 1,
        ;
    }
}

/// How many entries the round-robin assignment leaves in row `r` of a grid
/// of `rc` rows after `n` insertions.
pub open spec fn row_len(n: int, rc: int, r: int) -> int {
    if r < n % rc {
        n / rc + 1
    } else {
        n / rc
    }
}

/// A fresh area translated to its grid cell's offsets lands with its two
/// rooms at nineteen cells per column and thirteen per row.
proof fn lemma_fresh_placement(fresh: Dungeon, a2: Area, r: int, c: int)
    requires
        fresh.grid@.len() >= 1,
        fresh.areas@.len() >= fresh.grid@.len(),
        fresh.areas@.len() <= 0x10000,
        fresh.grid_ok(),
        forall|i: int| 0 <= i < fresh.areas@.len() ==> fresh_area(#[trigger] fresh.areas@[i]),
        0 <= r < fresh.grid@.len(),
        0 <= c < fresh.grid@[r]@.len(),
        translated_by(
            fresh.areas@[fresh.grid@[r][c] as int],
            a2,
            column_offset(fresh.areas@, fresh.grid@, c),
            row_offset(fresh.areas@, fresh.grid@, r),
        ),
    ensures
        a2.rooms@[0] == (Room {
            a: Vector2Int { x: (19 * c) as i32, y: (13 * r) as i32 },
            b: Vector2Int { x: (19 * c + 4) as i32, y: (13 * r + 6) as i32 },
        }),
        a2.rooms@[1] == (Room {
            a: Vector2Int { x: (19 * c + 10) as i32, y: (13 * r + 2) as i32 },
            b: Vector2Int { x: (19 * c + 14) as i32, y: (13 * r + 8) as i32 },
        }),
{
    let n = fresh.areas@.len() as int;
    let rc = fresh.grid@.len() as int;
    lemma_row_lens(n, rc);
    assert forall|rr: int, cc: int|
        0 <= rr < fresh.grid@.len() && 0 <= cc < fresh.grid@[rr]@.len() implies #[trigger] fresh.grid@[rr]@[cc]
        < fresh.areas@.len() by {
        lemma_grid_entry_bound(n, rc, rr, cc);
    }
    lemma_grid_entry_bound(n, rc, r, c);
    let idx = fresh.grid@[r][c] as int;
    assert(c < fresh.grid@[0]@.len());
    lemma_offsets_fresh(fresh.areas@, fresh.grid@, c, r);
    assert(fresh_area(fresh.areas@[idx]));
    assert(0 <= 19 * c <= 0x0140_0000 && 0 <= 13 * r <= 0x0140_0000) by (nonlinear_arith)
        requires
            0 <= c <= 0x10000,
            0 <= r <= 0x10000,
    ;
}

/// The two rooms occupy disjoint coordinate ranges: they share no cell.
pub open spec fn rooms_apart(r1: Room, r2: Room) -> bool {
    r1.b.x < r2.a.x || r2.b.x < r1.a.x || r1.b.y < r2.a.y || r2.b.y < r1.a.y
}

/// Distinct rooms of a laid-out dungeon sit apart: areas in different grid
/// columns are nineteen cells apart in x, different rows thirteen in y, and
/// the two rooms of one area keep their canonical gap.
proof fn lemma_rooms_apart(
    areas: Seq<Area>,
    grid: Seq<Vec<usize>>,
    n: int,
    rc: int,
    i1: int,
    j1: int,
    i2: int,
    j2: int,
)
    requires
        rc == grid.len(),
        rc >= 1,
        n == areas.len(),
        forall|r: int| 0 <= r < rc ==> (#[trigger] grid[r]@).len() == row_len(n, rc, r),
        forall|r: int, cc: int|
            0 <= r < rc && 0 <= cc < grid[r]@.len() ==> #[trigger] grid[r]@[cc] == cc * rc + r,
        forall|r: int, c: int|
            0 <= r < rc && 0 <= c < grid[r]@.len()
                ==> areas[#[trigger] grid[r][c] as int].rooms@[0] == (Room {
                a: Vector2Int { x: (19 * c) as i32, y: (13 * r) as i32 },
                b: Vector2Int { x: (19 * c + 4) as i32, y: (13 * r + 6) as i32 },
            }) && areas[grid[r][c] as int].rooms@[1] == (Room {
                a: Vector2Int { x: (19 * c + 10) as i32, y: (13 * r + 2) as i32 },
                b: Vector2Int { x: (19 * c + 14) as i32, y: (13 * r + 8) as i32 },
            }),
        n <= 0x10000,
        rc <= n,
        0 <= i1 < n,
        0 <= i2 < n,
        0 <= j1 < 2,
        0 <= j2 < 2,
        i1 != i2 || j1 != j2,
    ensures
        rooms_apart(areas[i1].rooms@[j1], areas[i2].rooms@[j2]),
{
    lemma_grid_entry_bound_converse(n, rc, i1);
    lemma_grid_entry_bound_converse(n, rc, i2);
    lemma_row_lens(n, rc);
    let r1 = i1 % rc;
    let c1 = i1 / rc;
    let r2 = i2 % rc;
    let c2 = i2 / rc;
    assert(grid[r1]@[c1] == c1 * rc + r1);
    assert(grid[r2]@[c2] == c2 * rc + r2);
    assert(grid[r1][c1] as int == i1);
    assert(grid[r2][c2] as int == i2);
    assert(c1 < row_len(n, rc, r1) <= row_len(n, rc, 0) <= n);
    assert(c2 < row_len(n, rc, r2) <= row_len(n, rc, 0) <= n);
    assert(r1 < rc <= 0x10000 && r2 < rc);
    // the cast coordinates all fit comfortably in the machine range
    let w1 = areas[i1].rooms@[j1];
    let w2 = areas[i2].rooms@[j2];
    assert(w1.a.x == 19 * c1 + (if j1 == 0 {
        0int
    } else {
        10int
    }) && w1.b.x == 19 * c1 + (if j1 == 0 {
        4int
    } else {
        14int
    }) && w1.a.y == 13 * r1 + (if j1 == 0 {
        0int
    } else {
        2int
    }) && w1.b.y == 13 * r1 + (if j1 == 0 {
        6int
    } else {
        8int
    }));
    assert(w2.a.x == 19 * c2 + (if j2 == 0 {
        0int
    } else {
        10int
    }) && w2.b.x == 19 * c2 + (if j2 == 0 {
        4int
    } else {
        14int
    }) && w2.a.y == 13 * r2 + (if j2 == 0 {
        0int
    } else {
        2int
    }) && w2.b.y == 13 * r2 + (if j2 == 0 {
        6int
    } else {
        8int
    }));
    if i1 != i2 {
        if c1 != c2 {
            if c1 < c2 {
                assert(19 * c1 + 14 < 19 * c2);
            } else {
                assert(19 * c2 + 14 < 19 * c1);
            }
        } else {
            assert(r1 != r2);
            if r1 < r2 {
                assert(13 * r1 + 8 < 13 * r2);
            } else {
                assert(13 * r2 + 8 < 13 * r1);
            }
        }
    }
}

/// A fixed number of rows holding area indices, round-robin assigned by
/// insertion order, and the list of areas.
pub struct Dungeon {
    pub areas: Vec<Area>,
    /// Rows of area indices; public so that specifications can speak of it.
    pub grid: Vec<Vec<usize>>,
}

impl Dungeon {
    /// The number of grid rows the dungeon was created with.
    pub open spec fn row_count(&self) -> int {
        self.grid@.len() as int
    }

    /// The grid rows hold exactly the round-robin assignment of area
    /// indices: row `r` holds `r, r + rc, r + 2 rc, ...`.
    pub open spec fn grid_ok(&self) -> bool {
        let rc = self.grid@.len() as int;
        let n = self.areas@.len() as int;
        &&& forall|r: int| 0 <= r < rc ==> (#[trigger] self.grid@[r]).len() == row_len(n, rc, r)
        &&& forall|r: int, c: int|
            0 <= r < rc && 0 <= c < self.grid@[r].len() ==> #[trigger] self.grid@[r][c] == c * rc
                + r
    }

    pub open spec fn wf(&self) -> bool {
        &&& self.row_count() >= 1
        &&& self.grid_ok()
        &&& forall|i: int| 0 <= i < self.areas@.len() ==> (#[trigger] self.areas@[i]).wf()
    }

    pub fn new(row_count: usize) -> (r: Dungeon)
        requires
            row_count >= 1,
        ensures
            r.wf(),
            r.areas@.len() == 0,
            r.row_count() == row_count,
    {
        let mut grid: Vec<Vec<usize>> = Vec::new();
        let mut i: usize = 0;
        while i < row_count
            invariant
                i <= row_count,
                grid@.len() == i,
                forall|r: int| 0 <= r < i ==> (#[trigger] grid@[r]).len() == 0,
            decreases row_count - i,
        {
            grid.push(Vec::new());
            i += 1;
        }
        let d = Dungeon { areas: Vec::new(), grid };
        proof {
            assert forall|r: int| 0 <= r < d.grid@.len() implies (#[trigger] d.grid@[r]).len()
                == row_len(0, d.grid@.len() as int, r) by {
                assert(0int % (d.grid@.len() as int) == 0) by (nonlinear_arith)
                    requires
                        d.grid@.len() >= 1,
                ;
                assert(0int / (d.grid@.len() as int) == 0) by (nonlinear_arith)
                    requires
                        d.grid@.len() >= 1,
                ;
            }
        }
        d
    }

    /// Append an area: it joins the grid row given by its index modulo the
    /// row count.
    pub fn add_area(&mut self, area: Area)
        requires
            old(self).wf(),
            area.wf(),
            old(self).areas@.len() < 0x7fff_ffff_ffff_ffff,
        ensures
            final(self).wf(),
            final(self).areas@ == old(self).areas@.push(area),
            final(self).row_count() == old(self).row_count(),
    {
        self.areas.push(area);
        let idx = self.areas.len() - 1;
        let row_count = self.grid.len();
        let r = idx % row_count;
        proof {
            let n = idx as int;
            let rc = row_count as int;
            vstd::arithmetic::div_mod::lemma_fundamental_div_mod(n, rc);
            assert(n == rc * (n / rc) + r);
            assert((n / rc) * rc == rc * (n / rc)) by (nonlinear_arith);
            // the new index extends exactly its round-robin row
            assert(self.grid@[r as int].len() == n / rc) by {
                assert(row_len(n, rc, r as int) == n / rc);
            }
            if r as int + 1 < rc {
                vstd::arithmetic::div_mod::lemma_fundamental_div_mod_converse(
                    n + 1,
                    rc,
                    n / rc,
                    r as int + 1,
                );
            } else {
                assert(n + 1 == (n / rc + 1) * rc + 0) by (nonlinear_arith)
                    requires
                        n == (n / rc) * rc + r,
                        r as int + 1 == rc,
                ;
                vstd::arithmetic::div_mod::lemma_fundamental_div_mod_converse(
                    n + 1,
                    rc,
                    n / rc + 1,
                    0,
                );
            }
        }
        let row = &mut self.grid[r];
        row.push(idx);
        proof {
            let n = idx as int;
            let rc = row_count as int;
            assert forall|rr: int| 0 <= rr < rc implies (#[trigger] self.grid@[rr]).len()
                == row_len(n + 1, rc, rr) by {}
            assert forall|rr: int, c: int|
                0 <= rr < rc && 0 <= c < self.grid@[rr].len() implies #[trigger] self.grid@[rr][c]
                == c * rc + rr by {
                if rr == r as int && c == self.grid@[rr].len() - 1 {
                    vstd::arithmetic::div_mod::lemma_fundamental_div_mod(n, rc);
                    assert((n / rc) * rc == rc * (n / rc)) by (nonlinear_arith);
                    assert(n == (n / rc) * rc + r);
                }
            }
        }
    }

    /// Synthesize every area's rooms, lay the areas out on the grid, and
    /// connect neighbouring areas with corridors.
    #[verifier::rlimit(100)]
    pub fn generate(&mut self)
        requires
            old(self).wf(),
            old(self).areas@.len() >= old(self).row_count(),
            old(self).areas@.len() <= 0x10000,
        ensures
            final(self).wf(),
            final(self).row_count() == old(self).row_count(),
            final(self).areas@.len() == old(self).areas@.len(),
            forall|i: int|
                0 <= i < final(self).areas@.len()
                    ==> generated_area(#[trigger] final(self).areas@[i]),
            forall|i: int|
                0 <= i < final(self).areas@.len() ==> (#[trigger] final(self).areas@[i]).paths@.len()
                    == 1 + (if i >= old(self).row_count() {
                    1int
                } else {
                    0int
                }) + (if i % old(self).row_count() > 0 {
                    1int
                } else {
                    0int
                }),
            forall|r: int, c: int|
                0 <= r < old(self).grid@.len() && 0 <= c < old(self).grid@[r]@.len()
                    ==> final(self).areas@[#[trigger] old(self).grid@[r][c] as int].rooms@[0] == (Room {
                    a: Vector2Int { x: (19 * c) as i32, y: (13 * r) as i32 },
                    b: Vector2Int { x: (19 * c + 4) as i32, y: (13 * r + 6) as i32 },
                }) && final(self).areas@[old(self).grid@[r][c] as int].rooms@[1] == (Room {
                    a: Vector2Int { x: (19 * c + 10) as i32, y: (13 * r + 2) as i32 },
                    b: Vector2Int { x: (19 * c + 14) as i32, y: (13 * r + 8) as i32 },
                }),
            forall|i1: int, j1: int, i2: int, j2: int|
                0 <= i1 < final(self).areas@.len() && 0 <= i2 < final(self).areas@.len() && 0 <= j1
                    < 2 && 0 <= j2 < 2 && (i1 != i2 || j1 != j2) ==> #[trigger] rooms_apart(
                    final(self).areas@[i1].rooms@[j1],
                    final(self).areas@[i2].rooms@[j2],
                ),
            forall|i: int|
                old(self).row_count() <= i < final(self).areas@.len() ==> join_post(
                    final(self).areas@[i],
                    final(self).areas@[i - old(self).row_count()],
                    (#[trigger] final(self).areas@[i]).paths@[1]@,
                ),
            forall|i: int|
                0 <= i < final(self).areas@.len() && i % old(self).row_count() > 0 ==> join_post(
                    final(self).areas@[i],
                    final(self).areas@[i - 1],
                    (#[trigger] final(self).areas@[i]).paths@[if i >= old(self).row_count() {
                        2int
                    } else {
                        1int
                    }]@,
                ),
    {
        let n = self.areas.len();
        let mut i: usize = 0;
        while i < n
            invariant
                n == self.areas@.len() == old(self).areas@.len(),
                i <= n,
                self.grid@ == old(self).grid@,
                old(self).wf(),
                self.grid_ok(),
                self.row_count() == old(self).row_count(),
                forall|j: int| i <= j < n ==> #[trigger] self.areas@[j] == old(self).areas@[j],
                forall|j: int| 0 <= j < i ==> fresh_area(#[trigger] self.areas@[j]),
            decreases n - i,
        {
            let area = &mut self.areas[i];
            area.generate_rooms();
            proof {
                lemma_pair_bounds(self.areas@[i as int].rooms@);
            }
            i += 1;
        }
        let ghost fresh = *self;
        self.position_areas();
        let ghost mid = *self;
        self.connect_areas();
        proof {
            let rc = old(self).row_count();
            assert forall|r: int, c: int|
                0 <= r < old(self).grid@.len() && 0 <= c
                    < old(self).grid@[r]@.len() implies self.areas@[#[trigger] old(
                self,
            ).grid@[r][c] as int].rooms@[0] == (Room {
                a: Vector2Int { x: (19 * c) as i32, y: (13 * r) as i32 },
                b: Vector2Int { x: (19 * c + 4) as i32, y: (13 * r + 6) as i32 },
            }) && self.areas@[old(self).grid@[r][c] as int].rooms@[1] == (Room {
                a: Vector2Int { x: (19 * c + 10) as i32, y: (13 * r + 2) as i32 },
                b: Vector2Int { x: (19 * c + 14) as i32, y: (13 * r + 8) as i32 },
            }) by {
                lemma_grid_entry_bound(n as int, rc, r, c);
                let idx = old(self).grid@[r][c] as int;
                lemma_fresh_placement(fresh, mid.areas@[idx], r, c);
                assert(self.areas@[idx].rooms@ == mid.areas@[idx].rooms@);
            }
            assert forall|i1: int, j1: int, i2: int, j2: int|
                0 <= i1 < n && 0 <= i2 < n && 0 <= j1 < 2 && 0 <= j2 < 2 && (i1 != i2 || j1
                    != j2) implies #[trigger] rooms_apart(
                self.areas@[i1].rooms@[j1],
                self.areas@[i2].rooms@[j2],
            ) by {
                lemma_rooms_apart(
                    self.areas@,
                    old(self).grid@,
                    n as int,
                    rc,
                    i1,
                    j1,
                    i2,
                    j2,
                );
            }
            assert forall|i: int| 0 <= i < n implies internal_corridor(#[trigger] self.areas@[i])
                && self.areas@[i].paths@.len() == 1 + (if i >= rc {
                1int
            } else {
                0int
            }) + (if i % rc > 0 {
                1int
            } else {
                0int
            }) by {
                assert(internal_corridor(mid.areas@[i]));
                assert(mid.areas@[i].paths@.len() == 1);
                assert(self.areas@[i].paths@[0] == mid.areas@[i].paths@[0]);
                let (pa, pb) = choose|pa: Vector2Int, pb: Vector2Int|
                    mid.areas@[i].rooms@[0].contains_cell(pa)
                        && mid.areas@[i].rooms@[1].contains_cell(pb) && #[trigger] connect_post(
                        mid.areas@[i].tunneler,
                        pa,
                        pb,
                        mid.areas@[i].paths@[0]@,
                    );
                assert(self.areas@[i].rooms@[0].contains_cell(pa)
                    && self.areas@[i].rooms@[1].contains_cell(pb) && connect_post(
                    self.areas@[i].tunneler,
                    pa,
                    pb,
                    self.areas@[i].paths@[0]@,
                ));
            }
            assert forall|i: int| rc <= i < n implies join_post(
                self.areas@[i],
                self.areas@[i - rc],
                (#[trigger] self.areas@[i]).paths@[1]@,
            ) by {
                assert(mid.areas@[i].paths@.len() == 1);
                assert(self.areas@[i].rooms@ == mid.areas@[i].rooms@);
                assert(self.areas@[i - rc].rooms@ == mid.areas@[i - rc].rooms@);
                lemma_join_post_same_rooms(
                    mid.areas@[i],
                    self.areas@[i],
                    mid.areas@[i - rc],
                    self.areas@[i - rc],
                    self.areas@[i].paths@[1]@,
                );
            }
            assert forall|i: int| 0 <= i < n && i % rc > 0 implies join_post(
                self.areas@[i],
                self.areas@[i - 1],
                (#[trigger] self.areas@[i]).paths@[if i >= rc {
                    2int
                } else {
                    1int
                }]@,
            ) by {
                assert(mid.areas@[i].paths@.len() == 1);
                assert(mid.grid@.len() == old(self).grid@.len());
                assert(join_post(
                    mid.areas@[i],
                    mid.areas@[i - 1],
                    self.areas@[i].paths@[mid.areas@[i].paths@.len() + (if i >= mid.grid@.len() {
                        1int
                    } else {
                        0int
                    })]@,
                ));
                assert(mid.areas@[i].paths@.len() + (if i >= mid.grid@.len() {
                    1int
                } else {
                    0int
                }) == (if i >= rc {
                    2int
                } else {
                    1int
                }));
                assert(mid.areas@.len() == n);
                assert(i % rc > 0);
                assert(rc >= 1);
                assert(i >= 1) by {
                    if i == 0 {
                        assert(i % rc == 0) by {
                            vstd::arithmetic::div_mod::lemma_mod_bound(0, rc);
                            vstd::arithmetic::div_mod::lemma_fundamental_div_mod_converse(
                                0,
                                rc,
                                0,
                                0,
                            );
                        }
                    }
                }
                assert(0 <= i - 1 < n);
                assert(self.areas@[i].rooms@ == mid.areas@[i].rooms@);
                assert(self.areas@[i - 1].rooms@ == mid.areas@[i - 1].rooms@);
                lemma_join_post_same_rooms(
                    mid.areas@[i],
                    self.areas@[i],
                    mid.areas@[i - 1],
                    self.areas@[i - 1],
                    self.areas@[i].paths@[if i >= rc {
                        2int
                    } else {
                        1int
                    }]@,
                );
            }
        }
    }

    /// Reposition every area to its grid cell: each column is as wide as its
    /// widest area plus a fixed spacing, each row as tall as its tallest,
    /// and every area is translated to the cumulative offset of its cell.
    fn position_areas(&mut self)
        requires
            old(self).wf(),
            old(self).areas@.len() >= old(self).row_count(),
            old(self).areas@.len() <= 0x10000,
            forall|i: int|
                0 <= i < old(self).areas@.len() ==> fresh_area(#[trigger] old(self).areas@[i]),
        ensures
            final(self).wf(),
            final(self).grid@ == old(self).grid@,
            final(self).areas@.len() == old(self).areas@.len(),
            forall|i: int|
                0 <= i < old(self).areas@.len() ==> placed_area(
                    old(self).areas@[i],
                    #[trigger] final(self).areas@[i],
                ),
            forall|i: int|
                0 <= i < old(self).areas@.len() ==> internal_corridor(
                    #[trigger] final(self).areas@[i],
                ),
            forall|i: int|
                0 <= i < old(self).areas@.len() ==> (#[trigger] final(self).areas@[i]).paths@.len()
                    == old(self).areas@[i].paths@.len() && final(self).areas@[i].rooms@.len()
                    == old(self).areas@[i].rooms@.len(),
            forall|r: int, c: int|
                0 <= r < old(self).grid@.len() && 0 <= c < old(self).grid@[r].len()
                    ==> translated_by(
                    old(self).areas@[#[trigger] old(self).grid@[r][c] as int],
                    final(self).areas@[old(self).grid@[r][c] as int],
                    column_offset(old(self).areas@, old(self).grid@, c),
                    row_offset(old(self).areas@, old(self).grid@, r),
                ),
    {
        let rc = self.grid.len();
        let n = self.areas.len();
        proof {
            lemma_row_lens(n as int, rc as int);
        }
        let column_count = self.grid[0].len();
        // column widths: widest area in the column, plus the spacing
        let mut column_widths: Vec<i32> = Vec::new();
        let mut i: usize = 0;
        while i < column_count
            invariant
                self.wf(),
                self == old(self),
                rc == self.grid@.len(),
                n == self.areas@.len() <= 0x10000,
                n >= rc >= 1,
                column_count == self.grid@[0].len(),
                forall|r: int| 0 <= r < rc ==> (#[trigger] self.grid@[r]).len() <= column_count,
                forall|ii: int|
                    0 <= ii < n ==> fresh_area(#[trigger] self.areas@[ii]),
                i <= column_count,
                column_widths@.len() == i,
                forall|j: int| 0 <= j < i ==> 4 <= #[trigger] column_widths@[j] <= 19,
                forall|j: int|
                    0 <= j < i ==> #[trigger] column_widths@[j] == col_max_width(
                        old(self).areas@,
                        old(self).grid@,
                        j,
                        rc as int,
                    ) + 4,
            decreases column_count - i,
        {
            let mut w: i32 = 0;
            let mut r: usize = 0;
            while r < rc
                invariant
                    self.wf(),
                    self == old(self),
                    rc == self.grid@.len(),
                    n == self.areas@.len(),
                    forall|ii: int|
                        0 <= ii < n ==> fresh_area(#[trigger] self.areas@[ii]),
                    r <= rc,
                    0 <= w <= 15,
                    w == col_max_width(old(self).areas@, old(self).grid@, i as int, r as int),
                decreases rc - r,
            {
                if i < self.grid[r].len() {
                    let idx = self.grid[r][i];
                    proof {
                        lemma_grid_entry_bound(n as int, rc as int, r as int, i as int);
                        lemma_pair_bounds(self.areas@[idx as int].rooms@);
                    }
                    let s = self.areas[idx].get_size();
                    if s.x > w {
                        w = s.x;
                    }
                }
                r += 1;
            }
            column_widths.push(w + 4);
            i += 1;
        }
        // row heights likewise
        let mut row_heights: Vec<i32> = Vec::new();
        let mut r: usize = 0;
        while r < rc
            invariant
                self.wf(),
                self == old(self),
                rc == self.grid@.len(),
                n == self.areas@.len() <= 0x10000,
                n >= rc >= 1,
                forall|ii: int|
                    0 <= ii < n ==> fresh_area(#[trigger] self.areas@[ii]),
                r <= rc,
                row_heights@.len() == r,
                forall|j: int| 0 <= j < r ==> 4 <= #[trigger] row_heights@[j] <= 13,
                forall|j: int|
                    0 <= j < r ==> #[trigger] row_heights@[j] == row_max_height(
                        old(self).areas@,
                        old(self).grid@[j]@,
                        old(self).grid@[j]@.len() as int,
                    ) + 4,
            decreases rc - r,
        {
            let mut h: i32 = 0;
            let cols = self.grid[r].len();
            let mut c: usize = 0;
            while c < cols
                invariant
                    self.wf(),
                    self == old(self),
                    rc == self.grid@.len(),
                    n == self.areas@.len(),
                    r < rc,
                    cols == self.grid@[r as int].len(),
                    forall|ii: int|
                        0 <= ii < n ==> fresh_area(#[trigger] self.areas@[ii]),
                    c <= cols,
                    0 <= h <= 9,
                    h == row_max_height(old(self).areas@, old(self).grid@[r as int]@, c as int),
                decreases cols - c,
            {
                let idx = self.grid[r][c];
                proof {
                    lemma_grid_entry_bound(n as int, rc as int, r as int, c as int);
                    lemma_pair_bounds(self.areas@[idx as int].rooms@);
                }
                let s = self.areas[idx].get_size();
                if s.y > h {
                    h = s.y;
                }
                c += 1;
            }
            row_heights.push(h + 4);
            r += 1;
        }
        // cumulative shifts per column and row
        let mut column_shifts: Vec<i32> = Vec::new();
        let mut cur: i32 = 0;
        let mut i: usize = 0;
        while i < column_count
            invariant
                rc == self.grid@.len(),
                self == old(self),
                column_widths@.len() == column_count <= 0x10000,
                forall|j: int| 0 <= j < column_count ==> 4 <= #[trigger] column_widths@[j] <= 19,
                forall|j: int|
                    0 <= j < column_count ==> #[trigger] column_widths@[j] == col_max_width(
                        old(self).areas@,
                        old(self).grid@,
                        j,
                        rc as int,
                    ) + 4,
                i <= column_count,
                column_shifts@.len() == i,
                0 <= cur <= 19 * i,
                cur == column_offset(old(self).areas@, old(self).grid@, i as int),
                forall|j: int| 0 <= j < i ==> 0 <= #[trigger] column_shifts@[j] <= 19 * j,
                forall|j: int|
                    0 <= j < i ==> #[trigger] column_shifts@[j] == column_offset(
                        old(self).areas@,
                        old(self).grid@,
                        j,
                    ),
            decreases column_count - i,
        {
            column_shifts.push(cur);
            cur = cur + column_widths[i];
            i += 1;
        }
        let mut row_shifts: Vec<i32> = Vec::new();
        let mut cur: i32 = 0;
        let mut r: usize = 0;
        while r < rc
            invariant
                rc == self.grid@.len(),
                self == old(self),
                row_heights@.len() == rc <= 0x10000,
                forall|j: int| 0 <= j < rc ==> 4 <= #[trigger] row_heights@[j] <= 13,
                forall|j: int|
                    0 <= j < rc ==> #[trigger] row_heights@[j] == row_max_height(
                        old(self).areas@,
                        old(self).grid@[j]@,
                        old(self).grid@[j]@.len() as int,
                    ) + 4,
                r <= rc,
                row_shifts@.len() == r,
                0 <= cur <= 13 * r,
                cur == row_offset(old(self).areas@, old(self).grid@, r as int),
                forall|j: int| 0 <= j < r ==> 0 <= #[trigger] row_shifts@[j] <= 13 * j,
                forall|j: int|
                    0 <= j < r ==> #[trigger] row_shifts@[j] == row_offset(
                        old(self).areas@,
                        old(self).grid@,
                        j,
                    ),
            decreases rc - r,
        {
            row_shifts.push(cur);
            cur = cur + row_heights[r];
            r += 1;
        }
        // translate every area to its grid cell's offset
        let mut y: usize = 0;
        while y < rc
            invariant
                rc == self.grid@.len(),
                self.grid@ == old(self).grid@,
                self.grid_ok(),
                n == self.areas@.len() == old(self).areas@.len() <= 0x10000,
                n >= rc >= 1,
                y <= rc,
                column_shifts@.len() == column_count == self.grid@[0].len(),
                row_shifts@.len() == rc,
                forall|rr: int| 0 <= rr < rc ==> (#[trigger] self.grid@[rr]).len() <= column_count,
                forall|j: int| 0 <= j < column_count ==> 0 <= #[trigger] column_shifts@[j] <= 0x0200_0000,
                forall|j: int| 0 <= j < rc ==> 0 <= #[trigger] row_shifts@[j] <= 0x0200_0000,
                forall|j: int|
                    0 <= j < column_count ==> #[trigger] column_shifts@[j] == column_offset(
                        old(self).areas@,
                        old(self).grid@,
                        j,
                    ),
                forall|j: int|
                    0 <= j < rc ==> #[trigger] row_shifts@[j] == row_offset(
                        old(self).areas@,
                        old(self).grid@,
                        j,
                    ),
                forall|idx: int|
                    0 <= idx < n && !pos_processed(idx, rc as int, y as int, 0) ==> #[trigger] self.areas@[idx]
                        == old(self).areas@[idx],
                forall|idx: int|
                    0 <= idx < n && pos_processed(idx, rc as int, y as int, 0) ==> placed_area(
                        old(self).areas@[idx],
                        #[trigger] self.areas@[idx],
                    ),
                forall|idx: int|
                    0 <= idx < n && pos_processed(idx, rc as int, y as int, 0) ==> translated_by(
                        old(self).areas@[idx],
                        #[trigger] self.areas@[idx],
                        column_offset(old(self).areas@, old(self).grid@, idx / (rc as int)),
                        row_offset(old(self).areas@, old(self).grid@, idx % (rc as int)),
                    ),
                forall|ii: int|
                    0 <= ii < n ==> fresh_area(#[trigger] old(self).areas@[ii]),
            decreases rc - y,
        {
            let cols = self.grid[y].len();
            let mut x: usize = 0;
            while x < cols
                invariant
                    rc == self.grid@.len(),
                    self.grid@ == old(self).grid@,
                    self.grid_ok(),
                    n == self.areas@.len() == old(self).areas@.len() <= 0x10000,
                    n >= rc >= 1,
                    y < rc,
                    cols == self.grid@[y as int].len() <= column_count,
                    x <= cols,
                    column_shifts@.len() == column_count,
                    row_shifts@.len() == rc,
                    forall|j: int| 0 <= j < column_count ==> 0 <= #[trigger] column_shifts@[j] <= 0x0200_0000,
                    forall|j: int| 0 <= j < rc ==> 0 <= #[trigger] row_shifts@[j] <= 0x0200_0000,
                    forall|j: int|
                        0 <= j < column_count ==> #[trigger] column_shifts@[j] == column_offset(
                            old(self).areas@,
                            old(self).grid@,
                            j,
                        ),
                    forall|j: int|
                        0 <= j < rc ==> #[trigger] row_shifts@[j] == row_offset(
                            old(self).areas@,
                            old(self).grid@,
                            j,
                        ),
                    forall|idx: int|
                        0 <= idx < n && !pos_processed(idx, rc as int, y as int, x as int)
                            ==> #[trigger] self.areas@[idx] == old(self).areas@[idx],
                    forall|idx: int|
                        0 <= idx < n && pos_processed(idx, rc as int, y as int, x as int)
                            ==> placed_area(
                            old(self).areas@[idx],
                            #[trigger] self.areas@[idx],
                        ),
                    forall|idx: int|
                        0 <= idx < n && pos_processed(idx, rc as int, y as int, x as int)
                            ==> translated_by(
                            old(self).areas@[idx],
                            #[trigger] self.areas@[idx],
                            column_offset(old(self).areas@, old(self).grid@, idx / (rc as int)),
                            row_offset(old(self).areas@, old(self).grid@, idx % (rc as int)),
                        ),
                    forall|ii: int|
                        0 <= ii < n ==> fresh_area(#[trigger] old(self).areas@[ii]),
                decreases cols - x,
            {
                let idx = self.grid[y][x];
                proof {
                    lemma_grid_entry_bound(n as int, rc as int, y as int, x as int);
                    vstd::arithmetic::div_mod::lemma_fundamental_div_mod_converse(
                        idx as int,
                        rc as int,
                        x as int,
                        y as int,
                    );
                    assert(!pos_processed(idx as int, rc as int, y as int, x as int));
                    assert(self.areas@[idx as int] == old(self).areas@[idx as int]);
                    lemma_pair_bounds(self.areas@[idx as int].rooms@);
                }
                let offset = Vector2Int { x: column_shifts[x], y: row_shifts[y] };
                let ghost pre = self.areas@;
                let area = &mut self.areas[idx];
                area.shift(offset);
                proof {
                    assert(self.areas@ =~= pre.update(idx as int, self.areas@[idx as int]));
                    lemma_place(
                        old(self).areas@[idx as int],
                        self.areas@[idx as int],
                        offset.x - 0,
                        offset.y - 0,
                    );
                    assert(placed_area(old(self).areas@[idx as int], self.areas@[idx as int]));
                    assert(translated_by(
                        old(self).areas@[idx as int],
                        self.areas@[idx as int],
                        column_offset(old(self).areas@, old(self).grid@, idx as int / (rc as int)),
                        row_offset(old(self).areas@, old(self).grid@, idx as int % (rc as int)),
                    ));
                    assert forall|jj: int|
                        0 <= jj < n && pos_processed(jj, rc as int, y as int, x as int + 1) implies placed_area(
                        old(self).areas@[jj],
                        #[trigger] self.areas@[jj],
                    ) && translated_by(
                        old(self).areas@[jj],
                        self.areas@[jj],
                        column_offset(old(self).areas@, old(self).grid@, jj / (rc as int)),
                        row_offset(old(self).areas@, old(self).grid@, jj % (rc as int)),
                    ) by {
                        if jj != idx as int {
                            if jj % (rc as int) == y as int && jj / (rc as int) == x as int {
                                vstd::arithmetic::div_mod::lemma_fundamental_div_mod(
                                    jj,
                                    rc as int,
                                );
                                assert((rc as int) * (jj / (rc as int)) == (jj / (rc as int)) * (
                                rc as int)) by (nonlinear_arith);
                                assert(jj == idx);
                            }
                            assert(pos_processed(jj, rc as int, y as int, x as int));
                        }
                    }
                    assert forall|jj: int|
                        0 <= jj < n && !pos_processed(jj, rc as int, y as int, x as int + 1) implies #[trigger] self.areas@[jj]
                        == old(self).areas@[jj] by {
                        assert(jj != idx as int);
                        assert(!pos_processed(jj, rc as int, y as int, x as int));
                    }
                }
                x += 1;
            }
            proof {
                assert forall|idx: int|
                    0 <= idx < n && pos_processed(idx, rc as int, y as int + 1, 0) implies pos_processed(
                    idx,
                    rc as int,
                    y as int,
                    cols as int,
                ) by {
                    if idx % (rc as int) == y as int {
                        lemma_grid_entry_bound_converse(n as int, rc as int, idx);
                    }
                }
            }
            y += 1;
        }
        proof {
            assert forall|i: int| 0 <= i < n implies pos_processed(i, rc as int, rc as int, 0) by {
                assert(0 <= i % (rc as int) < rc as int) by {
                    vstd::arithmetic::div_mod::lemma_mod_bound(i, rc as int);
                }
            }
            assert forall|i: int| 0 <= i < n implies internal_corridor(#[trigger] self.areas@[i])
                && self.areas@[i].paths@.len() == old(self).areas@[i].paths@.len()
                && self.areas@[i].rooms@.len() == old(self).areas@[i].rooms@.len() by {
                let (dx, dy) = choose|dx: int, dy: int|
                    0 <= dx && 0 <= dy && #[trigger] translated_by(
                        old(self).areas@[i],
                        self.areas@[i],
                        dx,
                        dy,
                    );
                lemma_corridor_translated(old(self).areas@[i], self.areas@[i], dx, dy);
            }
            assert forall|r: int, c: int|
                0 <= r < old(self).grid@.len() && 0 <= c
                    < old(self).grid@[r].len() implies translated_by(
                old(self).areas@[#[trigger] old(self).grid@[r][c] as int],
                self.areas@[old(self).grid@[r][c] as int],
                column_offset(old(self).areas@, old(self).grid@, c),
                row_offset(old(self).areas@, old(self).grid@, r),
            ) by {
                lemma_grid_entry_bound(n as int, rc as int, r, c);
                let idx = old(self).grid@[r][c] as int;
                vstd::arithmetic::div_mod::lemma_fundamental_div_mod_converse(idx, rc as int, c, r);
            }
        }
    }

    /// Connect areas that are grid neighbours: each grid cell's area gains
    /// one corridor to the area on its left and one to the area above it,
    /// between the closest pair of rooms; existing rooms and corridors stay.
    fn connect_areas(&mut self)
        requires
            old(self).wf(),
            forall|i: int|
                0 <= i < old(self).areas@.len() ==> (#[trigger] old(self).areas@[i]).rooms@.len()
                    > 0,
            forall|i: int|
                0 <= i < old(self).areas@.len() ==> (#[trigger] old(self).areas@[i]).within(
                    Vector2Int { x: 0, y: 0 },
                    Vector2Int { x: 0x0400_0000, y: 0x0400_0000 },
                ),
        ensures
            final(self).wf(),
            final(self).grid@ == old(self).grid@,
            final(self).areas@.len() == old(self).areas@.len(),
            forall|i: int|
                0 <= i < old(self).areas@.len() ==> (#[trigger] final(self).areas@[i]).rooms@
                    == old(self).areas@[i].rooms@ && final(self).areas@[i].tunneler == old(
                    self,
                ).areas@[i].tunneler,
            forall|i: int|
                0 <= i < old(self).areas@.len() ==> (#[trigger] final(self).areas@[i]).within(
                    Vector2Int { x: 0, y: 0 },
                    Vector2Int { x: 0x0400_0000, y: 0x0400_0000 },
                ),
            forall|i: int, t: int|
                0 <= i < old(self).areas@.len() && 0 <= t < old(self).areas@[i].paths@.len()
                    ==> #[trigger] final(self).areas@[i].paths@[t] == old(self).areas@[i].paths@[t],
            forall|i: int|
                0 <= i < old(self).areas@.len() ==> (#[trigger] final(self).areas@[i]).paths@.len()
                    == old(self).areas@[i].paths@.len() + (if i >= old(self).grid@.len() {
                    1int
                } else {
                    0int
                }) + (if i % (old(self).grid@.len() as int) > 0 {
                    1int
                } else {
                    0int
                }),
            forall|i: int|
                old(self).grid@.len() <= i < old(self).areas@.len() ==> join_post(
                    old(self).areas@[i],
                    old(self).areas@[i - old(self).grid@.len()],
                    (#[trigger] final(self).areas@[i]).paths@[old(self).areas@[i].paths@.len() as int]@,
                ),
            forall|i: int|
                0 <= i < old(self).areas@.len() && i % (old(self).grid@.len() as int) > 0
                    ==> join_post(
                    old(self).areas@[i],
                    old(self).areas@[i - 1],
                    (#[trigger] final(self).areas@[i]).paths@[old(self).areas@[i].paths@.len()
                        + (if i >= old(self).grid@.len() {
                        1int
                    } else {
                        0int
                    })]@,
                ),
    {
        let rc = self.grid.len();
        let n = self.areas.len();
        let mut y: usize = 0;
        while y < rc
            invariant
                rc == self.grid@.len(),
                self.grid@ == old(self).grid@,
                self.grid_ok(),
                n == self.areas@.len() == old(self).areas@.len(),
                y <= rc,
                forall|i: int| 0 <= i < n ==> (#[trigger] self.areas@[i]).wf(),
                forall|i: int|
                    0 <= i < n ==> (#[trigger] self.areas@[i]).rooms@ == old(self).areas@[i].rooms@
                        && self.areas@[i].tunneler == old(self).areas@[i].tunneler,
                forall|i: int|
                    0 <= i < n ==> (#[trigger] old(self).areas@[i]).rooms@.len() > 0,
                forall|i: int|
                    0 <= i < n ==> (#[trigger] old(self).areas@[i]).within(
                        Vector2Int { x: 0, y: 0 },
                        Vector2Int { x: 0x0400_0000, y: 0x0400_0000 },
                    ),
                forall|i: int|
                    0 <= i < n ==> (#[trigger] self.areas@[i]).within(
                        Vector2Int { x: 0, y: 0 },
                        Vector2Int { x: 0x0400_0000, y: 0x0400_0000 },
                    ),
                forall|i: int|
                    0 <= i < n && !pos_processed(i, rc as int, y as int, 0)
                        ==> #[trigger] self.areas@[i] == old(self).areas@[i],
                forall|i: int|
                    0 <= i < n && pos_processed(i, rc as int, y as int, 0) ==> connected_area(
                        old(self).areas@,
                        rc as int,
                        i,
                        #[trigger] self.areas@[i],
                    ),
            decreases rc - y,
        {
            let cols = self.grid[y].len();
            let mut x: usize = 0;
            while x < cols
                invariant
                    rc == self.grid@.len(),
                    self.grid@ == old(self).grid@,
                    self.grid_ok(),
                    n == self.areas@.len() == old(self).areas@.len(),
                    y < rc,
                    cols == self.grid@[y as int].len(),
                    x <= cols,
                    forall|i: int| 0 <= i < n ==> (#[trigger] self.areas@[i]).wf(),
                    forall|i: int|
                        0 <= i < n ==> (#[trigger] self.areas@[i]).rooms@ == old(
                            self,
                        ).areas@[i].rooms@ && self.areas@[i].tunneler == old(
                            self,
                        ).areas@[i].tunneler,
                    forall|i: int|
                        0 <= i < n ==> (#[trigger] old(self).areas@[i]).rooms@.len() > 0,
                    forall|i: int|
                        0 <= i < n ==> (#[trigger] old(self).areas@[i]).within(
                            Vector2Int { x: 0, y: 0 },
                            Vector2Int { x: 0x0400_0000, y: 0x0400_0000 },
                        ),
                    forall|i: int|
                        0 <= i < n ==> (#[trigger] self.areas@[i]).within(
                            Vector2Int { x: 0, y: 0 },
                            Vector2Int { x: 0x0400_0000, y: 0x0400_0000 },
                        ),
                    forall|i: int|
                        0 <= i < n && !pos_processed(i, rc as int, y as int, x as int)
                            ==> #[trigger] self.areas@[i] == old(self).areas@[i],
                    forall|i: int|
                        0 <= i < n && pos_processed(i, rc as int, y as int, x as int)
                            ==> connected_area(
                            old(self).areas@,
                            rc as int,
                            i,
                            #[trigger] self.areas@[i],
                        ),
                decreases cols - x,
            {
                proof {
                    lemma_grid_entry_bound(n as int, rc as int, y as int, x as int);
                }
                let idx = self.grid[y][x];
                proof {
                    vstd::arithmetic::div_mod::lemma_fundamental_div_mod_converse(
                        idx as int,
                        rc as int,
                        x as int,
                        y as int,
                    );
                    assert(!pos_processed(idx as int, rc as int, y as int, x as int));
                    assert(self.areas@[idx as int] == old(self).areas@[idx as int]);
                    if x > 0 {
                        assert(idx as int >= rc) by (nonlinear_arith)
                            requires
                                idx as int == (x as int) * (rc as int) + y as int,
                                x >= 1,
                                y >= 0,
                                rc >= 1,
                        ;
                    } else {
                        assert((x as int) * (rc as int) == 0) by (nonlinear_arith)
                            requires
                                x == 0,
                        ;
                        assert((idx as int) < rc as int);
                    }
                }
                let ghost pre_cell = self.areas@;
                if x != 0 {
                    proof {
                        lemma_grid_entry_bound(n as int, rc as int, y as int, x as int - 1);
                        assert(self.grid@[y as int]@[x as int - 1] == (x as int - 1) * (rc as int)
                            + y as int);
                        assert((x as int - 1) * (rc as int) == (x as int) * (rc as int) - (
                        rc as int)) by (nonlinear_arith);
                    }
                    let left = self.grid[y][x - 1];
                    self.join_pair(idx, left);
                    proof {
                        lemma_join_post_same_rooms(
                            pre_cell[idx as int],
                            old(self).areas@[idx as int],
                            pre_cell[left as int],
                            old(self).areas@[left as int],
                            self.areas@[idx as int].paths@[pre_cell[idx as int].paths@.len() as int]@,
                        );
                    }
                }
                if y != 0 {
                    proof {
                        lemma_row_lens(n as int, rc as int);
                        lemma_grid_entry_bound(n as int, rc as int, y as int - 1, x as int);
                        assert(self.grid@[y as int - 1]@[x as int] == (x as int) * (rc as int) + (
                        y as int - 1));
                    }
                    let ghost pre_up = self.areas@;
                    let up = self.grid[y - 1][x];
                    self.join_pair(idx, up);
                    proof {
                        lemma_join_post_same_rooms(
                            pre_up[idx as int],
                            old(self).areas@[idx as int],
                            pre_up[up as int],
                            old(self).areas@[up as int],
                            self.areas@[idx as int].paths@[pre_up[idx as int].paths@.len() as int]@,
                        );
                    }
                }
                proof {
                    assert(connected_area(
                        old(self).areas@,
                        rc as int,
                        idx as int,
                        self.areas@[idx as int],
                    ));
                    assert forall|i: int|
                        0 <= i < n && pos_processed(i, rc as int, y as int, x as int + 1) implies connected_area(
                        old(self).areas@,
                        rc as int,
                        i,
                        #[trigger] self.areas@[i],
                    ) by {
                        if i != idx as int {
                            if i % (rc as int) == y as int && i / (rc as int) == x as int {
                                vstd::arithmetic::div_mod::lemma_fundamental_div_mod(i, rc as int);
                                assert((rc as int) * (i / (rc as int)) == (i / (rc as int)) * (
                                rc as int)) by (nonlinear_arith);
                                assert(i == idx);
                            }
                            assert(pos_processed(i, rc as int, y as int, x as int));
                        }
                    }
                    assert forall|i: int|
                        0 <= i < n && !pos_processed(i, rc as int, y as int, x as int + 1) implies #[trigger] self.areas@[i]
                        == old(self).areas@[i] by {
                        assert(i != idx as int);
                        assert(!pos_processed(i, rc as int, y as int, x as int));
                    }
                }
                x += 1;
            }
            proof {
                assert forall|i: int|
                    0 <= i < n && pos_processed(i, rc as int, y as int + 1, 0) implies pos_processed(
                    i,
                    rc as int,
                    y as int,
                    cols as int,
                ) by {
                    if i % (rc as int) == y as int {
                        lemma_grid_entry_bound_converse(n as int, rc as int, i);
                    }
                }
            }
            y += 1;
        }
        proof {
            assert forall|i: int| 0 <= i < n implies pos_processed(i, rc as int, rc as int, 0) by {
                assert(0 <= i % (rc as int) < rc as int) by {
                    vstd::arithmetic::div_mod::lemma_mod_bound(i, rc as int);
                }
            }
        }
    }

    /// Tunnel a corridor from area `i` to area `j` and record it on `i`.
    fn join_pair(&mut self, i: usize, j: usize)
        requires
            i < old(self).areas@.len(),
            j < old(self).areas@.len(),
            forall|k: int| 0 <= k < old(self).areas@.len() ==> (#[trigger] old(self).areas@[k]).wf(),
            old(self).areas@[i as int].rooms@.len() > 0,
            old(self).areas@[j as int].rooms@.len() > 0,
            old(self).areas@[i as int].within(
                Vector2Int { x: 0, y: 0 },
                Vector2Int { x: 0x0400_0000, y: 0x0400_0000 },
            ),
            old(self).areas@[j as int].within(
                Vector2Int { x: 0, y: 0 },
                Vector2Int { x: 0x0400_0000, y: 0x0400_0000 },
            ),
        ensures
            final(self).grid@ == old(self).grid@,
            final(self).areas@.len() == old(self).areas@.len(),
            forall|k: int|
                0 <= k < old(self).areas@.len() && k != i ==> #[trigger] final(self).areas@[k]
                    == old(self).areas@[k],
            final(self).areas@[i as int].rooms@ == old(self).areas@[i as int].rooms@,
            final(self).areas@[i as int].tunneler == old(self).areas@[i as int].tunneler,
            final(self).areas@[i as int].paths@.len() == old(self).areas@[i as int].paths@.len()
                + 1,
            forall|t: int|
                0 <= t < old(self).areas@[i as int].paths@.len()
                    ==> #[trigger] final(self).areas@[i as int].paths@[t] == old(
                    self,
                ).areas@[i as int].paths@[t],
            join_post(
                old(self).areas@[i as int],
                old(self).areas@[j as int],
                final(self).areas@[i as int].paths@[old(self).areas@[i as int].paths@.len() as int]@,
            ),
            forall|k: int| 0 <= k < old(self).areas@.len() ==> (#[trigger] final(self).areas@[k]).wf(),
            forall|k: int|
                0 <= k < old(self).areas@.len() && old(self).areas@[k].within(
                    Vector2Int { x: 0, y: 0 },
                    Vector2Int { x: 0x0400_0000, y: 0x0400_0000 },
                ) ==> (#[trigger] final(self).areas@[k]).within(
                    Vector2Int { x: 0, y: 0 },
                    Vector2Int { x: 0x0400_0000, y: 0x0400_0000 },
                ),
    {
        proof {
            lemma_bounds_enclose(self.areas@[i as int].rooms@);
            lemma_bounds_enclose(self.areas@[j as int].rooms@);
        }
        let path = self.areas[i].join_area(&self.areas[j]);
        let ghost pathv = path@;
        let ghost pre = self.areas@;
        let area = &mut self.areas[i];
        area.paths.push(path);
        proof {
            assert(self.areas@ =~= pre.update(i as int, self.areas@[i as int]));
            assert(self.areas@[i as int].paths@[pre[i as int].paths@.len() as int]@ == pathv);
        }
    }

    /// Flatten every area's rooms and corridors into one cell list.
    pub fn to_tiles(&self) -> (r: Vec<Vector2Int>)
        requires
            self.wf(),
        ensures
            forall|c: Vector2Int|
                #[trigger] r@.contains(c) ==> exists|i: int|
                    0 <= i < self.areas@.len() && area_has_cell(#[trigger] self.areas@[i], c),
            forall|i: int, c: Vector2Int|
                0 <= i < self.areas@.len() && #[trigger] area_has_cell(self.areas@[i], c)
                    ==> r@.contains(c),
            forall|i: int| 0 <= i < r@.len() ==> in_bounds(#[trigger] r@[i]),
    {
        let mut r: Vec<Vector2Int> = Vec::new();
        let n = self.areas.len();
        let mut i: usize = 0;
        while i < n
            invariant
                self.wf(),
                n == self.areas@.len(),
                i <= n,
                forall|c: Vector2Int|
                    #[trigger] r@.contains(c) ==> exists|j: int|
                        0 <= j < i && area_has_cell(#[trigger] self.areas@[j], c),
                forall|j: int, c: Vector2Int|
                    0 <= j < i && #[trigger] area_has_cell(self.areas@[j], c) ==> r@.contains(c),
                forall|k: int| 0 <= k < r@.len() ==> in_bounds(#[trigger] r@[k]),
            decreases n - i,
        {
            let tiles = self.areas[i].to_tiles();
            let tn = tiles.len();
            let mut t: usize = 0;
            while t < tn
                invariant
                    self.wf(),
                    i < n == self.areas@.len(),
                    tn == tiles@.len(),
                    t <= tn,
                    forall|c: Vector2Int|
                        #[trigger] tiles@.contains(c) ==> area_has_cell(self.areas@[i as int], c),
                    forall|j: int, c: Vector2Int|
                        0 <= j < self.areas@[i as int].rooms@.len()
                            && #[trigger] self.areas@[i as int].rooms@[j].contains_cell(c)
                            ==> tiles@.contains(c),
                    forall|j: int, tt: int|
                        0 <= j < self.areas@[i as int].paths@.len() && 0 <= tt
                            < self.areas@[i as int].paths@[j].len() ==> tiles@.contains(
                            #[trigger] self.areas@[i as int].paths@[j][tt],
                        ),
                    forall|k: int| 0 <= k < tiles@.len() ==> in_bounds(#[trigger] tiles@[k]),
                    forall|c: Vector2Int|
                        #[trigger] r@.contains(c) ==> exists|j: int|
                            0 <= j <= i && area_has_cell(#[trigger] self.areas@[j], c),
                    forall|j: int, c: Vector2Int|
                        0 <= j < i && #[trigger] area_has_cell(self.areas@[j], c) ==> r@.contains(
                            c,
                        ),
                    forall|k: int| 0 <= k < t ==> r@.contains(#[trigger] tiles@[k]),
                    forall|k: int| 0 <= k < r@.len() ==> in_bounds(#[trigger] r@[k]),
                decreases tn - t,
            {
                proof {
                    assert(tiles@.contains(tiles@[t as int]));
                }
                r.push(tiles[t]);
                t += 1;
            }
            proof {
                assert forall|c: Vector2Int|
                    area_has_cell(self.areas@[i as int], c) implies r@.contains(c) by {
                    assert(tiles@.contains(c));
                    let k = choose|k: int| 0 <= k < tiles@.len() && tiles@[k] == c;
                    assert(r@.contains(tiles@[k]));
                }
            }
            i += 1;
        }
        r
    }
}

} // verus!
