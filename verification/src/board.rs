//! The tile grid and the attribute components carried by actors.

use vstd::prelude::*;

use crate::posmap::PosMap;
use crate::vectors::{in_bounds, Vector2Int};

verus! {

/// Kind of a generated tile. `Void` stands for "not generated" and is
/// never walkable; `Pit` is walkable only by flying actors.
#[derive(Clone, Copy, Debug, PartialEq, Eq, Structural)]
pub enum TileType {
    Void,
    BaseFloor,
    Pit,
}

/// Faction tag of an actor, immutable after creation.
#[derive(Clone, Copy, Debug, PartialEq, Eq, Structural)]
pub enum Piece {
    Player,
    Enemy,
}

/// Non-negative hit points; an actor whose health reaches zero loses its
/// combat-relevant attributes.
#[derive(Clone, Copy, Debug, PartialEq, Eq, Structural)]
pub struct Health {
    pub value: u32,
}

/// Melee capability: a flat damage value.
#[derive(Clone, Copy, Debug, PartialEq, Eq, Structural)]
pub struct Melee {
    pub damage: u32,
}

/// AI behaviour: maximum pursuit distance from the player.
#[derive(Clone, Copy, Debug, PartialEq, Eq, Structural)]
pub struct AiControl {
    pub max_distance_to_player: usize,
}

impl Default for AiControl {
    /// The default pursuit radius of five steps.
    fn default() -> (r: AiControl)
        ensures
            r.max_distance_to_player == 5,
    {
        AiControl { max_distance_to_player: 5 }
    }
}

/// A sprite animation cursor: a frame count and a running index.
#[derive(Clone, Copy, Debug, PartialEq, Eq, Structural)]
pub struct Animation {
    pub frames_amount: usize,
    pub index: usize,
}

impl Animation {
    pub fn new_with_index(amount: usize, index: usize) -> (r: Animation)
        ensures
            r.frames_amount == amount,
            r.index == index,
    {
        Animation { frames_amount: amount, index }
    }

    /// The frame currently shown: the index, wrapped into the frame count.
    pub fn current(&self) -> (r: usize)
        requires
            self.frames_amount > 0,
        ensures
            r == self.index % self.frames_amount,
    {
        self.index % self.frames_amount
    }

    /// Advance one frame; the index wraps around at its maximum.
    pub fn bump_index(&mut self)
        ensures
            final(self).frames_amount == old(self).frames_amount,
            final(self).index == if old(self).index == usize::MAX {
                0
            } else {
                old(self).index + 1
            },
    {
        self.index = if self.index == usize::MAX {
            0
        } else {
            self.index + 1
        };
    }
}

/// Scheduling value: the actor with the lowest turn delay activates next.
#[derive(Clone, Copy, Debug, PartialEq, Eq, Structural)]
pub struct ActorTurn(pub u64);

/// An actor's grid cell.
#[derive(Clone, Copy, Debug, PartialEq, Eq, Structural)]
pub struct PiecePos(pub Vector2Int);

/// The level as produced by the generator: a coordinate-to-tile mapping and
/// the spawn assignments chosen for it.
pub struct CurrentBoard {
    pub tiles: PosMap<TileType>,
    pub spawn_points: PosMap<Piece>,
}

impl CurrentBoard {
    /// Well-formed: both maps have distinct keys and every coordinate is
    /// within the library's bounds.
    pub open spec fn wf(&self) -> bool {
        &&& self.tiles.wf()
        &&& self.spawn_points.wf()
        &&& forall|k: Vector2Int| self.tiles@.contains_key(k) ==> in_bounds(k)
        &&& forall|k: Vector2Int| self.spawn_points@.contains_key(k) ==> in_bounds(k)
    }

    pub fn new_empty() -> (r: CurrentBoard)
        ensures
            r.wf(),
            r.tiles@ =~= Map::<Vector2Int, TileType>::empty(),
            r.spawn_points@ =~= Map::<Vector2Int, Piece>::empty(),
    {
        CurrentBoard { tiles: PosMap::new(), spawn_points: PosMap::new() }
    }

    /// The tile at `(x, y)`, if that coordinate was generated.
    pub fn get(&self, x: i32, y: i32) -> (r: Option<&TileType>)
        requires
            self.wf(),
        ensures
            match r {
                Some(t) => self.tiles@.contains_key(Vector2Int { x, y }) && *t == self.tiles@[(Vector2Int { x, y })],
                None => !self.tiles@.contains_key(Vector2Int { x, y }),
            },
    {
        self.tiles.get(Vector2Int { x, y })
    }
}

impl CurrentBoard {
    /// Render the board as one row of characters per grid row: `board_char`
    /// for every cell of the rectangle spanned by the generated tiles, which
    /// the grid fits exactly.
    pub fn print(&self) -> (lines: Vec<Vec<char>>)
        requires
            self.wf(),
            self.tiles.entries_seq().len() > 0,
            forall|k: Vector2Int| #[trigger] self.tiles@.contains_key(k) ==> 0 <= k.x && 0 <= k.y,
        ensures
            lines@.len() > 0,
            forall|y: int| 0 <= y < lines@.len() ==> (#[trigger] lines@[y])@.len() == lines@[0]@.len(),
            lines@[0]@.len() > 0,
            forall|k: Vector2Int|
                #[trigger] self.tiles@.contains_key(k) ==> k.y < lines@.len() && k.x
                    < lines@[0]@.len(),
            forall|y: int, x: int|
                0 <= y < lines@.len() && 0 <= x < lines@[0]@.len() ==> #[trigger] lines@[y]@[x]
                    == board_char(
                    self.tiles@,
                    self.spawn_points@,
                    Vector2Int { x: x as i32, y: y as i32 },
                ),
    {
        let n = self.tiles.entry_count();
        // the extent of the generated tiles
        let mut max_x: i32 = 0;
        let mut max_y: i32 = 0;
        let mut i: usize = 0;
        while i < n
            invariant
                self.wf(),
                n == self.tiles.entries_seq().len(),
                i <= n,
                0 <= max_x <= 0x1000_0000,
                0 <= max_y <= 0x1000_0000,
                forall|k: Vector2Int| #[trigger] self.tiles@.contains_key(k) ==> 0 <= k.x && 0 <= k.y,
                forall|j: int|
                    0 <= j < i ==> (#[trigger] self.tiles.entries_seq()[j]).0.x <= max_x
                        && self.tiles.entries_seq()[j].0.y <= max_y,
                i > 0 ==> exists|j: int|
                    0 <= j < i && (#[trigger] self.tiles.entries_seq()[j]).0.x == max_x,
                i > 0 ==> exists|j: int|
                    0 <= j < i && (#[trigger] self.tiles.entries_seq()[j]).0.y == max_y,
                i == 0 ==> max_x == 0 && max_y == 0,
            decreases n - i,
        {
            let k = self.tiles.key_at(i);
            proof {
                self.tiles.lemma_entries_in_view(i as int);
                assert(self.tiles@.contains_key(k));
                assert(in_bounds(k));
                assert(0 <= k.x && 0 <= k.y);
            }
            if i == 0 {
                max_x = k.x;
                max_y = k.y;
            } else {
                if k.x > max_x {
                    max_x = k.x;
                }
                if k.y > max_y {
                    max_y = k.y;
                }
            }
            i += 1;
        }
        proof {
            assert forall|k: Vector2Int| #[trigger] self.tiles@.contains_key(k) implies k.x <= max_x
                && k.y <= max_y by {
                self.tiles.lemma_view_in_entries(k);
                let j = choose|j: int|
                    0 <= j < self.tiles.entries_seq().len() && self.tiles.entries_seq()[j].0 == k;
                assert(self.tiles.entries_seq()[j].0.x <= max_x);
            }
        }
        let width = (max_x + 1) as usize;
        let height = (max_y + 1) as usize;
        // start from an all-asterisk canvas
        let mut lines: Vec<Vec<char>> = Vec::new();
        let mut y: usize = 0;
        while y < height
            invariant
                y <= height,
                lines@.len() == y,
                forall|r: int| 0 <= r < y ==> (#[trigger] lines@[r])@.len() == width,
                forall|r: int, c: int|
                    0 <= r < y && 0 <= c < width ==> #[trigger] lines@[r]@[c] == '*',
            decreases height - y,
        {
            let mut row: Vec<char> = Vec::new();
            let mut x: usize = 0;
            while x < width
                invariant
                    x <= width,
                    row@.len() == x,
                    forall|c: int| 0 <= c < x ==> #[trigger] row@[c] == '*',
                decreases width - x,
            {
                row.push('*');
                x += 1;
            }
            lines.push(row);
            y += 1;
        }
        // paint every generated tile over the canvas
        let mut i: usize = 0;
        while i < n
            invariant
                self.wf(),
                n == self.tiles.entries_seq().len(),
                i <= n,
                width == max_x + 1,
                height == max_y + 1,
                forall|k: Vector2Int|
                    #[trigger] self.tiles@.contains_key(k) ==> 0 <= k.x <= max_x && 0 <= k.y
                        <= max_y,
                lines@.len() == height,
                forall|r: int| 0 <= r < height ==> (#[trigger] lines@[r])@.len() == width,
                forall|r: int, c: int|
                    0 <= r < height && 0 <= c < width ==> #[trigger] lines@[r]@[c] == (if exists|
                        j: int,
                    |
                        0 <= j < i && (#[trigger] self.tiles.entries_seq()[j]).0 == (Vector2Int {
                            x: c as i32,
                            y: r as i32,
                        }) {
                        board_char(
                            self.tiles@,
                            self.spawn_points@,
                            Vector2Int { x: c as i32, y: r as i32 },
                        )
                    } else {
                        '*'
                    }),
            decreases n - i,
        {
            let k = self.tiles.key_at(i);
            proof {
                self.tiles.lemma_entries_in_view(i as int);
            }
            let tile = *self.tiles.val_at(i);
            let ch: char = match tile {
                TileType::Void => '#',
                TileType::Pit => 'p',
                TileType::BaseFloor => {
                    match self.spawn_points.get(k) {
                        Some(piece) => match piece {
                            Piece::Enemy => 'E',
                            Piece::Player => 'P',
                        },
                        None => 'f',
                    }
                },
            };
            proof {
                assert(ch == board_char(self.tiles@, self.spawn_points@, k));
            }
            let ghost lines0 = lines@;
            let row = &mut lines[k.y as usize];
            row.set(k.x as usize, ch);
            proof {
                assert(lines@ =~= lines0.update(k.y as int, lines@[k.y as int]));
                assert(lines@[k.y as int]@ =~= lines0[k.y as int]@.update(k.x as int, ch));
                assert forall|r: int, c: int|
                    0 <= r < height && 0 <= c < width implies #[trigger] lines@[r]@[c] == (if exists|
                    j: int,
                |
                    0 <= j < i + 1 && (#[trigger] self.tiles.entries_seq()[j]).0 == (Vector2Int {
                        x: c as i32,
                        y: r as i32,
                    }) {
                    board_char(
                        self.tiles@,
                        self.spawn_points@,
                        Vector2Int { x: c as i32, y: r as i32 },
                    )
                } else {
                    '*'
                }) by {
                    let cell = Vector2Int { x: c as i32, y: r as i32 };
                    if cell == k {
                        assert(self.tiles.entries_seq()[i as int].0 == cell);
                    } else {
                        assert(lines@[r]@[c] == lines0[r]@[c]);
                        if exists|j: int|
                            0 <= j < i + 1 && (#[trigger] self.tiles.entries_seq()[j]).0 == cell {
                            let j = choose|j: int|
                                0 <= j < i + 1 && (#[trigger] self.tiles.entries_seq()[j]).0
                                    == cell;
                            assert(j < i);
                        }
                    }
                }
            }
            i += 1;
        }
        proof {
            assert forall|r: int, c: int|
                0 <= r < lines@.len() && 0 <= c < lines@[0]@.len() implies #[trigger] lines@[r]@[c]
                == board_char(
                self.tiles@,
                self.spawn_points@,
                Vector2Int { x: c as i32, y: r as i32 },
            ) by {
                let cell = Vector2Int { x: c as i32, y: r as i32 };
                if self.tiles@.contains_key(cell) {
                    self.tiles.lemma_view_in_entries(cell);
                } else {
                    if exists|j: int|
                        0 <= j < n && (#[trigger] self.tiles.entries_seq()[j]).0 == cell {
                        let j = choose|j: int|
                            0 <= j < n && (#[trigger] self.tiles.entries_seq()[j]).0 == cell;
                        self.tiles.lemma_entries_in_view(j);
                    }
                }
            }
        }
        lines
    }
}

/// A side of a tile, for wall and edge geometry.
#[derive(Clone, Copy, Debug, PartialEq, Eq, Structural)]
pub enum BoardNeighbour {
    Up,
    Down,
    Left,
    Right,
}

/// The tile at a cell, with absent cells standing for void.
pub open spec fn tile_or_void(tiles: Map<Vector2Int, TileType>, c: Vector2Int) -> TileType {
    if tiles.contains_key(c) {
        tiles[c]
    } else {
        TileType::Void
    }
}

/// A generated tile together with what borders it on each side, the raw
/// datum from which wall and bridge geometry is derived.
pub struct BoardPieceToGen {
    pub tile_type: TileType,
    pub pos: Vector2Int,
    pub neighbours: [(BoardNeighbour, TileType); 4],
}

impl BoardPieceToGen {
    /// The tile at `pos` with its four neighbours, in up, down, left, right
    /// order; nothing for an ungenerated or void cell.
    pub fn from_pos(pos: Vector2Int, board: &CurrentBoard) -> (r: Option<BoardPieceToGen>)
        requires
            board.wf(),
            in_bounds(pos),
        ensures
            r is Some <==> board.tiles@.contains_key(pos) && board.tiles@[pos] != TileType::Void,
            match r {
                Some(p) => {
                    &&& p.pos == pos
                    &&& p.tile_type == board.tiles@[pos]
                    &&& p.neighbours@ =~= seq![
                        (
                            BoardNeighbour::Up,
                            tile_or_void(board.tiles@, Vector2Int { x: pos.x, y: (pos.y + 1) as i32 }),
                        ),
                        (
                            BoardNeighbour::Down,
                            tile_or_void(board.tiles@, Vector2Int { x: pos.x, y: (pos.y - 1) as i32 }),
                        ),
                        (
                            BoardNeighbour::Left,
                            tile_or_void(board.tiles@, Vector2Int { x: (pos.x - 1) as i32, y: pos.y }),
                        ),
                        (
                            BoardNeighbour::Right,
                            tile_or_void(board.tiles@, Vector2Int { x: (pos.x + 1) as i32, y: pos.y }),
                        ),
                    ]
                },
                None => true,
            },
    {
        let tile = match board.get(pos.x, pos.y) {
            Some(t) => *t,
            None => {
                return None;
            },
        };
        if tile == TileType::Void {
            return None;
        }
        let up = match board.get(pos.x, pos.y + 1) {
            Some(t) => (BoardNeighbour::Up, *t),
            None => (BoardNeighbour::Up, TileType::Void),
        };
        let down = match board.get(pos.x, pos.y - 1) {
            Some(t) => (BoardNeighbour::Down, *t),
            None => (BoardNeighbour::Down, TileType::Void),
        };
        let left = match board.get(pos.x - 1, pos.y) {
            Some(t) => (BoardNeighbour::Left, *t),
            None => (BoardNeighbour::Left, TileType::Void),
        };
        let right = match board.get(pos.x + 1, pos.y) {
            Some(t) => (BoardNeighbour::Right, *t),
            None => (BoardNeighbour::Right, TileType::Void),
        };
        Some(BoardPieceToGen { tile_type: tile, pos, neighbours: [up, down, left, right] })
    }
}

/// The character standing for a cell in the rendered overview: `*` outside
/// the generated grid, `#` for void, `p` for a pit, and on floor tiles the
/// spawn assignment (`P` player, `E` enemy) or `f` for plain floor.
pub open spec fn board_char(
    tiles: Map<Vector2Int, TileType>,
    spawns: Map<Vector2Int, Piece>,
    p: Vector2Int,
) -> char {
    if !tiles.contains_key(p) {
        '*'
    } else {
        match tiles[p] {
            TileType::Void => '#',
            TileType::Pit => 'p',
            TileType::BaseFloor => if spawns.contains_key(p) {
                if spawns[p] == Piece::Enemy {
                    'E'
                } else {
                    'P'
                }
            } else {
                'f'
            },
        }
    }
}

} // verus!
