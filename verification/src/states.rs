//! The world state and the per-turn pipeline: pick the next actor, build and
//! trim its candidate actions, let the player or the AI choose one, and
//! resolve the queue of pending actions.

use vstd::prelude::*;

use crate::actions::GameAction;
use crate::board::{ActorTurn, AiControl, CurrentBoard, Health, Melee, Piece, PiecePos};
use crate::vectors::Vector2Int;

verus! {

/// The phases of one turn.
#[derive(Clone, Copy, Debug, PartialEq, Eq, Hash, Structural)]
pub enum GameTurnSteps {
    SearchForAgents,
    ActionSelection,
    PerformAction,
}

/// An actor: a grid position plus the optional attributes that drive combat,
/// scheduling and control.
#[derive(Clone, Copy, Debug, PartialEq, Eq, Structural)]
pub struct Actor {
    /// Current grid cell.
    pub pos: PiecePos,
    /// Faction tag; stripped when the actor dies.
    pub piece: Option<Piece>,
    /// Hit points; stripped when they reach zero.
    pub health: Option<Health>,
    /// Melee capability.
    pub melee: Option<Melee>,
    /// AI behaviour, with its pursuit radius.
    pub ai: Option<AiControl>,
    /// Player-controlled.
    pub player_control: bool,
    /// May cross pits.
    pub flying: bool,
    /// Blocks other actors from entering its cell; stripped on death.
    pub occupier: bool,
    /// Scheduling value: lowest activates next.
    pub turn: ActorTurn,
}

/// The not-yet-executed actions, first in first out.
pub struct PendingActions(pub Vec<GameAction>);

/// The candidate actions of the currently activated actor.
pub struct PossibleActions(pub Vec<GameAction>);

/// Indices into the candidate list found invalid by the trimming passes.
pub struct ActionsToRemove(pub Vec<usize>);

/// Positions the engine works with stay one step clear of the coordinate
/// bounds, so that neighbour cells always exist.
pub open spec fn pos_in_play(v: Vector2Int) -> bool {
    -0x0800_0000 <= v.x <= 0x0800_0000 && -0x0800_0000 <= v.y <= 0x0800_0000
}

/// The whole world the simulation core owns: the tile grid, the actor table,
/// the pending queue, the candidate list of the current actor, and the
/// turn-pipeline bookkeeping.
pub struct WorldState {
    pub board: CurrentBoard,
    pub actors: Vec<Actor>,
    pub pending_actions: PendingActions,
    pub possible_actions: PossibleActions,
    pub actions_to_remove: ActionsToRemove,
    /// The single actor holding the current-actor marker, if any.
    pub current_actor: Option<usize>,
    pub step: GameTurnSteps,
    /// Activation counter: the delay assigned to the actor activated last.
    pub turn: u64,
    /// Set once a player-controlled actor loses its combat attributes.
    pub player_dead: bool,
}

impl WorldState {
    /// Well-formed: the board is sound and every actor and tile coordinate
    /// stays clear of the coordinate bounds.
    pub open spec fn wf(&self) -> bool {
        &&& self.board.wf()
        &&& forall|k: Vector2Int| #[trigger] self.board.tiles@.contains_key(k) ==> pos_in_play(k)
        &&& forall|i: int|
            0 <= i < self.actors@.len() ==> pos_in_play((#[trigger] self.actors@[i]).pos.0)
        &&& forall|i: int|
            0 <= i < self.actors@.len() && (#[trigger] self.actors@[i]).ai is Some
                ==> self.actors@[i].ai.unwrap().max_distance_to_player <= 0xffff_ffff
        &&& forall|i: int|
            0 <= i < self.pending_actions.0@.len() ==> crate::actions::action_wf(
                #[trigger] self.pending_actions.0@[i],
            )
        &&& forall|i: int|
            0 <= i < self.possible_actions.0@.len() ==> crate::actions::action_wf(
                #[trigger] self.possible_actions.0@[i],
            )
    }

    /// An empty world around a board.
    pub fn new(board: CurrentBoard) -> (w: WorldState)
        requires
            board.wf(),
            forall|k: Vector2Int| #[trigger] board.tiles@.contains_key(k) ==> pos_in_play(k),
        ensures
            w.wf(),
            w.board == board,
            w.actors@.len() == 0,
            w.pending_actions.0@.len() == 0,
            w.possible_actions.0@.len() == 0,
            w.actions_to_remove.0@.len() == 0,
            w.current_actor is None,
            w.step == GameTurnSteps::SearchForAgents,
            w.turn == 0,
            !w.player_dead,
    {
        WorldState {
            board,
            actors: Vec::new(),
            pending_actions: PendingActions(Vec::new()),
            possible_actions: PossibleActions(Vec::new()),
            actions_to_remove: ActionsToRemove(Vec::new()),
            current_actor: None,
            step: GameTurnSteps::SearchForAgents,
            turn: 0,
            player_dead: false,
        }
    }
}

/// How many actors are player-controlled, among the first `upto`.
pub open spec fn count_players(actors: Seq<Actor>, upto: int) -> int
    decreases upto,
{
    if upto <= 0 {
        0
    } else {
        count_players(actors, upto - 1) + if actors[upto - 1].player_control {
            1int
        } else {
            0int
        }
    }
}

/// The first player-controlled actor, among the first `upto`.
pub open spec fn player_index(actors: Seq<Actor>, upto: int) -> Option<int>
    decreases upto,
{
    if upto <= 0 {
        None
    } else {
        match player_index(actors, upto - 1) {
            Some(i) => Some(i),
            None => if actors[upto - 1].player_control {
                Some(upto - 1)
            } else {
                None
            },
        }
    }
}

/// How many actors are player-controlled and still carry a faction tag,
/// among the first `upto`.
pub open spec fn count_alive_players(actors: Seq<Actor>, upto: int) -> int
    decreases upto,
{
    if upto <= 0 {
        0
    } else {
        count_alive_players(actors, upto - 1) + if actors[upto - 1].player_control && actors[upto
            - 1].piece is Some {
            1int
        } else {
            0int
        }
    }
}

/// The first alive player-controlled actor, among the first `upto`.
pub open spec fn alive_player_index(actors: Seq<Actor>, upto: int) -> Option<int>
    decreases upto,
{
    if upto <= 0 {
        None
    } else {
        match alive_player_index(actors, upto - 1) {
            Some(i) => Some(i),
            None => if actors[upto - 1].player_control && actors[upto - 1].piece is Some {
                Some(upto - 1)
            } else {
                None
            },
        }
    }
}

/// An actor the scheduler may activate: it carries a faction tag and stands
/// within five steps of the player.
pub open spec fn schedulable(a: Actor, ppos: Vector2Int) -> bool {
    a.piece is Some && crate::vectors::manhattan_s(a.pos.0, ppos) <= 5
}

/// The actor the scheduler picks among the first `upto`: the schedulable one
/// with the lowest turn delay, earliest index on ties; actors whose delay has
/// reached the maximum are never picked.
pub open spec fn best_index(actors: Seq<Actor>, ppos: Vector2Int, upto: int) -> Option<int>
    decreases upto,
{
    if upto <= 0 {
        None
    } else {
        let prev = best_index(actors, ppos, upto - 1);
        let a = actors[upto - 1];
        if schedulable(a, ppos) && a.turn.0 < 0xffff_ffff_ffff_ffff && (match prev {
            Some(p) => actors[p].turn.0 > a.turn.0,
            None => true,
        }) {
            Some(upto - 1)
        } else {
            prev
        }
    }
}

/// The scheduler's pick is sound: it names a schedulable actor holding the
/// numerically lowest turn delay among all schedulable ones (the earliest on
/// ties), and it passes only when no actor below the maximum delay
/// qualifies.
pub proof fn lemma_best_index_minimal(actors: Seq<Actor>, ppos: Vector2Int, upto: int)
    requires
        0 <= upto <= actors.len(),
    ensures
        match best_index(actors, ppos, upto) {
            Some(k) => 0 <= k < upto && schedulable(actors[k], ppos) && actors[k].turn.0
                < 0xffff_ffff_ffff_ffff && (forall|j: int|
                0 <= j < upto && schedulable(#[trigger] actors[j], ppos) ==> actors[k].turn.0
                    <= actors[j].turn.0) && (forall|j: int|
                0 <= j < k && schedulable(#[trigger] actors[j], ppos) ==> actors[k].turn.0
                    < actors[j].turn.0),
            None => forall|j: int|
                0 <= j < upto ==> !(schedulable(#[trigger] actors[j], ppos) && actors[j].turn.0
                    < 0xffff_ffff_ffff_ffff),
        },
    decreases upto,
{
    if upto > 0 {
        lemma_best_index_minimal(actors, ppos, upto - 1);
    }
}

/// What `get_next_actor` returns: nothing unless exactly one actor is
/// player-controlled, else the schedulable actor with the lowest delay.
pub open spec fn next_actor_spec(w: WorldState) -> Option<int> {
    if count_players(w.actors@, w.actors@.len() as int) != 1 {
        None
    } else {
        best_index(
            w.actors@,
            w.actors@[player_index(w.actors@, w.actors@.len() as int).unwrap()].pos.0,
            w.actors@.len() as int,
        )
    }
}

/// All fields equal but the actor table.
pub open spec fn same_but_actors(w0: WorldState, w1: WorldState) -> bool {
    &&& w1.board == w0.board
    &&& w1.pending_actions == w0.pending_actions
    &&& w1.possible_actions == w0.possible_actions
    &&& w1.actions_to_remove == w0.actions_to_remove
    &&& w1.current_actor == w0.current_actor
    &&& w1.step == w0.step
    &&& w1.turn == w0.turn
    &&& w1.player_dead == w0.player_dead
}

/// Enter action selection as soon as any faction-tagged actor exists.
pub fn find_actor(world: &mut WorldState)
    requires
        old(world).wf(),
    ensures
        final(world).wf(),
        same_but_actors(*old(world), *final(world)) || (*final(world) == (WorldState {
            step: GameTurnSteps::ActionSelection,
            ..*old(world)
        })),
        final(world).step == if exists|i: int|
            0 <= i < old(world).actors@.len() && (#[trigger] old(world).actors@[i]).piece is Some {
            GameTurnSteps::ActionSelection
        } else {
            old(world).step
        },
        final(world).actors@ == old(world).actors@,
        final(world).pending_actions.0@ == old(world).pending_actions.0@,
        final(world).possible_actions.0@ == old(world).possible_actions.0@,
        final(world).actions_to_remove.0@ == old(world).actions_to_remove.0@,
        final(world).board == old(world).board,
        final(world).current_actor == old(world).current_actor,
        final(world).turn == old(world).turn,
        final(world).player_dead == old(world).player_dead,
{
    let n = world.actors.len();
    let mut i: usize = 0;
    while i < n
        invariant
            n == world.actors@.len(),
            i <= n,
            world == old(world),
            world.wf(),
            forall|j: int| 0 <= j < i ==> !((#[trigger] world.actors@[j]).piece is Some),
        decreases n - i,
    {
        match world.actors[i].piece {
            Some(_) => {
                world.step = GameTurnSteps::ActionSelection;
                return ;
            },
            None => {},
        }
        i += 1;
    }
}

/// Select the next actor to activate: the faction-tagged actor within five
/// steps of the player with the lowest turn delay (earliest index on ties).
/// Bumps the activation counter when an actor is found. Yields nothing when
/// the player is missing or duplicated, or no actor qualifies.
pub fn get_next_actor(world: &mut WorldState) -> (r: Option<usize>)
    requires
        old(world).wf(),
        old(world).turn < 0xffff_ffff_ffff_ffff,
    ensures
        final(world).wf(),
        final(world).actors@ == old(world).actors@,
        same_but_actors(*final(world), *old(world)) || final(world).turn == old(world).turn + 1,
        match r {
            Some(i) => i < old(world).actors@.len() && next_actor_spec(*old(world)) == Some(
                i as int,
            ) && *final(world) == (WorldState {
                turn: (old(world).turn + 1) as u64,
                ..*old(world)
            }),
            None => next_actor_spec(*old(world)) is None && *final(world) == *old(world),
        },
{
    let n = world.actors.len();
    // the unique player: its position anchors the pursuit radius
    let mut players: usize = 0;
    let mut pidx: usize = 0;
    let mut i: usize = 0;
    while i < n
        invariant
            n == world.actors@.len(),
            i <= n,
            world == old(world),
            players == count_players(world.actors@, i as int),
            players <= i,
            player_index(world.actors@, i as int) == if players == 0 {
                Option::<int>::None
            } else {
                Option::<int>::Some(pidx as int)
            },
            players > 0 ==> pidx < n,
        decreases n - i,
    {
        if world.actors[i].player_control {
            if players == 0 {
                pidx = i;
            }
            players += 1;
        }
        i += 1;
    }
    if players != 1 {
        return None;
    }
    let ppos = world.actors[pidx].pos.0;
    let mut best: usize = 0;
    let mut have_best = false;
    let mut i: usize = 0;
    while i < n
        invariant
            n == world.actors@.len(),
            i <= n,
            world == old(world),
            world.wf(),
            ppos == world.actors@[player_index(world.actors@, n as int).unwrap()].pos.0,
            crate::states::pos_in_play(ppos),
            best_index(world.actors@, ppos, i as int) == if have_best {
                Option::<int>::Some(best as int)
            } else {
                Option::<int>::None
            },
            have_best ==> best < n,
        decreases n - i,
    {
        let a = world.actors[i];
        let sched = match a.piece {
            Some(_) => a.pos.0.manhattan(ppos) <= 5,
            None => false,
        };
        if sched && a.turn.0 < 0xffff_ffff_ffff_ffff && (!have_best
            || world.actors[best].turn.0 > a.turn.0) {
            best = i;
            have_best = true;
        }
        i += 1;
    }
    if have_best {
        world.turn = world.turn + 1;
        Some(best)
    } else {
        None
    }
}

/// Activate the selected actor: give it the current-actor marker and set its
/// turn delay to the freshly bumped activation counter.
pub fn set_current_actor(world: &mut WorldState)
    requires
        old(world).wf(),
        old(world).turn < 0xffff_ffff_ffff_ffff,
    ensures
        final(world).wf(),
        match next_actor_spec(*old(world)) {
            Some(i) => *final(world) == (WorldState {
                turn: (old(world).turn + 1) as u64,
                current_actor: Some(i as usize),
                actors: final(world).actors,
                ..*old(world)
            }) && final(world).actors@ == old(world).actors@.update(
                i,
                Actor { turn: ActorTurn((old(world).turn + 1) as u64), ..old(world).actors@[i] },
            ),
            None => *final(world) == *old(world),
        },
{
    let r = get_next_actor(world);
    match r {
        Some(i) => {
            world.current_actor = Some(i);
            let mut a = world.actors[i];
            a.turn = ActorTurn(world.turn);
            world.actors.set(i, a);
        },
        None => {},
    }
}

/// A candidate walk one step from `p`.
pub open spec fn walk_to(
    e: int,
    p: Vector2Int,
    dx: int,
    dy: int,
    key: crate::actions::InputAction,
) -> GameAction {
    GameAction::Walk(
        crate::actions::WalkAction(
            e as usize,
            Vector2Int { x: (p.x + dx) as i32, y: (p.y + dy) as i32 },
            key,
        ),
    )
}

/// A candidate melee hit one step from the actor's cell.
pub open spec fn melee_to(e: int, a: Actor, dx: int, dy: int, key: crate::actions::InputAction) -> GameAction {
    GameAction::MeleeHit(
        crate::actions::MeleeHitAction {
            attacker: e as usize,
            attacker_type: a.piece.unwrap(),
            target: Vector2Int { x: (a.pos.0.x + dx) as i32, y: (a.pos.0.y + dy) as i32 },
            damage: a.melee.unwrap().damage,
            key: Some(key),
        },
    )
}

/// The candidate list built for a newly activated actor: one walk per
/// orthogonal direction, each followed by a melee hit in the same direction
/// when the actor has the melee capability.
pub open spec fn build_actions(e: int, a: Actor) -> Seq<GameAction> {
    let p = a.pos.0;
    if a.melee is Some {
        seq![
            walk_to(e, p, -1, 0, crate::actions::InputAction::Right),
            melee_to(e, a, -1, 0, crate::actions::InputAction::Right),
            walk_to(e, p, 1, 0, crate::actions::InputAction::Left),
            melee_to(e, a, 1, 0, crate::actions::InputAction::Left),
            walk_to(e, p, 0, 1, crate::actions::InputAction::Up),
            melee_to(e, a, 0, 1, crate::actions::InputAction::Up),
            walk_to(e, p, 0, -1, crate::actions::InputAction::Down),
            melee_to(e, a, 0, -1, crate::actions::InputAction::Down),
        ]
    } else {
        seq![
            walk_to(e, p, -1, 0, crate::actions::InputAction::Right),
            walk_to(e, p, 1, 0, crate::actions::InputAction::Left),
            walk_to(e, p, 0, 1, crate::actions::InputAction::Up),
            walk_to(e, p, 0, -1, crate::actions::InputAction::Down),
        ]
    }
}

/// The current actor is activated and still carries a faction tag.
pub open spec fn has_current_piece(w: WorldState) -> bool {
    match w.current_actor {
        Some(e) => e < w.actors@.len() && w.actors@[e as int].piece is Some,
        None => false,
    }
}

/// Build the candidate action list for the activated actor: one walk per
/// orthogonal direction and, if it can strike, one melee hit per direction.
/// Without an activated, faction-tagged actor nothing changes.
pub fn prepare_action_list(world: &mut WorldState)
    requires
        old(world).wf(),
    ensures
        final(world).wf(),
        if has_current_piece(*old(world)) {
            &&& *final(world) == (WorldState {
                possible_actions: final(world).possible_actions,
                actions_to_remove: final(world).actions_to_remove,
                ..*old(world)
            })
            &&& final(world).possible_actions.0@ == build_actions(
                old(world).current_actor.unwrap() as int,
                old(world).actors@[old(world).current_actor.unwrap() as int],
            )
            &&& final(world).actions_to_remove.0@ == Seq::<usize>::empty()
        } else {
            *final(world) == *old(world)
        },
{
    let e = match world.current_actor {
        Some(e) => e,
        None => {
            return ;
        },
    };
    if e >= world.actors.len() {
        return ;
    }
    let a = world.actors[e];
    match a.piece {
        Some(_) => {},
        None => {
            return ;
        },
    }
    let p = a.pos.0;
    let mut v: Vec<GameAction> = Vec::new();
    let dirs = [
        (crate::actions::InputAction::Right, Vector2Int { x: p.x - 1, y: p.y }),
        (crate::actions::InputAction::Left, Vector2Int { x: p.x + 1, y: p.y }),
        (crate::actions::InputAction::Up, Vector2Int { x: p.x, y: p.y + 1 }),
        (crate::actions::InputAction::Down, Vector2Int { x: p.x, y: p.y - 1 }),
    ];
    let mut k: usize = 0;
    while k < 4
        invariant
            world == old(world),
            world.wf(),
            world.current_actor == Some(e),
            e < world.actors@.len(),
            a == world.actors@[e as int],
            a.piece is Some,
            p == a.pos.0,
            pos_in_play(p),
            k <= 4,
            dirs@.len() == 4,
            dirs@[0] == (crate::actions::InputAction::Right, Vector2Int { x: (p.x - 1) as i32, y: p.y }),
            dirs@[1] == (crate::actions::InputAction::Left, Vector2Int { x: (p.x + 1) as i32, y: p.y }),
            dirs@[2] == (crate::actions::InputAction::Up, Vector2Int { x: p.x, y: (p.y + 1) as i32 }),
            dirs@[3] == (crate::actions::InputAction::Down, Vector2Int { x: p.x, y: (p.y - 1) as i32 }),
            v@ == build_actions(e as int, a).take(
                if a.melee is Some {
                    2 * k as int
                } else {
                    k as int
                },
            ),
        decreases 4 - k,
    {
        let (key, target) = dirs[k];
        let ghost v0 = v@;
        v.push(GameAction::Walk(crate::actions::WalkAction(e, target, key)));
        match a.melee {
            Some(m) => {
                let piece = match a.piece {
                    Some(pc) => pc,
                    None => Piece::Player,
                };
                v.push(
                    GameAction::MeleeHit(
                        crate::actions::MeleeHitAction {
                            attacker: e,
                            attacker_type: piece,
                            target,
                            damage: m.damage,
                            key: Some(key),
                        },
                    ),
                );
                proof {
                    assert(v@ =~= build_actions(e as int, a).take(2 * (k + 1)));
                }
            },
            None => {
                proof {
                    assert(v@ =~= build_actions(e as int, a).take(k + 1));
                }
            },
        }
        k += 1;
    }
    proof {
        assert(v@ =~= build_actions(e as int, a));
        assert forall|i: int| 0 <= i < v@.len() implies crate::actions::action_wf(
            #[trigger] v@[i],
        ) by {}
    }
    world.possible_actions = PossibleActions(v);
    world.actions_to_remove = ActionsToRemove(Vec::new());
}

/// The candidate actions that survive removal of the listed indices, in
/// their original order.
pub open spec fn keep_actions(actions: Seq<GameAction>, rm: Seq<usize>, upto: int) -> Seq<
    GameAction,
>
    decreases upto,
{
    if upto <= 0 {
        Seq::empty()
    } else {
        let rest = keep_actions(actions, rm, upto - 1);
        if rm.contains((upto - 1) as usize) {
            rest
        } else {
            rest.push(actions[upto - 1])
        }
    }
}

/// Whether `x` occurs in `xs`.
fn contains_usize(xs: &Vec<usize>, x: usize) -> (r: bool)
    ensures
        r == xs@.contains(x),
{
    let n = xs.len();
    let mut i: usize = 0;
    while i < n
        invariant
            n == xs@.len(),
            i <= n,
            forall|j: int| 0 <= j < i ==> xs@[j] != x,
        decreases n - i,
    {
        if xs[i] == x {
            return true;
        }
        i += 1;
    }
    false
}

/// Drop the candidates the trimming passes flagged, leaving the survivors in
/// order, and clear the flag list. Without an activated actor nothing
/// changes.
pub fn remove_moves(world: &mut WorldState)
    requires
        old(world).wf(),
    ensures
        final(world).wf(),
        if old(world).current_actor is Some {
            &&& *final(world) == (WorldState {
                possible_actions: final(world).possible_actions,
                actions_to_remove: final(world).actions_to_remove,
                ..*old(world)
            })
            &&& final(world).possible_actions.0@ == keep_actions(
                old(world).possible_actions.0@,
                old(world).actions_to_remove.0@,
                old(world).possible_actions.0@.len() as int,
            )
            &&& final(world).actions_to_remove.0@ == Seq::<usize>::empty()
        } else {
            *final(world) == *old(world)
        },
{
    match world.current_actor {
        Some(_) => {},
        None => {
            return ;
        },
    }
    let n = world.possible_actions.0.len();
    let mut kept: Vec<GameAction> = Vec::new();
    let mut i: usize = 0;
    while i < n
        invariant
            world == old(world),
            world.wf(),
            n == world.possible_actions.0@.len(),
            i <= n,
            kept@ == keep_actions(
                world.possible_actions.0@,
                world.actions_to_remove.0@,
                i as int,
            ),
        decreases n - i,
    {
        if !contains_usize(&world.actions_to_remove.0, i) {
            kept.push(world.possible_actions.0[i]);
        }
        i += 1;
    }
    proof {
        lemma_keep_actions_wf(
            world.possible_actions.0@,
            world.actions_to_remove.0@,
            n as int,
        );
    }
    world.possible_actions = PossibleActions(kept);
    world.actions_to_remove = ActionsToRemove(Vec::new());
}

/// Survivors of the trimming pass are candidates of the original list.
proof fn lemma_keep_actions_wf(actions: Seq<GameAction>, rm: Seq<usize>, upto: int)
    requires
        0 <= upto <= actions.len(),
    ensures
        forall|i: int|
            0 <= i < keep_actions(actions, rm, upto).len() ==> actions.contains(
                #[trigger] keep_actions(actions, rm, upto)[i],
            ),
    decreases upto,
{
    if upto > 0 {
        lemma_keep_actions_wf(actions, rm, upto - 1);
        assert(forall|i: int|
            0 <= i < keep_actions(actions, rm, upto - 1).len()
                ==> keep_actions(actions, rm, upto)[i] == #[trigger] keep_actions(
                actions,
                rm,
                upto - 1,
            )[i]);
    }
}

/// The last candidate whose binding matches the input symbol, among the
/// first `upto`.
pub open spec fn last_match(
    actions: Seq<GameAction>,
    input: crate::actions::InputAction,
    upto: int,
) -> Option<int>
    decreases upto,
{
    if upto <= 0 {
        None
    } else if crate::actions::spec_get_input(actions[upto - 1]) == Some(input) {
        Some(upto - 1)
    } else {
        last_match(actions, input, upto - 1)
    }
}

/// Player action selection: on a released input symbol, move the matching
/// candidate (the last one, when several share the binding) to the pending
/// queue and advance to action resolution. Applies only while the activated
/// actor is player-controlled; otherwise, or without a match, nothing
/// changes.
pub fn select_action(world: &mut WorldState, input: crate::actions::InputAction)
    requires
        old(world).wf(),
    ensures
        final(world).wf(),
        ({
            let acts = old(world).possible_actions.0@;
            if (match old(world).current_actor {
                Some(e) => e < old(world).actors@.len() && old(world).actors@[e as int].player_control,
                None => false,
            }) && last_match(acts, input, acts.len() as int) is Some {
                let k = last_match(acts, input, acts.len() as int).unwrap();
                &&& *final(world) == (WorldState {
                    possible_actions: final(world).possible_actions,
                    pending_actions: final(world).pending_actions,
                    step: GameTurnSteps::PerformAction,
                    ..*old(world)
                })
                &&& final(world).possible_actions.0@ == acts.remove(k)
                &&& final(world).pending_actions.0@ == old(world).pending_actions.0@.push(acts[k])
            } else {
                *final(world) == *old(world)
            }
        }),
{
    let e = match world.current_actor {
        Some(e) => e,
        None => {
            return ;
        },
    };
    if e >= world.actors.len() {
        return ;
    }
    if !world.actors[e].player_control {
        return ;
    }
    let n = world.possible_actions.0.len();
    let mut found: Option<usize> = None;
    let mut i: usize = 0;
    while i < n
        invariant
            world == old(world),
            world.wf(),
            n == world.possible_actions.0@.len(),
            i <= n,
            match found {
                Some(k) => last_match(world.possible_actions.0@, input, i as int) == Some(k as int)
                    && k < n,
                None => last_match(world.possible_actions.0@, input, i as int) is None,
            },
        decreases n - i,
    {
        let key = world.possible_actions.0[i].get_input();
        let matches_input = match key {
            Some(k) => input_eq(k, input),
            None => false,
        };
        if matches_input {
            found = Some(i);
        }
        i += 1;
    }
    match found {
        Some(k) => {
            let action = world.possible_actions.0.remove(k);
            world.pending_actions.0.push(action);
            world.step = GameTurnSteps::PerformAction;
            proof {
                assert forall|j: int|
                    0 <= j < world.possible_actions.0@.len() implies crate::actions::action_wf(
                    #[trigger] world.possible_actions.0@[j],
                ) by {
                    if j < k as int {
                        assert(world.possible_actions.0@[j] == old(world).possible_actions.0@[j]);
                    } else {
                        assert(world.possible_actions.0@[j] == old(world).possible_actions.0@[j
                            + 1]);
                    }
                }
            }
        },
        None => {},
    }
}

/// Input symbol equality as the selection checks it.
fn input_eq(a: crate::actions::InputAction, b: crate::actions::InputAction) -> (r: bool)
    ensures
        r == (a == b),
{
    match (a, b) {
        (crate::actions::InputAction::Left, crate::actions::InputAction::Left) => true,
        (crate::actions::InputAction::Right, crate::actions::InputAction::Right) => true,
        (crate::actions::InputAction::Up, crate::actions::InputAction::Up) => true,
        (crate::actions::InputAction::Down, crate::actions::InputAction::Down) => true,
        (crate::actions::InputAction::Space, crate::actions::InputAction::Space) => true,
        (crate::actions::InputAction::Hide, crate::actions::InputAction::Hide) => true,
        _ => false,
    }
}

/// The positions of the occupying actors, among the first `upto`, in index
/// order.
pub open spec fn occupier_positions(actors: Seq<Actor>, upto: int) -> Seq<Vector2Int>
    decreases upto,
{
    if upto <= 0 {
        Seq::empty()
    } else {
        let rest = occupier_positions(actors, upto - 1);
        if actors[upto - 1].occupier {
            rest.push(actors[upto - 1].pos.0)
        } else {
            rest
        }
    }
}

/// The positions of all occupying actors, as the pathfinder's blocker list.
fn collect_occupiers(actors: &Vec<Actor>) -> (r: Vec<Vector2Int>)
    ensures
        r@ == occupier_positions(actors@, actors@.len() as int),
{
    let n = actors.len();
    let mut r: Vec<Vector2Int> = Vec::new();
    let mut i: usize = 0;
    while i < n
        invariant
            n == actors@.len(),
            i <= n,
            r@ == occupier_positions(actors@, i as int),
        decreases n - i,
    {
        if actors[i].occupier {
            r.push(actors[i].pos.0);
        }
        i += 1;
    }
    r
}

/// The candidate the AI picks given the path toward the player: the first
/// melee hit if any, else the last walk whose destination lies on the path.
pub open spec fn ai_choice(
    actions: Seq<GameAction>,
    path: Option<Seq<Vector2Int>>,
    upto: int,
) -> Option<int>
    decreases upto,
{
    if upto <= 0 {
        None
    } else {
        let prev = ai_choice(actions, path, upto - 1);
        if prev is Some && actions[prev.unwrap()] is MeleeHit {
            prev
        } else {
            match actions[upto - 1] {
                GameAction::MeleeHit(_) => Some(upto - 1),
                GameAction::Walk(wa) => if path is Some && path.unwrap().contains(wa.1) {
                    Some(upto - 1)
                } else {
                    prev
                },
                GameAction::Damage(_) => prev,
            }
        }
    }
}

/// Once the scan reaches a melee candidate, the choice is settled.
proof fn lemma_ai_choice_melee_stable(
    actions: Seq<GameAction>,
    path: Option<Seq<Vector2Int>>,
    k: int,
    u1: int,
    u2: int,
)
    requires
        0 <= k < actions.len(),
        0 <= u1 <= u2 <= actions.len(),
        ai_choice(actions, path, u1) == Some(k),
        actions[k] is MeleeHit,
    ensures
        ai_choice(actions, path, u2) == Some(k),
    decreases u2 - u1,
{
    if u2 > u1 {
        lemma_ai_choice_melee_stable(actions, path, k, u1, u2 - 1);
    }
}

/// The AI may act: the activated actor is AI-controlled and exactly one
/// alive player anchors the pursuit.
pub open spec fn ai_applicable(w: WorldState) -> bool {
    &&& match w.current_actor {
        Some(e) => e < w.actors@.len() && w.actors@[e as int].ai is Some,
        None => false,
    }
    &&& count_alive_players(w.actors@, w.actors@.len() as int) == 1
}

/// AI action selection for the activated actor: search a route toward the
/// player (honouring occupancy, flight and the pursuit radius), then queue,
/// in priority order, a melee hit if one is available, else a walk whose
/// destination lies on the route. The engine then advances to action
/// resolution whether or not anything was queued. Without an AI-controlled
/// activated actor or a unique alive player, nothing changes.
pub fn ai_select_action(world: &mut WorldState)
    requires
        old(world).wf(),
    ensures
        final(world).wf(),
        if ai_applicable(*old(world)) {
            exists|po: Option<Seq<Vector2Int>>|
                {
                    let acts = old(world).possible_actions.0@;
                    &&& #[trigger] crate::pathfind::find_path_post(
                        old(world).board.tiles@,
                        occupier_positions(old(world).actors@, old(world).actors@.len() as int),
                        old(world).actors@[old(world).current_actor.unwrap() as int].flying,
                        old(world).actors@[old(world).current_actor.unwrap() as int].pos.0,
                        old(world).actors@[alive_player_index(old(world).actors@, old(world).actors@.len() as int).unwrap()].pos.0,
                        old(world).actors@[old(world).current_actor.unwrap() as int].ai.unwrap().max_distance_to_player as int,
                        po,
                    )
                    &&& match ai_choice(acts, po, acts.len() as int) {
                        Some(k) => {
                            &&& *final(world) == (WorldState {
                                possible_actions: final(world).possible_actions,
                                pending_actions: final(world).pending_actions,
                                step: GameTurnSteps::PerformAction,
                                ..*old(world)
                            })
                            &&& final(world).possible_actions.0@ == acts.remove(k)
                            &&& final(world).pending_actions.0@ == old(
                                world,
                            ).pending_actions.0@.push(acts[k])
                        },
                        None => *final(world) == (WorldState {
                            step: GameTurnSteps::PerformAction,
                            ..*old(world)
                        }),
                    }
                }
        } else {
            *final(world) == *old(world)
        },
{
    let e = match world.current_actor {
        Some(e) => e,
        None => {
            return ;
        },
    };
    if e >= world.actors.len() {
        return ;
    }
    let actor = world.actors[e];
    let max_distance = match actor.ai {
        Some(ai) => ai.max_distance_to_player,
        None => {
            return ;
        },
    };
    // the unique alive player anchors the pursuit
    let n = world.actors.len();
    let mut players: usize = 0;
    let mut pidx: usize = 0;
    let mut i: usize = 0;
    while i < n
        invariant
            n == world.actors@.len(),
            i <= n,
            world == old(world),
            players == count_alive_players(world.actors@, i as int),
            players <= i,
            alive_player_index(world.actors@, i as int) == if players == 0 {
                Option::<int>::None
            } else {
                Option::<int>::Some(pidx as int)
            },
            players > 0 ==> pidx < n,
        decreases n - i,
    {
        let a = world.actors[i];
        let alive_player = a.player_control && match a.piece {
            Some(_) => true,
            None => false,
        };
        if alive_player {
            if players == 0 {
                pidx = i;
            }
            players += 1;
        }
        i += 1;
    }
    if players != 1 {
        return ;
    }
    let ppos = world.actors[pidx].pos.0;
    let blockers = collect_occupiers(&world.actors);
    let path = crate::pathfind::find_path(
        actor.pos.0,
        ppos,
        &world.board.tiles,
        &blockers,
        actor.flying,
        max_distance,
    );
    let ghost po: Option<Seq<Vector2Int>> = match path {
        Some(ref p) => Some(p@),
        None => None,
    };
    let total = world.possible_actions.0.len();
    let mut action_index: Option<usize> = None;
    let mut found_melee = false;
    let mut i: usize = 0;
    while i < total && !found_melee
        invariant
            world == old(world),
            world.wf(),
            total == world.possible_actions.0@.len(),
            i <= total,
            match action_index {
                Some(k) => ai_choice(world.possible_actions.0@, po, i as int) == Some(k as int)
                    && k < total,
                None => ai_choice(world.possible_actions.0@, po, i as int) is None,
            },
            found_melee ==> action_index is Some
                && world.possible_actions.0@[action_index.unwrap() as int] is MeleeHit,
            !found_melee && action_index is Some
                ==> world.possible_actions.0@[action_index.unwrap() as int] is Walk,
            po == (match path {
                Some(ref p) => Some(p@),
                None => None::<Seq<Vector2Int>>,
            }),
        decreases total - i,
    {
        let picked = match &world.possible_actions.0[i] {
            GameAction::MeleeHit(_) => {
                found_melee = true;
                true
            },
            GameAction::Walk(wa) => {
                match &path {
                    Some(pv) => crate::pathfind::contains_cell(pv, wa.1),
                    None => false,
                }
            },
            GameAction::Damage(_) => false,
        };
        if picked {
            action_index = Some(i);
        }
        i += 1;
    }
    proof {
        if found_melee {
            lemma_ai_choice_melee_stable(
                world.possible_actions.0@,
                po,
                action_index.unwrap() as int,
                i as int,
                total as int,
            );
        }
    }
    match action_index {
        Some(k) => {
            let action = world.possible_actions.0.remove(k);
            world.pending_actions.0.push(action);
            world.step = GameTurnSteps::PerformAction;
            proof {
                assert forall|j: int|
                    0 <= j < world.possible_actions.0@.len() implies crate::actions::action_wf(
                    #[trigger] world.possible_actions.0@[j],
                ) by {
                    if j < k as int {
                        assert(world.possible_actions.0@[j] == old(world).possible_actions.0@[j]);
                    } else {
                        assert(world.possible_actions.0@[j] == old(world).possible_actions.0@[j
                            + 1]);
                    }
                }
            }
        },
        None => {
            world.step = GameTurnSteps::PerformAction;
        },
    }
}

/// Resolve one step of the pending queue: execute its front action, or, once
/// the queue is empty, fall back to action selection. A failed execution is
/// reported and skipped; it halts nothing.
pub fn execute_pending_action(world: &mut WorldState) -> (r: Option<bool>)
    requires
        old(world).wf(),
    ensures
        final(world).wf(),
        if old(world).pending_actions.0@.len() == 0 {
            r is None && *final(world) == (WorldState {
                step: GameTurnSteps::ActionSelection,
                ..*old(world)
            })
        } else {
            r is Some && crate::actions::exec_post(
                *old(world),
                old(world).pending_actions.0@.subrange(
                    1,
                    old(world).pending_actions.0@.len() as int,
                ),
                old(world).pending_actions.0@[0],
                *final(world),
                r.unwrap(),
            )
        },
{
    if world.pending_actions.0.len() == 0 {
        world.step = GameTurnSteps::ActionSelection;
        return None;
    }
    let action = world.pending_actions.0.remove(0);
    proof {
        assert(world.pending_actions.0@ =~= old(world).pending_actions.0@.subrange(
            1,
            old(world).pending_actions.0@.len() as int,
        ));
        assert forall|j: int|
            0 <= j < world.pending_actions.0@.len() implies crate::actions::action_wf(
            #[trigger] world.pending_actions.0@[j],
        ) by {
            assert(world.pending_actions.0@[j] == old(world).pending_actions.0@[j + 1]);
        }
    }
    let ghost wmid = *world;
    let ok = action.execute(world);
    proof {
        assert(crate::actions::exec_post(
            *old(world),
            old(world).pending_actions.0@.subrange(1, old(world).pending_actions.0@.len() as int),
            old(world).pending_actions.0@[0],
            *world,
            ok,
        ));
    }
    Some(ok)
}

/// The actor spawned for a spawn-point assignment: the player starts with
/// three hit points and acts first; an enemy starts with one hit point, AI
/// control at the default pursuit radius, and a turn delay of one. Both
/// carry a melee capability of one damage and occupy their cell.
pub open spec fn actor_for(point: Vector2Int, piece: Piece) -> Actor {
    Actor {
        pos: PiecePos(point),
        piece: Some(piece),
        health: Some(
            Health {
                value: if piece == Piece::Player {
                    3
                } else {
                    1
                },
            },
        ),
        melee: Some(Melee { damage: 1 }),
        ai: if piece == Piece::Player {
            None
        } else {
            Some(AiControl { max_distance_to_player: 5 })
        },
        player_control: piece == Piece::Player,
        flying: false,
        occupier: true,
        turn: ActorTurn(
            if piece == Piece::Player {
                0
            } else {
                1
            },
        ),
    }
}

/// Create one actor per spawn point of the board, in the spawn list's order.
pub fn spawn_points(world: &mut WorldState)
    requires
        old(world).wf(),
        forall|k: Vector2Int|
            #[trigger] old(world).board.spawn_points@.contains_key(k) ==> old(
                world,
            ).board.tiles@.contains_key(k),
    ensures
        final(world).wf(),
        *final(world) == (WorldState { actors: final(world).actors, ..*old(world) }),
        final(world).actors@.len() == old(world).actors@.len()
            + old(world).board.spawn_points.entries_seq().len(),
        forall|j: int|
            0 <= j < old(world).actors@.len() ==> #[trigger] final(world).actors@[j] == old(
                world,
            ).actors@[j],
        forall|j: int|
            0 <= j < old(world).board.spawn_points.entries_seq().len()
                ==> #[trigger] final(world).actors@[old(world).actors@.len() + j] == actor_for(
                old(world).board.spawn_points.entries_seq()[j].0,
                old(world).board.spawn_points.entries_seq()[j].1,
            ),
{
    let n = world.board.spawn_points.entry_count();
    let mut i: usize = 0;
    while i < n
        invariant
            world.wf(),
            n == world.board.spawn_points.entries_seq().len(),
            i <= n,
            world.board == old(world).board,
            world.pending_actions == old(world).pending_actions,
            world.possible_actions == old(world).possible_actions,
            world.actions_to_remove == old(world).actions_to_remove,
            world.current_actor == old(world).current_actor,
            world.step == old(world).step,
            world.turn == old(world).turn,
            world.player_dead == old(world).player_dead,
            forall|k: Vector2Int|
                #[trigger] world.board.spawn_points@.contains_key(k)
                    ==> world.board.tiles@.contains_key(k),
            world.actors@.len() == old(world).actors@.len() + i,
            forall|j: int|
                0 <= j < old(world).actors@.len() ==> #[trigger] world.actors@[j] == old(
                    world,
                ).actors@[j],
            forall|j: int|
                0 <= j < i ==> #[trigger] world.actors@[old(world).actors@.len() + j] == actor_for(
                    world.board.spawn_points.entries_seq()[j].0,
                    world.board.spawn_points.entries_seq()[j].1,
                ),
        decreases n - i,
    {
        let point = world.board.spawn_points.key_at(i);
        let piece = *world.board.spawn_points.val_at(i);
        proof {
            world.board.spawn_points.lemma_entries_in_view(i as int);
            assert(world.board.spawn_points@.contains_key(point));
            assert(world.board.tiles@.contains_key(point));
        }
        let actor = match piece {
            Piece::Player => Actor {
                pos: PiecePos(point),
                piece: Some(Piece::Player),
                health: Some(Health { value: 3 }),
                melee: Some(Melee { damage: 1 }),
                ai: None,
                player_control: true,
                flying: false,
                occupier: true,
                turn: ActorTurn(0),
            },
            Piece::Enemy => Actor {
                pos: PiecePos(point),
                piece: Some(Piece::Enemy),
                health: Some(Health { value: 1 }),
                melee: Some(Melee { damage: 1 }),
                ai: Some(AiControl { max_distance_to_player: 5 }),
                player_control: false,
                flying: false,
                occupier: true,
                turn: ActorTurn(1),
            },
        };
        world.actors.push(actor);
        i += 1;
    }
}

/// Clear the current-actor marker, as happens on leaving action resolution.
pub fn remove_token(world: &mut WorldState)
    requires
        old(world).wf(),
    ensures
        final(world).wf(),
        *final(world) == (WorldState { current_actor: None, ..*old(world) }),
{
    world.current_actor = None;
}

/// A candidate the trimming passes reject: a walk whose destination is not
/// free floor, or a melee hit with nobody to strike.
pub open spec fn candidate_invalid(w: WorldState, a: GameAction) -> bool {
    match a {
        GameAction::Walk(wa) => crate::actions::walk_invalid(w, wa),
        GameAction::MeleeHit(m) => crate::actions::melee_invalid(w, m),
        GameAction::Damage(_) => false,
    }
}

/// The candidates that survive trimming: those not rejected, in order.
pub open spec fn valid_candidates(w: WorldState, acts: Seq<GameAction>) -> Seq<GameAction> {
    acts.filter(|a: GameAction| !candidate_invalid(w, a))
}

/// Appending a candidate extends the surviving list exactly when it is valid.
proof fn lemma_valid_candidates_push(w: WorldState, s: Seq<GameAction>, e: GameAction)
    ensures
        valid_candidates(w, s.push(e)) == if !candidate_invalid(w, e) {
            valid_candidates(w, s).push(e)
        } else {
            valid_candidates(w, s)
        },
{
    reveal(Seq::filter);
    assert(s.push(e).drop_last() =~= s);
}

/// No candidate survives from an empty list.
proof fn lemma_valid_candidates_empty(w: WorldState, s: Seq<GameAction>)
    requires
        s.len() == 0,
    ensures
        valid_candidates(w, s) == Seq::<GameAction>::empty(),
{
    reveal(Seq::filter);
    assert(valid_candidates(w, s) =~= Seq::<GameAction>::empty());
}

/// The walk-trimming pass flags exactly the indices of invalid walks.
proof fn lemma_invalid_walk_membership(w: WorldState, acts: Seq<GameAction>, upto: int)
    requires
        0 <= upto <= acts.len(),
        acts.len() <= usize::MAX,
    ensures
        forall|j: usize|
            #[trigger] crate::actions::invalid_walk_indices(w, acts, upto).contains(j) <==> (j
                < upto && acts[j as int] is Walk && candidate_invalid(w, acts[j as int])),
    decreases upto,
{
    broadcast use vstd::seq_lib::lemma_seq_contains_after_push;

    if upto > 0 {
        lemma_invalid_walk_membership(w, acts, upto - 1);
        let rest = crate::actions::invalid_walk_indices(w, acts, upto - 1);
        let cur = crate::actions::invalid_walk_indices(w, acts, upto);
        assert forall|j: usize| #[trigger] cur.contains(j) implies (j < upto && acts[j as int] is Walk
            && candidate_invalid(w, acts[j as int])) by {
            if cur != rest {
                assert(cur == rest.push((upto - 1) as usize));
            }
        }
        assert forall|j: usize|
            j < upto && acts[j as int] is Walk && candidate_invalid(w, acts[j as int]) implies #[trigger] cur.contains(
            j,
        ) by {
            if j < upto - 1 {
                assert(rest.contains(j));
                if cur != rest {
                    assert(cur == rest.push((upto - 1) as usize));
                }
            } else {
                assert(cur == rest.push((upto - 1) as usize));
            }
        }
    }
}

/// The melee-trimming pass flags exactly the indices of invalid melee hits.
proof fn lemma_invalid_melee_membership(w: WorldState, acts: Seq<GameAction>, upto: int)
    requires
        0 <= upto <= acts.len(),
        acts.len() <= usize::MAX,
    ensures
        forall|j: usize|
            #[trigger] crate::actions::invalid_melee_indices(w, acts, upto).contains(j) <==> (j
                < upto && acts[j as int] is MeleeHit && candidate_invalid(w, acts[j as int])),
    decreases upto,
{
    broadcast use vstd::seq_lib::lemma_seq_contains_after_push;

    if upto > 0 {
        lemma_invalid_melee_membership(w, acts, upto - 1);
        let rest = crate::actions::invalid_melee_indices(w, acts, upto - 1);
        let cur = crate::actions::invalid_melee_indices(w, acts, upto);
        assert forall|j: usize| #[trigger] cur.contains(j) implies (j < upto
            && acts[j as int] is MeleeHit && candidate_invalid(w, acts[j as int])) by {
            if cur != rest {
                assert(cur == rest.push((upto - 1) as usize));
            }
        }
        assert forall|j: usize|
            j < upto && acts[j as int] is MeleeHit && candidate_invalid(w, acts[j as int]) implies #[trigger] cur.contains(
            j,
        ) by {
            if j < upto - 1 {
                assert(rest.contains(j));
                if cur != rest {
                    assert(cur == rest.push((upto - 1) as usize));
                }
            } else {
                assert(cur == rest.push((upto - 1) as usize));
            }
        }
    }
}

proof fn lemma_keep_is_filter(w: WorldState, acts: Seq<GameAction>, rm: Seq<usize>, upto: int)
    requires
        0 <= upto <= acts.len(),
        acts.len() <= usize::MAX,
        forall|j: usize|
            #[trigger] rm.contains(j) <==> (j < acts.len() && candidate_invalid(
                w,
                acts[j as int],
            )),
    ensures
        keep_actions(acts, rm, upto) == valid_candidates(w, acts.take(upto)),
    decreases upto,
{
    if upto <= 0 {
        assert(acts.take(0) =~= Seq::<GameAction>::empty());
        lemma_valid_candidates_empty(w, acts.take(0));
    } else {
        lemma_keep_is_filter(w, acts, rm, upto - 1);
        assert(acts.take(upto) =~= acts.take(upto - 1).push(acts[upto - 1]));
        lemma_valid_candidates_push(w, acts.take(upto - 1), acts[upto - 1]);
        assert(rm.contains((upto - 1) as usize) <==> candidate_invalid(w, acts[upto - 1]));
        assert(keep_actions(acts, rm, upto) == if rm.contains((upto - 1) as usize) {
            keep_actions(acts, rm, upto - 1)
        } else {
            keep_actions(acts, rm, upto - 1).push(acts[upto - 1])
        });
    }
}

/// Walk trimming, exactly: after the two trimming passes flag the invalid
/// candidates of a fresh list and the removal step drops them, the surviving
/// candidates are precisely the valid ones, in their original order — a walk
/// into an occupied or non-floor cell is removed, and nothing else is.
pub proof fn lemma_trimming_exact(
    w: WorldState,
    acts: Seq<GameAction>,
    rm: Seq<usize>,
    kept: Seq<GameAction>,
)
    requires
        acts.len() <= usize::MAX,
        // what the two trimming passes append to an empty removal list
        rm == crate::actions::invalid_walk_indices(w, acts, acts.len() as int)
            + crate::actions::invalid_melee_indices(w, acts, acts.len() as int),
        // what the removal step keeps
        kept == keep_actions(acts, rm, acts.len() as int),
    ensures
        kept == valid_candidates(w, acts),
{
    broadcast use vstd::seq_lib::lemma_seq_concat_contains_all_elements;

    lemma_invalid_walk_membership(w, acts, acts.len() as int);
    lemma_invalid_melee_membership(w, acts, acts.len() as int);
    assert forall|j: usize| #[trigger] rm.contains(j) implies (j < acts.len() && candidate_invalid(
        w,
        acts[j as int],
    )) by {}
    assert forall|j: usize|
        j < acts.len() && candidate_invalid(w, acts[j as int]) implies #[trigger] rm.contains(
        j,
    ) by {
        if acts[j as int] is Walk {
            assert(crate::actions::invalid_walk_indices(w, acts, acts.len() as int).contains(j));
        } else {
            assert(crate::actions::invalid_melee_indices(w, acts, acts.len() as int).contains(j));
        }
    }
    lemma_keep_is_filter(w, acts, rm, acts.len() as int);
    assert(acts.take(acts.len() as int) =~= acts);
}

/// At no point do two actors hold the current-actor marker: the world keeps
/// at most one, by representation.
pub open spec fn current_actor_count(w: WorldState) -> int {
    if w.current_actor is Some {
        1
    } else {
        0
    }
}

/// Turn exclusivity: whatever the phase, at most one actor is current.
pub proof fn lemma_turn_exclusivity(w: WorldState)
    ensures
        current_actor_count(w) <= 1,
{
}

} // verus!
