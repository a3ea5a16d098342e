//! The closed set of actions an actor may take, each with validation and
//! execution semantics, and the trimming passes that drop invalid candidates.

use vstd::prelude::*;

use crate::board::{Piece, TileType};
use crate::states::WorldState;
use crate::vectors::{in_bounds, manhattan_s, Vector2Int};

verus! {

/// An abstract input symbol, as resolved by the host's input layer.
#[derive(Clone, Copy, Debug, PartialEq, Eq, Hash, Structural)]
pub enum InputAction {
    Left,
    Right,
    Up,
    Down,
    Space,
    Hide,
}

/// The tag of an action kind.
#[derive(Clone, Copy, Debug, PartialEq, Eq, Hash, Structural)]
pub enum ActionType {
    Damage,
    MeleeeHit,
    Walk,
}

/// Move an actor to a destination cell: actor index, destination, binding.
#[derive(Clone, Copy, Debug, PartialEq, Eq, Structural)]
pub struct WalkAction(pub usize, pub Vector2Int, pub InputAction);

/// Strike a cell next to the attacker; on success one damage action is
/// queued per opposing actor found there.
#[derive(Clone, Copy, Debug, PartialEq, Eq, Structural)]
pub struct MeleeHitAction {
    pub attacker: usize,
    pub attacker_type: Piece,
    pub target: Vector2Int,
    pub damage: u32,
    pub key: Option<InputAction>,
}

/// Reduce an actor's health, floored at zero: target index and amount.
#[derive(Clone, Copy, Debug, PartialEq, Eq, Structural)]
pub struct DamageAction(pub usize, pub u32);

/// The closed action set.
#[derive(Clone, Copy, Debug, PartialEq, Eq, Structural)]
pub enum GameAction {
    Walk(WalkAction),
    MeleeHit(MeleeHitAction),
    Damage(DamageAction),
}

/// Actions the engine handles keep their target cells within coordinate
/// bounds.
pub open spec fn action_wf(a: GameAction) -> bool {
    match a {
        GameAction::Walk(w) => in_bounds(w.1),
        GameAction::MeleeHit(m) => in_bounds(m.target),
        GameAction::Damage(_) => true,
    }
}

/// Some occupying actor stands on the cell.
pub open spec fn occupied(actors: Seq<crate::states::Actor>, pos: Vector2Int) -> bool {
    exists|i: int| 0 <= i < actors.len() && (#[trigger] actors[i]).occupier && actors[i].pos.0 == pos
}

/// A walk may proceed: the destination was generated, no occupier stands on
/// it, and the walking actor exists.
pub open spec fn walk_ok(w: WorldState, a: WalkAction) -> bool {
    &&& w.board.tiles@.contains_key(a.1)
    &&& !occupied(w.actors@, a.1)
    &&& a.0 < w.actors@.len()
}

/// The actor is a legal melee victim at the cell: it bears health and a
/// faction differing from the attacker's.
pub open spec fn is_melee_target(
    a: crate::states::Actor,
    attacker_type: Piece,
    pos: Vector2Int,
) -> bool {
    &&& a.health is Some
    &&& a.piece is Some
    &&& a.piece != Some(attacker_type)
    &&& a.pos.0 == pos
}

/// A melee hit may proceed: the attacker exists, stands within one step of
/// the target cell, and at least one opposing actor occupies it.
pub open spec fn melee_ok(w: WorldState, a: MeleeHitAction) -> bool {
    &&& a.attacker < w.actors@.len()
    &&& manhattan_s(w.actors@[a.attacker as int].pos.0, a.target) <= 1
    &&& exists|i: int|
        0 <= i < w.actors@.len() && is_melee_target(#[trigger] w.actors@[i], a.attacker_type, a.target)
}

/// The damage actions a melee hit queues: one per qualifying actor among the
/// first `upto`, in index order.
pub open spec fn damage_actions_for(
    actors: Seq<crate::states::Actor>,
    attacker_type: Piece,
    pos: Vector2Int,
    dmg: u32,
    upto: int,
) -> Seq<GameAction>
    decreases upto,
{
    if upto <= 0 {
        Seq::empty()
    } else {
        let rest = damage_actions_for(actors, attacker_type, pos, dmg, upto - 1);
        if is_melee_target(actors[upto - 1], attacker_type, pos) {
            rest.push(GameAction::Damage(DamageAction((upto - 1) as usize, dmg)))
        } else {
            rest
        }
    }
}

/// The actor after taking `dmg` damage: health drops, floored at zero, and
/// an actor at zero loses its combat attributes (health, faction, occupancy).
pub open spec fn damaged_actor(a: crate::states::Actor, dmg: u32) -> crate::states::Actor {
    if a.health.unwrap().value <= dmg {
        crate::states::Actor { health: None, piece: None, occupier: false, ..a }
    } else {
        crate::states::Actor {
            health: Some(crate::board::Health { value: (a.health.unwrap().value - dmg) as u32 }),
            ..a
        }
    }
}

/// Fields no action execution touches.
pub open spec fn exec_frame(w0: WorldState, w1: WorldState) -> bool {
    &&& w1.board == w0.board
    &&& w1.possible_actions == w0.possible_actions
    &&& w1.actions_to_remove == w0.actions_to_remove
    &&& w1.current_actor == w0.current_actor
    &&& w1.step == w0.step
    &&& w1.turn == w0.turn
}

/// What executing action `a` against state `w0` yields, with `p0` the queue
/// the execution started from: the exact contract of `GameAction::execute`.
pub open spec fn exec_post(
    w0: WorldState,
    p0: Seq<GameAction>,
    a: GameAction,
    w1: WorldState,
    r: bool,
) -> bool {
    &&& exec_frame(w0, w1)
    &&& match a {
        GameAction::Walk(wa) => {
            &&& r == walk_ok(w0, wa)
            &&& w1.pending_actions.0@ == p0
            &&& w1.player_dead == w0.player_dead
            &&& if r {
                w1.actors@ == w0.actors@.update(
                    wa.0 as int,
                    crate::states::Actor { pos: crate::board::PiecePos(wa.1), ..w0.actors@[wa.0 as int] },
                )
            } else {
                w1.actors@ == w0.actors@
            }
        },
        GameAction::MeleeHit(m) => {
            &&& r == melee_ok(w0, m)
            &&& w1.actors@ == w0.actors@
            &&& w1.player_dead == w0.player_dead
            &&& if r {
                w1.pending_actions.0@ == p0 + damage_actions_for(
                    w0.actors@,
                    m.attacker_type,
                    m.target,
                    m.damage,
                    w0.actors@.len() as int,
                )
            } else {
                w1.pending_actions.0@ == p0
            }
        },
        GameAction::Damage(d) => {
            &&& r == (d.0 < w0.actors@.len() && w0.actors@[d.0 as int].health is Some)
            &&& w1.pending_actions.0@ == p0
            &&& if r {
                &&& w1.actors@ == w0.actors@.update(
                    d.0 as int,
                    damaged_actor(w0.actors@[d.0 as int], d.1),
                )
                &&& w1.player_dead == (w0.player_dead || (w0.actors@[d.0 as int].health.unwrap().value
                    <= d.1 && w0.actors@[d.0 as int].player_control))
            } else {
                &&& w1.actors@ == w0.actors@
                &&& w1.player_dead == w0.player_dead
            }
        },
    }
}

impl GameAction {
    /// The input symbol bound to the action, if any; cascaded damage has no
    /// direct binding.
    pub fn get_input(&self) -> (r: Option<InputAction>)
        ensures
            r == spec_get_input(*self),
    {
        match self {
            GameAction::Walk(w) => Some(w.2),
            GameAction::MeleeHit(m) => m.key,
            GameAction::Damage(_) => None,
        }
    }

    pub fn action_type(&self) -> (r: ActionType)
        ensures
            r == spec_action_type(*self),
    {
        match self {
            GameAction::Walk(_) => ActionType::Walk,
            GameAction::MeleeHit(_) => ActionType::MeleeeHit,
            GameAction::Damage(_) => ActionType::Damage,
        }
    }

    pub fn target_pos(&self) -> (r: Option<Vector2Int>)
        ensures
            r == spec_target_pos(*self),
    {
        match self {
            GameAction::Walk(w) => Some(w.1),
            GameAction::MeleeHit(m) => Some(m.target),
            GameAction::Damage(_) => None,
        }
    }

    /// Resolve the action against the world. Returns false and leaves the
    /// world unchanged (the pending queue aside) when a precondition fails.
    pub fn execute(&self, world: &mut WorldState) -> (r: bool)
        requires
            old(world).wf(),
            action_wf(*self),
        ensures
            final(world).wf(),
            exec_post(*old(world), old(world).pending_actions.0@, *self, *final(world), r),
    {
        match self {
            GameAction::Walk(wa) => execute_walk(wa, world),
            GameAction::MeleeHit(m) => execute_melee(m, world),
            GameAction::Damage(d) => execute_damage(d, world),
        }
    }
}

pub open spec fn spec_get_input(a: GameAction) -> Option<InputAction> {
    match a {
        GameAction::Walk(w) => Some(w.2),
        GameAction::MeleeHit(m) => m.key,
        GameAction::Damage(_) => None,
    }
}

pub open spec fn spec_action_type(a: GameAction) -> ActionType {
    match a {
        GameAction::Walk(_) => ActionType::Walk,
        GameAction::MeleeHit(_) => ActionType::MeleeeHit,
        GameAction::Damage(_) => ActionType::Damage,
    }
}

pub open spec fn spec_target_pos(a: GameAction) -> Option<Vector2Int> {
    match a {
        GameAction::Walk(w) => Some(w.1),
        GameAction::MeleeHit(m) => Some(m.target),
        GameAction::Damage(_) => None,
    }
}

/// Whether any occupying actor stands on the cell.
pub fn any_occupier_at(actors: &Vec<crate::states::Actor>, pos: Vector2Int) -> (r: bool)
    ensures
        r == occupied(actors@, pos),
{
    let n = actors.len();
    let mut i: usize = 0;
    while i < n
        invariant
            n == actors@.len(),
            i <= n,
            forall|j: int| 0 <= j < i ==> !((#[trigger] actors@[j]).occupier && actors@[j].pos.0 == pos),
        decreases n - i,
    {
        if actors[i].occupier && actors[i].pos.0 == pos {
            return true;
        }
        i += 1;
    }
    false
}

fn execute_walk(wa: &WalkAction, world: &mut WorldState) -> (r: bool)
    requires
        old(world).wf(),
        in_bounds(wa.1),
    ensures
        final(world).wf(),
        exec_post(*old(world), old(world).pending_actions.0@, GameAction::Walk(*wa), *final(world), r),
{
    if !world.board.tiles.contains_key(wa.1) {
        return false;
    }
    if any_occupier_at(&world.actors, wa.1) {
        return false;
    }
    if wa.0 >= world.actors.len() {
        return false;
    }
    let mut actor = world.actors[wa.0];
    actor.pos = crate::board::PiecePos(wa.1);
    world.actors.set(wa.0, actor);
    true
}

fn execute_melee(m: &MeleeHitAction, world: &mut WorldState) -> (r: bool)
    requires
        old(world).wf(),
        in_bounds(m.target),
    ensures
        final(world).wf(),
        exec_post(
            *old(world),
            old(world).pending_actions.0@,
            GameAction::MeleeHit(*m),
            *final(world),
            r,
        ),
{
    if m.attacker >= world.actors.len() {
        return false;
    }
    let apos = world.actors[m.attacker].pos.0;
    if apos.manhattan(m.target) > 1 {
        return false;
    }
    let n = world.actors.len();
    let mut queued: usize = 0;
    let mut i: usize = 0;
    let ghost p0 = world.pending_actions.0@;
    while i < n
        invariant
            world.wf(),
            n == world.actors@.len(),
            i <= n,
            world.actors@ == old(world).actors@,
            world.board == old(world).board,
            world.possible_actions == old(world).possible_actions,
            world.actions_to_remove == old(world).actions_to_remove,
            world.current_actor == old(world).current_actor,
            world.step == old(world).step,
            world.turn == old(world).turn,
            world.player_dead == old(world).player_dead,
            p0 == old(world).pending_actions.0@,
            world.pending_actions.0@ == p0 + damage_actions_for(
                world.actors@,
                m.attacker_type,
                m.target,
                m.damage,
                i as int,
            ),
            queued == damage_actions_for(
                world.actors@,
                m.attacker_type,
                m.target,
                m.damage,
                i as int,
            ).len(),
            queued <= i,
        decreases n - i,
    {
        let a = world.actors[i];
        let hit = match (a.health, a.piece) {
            (Some(_), Some(p)) => a.pos.0 == m.target && !piece_eq(p, m.attacker_type),
            _ => false,
        };
        if hit {
            world.pending_actions.0.push(GameAction::Damage(DamageAction(i, m.damage)));
            queued += 1;
        }
        i += 1;
    }
    if queued == 0 {
        // no qualifying target: roll the queue back untouched
        proof {
            lemma_damage_actions_empty(
                world.actors@,
                m.attacker_type,
                m.target,
                m.damage,
                n as int,
            );
            assert(world.pending_actions.0@ =~= p0);
        }
        return false;
    }
    proof {
        lemma_damage_actions_nonempty(world.actors@, m.attacker_type, m.target, m.damage, n as int);
    }
    true
}

/// Faction equality as the execution checks it.
fn piece_eq(a: Piece, b: Piece) -> (r: bool)
    ensures
        r == (a == b),
{
    match (a, b) {
        (Piece::Player, Piece::Player) => true,
        (Piece::Enemy, Piece::Enemy) => true,
        _ => false,
    }
}

/// A scan that queued nothing found no qualifying target.
proof fn lemma_damage_actions_empty(
    actors: Seq<crate::states::Actor>,
    attacker_type: Piece,
    pos: Vector2Int,
    dmg: u32,
    upto: int,
)
    requires
        0 <= upto <= actors.len(),
        damage_actions_for(actors, attacker_type, pos, dmg, upto).len() == 0,
    ensures
        forall|i: int| 0 <= i < upto ==> !is_melee_target(#[trigger] actors[i], attacker_type, pos),
    decreases upto,
{
    if upto > 0 {
        lemma_damage_actions_empty(actors, attacker_type, pos, dmg, upto - 1);
    }
}

/// A scan that queued something found a qualifying target.
proof fn lemma_damage_actions_nonempty(
    actors: Seq<crate::states::Actor>,
    attacker_type: Piece,
    pos: Vector2Int,
    dmg: u32,
    upto: int,
)
    requires
        0 <= upto <= actors.len(),
        damage_actions_for(actors, attacker_type, pos, dmg, upto).len() > 0,
    ensures
        exists|i: int| 0 <= i < upto && is_melee_target(#[trigger] actors[i], attacker_type, pos),
    decreases upto,
{
    if upto > 0 {
        if is_melee_target(actors[upto - 1], attacker_type, pos) {
        } else {
            lemma_damage_actions_nonempty(actors, attacker_type, pos, dmg, upto - 1);
        }
    }
}

/// A walk candidate is invalid when its destination is not plain floor or is
/// currently occupied.
pub open spec fn walk_invalid(w: WorldState, wa: WalkAction) -> bool {
    !(w.board.tiles@.contains_key(wa.1) && w.board.tiles@[wa.1] == TileType::BaseFloor) || occupied(
        w.actors@,
        wa.1,
    )
}

/// The indices of invalid walk candidates among the first `upto`, ascending.
pub open spec fn invalid_walk_indices(w: WorldState, actions: Seq<GameAction>, upto: int) -> Seq<
    usize,
>
    decreases upto,
{
    if upto <= 0 {
        Seq::empty()
    } else {
        let rest = invalid_walk_indices(w, actions, upto - 1);
        match actions[upto - 1] {
            GameAction::Walk(wa) => if walk_invalid(w, wa) {
                rest.push((upto - 1) as usize)
            } else {
                rest
            },
            _ => rest,
        }
    }
}

/// A melee candidate is invalid when no opposing, health-bearing actor
/// occupies its target cell.
pub open spec fn melee_invalid(w: WorldState, m: MeleeHitAction) -> bool {
    !(exists|i: int|
        0 <= i < w.actors@.len() && is_melee_target(#[trigger] w.actors@[i], m.attacker_type, m.target))
}

/// The indices of invalid melee candidates among the first `upto`, ascending.
pub open spec fn invalid_melee_indices(w: WorldState, actions: Seq<GameAction>, upto: int) -> Seq<
    usize,
>
    decreases upto,
{
    if upto <= 0 {
        Seq::empty()
    } else {
        let rest = invalid_melee_indices(w, actions, upto - 1);
        match actions[upto - 1] {
            GameAction::MeleeHit(m) => if melee_invalid(w, m) {
                rest.push((upto - 1) as usize)
            } else {
                rest
            },
            _ => rest,
        }
    }
}

/// Fields the trimming passes leave alone.
pub open spec fn trim_frame(w0: WorldState, w1: WorldState) -> bool {
    &&& w1.board == w0.board
    &&& w1.actors == w0.actors
    &&& w1.pending_actions == w0.pending_actions
    &&& w1.possible_actions == w0.possible_actions
    &&& w1.current_actor == w0.current_actor
    &&& w1.step == w0.step
    &&& w1.turn == w0.turn
    &&& w1.player_dead == w0.player_dead
}

impl WalkAction {
    /// Flag every walk candidate whose destination is not plain floor or is
    /// occupied: exactly those, and nothing else, join the removal list.
    pub fn trim_moves_into_abyss(world: &mut WorldState)
        requires
            old(world).wf(),
        ensures
            final(world).wf(),
            trim_frame(*old(world), *final(world)),
            final(world).actions_to_remove.0@ == old(world).actions_to_remove.0@
                + invalid_walk_indices(
                *old(world),
                old(world).possible_actions.0@,
                old(world).possible_actions.0@.len() as int,
            ),
    {
        let n = world.possible_actions.0.len();
        let mut i: usize = 0;
        while i < n
            invariant
                world.wf(),
                n == world.possible_actions.0@.len(),
                i <= n,
                world.board == old(world).board,
                world.actors == old(world).actors,
                world.pending_actions == old(world).pending_actions,
                world.possible_actions == old(world).possible_actions,
                world.current_actor == old(world).current_actor,
                world.step == old(world).step,
                world.turn == old(world).turn,
                world.player_dead == old(world).player_dead,
                world.actions_to_remove.0@ == old(world).actions_to_remove.0@
                    + invalid_walk_indices(*old(world), world.possible_actions.0@, i as int),
            decreases n - i,
        {
            let invalid = match &world.possible_actions.0[i] {
                GameAction::Walk(wa) => {
                    let mut ok = false;
                    match world.board.tiles.get(wa.1) {
                        Some(t) => match t {
                            TileType::BaseFloor => {
                                ok = true;
                            },
                            _ => {},
                        },
                        None => {},
                    }
                    if any_occupier_at(&world.actors, wa.1) {
                        ok = false;
                    }
                    !ok
                },
                _ => false,
            };
            if invalid {
                world.actions_to_remove.0.push(i);
            }
            i += 1;
        }
    }
}

impl MeleeHitAction {
    /// Flag every melee candidate with no opposing, health-bearing actor on
    /// its target cell: exactly those, and nothing else, join the removal
    /// list.
    pub fn trim_attacks_without_enemies(world: &mut WorldState)
        requires
            old(world).wf(),
        ensures
            final(world).wf(),
            trim_frame(*old(world), *final(world)),
            final(world).actions_to_remove.0@ == old(world).actions_to_remove.0@
                + invalid_melee_indices(
                *old(world),
                old(world).possible_actions.0@,
                old(world).possible_actions.0@.len() as int,
            ),
    {
        let n = world.possible_actions.0.len();
        let mut i: usize = 0;
        while i < n
            invariant
                world.wf(),
                n == world.possible_actions.0@.len(),
                i <= n,
                world.board == old(world).board,
                world.actors == old(world).actors,
                world.pending_actions == old(world).pending_actions,
                world.possible_actions == old(world).possible_actions,
                world.current_actor == old(world).current_actor,
                world.step == old(world).step,
                world.turn == old(world).turn,
                world.player_dead == old(world).player_dead,
                world.actions_to_remove.0@ == old(world).actions_to_remove.0@
                    + invalid_melee_indices(*old(world), world.possible_actions.0@, i as int),
            decreases n - i,
        {
            let invalid = match &world.possible_actions.0[i] {
                GameAction::MeleeHit(m) => !any_melee_target(
                    &world.actors,
                    m.attacker_type,
                    m.target,
                ),
                _ => false,
            };
            if invalid {
                world.actions_to_remove.0.push(i);
            }
            i += 1;
        }
    }
}

/// Whether any opposing, health-bearing actor occupies the cell.
fn any_melee_target(actors: &Vec<crate::states::Actor>, attacker_type: Piece, pos: Vector2Int) -> (r:
    bool)
    ensures
        r == exists|i: int|
            0 <= i < actors@.len() && is_melee_target(#[trigger] actors@[i], attacker_type, pos),
{
    let n = actors.len();
    let mut i: usize = 0;
    while i < n
        invariant
            n == actors@.len(),
            i <= n,
            forall|j: int|
                0 <= j < i ==> !is_melee_target(#[trigger] actors@[j], attacker_type, pos),
        decreases n - i,
    {
        let a = actors[i];
        let hit = match (a.health, a.piece) {
            (Some(_), Some(p)) => a.pos.0 == pos && !piece_eq(p, attacker_type),
            _ => false,
        };
        if hit {
            return true;
        }
        i += 1;
    }
    false
}

fn execute_damage(d: &DamageAction, world: &mut WorldState) -> (r: bool)
    requires
        old(world).wf(),
    ensures
        final(world).wf(),
        exec_post(
            *old(world),
            old(world).pending_actions.0@,
            GameAction::Damage(*d),
            *final(world),
            r,
        ),
{
    if d.0 >= world.actors.len() {
        return false;
    }
    let mut actor = world.actors[d.0];
    let h = match actor.health {
        Some(h) => h,
        None => {
            return false;
        },
    };
    if h.value <= d.1 {
        actor.health = None;
        actor.piece = None;
        actor.occupier = false;
        if actor.player_control {
            world.player_dead = true;
        }
    } else {
        actor.health = Some(crate::board::Health { value: h.value - d.1 });
    }
    world.actors.set(d.0, actor);
    true
}

/// With exactly one qualifying victim, a melee scan queues exactly one
/// damage action, aimed at it.
proof fn lemma_damage_actions_single(
    actors: Seq<crate::states::Actor>,
    attacker_type: Piece,
    pos: Vector2Int,
    dmg: u32,
    t: int,
    upto: int,
)
    requires
        0 <= t < actors.len(),
        is_melee_target(actors[t], attacker_type, pos),
        forall|i: int|
            0 <= i < actors.len() && i != t ==> !is_melee_target(
                #[trigger] actors[i],
                attacker_type,
                pos,
            ),
        0 <= upto <= actors.len(),
    ensures
        damage_actions_for(actors, attacker_type, pos, dmg, upto) == if upto <= t {
            Seq::<GameAction>::empty()
        } else {
            seq![GameAction::Damage(DamageAction(t as usize, dmg))]
        },
    decreases upto,
{
    if upto > 0 {
        lemma_damage_actions_single(actors, attacker_type, pos, dmg, t, upto - 1);
        if upto - 1 == t {
            assert(damage_actions_for(actors, attacker_type, pos, dmg, upto) =~= seq![
                GameAction::Damage(DamageAction(t as usize, dmg)),
            ]);
        }
    }
}

/// Melee cascade: striking a cell held by exactly one opposing actor whose
/// health equals the damage queues exactly one damage action against it, and
/// resolving that action strips the victim's combat attributes — health,
/// faction tag and occupancy. The `exec_post` hypotheses are the executes'
/// own contracts.
pub proof fn lemma_melee_cascade(
    w0: WorldState,
    p0: Seq<GameAction>,
    m: MeleeHitAction,
    w1: WorldState,
    r1: bool,
    p1: Seq<GameAction>,
    w2: WorldState,
    r2: bool,
    t: usize,
)
    requires
        t < w0.actors@.len(),
        is_melee_target(w0.actors@[t as int], m.attacker_type, m.target),
        forall|i: int|
            0 <= i < w0.actors@.len() && i != t ==> !is_melee_target(
                #[trigger] w0.actors@[i],
                m.attacker_type,
                m.target,
            ),
        w0.actors@[t as int].health == Some(crate::board::Health { value: m.damage }),
        m.attacker < w0.actors@.len(),
        manhattan_s(w0.actors@[m.attacker as int].pos.0, m.target) <= 1,
        exec_post(w0, p0, GameAction::MeleeHit(m), w1, r1),
        exec_post(w1, p1, GameAction::Damage(DamageAction(t, m.damage)), w2, r2),
    ensures
        r1,
        w1.pending_actions.0@ == p0.push(GameAction::Damage(DamageAction(t, m.damage))),
        r2,
        w2.actors@[t as int].health is None,
        w2.actors@[t as int].piece is None,
        !w2.actors@[t as int].occupier,
{
    assert(melee_ok(w0, m));
    lemma_damage_actions_single(
        w0.actors@,
        m.attacker_type,
        m.target,
        m.damage,
        t as int,
        w0.actors@.len() as int,
    );
    assert(w1.pending_actions.0@ =~= p0.push(GameAction::Damage(DamageAction(t, m.damage))));
    assert(w1.actors@[t as int].health is Some);
    assert(w2.actors@[t as int] == damaged_actor(w1.actors@[t as int], m.damage));
}

} // verus!
