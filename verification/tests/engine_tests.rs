use dungeon_core::actions::{
    ActionType, DamageAction, GameAction, InputAction, MeleeHitAction, WalkAction,
};
use dungeon_core::board::{CurrentBoard, Piece, TileType};
use dungeon_core::dungeon::{Area, Dungeon, Tunneler};
use dungeon_core::generator::create_map;
use dungeon_core::states::{
    ai_select_action, execute_pending_action, find_actor, get_next_actor, prepare_action_list,
    remove_moves, select_action, set_current_actor, spawn_points, GameTurnSteps, WorldState,
};
use dungeon_core::vectors::Vector2Int;

/// An open floor rectangle with a player at `player` and enemies elsewhere.
fn world_with(
    w: i32,
    h: i32,
    player: Vector2Int,
    enemies: &[Vector2Int],
) -> WorldState {
    let mut board = CurrentBoard::new_empty();
    for x in 0..w {
        for y in 0..h {
            board.tiles.insert(Vector2Int::new(x, y), TileType::BaseFloor);
        }
    }
    board.spawn_points.insert(player, Piece::Player);
    for e in enemies {
        board.spawn_points.insert(*e, Piece::Enemy);
    }
    let mut world = WorldState::new(board);
    spawn_points(&mut world);
    world
}

fn player_idx(world: &WorldState) -> usize {
    (0..world.actors.len()).find(|i| world.actors[*i].player_control).unwrap()
}

#[test]
fn spawned_actors_carry_their_attributes() {
    let world = world_with(3, 3, Vector2Int::new(0, 0), &[Vector2Int::new(2, 2)]);
    assert_eq!(world.actors.len(), 2);
    let p = player_idx(&world);
    let e = 1 - p;
    assert_eq!(world.actors[p].health.unwrap().value, 3);
    assert_eq!(world.actors[p].turn.0, 0);
    assert!(world.actors[p].ai.is_none());
    assert_eq!(world.actors[e].health.unwrap().value, 1);
    assert_eq!(world.actors[e].turn.0, 1);
    assert_eq!(world.actors[e].ai.unwrap().max_distance_to_player, 5);
    assert_eq!(world.actors[e].melee.unwrap().damage, 1);
}

#[test]
fn find_actor_enters_selection_once_actors_exist() {
    let mut world = world_with(3, 3, Vector2Int::new(0, 0), &[]);
    assert_eq!(world.step, GameTurnSteps::SearchForAgents);
    find_actor(&mut world);
    assert_eq!(world.step, GameTurnSteps::ActionSelection);
}

#[test]
fn scheduler_picks_lowest_delay_within_range() {
    let mut world = world_with(
        8, 8,
        Vector2Int::new(0, 0),
        &[Vector2Int::new(1, 1), Vector2Int::new(7, 7)],
    );
    // the player holds delay 0, both enemies delay 1; the far enemy is out
    // of the five-step radius and never qualifies
    let first = get_next_actor(&mut world).unwrap();
    assert!(world.actors[first].player_control);
    // give the player a worse delay: the nearby enemy goes next
    let p = player_idx(&world);
    world.actors[p].turn.0 = 10;
    let second = get_next_actor(&mut world).unwrap();
    assert!(!world.actors[second].player_control);
    assert_eq!(world.actors[second].pos.0, Vector2Int::new(1, 1));
}

#[test]
fn activation_sets_marker_and_delay() {
    let mut world = world_with(3, 3, Vector2Int::new(0, 0), &[]);
    set_current_actor(&mut world);
    let p = player_idx(&world);
    assert_eq!(world.current_actor, Some(p));
    assert_eq!(world.actors[p].turn.0, 1);
    assert_eq!(world.turn, 1);
}

#[test]
fn candidate_list_holds_walks_and_melee_per_direction() {
    let mut world = world_with(3, 3, Vector2Int::new(1, 1), &[]);
    set_current_actor(&mut world);
    prepare_action_list(&mut world);
    assert_eq!(world.possible_actions.0.len(), 8);
    let walks = world
        .possible_actions
        .0
        .iter()
        .filter(|a| a.action_type() == ActionType::Walk)
        .count();
    assert_eq!(walks, 4);
}

// Walk trimming: on a 3x3 open floor with one occupied neighbour, exactly
// the walk aimed at the occupied cell is removed (melee hits against the
// occupier survive trimming).
#[test]
fn trimming_removes_exactly_the_blocked_walk() {
    let mut world = world_with(3, 3, Vector2Int::new(1, 1), &[Vector2Int::new(1, 2)]);
    set_current_actor(&mut world);
    prepare_action_list(&mut world);
    assert_eq!(world.possible_actions.0.len(), 8);
    dungeon_core::actions::WalkAction::trim_moves_into_abyss(&mut world);
    dungeon_core::actions::MeleeHitAction::trim_attacks_without_enemies(&mut world);
    remove_moves(&mut world);
    // of 4 walks one is blocked; of 4 melee hits only the occupied cell has
    // a victim
    let kept_walk_targets: Vec<Vector2Int> = world
        .possible_actions
        .0
        .iter()
        .filter(|a| a.action_type() == ActionType::Walk)
        .map(|a| a.target_pos().unwrap())
        .collect();
    assert_eq!(kept_walk_targets.len(), 3);
    assert!(!kept_walk_targets.contains(&Vector2Int::new(1, 2)));
    let kept_melee_targets: Vec<Vector2Int> = world
        .possible_actions
        .0
        .iter()
        .filter(|a| a.action_type() == ActionType::MeleeeHit)
        .map(|a| a.target_pos().unwrap())
        .collect();
    assert_eq!(kept_melee_targets, vec![Vector2Int::new(1, 2)]);
}

#[test]
fn walk_execute_moves_actor_or_fails() {
    let mut world = world_with(3, 1, Vector2Int::new(0, 0), &[Vector2Int::new(2, 0)]);
    let p = player_idx(&world);
    // into the open: fine
    let ok = GameAction::Walk(WalkAction(p, Vector2Int::new(1, 0), InputAction::Left))
        .execute(&mut world);
    assert!(ok);
    assert_eq!(world.actors[p].pos.0, Vector2Int::new(1, 0));
    // into the occupier: refused, position unchanged
    let blocked = GameAction::Walk(WalkAction(p, Vector2Int::new(2, 0), InputAction::Left))
        .execute(&mut world);
    assert!(!blocked);
    assert_eq!(world.actors[p].pos.0, Vector2Int::new(1, 0));
    // off the grid: refused
    let off = GameAction::Walk(WalkAction(p, Vector2Int::new(1, 5), InputAction::Up))
        .execute(&mut world);
    assert!(!off);
}

// Melee cascade: one opposing actor with health equal to the damage takes
// exactly one queued damage action; draining it strips its combat
// attributes.
#[test]
fn melee_cascade_strips_the_victim() {
    let mut world = world_with(3, 1, Vector2Int::new(0, 0), &[Vector2Int::new(1, 0)]);
    let p = player_idx(&world);
    let e = 1 - p;
    assert_eq!(world.actors[e].health.unwrap().value, 1);
    let hit = GameAction::MeleeHit(MeleeHitAction {
        attacker: p,
        attacker_type: Piece::Player,
        target: Vector2Int::new(1, 0),
        damage: 1,
        key: Some(InputAction::Left),
    });
    assert!(hit.execute(&mut world));
    assert_eq!(world.pending_actions.0.len(), 1);
    match world.pending_actions.0[0] {
        GameAction::Damage(DamageAction(t, d)) => {
            assert_eq!(t, e);
            assert_eq!(d, 1);
        },
        _ => panic!("expected a damage action"),
    }
    let res = execute_pending_action(&mut world);
    assert_eq!(res, Some(true));
    assert!(world.actors[e].health.is_none());
    assert!(world.actors[e].piece.is_none());
    assert!(!world.actors[e].occupier);
    assert!(!world.player_dead);
}

#[test]
fn melee_out_of_range_or_without_victim_fails() {
    let mut world = world_with(4, 1, Vector2Int::new(0, 0), &[Vector2Int::new(3, 0)]);
    let p = player_idx(&world);
    let far = GameAction::MeleeHit(MeleeHitAction {
        attacker: p,
        attacker_type: Piece::Player,
        target: Vector2Int::new(3, 0),
        damage: 1,
        key: None,
    });
    assert!(!far.execute(&mut world));
    let empty_cell = GameAction::MeleeHit(MeleeHitAction {
        attacker: p,
        attacker_type: Piece::Player,
        target: Vector2Int::new(1, 0),
        damage: 1,
        key: None,
    });
    assert!(!empty_cell.execute(&mut world));
    assert!(world.pending_actions.0.is_empty());
}

#[test]
fn damage_saturates_and_marks_player_death() {
    let mut world = world_with(3, 1, Vector2Int::new(0, 0), &[]);
    let p = player_idx(&world);
    assert!(GameAction::Damage(DamageAction(p, 2)).execute(&mut world));
    assert_eq!(world.actors[p].health.unwrap().value, 1);
    assert!(!world.player_dead);
    assert!(GameAction::Damage(DamageAction(p, 5)).execute(&mut world));
    assert!(world.actors[p].health.is_none());
    assert!(world.player_dead);
    // a second damage against the stripped actor reports failure
    assert!(!GameAction::Damage(DamageAction(p, 1)).execute(&mut world));
}

#[test]
fn selection_takes_the_last_matching_binding() {
    let mut world = world_with(3, 3, Vector2Int::new(1, 1), &[Vector2Int::new(1, 2)]);
    set_current_actor(&mut world);
    prepare_action_list(&mut world);
    // Up binds both a walk and a melee hit; the melee hit stands later
    select_action(&mut world, InputAction::Up);
    assert_eq!(world.step, GameTurnSteps::PerformAction);
    assert_eq!(world.pending_actions.0.len(), 1);
    assert_eq!(world.pending_actions.0[0].action_type(), ActionType::MeleeeHit);
    assert_eq!(world.possible_actions.0.len(), 7);
}

#[test]
fn ai_prefers_melee_over_walking() {
    let mut world = world_with(3, 1, Vector2Int::new(0, 0), &[Vector2Int::new(1, 0)]);
    let p = player_idx(&world);
    let e = 1 - p;
    world.current_actor = Some(e);
    prepare_action_list(&mut world);
    dungeon_core::actions::WalkAction::trim_moves_into_abyss(&mut world);
    dungeon_core::actions::MeleeHitAction::trim_attacks_without_enemies(&mut world);
    remove_moves(&mut world);
    ai_select_action(&mut world);
    assert_eq!(world.step, GameTurnSteps::PerformAction);
    assert_eq!(world.pending_actions.0.len(), 1);
    assert_eq!(world.pending_actions.0[0].action_type(), ActionType::MeleeeHit);
}

#[test]
fn ai_walks_along_the_route_to_the_player() {
    let mut world = world_with(5, 1, Vector2Int::new(0, 0), &[Vector2Int::new(3, 0)]);
    let p = player_idx(&world);
    let e = 1 - p;
    world.current_actor = Some(e);
    prepare_action_list(&mut world);
    dungeon_core::actions::WalkAction::trim_moves_into_abyss(&mut world);
    dungeon_core::actions::MeleeHitAction::trim_attacks_without_enemies(&mut world);
    remove_moves(&mut world);
    ai_select_action(&mut world);
    assert_eq!(world.pending_actions.0.len(), 1);
    let queued = world.pending_actions.0[0];
    assert_eq!(queued.action_type(), ActionType::Walk);
    assert_eq!(queued.target_pos().unwrap(), Vector2Int::new(2, 0));
}

#[test]
fn smallest_level_still_generates() {
    // one area at the grid origin: the first room spans (0,0)..(4,6) and the
    // second (10,2)..(14,8)
    let board = create_map(1, 1);
    assert!(board.tiles.entry_count() > 0);
    let mut players = 0;
    for i in 0..board.spawn_points.entry_count() {
        let k = board.spawn_points.key_at(i);
        match board.spawn_points.val_at(i) {
            Piece::Player => {
                players += 1;
                assert!(0 < k.x && k.x < 4 && 0 < k.y && k.y < 6);
            },
            Piece::Enemy => {
                assert!(10 < k.x && k.x < 14 && 2 < k.y && k.y < 8);
            },
        }
    }
    assert_eq!(players, 1);
    // pits sink only into the second room's interior
    for i in 0..board.tiles.entry_count() {
        if *board.tiles.val_at(i) == TileType::Pit {
            let k = board.tiles.key_at(i);
            assert!(10 < k.x && k.x < 14 && 2 < k.y && k.y < 8);
        }
    }
}

#[test]
fn selection_without_match_changes_nothing() {
    let mut world = world_with(3, 3, Vector2Int::new(1, 1), &[]);
    find_actor(&mut world);
    set_current_actor(&mut world);
    prepare_action_list(&mut world);
    let before = world.possible_actions.0.len();
    select_action(&mut world, InputAction::Space);
    assert_eq!(world.step, GameTurnSteps::ActionSelection);
    assert_eq!(world.possible_actions.0.len(), before);
    assert!(world.pending_actions.0.is_empty());
}

#[test]
fn duplicated_player_stalls_the_scheduler() {
    let mut world = world_with(3, 3, Vector2Int::new(0, 0), &[Vector2Int::new(2, 2)]);
    let p = player_idx(&world);
    let e = 1 - p;
    world.actors[e].player_control = true;
    assert!(get_next_actor(&mut world).is_none());
}

#[test]
fn empty_queue_returns_to_selection() {
    let mut world = world_with(2, 1, Vector2Int::new(0, 0), &[]);
    world.step = GameTurnSteps::PerformAction;
    let r = execute_pending_action(&mut world);
    assert!(r.is_none());
    assert_eq!(world.step, GameTurnSteps::ActionSelection);
}

#[test]
fn generated_level_has_one_player_spawn_on_a_tile() {
    let board = create_map(6, 3);
    let mut players = 0;
    let mut enemies = 0;
    for i in 0..board.spawn_points.entry_count() {
        let k = board.spawn_points.key_at(i);
        assert!(board.get(k.x, k.y).is_some());
        match board.spawn_points.val_at(i) {
            Piece::Player => players += 1,
            Piece::Enemy => enemies += 1,
        }
    }
    assert_eq!(players, 1);
    assert!(enemies >= 1);
    // every tile is floor or pit, at non-negative coordinates, and every
    // spawn sits on plain floor
    for i in 0..board.tiles.entry_count() {
        let k = board.tiles.key_at(i);
        assert!(k.x >= 0 && k.y >= 0);
        assert_ne!(*board.tiles.val_at(i), TileType::Void);
    }
    for i in 0..board.spawn_points.entry_count() {
        let k = board.spawn_points.key_at(i);
        assert_eq!(board.get(k.x, k.y).copied(), Some(TileType::BaseFloor));
    }
}

// End-to-end: a one-row dungeon of one area — two fixed rooms joined by an
// L-shaped corridor — a player in the first room and two enemies in the
// second; the player walks one step and nothing is left pending.
#[test]
fn one_area_walk_scenario() {
    let mut dungeon = Dungeon::new(1);
    dungeon.add_area(Area::new(Tunneler::LShape));
    dungeon.generate();
    let mut board = CurrentBoard::new_empty();
    for c in dungeon.to_tiles() {
        board.tiles.insert(c, TileType::BaseFloor);
    }
    let player = Vector2Int::new(
        dungeon.areas[0].rooms[0].a.x + 1,
        dungeon.areas[0].rooms[0].a.y + 1,
    );
    let enemy1 = Vector2Int::new(
        dungeon.areas[0].rooms[1].a.x + 1,
        dungeon.areas[0].rooms[1].a.y + 1,
    );
    let enemy2 = Vector2Int::new(
        dungeon.areas[0].rooms[1].a.x + 2,
        dungeon.areas[0].rooms[1].a.y + 1,
    );
    board.spawn_points.insert(player, Piece::Player);
    board.spawn_points.insert(enemy1, Piece::Enemy);
    board.spawn_points.insert(enemy2, Piece::Enemy);
    let mut world = WorldState::new(board);
    spawn_points(&mut world);
    find_actor(&mut world);
    assert_eq!(world.step, GameTurnSteps::ActionSelection);
    set_current_actor(&mut world);
    let p = player_idx(&world);
    assert_eq!(world.current_actor, Some(p));
    prepare_action_list(&mut world);
    dungeon_core::actions::WalkAction::trim_moves_into_abyss(&mut world);
    dungeon_core::actions::MeleeHitAction::trim_attacks_without_enemies(&mut world);
    remove_moves(&mut world);
    // the cell above the player is open interior floor: walk onto it
    select_action(&mut world, InputAction::Up);
    assert_eq!(world.step, GameTurnSteps::PerformAction);
    let before = world.actors[p].pos.0;
    let r = execute_pending_action(&mut world);
    assert_eq!(r, Some(true));
    let after = world.actors[p].pos.0;
    assert_eq!(after.x - before.x, 0);
    assert_eq!(after.y - before.y, 1);
    assert!(world.pending_actions.0.is_empty());
}
