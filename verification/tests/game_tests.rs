use hex_tactics::combat::{apply_enemy_attacks, find_kills, in_blast, resolve_combat, tick_bombs, within};
use hex_tactics::components::{AttackPattern, BombFuse, EnemyKind, EntityId, HexPosition, Stats};
use hex_tactics::enemy::bomber::{compute_action, new_bomb, BomberAction};
use hex_tactics::enemy::warlock::warlock_spawn_hexes;
use hex_tactics::enemy::{
    act_enemy, enemy_profile, next_enemy, pathfind_and_step, plan_spawns, random_passable_neighbor, random_step,
    sorted_by_distance, spawn_candidates, step_along, EnemyOutcome, EnemyState, EnemyTurnQueue,
};
use hex_tactics::grid::{place_entity, TileData};
use hex_tactics::hex::Hex;
use hex_tactics::hex_grid::HexGrid;
use hex_tactics::level::{Level, LevelConfig};
use hex_tactics::player::{choose_player_start, handle_player_move, player_stats, start_candidates};
use hex_tactics::tiles::{build_tiles, choose_walls};
use hex_tactics::turn::{check_animation_done, CombatPhase, GameSettings, PendingKills, Turn, TurnPhase, TurnState};
use hex_tactics::undo::{occupants, TurnMoveOrder, UndoHistory};
use hex_tactics::util::hex_channels;

fn full_grid(radius: i32) -> HexGrid<TileData> {
    let mut grid = HexGrid::new(radius);
    for pos in grid.positions() {
        grid.insert(pos, TileData::default());
    }
    grid
}

fn enemy(entity: u64, kind: EnemyKind) -> EnemyState {
    let (stats, pattern) = enemy_profile(kind);
    EnemyState { entity: EntityId(entity), stats, kind, pattern, skip: false, has_bomb: false }
}

#[test]
fn default_campaign_and_advance() {
    let mut config = LevelConfig::default();
    assert_eq!(config.levels.len(), 5);
    assert_eq!(
        *config.current_level(),
        Level { grunts: 2, archers: 0, warlocks: 0, bombers: 0, walls: 5, grid_radius: 4 }
    );
    for _ in 0..4 {
        assert!(config.advance());
    }
    assert_eq!(config.current, 4);
    assert_eq!(config.current_level().grunts, 4);
    assert_eq!(config.current_level().grid_radius, 5);
    assert!(!config.advance());
    assert_eq!(config.current, 4);
}

#[test]
fn spawn_plan_fills_kinds_in_order() {
    let level = Level { grunts: 3, archers: 1, warlocks: 1, bombers: 1, walls: 12, grid_radius: 5 };
    let cands: Vec<Hex> = (0..10).map(|i| Hex::axial(i, 0)).collect();
    let plan = plan_spawns(&level, &cands);
    let kinds: Vec<EnemyKind> = plan.iter().map(|p| p.0).collect();
    assert_eq!(
        kinds,
        vec![EnemyKind::Melee, EnemyKind::Melee, EnemyKind::Melee, EnemyKind::Archer, EnemyKind::Warlock, EnemyKind::Bomber]
    );
    for (i, p) in plan.iter().enumerate() {
        assert_eq!(p.1, cands[i]);
    }
    let few = plan_spawns(&level, &cands[..4].to_vec());
    let kinds: Vec<EnemyKind> = few.iter().map(|p| p.0).collect();
    assert_eq!(kinds, vec![EnemyKind::Melee, EnemyKind::Melee, EnemyKind::Melee, EnemyKind::Archer]);
}

#[test]
fn enemy_profiles() {
    assert_eq!(enemy_profile(EnemyKind::Melee), (Stats { move_range: 1, attack_range: 1 }, None));
    assert_eq!(
        enemy_profile(EnemyKind::Archer),
        (Stats { move_range: 1, attack_range: 4 }, Some(AttackPattern::DiagonalRanged { min_range: 2, max_range: 4 }))
    );
    assert_eq!(
        enemy_profile(EnemyKind::Warlock),
        (Stats { move_range: 1, attack_range: 5 }, Some(AttackPattern::AllDirectionsRanged { min_range: 2, max_range: 5 }))
    );
    assert_eq!(enemy_profile(EnemyKind::Bomber), (Stats { move_range: 1, attack_range: 0 }, None));
}

#[test]
fn spawn_candidates_are_far_and_passable() {
    let mut grid = full_grid(4);
    grid.get_mut(Hex::axial(4, 0)).unwrap().traversable = false;
    grid.get_mut(Hex::axial(-4, 0)).unwrap().occupant = Some(EntityId(1));
    let mut cands = spawn_candidates(&grid, Hex::origin());
    let mut expected: Vec<Hex> = Hex::origin()
        .ring(4)
        .into_iter()
        .filter(|&h| h != Hex::axial(4, 0) && h != Hex::axial(-4, 0))
        .collect();
    cands.sort_by_key(|h| (h.q, h.r));
    expected.sort_by_key(|h| (h.q, h.r));
    assert_eq!(cands, expected);
}

#[test]
fn next_enemy_takes_queue_from_the_back() {
    let alive = vec![EntityId(1), EntityId(2)];
    let mut turn = TurnState::Active(Turn::Enemy);
    let mut queue = EnemyTurnQueue::default();
    assert_eq!(next_enemy(&mut turn, &mut queue, false, &alive, true), Some(EntityId(2)));
    assert_eq!(queue.0, vec![EntityId(1)]);
    assert_eq!(next_enemy(&mut turn, &mut queue, true, &alive, true), None);
    assert_eq!(next_enemy(&mut turn, &mut queue, false, &alive, true), Some(EntityId(1)));
    assert!(queue.0.is_empty());
    assert_eq!(turn, TurnState::Active(Turn::Enemy));

    let mut none_left = TurnState::Active(Turn::Enemy);
    assert_eq!(next_enemy(&mut none_left, &mut EnemyTurnQueue::default(), false, &vec![], true), None);
    assert_eq!(none_left, TurnState::Active(Turn::Player));

    let mut no_player = TurnState::Active(Turn::Enemy);
    assert_eq!(next_enemy(&mut no_player, &mut EnemyTurnQueue::default(), false, &alive, false), None);
    assert_eq!(no_player, TurnState::Active(Turn::Player));

    let mut players_turn = TurnState::Active(Turn::Player);
    assert_eq!(next_enemy(&mut players_turn, &mut EnemyTurnQueue::default(), false, &alive, true), None);
}

#[test]
fn melee_enemy_steps_toward_player() {
    let mut grid = full_grid(4);
    let player = EntityId(100);
    place_entity(&mut grid, Hex::origin(), player, &player_stats(), None);
    let grunt = enemy(1, EnemyKind::Melee);
    place_entity(&mut grid, Hex::axial(3, 0), grunt.entity, &grunt.stats, None);
    let mut pos = HexPosition(Hex::axial(3, 0));
    let mut turn = TurnState::Active(Turn::Enemy);
    let mut order = TurnMoveOrder(vec![player]);
    let out = act_enemy(&mut grid, &mut turn, true, &mut order, &grunt, &mut pos, Hex::origin());
    match out {
        EnemyOutcome::Moved(path) => assert_eq!(path, vec![Hex::axial(3, 0), Hex::axial(2, 0)]),
        _ => panic!("the grunt should move"),
    }
    assert_eq!(pos, HexPosition(Hex::axial(2, 0)));
    assert_eq!(grid.get(Hex::axial(2, 0)).unwrap().occupant, Some(grunt.entity));
    assert_eq!(grid.get(Hex::axial(3, 0)).unwrap().occupant, None);
    assert!(grid.get(Hex::axial(1, 0)).unwrap().attack_ranges.contains(&grunt.entity));
    assert_eq!(order.0, vec![player, grunt.entity]);
    assert_eq!(turn, TurnState::Animating { next: TurnPhase::Turn(Turn::Player) });
    assert_eq!(occupants(&grid), vec![player, grunt.entity]);
}

#[test]
fn enemy_that_attacked_skips() {
    let mut grid = full_grid(2);
    let mut grunt = enemy(1, EnemyKind::Melee);
    grunt.skip = true;
    let mut pos = HexPosition(Hex::axial(2, 0));
    let mut turn = TurnState::Active(Turn::Enemy);
    let mut order = TurnMoveOrder::default();
    let out = act_enemy(&mut grid, &mut turn, false, &mut order, &grunt, &mut pos, Hex::origin());
    assert!(matches!(out, EnemyOutcome::Skipped));
    assert_eq!(turn, TurnState::Active(Turn::Enemy));
    let out = act_enemy(&mut grid, &mut turn, true, &mut order, &grunt, &mut pos, Hex::origin());
    assert!(matches!(out, EnemyOutcome::Skipped));
    assert_eq!(turn, TurnState::Active(Turn::Player));
    assert_eq!(pos, HexPosition(Hex::axial(2, 0)));
}

#[test]
fn bomber_throws_next_to_player() {
    let mut grid = full_grid(4);
    let bomber = enemy(5, EnemyKind::Bomber);
    place_entity(&mut grid, Hex::axial(2, 0), bomber.entity, &bomber.stats, None);
    match compute_action(&grid, Hex::axial(2, 0), Hex::origin(), &bomber.stats) {
        BomberAction::ThrowBomb { target_hex } => assert_eq!(target_hex, Hex::axial(1, -1)),
        BomberAction::Move(..) => panic!("the bomber should throw"),
    }
    let mut pos = HexPosition(Hex::axial(2, 0));
    let mut turn = TurnState::Active(Turn::Enemy);
    let mut order = TurnMoveOrder::default();
    let out = act_enemy(&mut grid, &mut turn, true, &mut order, &bomber, &mut pos, Hex::origin());
    match out {
        EnemyOutcome::Threw(t) => assert_eq!(t, Hex::axial(1, -1)),
        _ => panic!("the bomber should throw"),
    }
    assert!(order.0.is_empty());
    assert_eq!(turn, TurnState::Animating { next: TurnPhase::Turn(Turn::Player) });

    let mut with_bomb = bomber;
    with_bomb.has_bomb = true;
    let mut turn = TurnState::Active(Turn::Enemy);
    let out = act_enemy(&mut grid, &mut turn, false, &mut order, &with_bomb, &mut pos, Hex::origin());
    match out {
        EnemyOutcome::Moved(path) => assert_eq!(path, vec![Hex::axial(2, 0), Hex::axial(1, 0)]),
        _ => panic!("a bomber whose bomb is out closes in"),
    }
    let b = new_bomb(bomber.entity);
    assert_eq!(b, BombFuse { owner: EntityId(5), turns_remaining: 2, blast_radius: 1 });
}

#[test]
fn archer_on_its_line_stays() {
    let mut grid = full_grid(4);
    let archer = enemy(2, EnemyKind::Archer);
    place_entity(&mut grid, Hex::axial(2, -2), archer.entity, &archer.stats, archer.pattern.as_ref());
    let mut pos = HexPosition(Hex::axial(2, -2));
    let mut turn = TurnState::Active(Turn::Enemy);
    let mut order = TurnMoveOrder::default();
    let out = act_enemy(&mut grid, &mut turn, true, &mut order, &archer, &mut pos, Hex::origin());
    assert!(matches!(out, EnemyOutcome::Stayed));
    assert_eq!(turn, TurnState::Active(Turn::Player));
    assert_eq!(pos, HexPosition(Hex::axial(2, -2)));
}

#[test]
fn warlock_moves_toward_a_line() {
    let mut grid = full_grid(4);
    let warlock = enemy(3, EnemyKind::Warlock);
    // (3, -1) is on no line of the player at the origin; the nearest line hexes are
    // (3, 0) and (3, -3)... at distance 1 there is (2, -1)? not on a line either.
    place_entity(&mut grid, Hex::axial(3, -1), warlock.entity, &warlock.stats, warlock.pattern.as_ref());
    let mut pos = HexPosition(Hex::axial(3, -1));
    let mut turn = TurnState::Active(Turn::Enemy);
    let mut order = TurnMoveOrder::default();
    let out = act_enemy(&mut grid, &mut turn, true, &mut order, &warlock, &mut pos, Hex::origin());
    match out {
        EnemyOutcome::Moved(path) => {
            assert_eq!(path.len(), 2);
            let dest = path[1];
            assert_eq!(Hex::axial(3, -1).distance(dest), 1);
            let lines = Hex::origin().all_directions_attack_hexes(2, 4);
            assert!(lines.contains(&dest));
        }
        _ => panic!("the warlock should move onto a line"),
    }
}

#[test]
fn chase_stops_before_occupied_tile() {
    let mut grid = full_grid(3);
    grid.get_mut(Hex::axial(1, 0)).unwrap().occupant = Some(EntityId(9));
    let path = Some(vec![Hex::axial(3, 0), Hex::axial(2, 0), Hex::axial(1, 0), Hex::origin()]);
    let (dest, walked) = step_along(&grid, Hex::axial(3, 0), &path, -1);
    assert_eq!(dest, Hex::axial(2, 0));
    assert_eq!(walked, vec![Hex::axial(3, 0), Hex::axial(2, 0)]);
    let (dest, walked) = step_along(&grid, Hex::axial(3, 0), &None, 2);
    assert_eq!(dest, Hex::axial(3, 0));
    assert_eq!(walked, vec![Hex::axial(3, 0)]);
    let (dest, walked) = pathfind_and_step(&grid, Hex::axial(-3, 0), Hex::origin(), 2);
    assert_eq!(dest, Hex::axial(-1, 0));
    assert_eq!(walked, vec![Hex::axial(-3, 0), Hex::axial(-2, 0), Hex::axial(-1, 0)]);
}

#[test]
fn random_neighbor_when_only_one_is_free() {
    let mut grid = full_grid(2);
    for n in Hex::origin().neighbors() {
        if n != Hex::axial(0, 1) {
            grid.get_mut(n).unwrap().traversable = false;
        }
    }
    assert_eq!(random_passable_neighbor(&grid, Hex::origin(), |_| true), Some(Hex::axial(0, 1)));
    assert_eq!(random_passable_neighbor(&grid, Hex::origin(), |h| h != Hex::axial(0, 1)), None);
    let (dest, path) = random_step(&grid, Hex::origin());
    assert_eq!(dest, Hex::axial(0, 1));
    assert_eq!(path, vec![Hex::origin(), Hex::axial(0, 1)]);
    grid.get_mut(Hex::axial(0, 1)).unwrap().occupant = Some(EntityId(4));
    let (dest, path) = random_step(&grid, Hex::origin());
    assert_eq!(dest, Hex::origin());
    assert_eq!(path, vec![Hex::origin()]);
}

#[test]
fn sorting_by_distance_is_stable() {
    let hexes = vec![Hex::axial(3, 0), Hex::axial(1, 0), Hex::axial(2, 0), Hex::axial(0, 1)];
    let sorted = sorted_by_distance(Hex::origin(), &hexes);
    assert_eq!(sorted, vec![Hex::axial(1, 0), Hex::axial(0, 1), Hex::axial(2, 0), Hex::axial(3, 0)]);
}

#[test]
fn warlock_spawn_takes_first_candidate() {
    assert_eq!(warlock_spawn_hexes(&[Hex::axial(1, 0), Hex::axial(2, 0)]), vec![Hex::axial(1, 0)]);
    assert!(warlock_spawn_hexes(&[]).is_empty());
}

fn player_setup() -> (HexGrid<TileData>, EntityId, HexPosition) {
    let mut grid = full_grid(2);
    let player = EntityId(1);
    place_entity(&mut grid, Hex::origin(), player, &player_stats(), None);
    (grid, player, HexPosition(Hex::origin()))
}

fn settings(selected: Option<Hex>) -> GameSettings {
    GameSettings { selected_hex: selected, hovered_enemy: None, hovered_bomb: None, player_prev_hex: None }
}

#[test]
fn player_moves_to_selected_hex() {
    let (mut grid, player, mut pos) = player_setup();
    let mut turn = TurnState::Active(Turn::Player);
    let mut s = settings(Some(Hex::axial(1, 0)));
    let mut history = UndoHistory::default();
    let mut order = TurnMoveOrder(vec![EntityId(8)]);
    let path = handle_player_move(&mut grid, &mut turn, &mut s, &mut history, &mut order, player, &mut pos, &player_stats());
    assert_eq!(path, Some(vec![Hex::origin(), Hex::axial(1, 0)]));
    assert_eq!(pos, HexPosition(Hex::axial(1, 0)));
    assert_eq!(grid.get(Hex::axial(1, 0)).unwrap().occupant, Some(player));
    assert_eq!(turn, TurnState::Animating { next: TurnPhase::Combat(CombatPhase::AfterPlayerMove) });
    assert_eq!(s.selected_hex, None);
    assert_eq!(s.player_prev_hex, Some(Hex::origin()));
    assert_eq!(order.0, vec![player]);
    assert_eq!(history.undo_stack.len(), 1);
    assert_eq!(history.undo_stack[0].move_order, vec![EntityId(8)]);
}

#[test]
fn player_cannot_move_out_of_range_or_out_of_turn() {
    let (mut grid, player, mut pos) = player_setup();
    let mut history = UndoHistory::default();
    let mut order = TurnMoveOrder::default();
    let mut turn = TurnState::Active(Turn::Player);
    let mut far = settings(Some(Hex::axial(2, 0)));
    assert!(handle_player_move(&mut grid, &mut turn, &mut far, &mut history, &mut order, player, &mut pos, &player_stats())
        .is_none());
    assert_eq!(far.selected_hex, Some(Hex::axial(2, 0)));
    let mut enemy_turn = TurnState::Active(Turn::Enemy);
    let mut near = settings(Some(Hex::axial(1, 0)));
    assert!(handle_player_move(&mut grid, &mut enemy_turn, &mut near, &mut history, &mut order, player, &mut pos, &player_stats())
        .is_none());
    grid.get_mut(Hex::axial(1, 0)).unwrap().traversable = false;
    assert!(handle_player_move(&mut grid, &mut turn, &mut near, &mut history, &mut order, player, &mut pos, &player_stats())
        .is_none());
    assert_eq!(pos, HexPosition(Hex::origin()));
    assert!(history.undo_stack.is_empty());
}

#[test]
fn player_starts_on_the_only_free_tile() {
    let mut grid = full_grid(1);
    for pos in grid.positions() {
        if pos != Hex::axial(-1, 1) {
            grid.get_mut(pos).unwrap().traversable = false;
        }
    }
    assert_eq!(start_candidates(&grid), vec![Hex::axial(-1, 1)]);
    assert_eq!(choose_player_start(&grid), Hex::axial(-1, 1));
}

#[test]
fn walls_avoid_the_origin() {
    let positions = Hex::origin().spiral(2);
    let walls = choose_walls(&positions, 5);
    assert_eq!(walls.len(), 5);
    for (i, w) in walls.iter().enumerate() {
        assert!(*w != Hex::origin());
        assert!(positions.contains(w));
        assert!(!walls[..i].contains(w));
    }
    assert_eq!(choose_walls(&positions, 30).len(), 18);
}

#[test]
fn wall_order_is_random() {
    let positions = Hex::origin().spiral(2);
    let first = choose_walls(&positions, 18);
    let differs = (0..50).any(|_| choose_walls(&positions, 18) != first);
    assert!(differs);
}

#[test]
fn build_tiles_lays_walls_and_entities() {
    let ids: Vec<EntityId> = (0..7).map(|i| EntityId(100 + i)).collect();
    let grid = build_tiles(1, &vec![Hex::axial(1, 0)], &ids);
    let cells = grid.positions();
    for (k, h) in cells.iter().enumerate() {
        let t = grid.get(*h).unwrap();
        assert_eq!(t.tile_entity, Some(ids[k]));
        assert_eq!(t.traversable, *h != Hex::axial(1, 0));
        assert!(t.occupant.is_none());
    }
    assert_eq!(grid.len(), 7);
}

#[test]
fn bombs_tick_on_entering_player_turn() {
    let owner = EntityId(3);
    let mut fuses = vec![
        BombFuse { owner, turns_remaining: 2, blast_radius: 1 },
        BombFuse { owner, turns_remaining: 0, blast_radius: 1 },
        BombFuse { owner, turns_remaining: 1, blast_radius: 1 },
    ];
    let mut was_player = false;
    let exploding = tick_bombs(TurnState::Active(Turn::Player), &mut was_player, &mut fuses);
    assert_eq!(exploding, vec![1]);
    assert!(was_player);
    let left: Vec<u8> = fuses.iter().map(|f| f.turns_remaining).collect();
    assert_eq!(left, vec![1, 0, 0]);
    assert!(tick_bombs(TurnState::Active(Turn::Player), &mut was_player, &mut fuses).is_empty());
    assert!(tick_bombs(TurnState::Active(Turn::Enemy), &mut was_player, &mut fuses).is_empty());
    assert!(!was_player);
    assert_eq!(tick_bombs(TurnState::Active(Turn::Player), &mut was_player, &mut fuses), vec![1, 2]);
}

#[test]
fn blast_covers_radius() {
    assert!(in_blast(Hex::origin(), 1, Hex::axial(1, 0)));
    assert!(in_blast(Hex::origin(), 1, Hex::origin()));
    assert!(!in_blast(Hex::origin(), 1, Hex::axial(2, 0)));
    assert!(within(Hex::origin(), Hex::axial(2, -1), 2));
    assert!(!within(Hex::origin(), Hex::axial(3, 0), 2));
}

#[test]
fn player_kills_enemies_in_range_of_its_new_tile() {
    let enemies = vec![
        (EntityId(2), Hex::axial(1, 0)),
        (EntityId(3), Hex::axial(-2, 0)),
        (EntityId(4), Hex::axial(2, -2)),
    ];
    let kills = find_kills(Hex::axial(1, -1), 1, &enemies);
    assert_eq!(kills, vec![(EntityId(2), Hex::axial(1, 0)), (EntityId(4), Hex::axial(2, -2))]);
    assert!(find_kills(Hex::axial(-5, 0), 1, &enemies).is_empty());
}

#[test]
fn first_move_kills_without_a_previous_hex() {
    let mut grid = full_grid(3);
    let player = EntityId(1);
    let foe = EntityId(2);
    place_entity(&mut grid, Hex::axial(1, -1), player, &player_stats(), None);
    place_entity(&mut grid, Hex::axial(1, 0), foe, &Stats { move_range: 1, attack_range: 1 }, None);
    let mut turn = TurnState::Combat(CombatPhase::AfterPlayerMove);
    let mut pending = PendingKills(Vec::new());
    let enemies = vec![(foe, Hex::axial(1, 0))];
    let info = Some((player, Hex::axial(1, -1), player_stats()));
    let out = resolve_combat(&mut turn, &mut grid, &mut pending, info, &enemies, false);
    assert_eq!(out.attack_target, Some(Hex::axial(1, 0)));
    assert_eq!(turn, TurnState::Combat(CombatPhase::PlayerAttackAnimating));
    assert_eq!(pending.0, vec![(foe, Hex::axial(1, 0))]);
}

#[test]
fn combat_after_player_move() {
    let mut grid = full_grid(3);
    let player = EntityId(1);
    let foe = EntityId(2);
    place_entity(&mut grid, Hex::axial(1, -1), player, &player_stats(), None);
    place_entity(&mut grid, Hex::axial(1, 0), foe, &Stats { move_range: 1, attack_range: 1 }, None);
    let mut turn = TurnState::Combat(CombatPhase::AfterPlayerMove);
    let mut pending = PendingKills(Vec::new());
    let enemies = vec![(foe, Hex::axial(1, 0))];
    let info = Some((player, Hex::axial(1, -1), player_stats()));
    let out = resolve_combat(&mut turn, &mut grid, &mut pending, info, &enemies, false);
    assert_eq!(out.attack_target, Some(Hex::axial(1, 0)));
    assert_eq!(turn, TurnState::Combat(CombatPhase::PlayerAttackAnimating));
    assert_eq!(pending.0, vec![(foe, Hex::axial(1, 0))]);

    let out = resolve_combat(&mut turn, &mut grid, &mut pending, info, &enemies, false);
    assert_eq!(out.killed, vec![(foe, Hex::axial(1, 0))]);
    assert!(out.attackers.is_empty());
    assert_eq!(turn, TurnState::Active(Turn::Enemy));
    assert!(pending.0.is_empty());
    assert_eq!(grid.get(Hex::axial(1, 0)).unwrap().occupant, None);
    assert_eq!(occupants(&grid), vec![player]);
}

#[test]
fn enemies_in_range_attack_the_player() {
    let mut grid = full_grid(3);
    let player = EntityId(1);
    let foe = EntityId(2);
    place_entity(&mut grid, Hex::origin(), player, &player_stats(), None);
    place_entity(&mut grid, Hex::axial(2, 0), foe, &Stats { move_range: 1, attack_range: 2 }, None);
    assert_eq!(apply_enemy_attacks(&grid, player, Hex::origin()), vec![foe]);
    let mut turn = TurnState::Combat(CombatPhase::AfterPlayerMove);
    let mut pending = PendingKills(Vec::new());
    let out = resolve_combat(
        &mut turn,
        &mut grid,
        &mut pending,
        Some((player, Hex::origin(), player_stats())),
        &vec![(foe, Hex::axial(2, 0))],
        false,
    );
    assert_eq!(out.attackers, vec![foe]);
    assert_eq!(turn, TurnState::Active(Turn::Enemy));
}

#[test]
fn animation_end_advances_phase() {
    let mut turn = TurnState::Animating { next: TurnPhase::Combat(CombatPhase::AfterPlayerMove) };
    check_animation_done(&mut turn, true);
    assert_eq!(turn, TurnState::Animating { next: TurnPhase::Combat(CombatPhase::AfterPlayerMove) });
    check_animation_done(&mut turn, false);
    assert_eq!(turn, TurnState::Combat(CombatPhase::AfterPlayerMove));
    let mut idle = TurnState::Active(Turn::Player);
    check_animation_done(&mut idle, false);
    assert_eq!(idle, TurnState::Active(Turn::Player));
}

#[test]
fn color_codes() {
    assert_eq!(hex_channels("#c642eb"), Some((0xc6, 0x42, 0xeb)));
    assert_eq!(hex_channels("#FF00a0"), Some((255, 0, 160)));
    assert_eq!(hex_channels("#+f0000"), Some((15, 0, 0)));
    assert_eq!(hex_channels("c642eb"), None);
    assert_eq!(hex_channels("##12345"), None);
    assert_eq!(hex_channels("#12345g"), None);
    assert_eq!(hex_channels("#1234567"), None);
}
