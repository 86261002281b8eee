use hex_tactics::components::EntityId;
use hex_tactics::enemy::EnemyTurnQueue;
use hex_tactics::grid::TileData;
use hex_tactics::hex::Hex;
use hex_tactics::hex_grid::HexGrid;
use hex_tactics::turn::{Turn, TurnState};
use hex_tactics::undo::{
    advance_rewind, apply_undo_action, capture_snapshot, push_undo, restore_snapshot, rewind_steps, shortcut_action,
    RewindQueue, RewindTick, TurnMoveOrder, UndoAction, UndoHistory,
};

fn make_grid() -> HexGrid<TileData> {
    let mut grid = HexGrid::new(1);
    for pos in grid.positions() {
        grid.insert(pos, TileData::default());
    }
    grid
}

fn dummy_entities(count: usize) -> Vec<EntityId> {
    (0..count).map(|i| EntityId(i as u64 + 1)).collect()
}

#[test]
fn capture_snapshot_preserves_grid() {
    let mut grid = make_grid();
    let entities = dummy_entities(1);
    let e = entities[0];
    let origin = Hex::origin();

    grid.get_mut(origin).unwrap().occupant = Some(e);

    let turn = TurnState::Active(Turn::Player);
    let move_order = TurnMoveOrder::default();
    let snap = capture_snapshot(&grid, &turn, &move_order);

    assert_eq!(snap.positions.len(), 1);
    assert_eq!(snap.positions[0], (e, origin));
    assert_eq!(snap.turn_state, turn);

    let cell = snap.grid_cells.iter().find(|(h, _)| *h == origin).unwrap();
    assert_eq!(cell.1.occupant, Some(e));
}

#[test]
fn push_undo_clears_redo() {
    let grid = make_grid();
    let turn = TurnState::Active(Turn::Player);
    let move_order = TurnMoveOrder::default();
    let snap = capture_snapshot(&grid, &turn, &move_order);

    let mut history = UndoHistory::default();
    history.redo_stack.push(snap.clone());
    assert_eq!(history.redo_stack.len(), 1);

    push_undo(&mut history, snap);
    assert_eq!(history.undo_stack.len(), 1);
    assert_eq!(history.redo_stack.len(), 0);
}

#[test]
fn undo_stack_ordering() {
    let grid = make_grid();
    let turn_p = TurnState::Active(Turn::Player);
    let turn_e = TurnState::Active(Turn::Enemy);
    let move_order = TurnMoveOrder::default();

    let snap1 = capture_snapshot(&grid, &turn_p, &move_order);
    let snap2 = capture_snapshot(&grid, &turn_e, &move_order);

    let mut history = UndoHistory::default();
    push_undo(&mut history, snap1);
    push_undo(&mut history, snap2);

    assert_eq!(history.undo_stack.len(), 2);
    let popped = history.undo_stack.pop().unwrap();
    assert_eq!(popped.turn_state, turn_e);
    let popped = history.undo_stack.pop().unwrap();
    assert_eq!(popped.turn_state, turn_p);
}

#[test]
fn capture_lists_every_tile_once() {
    let grid = make_grid();
    let snap = capture_snapshot(&grid, &TurnState::Active(Turn::Player), &TurnMoveOrder(vec![EntityId(5)]));
    assert_eq!(snap.grid_cells.len(), 7);
    assert_eq!(snap.move_order, vec![EntityId(5)]);
    assert!(snap.positions.is_empty());
}

#[test]
fn restore_snapshot_brings_back_tiles_and_turn() {
    let mut grid = make_grid();
    let snap = capture_snapshot(&grid, &TurnState::Active(Turn::Player), &TurnMoveOrder::default());
    grid.get_mut(Hex::origin()).unwrap().occupant = Some(EntityId(1));
    grid.get_mut(Hex::axial(1, 0)).unwrap().traversable = false;
    let mut turn = TurnState::Active(Turn::Enemy);
    restore_snapshot(&snap, &mut grid, &mut turn);
    assert_eq!(turn, TurnState::Active(Turn::Player));
    assert_eq!(grid.get(Hex::origin()).unwrap().occupant, None);
    assert!(grid.get(Hex::axial(1, 0)).unwrap().traversable);
}

#[test]
fn undo_then_redo_round_trip() {
    let mut grid = make_grid();
    let p = EntityId(1);
    grid.get_mut(Hex::origin()).unwrap().occupant = Some(p);
    let mut history = UndoHistory::default();
    let mut turn = TurnState::Active(Turn::Player);
    let mut order = TurnMoveOrder::default();
    let mut queue = EnemyTurnQueue::default();

    // the player moves from the origin to (1, 0); the state before is saved
    push_undo(&mut history, capture_snapshot(&grid, &turn, &order));
    grid.get_mut(Hex::origin()).unwrap().occupant = None;
    grid.get_mut(Hex::axial(1, 0)).unwrap().occupant = Some(p);
    order.0 = vec![p, EntityId(2)];
    turn = TurnState::Active(Turn::Enemy);
    queue.0 = vec![EntityId(3)];

    let mut action = UndoAction::Undo;
    let plan = apply_undo_action(&mut action, &mut history, &mut grid, &mut turn, &mut order, &mut queue).unwrap();
    assert_eq!(action, UndoAction::Idle);
    assert_eq!(grid.get(Hex::origin()).unwrap().occupant, Some(p));
    assert_eq!(grid.get(Hex::axial(1, 0)).unwrap().occupant, None);
    assert_eq!(turn, TurnState::Active(Turn::Player));
    assert!(queue.0.is_empty());
    assert!(order.0.is_empty());
    assert_eq!(plan.positions, vec![(p, Hex::origin())]);
    assert_eq!(plan.order, vec![EntityId(2), p]);
    assert_eq!(plan.occupants, vec![p]);
    assert_eq!(history.undo_stack.len(), 0);
    assert_eq!(history.redo_stack.len(), 1);

    let mut action = UndoAction::Redo;
    let plan = apply_undo_action(&mut action, &mut history, &mut grid, &mut turn, &mut order, &mut queue).unwrap();
    assert_eq!(grid.get(Hex::origin()).unwrap().occupant, None);
    assert_eq!(grid.get(Hex::axial(1, 0)).unwrap().occupant, Some(p));
    assert_eq!(order.0, vec![p, EntityId(2)]);
    assert_eq!(plan.order, Vec::<EntityId>::new());
    assert_eq!(history.undo_stack.len(), 1);
    assert_eq!(history.redo_stack.len(), 0);
}

#[test]
fn undo_with_empty_history_does_nothing() {
    let mut grid = make_grid();
    let mut history = UndoHistory::default();
    let mut turn = TurnState::Active(Turn::Enemy);
    let mut order = TurnMoveOrder(vec![EntityId(1)]);
    let mut queue = EnemyTurnQueue(vec![EntityId(2)]);
    let mut action = UndoAction::Undo;
    assert!(apply_undo_action(&mut action, &mut history, &mut grid, &mut turn, &mut order, &mut queue).is_none());
    assert_eq!(action, UndoAction::Idle);
    assert_eq!(turn, TurnState::Active(Turn::Enemy));
    assert_eq!(order.0, vec![EntityId(1)]);
    assert_eq!(queue.0, vec![EntityId(2)]);
    let mut idle = UndoAction::Idle;
    assert!(apply_undo_action(&mut idle, &mut history, &mut grid, &mut turn, &mut order, &mut queue).is_none());
}

#[test]
fn rewind_steps_follow_move_order_then_the_rest() {
    let a = EntityId(1);
    let b = EntityId(2);
    let c = EntityId(3);
    let d = EntityId(4);
    // animations needed for c, a, d; moves happened in order b, c, a
    let steps = rewind_steps(&vec![b, c, a], &vec![c, a, d]);
    assert_eq!(steps, vec![0, 1, 2]);
    let steps = rewind_steps(&vec![a, c], &vec![c, d, a]);
    assert_eq!(steps, vec![2, 0, 1]);
}

#[test]
fn rewind_queue_plays_steps_one_at_a_time() {
    let mut q: RewindQueue<u32> = RewindQueue::default();
    q.steps = vec![10, 20];
    q.held = vec![EntityId(9)];
    match advance_rewind(&mut q, true) {
        RewindTick::Start(s) => assert_eq!(s, 10),
        _ => panic!("expected a step to start"),
    }
    q.active = Some(EntityId(1));
    assert!(matches!(advance_rewind(&mut q, false), RewindTick::Wait));
    match advance_rewind(&mut q, true) {
        RewindTick::Start(s) => assert_eq!(s, 20),
        _ => panic!("expected a step to start"),
    }
    match advance_rewind(&mut q, true) {
        RewindTick::Release(v) => assert_eq!(v, vec![EntityId(9)]),
        _ => panic!("expected the held entities to be released"),
    }
    assert!(q.held.is_empty());
    assert!(q.active.is_none());
}

#[test]
fn keyboard_shortcuts() {
    assert_eq!(shortcut_action(true, false, true, false, UndoAction::Idle), UndoAction::Undo);
    assert_eq!(shortcut_action(true, true, true, false, UndoAction::Idle), UndoAction::Redo);
    assert_eq!(shortcut_action(true, false, false, true, UndoAction::Idle), UndoAction::Redo);
    assert_eq!(shortcut_action(false, false, true, false, UndoAction::Idle), UndoAction::Idle);
    assert_eq!(shortcut_action(true, false, false, false, UndoAction::Redo), UndoAction::Redo);
}

#[test]
fn restored_board_decides_who_lives() {
    let occupants = vec![EntityId(1), EntityId(3)];
    let dead = vec![EntityId(3), EntityId(4)];
    let enemies = vec![EntityId(2), EntityId(3), EntityId(4), EntityId(5)];
    let (revive, kill) = hex_tactics::undo::dead_sync(&occupants, &dead, &enemies);
    assert_eq!(revive, vec![EntityId(3)]);
    assert_eq!(kill, vec![EntityId(2), EntityId(5)]);
}

#[test]
fn capture_lists_tiles_in_spiral_order() {
    let mut grid: HexGrid<TileData> = HexGrid::new(2);
    let holes = [Hex::axial(1, 0), Hex::axial(-2, 1)];
    for pos in grid.positions() {
        if !holes.contains(&pos) {
            grid.insert(pos, TileData::default());
        }
    }
    grid.get_mut(Hex::axial(0, 1)).unwrap().occupant = Some(EntityId(3));
    grid.get_mut(Hex::axial(2, -2)).unwrap().occupant = Some(EntityId(4));
    let snap = capture_snapshot(&grid, &TurnState::Active(Turn::Player), &TurnMoveOrder::default());
    let listed: Vec<Hex> = snap.grid_cells.iter().map(|(h, _)| *h).collect();
    let expected: Vec<Hex> = grid.positions().into_iter().filter(|h| !holes.contains(h)).collect();
    assert_eq!(listed, expected);
    let from_iter: Vec<Hex> = grid.iter().into_iter().map(|(h, _)| h).collect();
    assert_eq!(listed, from_iter);
    let spiral = grid.positions();
    let at = |h: Hex| spiral.iter().position(|p| *p == h).unwrap();
    let mut expected_positions = vec![(EntityId(3), Hex::axial(0, 1)), (EntityId(4), Hex::axial(2, -2))];
    expected_positions.sort_by_key(|(_, h)| at(*h));
    assert_eq!(snap.positions, expected_positions);
}
