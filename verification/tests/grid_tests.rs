use hex_tactics::components::{AttackPattern, EntityId, HexPosition, Stats};
use hex_tactics::grid::{
    attack_hexes, clear_ranges, is_occupied, is_passable, move_entity, place_entity, relocate, update_ranges,
    update_ranges_with_pattern, TileData,
};
use hex_tactics::hex::Hex;
use hex_tactics::hex_grid::HexGrid;
use hex_tactics::turn::{CombatPhase, Turn, TurnPhase, TurnState};

fn make_grid() -> HexGrid<TileData> {
    let mut grid = HexGrid::new(2);
    for pos in grid.positions() {
        grid.insert(pos, TileData::default());
    }
    grid
}

fn dummy_entities(count: usize) -> Vec<EntityId> {
    (0..count).map(|i| EntityId(i as u64 + 1)).collect()
}

#[test]
fn tile_data_default_is_traversable() {
    let td = TileData::default();
    assert!(td.traversable);
    assert!(td.occupant.is_none());
    assert!(td.tile_entity.is_none());
    assert!(td.attack_ranges.is_empty());
    assert!(td.move_ranges.is_empty());
}

#[test]
fn is_passable_traversable_empty() {
    let grid = make_grid();
    assert!(is_passable(&grid, Hex::origin()));
}

#[test]
fn is_passable_wall() {
    let mut grid = make_grid();
    grid.get_mut(Hex::origin()).unwrap().traversable = false;
    assert!(!is_passable(&grid, Hex::origin()));
}

#[test]
fn is_passable_occupied() {
    let mut grid = make_grid();
    let entities = dummy_entities(1);
    grid.get_mut(Hex::origin()).unwrap().occupant = Some(entities[0]);
    assert!(!is_passable(&grid, Hex::origin()));
}

#[test]
fn is_passable_out_of_bounds() {
    let grid = make_grid();
    assert!(!is_passable(&grid, Hex::axial(10, 0)));
}

#[test]
fn update_ranges_attack_only_when_move_zero() {
    let mut grid = make_grid();
    let entities = dummy_entities(1);
    let e = entities[0];
    let stats = Stats { move_range: 0, attack_range: 1 };
    update_ranges(&mut grid, Hex::origin(), e, &stats);

    for pos in grid.positions() {
        assert!(
            !grid.get(pos).unwrap().move_ranges.contains(&e),
            "move_range should be empty when stats.move_range == 0"
        );
    }

    for neighbor in Hex::origin().neighbors() {
        if grid.contains(neighbor) {
            assert!(grid.get(neighbor).unwrap().attack_ranges.contains(&e));
        }
    }

    assert!(!grid.get(Hex::origin()).unwrap().attack_ranges.contains(&e));
}

#[test]
fn update_ranges_move_and_attack() {
    let mut grid = make_grid();
    let entities = dummy_entities(1);
    let e = entities[0];
    let stats = Stats { move_range: 1, attack_range: 1 };
    update_ranges(&mut grid, Hex::origin(), e, &stats);

    for neighbor in Hex::origin().neighbors() {
        if grid.contains(neighbor) {
            assert!(grid.get(neighbor).unwrap().move_ranges.contains(&e));
            assert!(grid.get(neighbor).unwrap().attack_ranges.contains(&e));
        }
    }
}

#[test]
fn clear_ranges_removes_entity() {
    let mut grid = make_grid();
    let entities = dummy_entities(1);
    let e = entities[0];
    let stats = Stats { move_range: 1, attack_range: 2 };
    update_ranges(&mut grid, Hex::origin(), e, &stats);
    clear_ranges(&mut grid, e);

    for pos in grid.positions() {
        let tile = grid.get(pos).unwrap();
        assert!(!tile.move_ranges.contains(&e));
        assert!(!tile.attack_ranges.contains(&e));
    }
}

#[test]
fn clear_ranges_preserves_other_entities() {
    let mut grid = make_grid();
    let entities = dummy_entities(2);
    let e1 = entities[0];
    let e2 = entities[1];
    let stats = Stats { move_range: 1, attack_range: 1 };
    update_ranges(&mut grid, Hex::origin(), e1, &stats);
    update_ranges(&mut grid, Hex::axial(1, 0), e2, &stats);

    clear_ranges(&mut grid, e1);

    let has_e2 = grid.positions().iter().any(|&pos| {
        let tile = grid.get(pos).unwrap();
        tile.move_ranges.contains(&e2) || tile.attack_ranges.contains(&e2)
    });
    assert!(has_e2);
}

#[test]
fn update_ranges_counts_exact_hexes() {
    let mut grid = make_grid();
    let e = EntityId(7);
    update_ranges(&mut grid, Hex::origin(), e, &Stats { move_range: 1, attack_range: 2 });
    let moves = grid.positions().iter().filter(|&&p| grid.get(p).unwrap().move_ranges.contains(&e)).count();
    let attacks = grid.positions().iter().filter(|&&p| grid.get(p).unwrap().attack_ranges.contains(&e)).count();
    assert_eq!(moves, 6);
    assert_eq!(attacks, 18);
}

#[test]
fn clear_after_update_restores_lists() {
    let mut grid = make_grid();
    let e1 = EntityId(1);
    let e2 = EntityId(2);
    update_ranges(&mut grid, Hex::axial(1, 0), e2, &Stats { move_range: 1, attack_range: 1 });
    let before: Vec<(Vec<EntityId>, Vec<EntityId>)> = grid
        .positions()
        .iter()
        .map(|&p| (grid.get(p).unwrap().move_ranges.clone(), grid.get(p).unwrap().attack_ranges.clone()))
        .collect();
    update_ranges(&mut grid, Hex::origin(), e1, &Stats { move_range: 2, attack_range: 1 });
    clear_ranges(&mut grid, e1);
    let after: Vec<(Vec<EntityId>, Vec<EntityId>)> = grid
        .positions()
        .iter()
        .map(|&p| (grid.get(p).unwrap().move_ranges.clone(), grid.get(p).unwrap().attack_ranges.clone()))
        .collect();
    assert_eq!(before, after);
}

#[test]
fn occupied_out_of_bounds_and_occupant() {
    let mut grid = make_grid();
    assert!(is_occupied(&grid, Hex::axial(5, 0)));
    assert!(!is_occupied(&grid, Hex::origin()));
    grid.get_mut(Hex::origin()).unwrap().occupant = Some(EntityId(3));
    assert!(is_occupied(&grid, Hex::origin()));
}

#[test]
fn diagonal_pattern_ranges() {
    let mut grid: HexGrid<TileData> = HexGrid::new(4);
    for pos in grid.positions() {
        grid.insert(pos, TileData::default());
    }
    let e = EntityId(9);
    let pattern = AttackPattern::DiagonalRanged { min_range: 2, max_range: 4 };
    update_ranges_with_pattern(&mut grid, Hex::origin(), e, &Stats { move_range: 1, attack_range: 4 }, Some(&pattern));
    assert_eq!(attack_hexes(&grid, e).len(), 12);
    assert!(grid.get(Hex::axial(2, -2)).unwrap().attack_ranges.contains(&e));
    assert!(!grid.get(Hex::axial(1, -1)).unwrap().attack_ranges.contains(&e));
    assert!(!grid.get(Hex::axial(2, 0)).unwrap().attack_ranges.contains(&e));
}

#[test]
fn move_entity_relocates_and_animates() {
    let mut grid = make_grid();
    let e = EntityId(4);
    let stats = Stats { move_range: 1, attack_range: 1 };
    place_entity(&mut grid, Hex::origin(), e, &stats, None);
    let mut pos = HexPosition(Hex::origin());
    let mut turn = TurnState::Active(Turn::Player);
    let path = vec![Hex::origin(), Hex::axial(1, 0), Hex::axial(2, 0)];
    move_entity(&mut grid, &mut turn, e, &mut pos, &path, &stats, TurnPhase::Combat(CombatPhase::AfterPlayerMove));
    assert_eq!(pos, HexPosition(Hex::axial(2, 0)));
    assert_eq!(grid.get(Hex::axial(2, 0)).unwrap().occupant, Some(e));
    assert_eq!(grid.get(Hex::origin()).unwrap().occupant, None);
    assert!(grid.get(Hex::axial(1, 0)).unwrap().move_ranges.contains(&e));
    assert!(!grid.get(Hex::axial(-1, 0)).unwrap().move_ranges.contains(&e));
    assert_eq!(turn, TurnState::Animating { next: TurnPhase::Combat(CombatPhase::AfterPlayerMove) });
}

#[test]
fn relocate_short_path_does_nothing() {
    let mut grid = make_grid();
    let e = EntityId(4);
    let stats = Stats { move_range: 1, attack_range: 1 };
    place_entity(&mut grid, Hex::origin(), e, &stats, None);
    let mut pos = HexPosition(Hex::origin());
    relocate(&mut grid, e, &mut pos, &[Hex::origin()], &stats, None);
    assert_eq!(pos, HexPosition(Hex::origin()));
    assert_eq!(grid.get(Hex::origin()).unwrap().occupant, Some(e));
}
