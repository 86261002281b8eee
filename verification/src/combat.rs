//! Combat rules: the player's attacks after moving, enemy attacks on the player, and
//! bombs.

use vstd::prelude::*;

use crate::components::{BombFuse, EntityId, Stats};
use crate::grid::{clear_ranges, other_than, set_occupant, tiles, with_occupant, without_entity, TileData, TileView};
use crate::hex::{coords_within, hex_dist, spiral_seq, wide_distance, Hex};
use crate::hex_grid::HexGrid;
use crate::hex_laws::law_spiral_membership;
use crate::turn::{CombatPhase, PendingKills, Turn, TurnState};

verus! {

/// Whether `b` is within `range` steps of `a`.
pub fn within(a: Hex, b: Hex, range: i32) -> (r: bool)
    ensures
        r == (hex_dist(a, b) <= range),
{
    wide_distance(a, b) <= range as i64
}

/// Whether the player, having moved to `player_hex`, kills an enemy at `enemy_hex`: the
/// enemy is within the player's attack range of that hex.
pub open spec fn kills_enemy(player_hex: Hex, attack_range: int, enemy_hex: Hex) -> bool {
    hex_dist(player_hex, enemy_hex) <= attack_range
}

/// The enemies the player kills, in the order given.
pub open spec fn kills_spec(
    player_hex: Hex,
    attack_range: int,
    enemies: Seq<(EntityId, Hex)>,
) -> Seq<(EntityId, Hex)> {
    enemies.filter(|e: (EntityId, Hex)| kills_enemy(player_hex, attack_range, e.1))
}

/// Rule 6: the player kills every enemy within its attack range of the tile it moved to.
pub fn find_kills(
    player_hex: Hex,
    attack_range: i32,
    enemies: &Vec<(EntityId, Hex)>,
) -> (killed: Vec<(EntityId, Hex)>)
    ensures
        killed@ == kills_spec(player_hex, attack_range as int, enemies@),
{
    let ghost pred = |e: (EntityId, Hex)| kills_enemy(player_hex, attack_range as int, e.1);
    let mut killed: Vec<(EntityId, Hex)> = Vec::new();
    let mut i: usize = 0;
    while i < enemies.len()
        invariant
            i <= enemies@.len(),
            pred == (|e: (EntityId, Hex)| kills_enemy(player_hex, attack_range as int, e.1)),
            killed@ == enemies@.take(i as int).filter(pred),
        decreases enemies@.len() - i,
    {
        proof {
            reveal(Seq::filter);
            assert(enemies@.take(i + 1).drop_last() =~= enemies@.take(i as int));
        }
        let (enemy, enemy_hex) = enemies[i];
        if within(player_hex, enemy_hex, attack_range) {
            killed.push((enemy, enemy_hex));
        }
        i += 1;
    }
    assert(enemies@.take(enemies@.len() as int) =~= enemies@);
    killed
}

/// The entities, other than the player, whose attack range covers the player's tile.
pub open spec fn attackers_spec(m: Map<Hex, TileView>, player: EntityId, player_hex: Hex) -> Seq<EntityId> {
    if m.contains_key(player_hex) {
        m[player_hex].attack_ranges.filter(other_than(player))
    } else {
        Seq::empty()
    }
}

/// Rule 4: every entity whose attack range covers the player's tile attacks the player
/// (the caller takes one hit point per attacker and makes each skip its next move).
/// Returns the attackers, in the order of the tile's attack list.
pub fn apply_enemy_attacks(grid: &HexGrid<TileData>, player_entity: EntityId, player_hex: Hex) -> (attackers: Vec<EntityId>)
    requires
        grid.wf(),
    ensures
        attackers@ == attackers_spec(tiles(*grid), player_entity, player_hex),
{
    match grid.get(player_hex) {
        Some(tile) => {
            let ghost pred = other_than(player_entity);
            let mut out: Vec<EntityId> = Vec::new();
            let mut i: usize = 0;
            while i < tile.attack_ranges.len()
                invariant
                    i <= tile.attack_ranges@.len(),
                    pred == other_than(player_entity),
                    out@ == tile.attack_ranges@.take(i as int).filter(pred),
                decreases tile.attack_ranges@.len() - i,
            {
                proof {
                    reveal(Seq::filter);
                    assert(tile.attack_ranges@.take(i + 1).drop_last() =~= tile.attack_ranges@.take(i as int));
                }
                if tile.attack_ranges[i] != player_entity {
                    out.push(tile.attack_ranges[i]);
                }
                i += 1;
            }
            assert(tile.attack_ranges@.take(tile.attack_ranges@.len() as int) =~= tile.attack_ranges@);
            out
        },
        None => Vec::new(),
    }
}

/// What the caller must do after a combat step.
pub struct CombatOutcome {
    /// Start the player's lunge toward this hex.
    pub attack_target: Option<Hex>,
    /// Entities now dead: hide them.
    pub killed: Vec<(EntityId, Hex)>,
    /// Entities that attacked the player: one hit point each, and they skip their next move.
    pub attackers: Vec<EntityId>,
}

/// The tiles after the given kills are applied: each victim's tile is vacated and its
/// ranges cleared, in order.
pub open spec fn apply_kills_spec(m: Map<Hex, TileView>, kills: Seq<(EntityId, Hex)>) -> Map<Hex, TileView>
    decreases kills.len(),
{
    if kills.len() == 0 {
        m
    } else {
        let last = kills.last();
        without_entity(with_occupant(apply_kills_spec(m, kills.drop_last()), last.1, None), last.0)
    }
}

/// Removes each killed entity from the board: its tile is vacated and its ranges cleared.
pub fn apply_kills(grid: &mut HexGrid<TileData>, kills: &Vec<(EntityId, Hex)>)
    requires
        old(grid).wf(),
    ensures
        final(grid).wf(),
        final(grid).board_radius() == old(grid).board_radius(),
        tiles(*final(grid)) == apply_kills_spec(tiles(*old(grid)), kills@),
{
    let ghost m0 = tiles(*grid);
    let mut i: usize = 0;
    while i < kills.len()
        invariant
            grid.wf(),
            grid.board_radius() == old(grid).board_radius(),
            m0 == tiles(*old(grid)),
            i <= kills@.len(),
            tiles(*grid) == apply_kills_spec(m0, kills@.take(i as int)),
        decreases kills@.len() - i,
    {
        let (enemy, enemy_hex) = kills[i];
        set_occupant(grid, enemy_hex, None);
        clear_ranges(grid, enemy);
        proof {
            assert(kills@.take(i + 1).drop_last() =~= kills@.take(i as int));
        }
        i += 1;
    }
    assert(kills@.take(kills@.len() as int) =~= kills@);
}

/// The player's part of a combat step: its entity, hex and stats.
pub type PlayerInfo = (EntityId, Hex, Stats);

/// Resolve combat after player movement.
///
/// Rule 6: if the player moved to a tile within attack range of an enemy, that enemy
/// is killed (after the lunge animation).
/// Rule 4: if the player stands within an enemy's attack range, that enemy attacks the
/// player and skips its movement turn.
///
/// `player` is `None` when there is no player; `enemies` are the living enemies;
/// `attack_animating` tells whether the player's lunge is still playing.
pub fn resolve_combat(
    turn: &mut TurnState,
    grid: &mut HexGrid<TileData>,
    pending_kills: &mut PendingKills,
    player: Option<PlayerInfo>,
    enemies: &Vec<(EntityId, Hex)>,
    attack_animating: bool,
) -> (out: CombatOutcome)
    requires
        old(grid).wf(),
    ensures
        final(grid).wf(),
        final(grid).board_radius() == old(grid).board_radius(),
        match *old(turn) {
            TurnState::Combat(CombatPhase::AfterPlayerMove) => match player {
                None => {
                    &&& *final(turn) == TurnState::Active(Turn::Enemy)
                    &&& tiles(*final(grid)) == tiles(*old(grid))
                    &&& final(pending_kills).0@ == old(pending_kills).0@
                    &&& out.attack_target is None && out.killed@.len() == 0 && out.attackers@.len() == 0
                },
                Some((pe, ph, ps)) => {
                    let kills = kills_spec(ph, ps.attack_range as int, enemies@);
                    &&& tiles(*final(grid)) == tiles(*old(grid))
                    &&& out.killed@.len() == 0
                    &&& if kills.len() > 0 {
                        &&& *final(turn) == TurnState::Combat(CombatPhase::PlayerAttackAnimating)
                        &&& final(pending_kills).0@ == kills
                        &&& out.attack_target == Some(kills[0].1)
                        &&& out.attackers@.len() == 0
                    } else {
                        &&& *final(turn) == TurnState::Active(Turn::Enemy)
                        &&& final(pending_kills).0@ == old(pending_kills).0@
                        &&& out.attack_target is None
                        &&& out.attackers@ == attackers_spec(tiles(*old(grid)), pe, ph)
                    }
                },
            },
            TurnState::Combat(CombatPhase::PlayerAttackAnimating) => if attack_animating {
                &&& *final(turn) == *old(turn)
                &&& tiles(*final(grid)) == tiles(*old(grid))
                &&& final(pending_kills).0@ == old(pending_kills).0@
                &&& out.attack_target is None && out.killed@.len() == 0 && out.attackers@.len() == 0
            } else {
                &&& *final(turn) == TurnState::Active(Turn::Enemy)
                &&& final(pending_kills).0@.len() == 0
                &&& out.attack_target is None
                &&& match player {
                    None => {
                        &&& tiles(*final(grid)) == tiles(*old(grid))
                        &&& out.killed@.len() == 0 && out.attackers@.len() == 0
                    },
                    Some((pe, ph, ps)) => {
                        let after = apply_kills_spec(tiles(*old(grid)), old(pending_kills).0@);
                        &&& tiles(*final(grid)) == after
                        &&& out.killed@ == old(pending_kills).0@
                        &&& out.attackers@ == attackers_spec(after, pe, ph)
                    },
                }
            },
            _ => {
                &&& *final(turn) == *old(turn)
                &&& tiles(*final(grid)) == tiles(*old(grid))
                &&& final(pending_kills).0@ == old(pending_kills).0@
                &&& out.attack_target is None && out.killed@.len() == 0 && out.attackers@.len() == 0
            },
        },
{
    let none_out = CombatOutcome { attack_target: None, killed: Vec::new(), attackers: Vec::new() };
    match *turn {
        TurnState::Combat(CombatPhase::AfterPlayerMove) => {
            match player {
                None => {
                    *turn = TurnState::Active(Turn::Enemy);
                    none_out
                },
                Some((player_entity, player_hex, player_stats)) => {
                    let killed = find_kills(player_hex, player_stats.attack_range, enemies);
                    if killed.len() > 0 {
                        let first = killed[0].1;
                        pending_kills.0 = killed;
                        *turn = TurnState::Combat(CombatPhase::PlayerAttackAnimating);
                        CombatOutcome { attack_target: Some(first), killed: Vec::new(), attackers: Vec::new() }
                    } else {
                        let attackers = apply_enemy_attacks(grid, player_entity, player_hex);
                        *turn = TurnState::Active(Turn::Enemy);
                        CombatOutcome { attack_target: None, killed: Vec::new(), attackers }
                    }
                },
            }
        },
        TurnState::Combat(CombatPhase::PlayerAttackAnimating) => {
            if attack_animating {
                return none_out;
            }
            match player {
                None => {
                    pending_kills.0 = Vec::new();
                    *turn = TurnState::Active(Turn::Enemy);
                    none_out
                },
                Some((player_entity, player_hex, _player_stats)) => {
                    let mut kills: Vec<(EntityId, Hex)> = Vec::new();
                    std::mem::swap(&mut kills, &mut pending_kills.0);
                    apply_kills(grid, &kills);
                    let attackers = apply_enemy_attacks(grid, player_entity, player_hex);
                    *turn = TurnState::Active(Turn::Enemy);
                    CombatOutcome { attack_target: None, killed: kills, attackers }
                },
            }
        },
        _ => none_out,
    }
}

/// What a bomb tick does: the positions (in `fuses`) of the bombs that explode.
pub open spec fn exploding_spec(fuses: Seq<BombFuse>) -> Seq<int>
    decreases fuses.len(),
{
    if fuses.len() == 0 {
        Seq::empty()
    } else if fuses.last().turns_remaining == 0 {
        exploding_spec(fuses.drop_last()).push(fuses.len() - 1)
    } else {
        exploding_spec(fuses.drop_last())
    }
}

/// A bomb's fuse after one tick: bombs that do not explode lose one turn.
pub open spec fn ticked(f: BombFuse) -> BombFuse {
    if f.turns_remaining == 0 {
        f
    } else {
        BombFuse { turns_remaining: (f.turns_remaining - 1) as u8, ..f }
    }
}

/// Tick bomb fuses at the start of each player turn: only on the transition into the
/// player's turn (tracked in `was_player_turn`), every bomb with turns left loses one,
/// and the bombs with none left explode. Returns the positions in `fuses` of the
/// exploding bombs, in order; the caller applies the blasts and removes those bombs.
pub fn tick_bombs(turn: TurnState, was_player_turn: &mut bool, fuses: &mut Vec<BombFuse>) -> (exploding: Vec<usize>)
    ensures
        ({
            let is_player_turn = turn == TurnState::Active(Turn::Player);
            if !is_player_turn || *old(was_player_turn) {
                &&& *final(was_player_turn) == is_player_turn
                &&& final(fuses)@ == old(fuses)@
                &&& exploding@.len() == 0
            } else {
                &&& *final(was_player_turn)
                &&& final(fuses)@ == old(fuses)@.map_values(|f: BombFuse| ticked(f))
                &&& exploding@.map_values(|i: usize| i as int) == exploding_spec(old(fuses)@)
            }
        }),
{
    let is_player_turn = turn == TurnState::Active(Turn::Player);
    let mut exploding: Vec<usize> = Vec::new();
    if !is_player_turn || *was_player_turn {
        *was_player_turn = is_player_turn;
        return exploding;
    }
    *was_player_turn = true;
    let ghost f0 = fuses@;
    let mut i: usize = 0;
    while i < fuses.len()
        invariant
            i <= fuses@.len(),
            fuses@.len() == f0.len(),
            forall|k: int| 0 <= k < i ==> #[trigger] fuses@[k] == ticked(f0[k]),
            forall|k: int| i <= k < f0.len() ==> #[trigger] fuses@[k] == f0[k],
            exploding@.map_values(|j: usize| j as int) == exploding_spec(f0.take(i as int)),
        decreases f0.len() - i,
    {
        proof {
            assert(f0.take(i + 1).drop_last() =~= f0.take(i as int));
        }
        let f = fuses[i];
        if f.turns_remaining == 0 {
            exploding.push(i);
        } else {
            fuses.set(i, BombFuse { turns_remaining: f.turns_remaining - 1, ..f });
        }
        proof {
            assert(exploding@.map_values(|j: usize| j as int) =~= exploding_spec(f0.take(i + 1)));
        }
        i += 1;
    }
    assert(f0.take(f0.len() as int) =~= f0);
    assert(fuses@ =~= f0.map_values(|f: BombFuse| ticked(f)));
    exploding
}

/// Whether `pos` is hit by a bomb at `bomb_hex` with the given blast radius: it is one
/// of the hexes of the blast's spiral.
pub fn in_blast(bomb_hex: Hex, blast_radius: i32, pos: Hex) -> (hit: bool)
    requires
        blast_radius > 0 ==> coords_within(bomb_hex, blast_radius as int),
    ensures
        hit == spiral_seq(bomb_hex, blast_radius as int).contains(pos),
        bomb_hex.wf() && blast_radius >= 0 ==> (hit <==> pos.wf() && hex_dist(bomb_hex, pos) <= blast_radius),
{
    proof {
        if bomb_hex.wf() && blast_radius >= 0 {
            law_spiral_membership(bomb_hex, blast_radius as int, pos);
        }
    }
    let blast_hexes = bomb_hex.spiral(blast_radius);
    let mut i: usize = 0;
    while i < blast_hexes.len()
        invariant
            blast_hexes@ == spiral_seq(bomb_hex, blast_radius as int),
            bomb_hex.wf() && blast_radius >= 0 ==> (spiral_seq(bomb_hex, blast_radius as int).contains(pos) <==> pos.wf()
                && hex_dist(bomb_hex, pos) <= blast_radius),
            i <= blast_hexes@.len(),
            forall|k: int| 0 <= k < i ==> blast_hexes@[k] != pos,
        decreases blast_hexes@.len() - i,
    {
        if blast_hexes[i] == pos {
            assert(blast_hexes@[i as int] == pos);
            return true;
        }
        i += 1;
    }
    false
}

/// The tiles after `entity`, killed at `hex`, leaves the board: the tile is vacated if
/// the entity occupied it, and its ranges are cleared.
pub open spec fn remove_dead_spec(m: Map<Hex, TileView>, entity: EntityId, hex: Hex) -> Map<Hex, TileView> {
    let vacated = if m.contains_key(hex) && m[hex].occupant == Some(entity) {
        with_occupant(m, hex, None)
    } else {
        m
    };
    without_entity(vacated, entity)
}

/// Removes an entity killed by a blast from the board.
pub fn remove_dead(grid: &mut HexGrid<TileData>, entity: EntityId, hex: Hex)
    requires
        old(grid).wf(),
    ensures
        final(grid).wf(),
        final(grid).board_radius() == old(grid).board_radius(),
        tiles(*final(grid)) == remove_dead_spec(tiles(*old(grid)), entity, hex),
{
    let occupied_by_it = match grid.get(hex) {
        Some(tile) => tile.occupant == Some(entity),
        None => false,
    };
    if occupied_by_it {
        set_occupant(grid, hex, None);
    }
    clear_ranges(grid, entity);
}

} // verus!
