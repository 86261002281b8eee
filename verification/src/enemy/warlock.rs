//! Warlocks: cast along the six directions from the player.

use vstd::prelude::*;

use crate::components::{AttackPattern, Stats};
use crate::enemy::{moved_to, line_move, move_onto_lines};
use crate::grid::TileData;
use crate::hex::{all_directions_seq, coords_within, Hex};
use crate::hex_grid::HexGrid;

verus! {

/// How many warlocks a level without its own counts spawns.
pub const WARLOCK_COUNT: usize = 1;

/// The warlock's attack pattern: all six directions at distance 2 to 5.
pub fn attack_pattern() -> (p: AttackPattern)
    ensures
        p == (AttackPattern::AllDirectionsRanged { min_range: 2, max_range: 5 }),
{
    AttackPattern::AllDirectionsRanged { min_range: 2, max_range: 5 }
}

/// Warlock AI: find a hex along any of the 6 directions from the player at distance 2-4,
/// then pathfind there. If already in a valid position, stay put.
pub fn compute_move(grid: &HexGrid<TileData>, current: Hex, player_hex: Hex, stats: &Stats) -> (r: (Hex, Vec<Hex>))
    requires
        grid.wf(),
        coords_within(current, 1),
        coords_within(player_hex, 4),
    ensures
        line_move(*grid, current, player_hex, stats.move_range as int, all_directions_seq(player_hex, 2, 4), (r.0, r.1@)),
        moved_to(grid.board_radius(), current, (r.0, r.1@)),
{
    let valid_positions = player_hex.all_directions_attack_hexes(2, 4);
    move_onto_lines(grid, current, player_hex, stats.move_range, &valid_positions)
}

/// The hexes warlocks spawn on when a level does not give their count: the first
/// [`WARLOCK_COUNT`] candidates (all of them when there are fewer).
pub fn warlock_spawn_hexes(candidates: &[Hex]) -> (v: Vec<Hex>)
    ensures
        v@ == candidates@.take(if WARLOCK_COUNT < candidates@.len() {
            WARLOCK_COUNT as int
        } else {
            candidates@.len() as int
        }),
{
    let mut v: Vec<Hex> = Vec::new();
    let mut i: usize = 0;
    while i < WARLOCK_COUNT && i < candidates.len()
        invariant
            i <= WARLOCK_COUNT,
            i <= candidates@.len(),
            v@ == candidates@.take(i as int),
        decreases candidates@.len() - i,
    {
        v.push(candidates[i]);
        i += 1;
        assert(v@ =~= candidates@.take(i as int));
    }
    v
}

} // verus!
