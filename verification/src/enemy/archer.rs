//! Archers: shoot along the player's diagonals.

use vstd::prelude::*;

use crate::components::{AttackPattern, Stats};
use crate::enemy::{moved_to, line_move, move_onto_lines};
use crate::grid::TileData;
use crate::hex::{coords_within, diagonal_seq, Hex};
use crate::hex_grid::HexGrid;

verus! {

/// The archer's attack pattern: the diagonals at distance 2 to 4.
pub fn attack_pattern() -> (p: AttackPattern)
    ensures
        p == (AttackPattern::DiagonalRanged { min_range: 2, max_range: 4 }),
{
    AttackPattern::DiagonalRanged { min_range: 2, max_range: 4 }
}

/// Archer AI: find a hex on the player's diagonals (NE-SW or NW-SE) at distance 2-4,
/// then pathfind there. If already in a valid position, stay put.
pub fn compute_move(grid: &HexGrid<TileData>, current: Hex, player_hex: Hex, stats: &Stats) -> (r: (Hex, Vec<Hex>))
    requires
        grid.wf(),
        coords_within(current, 1),
        coords_within(player_hex, 4),
    ensures
        line_move(*grid, current, player_hex, stats.move_range as int, diagonal_seq(player_hex, 2, 4), (r.0, r.1@)),
        moved_to(grid.board_radius(), current, (r.0, r.1@)),
{
    let valid_positions = player_hex.diagonal_attack_hexes(2, 4);
    move_onto_lines(grid, current, player_hex, stats.move_range, &valid_positions)
}

} // verus!
