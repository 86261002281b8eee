//! Melee enemies: chase the player.

use vstd::prelude::*;

use crate::components::Stats;
use crate::enemy::{moved_to, accept_all, chase_step, fallback_step, pathfind_and_step, random_step};
use crate::grid::{tiles, TileData};
use crate::hex::{coords_within, Hex};
use crate::hex_grid::{board_neighbors, HexGrid};

verus! {

/// Whether `r` is a melee enemy's move from `current`: the chase towards the player
/// when it moves, otherwise a random step to a passable neighbor (or staying put).
pub open spec fn melee_move(grid: HexGrid<TileData>, current: Hex, player_hex: Hex, stats: Stats, r: (Hex, Seq<Hex>)) -> bool {
    exists|s: (Hex, Seq<Hex>)|
        #[trigger] chase_step(grid, current, player_hex, stats.move_range as int, s) && if s.0 != current {
            r == s
        } else {
            fallback_step(
                tiles(grid),
                board_neighbors(grid.board_radius(), current),
                accept_all(board_neighbors(grid.board_radius(), current).len()),
                current,
                r,
            )
        }
}

/// Melee AI: pathfind toward the player, take up to move_range steps.
/// Falls back to a random passable neighbor if stuck.
pub fn compute_move(grid: &HexGrid<TileData>, current: Hex, player_hex: Hex, stats: &Stats) -> (r: (Hex, Vec<Hex>))
    requires
        grid.wf(),
        coords_within(current, 1),
    ensures
        melee_move(*grid, current, player_hex, *stats, (r.0, r.1@)),
        moved_to(grid.board_radius(), current, (r.0, r.1@)),
{
    let (destination, move_path) = pathfind_and_step(grid, current, player_hex, stats.move_range);
    let ghost s = (destination, move_path@);
    if destination != current {
        return (destination, move_path);
    }
    random_step(grid, current)
}

} // verus!
