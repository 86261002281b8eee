//! Bombers: throw bombs next to the player from a distance, otherwise close in.

use vstd::prelude::*;

use crate::components::{BombFuse, EntityId, Stats};
use crate::enemy::{moved_to, accept_all, chase_step, fallback_step, pathfind_and_step, random_step};
use crate::grid::{tiles, TileData};
use crate::hex::{coords_within, hex_dist, hex_len, step, wide_distance, Hex};
use crate::hex_grid::{board_neighbors, HexGrid};

verus! {

/// Min/max throw distance (in hex tiles).
pub const THROW_MIN: i32 = 2;
pub const THROW_MAX: i32 = 3;
/// Hexes within this many steps of a bomb are hit when it explodes.
pub const BOMB_BLAST_RADIUS: i32 = 1;
/// Player turns before a thrown bomb explodes.
pub const BOMB_FUSE_TURNS: u8 = 2;

/// Bomber AI result — either move toward the player or throw a bomb.
pub enum BomberAction {
    Move(Hex, Vec<Hex>),
    ThrowBomb { target_hex: Hex },
}

/// The content of a [`BomberAction`], with the path as a sequence.
pub enum BomberPlan {
    Move(Hex, Seq<Hex>),
    ThrowBomb(Hex),
}

impl View for BomberAction {
    type V = BomberPlan;

    open spec fn view(&self) -> BomberPlan {
        match self {
            BomberAction::Move(h, p) => BomberPlan::Move(*h, p@),
            BomberAction::ThrowBomb { target_hex } => BomberPlan::ThrowBomb(*target_hex),
        }
    }
}

/// Whether a bomb thrown from `current` may land on `n`: on the board and not on the
/// thrower.
pub open spec fn landing_ok(radius: int, current: Hex, n: Hex) -> bool {
    hex_len(n) <= radius && n != current
}

/// Whether `n` is a landing hex at throwing distance from `current`.
pub open spec fn in_throw_range(radius: int, current: Hex, n: Hex) -> bool {
    landing_ok(radius, current, n) && THROW_MIN <= hex_dist(current, n) <= THROW_MAX
}

/// The first hex of `s` at throwing distance with the least distance from `current`.
pub open spec fn nearest_in_range(radius: int, current: Hex, s: Seq<Hex>) -> Option<Hex>
    decreases s.len(),
{
    if s.len() == 0 {
        None
    } else {
        let b = nearest_in_range(radius, current, s.drop_last());
        let h = s.last();
        if in_throw_range(radius, current, h) && (b is None || hex_dist(current, h) < hex_dist(current, b->Some_0)) {
            Some(h)
        } else {
            b
        }
    }
}

/// The first hex of `s` a bomb may land on.
pub open spec fn first_landing(radius: int, current: Hex, s: Seq<Hex>) -> Option<Hex>
    decreases s.len(),
{
    if s.len() == 0 {
        None
    } else {
        let f = first_landing(radius, current, s.drop_last());
        if f is Some {
            f
        } else if landing_ok(radius, current, s.last()) {
            Some(s.last())
        } else {
            None
        }
    }
}

/// The six neighbors of the player, in directional order starting from E.
pub open spec fn around(player_hex: Hex) -> Seq<Hex> {
    Seq::new(6, |d: int| step(player_hex, d))
}

/// Where a bomber at `current` throws: the nearest neighbor of the player at
/// throwing distance, else the first neighbor of the player a bomb may land on.
pub open spec fn throw_target(radius: int, current: Hex, player_hex: Hex) -> Option<Hex> {
    let best = nearest_in_range(radius, current, around(player_hex));
    if best is Some {
        best
    } else {
        first_landing(radius, current, around(player_hex))
    }
}

/// Whether `r` is a bomber's action: a throw when the player is at throwing distance
/// and a landing hex exists; otherwise the chase towards the player when it moves and
/// ends at least at throwing distance; otherwise a random step (or staying put).
pub open spec fn bomber_plan(grid: HexGrid<TileData>, current: Hex, player_hex: Hex, stats: Stats, r: BomberPlan) -> bool {
    let radius = grid.board_radius();
    let dist = hex_dist(current, player_hex);
    if THROW_MIN <= dist <= THROW_MAX && throw_target(radius, current, player_hex) is Some {
        r == BomberPlan::ThrowBomb(throw_target(radius, current, player_hex)->Some_0)
    } else {
        exists|s: (Hex, Seq<Hex>)|
            #[trigger] chase_step(grid, current, player_hex, stats.move_range as int, s) && if s.0 != current
                && hex_dist(s.0, player_hex) >= THROW_MIN {
                r == BomberPlan::Move(s.0, s.1)
            } else {
                r matches BomberPlan::Move(h, p) && fallback_step(
                    tiles(grid),
                    board_neighbors(radius, current),
                    accept_all(board_neighbors(radius, current).len()),
                    current,
                    (h, p),
                )
            }
    }
}

/// Picks where a bomber at `current` throws its bomb (see [`throw_target`]).
fn pick_throw_target(grid: &HexGrid<TileData>, current: Hex, player_hex: Hex) -> (t: Option<Hex>)
    requires
        coords_within(player_hex, 1),
    ensures
        t == throw_target(grid.board_radius(), current, player_hex),
{
    let ghost radius = grid.board_radius();
    let nbs = player_hex.neighbors();
    let ghost s = around(player_hex);
    assert(nbs@ =~= s);
    let mut best_target: Option<Hex> = None;
    let mut best_dist: i64 = i64::MAX;
    let mut i: usize = 0;
    while i < 6
        invariant
            i <= 6,
            nbs@ == s,
            s.len() == 6,
            radius == grid.board_radius(),
            best_target == nearest_in_range(radius, current, s.take(i as int)),
            best_target matches Some(b) ==> best_dist == hex_dist(current, b),
        decreases 6 - i,
    {
        proof {
            assert(s.take(i + 1).drop_last() =~= s.take(i as int));
        }
        let neighbor = nbs[i];
        if grid.contains(neighbor) && neighbor != current {
            let d = wide_distance(current, neighbor);
            if d >= THROW_MIN as i64 && d <= THROW_MAX as i64 && (best_target.is_none() || d < best_dist) {
                best_dist = d;
                best_target = Some(neighbor);
            }
        }
        i += 1;
    }
    assert(s.take(6) =~= s);
    if best_target.is_none() {
        let mut j: usize = 0;
        while j < 6
            invariant
                j <= 6,
                nbs@ == s,
                s.len() == 6,
                radius == grid.board_radius(),
                best_target == first_landing(radius, current, s.take(j as int)),
                nearest_in_range(radius, current, s) is None,
            decreases 6 - j,
        {
            proof {
                assert(s.take(j + 1).drop_last() =~= s.take(j as int));
            }
            let neighbor = nbs[j];
            if grid.contains(neighbor) && neighbor != current {
                if best_target.is_none() {
                    best_target = Some(neighbor);
                }
            }
            j += 1;
        }
        assert(s.take(6) =~= s);
    }
    best_target
}

/// Bomber AI: if within throw range (2-3 tiles) of the player, throw a bomb onto a
/// neighboring tile of the player. Otherwise, move toward the player like a melee
/// grunt, but stop at throw range.
pub fn compute_action(grid: &HexGrid<TileData>, current: Hex, player_hex: Hex, stats: &Stats) -> (a: BomberAction)
    requires
        grid.wf(),
        coords_within(current, 1),
        coords_within(player_hex, 1),
    ensures
        bomber_plan(*grid, current, player_hex, *stats, a@),
        a@ matches BomberPlan::Move(h, p) ==> moved_to(grid.board_radius(), current, (h, p)),
{
    let dist = wide_distance(current, player_hex);

    // If in throw range, throw bomb onto a neighboring tile of the player
    if dist >= THROW_MIN as i64 && dist <= THROW_MAX as i64 {
        if let Some(target) = pick_throw_target(grid, current, player_hex) {
            return BomberAction::ThrowBomb { target_hex: target };
        }
    }
    // Otherwise move toward the player, but stop at throw range
    let (destination, move_path) = pathfind_and_step(grid, current, player_hex, stats.move_range);
    let ghost s = (destination, move_path@);
    if destination != current && wide_distance(destination, player_hex) >= THROW_MIN as i64 {
        return BomberAction::Move(destination, move_path);
    }
    // Fallback: random traversable neighbor
    let (h, p) = random_step(grid, current);
    BomberAction::Move(h, p)
}

/// A fresh bomb thrown by `owner`: it explodes after two player turns and hits the hexes
/// within one step of it.
pub fn new_bomb(owner: EntityId) -> (b: BombFuse)
    ensures
        b == (BombFuse { owner, turns_remaining: BOMB_FUSE_TURNS, blast_radius: BOMB_BLAST_RADIUS }),
{
    BombFuse { owner, turns_remaining: BOMB_FUSE_TURNS, blast_radius: BOMB_BLAST_RADIUS }
}

} // verus!
