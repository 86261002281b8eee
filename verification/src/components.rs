//! Plain data carried by game entities: identities, positions, stats and kinds.

use vstd::prelude::*;

use crate::hex::Hex;

verus! {

/// Identity of a game entity, as the bits of the engine's entity handle.
#[derive(Debug, Clone, Copy, PartialEq, Eq, Hash, Structural)]
pub struct EntityId(pub u64);

/// The hex an entity stands on.
#[derive(Debug, Clone, Copy, PartialEq, Eq, Structural)]
pub struct HexPosition(pub Hex);

/// Per-entity combat stats.
#[derive(Debug, Clone, Copy, PartialEq, Eq, Structural)]
pub struct Stats {
    /// 0 means unlimited range (can move to any reachable tile).
    pub move_range: i32,
    pub attack_range: i32,
}

/// The behavior family of an enemy.
#[derive(Debug, Clone, Copy, PartialEq, Eq, Structural)]
pub enum EnemyKind {
    Melee,
    Archer,
    Warlock,
    Bomber,
}

/// The hexes an enemy threatens, when not simply every hex within its attack range.
#[derive(Debug, Clone, Copy, PartialEq, Eq, Structural)]
pub enum AttackPattern {
    /// Along the NE-SW and NW-SE lines through the attacker, at distance `min_range..=max_range`.
    DiagonalRanged { min_range: i32, max_range: i32 },
    /// Along all six directions from the attacker, at distance `min_range..=max_range`.
    AllDirectionsRanged { min_range: i32, max_range: i32 },
}

/// The fuse of a bomb lying on the board.
#[derive(Debug, Clone, Copy, PartialEq, Eq, Structural)]
pub struct BombFuse {
    /// The enemy that threw the bomb.
    pub owner: EntityId,
    /// Player turns left before it explodes.
    pub turns_remaining: u8,
    /// Hexes within this many steps of the bomb are hit.
    pub blast_radius: i32,
}

} // verus!
