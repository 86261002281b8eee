//! Whose turn it is, and what happens between turns.

use vstd::prelude::*;

use crate::components::EntityId;
use crate::hex::Hex;

verus! {

/// The side whose turn it is.
#[derive(Debug, Clone, Copy, PartialEq, Eq, Structural)]
pub enum Turn {
    Player,
    Enemy,
}

/// Phases inserted between movement and next turn for combat resolution.
#[derive(Debug, Clone, Copy, PartialEq, Eq, Structural)]
pub enum CombatPhase {
    /// After player moves: player attacks enemies in range, then enemies attack player if in range.
    AfterPlayerMove,
    /// Waiting for player attack animation to finish before applying kills.
    PlayerAttackAnimating,
    /// After all enemies move: (reserved for future use).
    AfterEnemyMove,
}

/// What to transition to after an animation finishes.
#[derive(Debug, Clone, Copy, PartialEq, Eq, Structural)]
pub enum TurnPhase {
    Turn(Turn),
    Combat(CombatPhase),
}

/// The state of the turn cycle.
#[derive(Debug, Clone, Copy, PartialEq, Eq, Structural)]
pub enum TurnState {
    /// Waiting for this turn's entity to act.
    Active(Turn),
    /// An entity is animating; once done, switch to `next`.
    Animating { next: TurnPhase },
    /// Resolving combat after movement.
    Combat(CombatPhase),
}

/// Player input and hover state.
#[derive(Debug, Clone, Copy, PartialEq, Eq, Structural)]
pub struct GameSettings {
    pub selected_hex: Option<Hex>,
    pub hovered_enemy: Option<EntityId>,
    /// Currently hovered bomb entity (to show blast radius).
    pub hovered_bomb: Option<EntityId>,
    /// Player's hex before the current move, used by combat resolution.
    pub player_prev_hex: Option<Hex>,
}

/// Enemies queued to be killed after the player's attack animation finishes.
#[derive(Debug, Clone)]
pub struct PendingKills(pub Vec<(EntityId, Hex)>);

/// The state that follows an animating state once no movement animation is left;
/// any other state is kept.
pub open spec fn after_animation_spec(turn: TurnState, animating: bool) -> TurnState {
    match turn {
        TurnState::Animating { next } => if animating {
            turn
        } else {
            match next {
                TurnPhase::Turn(t) => TurnState::Active(t),
                TurnPhase::Combat(c) => TurnState::Combat(c),
            }
        },
        _ => turn,
    }
}

/// When all movement animations finish, advance to the next phase.
pub fn check_animation_done(turn: &mut TurnState, animating: bool)
    ensures
        *final(turn) == after_animation_spec(*old(turn), animating),
{
    if let TurnState::Animating { next } = *turn {
        if !animating {
            *turn = match next {
                TurnPhase::Turn(t) => TurnState::Active(t),
                TurnPhase::Combat(c) => TurnState::Combat(c),
            };
        }
    }
}

} // verus!
