//! The player: where it starts, and moving it to the hex the player selected.

use vstd::prelude::*;

use crate::components::{EntityId, HexPosition, Stats};
use crate::grid::{board_fits, is_passable, lemma_board_fits, move_entity, passable_spec, relocated, tiles, TileData, TileView};
use crate::hex::Hex;
use crate::hex_grid::{in_board, HexGrid};
use crate::pathfinding::{is_route, opt_seq, passable_at, shortest_walk};
use crate::random::{shuffle_hexes, thread_rng};
use crate::turn::{CombatPhase, GameSettings, Turn, TurnPhase, TurnState};
use crate::undo::{capture_snapshot, captures, has_entity, push_undo, TurnMoveOrder, UndoHistory};

verus! {

/// The player's stats: it moves and attacks one step.
pub fn player_stats() -> (s: Stats)
    ensures
        s == (Stats { move_range: 1, attack_range: 1 }),
{
    Stats { move_range: 1, attack_range: 1 }
}

/// The board hexes the player may start on, in random order.
pub fn start_candidates(grid: &HexGrid<TileData>) -> (v: Vec<Hex>)
    requires
        grid.wf(),
    ensures
        v@.to_multiset() == grid.cells_seq().filter(|h: Hex| passable_spec(tiles(*grid), h)).to_multiset(),
{
    let cells = grid.positions();
    let ghost pred = |h: Hex| passable_spec(tiles(*grid), h);
    let mut v: Vec<Hex> = Vec::new();
    let mut k: usize = 0;
    while k < cells.len()
        invariant
            grid.wf(),
            cells@ == grid.cells_seq(),
            pred == (|h: Hex| passable_spec(tiles(*grid), h)),
            k <= cells@.len(),
            v@ == cells@.take(k as int).filter(pred),
        decreases cells@.len() - k,
    {
        proof {
            reveal(Seq::filter);
            assert(cells@.take(k + 1).drop_last() =~= cells@.take(k as int));
        }
        if is_passable(grid, cells[k]) {
            v.push(cells[k]);
        }
        k += 1;
    }
    assert(cells@.take(cells@.len() as int) =~= cells@);
    let mut rng = thread_rng();
    shuffle_hexes(&mut v, &mut rng);
    v
}

/// A random passable hex for the player to start on; the board must have one.
pub fn choose_player_start(grid: &HexGrid<TileData>) -> (h: Hex)
    requires
        grid.wf(),
        exists|x: Hex| passable_spec(tiles(*grid), x),
    ensures
        passable_spec(tiles(*grid), h),
{
    let candidates = start_candidates(grid);
    let ghost pred = |h: Hex| passable_spec(tiles(*grid), h);
    proof {
        broadcast use vstd::seq_lib::group_to_multiset_ensures;
        let x = choose|x: Hex| passable_spec(tiles(*grid), x);
        grid.lemma_dom();
        grid.lemma_in_board(x);
        grid.lemma_wf();
        crate::hex_laws::law_spiral_size(crate::hex_grid::origin(), grid.board_radius());
        let i = crate::hex_laws::spiral_index(crate::hex_grid::origin(), x);
        grid.cells_seq().lemma_filter_contains(pred, i);
        let f = grid.cells_seq().filter(pred);
        assert(f.to_multiset().count(x) > 0);
        assert(candidates@.to_multiset().count(x) > 0);
        assert(candidates@.len() > 0);
    }
    let h = candidates[0];
    proof {
        broadcast use vstd::seq_lib::group_to_multiset_ensures;
        let f = grid.cells_seq().filter(pred);
        assert(candidates@.contains(h));
        assert(f.to_multiset().count(h) > 0);
        assert(f.contains(h));
        let j = choose|j: int| 0 <= j < f.len() && f[j] == h;
        grid.cells_seq().lemma_filter_pred(pred, j);
    }
    h
}

/// Whether the player `entity` may move onto `target`: a traversable, unoccupied tile
/// within its move range (any tile when its move range is 0).
pub open spec fn can_move_to(m: Map<Hex, TileView>, target: Hex, entity: EntityId, stats: Stats) -> bool {
    &&& m.contains_key(target)
    &&& m[target].traversable
    &&& m[target].occupant is None
    &&& stats.move_range == 0 || m[target].move_ranges.contains(entity)
}

/// For each board cell, whether it is passable.
pub open spec fn pass_flags(m: Map<Hex, TileView>, cells: Seq<Hex>) -> Seq<bool> {
    Seq::new(cells.len(), |k: int| passable_spec(m, cells[k]))
}

/// The hex the player asks to move to this frame, if the move is allowed: it is the
/// player's turn, a hex other than its own is selected, and it may move there.
pub open spec fn requested_move(
    turn: TurnState,
    settings: GameSettings,
    pos: Hex,
    m: Map<Hex, TileView>,
    entity: EntityId,
    stats: Stats,
) -> Option<Hex> {
    match settings.selected_hex {
        Some(t) => if turn == TurnState::Active(Turn::Player) && t != pos && can_move_to(m, t, entity, stats) {
            Some(t)
        } else {
            None
        },
        None => None,
    }
}

/// Moves the player to the selected hex along a shortest walk over passable tiles, when
/// the move is allowed and such a walk exists. The state before the move is saved for
/// undo, the move order restarts with the player, the selection is cleared and the
/// previous hex recorded, and combat follows the animation. Returns the walk taken.
pub fn handle_player_move(
    grid: &mut HexGrid<TileData>,
    turn: &mut TurnState,
    settings: &mut GameSettings,
    history: &mut UndoHistory,
    move_order: &mut TurnMoveOrder,
    entity: EntityId,
    hex_pos: &mut HexPosition,
    stats: &Stats,
) -> (path: Option<Vec<Hex>>)
    requires
        old(grid).wf(),
        board_fits(old(grid).board_radius(), *stats, None),
    ensures
        final(grid).wf(),
        final(grid).board_radius() == old(grid).board_radius(),
        ({
            let m0 = tiles(*old(grid));
            let pos = old(hex_pos).0;
            let flags = pass_flags(m0, old(grid).cells_seq());
            match requested_move(*old(turn), *old(settings), pos, m0, entity, *stats) {
                None => path is None,
                Some(t) => (path is Some <==> exists|q: Seq<Hex>|
                    #[trigger] is_route(old(grid).board_radius(), pos, t, flags, q, t)) && (path matches Some(
                    p,
                ) ==> shortest_walk(old(grid).board_radius(), pos, t, flags, Some(p@))),
            }
        }),
        path is None ==> {
            &&& tiles(*final(grid)) == tiles(*old(grid))
            &&& *final(turn) == *old(turn)
            &&& *final(settings) == *old(settings)
            &&& final(history).undo_stack@ == old(history).undo_stack@
            &&& final(history).redo_stack@ == old(history).redo_stack@
            &&& final(move_order).0@ == old(move_order).0@
            &&& *final(hex_pos) == *old(hex_pos)
        },
        path is Some ==> {
            let t = old(settings).selected_hex->Some_0;
            &&& final(history).undo_stack@.len() == old(history).undo_stack@.len() + 1
            &&& final(history).undo_stack@.drop_last() == old(history).undo_stack@
            &&& captures(final(history).undo_stack@.last()@, *old(grid), *old(turn), old(move_order).0@)
            &&& final(history).redo_stack@ == Seq::<crate::undo::GameSnapshot>::empty()
            &&& final(move_order).0@ == seq![entity]
            &&& *final(settings) == (GameSettings {
                selected_hex: None,
                player_prev_hex: Some(old(hex_pos).0),
                ..*old(settings)
            })
            &&& *final(hex_pos) == HexPosition(t)
            &&& tiles(*final(grid)) == relocated(tiles(*old(grid)), entity, old(hex_pos).0, t, *stats, None)
            &&& *final(turn) == TurnState::Animating { next: TurnPhase::Combat(CombatPhase::AfterPlayerMove) }
        },
{
    if *turn != TurnState::Active(Turn::Player) {
        return None;
    }
    let target = match settings.selected_hex {
        None => {
            return None;
        },
        Some(t) => t,
    };
    if hex_pos.0 == target {
        return None;
    }
    let can_move = match grid.get(target) {
        Some(t) => t.traversable && t.occupant.is_none() && (stats.move_range == 0 || has_entity(
            &t.move_ranges,
            entity,
        )),
        None => false,
    };
    if !can_move {
        return None;
    }
    let ghost m0 = tiles(*grid);
    let ghost g0 = *grid;
    let ghost start = hex_pos.0;
    let board: &HexGrid<TileData> = &*grid;
    let passable = |h: Hex| -> (b: bool)
        requires
            board.wf(),
        ensures
            b == passable_spec(tiles(*board), h),
        {
            is_passable(board, h)
        };
    let found = grid.astar(hex_pos.0, target, passable);
    proof {
        let flags = pass_flags(m0, g0.cells_seq());
        assert forall|h: Hex, b: bool|
            in_board(g0.board_radius(), h) && h != start && h != target && #[trigger] passable.ensures((h,), b)
                implies passable_at(flags, h) == b by {
            g0.lemma_in_board(h);
            g0.lemma_wf();
            assert(b == passable_spec(tiles(*board), h));
        }
        assert(shortest_walk(g0.board_radius(), start, target, flags, opt_seq(found)));
    }
    match found {
        None => None,
        Some(p) => {
            proof {
                let flags = pass_flags(m0, g0.cells_seq());
                assert(is_route(g0.board_radius(), start, target, flags, p@, target));
                assert(in_board(g0.board_radius(), p@.last()));
                lemma_board_fits(g0.board_radius(), target, *stats, None);
            }
            let snapshot = capture_snapshot(grid, turn, move_order);
            push_undo(history, snapshot);
            proof {
                assert(history.undo_stack@.drop_last() =~= old(history).undo_stack@);
            }
            move_order.0.clear();
            move_order.0.push(entity);
            assert(move_order.0@ =~= seq![entity]);
            settings.selected_hex = None;
            settings.player_prev_hex = Some(hex_pos.0);
            move_entity(
                grid,
                turn,
                entity,
                hex_pos,
                p.as_slice(),
                stats,
                TurnPhase::Combat(CombatPhase::AfterPlayerMove),
            );
            Some(p)
        },
    }
}

} // verus!
