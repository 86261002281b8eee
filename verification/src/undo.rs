//! Undo and redo: snapshots of the game state, the two history stacks, restoring a
//! snapshot, and the order in which moved entities are animated back.

use vstd::prelude::*;

use crate::components::EntityId;
use crate::grid::{tiles, TileData, TileView};
use crate::hex::{hex_len, Hex};
use crate::hex_grid::HexGrid;
use crate::enemy::EnemyTurnQueue;
use crate::turn::{Turn, TurnState};

verus! {

/// Signals an undo or redo action to be processed this frame.
#[derive(Debug, Clone, Copy, PartialEq, Eq, Structural)]
pub enum UndoAction {
    /// Nothing requested.
    Idle,
    Undo,
    Redo,
}

/// Tracks the order entities moved during the current turn sequence.
/// Reset at the start of each player move. Used to build animation order for undo/redo.
#[derive(Debug, Clone)]
pub struct TurnMoveOrder(pub Vec<EntityId>);

impl Default for TurnMoveOrder {
    fn default() -> (o: Self)
        ensures
            o.0@ == Seq::<EntityId>::empty(),
    {
        TurnMoveOrder(Vec::new())
    }
}

/// A snapshot of all game state needed to restore a turn.
#[derive(Debug, Clone)]
pub struct GameSnapshot {
    pub turn_state: TurnState,
    pub grid_cells: Vec<(Hex, TileData)>,
    pub positions: Vec<(EntityId, Hex)>,
    /// Order entities moved in this turn sequence (player first, then enemies).
    pub move_order: Vec<EntityId>,
}

/// The content of a [`GameSnapshot`], with its lists as sequences.
pub struct SnapshotView {
    pub turn_state: TurnState,
    pub grid_cells: Seq<(Hex, TileView)>,
    pub positions: Seq<(EntityId, Hex)>,
    pub move_order: Seq<EntityId>,
}

impl View for GameSnapshot {
    type V = SnapshotView;

    open spec fn view(&self) -> SnapshotView {
        SnapshotView {
            turn_state: self.turn_state,
            grid_cells: self.grid_cells@.map_values(|c: (Hex, TileData)| (c.0, c.1@)),
            positions: self.positions@,
            move_order: self.move_order@,
        }
    }
}

/// The two history stacks; the last entry of each is the next to be restored.
#[derive(Debug, Clone)]
pub struct UndoHistory {
    pub undo_stack: Vec<GameSnapshot>,
    pub redo_stack: Vec<GameSnapshot>,
}

impl Default for UndoHistory {
    fn default() -> (h: Self)
        ensures
            h.undo_stack@ == Seq::<GameSnapshot>::empty(),
            h.redo_stack@ == Seq::<GameSnapshot>::empty(),
    {
        UndoHistory { undo_stack: Vec::new(), redo_stack: Vec::new() }
    }
}

/// Whether `cells` lists the tiles of `m`: each entry is a tile of `m` with its content,
/// each tile is listed, and no hex is listed twice.
pub open spec fn lists_tiles(cells: Seq<(Hex, TileView)>, m: Map<Hex, TileView>) -> bool {
    &&& forall|i: int| 0 <= i < cells.len() ==> #[trigger] m.contains_key(cells[i].0) && m[cells[i].0] == cells[i].1
    &&& forall|h: Hex| #[trigger] m.contains_key(h) ==> exists|i: int| 0 <= i < cells.len() && cells[i].0 == h
    &&& forall|i: int, j: int| 0 <= i < j < cells.len() ==> cells[i].0 != cells[j].0
}

/// The occupants of the listed tiles, each with its hex, in the order listed.
pub open spec fn occupied_pairs(cells: Seq<(Hex, TileView)>) -> Seq<(EntityId, Hex)>
    decreases cells.len(),
{
    if cells.len() == 0 {
        Seq::empty()
    } else {
        let rest = occupied_pairs(cells.drop_last());
        match cells.last().1.occupant {
            Some(e) => rest.push((e, cells.last().0)),
            None => rest,
        }
    }
}

/// The tiles of the board, each with its hex, in spiral order.
pub open spec fn tile_listing(grid: HexGrid<TileData>) -> Seq<(Hex, TileView)> {
    grid.occupied_hexes().map_values(|h: Hex| (h, tiles(grid)[h]))
}

/// Whether `s` is a snapshot of the given grid, turn and move order: the grid's tiles
/// in spiral order, the occupants in that order, the turn and the move order.
pub open spec fn captures(s: SnapshotView, grid: HexGrid<TileData>, turn: TurnState, move_order: Seq<EntityId>) -> bool {
    &&& s.turn_state == turn
    &&& s.grid_cells == tile_listing(grid)
    &&& lists_tiles(s.grid_cells, tiles(grid))
    &&& s.positions == occupied_pairs(s.grid_cells)
    &&& s.move_order == move_order
}

/// Whether every hex a snapshot lists is a valid hex.
pub open spec fn snapshot_wf(s: GameSnapshot) -> bool {
    forall|i: int| 0 <= i < s.grid_cells@.len() ==> (#[trigger] s.grid_cells@[i]).0.wf()
}

impl UndoHistory {
    /// Whether every stored snapshot lists valid hexes only.
    pub open spec fn wf(&self) -> bool {
        &&& forall|i: int| 0 <= i < self.undo_stack@.len() ==> snapshot_wf(#[trigger] self.undo_stack@[i])
        &&& forall|i: int| 0 <= i < self.redo_stack@.len() ==> snapshot_wf(#[trigger] self.redo_stack@[i])
    }
}

/// A copy of a list of entities.
pub(crate) fn copy_ids(v: &Vec<EntityId>) -> (c: Vec<EntityId>)
    ensures
        c@ == v@,
{
    let mut c: Vec<EntityId> = Vec::new();
    let mut i: usize = 0;
    while i < v.len()
        invariant
            i <= v@.len(),
            c@ == v@.take(i as int),
        decreases v@.len() - i,
    {
        c.push(v[i]);
        i += 1;
        assert(c@ =~= v@.take(i as int));
    }
    assert(v@.take(v@.len() as int) =~= v@);
    c
}

impl TileData {
    /// A copy of this tile's content.
    pub fn duplicate(&self) -> (t: TileData)
        ensures
            t@ == self@,
    {
        TileData {
            tile_entity: self.tile_entity,
            occupant: self.occupant,
            traversable: self.traversable,
            attack_ranges: copy_ids(&self.attack_ranges),
            move_ranges: copy_ids(&self.move_ranges),
        }
    }
}

/// Records the grid's tiles (in spiral order), the occupants with their hexes, the
/// turn and the move order.
pub fn capture_snapshot(grid: &HexGrid<TileData>, turn: &TurnState, move_order: &TurnMoveOrder) -> (s: GameSnapshot)
    requires
        grid.wf(),
    ensures
        captures(s@, *grid, *turn, move_order.0@),
        snapshot_wf(s),
{
    let ghost m = tiles(*grid);
    let cells = grid.iter();
    let mut grid_cells: Vec<(Hex, TileData)> = Vec::new();
    let mut positions: Vec<(EntityId, Hex)> = Vec::new();
    let mut k: usize = 0;
    proof {
        grid.lemma_dom();
    }
    while k < cells.len()
        invariant
            k <= cells@.len(),
            m == tiles(*grid),
            forall|i: int|
                0 <= i < cells@.len() ==> #[trigger] grid@.contains_key(cells@[i].0) && *cells@[i].1 == grid@[cells@[i].0],
            forall|h: Hex| #[trigger] grid@.contains_key(h) ==> crate::hex_grid::in_board(grid.board_radius(), h),
            cells@.len() == grid.occupied_hexes().len(),
            forall|i: int| 0 <= i < cells@.len() ==> #[trigger] cells@[i].0 == grid.occupied_hexes()[i],
            grid_cells@.len() == k,
            forall|i: int| 0 <= i < k ==> (#[trigger] grid_cells@[i]).0 == cells@[i].0 && grid_cells@[i].1@ == cells@[i].1@,
            positions@ == occupied_pairs(grid_cells@.map_values(|c: (Hex, TileData)| (c.0, c.1@))),
        decreases cells@.len() - k,
    {
        let (h, t) = cells[k];
        let ghost before = grid_cells@.map_values(|c: (Hex, TileData)| (c.0, c.1@));
        grid_cells.push((h, t.duplicate()));
        let ghost after = grid_cells@.map_values(|c: (Hex, TileData)| (c.0, c.1@));
        assert(after.drop_last() =~= before);
        if let Some(e) = t.occupant {
            positions.push((e, h));
        }
        k += 1;
    }
    let s = GameSnapshot {
        turn_state: *turn,
        grid_cells,
        positions,
        move_order: copy_ids(&move_order.0),
    };
    proof {
        let cv = s@.grid_cells;
        assert(cv =~= tile_listing(*grid));
        assert forall|i: int| 0 <= i < cv.len() implies #[trigger] m.contains_key(cv[i].0) && m[cv[i].0] == cv[i].1 by {
            assert(grid@.contains_key(cells@[i].0));
        }
        assert forall|h: Hex| #[trigger] m.contains_key(h) implies exists|i: int| 0 <= i < cv.len() && cv[i].0 == h by {
            let i = choose|i: int| 0 <= i < cells@.len() && cells@[i].0 == h;
            assert(cv[i].0 == h);
        }
        assert forall|i: int| 0 <= i < s.grid_cells@.len() implies (#[trigger] s.grid_cells@[i]).0.wf() by {
            assert(grid@.contains_key(cells@[i].0));
        }
    }
    s
}

/// Saves `snapshot` as the state to return to on the next undo; anything that could
/// be redone is dropped.
pub fn push_undo(history: &mut UndoHistory, snapshot: GameSnapshot)
    ensures
        final(history).undo_stack@ == old(history).undo_stack@.push(snapshot),
        final(history).redo_stack@ == Seq::<GameSnapshot>::empty(),
{
    history.undo_stack.push(snapshot);
    history.redo_stack.clear();
}

/// The tiles `m` with each listed tile on a board of `radius` written in turn.
pub open spec fn restored(m: Map<Hex, TileView>, cells: Seq<(Hex, TileView)>, radius: int) -> Map<Hex, TileView>
    decreases cells.len(),
{
    if cells.len() == 0 {
        m
    } else {
        let prev = restored(m, cells.drop_last(), radius);
        if hex_len(cells.last().0) <= radius {
            prev.insert(cells.last().0, cells.last().1)
        } else {
            prev
        }
    }
}

/// Writes the snapshot's tiles back into the grid and restores its turn state.
pub fn restore_snapshot(snapshot: &GameSnapshot, grid: &mut HexGrid<TileData>, turn: &mut TurnState)
    requires
        old(grid).wf(),
        snapshot_wf(*snapshot),
    ensures
        final(grid).wf(),
        final(grid).board_radius() == old(grid).board_radius(),
        tiles(*final(grid)) == restored(tiles(*old(grid)), snapshot@.grid_cells, old(grid).board_radius()),
        *final(turn) == snapshot.turn_state,
{
    let ghost m0 = tiles(*grid);
    let ghost cv = snapshot@.grid_cells;
    let ghost radius = grid.board_radius();
    let mut k: usize = 0;
    while k < snapshot.grid_cells.len()
        invariant
            grid.wf(),
            grid.board_radius() == radius,
            snapshot_wf(*snapshot),
            cv == snapshot@.grid_cells,
            k <= cv.len(),
            tiles(*grid) == restored(m0, cv.take(k as int), radius),
        decreases cv.len() - k,
    {
        let ghost before = tiles(*grid);
        let (h, ref t) = snapshot.grid_cells[k];
        assert(snapshot.grid_cells@[k as int].0.wf());
        grid.insert(h, t.duplicate());
        proof {
            assert(cv.take(k + 1).drop_last() =~= cv.take(k as int));
            assert(cv.take(k + 1).last() == cv[k as int]);
            if hex_len(h) <= radius {
                assert(tiles(*grid) =~= before.insert(h, t@));
            } else {
                assert(tiles(*grid) =~= before);
            }
        }
        k += 1;
    }
    assert(cv.take(cv.len() as int) =~= cv);
    *turn = snapshot.turn_state;
}

/// The occupants of the tiles of `cells`, in that order.
pub open spec fn occupants_in(m: Map<Hex, TileView>, cells: Seq<Hex>) -> Seq<EntityId>
    decreases cells.len(),
{
    if cells.len() == 0 {
        Seq::empty()
    } else {
        let rest = occupants_in(m, cells.drop_last());
        let h = cells.last();
        if m.contains_key(h) && m[h].occupant is Some {
            rest.push(m[h].occupant->Some_0)
        } else {
            rest
        }
    }
}

/// The occupants of the board, in spiral order.
pub fn occupants(grid: &HexGrid<TileData>) -> (v: Vec<EntityId>)
    requires
        grid.wf(),
    ensures
        v@ == occupants_in(tiles(*grid), grid.cells_seq()),
{
    let cells = grid.positions();
    let mut v: Vec<EntityId> = Vec::new();
    let mut k: usize = 0;
    while k < cells.len()
        invariant
            grid.wf(),
            cells@ == grid.cells_seq(),
            k <= cells@.len(),
            v@ == occupants_in(tiles(*grid), cells@.take(k as int)),
        decreases cells@.len() - k,
    {
        proof {
            assert(cells@.take(k + 1).drop_last() =~= cells@.take(k as int));
            assert(cells@.take(k + 1).last() == cells@[k as int]);
        }
        if let Some(t) = grid.get(cells[k]) {
            if let Some(e) = t.occupant {
                v.push(e);
            }
        }
        k += 1;
    }
    assert(cells@.take(cells@.len() as int) =~= cells@);
    v
}

/// `v` in reverse order.
fn reversed(v: &Vec<EntityId>) -> (r: Vec<EntityId>)
    ensures
        r@ == v@.reverse(),
{
    let mut r: Vec<EntityId> = Vec::new();
    let mut i: usize = v.len();
    while i > 0
        invariant
            i <= v@.len(),
            r@.len() == v@.len() - i,
            forall|k: int| 0 <= k < r@.len() ==> #[trigger] r@[k] == v@[v@.len() - 1 - k],
        decreases i,
    {
        r.push(v[i - 1]);
        i -= 1;
    }
    assert(r@ =~= v@.reverse());
    r
}

/// What the caller needs to animate a restored state: where the snapshot puts each
/// entity, the order in which the entities that moved are animated back, and who
/// occupies the restored board.
#[derive(Debug, Clone)]
pub struct RewindPlan {
    pub positions: Vec<(EntityId, Hex)>,
    pub order: Vec<EntityId>,
    pub occupants: Vec<EntityId>,
}

/// Whether `(from2, to2)` are the stacks `(from, to)` with the top of `from` taken and
/// one snapshot put on `to`.
pub open spec fn shifted(
    from: Seq<GameSnapshot>,
    to: Seq<GameSnapshot>,
    from2: Seq<GameSnapshot>,
    to2: Seq<GameSnapshot>,
) -> bool {
    &&& from.len() > 0
    &&& from2 == from.drop_last()
    &&& to2.len() == to.len() + 1
    &&& to2.drop_last() == to
}

/// Undo (or redo) the last turn: the snapshot on top of the undo (redo) stack is
/// restored and the state left is saved on the redo (undo) stack. The turn goes back
/// to the player, the enemy queue is emptied and the move order is the snapshot's.
/// Nothing happens when no action is requested or the stack is empty.
pub fn apply_undo_action(
    action: &mut UndoAction,
    history: &mut UndoHistory,
    grid: &mut HexGrid<TileData>,
    turn: &mut TurnState,
    move_order: &mut TurnMoveOrder,
    queue: &mut EnemyTurnQueue,
) -> (plan: Option<RewindPlan>)
    requires
        old(grid).wf(),
        old(history).wf(),
    ensures
        *final(action) == UndoAction::Idle,
        final(grid).wf(),
        final(grid).board_radius() == old(grid).board_radius(),
        final(history).wf(),
        plan is None <==> {
            ||| *old(action) == UndoAction::Idle
            ||| *old(action) == UndoAction::Undo && old(history).undo_stack@.len() == 0
            ||| *old(action) == UndoAction::Redo && old(history).redo_stack@.len() == 0
        },
        plan is None ==> {
            &&& final(history).undo_stack@ == old(history).undo_stack@
            &&& final(history).redo_stack@ == old(history).redo_stack@
            &&& tiles(*final(grid)) == tiles(*old(grid))
            &&& *final(turn) == *old(turn)
            &&& final(move_order).0@ == old(move_order).0@
            &&& final(queue).0@ == old(queue).0@
        },
        plan matches Some(p) ==> {
            let undo = *old(action) == UndoAction::Undo;
            let s = if undo {
                old(history).undo_stack@.last()
            } else {
                old(history).redo_stack@.last()
            };
            let saved = if undo {
                final(history).redo_stack@.last()
            } else {
                final(history).undo_stack@.last()
            };
            &&& if undo {
                shifted(
                    old(history).undo_stack@,
                    old(history).redo_stack@,
                    final(history).undo_stack@,
                    final(history).redo_stack@,
                )
            } else {
                shifted(
                    old(history).redo_stack@,
                    old(history).undo_stack@,
                    final(history).redo_stack@,
                    final(history).undo_stack@,
                )
            }
            &&& captures(saved@, *old(grid), *old(turn), old(move_order).0@)
            &&& tiles(*final(grid)) == restored(tiles(*old(grid)), s@.grid_cells, old(grid).board_radius())
            &&& final(move_order).0@ == s.move_order@
            &&& *final(turn) == TurnState::Active(Turn::Player)
            &&& final(queue).0@ == Seq::<EntityId>::empty()
            &&& p.positions@ == s.positions@
            &&& p.order@ == if undo {
                old(move_order).0@.reverse()
            } else {
                old(move_order).0@
            }
            &&& p.occupants@ == occupants_in(tiles(*final(grid)), final(grid).cells_seq())
        },
{
    if *action == UndoAction::Idle {
        return None;
    }
    let is_undo = *action == UndoAction::Undo;
    *action = UndoAction::Idle;
    let snapshot = if is_undo {
        match history.undo_stack.pop() {
            None => {
                return None;
            },
            Some(s) => {
                let current = capture_snapshot(grid, turn, move_order);
                history.redo_stack.push(current);
                assert(history.redo_stack@.drop_last() =~= old(history).redo_stack@);
                s
            },
        }
    } else {
        match history.redo_stack.pop() {
            None => {
                return None;
            },
            Some(s) => {
                let current = capture_snapshot(grid, turn, move_order);
                history.undo_stack.push(current);
                assert(history.undo_stack@.drop_last() =~= old(history).undo_stack@);
                s
            },
        }
    };
    queue.0.clear();
    move_order.0 = copy_ids(&snapshot.move_order);
    restore_snapshot(&snapshot, grid, turn);
    let order = if is_undo {
        let top = history.redo_stack.len() - 1;
        reversed(&history.redo_stack[top].move_order)
    } else {
        let top = history.undo_stack.len() - 1;
        copy_ids(&history.undo_stack[top].move_order)
    };
    *turn = TurnState::Active(Turn::Player);
    let occ = occupants(grid);
    Some(RewindPlan { positions: snapshot.positions, order, occupants: occ })
}

/// Restoring a snapshot of the tiles `m0` into tiles `m1` with no tile that `m0` lacks,
/// on the board the snapshot was taken from, gives back exactly `m0`: undo returns the
/// board to the state it was saved in.
pub proof fn law_restore_captured(m0: Map<Hex, TileView>, m1: Map<Hex, TileView>, cells: Seq<(Hex, TileView)>, radius: int)
    requires
        lists_tiles(cells, m0),
        forall|h: Hex| #[trigger] m0.contains_key(h) ==> hex_len(h) <= radius,
        forall|h: Hex| #[trigger] m1.contains_key(h) ==> m0.contains_key(h),
    ensures
        restored(m1, cells, radius) == m0,
{
    lemma_restored_prefix(m0, m1, cells, radius, cells.len() as int);
    assert(cells.take(cells.len() as int) =~= cells);
    let r = restored(m1, cells, radius);
    assert forall|h: Hex| #[trigger] m0.contains_key(h) implies r.contains_key(h) && r[h] == m0[h] by {
        let i = choose|i: int| 0 <= i < cells.len() && cells[i].0 == h;
        assert(cells.take(cells.len() as int)[i] == cells[i]);
    }
    assert(r =~= m0);
}

/// Redo after undo gives the board back: restoring the snapshot `cells_s` taken of a
/// full board `ms` into the board `m0`, then the snapshot `cells_c` of `m0` taken before
/// the undo, yields `m0` again.
pub proof fn law_redo_after_undo(
    m0: Map<Hex, TileView>,
    ms: Map<Hex, TileView>,
    cells_s: Seq<(Hex, TileView)>,
    cells_c: Seq<(Hex, TileView)>,
    radius: int,
)
    requires
        lists_tiles(cells_s, ms),
        lists_tiles(cells_c, m0),
        ms.dom() == m0.dom(),
        forall|h: Hex| #[trigger] m0.contains_key(h) ==> hex_len(h) <= radius,
    ensures
        restored(restored(m0, cells_s, radius), cells_c, radius) == m0,
{
    assert forall|h: Hex| #[trigger] ms.contains_key(h) implies hex_len(h) <= radius by {
        assert(m0.contains_key(h));
    }
    law_restore_captured(ms, m0, cells_s, radius);
    law_restore_captured(m0, ms, cells_c, radius);
}

/// After the first `k` listed tiles are written, a hex holds its snapshot content when
/// it was among them, and its earlier content otherwise.
proof fn lemma_restored_prefix(m0: Map<Hex, TileView>, m1: Map<Hex, TileView>, cells: Seq<(Hex, TileView)>, radius: int, k: int)
    requires
        lists_tiles(cells, m0),
        forall|h: Hex| #[trigger] m0.contains_key(h) ==> hex_len(h) <= radius,
        0 <= k <= cells.len(),
    ensures
        forall|h: Hex|
            #[trigger] restored(m1, cells.take(k), radius).contains_key(h) <==> (m1.contains_key(h) || exists|i: int|
                0 <= i < k && cells[i].0 == h),
        forall|h: Hex|
            (exists|i: int| 0 <= i < k && cells[i].0 == h) ==> #[trigger] restored(m1, cells.take(k), radius)[h] == m0[h],
        forall|h: Hex|
            !(exists|i: int| 0 <= i < k && cells[i].0 == h) && m1.contains_key(h) ==> #[trigger] restored(
                m1,
                cells.take(k),
                radius,
            )[h] == m1[h],
    decreases k,
{
    if k > 0 {
        lemma_restored_prefix(m0, m1, cells, radius, k - 1);
        assert(cells.take(k).drop_last() =~= cells.take(k - 1));
        assert(cells.take(k).last() == cells[k - 1]);
        assert(m0.contains_key(cells[k - 1].0));
        let prev = restored(m1, cells.take(k - 1), radius);
        let cur = restored(m1, cells.take(k), radius);
        assert(cur == prev.insert(cells[k - 1].0, cells[k - 1].1));
        assert forall|h: Hex| #[trigger] cur.contains_key(h) <==> (m1.contains_key(h) || exists|i: int|
            0 <= i < k && cells[i].0 == h) by {
            if h == cells[k - 1].0 {
            } else if prev.contains_key(h) {
                if !m1.contains_key(h) {
                    let i = choose|i: int| 0 <= i < k - 1 && cells[i].0 == h;
                }
            } else {
                if exists|i: int| 0 <= i < k && cells[i].0 == h {
                    let i = choose|i: int| 0 <= i < k && cells[i].0 == h;
                    assert(i != k - 1);
                }
            }
        }
        assert forall|h: Hex| (exists|i: int| 0 <= i < k && cells[i].0 == h) implies #[trigger] cur[h] == m0[h] by {
            if h != cells[k - 1].0 {
                let i = choose|i: int| 0 <= i < k && cells[i].0 == h;
                assert(i != k - 1);
            }
        }
        assert forall|h: Hex|
            !(exists|i: int| 0 <= i < k && cells[i].0 == h) && m1.contains_key(h) implies #[trigger] cur[h] == m1[h] by {
            assert(cells[k - 1].0 != h);
            assert(!(exists|i: int| 0 <= i < k - 1 && cells[i].0 == h));
        }
    } else {
        assert(cells.take(0) =~= Seq::<(Hex, TileView)>::empty());
    }
}

/// The first position of `e` in `s`, if it occurs.
pub open spec fn first_index(s: Seq<EntityId>, e: EntityId) -> Option<int>
    decreases s.len(),
{
    if s.len() == 0 {
        None
    } else {
        match first_index(s.drop_last(), e) {
            Some(i) => Some(i),
            None => if s.last() == e {
                Some(s.len() - 1)
            } else {
                None
            },
        }
    }
}

/// For each entity of `order`, the first animation of it in `anim`, if any.
pub open spec fn ordered_steps(order: Seq<EntityId>, anim: Seq<EntityId>) -> Seq<int>
    decreases order.len(),
{
    if order.len() == 0 {
        Seq::empty()
    } else {
        let rest = ordered_steps(order.drop_last(), anim);
        match first_index(anim, order.last()) {
            Some(i) => rest.push(i),
            None => rest,
        }
    }
}

/// The animations of `anim` whose entity is not in `order`, in their order.
pub open spec fn unordered_steps(order: Seq<EntityId>, anim: Seq<EntityId>) -> Seq<int>
    decreases anim.len(),
{
    if anim.len() == 0 {
        Seq::empty()
    } else {
        let rest = unordered_steps(order, anim.drop_last());
        if order.contains(anim.last()) {
            rest
        } else {
            rest.push(anim.len() - 1)
        }
    }
}

/// The order in which the animations `anim` (one entity each) are played: those of the
/// entities of `order` first, in that order, then the others.
pub open spec fn rewind_sequence(order: Seq<EntityId>, anim: Seq<EntityId>) -> Seq<int> {
    ordered_steps(order, anim) + unordered_steps(order, anim)
}

/// The first position of `e` in `s`, if it occurs.
fn find_entity(s: &Vec<EntityId>, e: EntityId) -> (r: Option<usize>)
    ensures
        match r {
            Some(i) => first_index(s@, e) == Some(i as int),
            None => first_index(s@, e) is None,
        },
{
    let mut i: usize = 0;
    while i < s.len()
        invariant
            i <= s@.len(),
            first_index(s@.take(i as int), e) is None,
        decreases s@.len() - i,
    {
        proof {
            assert(s@.take(i + 1).drop_last() =~= s@.take(i as int));
        }
        if s[i] == e {
            proof {
                lemma_first_index_prefix(s@, e, i + 1);
            }
            return Some(i);
        }
        i += 1;
    }
    assert(s@.take(s@.len() as int) =~= s@);
    None
}

/// The first position found in a prefix is the first position in the whole sequence.
proof fn lemma_first_index_prefix(s: Seq<EntityId>, e: EntityId, k: int)
    requires
        0 <= k <= s.len(),
        first_index(s.take(k), e) is Some,
    ensures
        first_index(s, e) == first_index(s.take(k), e),
    decreases s.len() - k,
{
    if k < s.len() {
        assert(s.take(k + 1).drop_last() =~= s.take(k));
        lemma_first_index_prefix(s, e, k + 1);
    } else {
        assert(s.take(k) =~= s);
    }
}

/// Whether `e` occurs in `s`.
pub(crate) fn has_entity(s: &Vec<EntityId>, e: EntityId) -> (b: bool)
    ensures
        b == s@.contains(e),
{
    let mut i: usize = 0;
    while i < s.len()
        invariant
            i <= s@.len(),
            forall|k: int| 0 <= k < i ==> s@[k] != e,
        decreases s@.len() - i,
    {
        if s[i] == e {
            assert(s@[i as int] == e);
            return true;
        }
        i += 1;
    }
    false
}

/// The positions in `anim` (the entities to animate, one animation each) in the order
/// they are played back: see [`rewind_sequence`].
pub fn rewind_steps(order: &Vec<EntityId>, anim: &Vec<EntityId>) -> (steps: Vec<usize>)
    ensures
        steps@.map_values(|i: usize| i as int) == rewind_sequence(order@, anim@),
{
    let mut steps: Vec<usize> = Vec::new();
    let mut k: usize = 0;
    while k < order.len()
        invariant
            k <= order@.len(),
            steps@.map_values(|i: usize| i as int) == ordered_steps(order@.take(k as int), anim@),
        decreases order@.len() - k,
    {
        proof {
            assert(order@.take(k + 1).drop_last() =~= order@.take(k as int));
            assert(order@.take(k + 1).last() == order@[k as int]);
        }
        let ghost before = steps@;
        match find_entity(anim, order[k]) {
            Some(i) => {
                steps.push(i);
                assert(steps@.map_values(|i: usize| i as int) =~= before.map_values(|i: usize| i as int).push(i as int));
            },
            None => {},
        }
        k += 1;
    }
    assert(order@.take(order@.len() as int) =~= order@);
    let ghost first_part = steps@.map_values(|i: usize| i as int);
    let mut j: usize = 0;
    while j < anim.len()
        invariant
            j <= anim@.len(),
            steps@.map_values(|i: usize| i as int) == first_part + unordered_steps(order@, anim@.take(j as int)),
            first_part == ordered_steps(order@, anim@),
        decreases anim@.len() - j,
    {
        proof {
            assert(anim@.take(j + 1).drop_last() =~= anim@.take(j as int));
            assert(anim@.take(j + 1).last() == anim@[j as int]);
        }
        let ghost before = steps@;
        if !has_entity(order, anim[j]) {
            steps.push(j);
            assert(steps@.map_values(|i: usize| i as int) =~= before.map_values(|i: usize| i as int).push(j as int));
        }
        j += 1;
    }
    assert(anim@.take(anim@.len() as int) =~= anim@);
    steps
}

proof fn lemma_first_index(s: Seq<EntityId>, e: EntityId)
    ensures
        match first_index(s, e) {
            Some(i) => 0 <= i < s.len() && s[i] == e,
            None => !s.contains(e),
        },
    decreases s.len(),
{
    if s.len() > 0 {
        lemma_first_index(s.drop_last(), e);
        if first_index(s.drop_last(), e) is None && s.last() != e {
            assert forall|k: int| 0 <= k < s.len() implies s[k] != e by {
                if k < s.len() - 1 {
                    assert(s.drop_last()[k] == s[k]);
                }
            }
        }
    }
}

proof fn lemma_ordered_steps(order: Seq<EntityId>, anim: Seq<EntityId>)
    ensures
        forall|j: int| 0 <= j < ordered_steps(order, anim).len() ==> 0 <= #[trigger] ordered_steps(order, anim)[j] < anim.len(),
        forall|k: int|
            0 <= k < order.len() && anim.contains(#[trigger] order[k]) ==> exists|j: int|
                0 <= j < ordered_steps(order, anim).len() && anim[ordered_steps(order, anim)[j]] == order[k],
    decreases order.len(),
{
    if order.len() > 0 {
        let prev = order.drop_last();
        lemma_ordered_steps(prev, anim);
        lemma_first_index(anim, order.last());
        let cur = ordered_steps(order, anim);
        let rest = ordered_steps(prev, anim);
        assert forall|k: int| 0 <= k < order.len() && anim.contains(#[trigger] order[k]) implies exists|j: int|
            0 <= j < cur.len() && anim[cur[j]] == order[k] by {
            if k < order.len() - 1 {
                assert(prev[k] == order[k]);
                let j = choose|j: int| 0 <= j < rest.len() && anim[rest[j]] == prev[k];
                assert(cur[j] == rest[j]);
            } else {
                let i = first_index(anim, order.last())->Some_0;
                assert(cur[cur.len() - 1] == i);
            }
        }
    }
}

proof fn lemma_unordered_steps(order: Seq<EntityId>, anim: Seq<EntityId>)
    ensures
        forall|j: int|
            0 <= j < unordered_steps(order, anim).len() ==> 0 <= #[trigger] unordered_steps(order, anim)[j] < anim.len(),
        forall|i: int|
            0 <= i < anim.len() && !order.contains(#[trigger] anim[i]) ==> exists|j: int|
                0 <= j < unordered_steps(order, anim).len() && unordered_steps(order, anim)[j] == i,
    decreases anim.len(),
{
    if anim.len() > 0 {
        let prev = anim.drop_last();
        lemma_unordered_steps(order, prev);
        let cur = unordered_steps(order, anim);
        let rest = unordered_steps(order, prev);
        assert forall|i: int| 0 <= i < anim.len() && !order.contains(#[trigger] anim[i]) implies exists|j: int|
            0 <= j < cur.len() && cur[j] == i by {
            if i < anim.len() - 1 {
                assert(prev[i] == anim[i]);
                let j = choose|j: int| 0 <= j < rest.len() && rest[j] == i;
                assert(cur[j] == rest[j]);
            } else {
                assert(cur[cur.len() - 1] == i);
            }
        }
    }
}

/// Playing animations back loses none: every played step names an animation, and every
/// entity with an animation gets one played, whether or not it is in the move order.
pub proof fn law_rewind_plays_every_entity(order: Seq<EntityId>, anim: Seq<EntityId>, i: int)
    requires
        0 <= i < anim.len(),
    ensures
        forall|j: int|
            0 <= j < rewind_sequence(order, anim).len() ==> 0 <= #[trigger] rewind_sequence(order, anim)[j] < anim.len(),
        exists|j: int|
            0 <= j < rewind_sequence(order, anim).len() && anim[rewind_sequence(order, anim)[j]] == anim[i],
{
    lemma_ordered_steps(order, anim);
    lemma_unordered_steps(order, anim);
    let o = ordered_steps(order, anim);
    let u = unordered_steps(order, anim);
    let all = rewind_sequence(order, anim);
    assert forall|j: int| 0 <= j < all.len() implies 0 <= #[trigger] all[j] < anim.len() by {
        if j >= o.len() {
            assert(all[j] == u[j - o.len()]);
        }
    }
    if order.contains(anim[i]) {
        let k = choose|k: int| 0 <= k < order.len() && order[k] == anim[i];
        assert(anim.contains(order[k]));
        let j = choose|j: int| 0 <= j < o.len() && anim[o[j]] == order[k];
        assert(all[j] == o[j]);
    } else {
        let j = choose|j: int| 0 <= j < u.len() && u[j] == i;
        assert(all[o.len() + j] == u[j]);
    }
}

/// Animations played back one entity at a time, each step carrying what the caller
/// needs to run it; entities in `held` wait in place until all steps are done.
#[derive(Debug, Clone)]
pub struct RewindQueue<S> {
    pub steps: Vec<S>,
    /// The entity currently animating.
    pub active: Option<EntityId>,
    pub held: Vec<EntityId>,
}

impl<S> Default for RewindQueue<S> {
    fn default() -> (q: Self)
        ensures
            q.steps@ == Seq::<S>::empty(),
            q.active is None,
            q.held@ == Seq::<EntityId>::empty(),
    {
        RewindQueue { steps: Vec::new(), active: None, held: Vec::new() }
    }
}

/// What to do next with a rewind queue.
pub enum RewindTick<S> {
    /// All steps are done: let these held entities go.
    Release(Vec<EntityId>),
    /// The active entity is still animating.
    Wait,
    /// Start this step.
    Start(S),
}

/// Advances the queue, `active_done` telling whether the active entity has finished:
/// while it animates, wait; otherwise start the next step, or release the held
/// entities when no step is left.
pub fn advance_rewind<S>(queue: &mut RewindQueue<S>, active_done: bool) -> (t: RewindTick<S>)
    ensures
        old(queue).active is Some && !active_done ==> t is Wait && *final(queue) == *old(queue),
        !(old(queue).active is Some && !active_done) ==> {
            &&& final(queue).active is None
            &&& if old(queue).steps@.len() == 0 {
                &&& t matches RewindTick::Release(v) && v@ == old(queue).held@
                &&& final(queue).held@ == Seq::<EntityId>::empty()
                &&& final(queue).steps@ == old(queue).steps@
            } else {
                &&& t matches RewindTick::Start(s) && s == old(queue).steps@[0]
                &&& final(queue).steps@ == old(queue).steps@.drop_first()
                &&& final(queue).held@ == old(queue).held@
            }
        },
{
    if queue.active.is_some() {
        if !active_done {
            return RewindTick::Wait;
        }
        queue.active = None;
    }
    if queue.steps.len() == 0 {
        let mut released: Vec<EntityId> = Vec::new();
        std::mem::swap(&mut released, &mut queue.held);
        return RewindTick::Release(released);
    }
    let s = queue.steps.remove(0);
    RewindTick::Start(s)
}

/// The action requested by the keyboard: with Ctrl (or the system key) held, Z asks
/// for an undo, Shift+Z or Y for a redo; otherwise the current request stays.
pub fn shortcut_action(ctrl: bool, shift: bool, z_pressed: bool, y_pressed: bool, current: UndoAction) -> (a: UndoAction)
    ensures
        a == if !ctrl {
            current
        } else if z_pressed && !shift {
            UndoAction::Undo
        } else if (z_pressed && shift) || y_pressed {
            UndoAction::Redo
        } else {
            current
        },
{
    if !ctrl {
        return current;
    }
    if z_pressed && !shift {
        UndoAction::Undo
    } else if (z_pressed && shift) || y_pressed {
        UndoAction::Redo
    } else {
        current
    }
}

/// The entities of `ids` that occupy the board, in order.
fn occupying(ids: &Vec<EntityId>, occupants: &Vec<EntityId>) -> (v: Vec<EntityId>)
    ensures
        v@ == ids@.filter(|e: EntityId| occupants@.contains(e)),
{
    let ghost pred = |e: EntityId| occupants@.contains(e);
    let mut v: Vec<EntityId> = Vec::new();
    let mut k: usize = 0;
    while k < ids.len()
        invariant
            k <= ids@.len(),
            pred == (|e: EntityId| occupants@.contains(e)),
            v@ == ids@.take(k as int).filter(pred),
        decreases ids@.len() - k,
    {
        proof {
            reveal(Seq::filter);
            assert(ids@.take(k + 1).drop_last() =~= ids@.take(k as int));
        }
        if has_entity(occupants, ids[k]) {
            v.push(ids[k]);
        }
        k += 1;
    }
    assert(ids@.take(ids@.len() as int) =~= ids@);
    v
}

/// The entities of `ids` that neither occupy the board nor are dead, in order.
fn vacant_alive(ids: &Vec<EntityId>, occupants: &Vec<EntityId>, dead: &Vec<EntityId>) -> (v: Vec<EntityId>)
    ensures
        v@ == ids@.filter(|e: EntityId| !occupants@.contains(e) && !dead@.contains(e)),
{
    let ghost pred = |e: EntityId| !occupants@.contains(e) && !dead@.contains(e);
    let mut v: Vec<EntityId> = Vec::new();
    let mut k: usize = 0;
    while k < ids.len()
        invariant
            k <= ids@.len(),
            pred == (|e: EntityId| !occupants@.contains(e) && !dead@.contains(e)),
            v@ == ids@.take(k as int).filter(pred),
        decreases ids@.len() - k,
    {
        proof {
            reveal(Seq::filter);
            assert(ids@.take(k + 1).drop_last() =~= ids@.take(k as int));
        }
        if !has_entity(occupants, ids[k]) && !has_entity(dead, ids[k]) {
            v.push(ids[k]);
        }
        k += 1;
    }
    assert(ids@.take(ids@.len() as int) =~= ids@);
    v
}

/// Which entities a restored board brings back to life and which it kills: the dead
/// entities that occupy it are revived, and the living enemies that do not are killed.
pub fn dead_sync(occupants: &Vec<EntityId>, dead: &Vec<EntityId>, enemies: &Vec<EntityId>) -> (r: (
    Vec<EntityId>,
    Vec<EntityId>,
))
    ensures
        r.0@ == dead@.filter(|e: EntityId| occupants@.contains(e)),
        r.1@ == enemies@.filter(|e: EntityId| !occupants@.contains(e) && !dead@.contains(e)),
        forall|e: EntityId|
            #![trigger enemies@.contains(e)]
            enemies@.contains(e) ==> ((dead@.contains(e) && !r.0@.contains(e)) || r.1@.contains(e) <==> !occupants@.contains(
                e,
            )),
{
    let revive = occupying(dead, occupants);
    let kill = vacant_alive(enemies, occupants, dead);
    proof {
        let pr = |e: EntityId| occupants@.contains(e);
        let pk = |e: EntityId| !occupants@.contains(e) && !dead@.contains(e);
        assert(revive@ == dead@.filter(pr));
        assert(kill@ == enemies@.filter(pk));
        assert forall|e: EntityId| #![trigger enemies@.contains(e)] enemies@.contains(e) implies ((dead@.contains(e)
            && !revive@.contains(e)) || kill@.contains(e) <==> !occupants@.contains(e)) by {
            if revive@.contains(e) {
                dead@.lemma_filter_contains_rev(pr, e);
                let i = choose|i: int| 0 <= i < revive@.len() && revive@[i] == e;
                dead@.lemma_filter_pred(pr, i);
            }
            if kill@.contains(e) {
                let i = choose|i: int| 0 <= i < kill@.len() && kill@[i] == e;
                enemies@.lemma_filter_pred(pk, i);
            }
            if dead@.contains(e) && occupants@.contains(e) {
                let i = choose|i: int| 0 <= i < dead@.len() && dead@[i] == e;
                dead@.lemma_filter_contains(pr, i);
            }
            if !dead@.contains(e) && !occupants@.contains(e) {
                let i = choose|i: int| 0 <= i < enemies@.len() && enemies@[i] == e;
                enemies@.lemma_filter_contains(pk, i);
            }
        }
    }
    (revive, kill)
}

} // verus!
