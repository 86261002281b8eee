//! Enemy decisions: chasing a target along shortest walks, random fallback steps,
//! the order in which enemies act and what each does, and the spawn plan of a level.

pub mod archer;
pub mod bomber;
pub mod grunt;
pub mod warlock;

use vstd::prelude::*;

use crate::components::{AttackPattern, EnemyKind, EntityId, HexPosition, Stats};
use crate::enemy::bomber::{bomber_plan, BomberAction, BomberPlan};
use crate::enemy::grunt::melee_move;
use crate::grid::{
    board_fits, is_occupied, is_passable, lemma_board_fits, occupied_spec, passable_spec, relocate, relocated, tiles,
    TileData, TileView,
};
use crate::hex::{all_directions_seq, coords_within, diagonal_seq, hex_dist, hex_len, wide_distance, Hex};
use crate::turn::{Turn, TurnPhase, TurnState};
use crate::level::Level;
use crate::undo::{copy_ids, TurnMoveOrder};
use crate::hex_grid::{board_neighbors, in_board, HexGrid};
use crate::pathfinding::{is_route, opt_seq, shortest_walk};
use crate::random::{shuffle_hexes, thread_rng};

verus! {

/// Enemies still to act in the current enemy turn; the last one acts next.
#[derive(Debug, Clone)]
pub struct EnemyTurnQueue(pub Vec<EntityId>);

impl Default for EnemyTurnQueue {
    fn default() -> (q: Self)
        ensures
            q.0@ == Seq::<EntityId>::empty(),
    {
        EnemyTurnQueue(Vec::new())
    }
}

/// The cells a chase towards `target` may step onto: the target itself and passable tiles.
pub open spec fn chase_flags(m: Map<Hex, TileView>, cells: Seq<Hex>, target: Hex) -> Seq<bool> {
    Seq::new(cells.len(), |k: int| cells[k] == target || passable_spec(m, cells[k]))
}

/// How many hexes of `p` after its first one, among the first `steps`, can be entered
/// before reaching an occupied one.
pub open spec fn free_steps(m: Map<Hex, TileView>, p: Seq<Hex>, steps: int) -> int
    decreases steps,
{
    if steps <= 0 {
        0
    } else {
        let j = free_steps(m, p, steps - 1);
        if j == steps - 1 && !occupied_spec(m, p[steps]) {
            steps
        } else {
            j
        }
    }
}

/// The number of steps taken along a walk of `len` hexes with the given limit; a
/// negative limit does not limit.
pub open spec fn step_limit(len: int, max_steps: int) -> int {
    if max_steps < 0 || len - 1 <= max_steps {
        len - 1
    } else {
        max_steps
    }
}

/// Where a mover at `current` ends up following `path` for at most `max_steps` steps,
/// stopping before the first occupied hex, and the hexes it passes (from `current`).
pub open spec fn step_along_spec(
    m: Map<Hex, TileView>,
    current: Hex,
    path: Option<Seq<Hex>>,
    max_steps: int,
) -> (Hex, Seq<Hex>) {
    match path {
        None => (current, seq![current]),
        Some(p) => {
            let j = free_steps(m, p, step_limit(p.len() as int, max_steps));
            (if j == 0 {
                current
            } else {
                p[j]
            }, seq![current] + p.subrange(1, j + 1))
        },
    }
}

/// Whether a move `r` from `current` follows a path from `current` to its destination,
/// which is `current` or a board hex.
pub open spec fn moved_to(radius: int, current: Hex, r: (Hex, Seq<Hex>)) -> bool {
    &&& r.1.len() >= 1
    &&& r.1[0] == current
    &&& r.1.last() == r.0
    &&& r.0 == current || in_board(radius, r.0)
}

/// Whether `r` is where a mover at `current` gets by chasing `target` for at most
/// `max_steps` steps: along some shortest walk to the target over passable tiles, up
/// to the first occupied hex.
pub open spec fn chase_step(
    grid: HexGrid<TileData>,
    current: Hex,
    target: Hex,
    max_steps: int,
    r: (Hex, Seq<Hex>),
) -> bool {
    exists|p: Option<Seq<Hex>>|
        #[trigger] shortest_walk(
            grid.board_radius(),
            current,
            target,
            chase_flags(tiles(grid), grid.cells_seq(), target),
            p,
        ) && r == step_along_spec(tiles(grid), current, p, max_steps)
}

/// Once the free run of a walk stops short of `k`, it stays where it stopped.
proof fn lemma_free_steps_stop(m: Map<Hex, TileView>, p: Seq<Hex>, k: int, k2: int)
    requires
        0 < k <= k2,
        free_steps(m, p, k) < k,
    ensures
        free_steps(m, p, k2) == free_steps(m, p, k),
    decreases k2 - k,
{
    if k2 > k {
        lemma_free_steps_stop(m, p, k, k2 - 1);
    }
}

/// The free run is never longer than the steps allowed.
proof fn lemma_free_steps_bound(m: Map<Hex, TileView>, p: Seq<Hex>, k: int)
    requires
        k >= 0,
    ensures
        0 <= free_steps(m, p, k) <= k,
    decreases k,
{
    if k > 0 {
        lemma_free_steps_bound(m, p, k - 1);
    }
}

/// A free run of at least one step ends on an unoccupied hex.
proof fn lemma_free_steps_end(m: Map<Hex, TileView>, p: Seq<Hex>, k: int)
    requires
        k >= 0,
    ensures
        free_steps(m, p, k) > 0 ==> !occupied_spec(m, p[free_steps(m, p, k)]),
    decreases k,
{
    if k > 0 {
        lemma_free_steps_end(m, p, k - 1);
    }
}

/// A chase never ends on an occupied tile (the mover stays put rather than step onto
/// one), and never takes more steps than it is allowed.
pub proof fn law_chase_stops_before_occupied(
    grid: HexGrid<TileData>,
    current: Hex,
    target: Hex,
    max_steps: int,
    r: (Hex, Seq<Hex>),
)
    requires
        chase_step(grid, current, target, max_steps, r),
    ensures
        r.0 == current || !occupied_spec(tiles(grid), r.0),
        max_steps >= 0 ==> r.1.len() <= max_steps + 1,
{
    let m = tiles(grid);
    let p = choose|p: Option<Seq<Hex>>|
        #[trigger] shortest_walk(
            grid.board_radius(),
            current,
            target,
            chase_flags(m, grid.cells_seq(), target),
            p,
        ) && r == step_along_spec(m, current, p, max_steps);
    if let Some(q) = p {
        let limit = step_limit(q.len() as int, max_steps);
        lemma_free_steps_bound(m, q, limit);
        lemma_free_steps_end(m, q, limit);
    }
}

/// For each board cell, whether a chase towards `target` may step onto it.
fn chase_passable(grid: &HexGrid<TileData>, target: Hex) -> (flags: Vec<bool>)
    requires
        grid.wf(),
    ensures
        flags@ == chase_flags(tiles(*grid), grid.cells_seq(), target),
{
    let cells = grid.positions();
    let mut flags: Vec<bool> = Vec::new();
    let mut k: usize = 0;
    while k < cells.len()
        invariant
            grid.wf(),
            cells@ == grid.cells_seq(),
            k <= cells@.len(),
            flags@.len() == k,
            forall|i: int| 0 <= i < k ==> #[trigger] flags@[i] == (cells@[i] == target || passable_spec(tiles(*grid), cells@[i])),
        decreases cells@.len() - k,
    {
        let c = cells[k];
        let b = c == target || is_passable(grid, c);
        flags.push(b);
        k += 1;
    }
    assert(flags@ =~= chase_flags(tiles(*grid), grid.cells_seq(), target));
    flags
}

/// Follows `path` from `current` for at most `max_steps` steps (no limit when
/// negative), stopping before the first occupied hex.
pub fn step_along(grid: &HexGrid<TileData>, current: Hex, path: &Option<Vec<Hex>>, max_steps: i32) -> (r: (Hex, Vec<Hex>))
    requires
        grid.wf(),
        path matches Some(p) ==> p@.len() >= 1,
        path matches Some(p) ==> forall|i: int| 0 <= i < p@.len() ==> in_board(grid.board_radius(), #[trigger] p@[i]),
    ensures
        (r.0, r.1@) == step_along_spec(tiles(*grid), current, opt_seq(*path), max_steps as int),
        moved_to(grid.board_radius(), current, (r.0, r.1@)),
{
    let ghost m = tiles(*grid);
    let mut destination = current;
    let mut move_path: Vec<Hex> = Vec::new();
    move_path.push(current);
    match path {
        None => {
            assert(move_path@ =~= seq![current]);
            (destination, move_path)
        },
        Some(p) => {
            let ghost ps = p@;
            let last = p.len() - 1;
            let steps: usize = if max_steps < 0 || last <= max_steps as usize {
                last
            } else {
                max_steps as usize
            };
            let ghost limit = step_limit(ps.len() as int, max_steps as int);
            assert(steps == limit);
            let mut i: usize = 1;
            while i <= steps
                invariant
                    grid.wf(),
                    m == tiles(*grid),
                    ps == p@,
                    ps.len() == p.len(),
                    opt_seq(*path) == Some(ps),
                    limit == step_limit(ps.len() as int, max_steps as int),
                    steps == limit,
                    steps < ps.len(),
                    1 <= i <= steps + 1,
                    free_steps(m, ps, i - 1) == i - 1,
                    destination == if i == 1 {
                        current
                    } else {
                        ps[i - 1]
                    },
                    move_path@ =~= seq![current] + ps.subrange(1, i as int),
                    forall|k: int| 0 <= k < ps.len() ==> in_board(grid.board_radius(), #[trigger] ps[k]),
                decreases steps + 1 - i,
            {
                let candidate = p[i];
                if is_occupied(grid, candidate) {
                    proof {
                        assert(free_steps(m, ps, i as int) == i - 1);
                        lemma_free_steps_stop(m, ps, i as int, steps as int);
                        assert(free_steps(m, ps, limit) == i - 1);
                        assert(move_path@ =~= seq![current] + ps.subrange(1, (i - 1) + 1));
                    }
                    return (destination, move_path);
                }
                destination = candidate;
                move_path.push(candidate);
                i += 1;
            }
            (destination, move_path)
        },
    }
}

/// Pathfind toward `target` and take up to `max_steps` steps (no limit when negative),
/// stopping at occupied tiles. The walk may step onto the target and onto passable
/// tiles. Returns (destination, path_including_current).
pub fn pathfind_and_step(grid: &HexGrid<TileData>, current: Hex, target: Hex, max_steps: i32) -> (r: (Hex, Vec<Hex>))
    requires
        grid.wf(),
    ensures
        chase_step(*grid, current, target, max_steps as int, (r.0, r.1@)),
        moved_to(grid.board_radius(), current, (r.0, r.1@)),
{
    let flags = chase_passable(grid, target);
    proof {
        grid.lemma_wf();
    }
    let path = grid.find_path(current, target, &flags);
    proof {
        if path is Some {
            assert(is_route(grid.board_radius(), current, target, flags@, path->0@, target));
        }
    }
    let r = step_along(grid, current, &path, max_steps);
    assert(shortest_walk(
        grid.board_radius(),
        current,
        target,
        chase_flags(tiles(*grid), grid.cells_seq(), target),
        opt_seq(path),
    ));
    r
}

/// Whether `r` is what picking a random passable neighbor among `nbs` can give, where
/// `fl` holds the filter's answer for each: `None` exactly when no neighbor is passable
/// and accepted, otherwise one that is.
pub open spec fn picked_neighbor(m: Map<Hex, TileView>, nbs: Seq<Hex>, fl: Seq<bool>, r: Option<Hex>) -> bool {
    match r {
        None => forall|i: int| 0 <= i < nbs.len() ==> !(passable_spec(m, #[trigger] nbs[i]) && fl[i]),
        Some(h) => exists|i: int| 0 <= i < nbs.len() && passable_spec(m, #[trigger] nbs[i]) && fl[i] && nbs[i] == h,
    }
}

/// Pick a random passable neighbor of `current` that `filter` accepts, or `None`.
/// `filter` is asked only about passable neighbors.
pub fn random_passable_neighbor<F: Fn(Hex) -> bool>(grid: &HexGrid<TileData>, current: Hex, filter: F) -> (r: Option<Hex>)
    requires
        grid.wf(),
        coords_within(current, 1),
        forall|h: Hex| #[trigger] filter.requires((h,)),
    ensures
        exists|fl: Seq<bool>|
            #![trigger picked_neighbor(tiles(*grid), board_neighbors(grid.board_radius(), current), fl, r)]
            {
                let nbs = board_neighbors(grid.board_radius(), current);
                &&& fl.len() == nbs.len()
                &&& forall|i: int|
                    0 <= i < nbs.len() && passable_spec(tiles(*grid), nbs[i]) ==> #[trigger] filter.ensures(
                        (nbs[i],),
                        fl[i],
                    )
                &&& picked_neighbor(tiles(*grid), nbs, fl, r)
            },
        r matches Some(n) ==> in_board(grid.board_radius(), n),
{
    let ghost m = tiles(*grid);
    let nbs = grid.neighbors(current);
    let ghost mut fl: Seq<bool> = Seq::empty();
    let mut candidates: Vec<Hex> = Vec::new();
    let ghost mut idx: Seq<int> = Seq::empty();
    let mut i: usize = 0;
    while i < nbs.len()
        invariant
            grid.wf(),
            m == tiles(*grid),
            forall|h: Hex| #[trigger] filter.requires((h,)),
            i <= nbs@.len(),
            fl.len() == i,
            forall|k: int|
                0 <= k < i && passable_spec(m, nbs@[k]) ==> #[trigger] filter.ensures((nbs@[k],), fl[k]),
            idx.len() == candidates@.len(),
            forall|c: int|
                0 <= c < idx.len() ==> 0 <= #[trigger] idx[c] < i && candidates@[c] == nbs@[idx[c]]
                    && passable_spec(m, nbs@[idx[c]]) && fl[idx[c]],
            forall|k: int|
                0 <= k < i && passable_spec(m, #[trigger] nbs@[k]) && fl[k] ==> candidates@.contains(nbs@[k]),
        decreases nbs@.len() - i,
    {
        let h = nbs[i];
        let mut accepted = false;
        if is_passable(grid, h) {
            accepted = filter(h);
        }
        proof {
            fl = fl.push(accepted);
        }
        let ghost old_cands = candidates@;
        if accepted {
            candidates.push(h);
            proof {
                idx = idx.push(i as int);
                assert(candidates@[candidates@.len() - 1] == h);
            }
        }
        proof {
            assert forall|k: int|
                0 <= k < i + 1 && passable_spec(m, #[trigger] nbs@[k]) && fl[k] implies candidates@.contains(nbs@[k]) by {
                if k < i {
                    let c = choose|c: int| 0 <= c < old_cands.len() && old_cands[c] == nbs@[k];
                    assert(candidates@[c] == nbs@[k]);
                } else {
                    assert(candidates@[candidates@.len() - 1] == nbs@[k]);
                }
            }
        }
        i += 1;
    }
    let ghost before = candidates@;
    let mut rng = thread_rng();
    shuffle_hexes(&mut candidates, &mut rng);
    proof {
        broadcast use vstd::seq_lib::group_to_multiset_ensures;
        assert(candidates@.to_multiset().len() == before.to_multiset().len());
        assert(candidates@.len() == before.len());
    }
    if candidates.len() == 0 {
        proof {
            assert forall|k: int| 0 <= k < nbs@.len() implies !(passable_spec(m, #[trigger] nbs@[k]) && fl[k]) by {
                if passable_spec(m, nbs@[k]) && fl[k] {
                    assert(before.contains(nbs@[k]));
                }
            }
            assert(picked_neighbor(m, nbs@, fl, None));
        }
        None
    } else {
        let first = candidates[0];
        proof {
            broadcast use vstd::seq_lib::group_to_multiset_ensures;
            assert(candidates@.contains(first));
            assert(candidates@.to_multiset().count(first) > 0);
            assert(before.contains(first));
            let c = choose|c: int| 0 <= c < before.len() && before[c] == first;
            assert(passable_spec(m, nbs@[idx[c]]) && fl[idx[c]] && nbs@[idx[c]] == first);
            assert(picked_neighbor(m, nbs@, fl, Some(first)));
            grid.lemma_dom();
            assert(m.contains_key(first));
        }
        Some(first)
    }
}

/// Whether `r` is what the random fallback step from `current` gives: to a picked
/// neighbor, or staying put when none can be picked.
pub open spec fn fallback_step(
    m: Map<Hex, TileView>,
    nbs: Seq<Hex>,
    fl: Seq<bool>,
    current: Hex,
    r: (Hex, Seq<Hex>),
) -> bool {
    exists|pick: Option<Hex>|
        #[trigger] picked_neighbor(m, nbs, fl, pick) && r == match pick {
            Some(n) => (n, seq![current, n]),
            None => (current, seq![current]),
        }
}

/// A filter that accepts every hex.
pub open spec fn accept_all(n: nat) -> Seq<bool> {
    Seq::new(n, |i: int| true)
}

/// Filter answers that agree on the passable neighbors pick the same way.
pub proof fn lemma_pick_same_filter(m: Map<Hex, TileView>, nbs: Seq<Hex>, fl: Seq<bool>, fl2: Seq<bool>, r: Option<Hex>)
    requires
        fl.len() == nbs.len(),
        fl2.len() == nbs.len(),
        forall|i: int| 0 <= i < nbs.len() && passable_spec(m, nbs[i]) ==> fl[i] == fl2[i],
        picked_neighbor(m, nbs, fl, r),
    ensures
        picked_neighbor(m, nbs, fl2, r),
{
    match r {
        None => {
            assert forall|i: int| 0 <= i < nbs.len() implies !(passable_spec(m, #[trigger] nbs[i]) && fl2[i]) by {
                assert(!(passable_spec(m, nbs[i]) && fl[i]));
            }
        },
        Some(h) => {
            let i = choose|i: int| 0 <= i < nbs.len() && passable_spec(m, #[trigger] nbs[i]) && fl[i] && nbs[i] == h;
            assert(passable_spec(m, nbs[i]) && fl2[i] && nbs[i] == h);
        },
    }
}

/// Steps to a random passable neighbor of `current`, or stays put when there is none.
pub fn random_step(grid: &HexGrid<TileData>, current: Hex) -> (r: (Hex, Vec<Hex>))
    requires
        grid.wf(),
        coords_within(current, 1),
    ensures
        fallback_step(
            tiles(*grid),
            board_neighbors(grid.board_radius(), current),
            accept_all(board_neighbors(grid.board_radius(), current).len()),
            current,
            (r.0, r.1@),
        ),
        moved_to(grid.board_radius(), current, (r.0, r.1@)),
{
    let accept = |h: Hex| -> (b: bool) ensures b { true };
    let pick = random_passable_neighbor(grid, current, accept);
    let ghost nbs = board_neighbors(grid.board_radius(), current);
    proof {
        let fl = choose|fl: Seq<bool>|
            {
                &&& fl.len() == nbs.len()
                &&& forall|i: int|
                    0 <= i < nbs.len() && passable_spec(tiles(*grid), nbs[i]) ==> #[trigger] accept.ensures(
                        (nbs[i],),
                        fl[i],
                    )
                &&& picked_neighbor(tiles(*grid), nbs, fl, pick)
            };
        assert forall|i: int| 0 <= i < nbs.len() && passable_spec(tiles(*grid), nbs[i]) implies fl[i] == accept_all(
            nbs.len(),
        )[i] by {
            assert(accept.ensures((nbs[i],), fl[i]));
        }
        lemma_pick_same_filter(tiles(*grid), nbs, fl, accept_all(nbs.len()), pick);
    }
    match pick {
        Some(n) => {
            let mut v: Vec<Hex> = Vec::new();
            v.push(current);
            v.push(n);
            assert(v@ =~= seq![current, n]);
            (n, v)
        },
        None => {
            let mut v: Vec<Hex> = Vec::new();
            v.push(current);
            assert(v@ =~= seq![current]);
            (current, v)
        },
    }
}

/// Position at which `h` is inserted into `sorted` (ordered by distance from `c`) to
/// keep it ordered, after every hex at the same distance.
pub open spec fn insert_pos(c: Hex, sorted: Seq<Hex>, h: Hex) -> int
    decreases sorted.len(),
{
    if sorted.len() == 0 {
        0
    } else if hex_dist(c, sorted.last()) <= hex_dist(c, h) {
        sorted.len() as int
    } else {
        insert_pos(c, sorted.drop_last(), h)
    }
}

/// `s` ordered by distance from `c`, keeping the given order among equal distances
/// (what a stable sort by distance gives).
pub open spec fn sort_by_distance(c: Hex, s: Seq<Hex>) -> Seq<Hex>
    decreases s.len(),
{
    if s.len() == 0 {
        s
    } else {
        let sorted = sort_by_distance(c, s.drop_last());
        let i = insert_pos(c, sorted, s.last());
        sorted.take(i) + seq![s.last()] + sorted.skip(i)
    }
}

proof fn lemma_insert_pos(c: Hex, sorted: Seq<Hex>, h: Hex)
    ensures
        0 <= insert_pos(c, sorted, h) <= sorted.len(),
        forall|k: int| insert_pos(c, sorted, h) <= k < sorted.len() ==> hex_dist(c, #[trigger] sorted[k]) > hex_dist(c, h),
    decreases sorted.len(),
{
    if sorted.len() > 0 && hex_dist(c, sorted.last()) > hex_dist(c, h) {
        lemma_insert_pos(c, sorted.drop_last(), h);
        assert forall|k: int| insert_pos(c, sorted, h) <= k < sorted.len() implies hex_dist(c, #[trigger] sorted[k]) > hex_dist(c, h) by {
            if k < sorted.len() - 1 {
                assert(sorted[k] == sorted.drop_last()[k]);
            }
        }
    }
}

/// The first position of `sorted` holding a hex farther from `c` than `h`, or its length.
fn find_insert_pos(c: Hex, sorted: &Vec<Hex>, h: Hex) -> (i: usize)
    ensures
        i == insert_pos(c, sorted@, h),
{
    let dh = wide_distance(c, h);
    let mut i: usize = sorted.len();
    assert(sorted@.take(i as int) =~= sorted@);
    while i > 0 && wide_distance(c, sorted[i - 1]) > dh
        invariant
            i <= sorted@.len(),
            dh == hex_dist(c, h),
            insert_pos(c, sorted@, h) == insert_pos(c, sorted@.take(i as int), h),
        decreases i,
    {
        proof {
            assert(sorted@.take(i as int).drop_last() =~= sorted@.take(i - 1));
        }
        i -= 1;
    }
    proof {
        if i > 0 {
            assert(sorted@.take(i as int).last() == sorted@[i - 1]);
        } else {
            assert(sorted@.take(0).len() == 0);
        }
    }
    i
}

/// `hexes` in the order of a stable sort by distance from `c`.
pub fn sorted_by_distance(c: Hex, hexes: &Vec<Hex>) -> (v: Vec<Hex>)
    ensures
        v@ == sort_by_distance(c, hexes@),
{
    let mut sorted: Vec<Hex> = Vec::new();
    let mut k: usize = 0;
    while k < hexes.len()
        invariant
            k <= hexes@.len(),
            sorted@ == sort_by_distance(c, hexes@.take(k as int)),
        decreases hexes@.len() - k,
    {
        proof {
            assert(hexes@.take(k + 1).drop_last() =~= hexes@.take(k as int));
            assert(hexes@.take(k + 1).last() == hexes@[k as int]);
        }
        let i = find_insert_pos(c, &sorted, hexes[k]);
        proof {
            lemma_insert_pos(c, sorted@, hexes@[k as int]);
        }
        let ghost before = sorted@;
        sorted.insert(i, hexes[k]);
        proof {
            assert(sorted@ =~= before.take(i as int) + seq![hexes@[k as int]] + before.skip(i as int));
        }
        k += 1;
    }
    assert(hexes@.take(hexes@.len() as int) =~= hexes@);
    sorted
}

/// Whether the pattern hex `h` can be aimed for from `current`: it is on the board and
/// is `current` or passable.
pub open spec fn aimable(grid: HexGrid<TileData>, current: Hex, h: Hex) -> bool {
    hex_len(h) <= grid.board_radius() && (h == current || passable_spec(tiles(grid), h))
}

/// The hexes of `valid` to aim for from `current`, nearest first.
pub open spec fn line_targets(grid: HexGrid<TileData>, current: Hex, valid: Seq<Hex>) -> Seq<Hex> {
    sort_by_distance(current, valid.filter(|h: Hex| aimable(grid, current, h)))
}

/// Whether `res` is what trying to chase each of `targets` in turn gives: the first
/// chase that moves, or `None` when none does.
pub open spec fn first_chase(
    grid: HexGrid<TileData>,
    current: Hex,
    targets: Seq<Hex>,
    max_steps: int,
    res: Option<(Hex, Seq<Hex>)>,
) -> bool
    decreases targets.len(),
{
    if targets.len() == 0 {
        res is None
    } else {
        exists|s: (Hex, Seq<Hex>)|
            #[trigger] chase_step(grid, current, targets[0], max_steps, s) && if s.0 != current {
                res == Some(s)
            } else {
                first_chase(grid, current, targets.drop_first(), max_steps, res)
            }
    }
}

/// A chase towards the `t`-th target that does not move leaves the outcome to the
/// later targets; one that moves is the outcome.
proof fn lemma_chase_skip(
    grid: HexGrid<TileData>,
    current: Hex,
    ts: Seq<Hex>,
    t: int,
    max_steps: int,
    s: (Hex, Seq<Hex>),
)
    requires
        0 <= t < ts.len(),
        chase_step(grid, current, ts[t], max_steps, s),
    ensures
        s.0 == current ==> forall|res: Option<(Hex, Seq<Hex>)>|
            #[trigger] first_chase(grid, current, ts.skip(t + 1), max_steps, res)
                ==> first_chase(grid, current, ts.skip(t), max_steps, res),
        s.0 != current ==> first_chase(grid, current, ts.skip(t), max_steps, Some(s)),
{
    assert(ts.skip(t).drop_first() =~= ts.skip(t + 1));
    assert(ts.skip(t)[0] == ts[t]);
}

/// Filter answers: whether each of `nbs` is more than one step from `player_hex`.
pub open spec fn far_from(nbs: Seq<Hex>, player_hex: Hex) -> Seq<bool> {
    Seq::new(nbs.len(), |i: int| hex_dist(nbs[i], player_hex) > 1)
}

/// Whether `r` is the move of a ranged enemy at `current` that attacks from the hexes
/// `valid`: it stays when already on one of them; otherwise it chases the nearest one
/// it can move towards; when none, it steps away from the player if next to it.
pub open spec fn line_move(
    grid: HexGrid<TileData>,
    current: Hex,
    player_hex: Hex,
    move_range: int,
    valid: Seq<Hex>,
    r: (Hex, Seq<Hex>),
) -> bool {
    if valid.contains(current) {
        r == (current, seq![current])
    } else {
        exists|res: Option<(Hex, Seq<Hex>)>|
            #[trigger] first_chase(grid, current, line_targets(grid, current, valid), move_range, res)
                && match res {
                Some(s) => r == s,
                None => if hex_dist(current, player_hex) <= 1 {
                    fallback_step(
                        tiles(grid),
                        board_neighbors(grid.board_radius(), current),
                        far_from(board_neighbors(grid.board_radius(), current), player_hex),
                        current,
                        r,
                    )
                } else {
                    r == (current, seq![current])
                },
            }
    }
}

/// Moves a ranged enemy at `current` that attacks from the hexes `valid_positions`:
/// if already on one, stay put; otherwise pathfind towards them, closest first; as a
/// fallback, move away from the player if too close.
pub fn move_onto_lines(
    grid: &HexGrid<TileData>,
    current: Hex,
    player_hex: Hex,
    move_range: i32,
    valid_positions: &Vec<Hex>,
) -> (r: (Hex, Vec<Hex>))
    requires
        grid.wf(),
        coords_within(current, 1),
    ensures
        line_move(*grid, current, player_hex, move_range as int, valid_positions@, (r.0, r.1@)),
        moved_to(grid.board_radius(), current, (r.0, r.1@)),
{
    let ghost valid = valid_positions@;
    // Check if already in a valid attack position
    let mut i: usize = 0;
    while i < valid_positions.len()
        invariant
            i <= valid.len(),
            valid == valid_positions@,
            forall|k: int| 0 <= k < i ==> valid[k] != current,
        decreases valid.len() - i,
    {
        if valid_positions[i] == current {
            let mut v: Vec<Hex> = Vec::new();
            v.push(current);
            proof {
                assert(valid[i as int] == current);
                assert(v@ =~= seq![current]);
            }
            return (current, v);
        }
        i += 1;
    }
    assert(!valid.contains(current));
    // Candidates: on the board, and current or passable; closest first.
    let ghost pred = |h: Hex| aimable(*grid, current, h);
    let mut filtered: Vec<Hex> = Vec::new();
    let mut k: usize = 0;
    while k < valid_positions.len()
        invariant
            grid.wf(),
            k <= valid.len(),
            valid == valid_positions@,
            pred == (|h: Hex| aimable(*grid, current, h)),
            filtered@ == valid.take(k as int).filter(pred),
        decreases valid.len() - k,
    {
        proof {
            reveal(Seq::filter);
            assert(valid.take(k + 1).drop_last() =~= valid.take(k as int));
        }
        let h = valid_positions[k];
        if grid.contains(h) && (h == current || is_passable(grid, h)) {
            filtered.push(h);
        }
        k += 1;
    }
    assert(valid.take(valid.len() as int) =~= valid);
    let targets = sorted_by_distance(current, &filtered);
    let ghost ts = targets@;
    assert(ts.skip(0) =~= ts);
    // Try pathfinding to each candidate, closest first
    let mut t: usize = 0;
    while t < targets.len()
        invariant
            grid.wf(),
            ts == targets@,
            ts == line_targets(*grid, current, valid),
            valid == valid_positions@,
            !valid.contains(current),
            t <= ts.len(),
            forall|res: Option<(Hex, Seq<Hex>)>|
                #[trigger] first_chase(*grid, current, ts.skip(t as int), move_range as int, res)
                    ==> first_chase(*grid, current, ts, move_range as int, res),
        decreases ts.len() - t,
    {
        let (destination, move_path) = pathfind_and_step(grid, current, targets[t], move_range);
        proof {
            lemma_chase_skip(*grid, current, ts, t as int, move_range as int, (destination, move_path@));
        }
        if destination != current {
            return (destination, move_path);
        }
        t += 1;
    }
    proof {
        assert(ts.skip(ts.len() as int).len() == 0);
        assert(first_chase(*grid, current, ts.skip(t as int), move_range as int, None));
    }
    // Fallback: move away from the player if too close
    if wide_distance(current, player_hex) <= 1 {
        let far = |h: Hex| -> (b: bool) ensures b == (hex_dist(h, player_hex) > 1) { wide_distance(h, player_hex) > 1 };
        let pick = random_passable_neighbor(grid, current, far);
        let ghost nbs = board_neighbors(grid.board_radius(), current);
        proof {
            let fl = choose|fl: Seq<bool>|
                {
                    &&& fl.len() == nbs.len()
                    &&& forall|i: int|
                        0 <= i < nbs.len() && passable_spec(tiles(*grid), nbs[i]) ==> #[trigger] far.ensures((nbs[i],), fl[i])
                    &&& picked_neighbor(tiles(*grid), nbs, fl, pick)
                };
            assert forall|i: int| 0 <= i < nbs.len() && passable_spec(tiles(*grid), nbs[i]) implies fl[i] == far_from(
                nbs,
                player_hex,
            )[i] by {
                assert(far.ensures((nbs[i],), fl[i]));
            }
            lemma_pick_same_filter(tiles(*grid), nbs, fl, far_from(nbs, player_hex), pick);
        }
        if let Some(fallback) = pick {
            let mut v: Vec<Hex> = Vec::new();
            v.push(current);
            v.push(fallback);
            assert(v@ =~= seq![current, fallback]);
            return (fallback, v);
        }
    }
    let mut v: Vec<Hex> = Vec::new();
    v.push(current);
    assert(v@ =~= seq![current]);
    (current, v)
}

/// Starts an enemy's move during the enemy turn, once no animation runs: refills the
/// queue with the living enemies when it is empty and takes the next one. The turn
/// goes back to the player when no enemy is left, or when there is no player.
pub fn next_enemy(
    turn: &mut TurnState,
    queue: &mut EnemyTurnQueue,
    animating: bool,
    alive: &Vec<EntityId>,
    player_present: bool,
) -> (next: Option<EntityId>)
    ensures
        *old(turn) != TurnState::Active(Turn::Enemy) || animating ==> {
            &&& next is None
            &&& *final(turn) == *old(turn)
            &&& final(queue).0@ == old(queue).0@
        },
        !(*old(turn) != TurnState::Active(Turn::Enemy) || animating) ==> {
            let q0 = if old(queue).0@.len() == 0 {
                alive@
            } else {
                old(queue).0@
            };
            let go = q0.len() > 0 && player_present;
            &&& final(queue).0@ == if q0.len() == 0 {
                q0
            } else {
                q0.drop_last()
            }
            &&& next == if go {
                Some(q0.last())
            } else {
                None
            }
            &&& *final(turn) == if go {
                *old(turn)
            } else {
                TurnState::Active(Turn::Player)
            }
        },
{
    if *turn != TurnState::Active(Turn::Enemy) || animating {
        return None;
    }
    if queue.0.len() == 0 {
        queue.0 = copy_ids(alive);
    }
    let e = match queue.0.pop() {
        None => {
            *turn = TurnState::Active(Turn::Player);
            return None;
        },
        Some(e) => e,
    };
    if !player_present {
        *turn = TurnState::Active(Turn::Player);
        return None;
    }
    Some(e)
}

/// What an enemy brings to its move.
#[derive(Debug, Clone, Copy, PartialEq, Eq, Structural)]
pub struct EnemyState {
    pub entity: EntityId,
    pub stats: Stats,
    pub kind: EnemyKind,
    pub pattern: Option<AttackPattern>,
    /// It attacked the player this turn and skips its move.
    pub skip: bool,
    /// For a bomber: one of its bombs is still on the board.
    pub has_bomb: bool,
}

/// What an enemy did on its move.
#[derive(Debug, Clone)]
pub enum EnemyOutcome {
    /// It had attacked and skipped its move.
    Skipped,
    /// It threw a bomb onto this hex.
    Threw(Hex),
    /// It moved along this path.
    Moved(Vec<Hex>),
    /// It stayed where it was.
    Stayed,
}

/// Whether `r` is an action enemy `e` at `current` may choose: melee enemies (and
/// bombers whose bomb is still out) chase the player; archers and warlocks seek their
/// firing lines; bombers throw or close in.
pub open spec fn enemy_choice(grid: HexGrid<TileData>, current: Hex, player_hex: Hex, e: EnemyState, r: BomberPlan) -> bool {
    match e.kind {
        EnemyKind::Archer => r matches BomberPlan::Move(h, p) && line_move(
            grid,
            current,
            player_hex,
            e.stats.move_range as int,
            diagonal_seq(player_hex, 2, 4),
            (h, p),
        ),
        EnemyKind::Warlock => r matches BomberPlan::Move(h, p) && line_move(
            grid,
            current,
            player_hex,
            e.stats.move_range as int,
            all_directions_seq(player_hex, 2, 4),
            (h, p),
        ),
        EnemyKind::Bomber => if e.has_bomb {
            r matches BomberPlan::Move(h, p) && melee_move(grid, current, player_hex, e.stats, (h, p))
        } else {
            bomber_plan(grid, current, player_hex, e.stats, r)
        },
        EnemyKind::Melee => r matches BomberPlan::Move(h, p) && melee_move(grid, current, player_hex, e.stats, (h, p)),
    }
}

/// Whether carrying out the chosen action `plan` of enemy `e` from `current` gives the
/// outcome `out`, the tiles `m1`, position `pos1` and move order `order1`: a throw
/// changes nothing here; a move elsewhere relocates the enemy and records it as having
/// moved; a move onto its own hex changes nothing.
pub open spec fn carried_out(
    plan: BomberPlan,
    e: EnemyState,
    current: Hex,
    out: EnemyOutcome,
    m0: Map<Hex, TileView>,
    m1: Map<Hex, TileView>,
    pos1: HexPosition,
    order0: Seq<EntityId>,
    order1: Seq<EntityId>,
) -> bool {
    match plan {
        BomberPlan::ThrowBomb(t) => {
            &&& out matches EnemyOutcome::Threw(x) && x == t
            &&& m1 == m0
            &&& pos1 == HexPosition(current)
            &&& order1 == order0
        },
        BomberPlan::Move(h, p) => if h != current {
            &&& out matches EnemyOutcome::Moved(v) && v@ == p
            &&& m1 == relocated(m0, e.entity, current, h, e.stats, e.pattern)
            &&& pos1 == HexPosition(h)
            &&& order1 == order0.push(e.entity)
        } else {
            &&& out is Stayed
            &&& m1 == m0
            &&& pos1 == HexPosition(current)
            &&& order1 == order0
        },
    }
}

/// Whether the enemy acted: it threw a bomb or left its hex.
pub open spec fn acted(plan: BomberPlan, current: Hex) -> bool {
    match plan {
        BomberPlan::ThrowBomb(_) => true,
        BomberPlan::Move(h, _) => h != current,
    }
}

/// The turn after an enemy's move: unchanged while enemies are left; otherwise the
/// player's, after the animations when one acted.
pub open spec fn turn_after_enemy(turn: TurnState, queue_empty: bool, did_act: bool) -> TurnState {
    if !queue_empty {
        turn
    } else if did_act {
        TurnState::Animating { next: TurnPhase::Turn(Turn::Player) }
    } else {
        TurnState::Active(Turn::Player)
    }
}

/// Carries out the move of enemy `e` standing at `hex_pos`: an enemy that attacked
/// skips; otherwise it throws or moves as its kind decides, the grid and the move order
/// following. When the queue is empty the turn passes to the player.
pub fn act_enemy(
    grid: &mut HexGrid<TileData>,
    turn: &mut TurnState,
    queue_empty: bool,
    move_order: &mut TurnMoveOrder,
    e: &EnemyState,
    hex_pos: &mut HexPosition,
    player_hex: Hex,
) -> (out: EnemyOutcome)
    requires
        old(grid).wf(),
        in_board(old(grid).board_radius(), old(hex_pos).0),
        coords_within(old(hex_pos).0, 1),
        coords_within(player_hex, 4),
        board_fits(old(grid).board_radius(), e.stats, e.pattern),
    ensures
        final(grid).wf(),
        final(grid).board_radius() == old(grid).board_radius(),
        e.skip ==> {
            &&& out is Skipped
            &&& tiles(*final(grid)) == tiles(*old(grid))
            &&& *final(hex_pos) == *old(hex_pos)
            &&& final(move_order).0@ == old(move_order).0@
            &&& *final(turn) == turn_after_enemy(*old(turn), queue_empty, false)
        },
        !e.skip ==> exists|plan: BomberPlan|
            #[trigger] enemy_choice(*old(grid), old(hex_pos).0, player_hex, *e, plan) && carried_out(
                plan,
                *e,
                old(hex_pos).0,
                out,
                tiles(*old(grid)),
                tiles(*final(grid)),
                *final(hex_pos),
                old(move_order).0@,
                final(move_order).0@,
            ) && *final(turn) == turn_after_enemy(*old(turn), queue_empty, acted(plan, old(hex_pos).0)),
{
    if e.skip {
        if queue_empty {
            *turn = TurnState::Active(Turn::Player);
        }
        return EnemyOutcome::Skipped;
    }
    let current = hex_pos.0;
    let ghost m0 = tiles(*grid);
    let ghost g0 = *grid;
    let action = match e.kind {
        EnemyKind::Bomber => if e.has_bomb {
            let (dest, path) = grunt::compute_move(grid, current, player_hex, &e.stats);
            BomberAction::Move(dest, path)
        } else {
            bomber::compute_action(grid, current, player_hex, &e.stats)
        },
        EnemyKind::Melee => {
            let (dest, path) = grunt::compute_move(grid, current, player_hex, &e.stats);
            BomberAction::Move(dest, path)
        },
        EnemyKind::Archer => {
            let (dest, path) = archer::compute_move(grid, current, player_hex, &e.stats);
            BomberAction::Move(dest, path)
        },
        EnemyKind::Warlock => {
            let (dest, path) = warlock::compute_move(grid, current, player_hex, &e.stats);
            BomberAction::Move(dest, path)
        },
    };
    let ghost plan = action@;
    assert(enemy_choice(g0, current, player_hex, *e, plan));
    let out = match action {
        BomberAction::ThrowBomb { target_hex } => EnemyOutcome::Threw(target_hex),
        BomberAction::Move(destination, move_path) => {
            if destination != current {
                proof {
                    assert(moved_to(g0.board_radius(), current, (destination, move_path@)));
                    lemma_board_fits(g0.board_radius(), destination, e.stats, e.pattern);
                }
                move_order.0.push(e.entity);
                let pattern = match &e.pattern {
                    Some(p) => Some(p),
                    None => None,
                };
                relocate(grid, e.entity, hex_pos, move_path.as_slice(), &e.stats, pattern);
                EnemyOutcome::Moved(move_path)
            } else {
                EnemyOutcome::Stayed
            }
        },
    };
    if queue_empty {
        let did_act = match &out {
            EnemyOutcome::Threw(_) => true,
            EnemyOutcome::Moved(_) => true,
            _ => false,
        };
        if did_act {
            *turn = TurnState::Animating { next: TurnPhase::Turn(Turn::Player) };
        } else {
            *turn = TurnState::Active(Turn::Player);
        }
    }
    out
}

/// Enemies spawn at least this many steps away from the player.
pub const MIN_SPAWN_DISTANCE: i32 = 4;

/// Whether an enemy may spawn on `h`: far enough from the player, and passable.
pub open spec fn spawnable(m: Map<Hex, TileView>, player_hex: Hex, h: Hex) -> bool {
    hex_dist(h, player_hex) >= MIN_SPAWN_DISTANCE && passable_spec(m, h)
}

/// The board hexes an enemy may spawn on, in random order.
pub fn spawn_candidates(grid: &HexGrid<TileData>, player_hex: Hex) -> (v: Vec<Hex>)
    requires
        grid.wf(),
    ensures
        v@.to_multiset() == grid.cells_seq().filter(|h: Hex| spawnable(tiles(*grid), player_hex, h)).to_multiset(),
{
    let cells = grid.positions();
    let ghost pred = |h: Hex| spawnable(tiles(*grid), player_hex, h);
    let mut v: Vec<Hex> = Vec::new();
    let mut k: usize = 0;
    while k < cells.len()
        invariant
            grid.wf(),
            cells@ == grid.cells_seq(),
            pred == (|h: Hex| spawnable(tiles(*grid), player_hex, h)),
            k <= cells@.len(),
            v@ == cells@.take(k as int).filter(pred),
        decreases cells@.len() - k,
    {
        proof {
            reveal(Seq::filter);
            assert(cells@.take(k + 1).drop_last() =~= cells@.take(k as int));
        }
        let h = cells[k];
        if wide_distance(h, player_hex) >= MIN_SPAWN_DISTANCE as i64 && is_passable(grid, h) {
            v.push(h);
        }
        k += 1;
    }
    assert(cells@.take(cells@.len() as int) =~= cells@);
    let mut rng = thread_rng();
    shuffle_hexes(&mut v, &mut rng);
    v
}

/// The smaller of two counts.
pub open spec fn min_count(a: int, b: int) -> int {
    if a < b {
        a
    } else {
        b
    }
}

/// The kinds of enemy a level spawns when `n` candidate hexes are available, in spawn
/// order: its grunts, then archers, warlocks and bombers, each as many as the level
/// asks while hexes remain.
pub open spec fn spawn_kinds(grunts: int, archers: int, warlocks: int, bombers: int, n: int) -> Seq<EnemyKind> {
    let g = min_count(grunts, n);
    let a = min_count(archers, n - g);
    let w = min_count(warlocks, n - g - a);
    let b = min_count(bombers, n - g - a - w);
    Seq::new(g as nat, |i: int| EnemyKind::Melee) + Seq::new(a as nat, |i: int| EnemyKind::Archer) + Seq::new(
        w as nat,
        |i: int| EnemyKind::Warlock,
    ) + Seq::new(b as nat, |i: int| EnemyKind::Bomber)
}

/// Appends `count` spawns of `kind` on the next candidates.
fn push_spawns(
    out: &mut Vec<(EnemyKind, Hex)>,
    candidates: &Vec<Hex>,
    kind: EnemyKind,
    count: usize,
)
    requires
        old(out)@.len() + count <= candidates@.len(),
    ensures
        final(out)@.len() == old(out)@.len() + count,
        forall|i: int| 0 <= i < old(out)@.len() ==> #[trigger] final(out)@[i] == old(out)@[i],
        forall|i: int|
            old(out)@.len() <= i < final(out)@.len() ==> #[trigger] final(out)@[i] == (kind, candidates@[i]),
{
    let ghost start = out@;
    let mut j: usize = 0;
    while j < count
        invariant
            j <= count,
            start.len() + count <= candidates@.len(),
            out@.len() == start.len() + j,
            forall|i: int| 0 <= i < start.len() ==> #[trigger] out@[i] == start[i],
            forall|i: int| start.len() <= i < out@.len() ==> #[trigger] out@[i] == (kind, candidates@[i]),
        decreases count - j,
    {
        let idx = out.len();
        out.push((kind, candidates[idx]));
        j += 1;
    }
}

/// The smaller of two counts.
fn min_usize(a: usize, b: usize) -> (m: usize)
    ensures
        m == min_count(a as int, b as int),
{
    if a < b {
        a
    } else {
        b
    }
}

/// What a level spawns on the (shuffled) candidate hexes: each enemy of
/// [`spawn_kinds`] on the next candidate.
pub fn plan_spawns(level: &Level, candidates: &Vec<Hex>) -> (v: Vec<(EnemyKind, Hex)>)
    ensures
        v@.len() == spawn_kinds(
            level.grunts as int,
            level.archers as int,
            level.warlocks as int,
            level.bombers as int,
            candidates@.len() as int,
        ).len(),
        forall|i: int|
            0 <= i < v@.len() ==> #[trigger] v@[i] == (
                spawn_kinds(
                    level.grunts as int,
                    level.archers as int,
                    level.warlocks as int,
                    level.bombers as int,
                    candidates@.len() as int,
                )[i],
                candidates@[i],
            ),
{
    let n = candidates.len();
    let mut out: Vec<(EnemyKind, Hex)> = Vec::new();
    let g = min_usize(level.grunts, n);
    push_spawns(&mut out, candidates, EnemyKind::Melee, g);
    let a = min_usize(level.archers, n - out.len());
    push_spawns(&mut out, candidates, EnemyKind::Archer, a);
    let w = min_usize(level.warlocks, n - out.len());
    push_spawns(&mut out, candidates, EnemyKind::Warlock, w);
    let b = min_usize(level.bombers, n - out.len());
    push_spawns(&mut out, candidates, EnemyKind::Bomber, b);
    let ghost kinds = spawn_kinds(
        level.grunts as int,
        level.archers as int,
        level.warlocks as int,
        level.bombers as int,
        n as int,
    );
    assert forall|i: int| 0 <= i < out@.len() implies #[trigger] out@[i] == (kinds[i], candidates@[i]) by {
        if i < g {
        } else if i < g + a {
        } else if i < g + a + w {
        } else {
        }
    }
    out
}

/// The stats and attack pattern an enemy of `kind` spawns with.
pub fn enemy_profile(kind: EnemyKind) -> (p: (Stats, Option<AttackPattern>))
    ensures
        p == match kind {
            EnemyKind::Melee => (Stats { move_range: 1, attack_range: 1 }, None),
            EnemyKind::Archer => (
                Stats { move_range: 1, attack_range: 4 },
                Some(AttackPattern::DiagonalRanged { min_range: 2, max_range: 4 }),
            ),
            EnemyKind::Warlock => (
                Stats { move_range: 1, attack_range: 5 },
                Some(AttackPattern::AllDirectionsRanged { min_range: 2, max_range: 5 }),
            ),
            EnemyKind::Bomber => (Stats { move_range: 1, attack_range: 0 }, None),
        },
{
    match kind {
        EnemyKind::Melee => (Stats { move_range: 1, attack_range: 1 }, None),
        EnemyKind::Archer => (Stats { move_range: 1, attack_range: 4 }, Some(archer::attack_pattern())),
        EnemyKind::Warlock => (Stats { move_range: 1, attack_range: 5 }, Some(warlock::attack_pattern())),
        EnemyKind::Bomber => (Stats { move_range: 1, attack_range: 0 }, None),
    }
}

/// A fallback step that moves ends on a passable tile.
proof fn lemma_fallback_free(m: Map<Hex, TileView>, nbs: Seq<Hex>, fl: Seq<bool>, current: Hex, r: (Hex, Seq<Hex>))
    requires
        fallback_step(m, nbs, fl, current, r),
        r.0 != current,
    ensures
        !occupied_spec(m, r.0),
{
    let pick = choose|pick: Option<Hex>|
        #[trigger] picked_neighbor(m, nbs, fl, pick) && r == match pick {
            Some(n) => (n, seq![current, n]),
            None => (current, seq![current]),
        };
    if let Some(n) = pick {
        let i = choose|i: int| 0 <= i < nbs.len() && passable_spec(m, #[trigger] nbs[i]) && fl[i] && nbs[i] == n;
        assert(passable_spec(m, nbs[i]));
    }
}

/// A chase among several targets that moves ends on an unoccupied tile.
proof fn lemma_first_chase_free(grid: HexGrid<TileData>, current: Hex, ts: Seq<Hex>, max_steps: int, s: (Hex, Seq<Hex>))
    requires
        first_chase(grid, current, ts, max_steps, Some(s)),
    ensures
        s.0 == current || !occupied_spec(tiles(grid), s.0),
    decreases ts.len(),
{
    if ts.len() > 0 {
        let c = choose|c: (Hex, Seq<Hex>)|
            #[trigger] chase_step(grid, current, ts[0], max_steps, c) && if c.0 != current {
                Some(s) == Some(c)
            } else {
                first_chase(grid, current, ts.drop_first(), max_steps, Some(s))
            };
        law_chase_stops_before_occupied(grid, current, ts[0], max_steps, c);
        if c.0 == current {
            lemma_first_chase_free(grid, current, ts.drop_first(), max_steps, s);
        }
    }
}

/// Enemies never move onto an occupied tile: whatever an enemy chooses, a move that
/// leaves its hex ends on a tile of the board with no occupant.
pub proof fn law_enemy_moves_to_free_tile(
    grid: HexGrid<TileData>,
    current: Hex,
    player_hex: Hex,
    e: EnemyState,
    plan: BomberPlan,
)
    requires
        enemy_choice(grid, current, player_hex, e, plan),
    ensures
        plan matches BomberPlan::Move(h, _) ==> h == current || !occupied_spec(tiles(grid), h),
{
    let m = tiles(grid);
    let radius = grid.board_radius();
    let nbs = board_neighbors(radius, current);
    if let BomberPlan::Move(h, p) = plan {
        if h != current {
            let melee = e.kind is Melee || (e.kind is Bomber && e.has_bomb);
            if melee || e.kind is Bomber {
                let s = choose|s: (Hex, Seq<Hex>)|
                    #[trigger] chase_step(grid, current, player_hex, e.stats.move_range as int, s) && if s.0 != current {
                        (h, p) == s
                    } else {
                        fallback_step(m, nbs, accept_all(nbs.len()), current, (h, p))
                    };
                if e.kind is Bomber && !e.has_bomb {
                    let s2 = choose|s: (Hex, Seq<Hex>)|
                        #[trigger] chase_step(grid, current, player_hex, e.stats.move_range as int, s) && if s.0
                            != current && hex_dist(s.0, player_hex) >= crate::enemy::bomber::THROW_MIN {
                            BomberPlan::Move(h, p) == BomberPlan::Move(s.0, s.1)
                        } else {
                            BomberPlan::Move(h, p) matches BomberPlan::Move(h2, p2) && fallback_step(
                                m,
                                nbs,
                                accept_all(nbs.len()),
                                current,
                                (h2, p2),
                            )
                        };
                    law_chase_stops_before_occupied(grid, current, player_hex, e.stats.move_range as int, s2);
                    if !(s2.0 != current && hex_dist(s2.0, player_hex) >= crate::enemy::bomber::THROW_MIN) {
                        lemma_fallback_free(m, nbs, accept_all(nbs.len()), current, (h, p));
                    }
                } else {
                    law_chase_stops_before_occupied(grid, current, player_hex, e.stats.move_range as int, s);
                    if s.0 == current {
                        lemma_fallback_free(m, nbs, accept_all(nbs.len()), current, (h, p));
                    }
                }
            } else {
                let valid = if e.kind is Archer {
                    diagonal_seq(player_hex, 2, 4)
                } else {
                    all_directions_seq(player_hex, 2, 4)
                };
                if !valid.contains(current) {
                    let res = choose|res: Option<(Hex, Seq<Hex>)>|
                        #[trigger] first_chase(grid, current, line_targets(grid, current, valid), e.stats.move_range as int, res)
                            && match res {
                            Some(s) => (h, p) == s,
                            None => if hex_dist(current, player_hex) <= 1 {
                                fallback_step(m, nbs, far_from(nbs, player_hex), current, (h, p))
                            } else {
                                (h, p) == (current, seq![current])
                            },
                        };
                    match res {
                        Some(s) => {
                            lemma_first_chase_free(grid, current, line_targets(grid, current, valid), e.stats.move_range as int, s);
                        },
                        None => {
                            if hex_dist(current, player_hex) <= 1 {
                                lemma_fallback_free(m, nbs, far_from(nbs, player_hex), current, (h, p));
                            }
                        },
                    }
                }
            }
        }
    }
}

} // verus!
