//! A* search for shortest walks across a hex board.

use vstd::prelude::*;
use vstd::set_lib::{lemma_int_range, lemma_len_subset, set_int_range};

use crate::hex::{adjacent, coords_within, hex_count_spec, hex_dist, spiral_seq, step, Hex};
use crate::hex_grid::{board_neighbors, in_board, origin, HexGrid};
use crate::hex_laws::{lemma_adjacent_step, law_distance_metric, spiral_index};

verus! {

/// Whether the board hex `h` is marked passable in `pass`, which holds one flag per
/// cell in spiral order.
pub open spec fn passable_at(pass: Seq<bool>, h: Hex) -> bool {
    pass[spiral_index(origin(), h)]
}

/// Whether a walk may step from `a` onto `b`: they are adjacent, and `b` is the goal
/// or passable.
pub open spec fn step_ok(goal: Hex, pass: Seq<bool>, a: Hex, b: Hex) -> bool {
    adjacent(a, b) && (b == goal || passable_at(pass, b))
}

/// Whether `q` is a walk over board hexes from `start` to `end`, each step allowed
/// by [`step_ok`] for the search towards `goal`.
pub open spec fn is_route(
    radius: int,
    start: Hex,
    goal: Hex,
    pass: Seq<bool>,
    q: Seq<Hex>,
    end: Hex,
) -> bool {
    &&& q.len() >= 1
    &&& q[0] == start
    &&& q.last() == end
    &&& forall|i: int| 0 <= i < q.len() ==> in_board(radius, #[trigger] q[i])
    &&& forall|i: int| 0 < i < q.len() ==> step_ok(goal, pass, q[i - 1], #[trigger] q[i])
}

/// What a search from `start` to `goal` returns: `None` exactly when no walk exists,
/// otherwise a walk that is no longer than any other.
pub open spec fn shortest_walk(
    radius: int,
    start: Hex,
    goal: Hex,
    pass: Seq<bool>,
    result: Option<Seq<Hex>>,
) -> bool {
    match result {
        None => forall|q: Seq<Hex>| !#[trigger] is_route(radius, start, goal, pass, q, goal),
        Some(p) => {
            &&& is_route(radius, start, goal, pass, p, goal)
            &&& forall|q: Seq<Hex>|
                #[trigger] is_route(radius, start, goal, pass, q, goal) ==> p.len() <= q.len()
        },
    }
}

/// The hexes of an optional path.
pub open spec fn opt_seq(result: Option<Vec<Hex>>) -> Option<Seq<Hex>> {
    match result {
        Some(v) => Some(v@),
        None => None,
    }
}

/// Along a walk, the distance to `target` shrinks by at most one per step.
proof fn lemma_route_heuristic(
    radius: int,
    start: Hex,
    goal: Hex,
    pass: Seq<bool>,
    q: Seq<Hex>,
    end: Hex,
    target: Hex,
    j: int,
)
    requires
        is_route(radius, start, goal, pass, q, end),
        target.wf(),
        0 <= j < q.len(),
    ensures
        hex_dist(q[j], target) <= (q.len() - 1 - j) + hex_dist(end, target),
    decreases q.len() - j,
{
    if j < q.len() - 1 {
        lemma_route_heuristic(radius, start, goal, pass, q, end, target, j + 1);
        assert(in_board(radius, q[j]));
        assert(in_board(radius, q[j + 1]));
        assert(step_ok(goal, pass, q[j + 1 - 1], q[j + 1]));
        law_distance_metric(q[j], q[j + 1], target);
    }
}

/// A prefix of a walk is a walk to its last hex.
proof fn lemma_route_prefix(
    radius: int,
    start: Hex,
    goal: Hex,
    pass: Seq<bool>,
    q: Seq<Hex>,
    end: Hex,
    j: int,
)
    requires
        is_route(radius, start, goal, pass, q, end),
        0 <= j < q.len(),
    ensures
        is_route(radius, start, goal, pass, q.take(j + 1), q[j]),
{
    let t = q.take(j + 1);
    assert forall|i: int| 0 < i < t.len() implies step_ok(goal, pass, t[i - 1], #[trigger] t[i]) by {
        assert(t[i] == q[i]);
        assert(t[i - 1] == q[i - 1]);
    }
}

/// Whether two flag sequences give every board hex other than `start` and `goal` the
/// same flag.
pub open spec fn same_off_ends(radius: int, start: Hex, goal: Hex, a: Seq<bool>, b: Seq<bool>) -> bool {
    forall|h: Hex|
        in_board(radius, h) && h != start && h != goal ==> #[trigger] passable_at(a, h) == passable_at(b, h)
}

/// A walk to the goal that comes back to `start` can be cut to its part after the
/// last visit; that part is a walk for both flag sequences, no longer than the walk.
proof fn lemma_cut_revisits(
    radius: int,
    start: Hex,
    goal: Hex,
    x: Seq<bool>,
    y: Seq<bool>,
    q: Seq<Hex>,
) -> (q2: Seq<Hex>)
    requires
        same_off_ends(radius, start, goal, x, y),
        is_route(radius, start, goal, x, q, goal),
    ensures
        is_route(radius, start, goal, x, q2, goal),
        is_route(radius, start, goal, y, q2, goal),
        q2.len() <= q.len(),
        (forall|i: int| 0 < i < q.len() ==> #[trigger] q[i] != start) ==> q2 == q,
    decreases q.len(),
{
    if exists|i: int| 0 < i < q.len() && #[trigger] q[i] == start {
        let i = choose|i: int| 0 < i < q.len() && #[trigger] q[i] == start;
        let t = q.subrange(i, q.len() as int);
        assert forall|m: int| 0 <= m < t.len() implies in_board(radius, #[trigger] t[m]) by {
            assert(t[m] == q[m + i]);
        }
        assert forall|m: int| 0 < m < t.len() implies step_ok(goal, x, t[m - 1], #[trigger] t[m]) by {
            assert(t[m] == q[m + i]);
            assert(t[m - 1] == q[m + i - 1]);
        }
        lemma_cut_revisits(radius, start, goal, x, y, t)
    } else {
        assert forall|m: int| 0 < m < q.len() implies step_ok(goal, y, q[m - 1], #[trigger] q[m]) by {
            assert(step_ok(goal, x, q[m - 1], q[m]));
            assert(in_board(radius, q[m]));
        }
        q
    }
}

/// The flags at the start and at the goal do not matter: a shortest walk for one flag
/// sequence is a shortest walk for every sequence that differs from it only there.
pub proof fn law_walk_ignores_endpoint_flags(
    radius: int,
    start: Hex,
    goal: Hex,
    pass: Seq<bool>,
    other: Seq<bool>,
    result: Option<Seq<Hex>>,
)
    requires
        same_off_ends(radius, start, goal, pass, other),
        shortest_walk(radius, start, goal, pass, result),
    ensures
        shortest_walk(radius, start, goal, other, result),
{
    assert(same_off_ends(radius, start, goal, other, pass));
    match result {
        None => {
            assert forall|q: Seq<Hex>| !#[trigger] is_route(radius, start, goal, other, q, goal) by {
                if is_route(radius, start, goal, other, q, goal) {
                    let q2 = lemma_cut_revisits(radius, start, goal, other, pass, q);
                }
            }
        },
        Some(p) => {
            let p2 = lemma_cut_revisits(radius, start, goal, pass, other, p);
            if exists|i: int| 0 < i < p.len() && #[trigger] p[i] == start {
                let i = choose|i: int| 0 < i < p.len() && #[trigger] p[i] == start;
                let t = p.subrange(i, p.len() as int);
                assert forall|m: int| 0 <= m < t.len() implies in_board(radius, #[trigger] t[m]) by {
                    assert(t[m] == p[m + i]);
                }
                assert forall|m: int| 0 < m < t.len() implies step_ok(goal, pass, t[m - 1], #[trigger] t[m]) by {
                    assert(t[m] == p[m + i]);
                    assert(t[m - 1] == p[m + i - 1]);
                }
                assert(is_route(radius, start, goal, pass, t, goal));
                assert(false);
            }
            assert forall|q: Seq<Hex>| #[trigger] is_route(radius, start, goal, other, q, goal) implies p.len()
                <= q.len() by {
                let q2 = lemma_cut_revisits(radius, start, goal, other, pass, q);
            }
        },
    }
}

/// Whether the flags `ps` agree with every answer recorded in `answers` (one entry per
/// cell; `None` where the cell was not asked about).
spec fn agrees(ps: Seq<bool>, answers: Seq<Option<bool>>) -> bool {
    &&& ps.len() == answers.len()
    &&& forall|k: int| 0 <= k < ps.len() && (#[trigger] answers[k]) is Some ==> ps[k] == answers[k]->Some_0
}

/// The recorded answers, with `false` for the cells not asked about.
spec fn completion(answers: Seq<Option<bool>>) -> Seq<bool> {
    Seq::new(answers.len(), |k: int| answers[k] == Some(true))
}

/// The search state: distances `g` found so far, which cells are `seen` and `closed`
/// (`cset` holds the closed ones), and the `parent` of each seen cell other than the
/// start on its best known walk.
#[verifier::opaque]
pub open spec fn search_core(
    cells: Seq<Hex>,
    radius: int,
    start: Hex,
    goal: Hex,
    pass: Seq<bool>,
    s: int,
    seen: Seq<bool>,
    closed: Seq<bool>,
    g: Seq<usize>,
    parent: Seq<usize>,
    cset: Set<int>,
) -> bool {
    let n = cells.len();
    &&& seen.len() == n && closed.len() == n && g.len() == n && parent.len() == n
    &&& pass.len() == n
    &&& 0 <= s < n && cells[s] == start && seen[s] && g[s] == 0
    &&& forall|k: int| 0 <= k < n && #[trigger] closed[k] ==> seen[k]
    &&& forall|k: int| 0 <= k < n ==> (#[trigger] closed[k] <==> cset.contains(k))
    &&& cset.subset_of(set_int_range(0, n as int))
    &&& forall|k: int| 0 <= k < n && #[trigger] seen[k] ==> g[k] <= cset.len()
    &&& forall|k: int|
        #![trigger parent[k]]
        0 <= k < n && seen[k] && k != s ==> {
            &&& parent[k] < n
            &&& closed[parent[k] as int]
            &&& g[k] == g[parent[k] as int] + 1
            &&& step_ok(goal, pass, cells[parent[k] as int], cells[k])
        }
    &&& forall|k: int, q: Seq<Hex>|
        0 <= k < n && #[trigger] closed[k] && #[trigger] is_route(radius, start, goal, pass, q, cells[k])
            ==> g[k] <= q.len() - 1
}

/// Every closed cell other than `except` has had its neighbors relaxed: each neighbor
/// it may step onto is closed, or seen with a distance at most one more.
#[verifier::opaque]
pub open spec fn relaxed_except(
    cells: Seq<Hex>,
    goal: Hex,
    pass: Seq<bool>,
    seen: Seq<bool>,
    closed: Seq<bool>,
    g: Seq<usize>,
    except: int,
) -> bool {
    forall|u: int, w: int|
        0 <= u < cells.len() && 0 <= w < cells.len() && u != except && #[trigger] closed[u]
            && #[trigger] step_ok(goal, pass, cells[u], cells[w]) ==> closed[w] || (seen[w] && g[w]
            <= g[u] + 1)
}

/// The simple consequences of the search state.
proof fn lemma_core_facts(
    cells: Seq<Hex>,
    radius: int,
    start: Hex,
    goal: Hex,
    pass: Seq<bool>,
    s: int,
    seen: Seq<bool>,
    closed: Seq<bool>,
    g: Seq<usize>,
    parent: Seq<usize>,
    cset: Set<int>,
)
    requires
        search_core(cells, radius, start, goal, pass, s, seen, closed, g, parent, cset),
    ensures
        seen.len() == cells.len() && closed.len() == cells.len() && g.len() == cells.len(),
        parent.len() == cells.len() && pass.len() == cells.len(),
        0 <= s < cells.len(),
        cells[s] == start,
        seen[s],
        g[s] == 0,
        cset.finite(),
        cset.len() <= cells.len(),
        forall|k: int| 0 <= k < cells.len() && #[trigger] closed[k] ==> seen[k],
        forall|k: int| 0 <= k < cells.len() ==> (#[trigger] closed[k] <==> cset.contains(k)),
        forall|k: int| 0 <= k < cells.len() && #[trigger] seen[k] ==> g[k] <= cells.len(),
        forall|k: int|
            #![trigger parent[k]]
            0 <= k < cells.len() && seen[k] && k != s ==> {
                &&& parent[k] < cells.len()
                &&& seen[parent[k] as int]
                &&& g[k] == g[parent[k] as int] + 1
                &&& step_ok(goal, pass, cells[parent[k] as int], cells[k])
            },
        forall|k: int, q: Seq<Hex>|
            0 <= k < cells.len() && #[trigger] closed[k] && #[trigger] is_route(
                radius,
                start,
                goal,
                pass,
                q,
                cells[k],
            ) ==> g[k] <= q.len() - 1,
{
    reveal(search_core);
    lemma_int_range(0, cells.len() as int);
    lemma_len_subset(cset, set_int_range(0, cells.len() as int));
    assert forall|k: int| 0 <= k < cells.len() && seen[k] && k != s implies #[trigger] seen[parent[k] as int] by {
        assert(closed[parent[k] as int]);
    }
}

/// The state before the first step: only the start is seen, at distance zero.
proof fn lemma_init(
    cells: Seq<Hex>,
    radius: int,
    start: Hex,
    goal: Hex,
    pass: Seq<bool>,
    s: int,
    seen: Seq<bool>,
    closed: Seq<bool>,
    g: Seq<usize>,
    parent: Seq<usize>,
)
    requires
        seen.len() == cells.len() && closed.len() == cells.len() && g.len() == cells.len(),
        parent.len() == cells.len() && pass.len() == cells.len(),
        0 <= s < cells.len(),
        cells[s] == start,
        forall|k: int| 0 <= k < cells.len() ==> (#[trigger] seen[k] <==> k == s),
        forall|k: int| 0 <= k < cells.len() ==> !#[trigger] closed[k],
        forall|k: int| 0 <= k < cells.len() ==> #[trigger] g[k] == 0,
    ensures
        search_core(cells, radius, start, goal, pass, s, seen, closed, g, parent, Set::empty()),
        relaxed_except(cells, goal, pass, seen, closed, g, -1),
{
    reveal(search_core);
    reveal(relaxed_except);
}

/// Closing the selected cell `u`, whose distance is shortest, keeps the state
/// consistent; only `u` itself still has neighbors to relax.
proof fn lemma_close(
    cells: Seq<Hex>,
    radius: int,
    start: Hex,
    goal: Hex,
    pass: Seq<bool>,
    s: int,
    seen: Seq<bool>,
    closed: Seq<bool>,
    g: Seq<usize>,
    parent: Seq<usize>,
    cset: Set<int>,
    u: int,
)
    requires
        search_core(cells, radius, start, goal, pass, s, seen, closed, g, parent, cset),
        relaxed_except(cells, goal, pass, seen, closed, g, -1),
        0 <= u < cells.len(),
        seen[u],
        !closed[u],
        forall|q: Seq<Hex>| #[trigger] is_route(radius, start, goal, pass, q, cells[u]) ==> g[u] <= q.len() - 1,
    ensures
        search_core(cells, radius, start, goal, pass, s, seen, closed.update(u, true), g, parent, cset.insert(u)),
        relaxed_except(cells, goal, pass, seen, closed.update(u, true), g, u),
        cset.insert(u).len() == cset.len() + 1,
        cset.insert(u).len() <= cells.len(),
        g[u] + 1 <= cset.insert(u).len(),
{
    lemma_core_facts(cells, radius, start, goal, pass, s, seen, closed, g, parent, cset);
    reveal(search_core);
    reveal(relaxed_except);
    let c2 = cset.insert(u);
    lemma_int_range(0, cells.len() as int);
    lemma_len_subset(c2, set_int_range(0, cells.len() as int));
    let closed2 = closed.update(u, true);
    assert forall|k: int, q: Seq<Hex>|
        0 <= k < cells.len() && #[trigger] closed2[k] && #[trigger] is_route(radius, start, goal, pass, q, cells[k])
            implies g[k] <= q.len() - 1 by {
        if k != u {
            assert(closed[k]);
        }
    }
    assert forall|k: int| 0 <= k < cells.len() && seen[k] && k != s implies #[trigger] closed2[parent[k] as int] by {
        assert(closed[parent[k] as int]);
    }
    assert forall|u2: int, w: int|
        0 <= u2 < cells.len() && 0 <= w < cells.len() && u2 != u && #[trigger] closed2[u2]
            && #[trigger] step_ok(goal, pass, cells[u2], cells[w])
        implies closed2[w] || (seen[w] && g[w] <= g[u2] + 1) by {
        assert(closed[u2]);
    }
}

/// Recording a shorter walk to the cell `w` through the closed cell `u` keeps the
/// state consistent.
proof fn lemma_relax(
    cells: Seq<Hex>,
    radius: int,
    start: Hex,
    goal: Hex,
    pass: Seq<bool>,
    s: int,
    seen: Seq<bool>,
    closed: Seq<bool>,
    g: Seq<usize>,
    parent: Seq<usize>,
    cset: Set<int>,
    u: int,
    w: int,
)
    requires
        search_core(cells, radius, start, goal, pass, s, seen, closed, g, parent, cset),
        relaxed_except(cells, goal, pass, seen, closed, g, u),
        cells.len() <= usize::MAX,
        0 <= u < cells.len(),
        0 <= w < cells.len(),
        closed[u],
        !closed[w],
        g[u] + 1 <= cset.len(),
        step_ok(goal, pass, cells[u], cells[w]),
        !seen[w] || g[u] + 1 < g[w],
    ensures
        search_core(
            cells,
            radius,
            start,
            goal,
            pass,
            s,
            seen.update(w, true),
            closed,
            g.update(w, (g[u] + 1) as usize),
            parent.update(w, u as usize),
            cset,
        ),
        relaxed_except(
            cells,
            goal,
            pass,
            seen.update(w, true),
            closed,
            g.update(w, (g[u] + 1) as usize),
            u,
        ),
{
    let n = cells.len();
    let seen2 = seen.update(w, true);
    let g2 = g.update(w, (g[u] + 1) as usize);
    let parent2 = parent.update(w, u as usize);
    reveal(search_core);
    lemma_int_range(0, n as int);
    lemma_len_subset(cset, set_int_range(0, n as int));
    assert(w != s);
    assert forall|k: int| 0 <= k < n && #[trigger] closed[k] implies seen2[k] by {
        assert(seen[k]);
    }
    assert forall|k: int| 0 <= k < n && #[trigger] seen2[k] implies g2[k] <= cset.len() by {
        if k != w {
            assert(seen[k]);
        }
    }
    assert forall|k: int|
        #![trigger parent2[k]]
        0 <= k < n && seen2[k] && k != s implies {
            &&& parent2[k] < n
            &&& closed[parent2[k] as int]
            &&& g2[k] == g2[parent2[k] as int] + 1
            &&& step_ok(goal, pass, cells[parent2[k] as int], cells[k])
        } by {
        if k != w {
            assert(seen[k]);
            assert(parent2[k] == parent[k]);
            assert(parent[k] < n);
            assert(closed[parent[k] as int]);
            assert(parent[k] != w);
            assert(g2[k] == g[k]);
            assert(g2[parent[k] as int] == g[parent[k] as int]);
        } else {
            assert(parent2[k] == u);
            assert(u != w);
            assert(g2[u] == g[u]);
        }
    }
    assert forall|k: int, q: Seq<Hex>|
        0 <= k < n && #[trigger] closed[k] && #[trigger] is_route(radius, start, goal, pass, q, cells[k])
            implies g2[k] <= q.len() - 1 by {
        assert(k != w);
    }
    assert(search_core(cells, radius, start, goal, pass, s, seen2, closed, g2, parent2, cset));
    reveal(relaxed_except);
    assert forall|u2: int, w2: int|
        0 <= u2 < n && 0 <= w2 < n && u2 != u && #[trigger] closed[u2]
            && #[trigger] step_ok(goal, pass, cells[u2], cells[w2])
        implies closed[w2] || (seen2[w2] && g2[w2] <= g2[u2] + 1) by {
        assert(u2 != w);
    }
}

/// Once every neighbor of `u` has been relaxed, all closed cells are relaxed.
proof fn lemma_relaxed_all(
    cells: Seq<Hex>,
    radius: int,
    goal: Hex,
    pass: Seq<bool>,
    seen: Seq<bool>,
    closed: Seq<bool>,
    g: Seq<usize>,
    u: int,
    nbrs: Seq<Hex>,
)
    requires
        0 <= radius <= 2_000_000_000,
        relaxed_except(cells, goal, pass, seen, closed, g, u),
        0 <= u < cells.len(),
        in_board(radius, cells[u]),
        nbrs == board_neighbors(radius, cells[u]),
        forall|k: int| 0 <= k < cells.len() ==> in_board(radius, #[trigger] cells[k]),
        forall|k: int| 0 <= k < cells.len() ==> spiral_index(origin(), #[trigger] cells[k]) == k,
        forall|m: int|
            0 <= m < nbrs.len() && #[trigger] step_ok(goal, pass, cells[u], nbrs[m]) ==> {
                let w = spiral_index(origin(), nbrs[m]);
                closed[w] || (seen[w] && g[w] <= g[u] + 1)
            },
    ensures
        relaxed_except(cells, goal, pass, seen, closed, g, -1),
{
    reveal(relaxed_except);
    assert forall|u2: int, w: int|
        0 <= u2 < cells.len() && 0 <= w < cells.len() && u2 != -1 && #[trigger] closed[u2]
            && #[trigger] step_ok(goal, pass, cells[u2], cells[w])
        implies closed[w] || (seen[w] && g[w] <= g[u2] + 1) by {
        if u2 == u {
            assert(in_board(radius, cells[w]));
            let m = lemma_adjacent_listed(radius, cells[u], cells[w]);
            assert(step_ok(goal, pass, cells[u], nbrs[m]));
            assert(spiral_index(origin(), nbrs[m]) == w);
        }
    }
}

/// When no open cell is left and the goal's cell is not closed, no walk reaches the goal.
proof fn lemma_exhausted(
    cells: Seq<Hex>,
    radius: int,
    start: Hex,
    goal: Hex,
    pass: Seq<bool>,
    s: int,
    seen: Seq<bool>,
    closed: Seq<bool>,
    g: Seq<usize>,
    parent: Seq<usize>,
    cset: Set<int>,
    gi: int,
)
    requires
        search_core(cells, radius, start, goal, pass, s, seen, closed, g, parent, cset),
        relaxed_except(cells, goal, pass, seen, closed, g, -1),
        forall|k: int| 0 <= k < cells.len() && #[trigger] seen[k] ==> closed[k],
        0 <= gi < cells.len(),
        cells[gi] == goal,
        !closed[gi],
        forall|h: Hex|
            in_board(radius, h) ==> 0 <= #[trigger] spiral_index(origin(), h) < cells.len()
                && cells[spiral_index(origin(), h)] == h,
        forall|k: int| 0 <= k < cells.len() ==> spiral_index(origin(), #[trigger] cells[k]) == k,
    ensures
        forall|q: Seq<Hex>| !#[trigger] is_route(radius, start, goal, pass, q, goal),
{
    lemma_core_facts(cells, radius, start, goal, pass, s, seen, closed, g, parent, cset);
    reveal(relaxed_except);
    assert forall|q: Seq<Hex>| !#[trigger] is_route(radius, start, goal, pass, q, goal) by {
        if is_route(radius, start, goal, pass, q, goal) {
            assert forall|m: int| 0 <= m < q.len() implies 0 <= #[trigger] spiral_index(origin(), q[m]) < cells.len()
                && cells[spiral_index(origin(), q[m])] == q[m] by {
                assert(in_board(radius, q[m]));
            }
            assert(spiral_index(origin(), q.last()) == gi);
            let j = lemma_first_open(cells, closed, q, 0);
            let kj = spiral_index(origin(), q[j]);
            if j == 0 {
                assert(kj == s);
            } else {
                let kp = spiral_index(origin(), q[j - 1]);
                assert(closed[kp]);
                assert(step_ok(goal, pass, q[j - 1], q[j]));
                assert(step_ok(goal, pass, cells[kp], cells[kj]));
                assert(seen[kj]);
            }
        }
    }
}

/// A cell selected with the least estimate among the open cells has its shortest
/// distance as `g`.
proof fn lemma_selection(
    cells: Seq<Hex>,
    radius: int,
    start: Hex,
    goal: Hex,
    pass: Seq<bool>,
    s: int,
    seen: Seq<bool>,
    closed: Seq<bool>,
    g: Seq<usize>,
    parent: Seq<usize>,
    cset: Set<int>,
    u: int,
    q: Seq<Hex>,
)
    requires
        search_core(cells, radius, start, goal, pass, s, seen, closed, g, parent, cset),
        relaxed_except(cells, goal, pass, seen, closed, g, -1),
        goal.wf(),
        0 <= u < cells.len(),
        seen[u],
        !closed[u],
        forall|k: int|
            0 <= k < cells.len() && #[trigger] seen[k] && !closed[k] ==> astar_f(cells, goal, g, u)
                <= astar_f(cells, goal, g, k),
        is_route(radius, start, goal, pass, q, cells[u]),
        forall|h: Hex|
            in_board(radius, h) ==> 0 <= #[trigger] spiral_index(origin(), h) < cells.len()
                && cells[spiral_index(origin(), h)] == h,
        forall|k: int| 0 <= k < cells.len() ==> spiral_index(origin(), #[trigger] cells[k]) == k,
    ensures
        g[u] <= q.len() - 1,
{
    lemma_core_facts(cells, radius, start, goal, pass, s, seen, closed, g, parent, cset);
    assert forall|m: int| 0 <= m < q.len() implies 0 <= #[trigger] spiral_index(origin(), q[m]) < cells.len()
        && cells[spiral_index(origin(), q[m])] == q[m] by {
        assert(in_board(radius, q[m]));
    }
    assert(spiral_index(origin(), q.last()) == u);
    let j = lemma_first_open(cells, closed, q, 0);
    let kj = spiral_index(origin(), q[j]);
    lemma_route_heuristic(radius, start, goal, pass, q, cells[u], goal, j);
    if j == 0 {
        assert(kj == s);
        assert(astar_f(cells, goal, g, u) <= astar_f(cells, goal, g, kj));
    } else {
        let kp = spiral_index(origin(), q[j - 1]);
        assert(closed[kp]);
        assert(step_ok(goal, pass, q[j - 1], q[j]));
        assert(step_ok(goal, pass, cells[kp], cells[kj]));
        reveal(relaxed_except);
        assert(seen[kj] && g[kj] <= g[kp] + 1);
        lemma_route_prefix(radius, start, goal, pass, q, cells[u], j - 1);
        assert(is_route(radius, start, goal, pass, q.take(j), cells[kp]));
        assert(g[kp] <= j - 1);
        assert(astar_f(cells, goal, g, u) <= astar_f(cells, goal, g, kj));
    }
}

/// The `A*` estimate of the walk length through cell `k`: its distance `g` plus its
/// straight distance to the goal.
pub open spec fn astar_f(cells: Seq<Hex>, goal: Hex, g: Seq<usize>, k: int) -> int {
    g[k] + hex_dist(cells[k], goal)
}

/// The state of a search: which cells are seen and which closed, the distance found
/// to each seen cell, and the cell each was last reached from.
pub struct SearchState {
    pub seen: Seq<bool>,
    pub closed: Seq<bool>,
    pub g: Seq<usize>,
    pub parent: Seq<usize>,
}

/// The search state made of the given sequences.
pub open spec fn state_of(seen: Seq<bool>, closed: Seq<bool>, g: Seq<usize>, parent: Seq<usize>) -> SearchState {
    SearchState { seen, closed, g, parent }
}

/// Among the cells before `k`, the open one with the least estimate, the first such in
/// spiral order; `cells.len()` when none of them is open.
pub open spec fn pick_upto(cells: Seq<Hex>, goal: Hex, st: SearchState, k: int) -> int
    decreases k,
{
    if k <= 0 {
        cells.len() as int
    } else {
        let b = pick_upto(cells, goal, st, k - 1);
        let c = k - 1;
        if st.seen[c] && !st.closed[c] && (b == cells.len() || astar_f(cells, goal, st.g, c) < astar_f(
            cells,
            goal,
            st.g,
            b,
        )) {
            c
        } else {
            b
        }
    }
}

/// Looks at the neighbor `w` of the closed cell `u`: when it is not closed, may be
/// stepped onto (it is the goal or passable in `pass`) and is newly reached or reached
/// by a shorter walk, it is recorded as reached through `u`.
pub open spec fn relax_one(goal: Hex, pass: Seq<bool>, st: SearchState, u: int, w: Hex) -> SearchState {
    let wi = spiral_index(origin(), w);
    if !st.closed[wi] && (w == goal || pass[wi]) && (!st.seen[wi] || st.g[u] + 1 < st.g[wi]) {
        SearchState {
            seen: st.seen.update(wi, true),
            closed: st.closed,
            g: st.g.update(wi, (st.g[u] + 1) as usize),
            parent: st.parent.update(wi, u as usize),
        }
    } else {
        st
    }
}

/// Looks at the first `i` neighbors in `nbrs` of the closed cell `u`, in turn.
pub open spec fn relax_upto(goal: Hex, pass: Seq<bool>, st: SearchState, u: int, nbrs: Seq<Hex>, i: int) -> SearchState
    decreases i,
{
    if i <= 0 {
        st
    } else {
        relax_one(goal, pass, relax_upto(goal, pass, st, u, nbrs, i - 1), u, nbrs[i - 1])
    }
}

/// The state after closing the cell `u` and looking at each of its board neighbors.
pub open spec fn expand(cells: Seq<Hex>, radius: int, goal: Hex, pass: Seq<bool>, st: SearchState, u: int) -> SearchState {
    let closed = SearchState { seen: st.seen, closed: st.closed.update(u, true), g: st.g, parent: st.parent };
    let nbrs = board_neighbors(radius, cells[u]);
    relax_upto(goal, pass, closed, u, nbrs, nbrs.len() as int)
}

/// The cells from `cur` back to the start `s`, following `parent`, for at most `fuel`
/// steps.
pub open spec fn walk_back(cells: Seq<Hex>, parent: Seq<usize>, s: int, cur: int, fuel: nat) -> Seq<Hex>
    decreases fuel,
{
    if cur == s || fuel == 0 {
        seq![cells[cur]]
    } else {
        seq![cells[cur]] + walk_back(cells, parent, s, parent[cur] as int, (fuel - 1) as nat)
    }
}

/// The search run from state `st` for at most `fuel` rounds: each round picks the open
/// cell with the least estimate; the search ends with no walk when none is open, with
/// the walk back from the goal when the goal is picked, and otherwise expands the cell.
pub open spec fn search_run(
    cells: Seq<Hex>,
    radius: int,
    goal: Hex,
    pass: Seq<bool>,
    s: int,
    gi: int,
    st: SearchState,
    fuel: nat,
) -> Option<Seq<Hex>>
    decreases fuel,
{
    if fuel == 0 {
        None
    } else {
        let u = pick_upto(cells, goal, st, cells.len() as int);
        if u == cells.len() {
            None
        } else if u == gi {
            Some(walk_back(cells, st.parent, s, gi, st.g[gi] as nat).reverse())
        } else {
            search_run(cells, radius, goal, pass, s, gi, expand(cells, radius, goal, pass, st, u), (fuel - 1) as nat)
        }
    }
}

/// The state before the first round: only the start's cell `s` is seen, at distance zero.
pub open spec fn initial_state(n: int, s: int) -> SearchState {
    SearchState {
        seen: Seq::new(n as nat, |k: int| k == s),
        closed: Seq::new(n as nat, |k: int| false),
        g: Seq::new(n as nat, |k: int| 0usize),
        parent: Seq::new(n as nat, |k: int| 0usize),
    }
}

/// The walk the search on a board of `radius` returns from `start` to `goal`, where
/// `pass` flags the passable cells in spiral order.
pub open spec fn search_result(radius: int, start: Hex, goal: Hex, pass: Seq<bool>) -> Option<Seq<Hex>> {
    let cells = spiral_seq(origin(), radius);
    if !in_board(radius, start) || !in_board(radius, goal) {
        None
    } else if start == goal {
        Some(seq![start])
    } else {
        let n = cells.len() as int;
        let s = spiral_index(origin(), start);
        search_run(
            cells,
            radius,
            goal,
            pass,
            s,
            spiral_index(origin(), goal),
            initial_state(n, s),
            (n + 1) as nat,
        )
    }
}

/// A neighbor listed for a board hex is a board hex adjacent to it.
pub proof fn lemma_neighbor_in_board(radius: int, here: Hex, nbrs: Seq<Hex>, i: int)
    requires
        0 <= radius <= 2_000_000_000,
        in_board(radius, here),
        nbrs == board_neighbors(radius, here),
        0 <= i < nbrs.len(),
    ensures
        in_board(radius, nbrs[i]),
        adjacent(here, nbrs[i]),
{
    let six = Seq::new(6, |d: int| step(here, d));
    let pred = |n: Hex| crate::hex::hex_len(n) <= radius;
    six.lemma_filter_pred(pred, i);
    assert(six.filter(pred).contains(nbrs[i]));
    six.lemma_filter_contains_rev(pred, nbrs[i]);
    let d = choose|d: int| 0 <= d < 6 && six[d] == nbrs[i];
    assert(coords_within(here, 1));
}

/// Every board hex adjacent to a board hex is listed among its board neighbors.
proof fn lemma_adjacent_listed(radius: int, here: Hex, other: Hex) -> (m: int)
    requires
        0 <= radius <= 2_000_000_000,
        in_board(radius, here),
        in_board(radius, other),
        adjacent(here, other),
    ensures
        0 <= m < board_neighbors(radius, here).len(),
        board_neighbors(radius, here)[m] == other,
{
    let six = Seq::new(6, |d: int| step(here, d));
    let pred = |n: Hex| crate::hex::hex_len(n) <= radius;
    lemma_adjacent_step(here, other);
    let d = choose|d: int| 0 <= d < 6 && #[trigger] step(here, d) == other;
    assert(six[d] == other);
    six.lemma_filter_contains(pred, d);
    let f = six.filter(pred);
    choose|m: int| 0 <= m < f.len() && f[m] == other
}

/// Finds the first hex of a walk whose cell is not closed, given that the walk's last
/// hex is not closed and the hexes before `i` are.
proof fn lemma_first_open(
    cells: Seq<Hex>,
    closed: Seq<bool>,
    q: Seq<Hex>,
    i: int,
) -> (j: int)
    requires
        0 <= i < q.len(),
        forall|m: int| 0 <= m < i ==> closed[spiral_index(origin(), #[trigger] q[m])],
        !closed[spiral_index(origin(), q.last())],
    ensures
        i <= j < q.len(),
        !closed[spiral_index(origin(), q[j])],
        forall|m: int| 0 <= m < j ==> closed[spiral_index(origin(), #[trigger] q[m])],
    decreases q.len() - i,
{
    if !closed[spiral_index(origin(), q[i])] {
        i
    } else {
        lemma_first_open(cells, closed, q, i + 1)
    }
}

/// The search state, for every flag sequence that agrees with the answers recorded so
/// far, with every closed cell other than `except` relaxed.
spec fn state_for_all(
    cells: Seq<Hex>,
    radius: int,
    start: Hex,
    goal: Hex,
    answers: Seq<Option<bool>>,
    s: int,
    seen: Seq<bool>,
    closed: Seq<bool>,
    g: Seq<usize>,
    parent: Seq<usize>,
    cset: Set<int>,
    except: int,
) -> bool {
    forall|ps: Seq<bool>|
        #[trigger] agrees(ps, answers) ==> {
            &&& search_core(cells, radius, start, goal, ps, s, seen, closed, g, parent, cset)
            &&& relaxed_except(cells, goal, ps, seen, closed, g, except)
        }
}

/// For every flag sequence that agrees with the answers, running the search from `st`
/// for `fuel` more rounds gives the search's result.
spec fn run_matches(
    cells: Seq<Hex>,
    radius: int,
    start: Hex,
    goal: Hex,
    answers: Seq<Option<bool>>,
    s: int,
    gi: int,
    st: SearchState,
    fuel: nat,
) -> bool {
    forall|ps: Seq<bool>|
        #[trigger] agrees(ps, answers) ==> search_result(radius, start, goal, ps) == search_run(
            cells,
            radius,
            goal,
            ps,
            s,
            gi,
            st,
            fuel,
        )
}

/// Recording an answer for a cell not asked about before narrows the flag sequences
/// that agree.
proof fn lemma_record(answers: Seq<Option<bool>>, k: int, b: bool)
    requires
        0 <= k < answers.len(),
        answers[k] is None,
    ensures
        forall|ps: Seq<bool>|
            #[trigger] agrees(ps, answers.update(k, Some(b))) ==> agrees(ps, answers) && ps[k] == b,
{
    let a2 = answers.update(k, Some(b));
    assert forall|ps: Seq<bool>| #[trigger] agrees(ps, a2) implies agrees(ps, answers) && ps[k] == b by {
        assert(a2[k] is Some);
        assert forall|j: int| 0 <= j < ps.len() && (#[trigger] answers[j]) is Some implies ps[j]
            == answers[j]->Some_0 by {
            assert(a2[j] == answers[j]);
        }
    }
}

/// Answers that keep every earlier answer narrow the flag sequences that agree.
proof fn lemma_agrees_extends(old: Seq<Option<bool>>, new: Seq<Option<bool>>)
    requires
        new.len() == old.len(),
        forall|k: int| 0 <= k < old.len() && (#[trigger] old[k]) is Some ==> new[k] == old[k],
    ensures
        forall|ps: Seq<bool>| #[trigger] agrees(ps, new) ==> agrees(ps, old),
{
    assert forall|ps: Seq<bool>| #[trigger] agrees(ps, new) implies agrees(ps, old) by {
        assert forall|k: int| 0 <= k < ps.len() && (#[trigger] old[k]) is Some implies ps[k] == old[k]->Some_0 by {
            assert(new[k] == old[k]);
        }
    }
}

/// The consequences of the search state that do not depend on the flags.
proof fn lemma_all_facts(
    cells: Seq<Hex>,
    radius: int,
    start: Hex,
    goal: Hex,
    answers: Seq<Option<bool>>,
    s: int,
    seen: Seq<bool>,
    closed: Seq<bool>,
    g: Seq<usize>,
    parent: Seq<usize>,
    cset: Set<int>,
    except: int,
)
    requires
        state_for_all(cells, radius, start, goal, answers, s, seen, closed, g, parent, cset, except),
        answers.len() == cells.len(),
    ensures
        seen.len() == cells.len() && closed.len() == cells.len() && g.len() == cells.len(),
        parent.len() == cells.len(),
        0 <= s < cells.len(),
        cells[s] == start,
        seen[s],
        cset.finite(),
        cset.len() <= cells.len(),
        forall|k: int| 0 <= k < cells.len() && #[trigger] closed[k] ==> seen[k],
        forall|k: int| 0 <= k < cells.len() ==> (#[trigger] closed[k] <==> cset.contains(k)),
        forall|k: int| 0 <= k < cells.len() && #[trigger] seen[k] ==> g[k] <= cells.len(),
{
    let ps0 = completion(answers);
    assert(agrees(ps0, answers));
    lemma_core_facts(cells, radius, start, goal, ps0, s, seen, closed, g, parent, cset);
}

/// The state before the first step holds for every flag sequence.
proof fn lemma_all_init(
    cells: Seq<Hex>,
    radius: int,
    start: Hex,
    goal: Hex,
    answers: Seq<Option<bool>>,
    s: int,
    seen: Seq<bool>,
    closed: Seq<bool>,
    g: Seq<usize>,
    parent: Seq<usize>,
)
    requires
        answers.len() == cells.len(),
        seen.len() == cells.len() && closed.len() == cells.len() && g.len() == cells.len(),
        parent.len() == cells.len(),
        0 <= s < cells.len(),
        cells[s] == start,
        forall|k: int| 0 <= k < cells.len() ==> (#[trigger] seen[k] <==> k == s),
        forall|k: int| 0 <= k < cells.len() ==> !#[trigger] closed[k],
        forall|k: int| 0 <= k < cells.len() ==> #[trigger] g[k] == 0,
    ensures
        state_for_all(cells, radius, start, goal, answers, s, seen, closed, g, parent, Set::empty(), -1),
{
    assert forall|ps: Seq<bool>| #[trigger] agrees(ps, answers) implies {
        &&& search_core(cells, radius, start, goal, ps, s, seen, closed, g, parent, Set::empty())
        &&& relaxed_except(cells, goal, ps, seen, closed, g, -1)
    } by {
        lemma_init(cells, radius, start, goal, ps, s, seen, closed, g, parent);
    }
}

/// The selected cell has its shortest distance as `g`, whatever the flags that agree.
proof fn lemma_all_selection(
    cells: Seq<Hex>,
    radius: int,
    start: Hex,
    goal: Hex,
    answers: Seq<Option<bool>>,
    s: int,
    seen: Seq<bool>,
    closed: Seq<bool>,
    g: Seq<usize>,
    parent: Seq<usize>,
    cset: Set<int>,
    u: int,
)
    requires
        state_for_all(cells, radius, start, goal, answers, s, seen, closed, g, parent, cset, -1),
        goal.wf(),
        0 <= u < cells.len(),
        seen[u],
        !closed[u],
        forall|k: int|
            0 <= k < cells.len() && #[trigger] seen[k] && !closed[k] ==> astar_f(cells, goal, g, u)
                <= astar_f(cells, goal, g, k),
        forall|h: Hex|
            in_board(radius, h) ==> 0 <= #[trigger] spiral_index(origin(), h) < cells.len()
                && cells[spiral_index(origin(), h)] == h,
        forall|k: int| 0 <= k < cells.len() ==> spiral_index(origin(), #[trigger] cells[k]) == k,
    ensures
        forall|ps: Seq<bool>, q: Seq<Hex>|
            #![trigger agrees(ps, answers), is_route(radius, start, goal, ps, q, cells[u])]
            agrees(ps, answers) && is_route(radius, start, goal, ps, q, cells[u]) ==> g[u] <= q.len() - 1,
{
    assert forall|ps: Seq<bool>, q: Seq<Hex>|
        #![trigger agrees(ps, answers), is_route(radius, start, goal, ps, q, cells[u])]
        agrees(ps, answers) && is_route(radius, start, goal, ps, q, cells[u]) implies g[u] <= q.len() - 1 by {
        lemma_selection(cells, radius, start, goal, ps, s, seen, closed, g, parent, cset, u, q);
    }
}

/// Closing the selected cell keeps the state, whatever the flags that agree.
proof fn lemma_all_close(
    cells: Seq<Hex>,
    radius: int,
    start: Hex,
    goal: Hex,
    answers: Seq<Option<bool>>,
    s: int,
    seen: Seq<bool>,
    closed: Seq<bool>,
    g: Seq<usize>,
    parent: Seq<usize>,
    cset: Set<int>,
    u: int,
)
    requires
        state_for_all(cells, radius, start, goal, answers, s, seen, closed, g, parent, cset, -1),
        answers.len() == cells.len(),
        0 <= u < cells.len(),
        seen[u],
        !closed[u],
        forall|ps: Seq<bool>, q: Seq<Hex>|
            #![trigger agrees(ps, answers), is_route(radius, start, goal, ps, q, cells[u])]
            agrees(ps, answers) && is_route(radius, start, goal, ps, q, cells[u]) ==> g[u] <= q.len() - 1,
    ensures
        state_for_all(
            cells,
            radius,
            start,
            goal,
            answers,
            s,
            seen,
            closed.update(u, true),
            g,
            parent,
            cset.insert(u),
            u,
        ),
        cset.insert(u).len() == cset.len() + 1,
        cset.insert(u).len() <= cells.len(),
        g[u] + 1 <= cset.insert(u).len(),
{
    assert forall|ps: Seq<bool>| #[trigger] agrees(ps, answers) implies {
        &&& search_core(cells, radius, start, goal, ps, s, seen, closed.update(u, true), g, parent, cset.insert(u))
        &&& relaxed_except(cells, goal, ps, seen, closed.update(u, true), g, u)
    } by {
        assert forall|q: Seq<Hex>| #[trigger] is_route(radius, start, goal, ps, q, cells[u]) implies g[u]
            <= q.len() - 1 by {
            assert(agrees(ps, answers));
        }
        lemma_close(cells, radius, start, goal, ps, s, seen, closed, g, parent, cset, u);
    }
    let ps0 = completion(answers);
    assert(agrees(ps0, answers));
    assert forall|q: Seq<Hex>| #[trigger] is_route(radius, start, goal, ps0, q, cells[u]) implies g[u] <= q.len()
        - 1 by {
        assert(agrees(ps0, answers));
    }
    lemma_close(cells, radius, start, goal, ps0, s, seen, closed, g, parent, cset, u);
}

/// Recording a shorter walk to the cell `w` through the closed cell `u`, which may
/// step onto it whatever the flags that agree, keeps the state.
proof fn lemma_all_relax(
    cells: Seq<Hex>,
    radius: int,
    start: Hex,
    goal: Hex,
    answers: Seq<Option<bool>>,
    s: int,
    seen: Seq<bool>,
    closed: Seq<bool>,
    g: Seq<usize>,
    parent: Seq<usize>,
    cset: Set<int>,
    u: int,
    w: int,
)
    requires
        state_for_all(cells, radius, start, goal, answers, s, seen, closed, g, parent, cset, u),
        answers.len() == cells.len(),
        cells.len() <= usize::MAX,
        0 <= u < cells.len(),
        0 <= w < cells.len(),
        closed[u],
        !closed[w],
        g[u] + 1 <= cset.len(),
        adjacent(cells[u], cells[w]),
        spiral_index(origin(), cells[w]) == w,
        cells[w] == goal || answers[w] == Some(true),
        !seen[w] || g[u] + 1 < g[w],
    ensures
        state_for_all(
            cells,
            radius,
            start,
            goal,
            answers,
            s,
            seen.update(w, true),
            closed,
            g.update(w, (g[u] + 1) as usize),
            parent.update(w, u as usize),
            cset,
            u,
        ),
{
    assert forall|ps: Seq<bool>| #[trigger] agrees(ps, answers) implies {
        &&& search_core(
            cells,
            radius,
            start,
            goal,
            ps,
            s,
            seen.update(w, true),
            closed,
            g.update(w, (g[u] + 1) as usize),
            parent.update(w, u as usize),
            cset,
        )
        &&& relaxed_except(cells, goal, ps, seen.update(w, true), closed, g.update(w, (g[u] + 1) as usize), u)
    } by {
        if cells[w] != goal {
            assert(answers[w] is Some);
            assert(passable_at(ps, cells[w]));
        }
        assert(step_ok(goal, ps, cells[u], cells[w]));
        lemma_relax(cells, radius, start, goal, ps, s, seen, closed, g, parent, cset, u, w);
    }
}

/// Once every neighbor of `u` that it may step onto, whatever the flags that agree,
/// has been relaxed, all closed cells are relaxed.
proof fn lemma_all_relaxed(
    cells: Seq<Hex>,
    radius: int,
    start: Hex,
    goal: Hex,
    answers: Seq<Option<bool>>,
    s: int,
    seen: Seq<bool>,
    closed: Seq<bool>,
    g: Seq<usize>,
    parent: Seq<usize>,
    cset: Set<int>,
    u: int,
    nbrs: Seq<Hex>,
)
    requires
        state_for_all(cells, radius, start, goal, answers, s, seen, closed, g, parent, cset, u),
        answers.len() == cells.len(),
        0 <= radius <= 2_000_000_000,
        0 <= u < cells.len(),
        in_board(radius, cells[u]),
        nbrs == board_neighbors(radius, cells[u]),
        forall|k: int| 0 <= k < cells.len() ==> in_board(radius, #[trigger] cells[k]),
        forall|k: int| 0 <= k < cells.len() ==> spiral_index(origin(), #[trigger] cells[k]) == k,
        forall|h: Hex|
            in_board(radius, h) ==> 0 <= #[trigger] spiral_index(origin(), h) < cells.len()
                && cells[spiral_index(origin(), h)] == h,
        forall|m: int|
            0 <= m < nbrs.len() ==> (#[trigger] nbrs[m] == goal || closed[spiral_index(origin(), nbrs[m])]
                || answers[spiral_index(origin(), nbrs[m])] is Some),
        forall|m: int|
            0 <= m < nbrs.len() && (#[trigger] nbrs[m] == goal || answers[spiral_index(origin(), nbrs[m])] == Some(
                true,
            )) ==> {
                let w = spiral_index(origin(), nbrs[m]);
                closed[w] || (seen[w] && g[w] <= g[u] + 1)
            },
    ensures
        state_for_all(cells, radius, start, goal, answers, s, seen, closed, g, parent, cset, -1),
{
    assert forall|ps: Seq<bool>| #[trigger] agrees(ps, answers) implies {
        &&& search_core(cells, radius, start, goal, ps, s, seen, closed, g, parent, cset)
        &&& relaxed_except(cells, goal, ps, seen, closed, g, -1)
    } by {
        assert forall|m: int| 0 <= m < nbrs.len() && #[trigger] step_ok(goal, ps, cells[u], nbrs[m]) implies {
            let w = spiral_index(origin(), nbrs[m]);
            closed[w] || (seen[w] && g[w] <= g[u] + 1)
        } by {
            lemma_neighbor_in_board(radius, cells[u], nbrs, m);
            let w = spiral_index(origin(), nbrs[m]);
            if nbrs[m] != goal && !closed[w] {
                assert(answers[w] is Some);
                assert(ps[w] == answers[w]->Some_0);
            }
        }
        lemma_relaxed_all(cells, radius, goal, ps, seen, closed, g, u, nbrs);
    }
}

/// When no open cell is left and the goal's cell is not closed, no walk reaches the
/// goal, whatever the flags that agree.
proof fn lemma_all_exhausted(
    cells: Seq<Hex>,
    radius: int,
    start: Hex,
    goal: Hex,
    answers: Seq<Option<bool>>,
    s: int,
    seen: Seq<bool>,
    closed: Seq<bool>,
    g: Seq<usize>,
    parent: Seq<usize>,
    cset: Set<int>,
    gi: int,
)
    requires
        state_for_all(cells, radius, start, goal, answers, s, seen, closed, g, parent, cset, -1),
        forall|k: int| 0 <= k < cells.len() && #[trigger] seen[k] ==> closed[k],
        0 <= gi < cells.len(),
        cells[gi] == goal,
        !closed[gi],
        forall|h: Hex|
            in_board(radius, h) ==> 0 <= #[trigger] spiral_index(origin(), h) < cells.len()
                && cells[spiral_index(origin(), h)] == h,
        forall|k: int| 0 <= k < cells.len() ==> spiral_index(origin(), #[trigger] cells[k]) == k,
    ensures
        forall|ps: Seq<bool>|
            #[trigger] agrees(ps, answers) ==> shortest_walk(radius, start, goal, ps, None),
{
    assert forall|ps: Seq<bool>| #[trigger] agrees(ps, answers) implies shortest_walk(radius, start, goal, ps, None) by {
        lemma_exhausted(cells, radius, start, goal, ps, s, seen, closed, g, parent, cset, gi);
    }
}

/// The cell picked among the first `k` is open, or there is none.
proof fn lemma_pick(cells: Seq<Hex>, goal: Hex, st: SearchState, k: int)
    requires
        0 <= k <= cells.len(),
    ensures
        pick_upto(cells, goal, st, k) == cells.len() || ({
            let p = pick_upto(cells, goal, st, k);
            0 <= p < k && st.seen[p] && !st.closed[p]
        }),
    decreases k,
{
    if k > 0 {
        lemma_pick(cells, goal, st, k - 1);
    }
}

/// Whether `st` has the board's size and is the initial state or has the start's cell
/// `s` closed.
spec fn start_settled(n: int, s: int, st: SearchState) -> bool {
    &&& st.seen.len() == n && st.closed.len() == n && st.g.len() == n && st.parent.len() == n
    &&& st.closed[s] || st == initial_state(n, s)
}

/// With the start's cell closed, looking at neighbors goes the same way for two flag
/// sequences that differ only at the start and the goal, and closes nothing.
proof fn lemma_relax_same(
    cells: Seq<Hex>,
    radius: int,
    start: Hex,
    goal: Hex,
    a: Seq<bool>,
    b: Seq<bool>,
    s: int,
    st: SearchState,
    u: int,
    nbrs: Seq<Hex>,
    i: int,
)
    requires
        same_off_ends(radius, start, goal, a, b),
        0 <= s < cells.len(),
        cells[s] == start,
        spiral_index(origin(), start) == s,
        st.closed.len() == cells.len(),
        st.closed[s],
        0 <= i <= nbrs.len(),
        forall|m: int| 0 <= m < nbrs.len() ==> in_board(radius, #[trigger] nbrs[m]),
        forall|h: Hex|
            in_board(radius, h) ==> 0 <= #[trigger] spiral_index(origin(), h) < cells.len()
                && cells[spiral_index(origin(), h)] == h,
    ensures
        relax_upto(goal, a, st, u, nbrs, i) == relax_upto(goal, b, st, u, nbrs, i),
        relax_upto(goal, a, st, u, nbrs, i).closed == st.closed,
    decreases i,
{
    if i > 0 {
        lemma_relax_same(cells, radius, start, goal, a, b, s, st, u, nbrs, i - 1);
        let w = nbrs[i - 1];
        let wi = spiral_index(origin(), w);
        assert(in_board(radius, w));
        if !st.closed[wi] && w != goal {
            assert(w != start);
            assert(passable_at(a, w) == passable_at(b, w));
        }
    }
}

/// Two flag sequences that differ only at the start and the goal make the search run
/// the same way from a state where the start is settled.
proof fn lemma_run_same(
    cells: Seq<Hex>,
    radius: int,
    start: Hex,
    goal: Hex,
    a: Seq<bool>,
    b: Seq<bool>,
    s: int,
    gi: int,
    st: SearchState,
    fuel: nat,
)
    requires
        same_off_ends(radius, start, goal, a, b),
        0 <= radius <= 2_000_000_000,
        0 <= s < cells.len(),
        cells[s] == start,
        spiral_index(origin(), start) == s,
        start_settled(cells.len() as int, s, st),
        forall|k: int| 0 <= k < cells.len() ==> in_board(radius, #[trigger] cells[k]),
        forall|h: Hex|
            in_board(radius, h) ==> 0 <= #[trigger] spiral_index(origin(), h) < cells.len()
                && cells[spiral_index(origin(), h)] == h,
    ensures
        search_run(cells, radius, goal, a, s, gi, st, fuel) == search_run(cells, radius, goal, b, s, gi, st, fuel),
    decreases fuel,
{
    if fuel > 0 {
        let n = cells.len() as int;
        let u = pick_upto(cells, goal, st, n);
        lemma_pick(cells, goal, st, n);
        if u != n && u != gi {
            let c = SearchState { seen: st.seen, closed: st.closed.update(u, true), g: st.g, parent: st.parent };
            if !st.closed[s] {
                assert(st.seen[u]);
                assert(u == s);
            }
            let nbrs = board_neighbors(radius, cells[u]);
            assert forall|m: int| 0 <= m < nbrs.len() implies in_board(radius, #[trigger] nbrs[m]) by {
                lemma_neighbor_in_board(radius, cells[u], nbrs, m);
            }
            lemma_relax_same(cells, radius, start, goal, a, b, s, c, u, nbrs, nbrs.len() as int);
            let next = expand(cells, radius, goal, a, st, u);
            assert(next == expand(cells, radius, goal, b, st, u));
            lemma_relax_lengths(goal, a, c, u, nbrs, nbrs.len() as int);
            assert(start_settled(n, s, next));
            lemma_run_same(cells, radius, start, goal, a, b, s, gi, next, (fuel - 1) as nat);
        }
    }
}

/// Looking at neighbors keeps the sizes of the state.
proof fn lemma_relax_lengths(goal: Hex, pass: Seq<bool>, st: SearchState, u: int, nbrs: Seq<Hex>, i: int)
    requires
        0 <= i <= nbrs.len(),
        st.seen.len() == st.g.len() && st.g.len() == st.parent.len(),
        forall|m: int| 0 <= m < nbrs.len() ==> 0 <= spiral_index(origin(), #[trigger] nbrs[m]) < st.seen.len(),
    ensures
        relax_upto(goal, pass, st, u, nbrs, i).seen.len() == st.seen.len(),
        relax_upto(goal, pass, st, u, nbrs, i).closed == st.closed,
        relax_upto(goal, pass, st, u, nbrs, i).g.len() == st.g.len(),
        relax_upto(goal, pass, st, u, nbrs, i).parent.len() == st.parent.len(),
    decreases i,
{
    if i > 0 {
        lemma_relax_lengths(goal, pass, st, u, nbrs, i - 1);
    }
}

impl<T> HexGrid<T> {
    /// The search's result does not depend on the flags at the start and at the goal:
    /// two flag sequences that agree on every other board hex give the same walk.
    pub proof fn law_search_ignores_endpoint_flags(&self, start: Hex, goal: Hex, a: Seq<bool>, b: Seq<bool>)
        requires
            self.wf(),
            same_off_ends(self.board_radius(), start, goal, a, b),
        ensures
            search_result(self.board_radius(), start, goal, a) == search_result(self.board_radius(), start, goal, b),
    {
        let radius = self.board_radius();
        self.lemma_cells();
        if in_board(radius, start) && in_board(radius, goal) && start != goal {
            let cells = spiral_seq(origin(), radius);
            let n = cells.len() as int;
            let s = spiral_index(origin(), start);
            lemma_run_same(
                cells,
                radius,
                start,
                goal,
                a,
                b,
                s,
                spiral_index(origin(), goal),
                initial_state(n, s),
                (n + 1) as nat,
            );
        }
    }
}

/// Distance between two board hexes.
fn board_distance(a: Hex, b: Hex, Ghost(radius): Ghost<int>) -> (d: u64)
    requires
        0 <= radius <= 2_000_000_000,
        in_board(radius, a),
        in_board(radius, b),
    ensures
        d == hex_dist(a, b),
        d <= 4_000_000_000,
{
    proof {
        law_distance_metric(a, origin(), b);
    }
    let dq: i64 = a.q as i64 - b.q as i64;
    let dr: i64 = a.r as i64 - b.r as i64;
    let ds: i64 = a.s as i64 - b.s as i64;
    let aq: i64 = if dq < 0 { -dq } else { dq };
    let ar: i64 = if dr < 0 { -dr } else { dr };
    let as_: i64 = if ds < 0 { -ds } else { ds };
    ((aq + ar + as_) / 2) as u64
}

impl<T> HexGrid<T> {
    /// Follows the parents from the goal's cell back to the start's and returns the
    /// walk they form, from `start` to `goal`.
    #[verifier::rlimit(60)]
    fn trace_back(
        &self,
        start: Hex,
        goal: Hex,
        cells: &Vec<Hex>,
        s: usize,
        gi: usize,
        seen: &Vec<bool>,
        closed: &Vec<bool>,
        g: &Vec<usize>,
        parent: &Vec<usize>,
        Ghost(answers): Ghost<Seq<Option<bool>>>,
        Ghost(cset): Ghost<Set<int>>,
    ) -> (path: Vec<Hex>)
        requires
            self.wf(),
            cells@ == self.cells_seq(),
            answers.len() == cells@.len(),
            forall|ps: Seq<bool>|
                #[trigger] agrees(ps, answers) ==> search_core(
                    cells@,
                    self.board_radius(),
                    start,
                    goal,
                    ps,
                    s as int,
                    seen@,
                    closed@,
                    g@,
                    parent@,
                    cset,
                ),
            gi < cells@.len(),
            seen@[gi as int],
            cells@[gi as int] == goal,
        ensures
            forall|ps: Seq<bool>| #[trigger] agrees(ps, answers) ==> is_route(self.board_radius(), start, goal, ps, path@, goal),
            path@.len() == g@[gi as int] + 1,
            path@ == walk_back(cells@, parent@, s as int, gi as int, g@[gi as int] as nat).reverse(),
    {
        let ghost radius = self.board_radius();
        let ghost n = cells@.len();
        let ghost ps0 = completion(answers);
        proof {
            assert(agrees(ps0, answers));
            lemma_core_facts(cells@, radius, start, goal, ps0, s as int, seen@, closed@, g@, parent@, cset);
        }
        let mut rev: Vec<Hex> = Vec::new();
        let mut cur = gi;
        rev.push(cells[cur]);
        proof {
            self.lemma_wf();
            self.lemma_cell(gi as int);
        }
        while cur != s
            invariant
                self.wf(),
                cells@ == self.cells_seq(),
                n == cells@.len(),
                radius == self.board_radius(),
                answers.len() == n,
                ps0 == completion(answers),
                agrees(ps0, answers),
                forall|ps: Seq<bool>|
                    #[trigger] agrees(ps, answers) ==> search_core(
                        cells@,
                        radius,
                        start,
                        goal,
                        ps,
                        s as int,
                        seen@,
                        closed@,
                        g@,
                        parent@,
                        cset,
                    ),
                cur < n,
                seen@[cur as int],
                g@[cur as int] <= g@[gi as int],
                rev@.len() == g@[gi as int] - g@[cur as int] + 1,
                rev@[0] == goal,
                rev@.last() == cells@[cur as int],
                walk_back(cells@, parent@, s as int, gi as int, g@[gi as int] as nat) == rev@.drop_last()
                    + walk_back(cells@, parent@, s as int, cur as int, g@[cur as int] as nat),
                forall|i: int| 0 <= i < rev@.len() ==> in_board(radius, #[trigger] rev@[i]),
                forall|ps: Seq<bool>, i: int|
                    #![trigger agrees(ps, answers), rev@[i]]
                    agrees(ps, answers) && 0 < i < rev@.len() ==> step_ok(goal, ps, rev@[i], rev@[i - 1]),
            decreases g@[cur as int],
        {
            proof {
                lemma_core_facts(cells@, radius, start, goal, ps0, s as int, seen@, closed@, g@, parent@, cset);
                self.lemma_wf();
            }
            let p = parent[cur];
            proof {
                self.lemma_cell(p as int);
            }
            let ghost old_rev = rev@;
            rev.push(cells[p]);
            proof {
                let wb = walk_back(cells@, parent@, s as int, cur as int, g@[cur as int] as nat);
                assert(wb == seq![cells@[cur as int]] + walk_back(cells@, parent@, s as int, p as int, g@[p as int] as nat));
                assert(old_rev =~= old_rev.drop_last() + seq![cells@[cur as int]]);
                assert(rev@.drop_last() =~= old_rev);
                assert(old_rev.drop_last() + wb =~= rev@.drop_last() + walk_back(cells@, parent@, s as int, p as int, g@[p as int] as nat));
                assert forall|ps: Seq<bool>, i: int|
                    #![trigger agrees(ps, answers), rev@[i]]
                    agrees(ps, answers) && 0 < i < rev@.len() implies step_ok(goal, ps, rev@[i], rev@[i - 1]) by {
                    if i == rev@.len() - 1 {
                        lemma_core_facts(cells@, radius, start, goal, ps, s as int, seen@, closed@, g@, parent@, cset);
                        assert(rev@[i - 1] == old_rev[i - 1]);
                    } else {
                        assert(rev@[i] == old_rev[i]);
                        assert(rev@[i - 1] == old_rev[i - 1]);
                    }
                }
            }
            cur = p;
        }
        let len = rev.len();
        let mut path: Vec<Hex> = Vec::new();
        let mut i: usize = len;
        while i > 0
            invariant
                i <= len,
                len == rev@.len(),
                path@.len() == len - i,
                forall|m: int| 0 <= m < len - i ==> #[trigger] path@[m] == rev@[len - 1 - m],
            decreases i,
        {
            i -= 1;
            path.push(rev[i]);
        }
        proof {
            assert(rev@ =~= rev@.drop_last() + seq![cells@[cur as int]]);
            assert(path@ =~= rev@.reverse());
            assert(path@[0] == start);
            assert forall|m: int| 0 <= m < path@.len() implies in_board(radius, #[trigger] path@[m]) by {
                assert(path@[m] == rev@[len - 1 - m]);
            }
            assert forall|ps: Seq<bool>| #[trigger] agrees(ps, answers) implies is_route(radius, start, goal, ps, path@, goal) by {
                assert forall|m: int| 0 < m < path@.len() implies step_ok(goal, ps, path@[m - 1], #[trigger] path@[m]) by {
                    assert(path@[m] == rev@[len - 1 - m]);
                    assert(path@[m - 1] == rev@[(len - 1 - m) + 1]);
                }
            }
        }
        path
    }

    /// The facts about board cells used by the search.
    proof fn lemma_cells(&self)
        requires
            self.wf(),
        ensures
            forall|k: int|
                0 <= k < self.cells_seq().len() ==> in_board(self.board_radius(), #[trigger] self.cells_seq()[k]),
            forall|k: int|
                0 <= k < self.cells_seq().len() ==> spiral_index(origin(), #[trigger] self.cells_seq()[k]) == k,
            forall|h: Hex|
                in_board(self.board_radius(), h) ==> 0 <= #[trigger] spiral_index(origin(), h) < self.cells_seq().len()
                    && self.cells_seq()[spiral_index(origin(), h)] == h,
            self.cells_seq().len() == hex_count_spec(self.board_radius()),
            hex_count_spec(self.board_radius()) <= i64::MAX,
            0 <= self.board_radius() <= 2_000_000_000,
    {
        self.lemma_wf();
        assert forall|k: int| 0 <= k < self.cells_seq().len() implies in_board(self.board_radius(), #[trigger] self.cells_seq()[k])
            && spiral_index(origin(), self.cells_seq()[k]) == k by {
            self.lemma_cell(k);
        }
        assert forall|h: Hex| in_board(self.board_radius(), h) implies 0 <= #[trigger] spiral_index(origin(), h) < self.cells_seq().len()
            && self.cells_seq()[spiral_index(origin(), h)] == h by {
            self.lemma_in_board(h);
        }
    }

    /// The search behind [`HexGrid::find_path`] and [`HexGrid::astar`]. `passable` is
    /// asked about a cell only when the cell is a neighbor of an explored cell and not
    /// the goal, at most once per cell, and never when an endpoint is off the board or
    /// `start == goal`. Returns the walk, and the answers it was given, one entry per
    /// cell; the walk is a shortest one for every flag sequence that agrees with them.
    #[verifier::rlimit(80)]
    fn search<F: Fn(Hex) -> bool>(&self, start: Hex, goal: Hex, passable: F) -> (out: (
        Option<Vec<Hex>>,
        Ghost<Seq<Option<bool>>>,
    ))
        requires
            self.wf(),
            in_board(self.board_radius(), start) && in_board(self.board_radius(), goal) && start != goal
                ==> forall|h: Hex|
                in_board(self.board_radius(), h) && h != goal ==> #[trigger] passable.requires((h,)),
        ensures
            out.1@.len() == self.cells_seq().len(),
            forall|k: int|
                0 <= k < out.1@.len() && (#[trigger] out.1@[k]) is Some ==> self.cells_seq()[k] != goal
                    && passable.ensures((self.cells_seq()[k],), out.1@[k]->Some_0),
            forall|ps: Seq<bool>|
                #[trigger] agrees(ps, out.1@) ==> shortest_walk(
                    self.board_radius(),
                    start,
                    goal,
                    ps,
                    opt_seq(out.0),
                ),
            forall|ps: Seq<bool>|
                #[trigger] agrees(ps, out.1@) ==> opt_seq(out.0) == search_result(
                    self.board_radius(),
                    start,
                    goal,
                    ps,
                ),
    {
        let ghost radius = self.board_radius();
        let ghost none_asked = Seq::new(self.cells_seq().len(), |k: int| None::<bool>);
        proof {
            self.lemma_cells();
        }
        if !self.holds(start) || !self.holds(goal) {
            assert forall|ps: Seq<bool>| #[trigger] agrees(ps, none_asked) implies shortest_walk(
                radius,
                start,
                goal,
                ps,
                None,
            ) by {
                assert forall|q: Seq<Hex>| !#[trigger] is_route(radius, start, goal, ps, q, goal) by {
                    if is_route(radius, start, goal, ps, q, goal) {
                        assert(in_board(radius, q[0]));
                        assert(in_board(radius, q[q.len() - 1]));
                    }
                }
            }
            return (None, Ghost(none_asked));
        }
        if start == goal {
            let mut v: Vec<Hex> = Vec::new();
            v.push(start);
            assert(v@ =~= seq![start]);
            return (Some(v), Ghost(none_asked));
        }
        let cells = self.positions();
        let n = self.len();
        let s = self.cell_index(start);
        let gi = self.cell_index(goal);
        let mut seen: Vec<bool> = Vec::new();
        let mut closed: Vec<bool> = Vec::new();
        let mut g: Vec<usize> = Vec::new();
        let mut parent: Vec<usize> = Vec::new();
        let mut asked: Vec<Option<bool>> = Vec::new();
        let mut k: usize = 0;
        while k < n
            invariant
                k <= n,
                seen@.len() == k && closed@.len() == k && g@.len() == k && parent@.len() == k,
                asked@.len() == k,
                forall|m: int| 0 <= m < k ==> !#[trigger] seen@[m],
                forall|m: int| 0 <= m < k ==> !#[trigger] closed@[m],
                forall|m: int| 0 <= m < k ==> #[trigger] g@[m] == 0,
                forall|m: int| 0 <= m < k ==> #[trigger] parent@[m] == 0,
                forall|m: int| 0 <= m < k ==> #[trigger] asked@[m] is None,
            decreases n - k,
        {
            seen.push(false);
            closed.push(false);
            g.push(0);
            parent.push(0);
            asked.push(None);
            k += 1;
        }
        seen.set(s, true);
        proof {
            lemma_all_init(cells@, radius, start, goal, asked@, s as int, seen@, closed@, g@, parent@);
            assert(seen@ =~= initial_state(n as int, s as int).seen);
            assert(closed@ =~= initial_state(n as int, s as int).closed);
            assert(g@ =~= initial_state(n as int, s as int).g);
            assert(parent@ =~= initial_state(n as int, s as int).parent);
            assert(state_of(seen@, closed@, g@, parent@) == initial_state(n as int, s as int));
        }
        let ghost mut cset: Set<int> = Set::empty();
        loop
            invariant
                self.wf(),
                cells@ == self.cells_seq(),
                n == cells@.len(),
                radius == self.board_radius(),
                in_board(radius, start),
                in_board(radius, goal),
                start != goal,
                forall|h: Hex| in_board(radius, h) && h != goal ==> #[trigger] passable.requires((h,)),
                gi < n,
                cells@[gi as int] == goal,
                !closed@[gi as int],
                asked@.len() == n,
                forall|m: int|
                    0 <= m < n && (#[trigger] asked@[m]) is Some ==> cells@[m] != goal && passable.ensures(
                        (cells@[m],),
                        asked@[m]->Some_0,
                    ),
                state_for_all(cells@, radius, start, goal, asked@, s as int, seen@, closed@, g@, parent@, cset, -1),
                s == spiral_index(origin(), start),
                gi == spiral_index(origin(), goal),
                run_matches(
                    cells@,
                    radius,
                    start,
                    goal,
                    asked@,
                    s as int,
                    gi as int,
                    state_of(seen@, closed@, g@, parent@),
                    (n + 1 - cset.len()) as nat,
                ),
            decreases n - cset.len(),
        {
            proof {
                self.lemma_cells();
                lemma_all_facts(cells@, radius, start, goal, asked@, s as int, seen@, closed@, g@, parent@, cset, -1);
            }
            // Select the open cell with the least estimate.
            let mut best: usize = n;
            let mut best_f: u64 = 0;
            let mut k: usize = 0;
            while k < n
                invariant
                    cells@ == self.cells_seq(),
                    n == cells@.len(),
                    n <= i64::MAX,
                    0 <= radius <= 2_000_000_000,
                    in_board(radius, goal),
                    forall|m: int| 0 <= m < n ==> in_board(radius, #[trigger] cells@[m]),
                    seen@.len() == n && closed@.len() == n && g@.len() == n,
                    forall|m: int| 0 <= m < n && #[trigger] seen@[m] ==> g@[m] <= n,
                    k <= n,
                    best == n || (best < k && seen@[best as int] && !closed@[best as int]
                        && best_f == astar_f(cells@, goal, g@, best as int)),
                    forall|m: int|
                        0 <= m < k && #[trigger] seen@[m] && !closed@[m] ==> best < n
                            && best_f <= astar_f(cells@, goal, g@, m),
                    best as int == pick_upto(cells@, goal, state_of(seen@, closed@, g@, parent@), k as int),
                decreases n - k,
            {
                if seen[k] && !closed[k] {
                    let h = board_distance(cells[k], goal, Ghost(radius));
                    let f: u64 = g[k] as u64 + h;
                    if best == n || f < best_f {
                        best = k;
                        best_f = f;
                    }
                }
                k += 1;
            }
            if best == n {
                proof {
                    assert forall|m: int| 0 <= m < n && #[trigger] seen@[m] implies closed@[m] by {}
                    lemma_all_exhausted(cells@, radius, start, goal, asked@, s as int, seen@, closed@, g@, parent@, cset, gi as int);
                }
                return (None, Ghost(asked@));
            }
            let u = best;
            let ghost st_old = state_of(seen@, closed@, g@, parent@);
            let ghost asked_outer = asked@;
            let ghost fuel = (n + 1 - cset.len()) as nat;
            proof {
                lemma_all_selection(cells@, radius, start, goal, asked@, s as int, seen@, closed@, g@, parent@, cset, u as int);
            }
            if u == gi {
                let path = self.trace_back(start, goal, &cells, s, gi, &seen, &closed, &g, &parent, Ghost(asked@), Ghost(cset));
                proof {
                    assert forall|ps: Seq<bool>| #[trigger] agrees(ps, asked@) implies shortest_walk(
                        radius,
                        start,
                        goal,
                        ps,
                        Some(path@),
                    ) by {
                        assert forall|q: Seq<Hex>| #[trigger] is_route(radius, start, goal, ps, q, goal)
                            implies path@.len() <= q.len() by {
                            assert(is_route(radius, start, goal, ps, q, cells@[u as int]));
                        }
                    }
                }
                return (Some(path), Ghost(asked@));
            }
            // Close the selected cell and relax its neighbors.
            proof {
                lemma_all_close(cells@, radius, start, goal, asked@, s as int, seen@, closed@, g@, parent@, cset, u as int);
            }
            closed.set(u, true);
            proof {
                cset = cset.insert(u as int);
            }
            let ghost st_c = state_of(seen@, closed@, g@, parent@);
            let gu = g[u];
            let here = cells[u];
            let nbrs = self.neighbors(here);
            let mut i: usize = 0;
            while i < nbrs.len()
                invariant
                    self.wf(),
                    cells@ == self.cells_seq(),
                    n == cells@.len(),
                    radius == self.board_radius(),
                    0 <= radius <= 2_000_000_000,
                    forall|m: int| 0 <= m < n ==> in_board(radius, #[trigger] cells@[m]),
                    forall|m: int| 0 <= m < n ==> spiral_index(origin(), #[trigger] cells@[m]) == m,
                    forall|h: Hex|
                        in_board(radius, h) ==> 0 <= #[trigger] spiral_index(origin(), h) < n
                            && cells@[spiral_index(origin(), h)] == h,
                    forall|h: Hex| in_board(radius, h) && h != goal ==> #[trigger] passable.requires((h,)),
                    in_board(radius, here),
                    here == cells@[u as int],
                    u < n,
                    u != gi,
                    gi < n,
                    cells@[gi as int] == goal,
                    !closed@[gi as int],
                    nbrs@ == board_neighbors(radius, here),
                    i <= nbrs@.len(),
                    gu == g@[u as int],
                    closed@[u as int],
                    closed@ == st_c.closed,
                    gu + 1 <= cset.len(),
                    asked@.len() == n,
                    forall|m: int|
                        0 <= m < n && (#[trigger] asked@[m]) is Some ==> cells@[m] != goal && passable.ensures(
                            (cells@[m],),
                            asked@[m]->Some_0,
                        ),
                    forall|m: int| 0 <= m < n && (#[trigger] asked_outer[m]) is Some ==> asked@[m] == asked_outer[m],
                    state_for_all(cells@, radius, start, goal, asked@, s as int, seen@, closed@, g@, parent@, cset, u as int),
                    forall|ps: Seq<bool>|
                        #[trigger] agrees(ps, asked@) ==> relax_upto(goal, ps, st_c, u as int, nbrs@, i as int)
                            == state_of(seen@, closed@, g@, parent@),
                    forall|m: int|
                        0 <= m < i ==> (#[trigger] nbrs@[m] == goal || closed@[spiral_index(origin(), nbrs@[m])]
                            || asked@[spiral_index(origin(), nbrs@[m])] is Some),
                    forall|m: int|
                        0 <= m < i && (#[trigger] nbrs@[m] == goal || asked@[spiral_index(origin(), nbrs@[m])]
                            == Some(true)) ==> {
                            let w = spiral_index(origin(), nbrs@[m]);
                            closed@[w] || (seen@[w] && g@[w] <= gu + 1)
                        },
                decreases nbrs@.len() - i,
            {
                let w = nbrs[i];
                proof {
                    lemma_neighbor_in_board(radius, here, nbrs@, i as int);
                    lemma_all_facts(cells@, radius, start, goal, asked@, s as int, seen@, closed@, g@, parent@, cset, u as int);
                }
                let wi = self.cell_index(w);
                let ghost old_seen = seen@;
                let ghost old_g = g@;
                let ghost old_parent = parent@;
                let ghost old_asked = asked@;
                let open = !closed[wi];
                let ok: bool = if !open {
                    false
                } else if w == goal {
                    true
                } else {
                    let cached: Option<bool> = asked[wi];
                    match cached {
                        Some(b) => b,
                        None => {
                            let b = passable(w);
                            proof {
                                lemma_record(asked@, wi as int, b);
                            }
                            asked.set(wi, Some(b));
                            b
                        },
                    }
                };
                proof {
                    assert(open && w != goal ==> asked@[wi as int] == Some(ok));
                    assert forall|m: int| 0 <= m < n && old_asked[m] is Some implies #[trigger] asked@[m] == old_asked[m] by {}
                    lemma_agrees_extends(old_asked, asked@);
                }
                if ok {
                    let t = gu + 1;
                    if !seen[wi] || t < g[wi] {
                        proof {
                            lemma_all_relax(cells@, radius, start, goal, asked@, s as int, seen@, closed@, g@, parent@, cset, u as int, wi as int);
                        }
                        g.set(wi, t);
                        seen.set(wi, true);
                        parent.set(wi, u);
                    }
                }
                proof {
                    assert forall|ps: Seq<bool>| #[trigger] agrees(ps, asked@) implies relax_upto(
                        goal,
                        ps,
                        st_c,
                        u as int,
                        nbrs@,
                        i + 1,
                    ) == state_of(seen@, closed@, g@, parent@) by {
                        assert(agrees(ps, old_asked));
                        let before = relax_upto(goal, ps, st_c, u as int, nbrs@, i as int);
                        assert(before == state_of(old_seen, closed@, old_g, old_parent));
                        if open && w != goal {
                            assert(ps[wi as int] == ok);
                        }
                        assert(relax_upto(goal, ps, st_c, u as int, nbrs@, i + 1) == relax_one(goal, ps, before, u as int, w));
                    }
                    assert forall|m: int|
                        0 <= m < i + 1 implies (#[trigger] nbrs@[m] == goal || closed@[spiral_index(origin(), nbrs@[m])]
                            || asked@[spiral_index(origin(), nbrs@[m])] is Some) by {
                        lemma_neighbor_in_board(radius, here, nbrs@, m);
                        if m < i && nbrs@[m] != goal && !closed@[spiral_index(origin(), nbrs@[m])] {
                            assert(old_asked[spiral_index(origin(), nbrs@[m])] is Some);
                        }
                    }
                    assert forall|m: int|
                        0 <= m < i + 1 && (#[trigger] nbrs@[m] == goal || asked@[spiral_index(origin(), nbrs@[m])]
                            == Some(true)) implies {
                            let w2 = spiral_index(origin(), nbrs@[m]);
                            closed@[w2] || (seen@[w2] && g@[w2] <= gu + 1)
                        } by {
                        let w2 = spiral_index(origin(), nbrs@[m]);
                        lemma_neighbor_in_board(radius, here, nbrs@, m);
                        if m < i {
                            if nbrs@[m] != goal {
                                assert(old_asked[w2] is Some);
                                assert(old_asked[w2] == Some(true));
                            }
                            assert(closed@[w2] || (old_seen[w2] && old_g[w2] <= gu + 1));
                        }
                    }
                }
                i += 1;
            }
            proof {
                lemma_all_relaxed(cells@, radius, start, goal, asked@, s as int, seen@, closed@, g@, parent@, cset, u as int, nbrs@);
                lemma_agrees_extends(asked_outer, asked@);
                assert forall|ps: Seq<bool>| #[trigger] agrees(ps, asked@) implies search_result(radius, start, goal, ps)
                    == search_run(
                    cells@,
                    radius,
                    goal,
                    ps,
                    s as int,
                    gi as int,
                    state_of(seen@, closed@, g@, parent@),
                    (n + 1 - cset.len()) as nat,
                ) by {
                    assert(agrees(ps, asked_outer));
                    assert(expand(cells@, radius, goal, ps, st_old, u as int) == relax_upto(
                        goal,
                        ps,
                        st_c,
                        u as int,
                        nbrs@,
                        nbrs@.len() as int,
                    ));
                    assert(fuel >= 1);
                    assert((fuel - 1) as nat == (n + 1 - cset.len()) as nat);
                }
            }
        }
    }

    /// Shortest walk from `start` to `goal` over board cells, stepping only onto cells
    /// that are the goal or marked passable in `pass` (one flag per cell, in the order
    /// of [`HexGrid::positions`]). Both `start` and `goal` count as passable: the result
    /// is the same whatever their flags.
    ///
    /// This is `A*` with the hex distance to the goal as estimate. Returns the walk from
    /// `start` to `goal` (inclusive), or `None` if no walk exists.
    pub fn find_path(&self, start: Hex, goal: Hex, pass: &Vec<bool>) -> (result: Option<Vec<Hex>>)
        requires
            self.wf(),
            pass@.len() == hex_count_spec(self.board_radius()),
        ensures
            shortest_walk(self.board_radius(), start, goal, pass@, opt_seq(result)),
            opt_seq(result) == search_result(self.board_radius(), start, goal, pass@),
            forall|other: Seq<bool>|
                #[trigger] same_off_ends(self.board_radius(), start, goal, pass@, other) ==> shortest_walk(
                    self.board_radius(),
                    start,
                    goal,
                    other,
                    opt_seq(result),
                ),
            forall|other: Seq<bool>|
                #[trigger] same_off_ends(self.board_radius(), start, goal, pass@, other) ==> opt_seq(result)
                    == search_result(self.board_radius(), start, goal, other),
    {
        let ghost radius = self.board_radius();
        proof {
            self.lemma_cells();
        }
        let flag = |h: Hex| -> (b: bool)
            requires
                self.wf(),
                pass@.len() == hex_count_spec(self.board_radius()),
                in_board(self.board_radius(), h),
            ensures
                b == passable_at(pass@, h),
            { pass[self.cell_index(h)] };
        let (result, Ghost(answers)) = self.search(start, goal, flag);
        proof {
            assert forall|k: int| 0 <= k < pass@.len() && (#[trigger] answers[k]) is Some implies pass@[k]
                == answers[k]->Some_0 by {
                assert(flag.ensures((self.cells_seq()[k],), answers[k]->Some_0));
                assert(spiral_index(origin(), self.cells_seq()[k]) == k);
            }
            assert(agrees(pass@, answers));
            assert forall|other: Seq<bool>| #[trigger] same_off_ends(radius, start, goal, pass@, other) implies shortest_walk(
                radius,
                start,
                goal,
                other,
                opt_seq(result),
            ) && opt_seq(result) == search_result(radius, start, goal, other) by {
                law_walk_ignores_endpoint_flags(radius, start, goal, pass@, other, opt_seq(result));
                self.law_search_ignores_endpoint_flags(start, goal, pass@, other);
            }
        }
        result
    }

    /// A* pathfinding from `start` to `goal`.
    ///
    /// `passable` returns true if a hex can be traversed. Both `start` and `goal` are
    /// assumed passable regardless: `passable` is never asked about the goal or about
    /// a closed cell (the start is closed first), and what it says about them does not
    /// change the result. It is asked only about board cells next to explored ones, at
    /// most once each, and not at all when `start == goal` or an endpoint is off the
    /// board.
    ///
    /// Returns a shortest path as a vec of hexes from `start` to `goal` (inclusive),
    /// or `None` if no path exists. For every choice of flags that matches what
    /// `passable` answers about the board hexes other than the endpoints, the result
    /// is a shortest walk, and it is [`search_result`] of those flags: two predicates
    /// that agree away from the endpoints give the same walk.
    pub fn astar<F: Fn(Hex) -> bool>(&self, start: Hex, goal: Hex, passable: F) -> (result: Option<Vec<Hex>>)
        requires
            self.wf(),
            in_board(self.board_radius(), start) && in_board(self.board_radius(), goal) && start != goal
                ==> forall|h: Hex|
                in_board(self.board_radius(), h) && h != goal ==> #[trigger] passable.requires((h,)),
        ensures
            forall|ps: Seq<bool>|
                #![trigger shortest_walk(self.board_radius(), start, goal, ps, opt_seq(result))]
                ps.len() == self.cells_seq().len() && (forall|h: Hex, b: bool|
                    in_board(self.board_radius(), h) && h != start && h != goal && #[trigger] passable.ensures(
                        (h,),
                        b,
                    ) ==> passable_at(ps, h) == b) ==> shortest_walk(
                    self.board_radius(),
                    start,
                    goal,
                    ps,
                    opt_seq(result),
                ),
            forall|ps: Seq<bool>|
                #![trigger search_result(self.board_radius(), start, goal, ps)]
                ps.len() == self.cells_seq().len() && (forall|h: Hex, b: bool|
                    in_board(self.board_radius(), h) && h != start && h != goal && #[trigger] passable.ensures(
                        (h,),
                        b,
                    ) ==> passable_at(ps, h) == b) ==> opt_seq(result) == search_result(
                    self.board_radius(),
                    start,
                    goal,
                    ps,
                ),
    {
        let ghost radius = self.board_radius();
        proof {
            self.lemma_cells();
        }
        let (result, Ghost(answers)) = self.search(start, goal, passable);
        proof {
            let cells = self.cells_seq();
            assert forall|ps: Seq<bool>|
                #![trigger search_result(radius, start, goal, ps)]
                #![trigger shortest_walk(radius, start, goal, ps, opt_seq(result))]
                ps.len() == cells.len() && (forall|h: Hex, b: bool|
                    in_board(radius, h) && h != start && h != goal && #[trigger] passable.ensures((h,), b)
                        ==> passable_at(ps, h) == b) implies opt_seq(result) == search_result(radius, start, goal, ps)
                && shortest_walk(radius, start, goal, ps, opt_seq(result)) by {
                let ps2 = Seq::new(
                    cells.len(),
                    |k: int|
                        if answers[k] is Some {
                            answers[k]->Some_0
                        } else {
                            ps[k]
                        },
                );
                assert(agrees(ps2, answers));
                assert forall|h: Hex| in_board(radius, h) && h != start && h != goal implies #[trigger] passable_at(
                    ps2,
                    h,
                ) == passable_at(ps, h) by {
                    let k = spiral_index(origin(), h);
                    if answers[k] is Some {
                        assert(passable.ensures((cells[k],), answers[k]->Some_0));
                    }
                }
                law_walk_ignores_endpoint_flags(radius, start, goal, ps2, ps, opt_seq(result));
                self.law_search_ignores_endpoint_flags(start, goal, ps2, ps);
            }
        }
        result
    }
}

} // verus!
