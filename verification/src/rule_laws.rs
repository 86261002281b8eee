//! Laws of the game rules: who attacks the player, which hexes a line pattern
//! threatens, how many enemies of each kind a level spawns, when the player may move,
//! and when a bomber throws.

use vstd::prelude::*;
use vstd::math::min;

use crate::combat::attackers_spec;
use crate::components::{EnemyKind, EntityId, Stats};
use crate::enemy::bomber::{around, bomber_plan, first_landing, nearest_in_range, throw_target, BomberPlan};
use crate::enemy::spawn_kinds;
use crate::grid::{other_than, TileData, TileView};
use crate::hex::{all_directions_seq, dir_vec, hex_len, hex_of, lemma_add_contains, ray_seq, step, Hex};
use crate::hex_grid::HexGrid;
use crate::player::requested_move;
use crate::turn::{GameSettings, Turn, TurnState};

verus! {

/// A filter and its complement split a sequence.
proof fn lemma_filter_split(s: Seq<EntityId>, e: EntityId)
    ensures
        s.filter(other_than(e)).len() + s.filter(|x: EntityId| x == e).len() == s.len(),
    decreases s.len(),
{
    reveal(Seq::filter);
    if s.len() > 0 {
        lemma_filter_split(s.drop_last(), e);
    }
}

/// Rule 4: every entry of the attack list of the player's tile that is not the player
/// attacks, once per entry: the attackers number the entries minus those of the
/// player (none when the tile is not on the board).
pub proof fn law_attackers_count(m: Map<Hex, TileView>, player: EntityId, player_hex: Hex)
    ensures
        attackers_spec(m, player, player_hex).len() == if m.contains_key(player_hex) {
            m[player_hex].attack_ranges.len() - m[player_hex].attack_ranges.filter(|x: EntityId| x == player).len()
        } else {
            0
        },
{
    if m.contains_key(player_hex) {
        lemma_filter_split(m[player_hex].attack_ranges, player);
    }
}

/// Rule 4: the entities that attack the player are exactly those, other than the
/// player, whose attack range covers the player's tile.
pub proof fn law_attackers_are_every_threat(m: Map<Hex, TileView>, player: EntityId, player_hex: Hex, e: EntityId)
    ensures
        attackers_spec(m, player, player_hex).contains(e) <==> (m.contains_key(player_hex)
            && m[player_hex].attack_ranges.contains(e) && e != player),
{
    if m.contains_key(player_hex) {
        let s = m[player_hex].attack_ranges;
        let p = other_than(player);
        if s.filter(p).contains(e) {
            s.lemma_filter_contains_rev(p, e);
            let i = choose|i: int| 0 <= i < s.filter(p).len() && s.filter(p)[i] == e;
            s.lemma_filter_pred(p, i);
        }
        if s.contains(e) && e != player {
            let i = choose|i: int| 0 <= i < s.len() && s[i] == e;
            s.lemma_filter_contains(p, i);
        }
    }
}

/// The hex `k` steps from `c` in direction number `d` (E, NE, NW, W, SW, SE for 0..6).
pub open spec fn steps_from(c: Hex, d: int, k: int) -> Hex {
    hex_of(c.q + k * dir_vec(d).0, c.r + k * dir_vec(d).1, c.s + k * dir_vec(d).2)
}

/// The hex `k` steps from `c` in direction number `d` lies on that ray.
proof fn lemma_on_ray(c: Hex, d: int, lo: int, hi: int, k: int)
    requires
        lo <= k <= hi,
    ensures
        ray_seq(c, d, lo, hi).contains(
            steps_from(c, d, k),
        ),
{
    let r = ray_seq(c, d, lo, hi);
    assert(r[k - lo] == steps_from(c, d, k));
}

/// A hex on a ray is some number of steps from `c` in that ray's direction.
proof fn lemma_ray_member(c: Hex, d: int, lo: int, hi: int, h: Hex)
    requires
        ray_seq(c, d, lo, hi).contains(h),
    ensures
        exists|k: int|
            lo <= k <= hi && h == #[trigger] steps_from(c, d, k),
{
    let r = ray_seq(c, d, lo, hi);
    let i = choose|i: int| 0 <= i < r.len() && r[i] == h;
    assert(h == steps_from(c, d, lo + i));
}

/// The all-directions pattern threatens, in each of the six directions, every hex `k`
/// steps from the center for `lo <= k <= hi`, and nothing else: six rays of
/// `hi - lo + 1` hexes each.
pub proof fn law_all_directions_covers_six_rays(c: Hex, lo: int, hi: int)
    requires
        lo <= hi,
    ensures
        all_directions_seq(c, lo, hi).len() == 6 * (hi - lo + 1),
        forall|d: int, k: int|
            0 <= d < 6 && lo <= k <= hi ==> #[trigger] all_directions_seq(c, lo, hi).contains(
                steps_from(c, d, k),
            ),
        forall|h: Hex|
            #[trigger] all_directions_seq(c, lo, hi).contains(h) ==> exists|d: int, k: int|
                0 <= d < 6 && lo <= k <= hi && h == #[trigger] steps_from(c, d, k),
{
    let r0 = ray_seq(c, 0, lo, hi);
    let r1 = ray_seq(c, 1, lo, hi);
    let r2 = ray_seq(c, 2, lo, hi);
    let r3 = ray_seq(c, 3, lo, hi);
    let r4 = ray_seq(c, 4, lo, hi);
    let r5 = ray_seq(c, 5, lo, hi);
    assert(all_directions_seq(c, lo, hi) == r0 + r1 + r2 + r3 + r4 + r5);
    assert forall|h: Hex|
        #[trigger] all_directions_seq(c, lo, hi).contains(h) <==> (r0.contains(h) || r1.contains(h) || r2.contains(h)
            || r3.contains(h) || r4.contains(h) || r5.contains(h)) by {
        lemma_add_contains(r0, r1, h);
        lemma_add_contains(r0 + r1, r2, h);
        lemma_add_contains(r0 + r1 + r2, r3, h);
        lemma_add_contains(r0 + r1 + r2 + r3, r4, h);
        lemma_add_contains(r0 + r1 + r2 + r3 + r4, r5, h);
    }
    assert forall|d: int, k: int| 0 <= d < 6 && lo <= k <= hi implies #[trigger] all_directions_seq(
        c,
        lo,
        hi,
    ).contains(steps_from(c, d, k)) by {
        lemma_on_ray(c, d, lo, hi, k);
    }
    assert forall|h: Hex| #[trigger] all_directions_seq(c, lo, hi).contains(h) implies exists|d: int, k: int|
        0 <= d < 6 && lo <= k <= hi && h == #[trigger] steps_from(c, d, k) by {
        if r0.contains(h) {
            lemma_ray_member(c, 0, lo, hi, h);
        } else if r1.contains(h) {
            lemma_ray_member(c, 1, lo, hi, h);
        } else if r2.contains(h) {
            lemma_ray_member(c, 2, lo, hi, h);
        } else if r3.contains(h) {
            lemma_ray_member(c, 3, lo, hi, h);
        } else if r4.contains(h) {
            lemma_ray_member(c, 4, lo, hi, h);
        } else {
            lemma_ray_member(c, 5, lo, hi, h);
        }
    }
}

/// A run of one kind keeps all or none of itself under a filter.
proof fn lemma_filter_run(s: Seq<EnemyKind>, x: EnemyKind, p: spec_fn(EnemyKind) -> bool)
    requires
        forall|i: int| 0 <= i < s.len() ==> s[i] == x,
    ensures
        s.filter(p).len() == if p(x) {
            s.len() as int
        } else {
            0
        },
    decreases s.len(),
{
    reveal(Seq::filter);
    if s.len() > 0 {
        lemma_filter_run(s.drop_last(), x, p);
    }
}

/// Whether an enemy kind is `kind`.
pub open spec fn is_kind(kind: EnemyKind) -> spec_fn(EnemyKind) -> bool {
    |k: EnemyKind| k == kind
}

/// How many of the spawns are of the given kind.
pub open spec fn kind_count(s: Seq<EnemyKind>, kind: EnemyKind) -> int {
    s.filter(is_kind(kind)).len() as int
}

/// A level spawns as many enemies as it asks for while candidate hexes remain, taking
/// them in the order grunts, archers, warlocks, bombers: each kind gets what it asks
/// for, or all the hexes the kinds before it left.
pub proof fn law_spawn_counts(grunts: int, archers: int, warlocks: int, bombers: int, n: int)
    requires
        grunts >= 0,
        archers >= 0,
        warlocks >= 0,
        bombers >= 0,
        n >= 0,
    ensures
        ({
            let s = spawn_kinds(grunts, archers, warlocks, bombers, n);
            let g = kind_count(s, EnemyKind::Melee);
            let a = kind_count(s, EnemyKind::Archer);
            let w = kind_count(s, EnemyKind::Warlock);
            let b = kind_count(s, EnemyKind::Bomber);
            &&& s.len() == min(grunts + archers + warlocks + bombers, n)
            &&& g == min(grunts, n)
            &&& a == min(archers, n - g)
            &&& w == min(warlocks, n - g - a)
            &&& b == min(bombers, n - g - a - w)
        }),
{
    let s = spawn_kinds(grunts, archers, warlocks, bombers, n);
    let g = if grunts < n { grunts } else { n };
    let a = if archers < n - g { archers } else { n - g };
    let w = if warlocks < n - g - a { warlocks } else { n - g - a };
    let b = if bombers < n - g - a - w { bombers } else { n - g - a - w };
    let sg = Seq::new(g as nat, |i: int| EnemyKind::Melee);
    let sa = Seq::new(a as nat, |i: int| EnemyKind::Archer);
    let sw = Seq::new(w as nat, |i: int| EnemyKind::Warlock);
    let sb = Seq::new(b as nat, |i: int| EnemyKind::Bomber);
    assert(s == sg + sa + sw + sb);
    let kinds = seq![EnemyKind::Melee, EnemyKind::Archer, EnemyKind::Warlock, EnemyKind::Bomber];
    assert forall|j: int| 0 <= j < 4 implies #[trigger] kind_count(s, kinds[j]) == (if j == 0 {
        g
    } else if j == 1 {
        a
    } else if j == 2 {
        w
    } else {
        b
    }) by {
        let kind = kinds[j];
        let p = is_kind(kind);
        Seq::filter_distributes_over_add(sg + sa + sw, sb, p);
        Seq::filter_distributes_over_add(sg + sa, sw, p);
        Seq::filter_distributes_over_add(sg, sa, p);
        lemma_filter_run(sg, EnemyKind::Melee, p);
        lemma_filter_run(sa, EnemyKind::Archer, p);
        lemma_filter_run(sw, EnemyKind::Warlock, p);
        lemma_filter_run(sb, EnemyKind::Bomber, p);
    }
    assert(kind_count(s, kinds[0]) == g);
    assert(kind_count(s, kinds[1]) == a);
    assert(kind_count(s, kinds[2]) == w);
    assert(kind_count(s, kinds[3]) == b);
}

/// The place of an enemy kind in the spawn order.
pub open spec fn spawn_rank(k: EnemyKind) -> int {
    match k {
        EnemyKind::Melee => 0,
        EnemyKind::Archer => 1,
        EnemyKind::Warlock => 2,
        EnemyKind::Bomber => 3,
    }
}

/// A level's enemies spawn kind by kind: all grunts first, then archers, warlocks and
/// bombers.
pub proof fn law_spawn_order(grunts: int, archers: int, warlocks: int, bombers: int, n: int)
    requires
        grunts >= 0,
        archers >= 0,
        warlocks >= 0,
        bombers >= 0,
        n >= 0,
    ensures
        forall|i: int, j: int|
            0 <= i < j < spawn_kinds(grunts, archers, warlocks, bombers, n).len() ==> spawn_rank(
                #[trigger] spawn_kinds(grunts, archers, warlocks, bombers, n)[i],
            ) <= spawn_rank(#[trigger] spawn_kinds(grunts, archers, warlocks, bombers, n)[j]),
{
    let s = spawn_kinds(grunts, archers, warlocks, bombers, n);
    let g = if grunts < n { grunts } else { n };
    let a = if archers < n - g { archers } else { n - g };
    let w = if warlocks < n - g - a { warlocks } else { n - g - a };
    let b = if bombers < n - g - a - w { bombers } else { n - g - a - w };
    let sg = Seq::new(g as nat, |i: int| EnemyKind::Melee);
    let sa = Seq::new(a as nat, |i: int| EnemyKind::Archer);
    let sw = Seq::new(w as nat, |i: int| EnemyKind::Warlock);
    let sb = Seq::new(b as nat, |i: int| EnemyKind::Bomber);
    assert(s == sg + sa + sw + sb);
    assert forall|i: int| 0 <= i < s.len() implies spawn_rank(#[trigger] s[i]) == (if i < g {
        0int
    } else if i < g + a {
        1int
    } else if i < g + a + w {
        2int
    } else {
        3int
    }) by {
        assert((sg + sa + sw + sb)[i] == s[i]);
        if i < g + a + w {
            assert((sg + sa + sw)[i] == s[i]);
            if i < g + a {
                assert((sg + sa)[i] == s[i]);
            }
        }
    }
}

/// The player moves only onto a free tile: a requested move is to the selected hex,
/// on the player's turn, away from its own hex, onto a traversable tile of the board
/// that no entity occupies.
pub proof fn law_move_only_onto_free_tiles(
    turn: TurnState,
    settings: GameSettings,
    pos: Hex,
    m: Map<Hex, TileView>,
    entity: EntityId,
    stats: Stats,
    target: Hex,
)
    requires
        requested_move(turn, settings, pos, m, entity, stats) == Some(target),
    ensures
        settings.selected_hex == Some(target),
        turn == TurnState::Active(Turn::Player),
        target != pos,
        m.contains_key(target),
        m[target].traversable,
        m[target].occupant is None,
        stats.move_range == 0 || m[target].move_ranges.contains(entity),
{
}

/// A move the player asks for is granted whenever it is allowed: on the player's turn,
/// to a selected hex other than its own, a traversable and free tile of the board that
/// its move range covers (or any such tile when it has no move range).
pub proof fn law_allowed_move_is_granted(
    turn: TurnState,
    settings: GameSettings,
    pos: Hex,
    m: Map<Hex, TileView>,
    entity: EntityId,
    stats: Stats,
    target: Hex,
)
    requires
        settings.selected_hex == Some(target),
        turn == TurnState::Active(Turn::Player),
        target != pos,
        m.contains_key(target),
        m[target].traversable,
        m[target].occupant is None,
        stats.move_range == 0 || m[target].move_ranges.contains(entity),
    ensures
        requested_move(turn, settings, pos, m, entity, stats) == Some(target),
{
}

/// A landing hex in `s` makes the first-landing search find one, and what it finds is
/// a landing hex of `s`.
proof fn lemma_first_landing(radius: int, current: Hex, s: Seq<Hex>)
    ensures
        (exists|i: int| 0 <= i < s.len() && hex_len(#[trigger] s[i]) <= radius && s[i] != current) ==> first_landing(
            radius,
            current,
            s,
        ) is Some,
        first_landing(radius, current, s) matches Some(t) ==> s.contains(t) && hex_len(t) <= radius && t != current,
    decreases s.len(),
{
    if s.len() > 0 {
        lemma_first_landing(radius, current, s.drop_last());
        if exists|i: int| 0 <= i < s.len() && hex_len(#[trigger] s[i]) <= radius && s[i] != current {
            let i = choose|i: int| 0 <= i < s.len() && hex_len(#[trigger] s[i]) <= radius && s[i] != current;
            if i < s.len() - 1 {
                assert(s.drop_last()[i] == s[i]);
            }
        }
        if let Some(t) = first_landing(radius, current, s.drop_last()) {
            let j = choose|j: int| 0 <= j < s.drop_last().len() && s.drop_last()[j] == t;
            assert(s[j] == t);
        }
    }
}

/// What the nearest-landing search finds is a landing hex of `s`.
proof fn lemma_nearest_in_range(radius: int, current: Hex, s: Seq<Hex>)
    ensures
        nearest_in_range(radius, current, s) matches Some(t) ==> s.contains(t) && hex_len(t) <= radius && t != current,
    decreases s.len(),
{
    if s.len() > 0 {
        lemma_nearest_in_range(radius, current, s.drop_last());
        if let Some(t) = nearest_in_range(radius, current, s.drop_last()) {
            let j = choose|j: int| 0 <= j < s.drop_last().len() && s.drop_last()[j] == t;
            assert(s[j] == t);
        }
    }
}

/// A bomber throws only from two or three steps away from the player, and its bomb
/// lands on a neighbor of the player that is a board hex other than the bomber's own.
pub proof fn law_bomber_throw_distance(
    grid: HexGrid<TileData>,
    current: Hex,
    player_hex: Hex,
    stats: Stats,
    t: Hex,
)
    requires
        bomber_plan(grid, current, player_hex, stats, BomberPlan::ThrowBomb(t)),
    ensures
        2 <= crate::hex::hex_dist(current, player_hex) <= 3,
        hex_len(t) <= grid.board_radius(),
        t != current,
        exists|d: int| 0 <= d < 6 && t == #[trigger] step(player_hex, d),
{
    let radius = grid.board_radius();
    let s = around(player_hex);
    lemma_first_landing(radius, current, s);
    lemma_nearest_in_range(radius, current, s);
    assert(s.contains(t));
    let j = choose|j: int| 0 <= j < s.len() && s[j] == t;
    assert(t == step(player_hex, j));
}

/// A bomber two or three steps from the player throws, whenever one of the player's
/// neighbors is a board hex other than the bomber's own; the bomb lands on such a
/// neighbor.
pub proof fn law_bomber_throws_at_two_or_three(
    grid: HexGrid<TileData>,
    current: Hex,
    player_hex: Hex,
    stats: Stats,
    r: BomberPlan,
)
    requires
        bomber_plan(grid, current, player_hex, stats, r),
        2 <= crate::hex::hex_dist(current, player_hex) <= 3,
        exists|d: int|
            0 <= d < 6 && hex_len(#[trigger] step(player_hex, d)) <= grid.board_radius() && step(player_hex, d)
                != current,
    ensures
        r matches BomberPlan::ThrowBomb(t) && hex_len(t) <= grid.board_radius() && t != current && exists|d: int|
            0 <= d < 6 && t == #[trigger] step(player_hex, d),
{
    let radius = grid.board_radius();
    let s = around(player_hex);
    let d = choose|d: int|
        0 <= d < 6 && hex_len(#[trigger] step(player_hex, d)) <= grid.board_radius() && step(player_hex, d) != current;
    assert(s[d] == step(player_hex, d));
    lemma_first_landing(radius, current, s);
    lemma_nearest_in_range(radius, current, s);
    let t = throw_target(radius, current, player_hex)->Some_0;
    assert(s.contains(t));
    let j = choose|j: int| 0 <= j < s.len() && s[j] == t;
    assert(t == step(player_hex, j));
}

} // verus!
