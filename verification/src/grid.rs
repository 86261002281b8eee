//! The game state of each board cell: occupancy, terrain and the move/attack ranges
//! of entities that reach it.

use vstd::prelude::*;

use crate::components::{AttackPattern, EntityId, HexPosition, Stats};
use crate::hex::{
    all_directions_seq, coords_within, diagonal_seq, hex_dist, hex_len, lemma_add_contains, on_ray, rays_fit, ray_seq,
    spiral_seq, Direction, Hex,
};
use crate::hex_grid::{in_board, HexGrid};
use crate::hex_laws::{law_spiral_distinct, law_spiral_membership};
use crate::turn::{TurnPhase, TurnState};

verus! {

/// Per-cell game state stored in the hex grid.
#[derive(Debug, Clone)]
pub struct TileData {
    pub tile_entity: Option<EntityId>,
    pub occupant: Option<EntityId>,
    pub traversable: bool,
    pub attack_ranges: Vec<EntityId>,
    pub move_ranges: Vec<EntityId>,
}

/// The content of a [`TileData`], with its lists as sequences.
pub struct TileView {
    pub tile_entity: Option<EntityId>,
    pub occupant: Option<EntityId>,
    pub traversable: bool,
    pub attack_ranges: Seq<EntityId>,
    pub move_ranges: Seq<EntityId>,
}

impl View for TileData {
    type V = TileView;

    open spec fn view(&self) -> TileView {
        TileView {
            tile_entity: self.tile_entity,
            occupant: self.occupant,
            traversable: self.traversable,
            attack_ranges: self.attack_ranges@,
            move_ranges: self.move_ranges@,
        }
    }
}

impl Default for TileData {
    fn default() -> (t: Self)
        ensures
            t@ == (TileView {
                tile_entity: None,
                occupant: None,
                traversable: true,
                attack_ranges: Seq::empty(),
                move_ranges: Seq::empty(),
            }),
    {
        TileData {
            tile_entity: None,
            occupant: None,
            traversable: true,
            attack_ranges: Vec::new(),
            move_ranges: Vec::new(),
        }
    }
}

/// The tiles of a board, by hex.
pub open spec fn tiles(grid: HexGrid<TileData>) -> Map<Hex, TileView> {
    grid@.map_values(|t: TileData| t@)
}

/// Whether the tile at `hex` exists, is traversable and has no occupant.
pub open spec fn passable_spec(m: Map<Hex, TileView>, hex: Hex) -> bool {
    m.contains_key(hex) && m[hex].traversable && m[hex].occupant is None
}

/// Whether `hex` has no tile or its tile has an occupant.
pub open spec fn occupied_spec(m: Map<Hex, TileView>, hex: Hex) -> bool {
    !m.contains_key(hex) || m[hex].occupant is Some
}

/// The tiles with the occupant of the tile at `hex` (if there is one) set to `o`.
pub open spec fn with_occupant(m: Map<Hex, TileView>, hex: Hex, o: Option<EntityId>) -> Map<Hex, TileView> {
    if m.contains_key(hex) {
        m.insert(hex, TileView { occupant: o, ..m[hex] })
    } else {
        m
    }
}

/// Entities other than `e`.
pub open spec fn other_than(e: EntityId) -> spec_fn(EntityId) -> bool {
    |x: EntityId| x != e
}

/// The tiles with every entry of `e` removed from all move and attack range lists.
pub open spec fn without_entity(m: Map<Hex, TileView>, e: EntityId) -> Map<Hex, TileView> {
    m.map_values(
        |t: TileView|
            TileView {
                attack_ranges: t.attack_ranges.filter(other_than(e)),
                move_ranges: t.move_ranges.filter(other_than(e)),
                ..t
            },
    )
}

/// The tiles with `e` appended to the move list of each tile in `mv` and to the attack
/// list of each tile in `atk`.
pub open spec fn with_ranges(
    m: Map<Hex, TileView>,
    e: EntityId,
    mv: spec_fn(Hex) -> bool,
    atk: spec_fn(Hex) -> bool,
) -> Map<Hex, TileView> {
    Map::new(
        |h: Hex| m.contains_key(h),
        |h: Hex|
            TileView {
                move_ranges: if mv(h) {
                    m[h].move_ranges.push(e)
                } else {
                    m[h].move_ranges
                },
                attack_ranges: if atk(h) {
                    m[h].attack_ranges.push(e)
                } else {
                    m[h].attack_ranges
                },
                ..m[h]
            },
    )
}

/// Hexes other than `pos` within `range` steps of it; none when `range <= 0`.
pub open spec fn within_range(pos: Hex, range: int) -> spec_fn(Hex) -> bool {
    |h: Hex| range > 0 && h != pos && h.wf() && hex_dist(pos, h) <= range
}

/// Whether an entity at `pos` with the given stats can be moved to and attacked from
/// without leaving `i32` coordinates while listing its ranges.
pub open spec fn ranges_fit(pos: Hex, stats: Stats) -> bool {
    &&& stats.move_range > 0 ==> coords_within(pos, stats.move_range as int)
    &&& stats.attack_range > 0 ==> coords_within(pos, stats.attack_range as int)
}

/// Returns true if the tile at `hex` is a valid movement target.
pub fn is_passable(grid: &HexGrid<TileData>, hex: Hex) -> (b: bool)
    requires
        grid.wf(),
    ensures
        b == passable_spec(tiles(*grid), hex),
{
    match grid.get(hex) {
        Some(t) => t.traversable && t.occupant.is_none(),
        None => false,
    }
}

/// Returns true if `hex` has no tile or its tile has an occupant.
pub fn is_occupied(grid: &HexGrid<TileData>, hex: Hex) -> (b: bool)
    requires
        grid.wf(),
    ensures
        b == occupied_spec(tiles(*grid), hex),
{
    match grid.get(hex) {
        Some(t) => t.occupant.is_some(),
        None => true,
    }
}

/// Sets the occupant of the tile at `hex`, if there is a tile there.
pub fn set_occupant(grid: &mut HexGrid<TileData>, hex: Hex, occupant: Option<EntityId>)
    requires
        old(grid).wf(),
    ensures
        final(grid).wf(),
        final(grid).board_radius() == old(grid).board_radius(),
        tiles(*final(grid)) == with_occupant(tiles(*old(grid)), hex, occupant),
{
    let ghost m = tiles(*grid);
    match grid.get_mut(hex) {
        Some(tile) => {
            tile.occupant = occupant;
        },
        None => {},
    }
    assert(tiles(*grid) =~= with_occupant(m, hex, occupant));
}

/// Appends `entity` to the move list (`to_move`) or the attack list of every tile of
/// the spiral of `radius` around `pos`, except `pos` itself.
fn add_to_spiral(grid: &mut HexGrid<TileData>, pos: Hex, radius: i32, entity: EntityId, to_move: bool)
    requires
        old(grid).wf(),
        pos.wf(),
        radius > 0,
        coords_within(pos, radius as int),
    ensures
        final(grid).wf(),
        final(grid).board_radius() == old(grid).board_radius(),
        tiles(*final(grid)) == if to_move {
            with_ranges(tiles(*old(grid)), entity, within_range(pos, radius as int), |h: Hex| false)
        } else {
            with_ranges(tiles(*old(grid)), entity, |h: Hex| false, within_range(pos, radius as int))
        },
{
    let ghost m0 = tiles(*grid);
    let ghost sp = spiral_seq(pos, radius as int);
    let hexes = pos.spiral(radius);
    proof {
        law_spiral_distinct(pos, radius as int);
    }
    let mut i: usize = 0;
    while i < hexes.len()
        invariant
            grid.wf(),
            grid.board_radius() == old(grid).board_radius(),
            m0 == tiles(*old(grid)),
            hexes@ == sp,
            sp.no_duplicates(),
            i <= hexes@.len(),
            tiles(*grid).dom() == m0.dom(),
            forall|h: Hex|
                #[trigger] m0.contains_key(h) ==> {
                    let hit = sp.take(i as int).contains(h) && h != pos;
                    let t0 = m0[h];
                    let t = tiles(*grid)[h];
                    &&& t.tile_entity == t0.tile_entity
                    &&& t.occupant == t0.occupant
                    &&& t.traversable == t0.traversable
                    &&& t.move_ranges == if to_move && hit {
                        t0.move_ranges.push(entity)
                    } else {
                        t0.move_ranges
                    }
                    &&& t.attack_ranges == if !to_move && hit {
                        t0.attack_ranges.push(entity)
                    } else {
                        t0.attack_ranges
                    }
                },
        decreases hexes@.len() - i,
    {
        let h = hexes[i];
        let ghost before = tiles(*grid);
        let ghost before_grid = *grid;
        proof {
            let tk1 = sp.take(i + 1);
            let tk0 = sp.take(i as int);
            assert forall|x: Hex| #[trigger] tk1.contains(x) <==> (tk0.contains(x) || x == h) by {
                if tk1.contains(x) {
                    let k = choose|k: int| 0 <= k < tk1.len() && tk1[k] == x;
                    if k < i {
                        assert(tk0[k] == x);
                    }
                }
                if tk0.contains(x) {
                    let k = choose|k: int| 0 <= k < tk0.len() && tk0[k] == x;
                    assert(tk1[k] == x);
                }
                if x == h {
                    assert(tk1[i as int] == x);
                }
            }
            if tk0.contains(h) {
                let k = choose|k: int| 0 <= k < tk0.len() && tk0[k] == h;
                assert(sp[k] == sp[i as int]);
            }
        }
        if h != pos && grid.contains(h) {
            match grid.get_mut(h) {
                Some(tile) => {
                    if to_move {
                        tile.move_ranges.push(entity);
                    } else {
                        tile.attack_ranges.push(entity);
                    }
                },
                None => {},
            }
        }
        proof {
            assert(tiles(*grid).dom() =~= m0.dom());
            assert forall|x: Hex| #[trigger] m0.contains_key(x) implies {
                let hit = sp.take(i + 1).contains(x) && x != pos;
                let t0 = m0[x];
                let t = tiles(*grid)[x];
                &&& t.tile_entity == t0.tile_entity
                &&& t.occupant == t0.occupant
                &&& t.traversable == t0.traversable
                &&& t.move_ranges == if to_move && hit {
                    t0.move_ranges.push(entity)
                } else {
                    t0.move_ranges
                }
                &&& t.attack_ranges == if !to_move && hit {
                    t0.attack_ranges.push(entity)
                } else {
                    t0.attack_ranges
                }
            } by {
                assert(before.contains_key(x));
                if x != h {
                    assert(tiles(*grid)[x] == before[x]);
                } else if x != pos {
                    before_grid.lemma_dom();
                    assert(in_board(grid.board_radius(), x));
                }
            }
        }
        i += 1;
    }
    proof {
        assert(sp.take(hexes@.len() as int) =~= sp);
        assert forall|h: Hex| #[trigger] sp.contains(h) <==> (h.wf() && hex_dist(pos, h) <= radius) by {
            law_spiral_membership(pos, radius as int, h);
        }
        let target = if to_move {
            with_ranges(m0, entity, within_range(pos, radius as int), |h: Hex| false)
        } else {
            with_ranges(m0, entity, |h: Hex| false, within_range(pos, radius as int))
        };
        assert(tiles(*grid) =~= target);
    }
}

/// Update the move/attack range overlays for an entity at `pos`: it is added to the
/// move list of every other tile within `move_range` steps (when `move_range > 0`) and
/// to the attack list of every other tile within `attack_range` steps.
pub fn update_ranges(grid: &mut HexGrid<TileData>, pos: Hex, entity: EntityId, stats: &Stats)
    requires
        old(grid).wf(),
        pos.wf(),
        ranges_fit(pos, *stats),
    ensures
        final(grid).wf(),
        final(grid).board_radius() == old(grid).board_radius(),
        tiles(*final(grid)) == with_ranges(
            tiles(*old(grid)),
            entity,
            within_range(pos, stats.move_range as int),
            within_range(pos, stats.attack_range as int),
        ),
{
    let ghost m0 = tiles(*grid);
    let ghost none = |h: Hex| false;
    let ghost mv = within_range(pos, stats.move_range as int);
    let ghost atk = within_range(pos, stats.attack_range as int);
    if stats.move_range > 0 {
        add_to_spiral(grid, pos, stats.move_range, entity, true);
    } else {
        assert(tiles(*grid) =~= with_ranges(m0, entity, mv, none));
    }
    let ghost m1 = tiles(*grid);
    if stats.attack_range > 0 {
        add_to_spiral(grid, pos, stats.attack_range, entity, false);
    } else {
        assert(tiles(*grid) =~= with_ranges(m1, entity, none, atk));
    }
    assert(tiles(*grid) =~= with_ranges(m0, entity, mv, atk));
}

/// `v` without any entry equal to `e`.
fn without_entity_vec(v: &Vec<EntityId>, e: EntityId) -> (r: Vec<EntityId>)
    ensures
        r@ == v@.filter(other_than(e)),
{
    let ghost pred = other_than(e);
    let mut r: Vec<EntityId> = Vec::new();
    let mut i: usize = 0;
    while i < v.len()
        invariant
            i <= v@.len(),
            pred == other_than(e),
            r@ == v@.take(i as int).filter(pred),
        decreases v@.len() - i,
    {
        proof {
            reveal(Seq::filter);
            assert(v@.take(i + 1).drop_last() =~= v@.take(i as int));
        }
        if v[i] != e {
            r.push(v[i]);
        }
        i += 1;
    }
    assert(v@.take(v@.len() as int) =~= v@);
    r
}

/// Clear all move/attack range entries for `entity` across the entire grid.
pub fn clear_ranges(grid: &mut HexGrid<TileData>, entity: EntityId)
    requires
        old(grid).wf(),
    ensures
        final(grid).wf(),
        final(grid).board_radius() == old(grid).board_radius(),
        tiles(*final(grid)) == without_entity(tiles(*old(grid)), entity),
{
    let ghost m0 = tiles(*grid);
    let positions = grid.positions();
    let ghost ps = positions@;
    proof {
        grid.lemma_wf();
        law_spiral_distinct(crate::hex_grid::origin(), grid.board_radius());
    }
    let mut i: usize = 0;
    while i < positions.len()
        invariant
            grid.wf(),
            grid.board_radius() == old(grid).board_radius(),
            m0 == tiles(*old(grid)),
            ps == positions@,
            ps == grid.cells_seq(),
            ps.no_duplicates(),
            i <= ps.len(),
            tiles(*grid).dom() == m0.dom(),
            forall|h: Hex|
                #[trigger] m0.contains_key(h) ==> tiles(*grid)[h] == if ps.take(i as int).contains(h) {
                    without_entity(m0, entity)[h]
                } else {
                    m0[h]
                },
        decreases ps.len() - i,
    {
        let h = positions[i];
        let ghost before = tiles(*grid);
        proof {
            let tk1 = ps.take(i + 1);
            let tk0 = ps.take(i as int);
            assert forall|x: Hex| #[trigger] tk1.contains(x) <==> (tk0.contains(x) || x == h) by {
                if tk1.contains(x) {
                    let k = choose|k: int| 0 <= k < tk1.len() && tk1[k] == x;
                    if k < i {
                        assert(tk0[k] == x);
                    }
                }
                if tk0.contains(x) {
                    let k = choose|k: int| 0 <= k < tk0.len() && tk0[k] == x;
                    assert(tk1[k] == x);
                }
                if x == h {
                    assert(tk1[i as int] == x);
                }
            }
            if tk0.contains(h) {
                let k = choose|k: int| 0 <= k < tk0.len() && tk0[k] == h;
                assert(ps[k] == ps[i as int]);
            }
        }
        match grid.get_mut(h) {
            Some(tile) => {
                let mv = without_entity_vec(&tile.move_ranges, entity);
                let atk = without_entity_vec(&tile.attack_ranges, entity);
                tile.move_ranges = mv;
                tile.attack_ranges = atk;
            },
            None => {},
        }
        proof {
            assert(tiles(*grid).dom() =~= m0.dom());
            assert forall|x: Hex| #[trigger] m0.contains_key(x) implies tiles(*grid)[x] == if ps.take(i + 1).contains(x) {
                without_entity(m0, entity)[x]
            } else {
                m0[x]
            } by {
                if x != h {
                    assert(tiles(*grid)[x] == before[x]);
                } else {
                    assert(before[x] == m0[x]);
                    assert(tiles(*grid)[x] =~= without_entity(m0, entity)[x]);
                }
            }
        }
        i += 1;
    }
    proof {
        assert(ps.take(ps.len() as int) =~= ps);
        assert forall|h: Hex| #[trigger] m0.contains_key(h) implies ps.contains(h) by {
            grid.lemma_dom();
            grid.lemma_in_board(h);
            assert(ps[crate::hex_laws::spiral_index(crate::hex_grid::origin(), h)] == h);
        }
        assert(tiles(*grid) =~= without_entity(m0, entity));
    }
}

/// The hexes an attack pattern threatens from `c`, in the order listed by
/// [`Hex::diagonal_attack_hexes`] or [`Hex::all_directions_attack_hexes`].
pub open spec fn pattern_seq(p: AttackPattern, c: Hex) -> Seq<Hex> {
    match p {
        AttackPattern::DiagonalRanged { min_range, max_range } => diagonal_seq(
            c,
            min_range as int,
            max_range as int,
        ),
        AttackPattern::AllDirectionsRanged { min_range, max_range } => all_directions_seq(
            c,
            min_range as int,
            max_range as int,
        ),
    }
}

/// Whether the pattern's rays from `c` stay within `i32` coordinates.
pub open spec fn pattern_fits(p: AttackPattern, c: Hex) -> bool {
    match p {
        AttackPattern::DiagonalRanged { min_range, max_range } => rays_fit(
            c,
            min_range as int,
            max_range as int,
        ),
        AttackPattern::AllDirectionsRanged { min_range, max_range } => rays_fit(
            c,
            min_range as int,
            max_range as int,
        ),
    }
}

/// Hexes other than `pos` that the pattern threatens from `pos`.
pub open spec fn pattern_hit(p: AttackPattern, pos: Hex) -> spec_fn(Hex) -> bool {
    |h: Hex| h != pos && pattern_seq(p, pos).contains(h)
}

/// Whether the pattern threatens `h` from `c`.
pub fn in_pattern(p: &AttackPattern, c: Hex, h: Hex) -> (b: bool)
    requires
        pattern_fits(*p, c),
    ensures
        b == pattern_seq(*p, c).contains(h),
{
    match p {
        AttackPattern::DiagonalRanged { min_range, max_range } => {
            let (lo, hi) = (*min_range, *max_range);
            proof {
                let (a, b, c2, d) = (ray_seq(c, 1, lo as int, hi as int), ray_seq(c, 4, lo as int, hi as int), ray_seq(c, 2, lo as int, hi as int), ray_seq(c, 5, lo as int, hi as int));
                lemma_add_contains(a, b, h);
                lemma_add_contains(a + b, c2, h);
                lemma_add_contains(a + b + c2, d, h);
            }
            on_ray(c, Direction::NE, lo, hi, h) || on_ray(c, Direction::SW, lo, hi, h) || on_ray(c, Direction::NW, lo, hi, h)
                || on_ray(c, Direction::SE, lo, hi, h)
        },
        AttackPattern::AllDirectionsRanged { min_range, max_range } => {
            let (lo, hi) = (*min_range, *max_range);
            proof {
                let r0 = ray_seq(c, 0, lo as int, hi as int);
                let r1 = ray_seq(c, 1, lo as int, hi as int);
                let r2 = ray_seq(c, 2, lo as int, hi as int);
                let r3 = ray_seq(c, 3, lo as int, hi as int);
                let r4 = ray_seq(c, 4, lo as int, hi as int);
                let r5 = ray_seq(c, 5, lo as int, hi as int);
                lemma_add_contains(r0, r1, h);
                lemma_add_contains(r0 + r1, r2, h);
                lemma_add_contains(r0 + r1 + r2, r3, h);
                lemma_add_contains(r0 + r1 + r2 + r3, r4, h);
                lemma_add_contains(r0 + r1 + r2 + r3 + r4, r5, h);
            }
            on_ray(c, Direction::E, lo, hi, h) || on_ray(c, Direction::NE, lo, hi, h) || on_ray(c, Direction::NW, lo, hi, h)
                || on_ray(c, Direction::W, lo, hi, h) || on_ray(c, Direction::SW, lo, hi, h)
                || on_ray(c, Direction::SE, lo, hi, h)
        },
    }
}

/// Appends `entity` to the attack list of every tile that `pattern` threatens from
/// `pos`, except `pos` itself.
fn add_pattern_attacks(grid: &mut HexGrid<TileData>, pos: Hex, entity: EntityId, pattern: &AttackPattern)
    requires
        old(grid).wf(),
        pattern_fits(*pattern, pos),
    ensures
        final(grid).wf(),
        final(grid).board_radius() == old(grid).board_radius(),
        tiles(*final(grid)) == with_ranges(tiles(*old(grid)), entity, |h: Hex| false, pattern_hit(*pattern, pos)),
{
    let ghost m0 = tiles(*grid);
    let ghost hit = pattern_hit(*pattern, pos);
    let positions = grid.positions();
    let ghost ps = positions@;
    proof {
        grid.lemma_wf();
        law_spiral_distinct(crate::hex_grid::origin(), grid.board_radius());
    }
    let mut i: usize = 0;
    while i < positions.len()
        invariant
            grid.wf(),
            grid.board_radius() == old(grid).board_radius(),
            pattern_fits(*pattern, pos),
            m0 == tiles(*old(grid)),
            hit == pattern_hit(*pattern, pos),
            ps == positions@,
            ps == grid.cells_seq(),
            ps.no_duplicates(),
            i <= ps.len(),
            tiles(*grid).dom() == m0.dom(),
            forall|h: Hex|
                #[trigger] m0.contains_key(h) ==> tiles(*grid)[h] == if ps.take(i as int).contains(h) {
                    with_ranges(m0, entity, |x: Hex| false, hit)[h]
                } else {
                    m0[h]
                },
        decreases ps.len() - i,
    {
        let h = positions[i];
        let ghost before = tiles(*grid);
        proof {
            let tk1 = ps.take(i + 1);
            let tk0 = ps.take(i as int);
            assert forall|x: Hex| #[trigger] tk1.contains(x) <==> (tk0.contains(x) || x == h) by {
                if tk1.contains(x) {
                    let k = choose|k: int| 0 <= k < tk1.len() && tk1[k] == x;
                    if k < i {
                        assert(tk0[k] == x);
                    }
                }
                if tk0.contains(x) {
                    let k = choose|k: int| 0 <= k < tk0.len() && tk0[k] == x;
                    assert(tk1[k] == x);
                }
                if x == h {
                    assert(tk1[i as int] == x);
                }
            }
            if tk0.contains(h) {
                let k = choose|k: int| 0 <= k < tk0.len() && tk0[k] == h;
                assert(ps[k] == ps[i as int]);
            }
        }
        if h != pos && in_pattern(pattern, pos, h) {
            match grid.get_mut(h) {
                Some(tile) => {
                    tile.attack_ranges.push(entity);
                },
                None => {},
            }
        }
        proof {
            assert(tiles(*grid).dom() =~= m0.dom());
            assert forall|x: Hex| #[trigger] m0.contains_key(x) implies tiles(*grid)[x] == if ps.take(i + 1).contains(x) {
                with_ranges(m0, entity, |x: Hex| false, hit)[x]
            } else {
                m0[x]
            } by {
                if x != h {
                    assert(tiles(*grid)[x] == before[x]);
                } else {
                    assert(before[x] == m0[x]);
                    assert(tiles(*grid)[x] =~= with_ranges(m0, entity, |x: Hex| false, hit)[x]);
                }
            }
        }
        i += 1;
    }
    proof {
        assert(ps.take(ps.len() as int) =~= ps);
        assert forall|h: Hex| #[trigger] m0.contains_key(h) implies ps.contains(h) by {
            grid.lemma_dom();
            grid.lemma_in_board(h);
            assert(ps[crate::hex_laws::spiral_index(crate::hex_grid::origin(), h)] == h);
        }
        assert(tiles(*grid) =~= with_ranges(m0, entity, |x: Hex| false, hit));
    }
}

/// The attack lists an entity at `pos` is added to: those `pattern` threatens when it
/// has one, otherwise those within its attack range.
pub open spec fn attack_area(pos: Hex, stats: Stats, pattern: Option<AttackPattern>) -> spec_fn(Hex) -> bool {
    match pattern {
        Some(p) => pattern_hit(p, pos),
        None => within_range(pos, stats.attack_range as int),
    }
}

/// Whether listing an entity's ranges at `pos` stays within `i32` coordinates.
pub open spec fn area_fits(pos: Hex, stats: Stats, pattern: Option<AttackPattern>) -> bool {
    &&& ranges_fit(pos, stats)
    &&& pattern matches Some(p) ==> pattern_fits(p, pos)
}

/// How far from its hex an entity's ranges reach: its move and attack ranges, and the
/// far end of its attack pattern.
pub open spec fn reach(stats: Stats, pattern: Option<AttackPattern>) -> int {
    let m = if stats.move_range > stats.attack_range {
        stats.move_range as int
    } else {
        stats.attack_range as int
    };
    match pattern {
        Some(AttackPattern::DiagonalRanged { min_range, max_range }) => if max_range > m {
            max_range as int
        } else {
            m
        },
        Some(AttackPattern::AllDirectionsRanged { min_range, max_range }) => if max_range > m {
            max_range as int
        } else {
            m
        },
        None => m,
    }
}

/// Whether the ranges of an entity standing anywhere on a board of `radius` can be
/// listed without leaving `i32` coordinates, its pattern starting at a distance `>= 0`.
pub open spec fn board_fits(radius: int, stats: Stats, pattern: Option<AttackPattern>) -> bool {
    &&& radius + reach(stats, pattern) <= i32::MAX
    &&& match pattern {
        Some(AttackPattern::DiagonalRanged { min_range, max_range }) => min_range >= 0,
        Some(AttackPattern::AllDirectionsRanged { min_range, max_range }) => min_range >= 0,
        None => true,
    }
}

/// On a board that fits an entity's ranges, they fit at every board hex.
pub proof fn lemma_board_fits(radius: int, h: Hex, stats: Stats, pattern: Option<AttackPattern>)
    requires
        in_board(radius, h),
        board_fits(radius, stats, pattern),
    ensures
        area_fits(h, stats, pattern),
        h.wf(),
{
    assert(crate::hex::abs(h.q as int) <= hex_len(h));
    assert(crate::hex::abs(h.r as int) <= hex_len(h));
    assert(crate::hex::abs(h.s as int) <= hex_len(h));
}

/// Update the move/attack range overlays for an entity at `pos`, where its attack
/// range follows `pattern` when it has one.
pub fn update_ranges_with_pattern(
    grid: &mut HexGrid<TileData>,
    pos: Hex,
    entity: EntityId,
    stats: &Stats,
    pattern: Option<&AttackPattern>,
)
    requires
        old(grid).wf(),
        pos.wf(),
        area_fits(pos, *stats, match pattern { Some(p) => Some(*p), None => None }),
    ensures
        final(grid).wf(),
        final(grid).board_radius() == old(grid).board_radius(),
        tiles(*final(grid)) == with_ranges(
            tiles(*old(grid)),
            entity,
            within_range(pos, stats.move_range as int),
            attack_area(pos, *stats, match pattern { Some(p) => Some(*p), None => None }),
        ),
{
    match pattern {
        None => update_ranges(grid, pos, entity, stats),
        Some(p) => {
            let ghost m0 = tiles(*grid);
            let ghost none = |h: Hex| false;
            let ghost mv = within_range(pos, stats.move_range as int);
            if stats.move_range > 0 {
                add_to_spiral(grid, pos, stats.move_range, entity, true);
            } else {
                assert(tiles(*grid) =~= with_ranges(m0, entity, mv, none));
            }
            let ghost m1 = tiles(*grid);
            add_pattern_attacks(grid, pos, entity, p);
            assert(tiles(*grid) =~= with_ranges(m0, entity, mv, pattern_hit(*p, pos)));
        },
    }
}

/// The tiles after an entity standing at `from` moves to `to`: `from` is vacated, `to`
/// is occupied, the entity's ranges are cleared and listed again around `to`.
pub open spec fn relocated(
    m: Map<Hex, TileView>,
    entity: EntityId,
    from: Hex,
    to: Hex,
    stats: Stats,
    pattern: Option<AttackPattern>,
) -> Map<Hex, TileView> {
    with_ranges(
        without_entity(with_occupant(with_occupant(m, from, None), to, Some(entity)), entity),
        entity,
        within_range(to, stats.move_range as int),
        attack_area(to, stats, pattern),
    )
}

/// Moves an entity along `path` to its last hex: updates its position, the grid's
/// occupancy and its ranges (its attack range following `pattern` when it has one).
/// Does nothing when the path has fewer than two hexes.
pub fn relocate(
    grid: &mut HexGrid<TileData>,
    entity: EntityId,
    hex_pos: &mut HexPosition,
    path: &[Hex],
    stats: &Stats,
    pattern: Option<&AttackPattern>,
)
    requires
        old(grid).wf(),
        path@.len() >= 2 ==> path@.last().wf(),
        path@.len() >= 2 ==> area_fits(path@.last(), *stats, match pattern { Some(p) => Some(*p), None => None }),
    ensures
        final(grid).wf(),
        final(grid).board_radius() == old(grid).board_radius(),
        path@.len() < 2 ==> tiles(*final(grid)) == tiles(*old(grid)) && *final(hex_pos) == *old(hex_pos),
        path@.len() >= 2 ==> {
            &&& *final(hex_pos) == HexPosition(path@.last())
            &&& tiles(*final(grid)) == relocated(
                tiles(*old(grid)),
                entity,
                old(hex_pos).0,
                path@.last(),
                *stats,
                match pattern { Some(p) => Some(*p), None => None },
            )
        },
{
    if path.len() < 2 {
        return;
    }
    let old_pos = hex_pos.0;
    let destination = path[path.len() - 1];
    hex_pos.0 = destination;
    set_occupant(grid, old_pos, None);
    set_occupant(grid, destination, Some(entity));
    clear_ranges(grid, entity);
    update_ranges_with_pattern(grid, destination, entity, stats, pattern);
}

/// Move an entity from its current hex to `destination` along `path`: updates grid
/// occupancy, its position and its ranges, and sets `turn` to `Animating { next }`.
/// Does nothing when the path has fewer than two hexes.
pub fn move_entity(
    grid: &mut HexGrid<TileData>,
    turn: &mut TurnState,
    entity: EntityId,
    hex_pos: &mut HexPosition,
    path: &[Hex],
    stats: &Stats,
    next_phase: TurnPhase,
)
    requires
        old(grid).wf(),
        path@.len() >= 2 ==> path@.last().wf(),
        path@.len() >= 2 ==> ranges_fit(path@.last(), *stats),
    ensures
        final(grid).wf(),
        final(grid).board_radius() == old(grid).board_radius(),
        path@.len() < 2 ==> {
            &&& tiles(*final(grid)) == tiles(*old(grid))
            &&& *final(hex_pos) == *old(hex_pos)
            &&& *final(turn) == *old(turn)
        },
        path@.len() >= 2 ==> {
            &&& *final(hex_pos) == HexPosition(path@.last())
            &&& tiles(*final(grid)) == relocated(tiles(*old(grid)), entity, old(hex_pos).0, path@.last(), *stats, None)
            &&& *final(turn) == TurnState::Animating { next: next_phase }
        },
{
    if path.len() < 2 {
        return;
    }
    relocate(grid, entity, hex_pos, path, stats, None);
    *turn = TurnState::Animating { next: next_phase };
}

/// Puts a newly spawned entity on the tile at `pos` and lists its ranges (its attack
/// range following `pattern` when it has one).
pub fn place_entity(
    grid: &mut HexGrid<TileData>,
    pos: Hex,
    entity: EntityId,
    stats: &Stats,
    pattern: Option<&AttackPattern>,
)
    requires
        old(grid).wf(),
        pos.wf(),
        area_fits(pos, *stats, match pattern { Some(p) => Some(*p), None => None }),
    ensures
        final(grid).wf(),
        final(grid).board_radius() == old(grid).board_radius(),
        tiles(*final(grid)) == with_ranges(
            with_occupant(tiles(*old(grid)), pos, Some(entity)),
            entity,
            within_range(pos, stats.move_range as int),
            attack_area(pos, *stats, match pattern { Some(p) => Some(*p), None => None }),
        ),
{
    set_occupant(grid, pos, Some(entity));
    update_ranges_with_pattern(grid, pos, entity, stats, pattern);
}

/// Whether the tile at `h` lists `enemy` in its attack list.
pub open spec fn threatened_by(m: Map<Hex, TileView>, enemy: EntityId, h: Hex) -> bool {
    m.contains_key(h) && m[h].attack_ranges.contains(enemy)
}

/// The board hexes that `enemy` threatens, in spiral order.
pub fn attack_hexes(grid: &HexGrid<TileData>, enemy: EntityId) -> (v: Vec<Hex>)
    requires
        grid.wf(),
    ensures
        v@ == grid.cells_seq().filter(|h: Hex| threatened_by(tiles(*grid), enemy, h)),
{
    let cells = grid.positions();
    let ghost pred = |h: Hex| threatened_by(tiles(*grid), enemy, h);
    let mut v: Vec<Hex> = Vec::new();
    let mut k: usize = 0;
    while k < cells.len()
        invariant
            grid.wf(),
            cells@ == grid.cells_seq(),
            pred == (|h: Hex| threatened_by(tiles(*grid), enemy, h)),
            k <= cells@.len(),
            v@ == cells@.take(k as int).filter(pred),
        decreases cells@.len() - k,
    {
        proof {
            reveal(Seq::filter);
            assert(cells@.take(k + 1).drop_last() =~= cells@.take(k as int));
        }
        if let Some(t) = grid.get(cells[k]) {
            if crate::undo::has_entity(&t.attack_ranges, enemy) {
                v.push(cells[k]);
            }
        }
        k += 1;
    }
    assert(cells@.take(cells@.len() as int) =~= cells@);
    v
}

/// A list with every entry of `e` removed holds `e` nowhere, and holds every other
/// entity exactly when the list did.
proof fn lemma_filter_other(s: Seq<EntityId>, e: EntityId, x: EntityId)
    ensures
        !s.filter(other_than(e)).contains(e),
        x != e ==> (s.filter(other_than(e)).contains(x) <==> s.contains(x)),
{
    let p = other_than(e);
    if s.filter(p).contains(e) {
        let i = choose|i: int| 0 <= i < s.filter(p).len() && s.filter(p)[i] == e;
        s.lemma_filter_pred(p, i);
    }
    if x != e {
        if s.contains(x) {
            let i = choose|i: int| 0 <= i < s.len() && s[i] == x;
            s.lemma_filter_contains(p, i);
        }
        if s.filter(p).contains(x) {
            s.lemma_filter_contains_rev(p, x);
        }
    }
}

/// Clearing an entity's ranges removes it from every move and attack list, and keeps
/// every other entity's entries.
pub proof fn law_clear_ranges(m: Map<Hex, TileView>, e: EntityId, h: Hex, x: EntityId)
    requires
        m.contains_key(h),
    ensures
        without_entity(m, e).contains_key(h),
        !without_entity(m, e)[h].move_ranges.contains(e),
        !without_entity(m, e)[h].attack_ranges.contains(e),
        x != e ==> (without_entity(m, e)[h].move_ranges.contains(x) <==> m[h].move_ranges.contains(x)),
        x != e ==> (without_entity(m, e)[h].attack_ranges.contains(x) <==> m[h].attack_ranges.contains(x)),
        without_entity(m, e)[h].occupant == m[h].occupant,
        without_entity(m, e)[h].traversable == m[h].traversable,
{
    lemma_filter_other(m[h].move_ranges, e, x);
    lemma_filter_other(m[h].attack_ranges, e, x);
}

/// Clearing an entity's ranges undoes listing them: listing and then clearing gives
/// what clearing alone gives, so an entity that moves leaves no trace of its old ranges.
pub proof fn law_clear_undoes_listing(
    m: Map<Hex, TileView>,
    e: EntityId,
    mv: spec_fn(Hex) -> bool,
    atk: spec_fn(Hex) -> bool,
)
    ensures
        without_entity(with_ranges(m, e, mv, atk), e) == without_entity(m, e),
{
    let a = without_entity(with_ranges(m, e, mv, atk), e);
    let b = without_entity(m, e);
    assert forall|h: Hex| #[trigger] a.contains_key(h) implies a[h] == b[h] by {
        m[h].move_ranges.lemma_filter_push(e, other_than(e));
        m[h].attack_ranges.lemma_filter_push(e, other_than(e));
    }
    assert(a =~= b);
}

/// Moving an entity from `from` to another tile `to` puts it on `to`, vacates `from`,
/// and leaves every other tile's occupant alone.
pub proof fn law_relocated_occupancy(
    m: Map<Hex, TileView>,
    entity: EntityId,
    from: Hex,
    to: Hex,
    stats: Stats,
    pattern: Option<AttackPattern>,
    h: Hex,
)
    requires
        m.contains_key(from),
        m.contains_key(to),
        from != to,
    ensures
        relocated(m, entity, from, to, stats, pattern)[to].occupant == Some(entity),
        relocated(m, entity, from, to, stats, pattern)[from].occupant is None,
        relocated(m, entity, from, to, stats, pattern).contains_key(h) == m.contains_key(h),
        m.contains_key(h) && h != from && h != to ==> relocated(m, entity, from, to, stats, pattern)[h].occupant
            == m[h].occupant,
{
}

/// No entity occupies two tiles.
pub open spec fn occupants_unique(m: Map<Hex, TileView>) -> bool {
    forall|a: Hex, b: Hex|
        #![trigger m[a].occupant, m[b].occupant]
        m.contains_key(a) && m.contains_key(b) && a != b && m[a].occupant is Some ==> m[a].occupant != m[b].occupant
}

/// Listing or clearing ranges leaves every occupant where it is.
proof fn lemma_ranges_keep_occupants(m: Map<Hex, TileView>, e: EntityId, mv: spec_fn(Hex) -> bool, atk: spec_fn(Hex) -> bool)
    ensures
        forall|h: Hex|
            #[trigger] with_ranges(m, e, mv, atk).contains_key(h) == m.contains_key(h) && (m.contains_key(h)
                ==> with_ranges(m, e, mv, atk)[h].occupant == m[h].occupant),
        forall|h: Hex|
            #[trigger] without_entity(m, e).contains_key(h) == m.contains_key(h) && (m.contains_key(h)
                ==> without_entity(m, e)[h].occupant == m[h].occupant),
{
}

/// Moving an entity from its tile onto a free tile keeps every entity on at most one
/// tile.
pub proof fn law_relocation_keeps_occupants_unique(
    m: Map<Hex, TileView>,
    entity: EntityId,
    from: Hex,
    to: Hex,
    stats: Stats,
    pattern: Option<AttackPattern>,
)
    requires
        occupants_unique(m),
        m.contains_key(from),
        m[from].occupant == Some(entity),
        m.contains_key(to),
        m[to].occupant is None,
    ensures
        occupants_unique(relocated(m, entity, from, to, stats, pattern)),
{
    let r = relocated(m, entity, from, to, stats, pattern);
    assert forall|a: Hex, b: Hex|
        #![trigger r[a].occupant, r[b].occupant]
        r.contains_key(a) && r.contains_key(b) && a != b && r[a].occupant is Some implies r[a].occupant
        != r[b].occupant by {
        law_relocated_occupancy(m, entity, from, to, stats, pattern, a);
        law_relocated_occupancy(m, entity, from, to, stats, pattern, b);
        if a != to && b != to && a != from && b != from {
            assert(m[a].occupant != m[b].occupant);
        } else if a == to && b != from {
            assert(m[from].occupant != m[b].occupant);
        } else if b == to && a != from {
            assert(m[a].occupant != m[from].occupant);
        }
    }
}

/// Placing an entity that is on no tile onto a free tile keeps every entity on at most
/// one tile.
pub proof fn law_placement_keeps_occupants_unique(
    m: Map<Hex, TileView>,
    pos: Hex,
    entity: EntityId,
    mv: spec_fn(Hex) -> bool,
    atk: spec_fn(Hex) -> bool,
)
    requires
        occupants_unique(m),
        forall|h: Hex| #[trigger] m.contains_key(h) ==> m[h].occupant != Some(entity),
        m.contains_key(pos) ==> m[pos].occupant is None,
    ensures
        occupants_unique(with_ranges(with_occupant(m, pos, Some(entity)), entity, mv, atk)),
{
    let m1 = with_occupant(m, pos, Some(entity));
    lemma_ranges_keep_occupants(m1, entity, mv, atk);
    let r = with_ranges(m1, entity, mv, atk);
    assert forall|a: Hex, b: Hex|
        #![trigger r[a].occupant, r[b].occupant]
        r.contains_key(a) && r.contains_key(b) && a != b && r[a].occupant is Some implies r[a].occupant
        != r[b].occupant by {
        assert(r[a].occupant == m1[a].occupant);
        assert(r[b].occupant == m1[b].occupant);
        if a != pos && b != pos {
            assert(m[a].occupant != m[b].occupant);
        } else if a == pos {
            assert(m[b].occupant != Some(entity));
        } else {
            assert(m[a].occupant != Some(entity));
        }
    }
}

/// Vacating a tile and clearing an entity's ranges keeps every entity on at most one
/// tile.
pub proof fn law_vacating_keeps_occupants_unique(m: Map<Hex, TileView>, hex: Hex, e: EntityId)
    requires
        occupants_unique(m),
    ensures
        occupants_unique(without_entity(with_occupant(m, hex, None), e)),
{
    let m1 = with_occupant(m, hex, None);
    lemma_ranges_keep_occupants(m1, e, |h: Hex| false, |h: Hex| false);
    let r = without_entity(m1, e);
    assert forall|a: Hex, b: Hex|
        #![trigger r[a].occupant, r[b].occupant]
        r.contains_key(a) && r.contains_key(b) && a != b && r[a].occupant is Some implies r[a].occupant
        != r[b].occupant by {
        assert(r[a].occupant == m1[a].occupant);
        assert(r[b].occupant == m1[b].occupant);
        if a != hex && b != hex {
            assert(m[a].occupant != m[b].occupant);
        }
    }
}

} // verus!
