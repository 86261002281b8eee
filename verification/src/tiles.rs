//! Building a level's board: which tiles are walls, and a fresh tile on every cell.

use vstd::prelude::*;

use crate::components::EntityId;
use crate::grid::{tiles, TileData, TileView};
use crate::hex::{coords_within, Hex};
use crate::hex_grid::{in_board, origin, radius_fits, HexGrid};
use crate::hex_laws::{law_spiral_distinct, law_spiral_membership, law_spiral_size};
use crate::random::{shuffle_hexes, thread_rng};

verus! {

/// Whether a hex is not the origin; the origin never becomes a wall.
pub open spec fn off_origin(h: Hex) -> bool {
    h != origin()
}

/// Picks `wall_count` random hexes of `positions` other than the origin (all of them
/// when there are fewer) to become walls.
pub fn choose_walls(positions: &Vec<Hex>, wall_count: usize) -> (walls: Vec<Hex>)
    ensures
        exists|s: Seq<Hex>|
            #![trigger s.to_multiset()]
            s.to_multiset() == positions@.filter(|h: Hex| off_origin(h)).to_multiset() && walls@ == s.take(
                if wall_count < s.len() {
                    wall_count as int
                } else {
                    s.len() as int
                },
            ),
{
    let ghost pred = |h: Hex| off_origin(h);
    let center = Hex::origin();
    let mut candidates: Vec<Hex> = Vec::new();
    let mut k: usize = 0;
    while k < positions.len()
        invariant
            k <= positions@.len(),
            center == origin(),
            pred == (|h: Hex| off_origin(h)),
            candidates@ == positions@.take(k as int).filter(pred),
        decreases positions@.len() - k,
    {
        proof {
            reveal(Seq::filter);
            assert(positions@.take(k + 1).drop_last() =~= positions@.take(k as int));
        }
        if positions[k] != center {
            candidates.push(positions[k]);
        }
        k += 1;
    }
    assert(positions@.take(positions@.len() as int) =~= positions@);
    let mut rng = thread_rng();
    shuffle_hexes(&mut candidates, &mut rng);
    let ghost s = candidates@;
    let mut walls: Vec<Hex> = Vec::new();
    let mut j: usize = 0;
    while j < wall_count && j < candidates.len()
        invariant
            j <= candidates@.len(),
            j <= wall_count,
            s == candidates@,
            walls@ == s.take(j as int),
        decreases candidates@.len() - j,
    {
        walls.push(candidates[j]);
        j += 1;
        assert(walls@ =~= s.take(j as int));
    }
    assert(s.to_multiset() == positions@.filter(pred).to_multiset());
    walls
}

/// Whether `h` occurs in `v`.
fn has_hex(v: &Vec<Hex>, h: Hex) -> (b: bool)
    ensures
        b == v@.contains(h),
{
    let mut i: usize = 0;
    while i < v.len()
        invariant
            i <= v@.len(),
            forall|k: int| 0 <= k < i ==> v@[k] != h,
        decreases v@.len() - i,
    {
        if v[i] == h {
            assert(v@[i as int] == h);
            return true;
        }
        i += 1;
    }
    false
}

/// A tile just laid: drawn by `entity`, traversable unless it is a wall, and with no
/// occupant or ranges.
pub open spec fn fresh_tile(entity: EntityId, traversable: bool) -> TileView {
    TileView {
        tile_entity: Some(entity),
        occupant: None,
        traversable,
        attack_ranges: Seq::empty(),
        move_ranges: Seq::empty(),
    }
}

/// The board of `radius` with a tile on every cell: the `k`-th cell in spiral order is
/// drawn by the `k`-th tile entity, and is a wall exactly when it is among `walls`.
pub fn build_tiles(radius: i32, walls: &Vec<Hex>, tile_entities: &Vec<EntityId>) -> (g: HexGrid<TileData>)
    requires
        radius_fits(radius as int),
        tile_entities@.len() == crate::hex::hex_count_spec(radius as int),
    ensures
        g.wf(),
        g.board_radius() == radius,
        forall|h: Hex| #[trigger] tiles(g).contains_key(h) <==> in_board(radius as int, h),
        forall|k: int|
            0 <= k < g.cells_seq().len() ==> #[trigger] tiles(g)[g.cells_seq()[k]] == fresh_tile(
                tile_entities@[k],
                !walls@.contains(g.cells_seq()[k]),
            ),
{
    let mut g: HexGrid<TileData> = HexGrid::new(radius);
    let cells = g.positions();
    let ghost cs = cells@;
    proof {
        law_spiral_size(origin(), radius as int);
        law_spiral_distinct(origin(), radius as int);
        assert(coords_within(origin(), radius as int));
    }
    let mut k: usize = 0;
    while k < cells.len()
        invariant
            g.wf(),
            g.board_radius() == radius,
            radius_fits(radius as int),
            cs == cells@,
            cs == g.cells_seq(),
            cs.len() == tile_entities@.len(),
            cs.no_duplicates(),
            k <= cs.len(),
            forall|h: Hex| #[trigger] g@.contains_key(h) <==> exists|i: int| 0 <= i < k && cs[i] == h,
            forall|i: int|
                0 <= i < k ==> #[trigger] g@[cs[i]]@ == fresh_tile(tile_entities@[i], !walls@.contains(cs[i])),
        decreases cs.len() - k,
    {
        let h = cells[k];
        proof {
            law_spiral_membership(origin(), radius as int, h);
            assert(cs.contains(cs[k as int]));
        }
        let wall = has_hex(walls, h);
        let t = TileData {
            tile_entity: Some(tile_entities[k]),
            occupant: None,
            traversable: !wall,
            attack_ranges: Vec::new(),
            move_ranges: Vec::new(),
        };
        let ghost before = g@;
        g.insert(h, t);
        proof {
            assert(crate::hex::hex_dist(origin(), h) == crate::hex::hex_len(h));
            assert(g@ == before.insert(h, t));
            assert forall|i: int| 0 <= i < k + 1 implies #[trigger] g@[cs[i]]@ == fresh_tile(
                tile_entities@[i],
                !walls@.contains(cs[i]),
            ) by {
                if i < k {
                    assert(cs[i] != cs[k as int]);
                }
            }
            assert forall|x: Hex| #[trigger] g@.contains_key(x) <==> exists|i: int| 0 <= i < k + 1 && cs[i] == x by {
                if x == h {
                    assert(cs[k as int] == x);
                }
            }
        }
        k += 1;
    }
    proof {
        assert forall|h: Hex| #[trigger] tiles(g).contains_key(h) <==> in_board(radius as int, h) by {
            law_spiral_membership(origin(), radius as int, h);
            assert(crate::hex::hex_dist(origin(), h) == crate::hex::hex_len(h));
            if in_board(radius as int, h) {
                assert(cs.contains(h));
                let i = choose|i: int| 0 <= i < cs.len() && cs[i] == h;
            }
            if g@.contains_key(h) {
                let i = choose|i: int| 0 <= i < cs.len() && cs[i] == h;
                assert(cs.contains(h));
            }
        }
    }
    g
}

} // verus!
