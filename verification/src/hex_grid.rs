//! A hexagon-shaped board whose cells can each hold a value.

use vstd::prelude::*;

use crate::hex::{
    coords_within, hex_count, hex_count_spec, hex_dist, hex_len, spiral_seq, step, Hex,
};
use crate::hex_laws::{law_spiral_distinct, law_spiral_membership, law_spiral_size, lemma_spiral_index, spiral_index};

verus! {

/// The origin of the board.
pub open spec fn origin() -> Hex {
    Hex { q: 0, r: 0, s: 0 }
}

/// Largest radius a board may have: its cells must be countable in an `i64` and a `usize`.
pub open spec fn radius_fits(radius: int) -> bool {
    &&& 0 <= radius
    &&& 3 * radius * radius <= i64::MAX
    &&& hex_count_spec(radius) <= i64::MAX
    &&& hex_count_spec(radius) <= usize::MAX
}

/// Whether `h` is a valid hex within `radius` steps of the origin.
pub open spec fn in_board(radius: int, h: Hex) -> bool {
    h.wf() && hex_len(h) <= radius
}

/// The neighbors of `h`, in directional order starting from E, that lie within
/// `radius` steps of the origin.
pub open spec fn board_neighbors(radius: int, h: Hex) -> Seq<Hex> {
    Seq::new(6, |d: int| step(h, d)).filter(|n: Hex| hex_len(n) <= radius)
}

/// A hex grid arranged in a true hexagonal shape.
///
/// The grid has a `radius` measured from center to edge in hex steps.
/// A radius-0 grid is a single hex; radius-1 has 7 hexes, etc.
///
/// Each cell can hold an optional value of type `T`. Cells are stored in spiral
/// order: the center, then the rings of radius 1, 2, ... around it.
#[derive(Debug, Clone)]
pub struct HexGrid<T> {
    pub radius: i32,
    cells: Vec<Option<T>>,
}

impl<T> HexGrid<T> {
    /// The board's radius.
    pub closed spec fn board_radius(&self) -> int {
        self.radius as int
    }

    /// The board's radius.
    pub fn radius(&self) -> (r: i32)
        ensures
            r == self.board_radius(),
    {
        self.radius
    }

    /// The board's shape is consistent with its radius.
    pub closed spec fn wf(&self) -> bool {
        &&& radius_fits(self.radius as int)
        &&& self.cells@.len() == hex_count_spec(self.radius as int)
    }

    /// The stored values, keyed by the cell that holds them.
    pub closed spec fn view(&self) -> Map<Hex, T> {
        Map::new(
            |h: Hex|
                in_board(self.radius as int, h)
                    && self.cells@[spiral_index(origin(), h)] is Some,
            |h: Hex| self.cells@[spiral_index(origin(), h)]->Some_0,
        )
    }

    /// The cells of the board in spiral order.
    pub open spec fn cells_seq(&self) -> Seq<Hex> {
        spiral_seq(origin(), self.board_radius())
    }

    proof fn lemma_index(&self, h: Hex)
        requires
            self.wf(),
            in_board(self.radius as int, h),
        ensures
            0 <= spiral_index(origin(), h) < self.cells@.len(),
            spiral_seq(origin(), self.radius as int)[spiral_index(origin(), h)] == h,
    {
        assert(hex_dist(origin(), h) == hex_len(h));
        lemma_spiral_index(origin(), self.radius as int, h);
    }

    proof fn lemma_index_distinct(&self, a: Hex, b: Hex)
        requires
            self.wf(),
            in_board(self.radius as int, a),
            in_board(self.radius as int, b),
            a != b,
        ensures
            spiral_index(origin(), a) != spiral_index(origin(), b),
    {
        self.lemma_index(a);
        self.lemma_index(b);
    }

    /// Replacing the content of the cell of `hex` by `x` replaces the stored value at `hex`.
    proof fn lemma_update(g1: &Self, g2: &Self, hex: Hex, x: Option<T>)
        requires
            g1.wf(),
            in_board(g1.radius as int, hex),
            g2.radius == g1.radius,
            g2.cells@ == g1.cells@.update(spiral_index(origin(), hex), x),
        ensures
            g2.wf(),
            g2@ == match x {
                Some(v) => g1@.insert(hex, v),
                None => g1@.remove(hex),
            },
    {
        g1.lemma_index(hex);
        let m = match x {
            Some(v) => g1@.insert(hex, v),
            None => g1@.remove(hex),
        };
        assert forall|h: Hex| #[trigger] g2@.contains_key(h) == m.contains_key(h) by {
            if h != hex && in_board(g1.radius as int, h) {
                g1.lemma_index_distinct(h, hex);
                g1.lemma_index(h);
            }
        }
        assert forall|h: Hex| g2@.contains_key(h) implies #[trigger] g2@[h] == m[h] by {
            assert(m.contains_key(h));
            if h != hex {
                g1.lemma_index_distinct(h, hex);
                g1.lemma_index(h);
                assert(g1@.contains_key(h));
                assert(m[h] == g1@[h]);
            } else {
                assert(x is Some);
            }
        }
        assert(g2@ =~= m);
    }

    /// The `k`-th cell of the spiral is a board hex whose storage position is `k`.
    proof fn lemma_cell_at(&self, k: int)
        requires
            self.wf(),
            0 <= k < hex_count_spec(self.board_radius()),
        ensures
            in_board(self.board_radius(), self.cells_seq()[k]),
            spiral_index(origin(), self.cells_seq()[k]) == k,
            self@.contains_key(self.cells_seq()[k]) <==> self.cells@[k] is Some,
            self@.contains_key(self.cells_seq()[k]) ==> self@[self.cells_seq()[k]] == self.cells@[k]->Some_0,
    {
        let r = self.radius as int;
        let sp = spiral_seq(origin(), r);
        law_spiral_size(origin(), r);
        law_spiral_distinct(origin(), r);
        let h = sp[k];
        assert(sp.contains(h));
        law_spiral_membership(origin(), r, h);
        assert(hex_dist(origin(), h) == hex_len(h));
        lemma_spiral_index(origin(), r, h);
    }

    /// The `k`-th cell of the spiral is a board hex whose storage position is `k`.
    pub proof fn lemma_cell(&self, k: int)
        requires
            self.wf(),
            0 <= k < hex_count_spec(self.board_radius()),
        ensures
            in_board(self.board_radius(), self.cells_seq()[k]),
            spiral_index(origin(), self.cells_seq()[k]) == k,
    {
        self.lemma_cell_at(k);
    }

    /// The board's size and radius bounds.
    pub proof fn lemma_wf(&self)
        requires
            self.wf(),
        ensures
            radius_fits(self.board_radius()),
            self.cells_seq().len() == hex_count_spec(self.board_radius()),
            0 <= self.board_radius() <= 2_000_000_000,
    {
        law_spiral_size(origin(), self.radius as int);
        let r = self.radius as int;
        if r > 2_000_000_000 {
            assert(3 * r * r > i64::MAX) by (nonlinear_arith)
                requires
                    r > 2_000_000_000,
            ;
        }
    }

    /// Only board hexes hold values.
    pub proof fn lemma_dom(&self)
        ensures
            forall|h: Hex| #[trigger] self@.contains_key(h) ==> in_board(self.board_radius(), h),
    {
    }

    /// Every board hex is a cell of the spiral.
    pub proof fn lemma_in_board(&self, h: Hex)
        requires
            self.wf(),
            in_board(self.board_radius(), h),
        ensures
            0 <= spiral_index(origin(), h) < hex_count_spec(self.board_radius()),
            self.cells_seq()[spiral_index(origin(), h)] == h,
    {
        self.lemma_index(h);
    }

    /// Position of a board hex in the cell storage.
    pub(crate) fn cell_index(&self, hex: Hex) -> (i: usize)
        requires
            self.wf(),
            in_board(self.board_radius(), hex),
        ensures
            i == spiral_index(origin(), hex),
            i < hex_count_spec(self.board_radius()),
    {
        proof {
            self.lemma_index(hex);
        }
        let d: i32 = hex.length();
        if d == 0 {
            return 0;
        }
        let inner: usize = hex_count(d - 1);
        let r: i64 = d as i64;
        let oq: i64 = hex.q as i64;
        let or: i64 = hex.r as i64;
        let os: i64 = hex.s as i64;
        let k: i64 = if or == r && oq < 0 {
            oq + r
        } else if os == -r && 0 <= oq && oq < r {
            r + oq
        } else if oq == r && -r < or && or <= 0 {
            2 * r - or
        } else if or == -r && 0 < oq {
            4 * r - oq
        } else if os == r && -r < oq && oq <= 0 {
            4 * r - oq
        } else {
            5 * r + or
        };
        inner + k as usize
    }

    /// Create a new hexagonal grid. Every cell starts empty.
    pub fn new(radius: i32) -> (g: Self)
        requires
            radius_fits(radius as int),
        ensures
            g.wf(),
            g.board_radius() == radius,
            g@ == Map::<Hex, T>::empty(),
    {
        let n = hex_count(radius);
        let mut cells: Vec<Option<T>> = Vec::new();
        let mut i: usize = 0;
        while i < n
            invariant
                i <= n,
                cells@.len() == i,
                forall|j: int| 0 <= j < i ==> cells@[j] is None,
            decreases n - i,
        {
            cells.push(None);
            i += 1;
        }
        let g = HexGrid { radius, cells };
        assert forall|h: Hex| !(#[trigger] g@.contains_key(h)) by {
            if in_board(radius as int, h) {
                g.lemma_index(h);
            }
        }
        assert(g@ =~= Map::<Hex, T>::empty());
        g
    }

    /// Total number of cells in the grid.
    pub fn len(&self) -> (n: usize)
        requires
            self.wf(),
        ensures
            n == hex_count_spec(self.board_radius()),
    {
        hex_count(self.radius)
    }

    /// Whether the grid has no cells; never the case for a board of radius `>= 0`.
    pub fn is_empty(&self) -> (b: bool)
        ensures
            b == (self.board_radius() < 0),
    {
        self.radius < 0
    }

    /// Whether a coordinate is within the grid bounds: at most `radius` steps from the origin.
    pub fn contains(&self, hex: Hex) -> (b: bool)
        ensures
            b == (hex_len(hex) <= self.board_radius()),
    {
        let total: i64 = abs64(hex.q as i64) + abs64(hex.r as i64) + abs64(hex.s as i64);
        total / 2 <= self.radius as i64
    }

    /// Whether `hex` is a valid coordinate inside the board.
    pub(crate) fn holds(&self, hex: Hex) -> (b: bool)
        ensures
            b == in_board(self.board_radius(), hex),
    {
        hex.q as i64 + hex.r as i64 + hex.s as i64 == 0 && self.contains(hex)
    }

    /// Get a reference to the value at `hex`, if present.
    pub fn get(&self, hex: Hex) -> (v: Option<&T>)
        requires
            self.wf(),
        ensures
            v == if self@.contains_key(hex) {
                Some(&self@[hex])
            } else {
                None
            },
    {
        if !self.holds(hex) {
            return None;
        }
        let i = self.cell_index(hex);
        self.cells[i].as_ref()
    }

    /// Get a mutable reference to the value at `hex`, if present.
    pub fn get_mut(&mut self, hex: Hex) -> (v: Option<&mut T>)
        requires
            old(self).wf(),
        ensures
            final(self).board_radius() == old(self).board_radius(),
            v is Some <==> old(self)@.contains_key(hex),
            v is None ==> final(self)@ == old(self)@ && final(self).wf(),
            v matches Some(r) ==> {
                &&& *r == old(self)@[hex]
                &&& final(self)@ == old(self)@.insert(hex, *final(r))
                &&& final(self).wf()
            },
    {
        if !self.holds(hex) {
            return None;
        }
        let i = self.cell_index(hex);
        proof {
            self.lemma_index(hex);
            assert forall|g2: Self, x: Option<T>|
                #![trigger g2.cells@, self.cells@.update(i as int, x)]
                g2.radius == self.radius && g2.cells@ == self.cells@.update(i as int, x)
                implies g2.wf() && g2@ == match x {
                    Some(v) => self@.insert(hex, v),
                    None => self@.remove(hex),
                } by {
                Self::lemma_update(self, &g2, hex, x);
            }
        }
        let v = self.cells[i].as_mut();
        v
    }

    /// Insert a value at `hex`. Returns the previous value if the cell was occupied.
    /// Returns `None` without inserting if `hex` is out of bounds.
    pub fn insert(&mut self, hex: Hex, value: T) -> (prev: Option<T>)
        requires
            old(self).wf(),
            hex.wf(),
        ensures
            final(self).wf(),
            final(self).board_radius() == old(self).board_radius(),
            prev == if old(self)@.contains_key(hex) {
                Some(old(self)@[hex])
            } else {
                None
            },
            final(self)@ == if old(self).contains_spec(hex) {
                old(self)@.insert(hex, value)
            } else {
                old(self)@
            },
    {
        if !self.contains(hex) {
            return None;
        }
        let i = self.cell_index(hex);
        let ghost g1 = *self;
        let mut prev = Some(value);
        std::mem::swap(&mut self.cells[i], &mut prev);
        proof {
            Self::lemma_update(&g1, self, hex, Some(value));
        }
        prev
    }

    /// Whether `hex` is within `radius` steps of the origin.
    pub open spec fn contains_spec(&self, hex: Hex) -> bool {
        hex_len(hex) <= self.board_radius()
    }

    /// Remove and return the value at `hex`.
    pub fn remove(&mut self, hex: Hex) -> (prev: Option<T>)
        requires
            old(self).wf(),
        ensures
            final(self).wf(),
            final(self).board_radius() == old(self).board_radius(),
            prev == if old(self)@.contains_key(hex) {
                Some(old(self)@[hex])
            } else {
                None
            },
            final(self)@ == old(self)@.remove(hex),
    {
        if !self.holds(hex) {
            return None;
        }
        let i = self.cell_index(hex);
        let ghost g1 = *self;
        let mut prev = None;
        std::mem::swap(&mut self.cells[i], &mut prev);
        proof {
            Self::lemma_update(&g1, self, hex, None);
        }
        prev
    }

    /// The occupied cells, in spiral order.
    pub open spec fn occupied_hexes(&self) -> Seq<Hex> {
        self.cells_seq().filter(|h: Hex| self@.contains_key(h))
    }

    /// All occupied cells as `(Hex, &T)`, in spiral order.
    pub fn iter(&self) -> (v: Vec<(Hex, &T)>)
        requires
            self.wf(),
        ensures
            v@.len() == self.occupied_hexes().len(),
            forall|i: int| 0 <= i < v.len() ==> #[trigger] v@[i].0 == self.occupied_hexes()[i],
            forall|i: int|
                0 <= i < v.len() ==> #[trigger] self@.contains_key(v@[i].0) && *v@[i].1 == self@[v@[i].0],
            forall|h: Hex|
                #[trigger] self@.contains_key(h) ==> exists|i: int| 0 <= i < v.len() && v@[i].0 == h,
            forall|i: int, j: int| 0 <= i < j < v.len() ==> v@[i].0 != v@[j].0,
    {
        let positions = self.positions();
        let n = self.cells.len();
        let mut out: Vec<(Hex, &T)> = Vec::new();
        let ghost mut idxs: Seq<int> = Seq::empty();
        let mut k: usize = 0;
        proof {
            law_spiral_size(origin(), self.radius as int);
        }
        while k < n
            invariant
                self.wf(),
                n == self.cells@.len(),
                positions@ == self.cells_seq(),
                positions@.len() == n,
                k <= n,
                idxs.len() == out@.len(),
                forall|m: int| 0 <= m < idxs.len() ==> 0 <= #[trigger] idxs[m] < k,
                forall|m: int| 0 <= m < idxs.len() ==> self.cells@[#[trigger] idxs[m]] is Some,
                forall|m: int|
                    0 <= m < idxs.len() ==> #[trigger] out@[m].0 == self.cells_seq()[idxs[m]]
                        && *out@[m].1 == self.cells@[idxs[m]]->Some_0,
                forall|m1: int, m2: int| 0 <= m1 < m2 < idxs.len() ==> idxs[m1] < idxs[m2],
                forall|c: int|
                    0 <= c < k && (#[trigger] self.cells@[c]) is Some ==> exists|m: int|
                        0 <= m < idxs.len() && idxs[m] == c,
                out@.len() == positions@.take(k as int).filter(|h: Hex| self@.contains_key(h)).len(),
                forall|m: int|
                    0 <= m < out@.len() ==> #[trigger] out@[m].0 == positions@.take(k as int).filter(
                        |h: Hex| self@.contains_key(h),
                    )[m],
            decreases n - k,
        {
            let ghost old_idxs = idxs;
            let ghost pred = |h: Hex| self@.contains_key(h);
            let ghost old_list = positions@.take(k as int).filter(pred);
            proof {
                reveal(Seq::filter);
                assert(positions@.take(k + 1).drop_last() =~= positions@.take(k as int));
                self.lemma_cell_at(k as int);
            }
            if let Some(t) = self.cells[k].as_ref() {
                out.push((positions[k], t));
                proof {
                    idxs = idxs.push(k as int);
                }
            }
            proof {
                let new_list = positions@.take(k + 1).filter(pred);
                if self.cells@[k as int] is Some {
                    assert(new_list == old_list.push(positions@[k as int]));
                } else {
                    assert(new_list == old_list);
                }
            }
            proof {
                assert forall|c: int|
                    0 <= c < k + 1 && (#[trigger] self.cells@[c]) is Some implies exists|m: int|
                        0 <= m < idxs.len() && idxs[m] == c by {
                    if c == k {
                        assert(idxs[idxs.len() - 1] == k);
                    } else {
                        let m = choose|m: int| 0 <= m < old_idxs.len() && old_idxs[m] == c;
                        assert(idxs[m] == c);
                    }
                }
            }
            k += 1;
        }
        proof {
            assert(positions@.take(n as int) =~= positions@);
            assert forall|i: int| 0 <= i < out.len() implies #[trigger] self@.contains_key(out@[i].0)
                && *out@[i].1 == self@[out@[i].0] by {
                self.lemma_cell_at(idxs[i]);
            }
            assert forall|h: Hex| #[trigger] self@.contains_key(h) implies exists|i: int|
                0 <= i < out.len() && out@[i].0 == h by {
                self.lemma_in_board(h);
                let c = spiral_index(origin(), h);
                assert(self.cells@[c] is Some);
                let m = choose|m: int| 0 <= m < idxs.len() && idxs[m] == c;
                assert(out@[m].0 == h);
            }
            assert forall|i: int, j: int| 0 <= i < j < out.len() implies out@[i].0 != out@[j].0 by {
                self.lemma_cell_at(idxs[i]);
                self.lemma_cell_at(idxs[j]);
            }
        }
        out
    }

    /// Iterate over all valid positions in the grid (occupied or not), in spiral order.
    pub fn positions(&self) -> (v: Vec<Hex>)
        requires
            self.wf(),
        ensures
            v@ == self.cells_seq(),
    {
        Hex::origin().spiral(self.radius)
    }

    /// Neighbors of `hex` that are within grid bounds, in directional order starting from E.
    pub fn neighbors(&self, hex: Hex) -> (v: Vec<Hex>)
        requires
            coords_within(hex, 1),
        ensures
            v@ == board_neighbors(self.board_radius(), hex),
    {
        let all = hex.neighbors();
        let ghost s = Seq::new(6, |d: int| step(hex, d));
        let ghost pred = |n: Hex| hex_len(n) <= self.radius;
        assert(all@ =~= s);
        let mut out: Vec<Hex> = Vec::new();
        let mut i: usize = 0;
        while i < 6
            invariant
                i <= 6,
                all@ == s,
                s.len() == 6,
                pred == (|n: Hex| hex_len(n) <= self.radius),
                out@ == s.take(i as int).filter(pred),
            decreases 6 - i,
        {
            proof {
                reveal(Seq::filter);
                assert(s.take(i + 1).drop_last() =~= s.take(i as int));
            }
            if self.contains(all[i]) {
                out.push(all[i]);
            }
            i += 1;
        }
        assert(s.take(6) =~= s);
        out
    }
}

/// Absolute value of an `i64` that is not `i64::MIN`.
fn abs64(x: i64) -> (r: i64)
    requires
        x > i64::MIN,
    ensures
        r == crate::hex::abs(x as int),
{
    if x < 0 {
        -x
    } else {
        x
    }
}

} // verus!
