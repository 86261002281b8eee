//! Cube coordinates on a flat-topped hexagonal grid.

use vstd::prelude::*;

verus! {

/// Cube coordinate on a hex grid.
///
/// A valid coordinate satisfies `q + r + s == 0` (see [`Hex::wf`]); every
/// constructor of this module produces valid coordinates from valid ones.
#[derive(Debug, Clone, Copy, PartialEq, Eq, Hash, Structural)]
pub struct Hex {
    pub q: i32,
    pub r: i32,
    pub s: i32,
}

/// Absolute value of a mathematical integer.
pub open spec fn abs(x: int) -> int {
    if x < 0 {
        -x
    } else {
        x
    }
}

/// Whether a mathematical integer fits in an `i32`.
pub open spec fn fits_i32(x: int) -> bool {
    i32::MIN <= x <= i32::MAX
}

/// The hex whose coordinates are the given integers (meaningful when they fit in `i32`).
pub open spec fn hex_of(q: int, r: int, s: int) -> Hex {
    Hex { q: q as i32, r: r as i32, s: s as i32 }
}

/// Manhattan distance of a hex from the origin, in hex steps.
pub open spec fn hex_len(h: Hex) -> int {
    (abs(h.q as int) + abs(h.r as int) + abs(h.s as int)) / 2
}

/// Manhattan distance between two hexes, in hex steps.
pub open spec fn hex_dist(a: Hex, b: Hex) -> int {
    (abs(a.q - b.q) + abs(a.r - b.r) + abs(a.s - b.s)) / 2
}

/// Whether every coordinate of `c` can move by up to `m` without leaving `i32`.
pub open spec fn coords_within(c: Hex, m: int) -> bool {
    &&& fits_i32(c.q - m) && fits_i32(c.q + m)
    &&& fits_i32(c.r - m) && fits_i32(c.r + m)
    &&& fits_i32(c.s - m) && fits_i32(c.s + m)
}

/// The unit vector of direction number `d` (E, NE, NW, W, SW, SE for 0..6), as `(q, r, s)`.
pub open spec fn dir_vec(d: int) -> (int, int, int) {
    if d == 0 {
        (1, 0, -1)
    } else if d == 1 {
        (1, -1, 0)
    } else if d == 2 {
        (0, -1, 1)
    } else if d == 3 {
        (-1, 0, 1)
    } else if d == 4 {
        (-1, 1, 0)
    } else {
        (0, 1, -1)
    }
}

/// The neighbor of `h` in direction number `d`.
pub open spec fn step(h: Hex, d: int) -> Hex {
    hex_of(h.q + dir_vec(d).0, h.r + dir_vec(d).1, h.s + dir_vec(d).2)
}

/// Whether `a` and `b` are valid and one step apart.
pub open spec fn adjacent(a: Hex, b: Hex) -> bool {
    a.wf() && b.wf() && hex_dist(a, b) == 1
}


/// Offset from the center of the `j`-th hex of side `d` of the ring of radius `r`.
///
/// Side `d` starts at the corner reached by walking `r` steps in direction `d + 4`
/// (modulo 6) and proceeds in direction `d`.
pub open spec fn ring_offset(r: int, d: int, j: int) -> (int, int, int) {
    if d == 0 {
        (-r + j, r, -j)
    } else if d == 1 {
        (j, r - j, -r)
    } else if d == 2 {
        (r, -j, -r + j)
    } else if d == 3 {
        (r - j, -r, j)
    } else if d == 4 {
        (-j, -r + j, r)
    } else {
        (-r, j, r - j)
    }
}

/// The `j`-th hex of side `d` of the ring of radius `r` around `c`.
pub open spec fn ring_at(c: Hex, r: int, d: int, j: int) -> Hex {
    hex_of(
        c.q + ring_offset(r, d, j).0,
        c.r + ring_offset(r, d, j).1,
        c.s + ring_offset(r, d, j).2,
    )
}

/// The `k`-th hex (`0 <= k < 6 * r`) of the ring of radius `r` around `c`.
pub open spec fn ring_elem(c: Hex, r: int, k: int) -> Hex {
    if k < r {
        ring_at(c, r, 0, k)
    } else if k < 2 * r {
        ring_at(c, r, 1, k - r)
    } else if k < 3 * r {
        ring_at(c, r, 2, k - 2 * r)
    } else if k < 4 * r {
        ring_at(c, r, 3, k - 3 * r)
    } else if k < 5 * r {
        ring_at(c, r, 4, k - 4 * r)
    } else {
        ring_at(c, r, 5, k - 5 * r)
    }
}

/// The ring of radius `r` around `c`: starts `r` steps SW of the center and walks
/// `r` steps in each direction E, NE, NW, W, SW, SE. Empty for `r <= 0`.
pub open spec fn ring_seq(c: Hex, r: int) -> Seq<Hex> {
    if r <= 0 {
        Seq::empty()
    } else {
        Seq::new((6 * r) as nat, |k: int| ring_elem(c, r, k))
    }
}

/// The filled disk of radius `r` around `c`: the center, then the rings 1, 2, ..., r.
pub open spec fn spiral_seq(c: Hex, r: int) -> Seq<Hex>
    decreases r,
{
    if r <= 0 {
        seq![c]
    } else {
        spiral_seq(c, r - 1) + ring_seq(c, r)
    }
}

/// Number of hexes in a hexagonal grid of radius `r`: `3r^2 + 3r + 1`.
pub open spec fn hex_count_spec(r: int) -> int {
    3 * r * r + 3 * r + 1
}

impl Hex {
    /// The cube constraint `q + r + s == 0`.
    pub open spec fn wf(self) -> bool {
        self.q + self.r + self.s == 0
    }

    /// Create from cube coordinates. The coordinates must satisfy the cube constraint.
    pub fn new(q: i32, r: i32, s: i32) -> (h: Hex)
        requires
            q + r + s == 0,
        ensures
            h == (Hex { q, r, s }),
            h.wf(),
    {
        Hex { q, r, s }
    }

    /// Create from axial coordinates (q, r); `s` is derived.
    pub fn axial(q: i32, r: i32) -> (h: Hex)
        requires
            fits_i32(-q - r),
        ensures
            h.q == q,
            h.r == r,
            h.s == -q - r,
            h.wf(),
    {
        let s: i64 = -(q as i64) - r as i64;
        Hex { q, r, s: s as i32 }
    }

    /// The origin hex.
    pub fn origin() -> (h: Hex)
        ensures
            h == (Hex { q: 0, r: 0, s: 0 }),
            h.wf(),
    {
        Hex { q: 0, r: 0, s: 0 }
    }

    /// Manhattan distance from the origin.
    pub fn length(self) -> (n: i32)
        requires
            hex_len(self) <= i32::MAX,
        ensures
            n == hex_len(self),
    {
        let total: i64 = abs_i64(self.q as i64) + abs_i64(self.r as i64) + abs_i64(self.s as i64);
        (total / 2) as i32
    }

    /// Manhattan distance to another hex.
    pub fn distance(self, other: Hex) -> (n: i32)
        requires
            hex_dist(self, other) <= i32::MAX,
        ensures
            n == hex_dist(self, other),
    {
        let dq: i64 = self.q as i64 - other.q as i64;
        let dr: i64 = self.r as i64 - other.r as i64;
        let ds: i64 = self.s as i64 - other.s as i64;
        let total: i64 = abs_i64(dq) + abs_i64(dr) + abs_i64(ds);
        (total / 2) as i32
    }

    /// Component-wise sum.
    pub fn add(self, rhs: Hex) -> (h: Hex)
        requires
            fits_i32(self.q + rhs.q),
            fits_i32(self.r + rhs.r),
            fits_i32(self.s + rhs.s),
        ensures
            h.q == self.q + rhs.q,
            h.r == self.r + rhs.r,
            h.s == self.s + rhs.s,
            self.wf() && rhs.wf() ==> h.wf(),
    {
        Hex { q: self.q + rhs.q, r: self.r + rhs.r, s: self.s + rhs.s }
    }

    /// Component-wise difference.
    pub fn sub(self, rhs: Hex) -> (h: Hex)
        requires
            fits_i32(self.q - rhs.q),
            fits_i32(self.r - rhs.r),
            fits_i32(self.s - rhs.s),
        ensures
            h.q == self.q - rhs.q,
            h.r == self.r - rhs.r,
            h.s == self.s - rhs.s,
            self.wf() && rhs.wf() ==> h.wf(),
    {
        Hex { q: self.q - rhs.q, r: self.r - rhs.r, s: self.s - rhs.s }
    }

    /// Component-wise negation.
    pub fn neg(self) -> (h: Hex)
        requires
            self.q != i32::MIN,
            self.r != i32::MIN,
            self.s != i32::MIN,
        ensures
            h.q == -self.q,
            h.r == -self.r,
            h.s == -self.s,
            self.wf() ==> h.wf(),
    {
        Hex { q: -self.q, r: -self.r, s: -self.s }
    }

    /// Scale all components by a scalar. The scaled coordinates must again satisfy the cube constraint.
    pub fn scale(self, factor: i32) -> (h: Hex)
        requires
            fits_i32(self.q * factor),
            fits_i32(self.r * factor),
            fits_i32(self.s * factor),
            self.q * factor + self.r * factor + self.s * factor == 0,
        ensures
            h.q == self.q * factor,
            h.r == self.r * factor,
            h.s == self.s * factor,
            h.wf(),
    {
        Hex::new(self.q * factor, self.r * factor, self.s * factor)
    }


    /// All hexes exactly `radius` steps away (a ring), starting `radius` steps SW of
    /// this hex and walking around it. Returns an empty vec for `radius <= 0`.
    pub fn ring(self, radius: i32) -> (v: Vec<Hex>)
        requires
            radius > 0 ==> coords_within(self, radius as int),
        ensures
            v@ == ring_seq(self, radius as int),
    {
        if radius <= 0 {
            return Vec::new();
        }
        let ghost c = self;
        let ghost r = radius as int;
        let mut results: Vec<Hex> = Vec::new();
        let sw = direction_vector(Direction::SW);
        proof {
            assert(sw.q == -1 && sw.r == 1 && sw.s == 0);
            assert(sw.q * radius == -radius && sw.r * radius == radius && sw.s * radius == 0)
                by (nonlinear_arith)
                requires
                    sw.q == -1 && sw.r == 1 && sw.s == 0,
            ;
        }
        let mut current = self.add(sw.scale(radius));
        let dirs = Direction::all();
        let mut dir_idx: usize = 0;
        let ghost mut base: int = 0;
        while dir_idx < 6
            invariant
                0 < r == radius,
                c == self,
                coords_within(c, r),
                dirs@.len() == 6,
                forall|i: int| 0 <= i < 6 ==> #[trigger] dirs@[i] == Direction::from_index(i),
                0 <= dir_idx <= 6,
                dir_idx == 0 ==> base == 0,
                dir_idx == 1 ==> base == r,
                dir_idx == 2 ==> base == 2 * r,
                dir_idx == 3 ==> base == 3 * r,
                dir_idx == 4 ==> base == 4 * r,
                dir_idx == 5 ==> base == 5 * r,
                dir_idx == 6 ==> base == 6 * r,
                results@.len() == base,
                forall|k: int| 0 <= k < base ==> #[trigger] results@[k] == ring_elem(c, r, k),
                dir_idx < 6 ==> current == ring_at(c, r, dir_idx as int, 0),
            decreases 6 - dir_idx,
        {
            let d = direction_vector(dirs[dir_idx]);
            let mut j: i32 = 0;
            while j < radius
                invariant
                    0 < r == radius,
                    c == self,
                    coords_within(c, r),
                    0 <= dir_idx < 6,
                    d == hex_of(dir_vec(dir_idx as int).0, dir_vec(dir_idx as int).1, dir_vec(dir_idx as int).2),
                    dir_idx == 0 ==> base == 0,
                    dir_idx == 1 ==> base == r,
                    dir_idx == 2 ==> base == 2 * r,
                    dir_idx == 3 ==> base == 3 * r,
                    dir_idx == 4 ==> base == 4 * r,
                    dir_idx == 5 ==> base == 5 * r,
                    0 <= j <= radius,
                    results@.len() == base + j,
                    forall|k: int| 0 <= k < base + j ==> #[trigger] results@[k] == ring_elem(c, r, k),
                    current == ring_at(c, r, dir_idx as int, j as int),
                decreases radius - j,
            {
                results.push(current);
                current = current.add(d);
                j += 1;
            }
            proof {
                base = base + r;
            }
            dir_idx += 1;
        }
        assert(results@ =~= ring_seq(c, r));
        results
    }

    /// All hexes within `radius` steps (filled disk), including the center:
    /// the center first, then the rings of radius 1, 2, ..., `radius`.
    pub fn spiral(self, radius: i32) -> (v: Vec<Hex>)
        requires
            radius > 0 ==> coords_within(self, radius as int),
        ensures
            v@ == spiral_seq(self, radius as int),
    {
        let mut results: Vec<Hex> = Vec::new();
        results.push(self);
        if radius <= 0 {
            assert(results@ =~= spiral_seq(self, radius as int));
            return results;
        }
        let mut r: i64 = 1;
        while r <= radius as i64
            invariant
                0 < radius,
                coords_within(self, radius as int),
                1 <= r <= radius + 1,
                results@ == spiral_seq(self, r - 1),
            decreases radius + 1 - r,
        {
            let mut next = self.ring(r as i32);
            results.append(&mut next);
            r += 1;
        }
        results
    }

    /// The six neighbors of this hex, in directional order starting from E.
    pub fn neighbors(self) -> (ns: [Hex; 6])
        requires
            coords_within(self, 1),
        ensures
            forall|d: int| 0 <= d < 6 ==> #[trigger] ns@[d] == step(self, d),
            ns@.len() == 6,
    {
        [
            self.add(direction_vector(Direction::E)),
            self.add(direction_vector(Direction::NE)),
            self.add(direction_vector(Direction::NW)),
            self.add(direction_vector(Direction::W)),
            self.add(direction_vector(Direction::SW)),
            self.add(direction_vector(Direction::SE)),
        ]
    }

    /// The neighbor in a specific direction.
    pub fn neighbor(self, dir: Direction) -> (h: Hex)
        requires
            fits_i32(self.q + dir_vec(dir.index()).0),
            fits_i32(self.r + dir_vec(dir.index()).1),
            fits_i32(self.s + dir_vec(dir.index()).2),
        ensures
            h == step(self, dir.index()),
    {
        self.add(direction_vector(dir))
    }
}

/// Absolute value of an `i64` that is not `i64::MIN`.
fn abs_i64(x: i64) -> (r: i64)
    requires
        x > i64::MIN,
    ensures
        r == abs(x as int),
{
    if x < 0 {
        -x
    } else {
        x
    }
}

/// The six hex directions for a flat-topped hex grid.
#[derive(Debug, Clone, Copy, PartialEq, Eq, Hash, Structural)]
pub enum Direction {
    E,
    NE,
    NW,
    W,
    SW,
    SE,
}

impl Direction {
    /// Position of this direction in the order E, NE, NW, W, SW, SE.
    pub open spec fn index(self) -> int {
        match self {
            Direction::E => 0,
            Direction::NE => 1,
            Direction::NW => 2,
            Direction::W => 3,
            Direction::SW => 4,
            Direction::SE => 5,
        }
    }

    /// The direction with the given position in the order E, NE, NW, W, SW, SE.
    pub open spec fn from_index(i: int) -> Direction {
        if i == 0 {
            Direction::E
        } else if i == 1 {
            Direction::NE
        } else if i == 2 {
            Direction::NW
        } else if i == 3 {
            Direction::W
        } else if i == 4 {
            Direction::SW
        } else {
            Direction::SE
        }
    }

    /// All six directions, in directional order starting from E.
    pub fn all() -> (ds: [Direction; 6])
        ensures
            ds@.len() == 6,
            forall|i: int| 0 <= i < 6 ==> #[trigger] ds@[i] == Direction::from_index(i),
    {
        [Direction::E, Direction::NE, Direction::NW, Direction::W, Direction::SW, Direction::SE]
    }

    /// The opposite direction.
    pub fn opposite(self) -> (d: Direction)
        ensures
            d == Direction::from_index((self.index() + 3) % 6),
    {
        match self {
            Direction::E => Direction::W,
            Direction::NE => Direction::SW,
            Direction::NW => Direction::SE,
            Direction::W => Direction::E,
            Direction::SW => Direction::NE,
            Direction::SE => Direction::NW,
        }
    }
}

/// Unit vector of a direction in cube coordinates (flat-topped).
pub fn direction_vector(dir: Direction) -> (h: Hex)
    ensures
        h == hex_of(dir_vec(dir.index()).0, dir_vec(dir.index()).1, dir_vec(dir.index()).2),
        h.wf(),
{
    match dir {
        Direction::E => Hex { q: 1, r: 0, s: -1 },
        Direction::NE => Hex { q: 1, r: -1, s: 0 },
        Direction::NW => Hex { q: 0, r: -1, s: 1 },
        Direction::W => Hex { q: -1, r: 0, s: 1 },
        Direction::SW => Hex { q: -1, r: 1, s: 0 },
        Direction::SE => Hex { q: 0, r: 1, s: -1 },
    }
}

/// Number of hexes in a hexagonal grid of the given radius: `3r^2 + 3r + 1`.
pub fn hex_count(radius: i32) -> (n: usize)
    requires
        3 * radius * radius <= i64::MAX,
        hex_count_spec(radius as int) <= i64::MAX,
        hex_count_spec(radius as int) <= usize::MAX,
    ensures
        n == hex_count_spec(radius as int),
{
    let r = radius as i64;
    proof {
        assert(3 * r * r >= 0) by (nonlinear_arith);
        assert(hex_count_spec(r as int) >= 1) by (nonlinear_arith);
    }
    let three_r_sq: i64 = 3 * r * r;
    (three_r_sq + 3 * r + 1) as usize
}

/// The hex `k` steps from `c` in direction number `d`.
pub open spec fn ray_hex(c: Hex, d: int, k: int) -> Hex {
    hex_of(c.q + k * dir_vec(d).0, c.r + k * dir_vec(d).1, c.s + k * dir_vec(d).2)
}

/// The hexes `lo, lo + 1, ..., hi` steps from `c` in direction number `d`.
pub open spec fn ray_seq(c: Hex, d: int, lo: int, hi: int) -> Seq<Hex> {
    if hi < lo {
        Seq::empty()
    } else {
        Seq::new((hi - lo + 1) as nat, |i: int| ray_hex(c, d, lo + i))
    }
}

/// The hexes on the NE, SW, NW and SE rays from `c` at distances `lo..=hi`, ray by ray.
pub open spec fn diagonal_seq(c: Hex, lo: int, hi: int) -> Seq<Hex> {
    ray_seq(c, 1, lo, hi) + ray_seq(c, 4, lo, hi) + ray_seq(c, 2, lo, hi) + ray_seq(c, 5, lo, hi)
}

/// The hexes on the rays from `c` in all six directions (E, NE, NW, W, SW, SE) at
/// distances `lo..=hi`, ray by ray.
pub open spec fn all_directions_seq(c: Hex, lo: int, hi: int) -> Seq<Hex> {
    ray_seq(c, 0, lo, hi) + ray_seq(c, 1, lo, hi) + ray_seq(c, 2, lo, hi) + ray_seq(c, 3, lo, hi)
        + ray_seq(c, 4, lo, hi) + ray_seq(c, 5, lo, hi)
}

/// Whether the rays of `c` at distances `lo..=hi` stay within `i32` coordinates.
pub open spec fn rays_fit(c: Hex, lo: int, hi: int) -> bool {
    0 <= lo && (lo <= hi ==> coords_within(c, hi))
}

impl Hex {
    /// The hexes `lo, lo + 1, ..., hi` steps away in direction `dir`.
    pub fn ray(self, dir: Direction, lo: i32, hi: i32) -> (v: Vec<Hex>)
        requires
            rays_fit(self, lo as int, hi as int),
        ensures
            v@ == ray_seq(self, dir.index(), lo as int, hi as int),
    {
        let ghost d = dir.index();
        let dv = direction_vector(dir);
        let mut v: Vec<Hex> = Vec::new();
        if hi < lo {
            return v;
        }
        let mut k: i64 = lo as i64;
        while k <= hi as i64
            invariant
                rays_fit(self, lo as int, hi as int),
                lo <= hi,
                lo <= k <= hi + 1,
                dv == hex_of(dir_vec(d).0, dir_vec(d).1, dir_vec(d).2),
                0 <= d < 6,
                v@.len() == k - lo,
                forall|i: int| 0 <= i < v@.len() ==> #[trigger] v@[i] == ray_hex(self, d, lo + i),
            decreases hi + 1 - k,
        {
            let kk = k as i32;
            proof {
                assert(-1 <= dv.q <= 1 && -1 <= dv.r <= 1 && -1 <= dv.s <= 1);
                assert(0 <= kk <= hi);
                lemma_unit_mul(kk as int, dv.q as int);
                lemma_unit_mul(kk as int, dv.r as int);
                lemma_unit_mul(kk as int, dv.s as int);
            }
            let h = Hex { q: self.q + kk * dv.q, r: self.r + kk * dv.r, s: self.s + kk * dv.s };
            v.push(h);
            k += 1;
        }
        assert(v@ =~= ray_seq(self, d, lo as int, hi as int));
        v
    }

    /// The hexes on this hex's diagonals (the NE-SW and NW-SE lines) at distances
    /// `min_range..=max_range`: the NE ray, then SW, NW and SE.
    pub fn diagonal_attack_hexes(self, min_range: i32, max_range: i32) -> (v: Vec<Hex>)
        requires
            rays_fit(self, min_range as int, max_range as int),
        ensures
            v@ == diagonal_seq(self, min_range as int, max_range as int),
    {
        let mut v = self.ray(Direction::NE, min_range, max_range);
        let mut b = self.ray(Direction::SW, min_range, max_range);
        v.append(&mut b);
        let mut c = self.ray(Direction::NW, min_range, max_range);
        v.append(&mut c);
        let mut d = self.ray(Direction::SE, min_range, max_range);
        v.append(&mut d);
        v
    }

    /// The hexes along all six directions at distances `min_range..=max_range`: the E
    /// ray, then NE, NW, W, SW and SE.
    pub fn all_directions_attack_hexes(self, min_range: i32, max_range: i32) -> (v: Vec<Hex>)
        requires
            rays_fit(self, min_range as int, max_range as int),
        ensures
            v@ == all_directions_seq(self, min_range as int, max_range as int),
    {
        let mut v = self.ray(Direction::E, min_range, max_range);
        let mut b = self.ray(Direction::NE, min_range, max_range);
        v.append(&mut b);
        let mut c = self.ray(Direction::NW, min_range, max_range);
        v.append(&mut c);
        let mut d = self.ray(Direction::W, min_range, max_range);
        v.append(&mut d);
        let mut e = self.ray(Direction::SW, min_range, max_range);
        v.append(&mut e);
        let mut f = self.ray(Direction::SE, min_range, max_range);
        v.append(&mut f);
        v
    }
}

/// Multiplying by a unit step keeps the magnitude.
proof fn lemma_unit_mul(k: int, u: int)
    requires
        -1 <= u <= 1,
    ensures
        u == 0 ==> k * u == 0,
        u == 1 ==> k * u == k,
        u == -1 ==> k * u == -k,
{
}

/// A sequence joined to another contains exactly the elements of both.
pub proof fn lemma_add_contains<A>(a: Seq<A>, b: Seq<A>, x: A)
    ensures
        (a + b).contains(x) <==> (a.contains(x) || b.contains(x)),
{
    if (a + b).contains(x) {
        let k = choose|k: int| 0 <= k < (a + b).len() && (a + b)[k] == x;
        if k < a.len() {
            assert(a[k] == x);
        } else {
            assert(b[k - a.len()] == x);
        }
    }
    if a.contains(x) {
        let k = choose|k: int| 0 <= k < a.len() && a[k] == x;
        assert((a + b)[k] == x);
    }
    if b.contains(x) {
        let k = choose|k: int| 0 <= k < b.len() && b[k] == x;
        assert((a + b)[k + a.len()] == x);
    }
}

/// Whether `h` lies `lo..=hi` steps from `c` in direction `dir`.
pub fn on_ray(c: Hex, dir: Direction, lo: i32, hi: i32, h: Hex) -> (b: bool)
    requires
        rays_fit(c, lo as int, hi as int),
    ensures
        b == ray_seq(c, dir.index(), lo as int, hi as int).contains(h),
{
    let ghost d = dir.index();
    let oq: i64 = h.q as i64 - c.q as i64;
    let or: i64 = h.r as i64 - c.r as i64;
    let os: i64 = h.s as i64 - c.s as i64;
    let lo64 = lo as i64;
    let hi64 = hi as i64;
    let (k, on_line): (i64, bool) = match dir {
        Direction::E => (oq, or == 0 && oq == -os),
        Direction::NE => (oq, os == 0 && oq == -or),
        Direction::NW => (os, oq == 0 && os == -or),
        Direction::W => (os, or == 0 && os == -oq),
        Direction::SW => (or, os == 0 && or == -oq),
        Direction::SE => (or, oq == 0 && or == -os),
    };
    let b = on_line && lo64 <= k && k <= hi64;
    proof {
        let sq = ray_seq(c, d, lo as int, hi as int);
        if b {
            assert(dir_vec(d) == match dir {
                Direction::E => (1int, 0int, -1int),
                Direction::NE => (1int, -1int, 0int),
                Direction::NW => (0int, -1int, 1int),
                Direction::W => (-1int, 0int, 1int),
                Direction::SW => (-1int, 1int, 0int),
                Direction::SE => (0int, 1int, -1int),
            });
            assert(ray_hex(c, d, k as int) == h);
            assert(sq[k - lo] == h);
        }
        if sq.contains(h) {
            let i = choose|i: int| 0 <= i < sq.len() && sq[i] == h;
            assert(ray_hex(c, d, lo + i) == h);
        }
    }
    b
}

/// Manhattan distance between two hexes, computed without `i32` overflow.
pub fn wide_distance(a: Hex, b: Hex) -> (d: i64)
    ensures
        d == hex_dist(a, b),
        d >= 0,
{
    let dq: i64 = a.q as i64 - b.q as i64;
    let dr: i64 = a.r as i64 - b.r as i64;
    let ds: i64 = a.s as i64 - b.s as i64;
    let aq: i64 = if dq < 0 { -dq } else { dq };
    let ar: i64 = if dr < 0 { -dr } else { dr };
    let as_: i64 = if ds < 0 { -ds } else { ds };
    (aq + ar + as_) / 2
}

} // verus!
