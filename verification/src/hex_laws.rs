//! Laws of hexes: distance, opposite directions, and rings and spirals (what they
//! contain, their sizes, that no hex occurs twice, and where each hex sits in a spiral).

use vstd::prelude::*;

use crate::hex::{abs, coords_within, dir_vec, fits_i32, step, hex_count_spec, hex_dist, ring_elem, ring_seq, spiral_seq, Direction, Hex};

verus! {

/// Position inside the ring of radius `r` of the hex at offset `(oq, or, os)` from the center.
pub open spec fn ring_index(r: int, oq: int, or: int, os: int) -> int {
    if or == r && oq < 0 {
        oq + r
    } else if os == -r && 0 <= oq < r {
        r + oq
    } else if oq == r && -r < or <= 0 {
        2 * r - or
    } else if or == -r && 0 < oq {
        4 * r - oq
    } else if os == r && -r < oq <= 0 {
        4 * r - oq
    } else {
        5 * r + or
    }
}

/// Position inside the spiral around `c` of a hex at distance `hex_dist(c, h)` from it.
pub open spec fn spiral_index(c: Hex, h: Hex) -> int {
    let d = hex_dist(c, h);
    if d == 0 {
        0
    } else {
        hex_count_spec(d - 1) + ring_index(d, h.q - c.q, h.r - c.r, h.s - c.s)
    }
}

/// The offset of a valid hex from a valid center has coordinates summing to zero,
/// and its distance is the largest absolute coordinate.
pub proof fn lemma_dist_is_max(c: Hex, h: Hex)
    requires
        c.wf(),
        h.wf(),
    ensures
        ({
            let (oq, or, os) = (h.q - c.q, h.r - c.r, h.s - c.s);
            &&& oq + or + os == 0
            &&& abs(oq) <= hex_dist(c, h)
            &&& abs(or) <= hex_dist(c, h)
            &&& abs(os) <= hex_dist(c, h)
            &&& (abs(oq) == hex_dist(c, h) || abs(or) == hex_dist(c, h) || abs(os) == hex_dist(c, h))
        }),
{
}

/// Hex distance is a metric on valid hexes: zero exactly between equal hexes,
/// symmetric, and obeying the triangle inequality.
pub proof fn law_distance_metric(a: Hex, b: Hex, c: Hex)
    requires
        a.wf(),
        b.wf(),
        c.wf(),
    ensures
        hex_dist(a, c) <= hex_dist(a, b) + hex_dist(b, c),
        hex_dist(a, b) == hex_dist(b, a),
        hex_dist(a, b) >= 0,
        hex_dist(a, b) == 0 <==> a == b,
{
    lemma_dist_is_max(a, b);
    lemma_dist_is_max(b, c);
    lemma_dist_is_max(a, c);
    lemma_dist_is_max(b, a);
}

/// Two valid hexes one step apart differ by one of the six direction vectors.
pub proof fn lemma_adjacent_step(a: Hex, b: Hex)
    requires
        a.wf(),
        b.wf(),
        hex_dist(a, b) == 1,
    ensures
        exists|d: int| 0 <= d < 6 && #[trigger] step(a, d) == b,
{
    lemma_dist_is_max(a, b);
    if b.q - a.q == 1 && b.s - a.s == -1 {
        assert(step(a, 0) == b);
    } else if b.q - a.q == 1 && b.r - a.r == -1 {
        assert(step(a, 1) == b);
    } else if b.r - a.r == -1 && b.s - a.s == 1 {
        assert(step(a, 2) == b);
    } else if b.q - a.q == -1 && b.s - a.s == 1 {
        assert(step(a, 3) == b);
    } else if b.q - a.q == -1 && b.r - a.r == 1 {
        assert(step(a, 4) == b);
    } else {
        assert(step(a, 5) == b);
    }
}

/// Each hex of a ring is valid (for a valid center) and lies at the ring's radius.
proof fn lemma_ring_elem(c: Hex, r: int, k: int)
    requires
        c.wf(),
        r > 0,
        coords_within(c, r),
        0 <= k < 6 * r,
    ensures
        ring_elem(c, r, k).wf(),
        hex_dist(c, ring_elem(c, r, k)) == r,
        ring_elem(c, r, k).q - c.q + ring_elem(c, r, k).r - c.r + ring_elem(c, r, k).s - c.s == 0,
        ring_index(
            r,
            ring_elem(c, r, k).q - c.q,
            ring_elem(c, r, k).r - c.r,
            ring_elem(c, r, k).s - c.s,
        ) == k,
{
}

/// A valid hex at distance `r` from a valid center is the ring's hex at its ring index.
proof fn lemma_ring_index(c: Hex, r: int, h: Hex)
    requires
        c.wf(),
        h.wf(),
        r > 0,
        coords_within(c, r),
        hex_dist(c, h) == r,
    ensures
        0 <= ring_index(r, h.q - c.q, h.r - c.r, h.s - c.s) < 6 * r,
        ring_elem(c, r, ring_index(r, h.q - c.q, h.r - c.r, h.s - c.s)) == h,
{
    lemma_dist_is_max(c, h);
}

/// Law: for `radius > 0`, the ring of `radius` around a valid center holds exactly the
/// valid hexes at distance `radius` from it.
pub proof fn law_ring_membership(c: Hex, radius: int, h: Hex)
    requires
        c.wf(),
        radius > 0,
        coords_within(c, radius),
    ensures
        ring_seq(c, radius).contains(h) <==> (h.wf() && hex_dist(c, h) == radius),
{
    if ring_seq(c, radius).contains(h) {
        let k = choose|k: int| 0 <= k < ring_seq(c, radius).len() && ring_seq(c, radius)[k] == h;
        lemma_ring_elem(c, radius, k);
    }
    if h.wf() && hex_dist(c, h) == radius {
        lemma_ring_index(c, radius, h);
        let k = ring_index(radius, h.q - c.q, h.r - c.r, h.s - c.s);
        assert(ring_seq(c, radius)[k] == h);
    }
}

/// Law: a ring of positive radius holds `6 * radius` hexes; an empty ring otherwise.
pub proof fn law_ring_size(c: Hex, radius: int)
    ensures
        ring_seq(c, radius).len() == if radius > 0 { 6 * radius } else { 0 },
{
}

/// Law: no hex occurs twice in a ring around a valid center.
pub proof fn law_ring_distinct(c: Hex, radius: int)
    requires
        c.wf(),
        coords_within(c, radius),
    ensures
        ring_seq(c, radius).no_duplicates(),
{
    if radius > 0 {
        assert forall|i: int, j: int|
            0 <= i < ring_seq(c, radius).len() && 0 <= j < ring_seq(c, radius).len() && i != j
            implies ring_seq(c, radius)[i] != ring_seq(c, radius)[j] by {
            lemma_ring_elem(c, radius, i);
            lemma_ring_elem(c, radius, j);
        }
    }
}

/// Law: a spiral of radius `radius >= 0` holds `hex_count(radius) = 3r^2 + 3r + 1` hexes.
pub proof fn law_spiral_size(c: Hex, radius: int)
    requires
        radius >= 0,
    ensures
        spiral_seq(c, radius).len() == hex_count_spec(radius),
    decreases radius,
{
    if radius > 0 {
        law_spiral_size(c, radius - 1);
        assert(hex_count_spec(radius - 1) + 6 * radius == hex_count_spec(radius))
            by (nonlinear_arith);
    }
}

/// Law: the spiral of radius `radius >= 0` around a valid center holds exactly the valid
/// hexes within `radius` steps of it.
pub proof fn law_spiral_membership(c: Hex, radius: int, h: Hex)
    requires
        c.wf(),
        radius >= 0,
        coords_within(c, radius),
    ensures
        spiral_seq(c, radius).contains(h) <==> (h.wf() && hex_dist(c, h) <= radius),
    decreases radius,
{
    if radius == 0 {
        if h.wf() && hex_dist(c, h) == 0 {
            assert(h == c);
            assert(spiral_seq(c, radius)[0] == h);
        }
    } else {
        law_spiral_membership(c, radius - 1, h);
        law_ring_membership(c, radius, h);
        let a = spiral_seq(c, radius - 1);
        let b = ring_seq(c, radius);
        assert(spiral_seq(c, radius) == a + b);
        if (a + b).contains(h) {
            let k = choose|k: int| 0 <= k < (a + b).len() && (a + b)[k] == h;
            if k < a.len() {
                assert(a[k] == h);
            } else {
                assert(b[k - a.len()] == h);
            }
        }
        if a.contains(h) {
            let k = choose|k: int| 0 <= k < a.len() && a[k] == h;
            assert((a + b)[k] == h);
        }
        if b.contains(h) {
            let k = choose|k: int| 0 <= k < b.len() && b[k] == h;
            assert((a + b)[k + a.len()] == h);
        }
    }
}

/// Law: no hex occurs twice in a spiral around a valid center.
pub proof fn law_spiral_distinct(c: Hex, radius: int)
    requires
        c.wf(),
        coords_within(c, radius),
    ensures
        spiral_seq(c, radius).no_duplicates(),
    decreases radius,
{
    if radius > 0 {
        law_spiral_distinct(c, radius - 1);
        law_ring_distinct(c, radius);
        let a = spiral_seq(c, radius - 1);
        let b = ring_seq(c, radius);
        assert(spiral_seq(c, radius) == a + b);
        assert forall|i: int, j: int|
            0 <= i < (a + b).len() && 0 <= j < (a + b).len() && i != j
            implies (a + b)[i] != (a + b)[j] by {
            if i < a.len() && j >= a.len() {
                assert(a.contains(a[i]));
                assert(b.contains(b[j - a.len()]));
                law_spiral_membership(c, radius - 1, a[i]);
                law_ring_membership(c, radius, b[j - a.len()]);
            } else if j < a.len() && i >= a.len() {
                assert(a.contains(a[j]));
                assert(b.contains(b[i - a.len()]));
                law_spiral_membership(c, radius - 1, a[j]);
                law_ring_membership(c, radius, b[i - a.len()]);
            }
        }
    }
}

/// The spiral of radius `radius` around a valid center holds each valid hex within
/// `radius` steps at position `spiral_index(c, h)`.
pub proof fn lemma_spiral_index(c: Hex, radius: int, h: Hex)
    requires
        c.wf(),
        h.wf(),
        radius >= 0,
        coords_within(c, radius),
        hex_dist(c, h) <= radius,
    ensures
        0 <= spiral_index(c, h) < hex_count_spec(radius),
        spiral_seq(c, radius)[spiral_index(c, h)] == h,
    decreases radius,
{
    law_spiral_size(c, radius);
    if radius == 0 {
        assert(h == c);
    } else if hex_dist(c, h) == radius {
        law_spiral_size(c, radius - 1);
        lemma_ring_index(c, radius, h);
        assert(hex_count_spec(radius - 1) + 6 * radius == hex_count_spec(radius))
            by (nonlinear_arith);
    } else {
        lemma_spiral_index(c, radius - 1, h);
        law_spiral_size(c, radius - 1);
        assert(hex_count_spec(radius - 1) <= hex_count_spec(radius)) by (nonlinear_arith)
            requires
                radius > 0,
        ;
    }
}

/// Turning around twice faces the starting direction, a direction is never its own
/// opposite, and opposite directions have opposite unit vectors.
pub proof fn law_opposite_direction(d: Direction)
    ensures
        ({
            let o = Direction::from_index((d.index() + 3) % 6);
            &&& Direction::from_index((o.index() + 3) % 6) == d
            &&& o != d
            &&& dir_vec(o.index()).0 == -dir_vec(d.index()).0
            &&& dir_vec(o.index()).1 == -dir_vec(d.index()).1
            &&& dir_vec(o.index()).2 == -dir_vec(d.index()).2
        }),
{
    match d {
        Direction::E => {},
        Direction::NE => {},
        Direction::NW => {},
        Direction::W => {},
        Direction::SW => {},
        Direction::SE => {},
    }
}

/// A step in a direction followed by a step in the opposite direction comes back to
/// the starting hex, for every hex whose coordinates stay in `i32` one step away.
pub proof fn law_step_back(h: Hex, d: Direction)
    requires
        coords_within(h, 1),
    ensures
        ({
            let o = Direction::from_index((d.index() + 3) % 6);
            let n = step(h, d.index());
            &&& fits_i32(n.q + dir_vec(o.index()).0)
            &&& fits_i32(n.r + dir_vec(o.index()).1)
            &&& fits_i32(n.s + dir_vec(o.index()).2)
            &&& step(n, o.index()) == h
        }),
{
    law_opposite_direction(d);
    match d {
        Direction::E => {},
        Direction::NE => {},
        Direction::NW => {},
        Direction::W => {},
        Direction::SW => {},
        Direction::SE => {},
    }
}

} // verus!
