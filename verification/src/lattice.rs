//! FCC lattice geometry and Morton ordering.
//!
//! Cells are the integer points `(i, j, k)` of the `n³` box with `i + j + k`
//! even. Two cells are face-adjacent when their displacement has exactly two
//! `±1` components and one `0` component: the twelve nearest cells.
use vstd::prelude::*;

use crate::board::Coord;

verus! {

/// Maximum face-neighbors for any cell (interior cells have exactly this many).
pub const MAX_NEIGHBORS: usize = 12;

/// The twelve face-neighbor displacements: exactly two of `(di, dj, dk)` are
/// `±1`, the third is `0`. Listed in a fixed, deterministic order.
pub const NEIGHBOR_OFFSETS: [(i8, i8, i8); 12] = [
    (1, 1, 0),
    (1, -1, 0),
    (-1, 1, 0),
    (-1, -1, 0),
    (1, 0, 1),
    (1, 0, -1),
    (-1, 0, 1),
    (-1, 0, -1),
    (0, 1, 1),
    (0, 1, -1),
    (0, -1, 1),
    (0, -1, -1),
];

/// Absolute difference of two lattice coordinates.
pub open spec fn axis_dist(a: u8, b: u8) -> int {
    if a >= b { a - b } else { b - a }
}

/// Face adjacency on the FCC lattice: two axes differ by exactly one, the
/// third axis agrees.
pub open spec fn fcc_adjacent(a: Coord, b: Coord) -> bool {
    let di = axis_dist(a.i, b.i);
    let dj = axis_dist(a.j, b.j);
    let dk = axis_dist(a.k, b.k);
    di <= 1 && dj <= 1 && dk <= 1 && di + dj + dk == 2
}

/// Bit `b` of `v` (for `b < 10`) lands on bit `3b`; all other bits are zero.
pub open spec fn spread_spec(v: u32) -> u32 {
    (v & 1) | (((v >> 1) & 1) << 3) | (((v >> 2) & 1) << 6) | (((v >> 3) & 1) << 9)
        | (((v >> 4) & 1) << 12) | (((v >> 5) & 1) << 15) | (((v >> 6) & 1) << 18)
        | (((v >> 7) & 1) << 21) | (((v >> 8) & 1) << 24) | (((v >> 9) & 1) << 27)
}

/// The 3D Morton (Z-order) key of a coordinate: the bits of `i`, `j`, `k`
/// interleaved, `i` lowest.
pub open spec fn morton_spec(c: Coord) -> u32 {
    spread_spec(c.i as u32) | (spread_spec(c.j as u32) << 1) | (spread_spec(c.k as u32) << 2)
}

/// Spread the low 10 bits of `v` so each occupies every third bit position
/// (`abc` → `a..b..c`). Supports board sizes up to N = 1024.
fn spread3(v: u32) -> (x: u32)
    ensures
        x == spread_spec(v),
{
    let x0 = v & 0x3ff;
    let x1 = (x0 | (x0 << 16)) & 0x030000ff;
    let x2 = (x1 | (x1 << 8)) & 0x0300f00f;
    let x3 = (x2 | (x2 << 4)) & 0x030c30c3;
    let x4 = (x3 | (x3 << 2)) & 0x09249249;
    assert(x4 == spread_spec(v)) by (bit_vector)
        requires
            x0 == v & 0x3ff,
            x1 == (x0 | (x0 << 16)) & 0x030000ff,
            x2 == (x1 | (x1 << 8)) & 0x0300f00f,
            x3 == (x2 | (x2 << 4)) & 0x030c30c3,
            x4 == (x3 | (x3 << 2)) & 0x09249249,
    ;
    x4
}

/// 3D Morton (Z-order) code for a cell. Canonical, monotone, and
/// platform-independent — the ordering Algorithm A walks.
pub fn morton_code(c: Coord) -> (m: u32)
    ensures
        m == morton_spec(c),
{
    spread3(c.i as u32) | (spread3(c.j as u32) << 1) | (spread3(c.k as u32) << 2)
}

/// Morton keys of two coordinates agree only when the coordinates agree.
pub proof fn lemma_morton_injective(a: Coord, b: Coord)
    ensures
        morton_spec(a) == morton_spec(b) ==> a == b,
{
    let ai = a.i as u32;
    let aj = a.j as u32;
    let ak = a.k as u32;
    let bi = b.i as u32;
    let bj = b.j as u32;
    let bk = b.k as u32;
    assert(
        (spread_spec(ai) | (spread_spec(aj) << 1) | (spread_spec(ak) << 2))
            == (spread_spec(bi) | (spread_spec(bj) << 1) | (spread_spec(bk) << 2))
        ==> (ai == bi && aj == bj && ak == bk)) by (bit_vector)
        requires
            ai < 256, aj < 256, ak < 256, bi < 256, bj < 256, bk < 256,
    ;
}

/// True when `a` and `b` are face-adjacent on the FCC lattice: they differ by
/// ±1 on exactly two axes and agree on the third.
pub fn is_face_adjacent(a: Coord, b: Coord) -> (r: bool)
    ensures
        r == fcc_adjacent(a, b),
{
    let di: u8 = if a.i >= b.i { a.i - b.i } else { b.i - a.i };
    let dj: u8 = if a.j >= b.j { a.j - b.j } else { b.j - a.j };
    let dk: u8 = if a.k >= b.k { a.k - b.k } else { b.k - a.k };
    di <= 1 && dj <= 1 && dk <= 1 && di + dj + dk == 2
}

} // verus!
