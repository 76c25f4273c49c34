//! The no-crossing rule: different-colour bonds may not cross on a shared face.
//!
//! A bond joins two face-adjacent same-colour live cells; on the FCC lattice it
//! is the face-diagonal of a unit square. A placement of colour `X` at `C` is
//! illegal if it would create a bond `C–N` whose face's opposite diagonal
//! `R–S` is already a live bond of a different colour.
use vstd::prelude::*;

use crate::board::{
    even_parity, is_cell, is_neighbor_list, lemma_index_of, Board, BoardModel, CellState, Coord,
    Steward,
};
use crate::lattice::fcc_adjacent;
use crate::neighbor_list::{neighbor_items, neighbor_list_as_slice};

verus! {

/// Coordinate `ax` (0 = i, 1 = j, 2 = k) of `c`.
pub open spec fn axis(c: Coord, ax: int) -> u8 {
    if ax == 0 {
        c.i
    } else if ax == 1 {
        c.j
    } else {
        c.k
    }
}

/// `c` with coordinate `ax` replaced by `v`.
pub open spec fn with_axis(c: Coord, ax: int, v: u8) -> Coord {
    if ax == 0 {
        Coord { i: v, ..c }
    } else if ax == 1 {
        Coord { j: v, ..c }
    } else {
        Coord { k: v, ..c }
    }
}

/// The first axis on which `c` and `nb` differ (0 when none does).
pub open spec fn first_diff_axis(c: Coord, nb: Coord) -> int {
    if c.i != nb.i {
        0
    } else if c.j != nb.j {
        1
    } else if c.k != nb.k {
        2
    } else {
        0
    }
}

/// The second axis on which `c` and `nb` differ (0 when fewer than two do).
pub open spec fn second_diff_axis(c: Coord, nb: Coord) -> int {
    if c.i != nb.i {
        if c.j != nb.j {
            1
        } else if c.k != nb.k {
            2
        } else {
            0
        }
    } else if c.j != nb.j {
        if c.k != nb.k {
            2
        } else {
            0
        }
    } else {
        0
    }
}

/// The other two corners of the unit square whose diagonal is `c`–`nb`: `c`
/// stepped toward `nb` along the first, resp. second, differing axis.
pub open spec fn opposite_diagonal_spec(c: Coord, nb: Coord) -> (Coord, Coord) {
    let a0 = first_diff_axis(c, nb);
    let a1 = second_diff_axis(c, nb);
    (with_axis(c, a0, axis(nb, a0)), with_axis(c, a1, axis(nb, a1)))
}

/// The other two corners `(R, S)` of the unit square whose first diagonal is the
/// bond `c`–`nb`. `c` and `nb` are face-adjacent (differ in exactly two axes by
/// 1), so `R` and `S` are the cells reached by taking exactly one of those two
/// steps.
pub fn opposite_diagonal(c: Coord, nb: Coord) -> (r: (Coord, Coord))
    ensures
        r == opposite_diagonal_spec(c, nb),
{
    let cc = [c.i, c.j, c.k];
    let nn = [nb.i, nb.j, nb.k];
    let mut diff = [0usize; 2];
    let mut count: usize = 0;
    let mut ax: usize = 0;
    while ax < 3
        invariant
            ax <= 3,
            cc@ == seq![c.i, c.j, c.k],
            nn@ == seq![nb.i, nb.j, nb.k],
            count <= ax,
            count == 0 ==> forall|q: int| 0 <= q < ax ==> axis(c, q) == axis(nb, q),
            count >= 1 ==> diff[0] == first_diff_axis(c, nb) && axis(c, diff[0] as int) != axis(nb, diff[0] as int),
            count == 1 ==> forall|q: int| 0 <= q < ax && q != diff[0] ==> axis(c, q) == axis(nb, q),
            count == 1 ==> diff[1] == 0,
            count == 0 ==> diff[0] == 0 && diff[1] == 0,
            count >= 2 ==> diff[1] == second_diff_axis(c, nb),
            diff[0] < 3,
            diff[1] < 3,
            count >= 1 ==> diff[0] < ax,
        decreases 3 - ax,
    {
        assert(cc@[ax as int] == axis(c, ax as int) && nn@[ax as int] == axis(nb, ax as int)) by {
            if ax == 0 {
            } else if ax == 1 {
            } else {
            }
        }
        if cc[ax] != nn[ax] {
            proof {
                if count == 0 && ax >= 1 {
                    assert(axis(c, 0) == axis(nb, 0));
                }
                if count == 0 && ax >= 2 {
                    assert(axis(c, 1) == axis(nb, 1));
                }
                if count == 1 && ax >= 1 && diff[0] != 0 {
                    assert(axis(c, 0) == axis(nb, 0));
                }
                if count == 1 && ax >= 2 && diff[0] != 1 {
                    assert(axis(c, 1) == axis(nb, 1));
                }
            }
            if count < 2 {
                let ghost d0 = diff[0];
                diff[count] = ax;
                proof {
                    if count == 1 {
                        assert(diff[0] == d0);
                        assert(diff[1] == ax);
                        if d0 == 0 && ax == 1 {
                            assert(second_diff_axis(c, nb) == 1);
                        } else if d0 == 0 && ax == 2 {
                            assert(c.j == nb.j);
                            assert(second_diff_axis(c, nb) == 2);
                        } else {
                            assert(d0 == 1 && ax == 2);
                            assert(second_diff_axis(c, nb) == 2);
                        }
                    }
                }
            }
            count += 1;
        }
        ax += 1;
    }
    let mut r = cc;
    r[diff[0]] = nn[diff[0]];
    let mut s = cc;
    s[diff[1]] = nn[diff[1]];
    (Coord::new(r[0], r[1], r[2]), Coord::new(s[0], s[1], s[2]))
}

/// The crossing rule as stated: placing `color` at `cell` would bond it to a
/// live same-colour neighbour whose face's opposite diagonal is a live bond of
/// another colour.
pub open spec fn crossing_illegal(m: BoardModel, cell: Coord, color: Steward) -> bool {
    match m.index_of(cell) {
        None => false,
        Some(ci) => exists|nb: int|
            #[trigger] m.adjacent(ci, nb) && m.cells[nb] == CellState::Live(color) && {
                let (r, s) = opposite_diagonal_spec(cell, m.coords[nb]);
                &&& m.index_of(r) is Some
                &&& m.index_of(s) is Some
                &&& m.cells[m.index_of(r)->0] matches CellState::Live(y)
                &&& m.cells[m.index_of(s)->0] == CellState::Live(y)
                &&& y != color
            },
    }
}

/// On the FCC board the two diagonals of a face never both join cells, so no
/// placement is ever forbidden by the crossing rule.
pub proof fn lemma_no_crossing_possible(m: BoardModel, cell: Coord, color: Steward)
    requires
        m.wf(),
    ensures
        !crossing_illegal(m, cell, color),
{
    lemma_index_of(m, cell);
    if let Some(ci) = m.index_of(cell) {
        assert forall|nb: int| #[trigger] m.adjacent(ci, nb) implies m.index_of(
            opposite_diagonal_spec(cell, m.coords[nb]).0,
        ) is None by {
            let r = opposite_diagonal_spec(cell, m.coords[nb]).0;
            assert(is_cell(m.coords[ci], m.n));
            assert(!even_parity(r));
        }
    }
}

/// Would placing `color` at `cell` create any same-colour bond whose face's
/// opposite diagonal is already a live bond of a DIFFERENT colour? (At most one
/// diagonal per face may be a live cross-bond; first-come-first-served.)
pub fn is_crossing_illegal(board: &Board, cell: Coord, color: Steward) -> (r: bool)
    requires
        board.wf(),
    ensures
        r == crossing_illegal(board@, cell, color),
        !r,
{
    proof {
        lemma_index_of(board@, cell);
        lemma_no_crossing_possible(board@, cell, color);
    }
    let cidx = match board.index(cell) {
        Some(i) => i,
        None => return false,
    };
    let nbs = board.neighbors(cidx);
    let sl = neighbor_list_as_slice(&nbs);
    let mut t: usize = 0;
    while t < sl.len()
        invariant
            board.wf(),
            cidx < board@.len(),
            board@.coords[cidx as int] == cell,
            is_neighbor_list(board@, cidx as int, sl@),
            t <= sl@.len(),
            !crossing_illegal(board@, cell, color),
        decreases sl@.len() - t,
    {
        let nb = sl[t];
        assert(board@.adjacent(cidx as int, nb as int));
        // A bond forms only with a same-colour live neighbour.
        if board.get(nb) != CellState::Live(color) {
            t += 1;
            continue;
        }
        let (r, s) = opposite_diagonal(cell, board.coord(nb));
        // The opposite corners have odd parity, so they are never cells.
        if let (Some(ri), Some(si)) = (board.index(r), board.index(s)) {
            if let (CellState::Live(yr), CellState::Live(ys)) = (board.get(ri), board.get(si)) {
                if yr == ys && yr != color {
                    return true;
                }
            }
        }
        t += 1;
    }
    false
}

} // verus!
