//! What the 3-D scene redraws after a move: which positions changed state and
//! which came alive, which live cells sit in an atari mesh, and the glass bonds
//! between face-adjacent live cells of one steward.
use vstd::prelude::*;

use crate::board::{Board, BoardModel, CellState};
use crate::mesh::mesh_size;
use crate::neighbor_list::{neighbor_items, neighbor_list_as_slice};
use crate::ATARI_SIZE;

verus! {

/// Position `x` must be redrawn: on a fresh game every position is, otherwise
/// those whose state differs from `prev`.
pub open spec fn must_redraw(prev: Seq<CellState>, m: BoardModel, fresh: bool, x: int) -> bool {
    fresh || prev[x] != m.cells[x]
}

/// Position `x` just came alive: not on a fresh game, its state changed, and
/// it is now live.
pub open spec fn came_alive(prev: Seq<CellState>, m: BoardModel, fresh: bool, x: int) -> bool {
    !fresh && prev[x] != m.cells[x] && m.cells[x] is Live
}

/// Per position: whether it must be redrawn, and whether it just came alive.
pub fn board_transitions(prev: &[CellState], board: &Board, fresh: bool) -> (r: (Vec<bool>, Vec<bool>))
    requires
        board.wf(),
        prev@.len() >= board@.len(),
    ensures
        r.0@.len() == board@.len(),
        r.1@.len() == board@.len(),
        forall|x: int| 0 <= x < board@.len() ==> #[trigger] r.0@[x] == must_redraw(prev@, board@, fresh, x),
        forall|x: int| 0 <= x < board@.len() ==> #[trigger] r.1@[x] == came_alive(prev@, board@, fresh, x),
{
    let len = board.len();
    let mut changed: Vec<bool> = Vec::new();
    let mut born: Vec<bool> = Vec::new();
    let mut idx: usize = 0;
    while idx < len
        invariant
            board.wf(),
            len == board@.len(),
            prev@.len() >= len,
            idx <= len,
            changed@.len() == idx,
            born@.len() == idx,
            forall|x: int| 0 <= x < idx ==> #[trigger] changed@[x] == must_redraw(prev@, board@, fresh, x),
            forall|x: int| 0 <= x < idx ==> #[trigger] born@[x] == came_alive(prev@, board@, fresh, x),
        decreases len - idx,
    {
        let next = board.get(idx);
        let differs = prev[idx] != next;
        changed.push(fresh || differs);
        let live = match next {
            CellState::Live(_) => true,
            _ => false,
        };
        born.push(!fresh && differs && live);
        idx += 1;
    }
    (changed, born)
}

/// Per position: it is a live cell of a mesh in atari.
pub fn atari_flags(board: &Board) -> (r: Vec<bool>)
    requires
        board.wf(),
    ensures
        r@.len() == board@.len(),
        forall|x: int|
            0 <= x < board@.len() ==> #[trigger] r@[x] == (board@.cells[x] is Live && mesh_size(board@, x)
                == ATARI_SIZE),
{
    let len = board.len();
    let mut out: Vec<bool> = Vec::new();
    let mut idx: usize = 0;
    while idx < len
        invariant
            board.wf(),
            len == board@.len(),
            idx <= len,
            out@.len() == idx,
            forall|x: int|
                0 <= x < idx ==> #[trigger] out@[x] == (board@.cells[x] is Live && mesh_size(board@, x)
                    == ATARI_SIZE),
        decreases len - idx,
    {
        let flag = match board.get(idx) {
            CellState::Live(_) => board.mesh_containing(idx).len() == ATARI_SIZE,
            _ => false,
        };
        out.push(flag);
        idx += 1;
    }
    out
}

/// `(a, b)` is a bond: `a < b`, both live in one steward's colour, and face
/// adjacent.
pub open spec fn is_bond(m: BoardModel, a: int, b: int) -> bool {
    &&& 0 <= a < b < m.len()
    &&& m.cells[a] is Live
    &&& m.cells[b] == m.cells[a]
    &&& m.adjacent(a, b)
}

/// Every bond once, grouped by its first cell in ascending order.
pub fn bond_pairs(board: &Board) -> (r: Vec<(usize, usize)>)
    requires
        board.wf(),
    ensures
        forall|a: usize, b: usize| r@.contains((a, b)) <==> is_bond(board@, a as int, b as int),
        r@.no_duplicates(),
        forall|p: int, q: int| 0 <= p < q < r@.len() ==> r@[p].0 <= r@[q].0,
{
    let ghost m = board@;
    let len = board.len();
    let mut out: Vec<(usize, usize)> = Vec::new();
    let mut idx: usize = 0;
    while idx < len
        invariant
            board.wf(),
            board@ == m,
            len == m.len(),
            idx <= len,
            forall|q: int| 0 <= q < out@.len() ==> is_bond(m, out@[q].0 as int, out@[q].1 as int),
            forall|q: int| 0 <= q < out@.len() ==> (#[trigger] out@[q]).0 < idx,
            forall|a: usize, b: usize| a < idx && is_bond(m, a as int, b as int) ==> out@.contains((a, b)),
            out@.no_duplicates(),
            forall|p: int, q: int| 0 <= p < q < out@.len() ==> out@[p].0 <= out@[q].0,
        decreases len - idx,
    {
        let state = board.get(idx);
        if let CellState::Live(_) = state {
            let nbs = board.neighbors(idx);
            let sl = neighbor_list_as_slice(&nbs);
            let ghost before = out@;
            let mut t: usize = 0;
            while t < sl.len()
                invariant
                    board.wf(),
                    board@ == m,
                    len == m.len(),
                    idx < len,
                    m.cells[idx as int] == state,
                    state is Live,
                    sl@ == neighbor_items(nbs),
                    crate::board::is_neighbor_list(m, idx as int, sl@),
                    sl@.no_duplicates(),
                    t <= sl@.len(),
                    before.len() <= out@.len(),
                    forall|q: int| 0 <= q < before.len() ==> out@[q] == before[q],
                    forall|q: int| 0 <= q < before.len() ==> (#[trigger] before[q]).0 < idx,
                    forall|q: int| before.len() <= q < out@.len() ==> (#[trigger] out@[q]).0 == idx,
                    forall|q: int|
                        #![trigger out@[q]]
                        before.len() <= q < out@.len() ==> exists|u: int|
                            0 <= u < t && #[trigger] sl@[u] == out@[q].1,
                    forall|q: int| 0 <= q < out@.len() ==> is_bond(m, out@[q].0 as int, out@[q].1 as int),
                    forall|u: int|
                        0 <= u < t && is_bond(m, idx as int, sl@[u] as int) ==> out@.contains(
                            (idx, #[trigger] sl@[u]),
                        ),
                    forall|a: usize, b: usize| a < idx && is_bond(m, a as int, b as int) ==> out@.contains((a, b)),
                    out@.no_duplicates(),
                    forall|p: int, q: int| 0 <= p < q < out@.len() ==> out@[p].0 <= out@[q].0,
                decreases sl@.len() - t,
            {
                let nb = sl[t];
                assert(m.adjacent(idx as int, sl@[t as int] as int));
                if nb > idx && board.get(nb) == state {
                    let ghost prior = out@;
                    out.push((idx, nb));
                    proof {
                        let last = out@.len() - 1;
                        assert(out@[last] == (idx, nb));
                        assert forall|q: int| 0 <= q < last implies out@[q] == prior[q] by {}
                        assert forall|p: int, q: int| 0 <= p < q < out@.len() implies out@[p] != out@[q] by {
                            if q == last {
                                if p < before.len() {
                                    assert(before[p].0 < idx);
                                    assert(out@[p] == before[p]);
                                } else {
                                    let u = choose|u: int| 0 <= u < t && #[trigger] sl@[u] == prior[p].1;
                                    assert(sl@[u] != sl@[t as int]);
                                }
                            } else {
                                assert(prior[p] != prior[q]);
                            }
                        }
                        assert forall|p: int, q: int| 0 <= p < q < out@.len() implies out@[p].0 <= out@[q].0 by {
                            if q == last {
                                if p < before.len() {
                                    assert(before[p].0 < idx);
                                    assert(out@[p] == before[p]);
                                } else {
                                    assert(prior[p].0 == idx);
                                }
                            } else {
                                assert(prior[p].0 <= prior[q].0);
                            }
                        }
                        assert forall|a: usize, b: usize| a < idx && is_bond(m, a as int, b as int) implies out@.contains(
                            (a, b),
                        ) by {
                            let w = choose|w: int| 0 <= w < prior.len() && prior[w] == (a, b);
                            assert(out@[w] == prior[w]);
                        }
                        assert forall|u: int|
                            0 <= u <= t && is_bond(m, idx as int, sl@[u] as int) implies out@.contains(
                            (idx, #[trigger] sl@[u]),
                        ) by {
                            if u < t {
                                let w = choose|w: int| 0 <= w < prior.len() && prior[w] == (idx, sl@[u]);
                                assert(out@[w] == prior[w]);
                            } else {
                                assert(out@[last] == (idx, sl@[u]));
                            }
                        }
                        assert forall|q: int| #![trigger out@[q]] before.len() <= q < out@.len() implies exists|u: int|
                            0 <= u < t + 1 && #[trigger] sl@[u] == out@[q].1 by {
                            if q == last {
                                assert(sl@[t as int] == out@[q].1);
                            } else {
                                let u = choose|u: int| 0 <= u < t && #[trigger] sl@[u] == prior[q].1;
                                assert(sl@[u] == out@[q].1);
                            }
                        }
                    }
                }
                t += 1;
            }
            proof {
                assert forall|b: usize| is_bond(m, idx as int, b as int) implies out@.contains((idx, b)) by {
                    assert(m.adjacent(idx as int, b as int));
                    assert(sl@.contains(b));
                    let u = choose|u: int| 0 <= u < sl@.len() && sl@[u] == b;
                    assert(is_bond(m, idx as int, sl@[u] as int));
                }
                assert forall|q: int| 0 <= q < out@.len() implies (#[trigger] out@[q]).0 < idx + 1 by {
                    if q < before.len() {
                        assert(out@[q] == before[q]);
                    }
                }
            }
        } else {
            proof {
                assert forall|b: usize| !is_bond(m, idx as int, b as int) by {}
            }
        }
        idx += 1;
    }
    out
}


/// What a position's mist is doing.
#[derive(Clone, Copy, Debug, PartialEq, Eq, Structural)]
pub enum MistPhase {
    /// No mist.
    Hidden,
    /// Collapse: black mist materialises.
    Appear,
    /// Steady black mist over a smouldering cell.
    Black,
    /// Dispersal to perma-dead: black fades to green.
    ToGreen,
    /// Steady green mist over a perma-dead cell.
    Green,
    /// Dispersal back to life: the mist dissolves.
    FadeOut,
}

/// The mist phase a change from `prev` to `next` starts: a collapse raises
/// black mist, a crater cell turning perma-dead fades it to green, a crater
/// cell coming back (live or empty) dissolves it; any other change to
/// perma-dead shows green at rest, to smouldering raises black mist, and to a
/// live or empty cell hides the mist.
pub open spec fn transition_phase_of(prev: CellState, next: CellState) -> MistPhase {
    if prev is Live && next is TempDead {
        MistPhase::Appear
    } else if prev is TempDead && next == CellState::PermaDead {
        MistPhase::ToGreen
    } else if prev is TempDead && (next is Live || next == CellState::Empty) {
        MistPhase::FadeOut
    } else if next == CellState::PermaDead {
        MistPhase::Green
    } else if next is TempDead {
        MistPhase::Appear
    } else {
        MistPhase::Hidden
    }
}

/// The mist phase a change from `prev` to `next` starts.
pub fn transition_phase(prev: CellState, next: CellState) -> (r: MistPhase)
    ensures
        r == transition_phase_of(prev, next),
{
    match (prev, next) {
        (CellState::Live(_), CellState::TempDead(_)) => MistPhase::Appear,
        (CellState::TempDead(_), CellState::PermaDead) => MistPhase::ToGreen,
        (CellState::TempDead(_), CellState::Live(_)) => MistPhase::FadeOut,
        (CellState::TempDead(_), CellState::Empty) => MistPhase::FadeOut,
        (_, CellState::PermaDead) => MistPhase::Green,
        (_, CellState::TempDead(_)) => MistPhase::Appear,
        (_, CellState::Live(_)) | (_, CellState::Empty) => MistPhase::Hidden,
    }
}

/// The resting mist phase of a cell state: green over perma-dead, black over
/// a smouldering cell, none otherwise.
pub fn rest_phase(state: CellState) -> (r: MistPhase)
    ensures
        r == match state {
            CellState::PermaDead => MistPhase::Green,
            CellState::TempDead(_) => MistPhase::Black,
            _ => MistPhase::Hidden,
        },
{
    match state {
        CellState::PermaDead => MistPhase::Green,
        CellState::TempDead(_) => MistPhase::Black,
        _ => MistPhase::Hidden,
    }
}

} // verus!
