//! Text-mode play support: the symbol drawn for each cell, what a turn changed
//! on the board, and which stewards won.
use vstd::prelude::*;

use crate::board::{slot_of, Board, BoardModel, CellState, Steward};
use crate::mesh::mesh_size;
use crate::ATARI_SIZE;

verus! {

/// The symbol of cell `idx`: `*` for a live cell of a mesh in atari, else
/// `S/L/V/K` by steward; `.` empty, `t` smouldering, `X` perma-dead.
pub open spec fn cell_char_of(m: BoardModel, idx: int) -> char {
    match m.cells[idx] {
        CellState::Live(s) => if mesh_size(m, idx) == ATARI_SIZE {
            '*'
        } else {
            match s {
                Steward::Sienna => 'S',
                Steward::Lapis => 'L',
                Steward::Verdigris => 'V',
                Steward::Kaolin => 'K',
            }
        },
        CellState::Empty => '.',
        CellState::TempDead(_) => 't',
        CellState::PermaDead => 'X',
    }
}

/// The symbol drawn for cell `idx`.
pub fn cell_char(board: &Board, idx: usize) -> (r: char)
    requires
        board.wf(),
        idx < board@.len(),
    ensures
        r == cell_char_of(board@, idx as int),
{
    match board.get(idx) {
        CellState::Live(s) => {
            if board.mesh_containing(idx).len() == ATARI_SIZE {
                return '*';
            }
            match s {
                Steward::Sienna => 'S',
                Steward::Lapis => 'L',
                Steward::Verdigris => 'V',
                Steward::Kaolin => 'K',
            }
        },
        CellState::Empty => '.',
        CellState::TempDead(_) => 't',
        CellState::PermaDead => 'X',
    }
}

/// What one turn changed: cells that collapsed (live to smouldering), and
/// crater cells that came back live or became perma-dead.
#[derive(Clone, Copy, Debug, PartialEq, Eq, Structural)]
pub struct TurnEvents {
    pub collapsed: usize,
    pub reborn_live: usize,
    pub reborn_perma: usize,
}

/// The counts of the three transitions over the first `t` cells.
pub open spec fn events_upto(before: Seq<CellState>, after: Seq<CellState>, t: int) -> (int, int, int)
    decreases t,
{
    if t <= 0 {
        (0, 0, 0)
    } else {
        let p = events_upto(before, after, t - 1);
        let b = before[t - 1];
        let a = after[t - 1];
        (
            p.0 + if b is Live && a is TempDead {
                1int
            } else {
                0int
            },
            p.1 + if b is TempDead && a is Live {
                1int
            } else {
                0int
            },
            p.2 + if b is TempDead && a == CellState::PermaDead {
                1int
            } else {
                0int
            },
        )
    }
}

/// Count how the cells changed from `before` to the board now, over the cells
/// both cover.
pub fn turn_events(before: &[CellState], board: &Board) -> (r: TurnEvents)
    requires
        board.wf(),
    ensures
        ({
            let t = if before@.len() < board@.len() {
                before@.len() as int
            } else {
                board@.len() as int
            };
            let e = events_upto(before@, board@.cells, t);
            &&& r.collapsed == e.0
            &&& r.reborn_live == e.1
            &&& r.reborn_perma == e.2
        }),
{
    let len = if before.len() < board.len() {
        before.len()
    } else {
        board.len()
    };
    let mut collapsed: usize = 0;
    let mut reborn_live: usize = 0;
    let mut reborn_perma: usize = 0;
    let mut idx: usize = 0;
    while idx < len
        invariant
            board.wf(),
            len <= before@.len(),
            len <= board@.len(),
            idx <= len,
            collapsed == events_upto(before@, board@.cells, idx as int).0,
            reborn_live == events_upto(before@, board@.cells, idx as int).1,
            reborn_perma == events_upto(before@, board@.cells, idx as int).2,
            collapsed <= idx && reborn_live <= idx && reborn_perma <= idx,
        decreases len - idx,
    {
        let b = before[idx];
        let a = board.get(idx);
        match (b, a) {
            (CellState::Live(_), CellState::TempDead(_)) => collapsed += 1,
            (CellState::TempDead(_), CellState::Live(_)) => reborn_live += 1,
            (CellState::TempDead(_), CellState::PermaDead) => reborn_perma += 1,
            _ => {},
        }
        idx += 1;
    }
    TurnEvents { collapsed, reborn_live, reborn_perma }
}

/// The lowest of four scores.
pub open spec fn min_score(s: Seq<u32>) -> u32 {
    let a = if s[0] <= s[1] {
        s[0]
    } else {
        s[1]
    };
    let b = if s[2] <= s[3] {
        s[2]
    } else {
        s[3]
    };
    if a <= b {
        a
    } else {
        b
    }
}

/// The lowest of four scores is at most every one of them and is one of them:
/// the winners are exactly the stewards with the fewest perma-dead.
pub proof fn lemma_min_score_is_least(s: Seq<u32>)
    requires
        s.len() == 4,
    ensures
        forall|slot: int| 0 <= slot < 4 ==> min_score(s) <= #[trigger] s[slot],
        exists|slot: int| 0 <= slot < 4 && #[trigger] s[slot] == min_score(s),
{
    if min_score(s) == s[0] {
        assert(s[0] == min_score(s));
    } else if min_score(s) == s[1] {
        assert(s[1] == min_score(s));
    } else if min_score(s) == s[2] {
        assert(s[2] == min_score(s));
    } else {
        assert(s[3] == min_score(s));
    }
}

/// The lowest score and the slots that reached it, ascending: lowest perma-dead
/// wins, and ties share the win.
pub fn winners(scores: [u32; 4]) -> (r: (u32, Vec<u8>))
    ensures
        r.0 == min_score(scores@),
        forall|slot: int| 0 <= slot < 4 ==> r.0 <= #[trigger] scores@[slot],
        exists|slot: int| 0 <= slot < 4 && #[trigger] scores@[slot] == r.0,
        forall|q: int| 0 <= q < r.1@.len() ==> #[trigger] r.1@[q] < 4,
        forall|slot: int| 0 <= slot < 4 ==> (r.1@.contains(slot as u8) <==> scores@[slot] == r.0),
        forall|a: int, b: int| 0 <= a < b < r.1@.len() ==> r.1@[a] < r.1@[b],
{
    let a = if scores[0] <= scores[1] {
        scores[0]
    } else {
        scores[1]
    };
    let b = if scores[2] <= scores[3] {
        scores[2]
    } else {
        scores[3]
    };
    let min = if a <= b {
        a
    } else {
        b
    };
    let mut slots: Vec<u8> = Vec::new();
    let mut s: usize = 0;
    while s < 4
        invariant
            s <= 4,
            min == min_score(scores@),
            forall|q: int| 0 <= q < slots@.len() ==> #[trigger] slots@[q] < s,
            forall|x: int| 0 <= x < s ==> (slots@.contains(x as u8) <==> scores@[x] == min),
            forall|x: u8| s <= x < 4 ==> !slots@.contains(x),
            forall|p: int, q: int| 0 <= p < q < slots@.len() ==> slots@[p] < slots@[q],
        decreases 4 - s,
    {
        if scores[s] == min {
            let ghost old_slots = slots@;
            slots.push(s as u8);
            proof {
                assert forall|x: int| 0 <= x <= s implies (slots@.contains(x as u8) <==> scores@[x] == min) by {
                    if x < s {
                        if slots@.contains(x as u8) {
                            let w = choose|w: int| 0 <= w < slots@.len() && slots@[w] == x as u8;
                            if w < old_slots.len() {
                                assert(old_slots[w] == x as u8);
                            }
                        }
                        if old_slots.contains(x as u8) {
                            let w = choose|w: int| 0 <= w < old_slots.len() && old_slots[w] == x as u8;
                            assert(slots@[w] == x as u8);
                        }
                    } else {
                        assert(slots@[slots@.len() - 1] == s as u8);
                    }
                }
                assert forall|x: u8| s < x < 4 implies !slots@.contains(x) by {
                    if slots@.contains(x) {
                        let w = choose|w: int| 0 <= w < slots@.len() && slots@[w] == x;
                        if w < old_slots.len() {
                            assert(old_slots[w] < s);
                        }
                    }
                }
            }
        } else {
            proof {
                assert(!slots@.contains(s as u8));
            }
        }
        s += 1;
    }
    proof {
        lemma_min_score_is_least(scores@);
    }
    (min, slots)
}

} // verus!
