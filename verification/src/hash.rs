//! `board_state_hash` — a SHA-256 fingerprint of the game state used for replay
//! verification. Byte layout is fixed and target-independent.
use sha2::{Digest, Sha256};
use vstd::prelude::*;

use crate::board::{slot_of, CellState};
use crate::engine::{GameModel, GameState};

verus! {

/// The SHA-256 digest of `data`.
pub uninterp spec fn sha256_digest(data: Seq<u8>) -> Seq<u8>;

/// Calls `sha2::Sha256::digest`, which hashes `data` in one pass; the 32-byte
/// result is a function of `data` alone.
#[verifier::external_body]
pub(crate) fn sha256(data: &[u8]) -> (d: [u8; 32])
    ensures
        d@ == sha256_digest(data@),
{
    let digest = Sha256::digest(data);
    let mut out = [0u8; 32];
    out.copy_from_slice(&digest);
    out
}

/// The byte of a cell: empty 0; live 1..=4 by slot; temp-dead 5..=8 by slot;
/// perma-dead 9.
pub open spec fn cell_code(state: CellState) -> u8 {
    match state {
        CellState::Empty => 0,
        CellState::Live(s) => (1 + slot_of(s)) as u8,
        CellState::TempDead(s) => (5 + slot_of(s)) as u8,
        CellState::PermaDead => 9,
    }
}

/// Encode a cell as one byte: empty 0; live 1..=4 by slot; temp-dead 5..=8 by
/// slot; perma-dead 9.
pub fn cell_byte(state: CellState) -> (b: u8)
    ensures
        b == cell_code(state),
{
    match state {
        CellState::Empty => 0,
        CellState::Live(s) => 1 + s.slot(),
        CellState::TempDead(s) => 5 + s.slot(),
        CellState::PermaDead => 9,
    }
}

/// The little-endian bytes of `x`.
pub open spec fn le_bytes(x: u32) -> Seq<u8> {
    seq![(x % 256) as u8, ((x / 256) % 256) as u8, ((x / 65536) % 256) as u8, (x / 16777216) as u8]
}

/// The little-endian bytes of `x`.
pub fn u32_le_bytes(x: u32) -> (b: [u8; 4])
    ensures
        b@ == le_bytes(x),
{
    let b0 = (x & 0xff) as u8;
    let b1 = ((x >> 8) & 0xff) as u8;
    let b2 = ((x >> 16) & 0xff) as u8;
    let b3 = (x >> 24) as u8;
    assert(b0 == (x % 256) as u8 && b1 == ((x / 256) % 256) as u8 && b2 == ((x / 65536) % 256) as u8
        && b3 == (x / 16777216) as u8) by (bit_vector)
        requires
            b0 == (x & 0xff) as u8,
            b1 == ((x >> 8) & 0xff) as u8,
            b2 == ((x >> 16) & 0xff) as u8,
            b3 == (x >> 24) as u8,
    ;
    let b = [b0, b1, b2, b3];
    assert(b@ =~= le_bytes(x));
    b
}

/// The bytes the state hash covers: `n`, every cell byte in index order, the
/// four scores little-endian, and the current slot.
pub open spec fn state_preimage(g: GameModel) -> Seq<u8> {
    seq![g.board.n] + Seq::new(g.board.len(), |i: int| cell_code(g.board.cells[i])) + le_bytes(
        g.scores[0],
    ) + le_bytes(g.scores[1]) + le_bytes(g.scores[2]) + le_bytes(g.scores[3]) + seq![g.current]
}

/// SHA-256 over `(n, every cell byte in index order, scores LE, current slot)`.
pub fn board_state_hash(gs: &GameState) -> (h: [u8; 32])
    requires
        gs.wf(),
    ensures
        h@ == sha256_digest(state_preimage(gs@)),
{
    let board = gs.board_ref();
    let ghost g = gs@;
    let mut bytes: Vec<u8> = Vec::new();
    bytes.push(board.edge());
    let len = board.len();
    let mut idx: usize = 0;
    while idx < len
        invariant
            board.wf(),
            board@ == g.board,
            len == g.board.len(),
            idx <= len,
            bytes@ =~= seq![g.board.n] + Seq::new(idx as nat, |i: int| cell_code(g.board.cells[i])),
        decreases len - idx,
    {
        bytes.push(cell_byte(board.get(idx)));
        idx += 1;
    }
    let scores = gs.score_array();
    let mut s: usize = 0;
    let ghost prefix = bytes@;
    while s < 4
        invariant
            s <= 4,
            scores@ == g.scores,
            g.scores.len() == 4,
            bytes@ =~= prefix + if s == 0 {
                seq![]
            } else if s == 1 {
                le_bytes(g.scores[0])
            } else if s == 2 {
                le_bytes(g.scores[0]) + le_bytes(g.scores[1])
            } else if s == 3 {
                le_bytes(g.scores[0]) + le_bytes(g.scores[1]) + le_bytes(g.scores[2])
            } else {
                le_bytes(g.scores[0]) + le_bytes(g.scores[1]) + le_bytes(g.scores[2]) + le_bytes(g.scores[3])
            },
        decreases 4 - s,
    {
        let le = u32_le_bytes(scores[s]);
        let mut t: usize = 0;
        let ghost before = bytes@;
        while t < 4
            invariant
                t <= 4,
                le@ == le_bytes(scores@[s as int]),
                bytes@ =~= before + le@.take(t as int),
            decreases 4 - t,
        {
            bytes.push(le[t]);
            t += 1;
        }
        assert(le@.take(4) =~= le@);
        s += 1;
    }
    bytes.push(gs.current_slot());
    assert(bytes@ =~= state_preimage(g));
    sha256(bytes.as_slice())
}

} // verus!
