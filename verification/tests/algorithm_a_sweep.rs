//! Algorithm A across board edge lengths: determinism and conservation of
//! the collapsed cells for connected meshes grown from a corner.

use std::collections::BTreeSet;

use ciris_game_engine_core::{algorithm_a, Board, Coord};

/// Grow a connected component of `count` cells from `start` on `board`.
/// Growth is deterministic: always extends by the smallest-index unused
/// face-neighbor of any already-included cell.
fn grow_connected(board: &Board, start: usize, count: usize) -> Option<Vec<usize>> {
    if start >= board.len() {
        return None;
    }
    let mut comp = vec![start];
    let mut set: BTreeSet<usize> = BTreeSet::new();
    set.insert(start);
    while comp.len() < count {
        let mut next = None;
        'outer: for &c in &comp {
            let mut nbs: Vec<usize> = board.neighbors(c).to_vec();
            nbs.sort_unstable();
            for nb in nbs {
                if !set.contains(&nb) {
                    next = Some(nb);
                    break 'outer;
                }
            }
        }
        match next {
            Some(nb) => {
                set.insert(nb);
                comp.push(nb);
            }
            None => return None, // board too small to reach `count`
        }
    }
    Some(comp)
}

/// Verify that two runs with the same mesh always produce identical `Dispersal`.
/// This tests determinism in isolation (no state mutation between runs).
#[test]
fn algorithm_a_determinism_extended() {
    let board = Board::new(5);
    let start = board.index(Coord::new(0, 0, 0)).unwrap();
    for &ms in &[7usize, 8, 9, 10, 11, 12, 13, 14] {
        if let Some(cells) = grow_connected(&board, start, ms) {
            let d1 = algorithm_a(&board, &cells);
            let d2 = algorithm_a(&board, &cells);
            assert_eq!(
                d1, d2,
                "Algorithm A must be deterministic for mesh size {ms}"
            );
        }
    }
}

/// Step-4 never reduces live count below 2 (the first accepted pair) for blobs
/// where at least one adjacent pair exists (i.e., all connected blobs of ≥ 7).
#[test]
fn step4_always_leaves_at_least_one_pair() {
    for &bn in &[3u8, 4, 5, 6, 7] {
        let board = Board::new(bn);
        let start = board.index(Coord::new(0, 0, 0)).unwrap();
        for &ms in &[7usize, 8, 9, 10, 11, 12, 13, 14] {
            if let Some(cells) = grow_connected(&board, start, ms) {
                let d = algorithm_a(&board, &cells);
                // At minimum the first pair (2 live cells) survives step-4 because
                // there is no prior accepted pair to conflict with.
                assert!(
                    d.live.len() >= 2,
                    "board={bn} mesh={ms}: at least 2 live cells expected, got {}",
                    d.live.len()
                );
                // Conservation.
                assert_eq!(d.live.len() + d.perma.len(), ms);
            }
        }
    }
}
