//! The deterministic rules of CIRISGame: four stewards place cells on a
//! rhombic-dodecahedral (FCC) lattice; a same-colour mesh that reaches seven
//! cells collapses and disperses into live pairs plus perma-dead spacers.
//! Lowest perma-dead count wins; every steward at zero is the cooperative ending.
#![allow(unused_imports)]

use vstd::prelude::*;

pub mod agent_image;
pub mod board;
pub mod board_view;
pub mod crossing;
pub mod daily_seed;
pub mod dispersal;
pub mod engine;
pub mod hash;
pub mod i18n;
pub mod lattice;
pub mod mesh;
pub mod neighbor_list;
pub mod report;
pub mod scene;
pub mod session;
pub mod temperature;
pub mod wizard;

pub use board::{Board, CellState, Coord, Steward};
pub use crossing::{is_crossing_illegal, opposite_diagonal};
pub use daily_seed::{derive_daily_seed, try_derive_daily_seed, DailySeed, Difficulty};
pub use dispersal::{algorithm_a, dispersal_counts, validate_layout, Dispersal, LayoutError};
pub use engine::{GameState, Move, MoveError, MoveRecord, Outcome};

verus! {

/// Default board edge length: the FCC cells of a 5×5×5 box.
pub const DEFAULT_BOARD_N: u8 = 5;

/// A mesh that reaches this many cells collapses.
pub const COLLAPSE_THRESHOLD: usize = 7;

/// A mesh of this size is one placement from collapse (atari).
pub const ATARI_SIZE: usize = 6;

/// Number of stewards (board slots).
pub const STEWARD_COUNT: usize = 4;

} // verus!
