//! Turn engine: move application, the collapse → dispersal pipeline, scoring,
//! and end-state detection.
//!
//! Turn flow:
//! 1. A steward places one cell on an `Empty` target.
//! 2. If that grows the placed cell's mesh to `COLLAPSE_THRESHOLD`, every cell
//!    of the mesh enters `TempDead` and the turn ends.
//! 3. On the collapsing steward's next turn they choose the wreckage layout
//!    (which crater cells come back live vs. perma-dead) and place a new stone,
//!    both in one `GameState::apply_move` call. A `Move` with no `dispersal`
//!    lets the engine auto-pick the layout (Algorithm A with its separation guard).
use vstd::prelude::*;
use vstd::string::StringSliceAdditionalSpecFns;

use crate::board::{
    is_cell, lemma_board_layout_unique, lemma_index_of, slot_of, steward_at, Board, BoardModel, CellState, Coord, Steward,
};
use crate::crossing::{crossing_illegal, is_crossing_illegal, lemma_no_crossing_possible};
use crate::daily_seed::{daily_cells, daily_k, derive_daily_seed, try_derive_daily_seed};
use crate::dispersal::{
    slice_to_vec, auto_layout, guarded_live, final_order, layout_verdict,
    validate_layout, Dispersal, LayoutError,
};
use crate::mesh::{
    connected, count_true, in_mesh, is_mesh_listing, lemma_distinct_subset_len, lemma_listing, lemma_listing_len,
    lemma_sorted_distinct, listing, mesh_size, strictly_sorted,
};
use crate::hash::{board_state_hash, sha256_digest, state_preimage};
use crate::{ATARI_SIZE, COLLAPSE_THRESHOLD, STEWARD_COUNT};

verus! {

/// A turn: place at `coord`, optionally with a chosen wreckage `dispersal`
/// (the perma-dead cells) when it's a rebuild turn.
#[derive(Clone, Debug, PartialEq, Eq)]
pub struct Move {
    pub coord: Coord,
    /// On a rebuild turn: the cells the steward chooses to make perma-dead (the
    /// rest of the crater stays live). `None` → the engine auto-picks the
    /// layout. Must be `None` on a normal turn.
    pub dispersal: Option<Vec<Coord>>,
}

impl Move {
    /// A plain placement (no chosen layout; auto-disperses if it's a rebuild turn).
    pub fn new(i: u8, j: u8, k: u8) -> (m: Self)
        ensures
            m.coord == (Coord { i, j, k }),
            m.dispersal is None,
    {
        Move { coord: Coord::new(i, j, k), dispersal: None }
    }

    /// A placement at `coord` with no chosen layout.
    pub fn place(coord: Coord) -> (m: Self)
        ensures
            m.coord == coord,
            m.dispersal is None,
    {
        Move { coord, dispersal: None }
    }

    /// A rebuild turn: place at `coord` and make `perma` the crater's perma-dead.
    pub fn rebuild(coord: Coord, perma: Vec<Coord>) -> (m: Self)
        ensures
            m.coord == coord,
            m.dispersal == Some(perma),
    {
        Move { coord, dispersal: Some(perma) }
    }
}

/// Why a move was not applied.
#[derive(Clone, Copy, Debug, PartialEq, Eq, Structural)]
pub enum MoveError {
    /// The placement coordinate is outside the board.
    OutOfBounds,
    /// The placement target is not `Empty`.
    Occupied,
    /// The placement would create a same-colour bond crossing an existing
    /// different-colour bond on the shared face (no-crossing rule).
    CrossesBond,
    /// No legal placement remains; the game is over.
    GameOver,
    /// `GameState::pass` was called while the steward still has a legal move.
    PassNotAllowed,
    /// A `dispersal` layout was supplied on a turn that is not a rebuild turn.
    UnexpectedDispersal,
    /// A chosen perma-dead coordinate is off the board.
    DispersalCoordOutOfBounds,
    /// A chosen perma-dead cell is not part of the collapsed crater.
    DispersalNotInFootprint,
    /// The same perma-dead cell was listed twice.
    DispersalDuplicate,
    /// Fewer perma-dead than the locked count floor.
    DispersalTooFewPerma,
    /// The kept live cells would form a component of `≥ COLLAPSE_THRESHOLD`.
    DispersalIllegalShape,
}

/// The move error that reports a layout error.
pub open spec fn layout_to_move_error(e: LayoutError) -> MoveError {
    match e {
        LayoutError::NotInFootprint => MoveError::DispersalNotInFootprint,
        LayoutError::Duplicate => MoveError::DispersalDuplicate,
        LayoutError::TooFewPerma => MoveError::DispersalTooFewPerma,
        LayoutError::IllegalShape => MoveError::DispersalIllegalShape,
    }
}

impl From<LayoutError> for MoveError {
    fn from(e: LayoutError) -> (r: Self) {
        match e {
            LayoutError::NotInFootprint => MoveError::DispersalNotInFootprint,
            LayoutError::Duplicate => MoveError::DispersalDuplicate,
            LayoutError::TooFewPerma => MoveError::DispersalTooFewPerma,
            LayoutError::IllegalShape => MoveError::DispersalIllegalShape,
        }
    }
}

impl vstd::std_specs::convert::FromSpecImpl<LayoutError> for MoveError {
    open spec fn obeys_from_spec() -> bool {
        true
    }

    open spec fn from_spec(e: LayoutError) -> MoveError {
        layout_to_move_error(e)
    }
}

/// One entry in the move log. `dispersal` records the perma-dead cells a
/// rebuild turn applied (empty on a normal turn), so that a replay offering it
/// back as the chosen layout rebuilds the crater the same way.
#[derive(Clone, Debug, PartialEq, Eq)]
pub struct MoveRecord {
    pub slot: u8,
    pub coord: Coord,
    pub dispersal: Vec<Coord>,
}

/// The abstract move-log entry.
#[verifier::ext_equal]
pub struct RecordModel {
    pub slot: u8,
    pub coord: Coord,
    pub dispersal: Seq<Coord>,
}

impl View for MoveRecord {
    type V = RecordModel;

    open spec fn view(&self) -> RecordModel {
        RecordModel { slot: self.slot, coord: self.coord, dispersal: self.dispersal@ }
    }
}

/// Final result of a game, the unit the daily-seed verifier compares against
/// the client assertion.
#[derive(Clone, Copy, Debug, PartialEq, Eq)]
pub struct Outcome {
    /// Per-steward perma-dead created.
    pub permadead: [u32; 4],
    /// Total perma-dead across all stewards.
    pub total: u32,
    /// True when every steward ended at zero — the cooperative ending.
    pub all_survivors: bool,
    /// SHA-256 over the final board + scores; anchors replay identity.
    pub board_state_hash: [u8; 32],
}

/// The abstract game state.
#[verifier::ext_equal]
pub struct GameModel {
    pub board: BoardModel,
    pub current: u8,
    pub turn: u32,
    pub scores: Seq<u32>,
    pub eliminated: Seq<bool>,
    pub history: Seq<RecordModel>,
    /// Per-slot smouldering crater awaiting that steward's rebuild turn.
    pub pending: Seq<Option<Seq<usize>>>,
    pub no_crossing: bool,
}

impl GameModel {
    /// Shape facts every game state keeps.
    pub open spec fn wf(self) -> bool {
        &&& self.board.wf()
        &&& self.current < 4
        &&& self.scores.len() == 4
        &&& self.eliminated.len() == 4
        &&& self.pending.len() == 4
        &&& forall|s: int|
            0 <= s < 4 ==> (#[trigger] self.pending[s] matches Some(fp) ==> {
                &&& fp.no_duplicates()
                &&& forall|q: int| 0 <= q < fp.len() ==> #[trigger] fp[q] < self.board.len()
            })
    }

    /// Every owed crater is still smouldering: its cells are `TempDead` in the
    /// colour of the slot that owes it.
    pub open spec fn craters_smoulder(self) -> bool {
        forall|s: int, q: int|
            0 <= s < 4 && self.pending[s] is Some && 0 <= q < self.pending[s]->0.len()
                ==> self.board.cells[#[trigger] self.pending[s]->0[q] as int] == CellState::TempDead(
                steward_at(s as u8),
            )
    }

    /// The steward whose turn it is.
    pub open spec fn steward(self) -> Steward {
        steward_at(self.current)
    }

    /// Some steward owes a rebuild.
    pub open spec fn has_pending(self) -> bool {
        exists|s: int| 0 <= s < 4 && #[trigger] self.pending[s] is Some
    }

    /// Placement targets `s` may legally take.
    pub open spec fn legal_for(self, s: Steward) -> Seq<Coord> {
        if self.no_crossing {
            legal_targets(self.board).filter(|c: Coord| !crossing_illegal(self.board, c, s))
        } else {
            legal_targets(self.board)
        }
    }

    /// Empties remain but no steward still in the rotation can place.
    pub open spec fn deadlocked(self) -> bool {
        &&& self.board.empty_count() > 0
        &&& self.no_crossing
        &&& forall|slot: int|
            0 <= slot < 4 ==> #[trigger] self.eliminated[slot] || self.legal_for(
                steward_at(slot as u8),
            ).len() == 0
    }

    /// The game has ended.
    pub open spec fn over(self) -> bool {
        (self.board.empty_count() == 0 && !self.has_pending()) || self.deadlocked()
    }

    /// The steward to move has no legal placement while empties remain.
    pub open spec fn must_pass(self) -> bool {
        !self.over() && self.board.empty_count() > 0 && self.legal_for(self.steward()).len() == 0
    }
}

/// When the game ends: never while a steward still owes a crater rebuild (so
/// every collapse is scored first) or while empties remain, unless no steward
/// can place; and always once the board is full with no crater owed.
pub proof fn lemma_game_end(g: GameModel)
    ensures
        g.has_pending() && !g.deadlocked() ==> !g.over(),
        g.board.empty_count() > 0 && !g.deadlocked() ==> !g.over(),
        g.board.empty_count() == 0 && !g.has_pending() ==> g.over(),
        g.deadlocked() ==> g.over(),
{
}

/// The coordinates of the empty cells among the first `t`, in index order.
pub open spec fn empty_coords(m: BoardModel, t: int) -> Seq<Coord>
    decreases t,
{
    if t <= 0 {
        seq![]
    } else {
        let prev = empty_coords(m, t - 1);
        if m.cells[t - 1] == CellState::Empty {
            prev.push(m.coords[t - 1])
        } else {
            prev
        }
    }
}

/// The coordinates of every empty cell, in index order.
pub open spec fn legal_targets(m: BoardModel) -> Seq<Coord> {
    empty_coords(m, m.len() as int)
}

/// The slot after `cur` that is still in the rotation (`cur` itself when
/// every other slot is eliminated and so is `cur`).
pub open spec fn next_slot(cur: u8, eliminated: Seq<bool>) -> u8 {
    let a = ((cur + 1) % 4) as u8;
    let b = ((cur + 2) % 4) as u8;
    let c = ((cur + 3) % 4) as u8;
    if !eliminated[a as int] {
        a
    } else if !eliminated[b as int] {
        b
    } else if !eliminated[c as int] {
        c
    } else {
        cur
    }
}

/// Full game state.
pub struct GameState {
    pub board: Board,
    /// Slot whose turn it is (`0..=3`).
    pub current: u8,
    /// Number of placements applied so far.
    pub turn: u32,
    /// Per-steward perma-dead created (the score; lowest wins).
    pub scores: [u32; 4],
    /// Stewards removed from the rotation. No base rule sets these.
    pub eliminated: [bool; 4],
    pub history: Vec<MoveRecord>,
    /// Per-slot smouldering crater awaiting that steward's rebuild turn.
    pending: [Option<Vec<usize>>; 4],
    /// Whether the no-crossing rule is enforced.
    no_crossing: bool,
}

/// `g` is a fresh game on an edge-`n` board whose perma-dead cells are
/// exactly the indices in `perma`, every other cell empty.
pub open spec fn fresh_game(g: GameModel, n: u8, perma: Seq<usize>) -> bool {
    &&& g.board.n == n
    &&& forall|a: int|
        0 <= a < g.board.len() ==> #[trigger] g.board.cells[a] == if perma.contains(a as usize) {
            CellState::PermaDead
        } else {
            CellState::Empty
        }
    &&& g.current == 0
    &&& g.turn == 0
    &&& g.scores == seq![0u32, 0u32, 0u32, 0u32]
    &&& g.eliminated == seq![false, false, false, false]
    &&& g.history.len() == 0
    &&& forall|s: int| 0 <= s < 4 ==> #[trigger] g.pending[s] is None
    &&& g.no_crossing
    &&& g.craters_smoulder()
}

/// The view of an optional crater.
pub open spec fn crater_view(p: Option<Vec<usize>>) -> Option<Seq<usize>> {
    match p {
        Some(v) => Some(v@),
        None => None,
    }
}

impl View for GameState {
    type V = GameModel;

    closed spec fn view(&self) -> GameModel {
        GameModel {
            board: self.board@,
            current: self.current,
            turn: self.turn,
            scores: self.scores@,
            eliminated: self.eliminated@,
            history: self.history@.map_values(|r: MoveRecord| r@),
            pending: Seq::new(4, |s: int| crater_view(self.pending@[s])),
            no_crossing: self.no_crossing,
        }
    }
}

impl GameState {
    /// The board's internal lookup agrees with its model.
    pub closed spec fn board_wf(&self) -> bool {
        self.board.wf()
    }

    /// The state is well formed, and every owed crater is still smouldering
    /// (constructors establish this and every move keeps it).
    pub open spec fn wf(&self) -> bool {
        self.board_wf() && self@.wf() && self@.craters_smoulder()
    }

    /// The board of the game.
    pub fn board_ref(&self) -> (b: &Board)
        requires
            self.wf(),
        ensures
            b.wf(),
            b@ == self@.board,
    {
        &self.board
    }

    /// The per-steward scores.
    pub fn score_array(&self) -> (r: [u32; 4])
        ensures
            r@ == self@.scores,
    {
        self.scores
    }

    /// The slot whose turn it is.
    pub fn current_slot(&self) -> (r: u8)
        ensures
            r == self@.current,
    {
        self.current
    }

    /// The number of placements applied so far.
    pub fn turn_number(&self) -> (r: u32)
        ensures
            r == self@.turn,
    {
        self.turn
    }

    /// Which stewards are out of the rotation.
    pub fn eliminated_array(&self) -> (r: [bool; 4])
        ensures
            r@ == self@.eliminated,
    {
        self.eliminated
    }

    /// The slot and coordinate of the last move applied, if any.
    pub fn last_record(&self) -> (r: Option<(u8, Coord)>)
        ensures
            self@.history.len() == 0 ==> r is None,
            self@.history.len() > 0 ==> r == Some((self@.history.last().slot, self@.history.last().coord)),
    {
        let n = self.history.len();
        if n == 0 {
            None
        } else {
            let rec = &self.history[n - 1];
            Some((rec.slot, rec.coord))
        }
    }

    /// A fresh game on an `n × n × n` board.
    pub fn new(n: u8, seed: [u8; 32]) -> (gs: Self)
        ensures
            gs.wf(),
            gs@.board.n == n,
            forall|a: int| 0 <= a < gs@.board.len() ==> #[trigger] gs@.board.cells[a] == CellState::Empty,
            gs@.current == 0,
            gs@.turn == 0,
            gs@.scores == seq![0u32, 0u32, 0u32, 0u32],
            gs@.eliminated == seq![false, false, false, false],
            gs@.history.len() == 0,
            forall|s: int| 0 <= s < 4 ==> #[trigger] gs@.pending[s] is None,
            gs@.no_crossing,
            fresh_game(gs@, n, Seq::<usize>::empty()),
    {
        let gs = GameState {
            board: Board::new(n),
            current: 0,
            turn: 0,
            scores: [0; STEWARD_COUNT],
            eliminated: [false; STEWARD_COUNT],
            history: Vec::new(),
            pending: [None, None, None, None],
            no_crossing: true,
        };
        proof {
            assert(gs.scores@ =~= seq![0u32, 0u32, 0u32, 0u32]);
            assert(gs.eliminated@ =~= seq![false, false, false, false]);
            assert forall|s: int| 0 <= s < 4 implies #[trigger] gs@.pending[s] is None by {}
        }
        gs
    }

    /// Create a game with pre-placed perma-dead cells (e.g., from a daily
    /// puzzle layout). Every index in `perma_dead` must be a board cell index.
    pub fn with_perma_dead(n: u8, seed: [u8; 32], perma_dead: &[usize]) -> (gs: Self)
        requires
            forall|q: int| 0 <= q < perma_dead@.len() ==> #[trigger] perma_dead@[q] < Board::new_len_spec(n),
        ensures
            gs.wf(),
            fresh_game(gs@, n, perma_dead@),
    {
        let mut gs = GameState::new(n, seed);
        proof {
            Board::lemma_new_len(n, gs.board@);
        }
        let mut t: usize = 0;
        while t < perma_dead.len()
            invariant
                gs.wf(),
                gs@.board.n == n,
                gs@.board.len() == Board::new_len_spec(n),
                forall|q: int| 0 <= q < perma_dead@.len() ==> #[trigger] perma_dead@[q] < Board::new_len_spec(n),
                t <= perma_dead@.len(),
                forall|a: int|
                    0 <= a < gs@.board.len() ==> #[trigger] gs@.board.cells[a] == if perma_dead@.take(t as int).contains(a as usize) {
                        CellState::PermaDead
                    } else {
                        CellState::Empty
                    },
                gs@.current == 0,
                gs@.turn == 0,
                gs@.scores == seq![0u32, 0u32, 0u32, 0u32],
                gs@.eliminated == seq![false, false, false, false],
                gs@.history.len() == 0,
                forall|s: int| 0 <= s < 4 ==> #[trigger] gs@.pending[s] is None,
                gs@.no_crossing,
            decreases perma_dead@.len() - t,
        {
            let idx = perma_dead[t];
            let ghost old_gs = gs@;
            gs.board.set(idx, CellState::PermaDead);
            proof {
                let pt = perma_dead@.take(t as int);
                let pt1 = perma_dead@.take(t + 1);
                assert(pt1 =~= pt.push(idx));
                assert forall|a: int| 0 <= a < gs@.board.len() implies #[trigger] gs@.board.cells[a] == if pt1.contains(a as usize) {
                    CellState::PermaDead
                } else {
                    CellState::Empty
                } by {
                    if a as usize == idx {
                        assert(pt1[t as int] == idx);
                        assert(gs@.board.cells[a] == CellState::PermaDead);
                    } else {
                        assert(old_gs.board.cells[a] == if pt.contains(a as usize) {
                            CellState::PermaDead
                        } else {
                            CellState::Empty
                        });
                        assert(old_gs.board.cells[a] == gs@.board.cells[a]);
                        if pt1.contains(a as usize) {
                            let w = choose|w: int| 0 <= w < pt1.len() && pt1[w] == a as usize;
                            assert(pt[w] == a as usize);
                        }
                        if pt.contains(a as usize) {
                            let w = choose|w: int| 0 <= w < pt.len() && pt[w] == a as usize;
                            assert(pt1[w] == a as usize);
                        }
                    }
                }
                assert forall|s: int| 0 <= s < 4 implies #[trigger] gs@.pending[s] is None by {
                    assert(old_gs.pending[s] is None);
                }
            }
            t += 1;
        }
        assert(perma_dead@.take(perma_dead@.len() as int) =~= perma_dead@);
        gs
    }

    /// A game laid out as the daily puzzle of `utc_date_iso` on an edge-`board_n`
    /// board.
    pub fn from_daily_seed(utc_date_iso: &str, board_n: u8, seed: [u8; 32]) -> (gs: Self)
        requires
            daily_k(utc_date_iso.spec_bytes()) <= Board::new_len_spec(board_n),
        ensures
            gs.wf(),
            fresh_game(gs@, board_n, daily_cells(utc_date_iso.spec_bytes(), board_n)),
    {
        let daily = derive_daily_seed(utc_date_iso, board_n);
        GameState::with_perma_dead(board_n, seed, daily.perma_dead.as_slice())
    }

    /// The daily-puzzle game, or `None` when the day's perma-dead count exceeds
    /// the board's cell count.
    pub fn try_from_daily_seed(utc_date_iso: &str, board_n: u8, seed: [u8; 32]) -> (r: Option<Self>)
        ensures
            r is Some <==> daily_k(utc_date_iso.spec_bytes()) <= Board::new_len_spec(board_n),
            r matches Some(gs) ==> gs.wf() && fresh_game(
                gs@,
                board_n,
                daily_cells(utc_date_iso.spec_bytes(), board_n),
            ),
    {
        match try_derive_daily_seed(utc_date_iso, board_n) {
            Some(_) => Some(GameState::from_daily_seed(utc_date_iso, board_n, seed)),
            None => None,
        }
    }

    /// The steward whose turn it is.
    pub fn current_steward(&self) -> (s: Steward)
        requires
            self.wf(),
        ensures
            s == self@.steward(),
    {
        Steward::from_slot(self.current)
    }

    /// Whether the no-crossing rule is being enforced.
    pub fn no_crossing_rule(&self) -> (r: bool)
        ensures
            r == self@.no_crossing,
    {
        self.no_crossing
    }

    /// Enable/disable the no-crossing rule. Does not affect the board hash or
    /// determinism.
    pub fn set_no_crossing_rule(&mut self, enabled: bool)
        ensures
            final(self)@ == (GameModel { no_crossing: enabled, ..old(self)@ }),
            old(self).wf() ==> final(self).wf(),
    {
        self.no_crossing = enabled;
        proof {
            assert(self@.pending =~= old(self)@.pending);
        }
    }

    /// Whether any steward has a smouldering crater awaiting rebuild.
    pub fn has_pending_dispersal(&self) -> (r: bool)
        requires
            self.wf(),
        ensures
            r == self@.has_pending(),
    {
        let r = self.pending[0].is_some() || self.pending[1].is_some() || self.pending[2].is_some()
            || self.pending[3].is_some();
        proof {
            if r {
                if self.pending[0].is_some() {
                    assert(self@.pending[0] is Some);
                } else if self.pending[1].is_some() {
                    assert(self@.pending[1] is Some);
                } else if self.pending[2].is_some() {
                    assert(self@.pending[2] is Some);
                } else {
                    assert(self@.pending[3] is Some);
                }
            } else {
                assert forall|s: int| 0 <= s < 4 implies !(#[trigger] self@.pending[s] is Some) by {}
            }
        }
        r
    }

    /// Whether the current steward must lay out a crater this turn.
    pub fn is_rebuild_turn(&self) -> (r: bool)
        requires
            self.wf(),
        ensures
            r == self@.pending[self@.current as int] is Some,
    {
        self.pending[self.current as usize].is_some()
    }

    /// The crater the current steward must lay out (cell coords), if any.
    pub fn pending_footprint(&self) -> (r: Option<Vec<Coord>>)
        requires
            self.wf(),
        ensures
            match self@.pending[self@.current as int] {
                None => r is None,
                Some(fp) => r matches Some(v) && v@ == fp.map_values(|i: usize| self@.board.coords[i as int]),
            },
    {
        match &self.pending[self.current as usize] {
            None => None,
            Some(cells) => {
                let ghost fp = cells@;
                assert(self@.pending[self@.current as int] == Some(fp));
                let mut out: Vec<Coord> = Vec::new();
                let mut t: usize = 0;
                while t < cells.len()
                    invariant
                        self.wf(),
                        cells@ == fp,
                        forall|q: int| 0 <= q < fp.len() ==> #[trigger] fp[q] < self@.board.len(),
                        t <= fp.len(),
                        out@ =~= fp.take(t as int).map_values(|i: usize| self@.board.coords[i as int]),
                    decreases fp.len() - t,
                {
                    out.push(self.board.coord(cells[t]));
                    t += 1;
                }
                assert(fp.take(fp.len() as int) =~= fp);
                Some(out)
            },
        }
    }

    /// All empty placement targets, ascending by linear index. This is the raw
    /// target set; it ignores the colour-dependent no-crossing rule.
    pub fn legal_moves(&self) -> (r: Vec<Coord>)
        requires
            self.wf(),
        ensures
            r@ == legal_targets(self@.board),
    {
        let len = self.board.len();
        let mut out: Vec<Coord> = Vec::new();
        let mut i: usize = 0;
        while i < len
            invariant
                self.wf(),
                len == self@.board.len(),
                i <= len,
                out@ == empty_coords(self@.board, i as int),
            decreases len - i,
        {
            if self.board.get(i) == CellState::Empty {
                out.push(self.board.coord(i));
            }
            i += 1;
        }
        out
    }

    /// Placement targets `steward` may legally take: empty cells minus any the
    /// no-crossing rule forbids for that colour. Ascending by index.
    pub fn legal_moves_for(&self, steward: Steward) -> (r: Vec<Coord>)
        requires
            self.wf(),
        ensures
            r@ == self@.legal_for(steward),
            r@ == legal_targets(self@.board),
    {
        let empties = self.legal_moves();
        proof {
            lemma_legal_for_is_targets(self@, steward);
        }
        if !self.no_crossing {
            return empties;
        }
        let ghost pred = |c: Coord| !crossing_illegal(self@.board, c, steward);
        let mut out: Vec<Coord> = Vec::new();
        let mut t: usize = 0;
        while t < empties.len()
            invariant
                self.wf(),
                t <= empties@.len(),
                out@ == empties@.take(t as int).filter(pred),
                pred == (|c: Coord| !crossing_illegal(self@.board, c, steward)),
            decreases empties@.len() - t,
        {
            let c = empties[t];
            proof {
                assert(empties@.take(t + 1).drop_last() =~= empties@.take(t as int));
                reveal(Seq::filter);
            }
            if !is_crossing_illegal(&self.board, c, steward) {
                out.push(c);
            }
            t += 1;
        }
        assert(empties@.take(empties@.len() as int) =~= empties@);
        out
    }

    /// Legal placements for the steward whose turn it is.
    pub fn current_legal_moves(&self) -> (r: Vec<Coord>)
        requires
            self.wf(),
        ensures
            r@ == self@.legal_for(self@.steward()),
            r@ == legal_targets(self@.board),
    {
        self.legal_moves_for(self.current_steward())
    }

    /// Global deadlock: empties remain but no steward still in the rotation has
    /// any legal placement.
    pub fn is_deadlocked(&self) -> (r: bool)
        requires
            self.wf(),
        ensures
            r == self@.deadlocked(),
    {
        if self.board.empty_count() == 0 || !self.no_crossing {
            return false;
        }
        let mut slot: usize = 0;
        while slot < STEWARD_COUNT
            invariant
                self.wf(),
                slot <= 4,
                forall|q: int|
                    0 <= q < slot ==> #[trigger] self@.eliminated[q] || self@.legal_for(steward_at(q as u8)).len() == 0,
            decreases 4 - slot,
        {
            let s = Steward::from_slot(slot as u8);
            if !(self.eliminated[slot] || self.legal_moves_for(s).len() == 0) {
                return false;
            }
            slot += 1;
        }
        true
    }

    /// The game ends when the board is saturated with no crater pending, or when
    /// every steward is forced to pass with empties remaining.
    pub fn is_over(&self) -> (r: bool)
        requires
            self.wf(),
        ensures
            r == self@.over(),
            self@.has_pending() && !self@.deadlocked() ==> !r,
            self@.board.empty_count() > 0 && !self@.deadlocked() ==> !r,
            self@.board.empty_count() == 0 && !self@.has_pending() ==> r,
    {
        proof {
            lemma_game_end(self@);
        }
        (self.board.empty_count() == 0 && !self.has_pending_dispersal()) || self.is_deadlocked()
    }

    /// Whether the steward to move has no legal placement and must therefore pass.
    pub fn must_pass(&self) -> (r: bool)
        requires
            self.wf(),
        ensures
            r == self@.must_pass(),
    {
        !self.is_over() && self.board.empty_count() > 0 && self.current_legal_moves().len() == 0
    }

    /// Advance `current` to the next non-eliminated slot (round-robin).
    fn advance_turn(&mut self)
        requires
            old(self).board_wf(),
            old(self)@.wf(),
        ensures
            final(self).board_wf(),
            final(self)@.wf(),
            final(self)@ == (GameModel {
                current: next_slot(old(self)@.current, old(self)@.eliminated),
                ..old(self)@
            }),
    {
        let ghost start = self.current;
        let mut t: usize = 0;
        while t < STEWARD_COUNT
            invariant
                self.board_wf(),
                self@.wf(),
                self@ == (GameModel { current: self@.current, ..old(self)@ }),
                t <= 4,
                start == old(self)@.current,
                start < 4,
                self@.current == ((start + t) % 4) as u8,
                forall|q: int| 1 <= q <= t ==> #[trigger] old(self)@.eliminated[((start + q) % 4) as int],
            decreases 4 - t,
        {
            let prev = self.current;
            let succ: u8 = prev + 1;
            let nxt: u8 = succ & 0b11;
            assert(nxt == succ % 4) by (bit_vector)
                requires
                    nxt == succ & 3,
            ;
            self.current = nxt;
            assert(self.current == ((start + t + 1) % 4) as u8);
            proof {
                assert(self@.pending =~= old(self)@.pending);
            }
            if !self.eliminated[self.current as usize] {
                proof {
                    assert(self@.current == next_slot(start, old(self)@.eliminated)) by {
                        if t >= 1 {
                            assert(old(self)@.eliminated[((start + 1) % 4) as int]);
                        }
                        if t >= 2 {
                            assert(old(self)@.eliminated[((start + 2) % 4) as int]);
                        }
                        if t >= 3 {
                            assert(old(self)@.eliminated[((start + 3) % 4) as int]);
                            assert(self@.current == start);
                        }
                    }
                }
                return;
            }
            t += 1;
        }
        proof {
            assert(old(self)@.eliminated[((start + 1) % 4) as int]);
            assert(old(self)@.eliminated[((start + 2) % 4) as int]);
            assert(old(self)@.eliminated[((start + 3) % 4) as int]);
        }
    }

    /// Skip the current steward's turn. Legal only as a forced pass — when
    /// `must_pass` holds. Advances to the next steward without touching the
    /// board (any owed crater stays pending).
    pub fn pass(&mut self) -> (r: Result<(), MoveError>)
        requires
            old(self).wf(),
        ensures
            final(self).wf(),
            old(self)@.over() ==> r == Err::<(), MoveError>(MoveError::GameOver) && final(self)@ == old(self)@,
            !old(self)@.over() && !old(self)@.must_pass() ==> r == Err::<(), MoveError>(MoveError::PassNotAllowed)
                && final(self)@ == old(self)@,
            old(self)@.must_pass() ==> r is Ok && final(self)@ == (GameModel {
                current: next_slot(old(self)@.current, old(self)@.eliminated),
                ..old(self)@
            }),
    {
        if self.is_over() {
            return Err(MoveError::GameOver);
        }
        if !self.must_pass() {
            return Err(MoveError::PassNotAllowed);
        }
        self.advance_turn();
        Ok(())
    }

    /// Meshes of `steward` currently in atari (`|M| == ATARI_SIZE`), each
    /// ascending, ordered by smallest cell.
    #[verifier::spinoff_prover]
    pub fn atari_meshes(&self, steward: Steward) -> (r: Vec<Vec<usize>>)
        requires
            self.wf(),
        ensures
            forall|t: int| 0 <= t < r@.len() ==> #[trigger] is_mesh_listing(self@.board, r@[t]@, steward)
                && r@[t]@.len() == ATARI_SIZE,
            forall|t1: int, t2: int| 0 <= t1 < t2 < r@.len() ==> #[trigger] r@[t1]@[0] < #[trigger] r@[t2]@[0],
            forall|x: int|
                0 <= x < self@.board.len() && #[trigger] self@.board.cells[x] == CellState::Live(steward)
                    && mesh_size(self@.board, x) == ATARI_SIZE ==> exists|t: int|
                    0 <= t < r@.len() && #[trigger] r@[t]@.contains(x as usize),
    {
        let all = self.board.meshes_of(steward);
        let ghost m = self@.board;
        let mut out: Vec<Vec<usize>> = Vec::new();
        let mut t: usize = 0;
        while t < all.len()
            invariant
                t <= all@.len(),
                forall|u: int| 0 <= u < all@.len() ==> #[trigger] is_mesh_listing(m, all@[u]@, steward),
                forall|u1: int, u2: int| 0 <= u1 < u2 < all@.len() ==> #[trigger] all@[u1]@[0] < #[trigger] all@[u2]@[0],
                forall|u: int| 0 <= u < out@.len() ==> #[trigger] is_mesh_listing(m, out@[u]@, steward)
                    && out@[u]@.len() == ATARI_SIZE,
                forall|u: int| #![trigger out@[u]] 0 <= u < out@.len() ==> exists|w: int| 0 <= w < t && #[trigger] all@[w]@ == out@[u]@,
                forall|u1: int, u2: int| 0 <= u1 < u2 < out@.len() ==> #[trigger] out@[u1]@[0] < #[trigger] out@[u2]@[0],
                forall|w: int| 0 <= w < t && all@[w]@.len() == ATARI_SIZE ==> exists|u: int|
                    0 <= u < out@.len() && #[trigger] out@[u]@ == all@[w]@,
            decreases all@.len() - t,
        {
            let mesh = &all[t];
            if mesh.len() == ATARI_SIZE {
                let ghost old_out = out@;
                let copy = slice_to_vec(mesh.as_slice());
                out.push(copy);
                proof {
                    assert(out@[old_out.len() as int]@ == all@[t as int]@);
                    assert forall|u: int| 0 <= u < out@.len() implies #[trigger] is_mesh_listing(m, out@[u]@, steward)
                        && out@[u]@.len() == ATARI_SIZE by {
                        if u < old_out.len() {
                            assert(out@[u] == old_out[u]);
                        }
                    }
                    assert forall|u: int| #![trigger out@[u]] 0 <= u < out@.len() implies exists|w: int| 0 <= w < t + 1 && #[trigger] all@[w]@ == out@[u]@ by {
                        if u < old_out.len() {
                            assert(out@[u] == old_out[u]);
                            let w = choose|w: int| 0 <= w < t && #[trigger] all@[w]@ == old_out[u]@;
                        } else {
                            assert(all@[t as int]@ == out@[u]@);
                        }
                    }
                    assert forall|u1: int, u2: int| 0 <= u1 < u2 < out@.len() implies #[trigger] out@[u1]@[0] < #[trigger] out@[u2]@[0] by {
                        assert(out@[u1] == old_out[u1]);
                        if u2 < old_out.len() {
                            assert(out@[u2] == old_out[u2]);
                        } else {
                            let w = choose|w: int| 0 <= w < t && #[trigger] all@[w]@ == old_out[u1]@;
                            assert(all@[w]@[0] < all@[t as int]@[0]);
                        }
                    }
                    assert forall|w: int| 0 <= w < t + 1 && all@[w]@.len() == ATARI_SIZE implies exists|u: int|
                        0 <= u < out@.len() && #[trigger] out@[u]@ == all@[w]@ by {
                        if w < t {
                            let u = choose|u: int| 0 <= u < old_out.len() && #[trigger] old_out[u]@ == all@[w]@;
                            assert(out@[u] == old_out[u]);
                        } else {
                            assert(out@[old_out.len() as int]@ == all@[w]@);
                        }
                    }
                }
            }
            t += 1;
        }
        proof {
            assert forall|x: int|
                0 <= x < m.len() && #[trigger] m.cells[x] == CellState::Live(steward) && mesh_size(m, x)
                    == ATARI_SIZE implies exists|t: int| 0 <= t < out@.len() && #[trigger] out@[t]@.contains(x as usize) by {
                let w = choose|w: int| 0 <= w < all@.len() && #[trigger] all@[w]@.contains(x as usize);
                assert(is_mesh_listing(m, all@[w]@, steward));
                lemma_listing_len(m, all@[w]@, steward, x);
                let u = choose|u: int| 0 <= u < out@.len() && #[trigger] out@[u]@ == all@[w]@;
            }
        }
        out
    }
}

/// With the crossing rule never able to forbid a cell, the legal placements of
/// every steward are exactly the empty cells.
pub proof fn lemma_legal_for_is_targets(g: GameModel, s: Steward)
    requires
        g.board.wf(),
    ensures
        g.legal_for(s) == legal_targets(g.board),
{
    if g.no_crossing {
        let pred = |c: Coord| !crossing_illegal(g.board, c, s);
        assert forall|c: Coord| #[trigger] pred(c) by {
            lemma_no_crossing_possible(g.board, c, s);
        }
        lemma_filter_all(legal_targets(g.board), pred);
    }
}

/// Filtering by a predicate every entry meets changes nothing.
proof fn lemma_filter_all<A>(s: Seq<A>, pred: spec_fn(A) -> bool)
    requires
        forall|x: A| #[trigger] pred(x),
    ensures
        s.filter(pred) == s,
    decreases s.len(),
{
    reveal(Seq::filter);
    if s.len() > 0 {
        lemma_filter_all(s.drop_last(), pred);
        assert(s.drop_last().push(s.last()) =~= s);
    }
}


/// The cell indices of the chosen perma-dead coordinates.
pub open spec fn chosen_indices(m: BoardModel, list: Seq<Coord>) -> Seq<usize> {
    Seq::new(list.len(), |q: int| (m.index_of(list[q])->0) as usize)
}

/// The perma-dead cells of the auto layout of crater `fp`: the crater cells
/// that Algorithm A and its separation guard do not keep live.
pub open spec fn auto_perma(m: BoardModel, fp: Seq<usize>) -> Set<usize> {
    Set::new(|x: usize| fp.contains(x) && !guarded_live(m, final_order(m, fp))[x as int])
}

/// The perma-dead cells of the rebuild of crater `fp` under move `mv`.
pub open spec fn planned_perma(g: GameModel, mv: Move, fp: Seq<usize>) -> Set<usize> {
    match mv.dispersal {
        Some(list) => chosen_indices(g.board, list@).to_set(),
        None => auto_perma(g.board, fp),
    }
}

/// How many perma-dead cells the rebuild of crater `fp` creates.
pub open spec fn planned_count(g: GameModel, mv: Move, fp: Seq<usize>) -> int {
    match mv.dispersal {
        Some(list) => list@.len() as int,
        None => auto_perma(g.board, fp).len() as int,
    }
}

/// `d` realises the plan: its perma list is `perma`, its live list the rest of
/// the crater, both ascending.
pub open spec fn realises(fp: Seq<usize>, perma: Set<usize>, count: int, d: Dispersal) -> bool {
    &&& strictly_sorted(d.perma@)
    &&& strictly_sorted(d.live@)
    &&& forall|x: usize| d.perma@.contains(x) <==> perma.contains(x)
    &&& forall|x: usize| d.live@.contains(x) <==> (fp.contains(x) && !perma.contains(x))
    &&& forall|x: usize| perma.contains(x) ==> fp.contains(x)
    &&& d.perma@.len() == count
    &&& count <= fp.len()
}

/// Why the rebuild part of a move is rejected, if it is.
pub open spec fn rebuild_error(g: GameModel, mv: Move) -> Option<MoveError> {
    match g.pending[g.current as int] {
        None => if mv.dispersal is Some {
            Some(MoveError::UnexpectedDispersal)
        } else {
            None
        },
        Some(fp) => match mv.dispersal {
            None => None,
            Some(list) => if exists|q: int| 0 <= q < list@.len() && !is_cell(#[trigger] list@[q], g.board.n) {
                Some(MoveError::DispersalCoordOutOfBounds)
            } else {
                match layout_verdict(g.board, fp, chosen_indices(g.board, list@)) {
                    Some(e) => Some(layout_to_move_error(e)),
                    None => None,
                }
            },
        },
    }
}

/// Why the placement part of a move is rejected, if it is (judged on the
/// board before the move).
pub open spec fn placement_error(g: GameModel, mv: Move) -> Option<MoveError> {
    if g.board.empty_count() > 0 {
        if !is_cell(mv.coord, g.board.n) {
            Some(MoveError::OutOfBounds)
        } else if g.board.cells[g.board.index_of(mv.coord)->0] != CellState::Empty {
            Some(MoveError::Occupied)
        } else if g.no_crossing && crossing_illegal(g.board, mv.coord, g.steward()) {
            Some(MoveError::CrossesBond)
        } else {
            None
        }
    } else {
        None
    }
}

/// Why a move is rejected, if it is: the game is over, then the rebuild, then
/// the placement.
pub open spec fn move_error(g: GameModel, mv: Move) -> Option<MoveError> {
    if g.over() {
        Some(MoveError::GameOver)
    } else if rebuild_error(g, mv) is Some {
        rebuild_error(g, mv)
    } else {
        placement_error(g, mv)
    }
}

/// The crater `fp` laid out: perma cells dead forever, the rest live in `s`.
pub open spec fn rebuilt_cells(cells: Seq<CellState>, fp: Seq<usize>, perma: Set<usize>, s: Steward) -> Seq<
    CellState,
> {
    Seq::new(
        cells.len(),
        |x: int|
            if fp.contains(x as usize) {
                if perma.contains(x as usize) {
                    CellState::PermaDead
                } else {
                    CellState::Live(s)
                }
            } else {
                cells[x]
            },
    )
}

/// The state once the mover's owed crater (if any) is laid out and scored.
pub open spec fn after_rebuild(g: GameModel, mv: Move) -> GameModel {
    let cur = g.current as int;
    match g.pending[cur] {
        None => g,
        Some(fp) => GameModel {
            board: BoardModel {
                cells: rebuilt_cells(g.board.cells, fp, planned_perma(g, mv, fp), g.steward()),
                ..g.board
            },
            scores: g.scores.update(cur, (g.scores[cur] + planned_count(g, mv, fp)) as u32),
            pending: g.pending.update(cur, None),
            ..g
        },
    }
}

/// The perma-dead coordinates the move log records for this move.
pub open spec fn resolved_coords(g: GameModel, mv: Move) -> Seq<Coord> {
    match g.pending[g.current as int] {
        Some(fp) => listing(planned_perma(g, mv, fp)).map_values(|i: usize| g.board.coords[i as int]),
        None => seq![],
    }
}

/// The state once steward `st` places at `coord`: a mesh that reaches the
/// collapse threshold turns `TempDead` and becomes the slot's owed crater.
pub open spec fn after_place(g: GameModel, coord: Coord, cur: int, st: Steward) -> GameModel {
    let idx = g.board.index_of(coord)->0;
    let mid = BoardModel { cells: g.board.cells.update(idx, CellState::Live(st)), ..g.board };
    if mesh_size(mid, idx) >= COLLAPSE_THRESHOLD {
        GameModel {
            board: BoardModel {
                cells: Seq::new(
                    mid.len(),
                    |x: int|
                        if in_mesh(mid, idx, x) {
                            CellState::TempDead(st)
                        } else {
                            mid.cells[x]
                        },
                ),
                ..mid
            },
            pending: g.pending.update(cur, Some(listing(Set::new(|x: usize| in_mesh(mid, idx, x as int))))),
            ..g
        }
    } else {
        GameModel { board: mid, ..g }
    }
}

/// The state after an accepted move.
pub open spec fn applied(g: GameModel, mv: Move) -> GameModel {
    let g1 = after_rebuild(g, mv);
    let g2 = if g.board.empty_count() > 0 {
        after_place(g1, mv.coord, g.current as int, g.steward())
    } else {
        g1
    };
    GameModel {
        turn: (g.turn + 1) as u32,
        current: next_slot(g.current, g.eliminated),
        history: g.history.push(
            RecordModel { slot: g.current, coord: mv.coord, dispersal: resolved_coords(g, mv) },
        ),
        ..g2
    }
}

impl GameState {
    /// Work out (without applying) the layout of the mover's owed crater.
    fn resolve_rebuild(&self, mv: &Move) -> (r: Result<Option<Dispersal>, MoveError>)
        requires
            self.wf(),
        ensures
            match rebuild_error(self@, *mv) {
                Some(e) => r == Err::<Option<Dispersal>, MoveError>(e),
                None => r is Ok,
            },
            r matches Ok(od) ==> match self@.pending[self@.current as int] {
                None => od is None,
                Some(fp) => od matches Some(d) && realises(
                    fp,
                    planned_perma(self@, *mv, fp),
                    planned_count(self@, *mv, fp),
                    d,
                ) && (mv.dispersal is None ==> layout_verdict(self@.board, fp, d.perma@) is None),
            },
    {
        let cur = self.current as usize;
        let ghost g = self@;
        match &self.pending[cur] {
            Some(footprint) => {
                let ghost fp = footprint@;
                assert(g.pending[cur as int] == Some(fp));
                match &mv.dispersal {
                    Some(perma_coords) => {
                        let mut perma_idx: Vec<usize> = Vec::with_capacity(perma_coords.len());
                        let mut t: usize = 0;
                        while t < perma_coords.len()
                            invariant
                                self.wf(),
                                g == self@,
                                mv.dispersal == Some(*perma_coords),
                                g.pending[g.current as int] == Some(fp),
                                footprint@ == fp,
                                t <= perma_coords@.len(),
                                forall|q: int| 0 <= q < t ==> is_cell(#[trigger] perma_coords@[q], g.board.n),
                                perma_idx@ == chosen_indices(g.board, perma_coords@.take(t as int)),
                            decreases perma_coords@.len() - t,
                        {
                            match self.board.index(perma_coords[t]) {
                                Some(i) => {
                                    perma_idx.push(i);
                                    assert(perma_idx@ =~= chosen_indices(g.board, perma_coords@.take(t + 1)));
                                },
                                None => {
                                    assert(mv.dispersal == Some(*perma_coords));
                                    assert(!is_cell(perma_coords@[t as int], g.board.n));
                                    assert(exists|q: int| 0 <= q < perma_coords@.len() && !is_cell(#[trigger] perma_coords@[q], g.board.n));
                                    return Err(MoveError::DispersalCoordOutOfBounds);
                                },
                            }
                            t += 1;
                        }
                        assert(perma_coords@.take(perma_coords@.len() as int) =~= perma_coords@);
                        match validate_layout(&self.board, footprint.as_slice(), perma_idx.as_slice()) {
                            Ok(d) => {
                                proof {
                                    let pl = chosen_indices(g.board, perma_coords@);
                                    assert forall|x: usize| d.perma@.contains(x) <==> pl.to_set().contains(x) by {}
                                    lemma_sorted_distinct(d.perma@);
                                    lemma_distinct_subset_len(d.perma@, fp);
                                }
                                Ok(Some(d))
                            },
                            Err(e) => Err(MoveError::from(e)),
                        }
                    },
                    None => {
                        let cells = footprint.as_slice();
                        let d = auto_layout(&self.board, cells);
                        proof {
                            let ap = auto_perma(g.board, fp);
                            let gl = guarded_live(g.board, final_order(g.board, fp));
                            assert(cells@ == fp);
                            assert forall|x: usize| d.perma@.contains(x) <==> ap.contains(x) by {
                                assert(d.perma@.contains(x) <==> (fp.contains(x) && !gl[x as int]));
                                assert(ap.contains(x) <==> (fp.contains(x) && !gl[x as int]));
                            }
                            assert forall|x: usize| d.live@.contains(x) <==> (fp.contains(x) && !ap.contains(x)) by {
                                assert(d.live@.contains(x) <==> (fp.contains(x) && gl[x as int]));
                                assert(ap.contains(x) <==> (fp.contains(x) && !gl[x as int]));
                            }
                            lemma_sorted_distinct(d.perma@);
                            d.perma@.unique_seq_to_set();
                            assert(d.perma@.to_set() =~= ap);
                            lemma_distinct_subset_len(d.perma@, fp);
                        }
                        Ok(Some(d))
                    },
                }
            },
            None => {
                if mv.dispersal.is_some() {
                    return Err(MoveError::UnexpectedDispersal);
                }
                Ok(None)
            },
        }
    }

    /// Apply the current steward's turn: first the wreckage layout (if this is a
    /// rebuild turn), then a placement. All validation happens before any board
    /// mutation, so a rejected move leaves the state untouched.
    pub fn apply_move(&mut self, mv: Move) -> (r: Result<(), MoveError>)
        requires
            old(self).wf(),
            move_error(old(self)@, mv) is None ==> old(self)@.turn < u32::MAX,
            move_error(old(self)@, mv) is None ==> (old(self)@.pending[old(self)@.current as int] matches Some(
                fp,
            ) ==> old(self)@.scores[old(self)@.current as int] + fp.len() <= u32::MAX),
        ensures
            final(self).wf(),
            match move_error(old(self)@, mv) {
                Some(e) => r == Err::<(), MoveError>(e) && final(self)@ == old(self)@,
                None => r is Ok && final(self)@ == applied(old(self)@, mv),
            },
            perma_count(final(self)@.board) + score_total(old(self)@.scores) == perma_count(old(self)@.board)
                + score_total(final(self)@.scores),
            r is Ok && mv.dispersal is None && old(self)@.pending[old(self)@.current as int] is Some
                ==> forall|v: Vec<Coord>|
                #![trigger v@]
                v@ == final(self)@.history.last().dispersal ==> {
                    let replay = (Move { coord: mv.coord, dispersal: Some(v) });
                    move_error(old(self)@, replay) is None && applied(old(self)@, replay) == final(self)@
                },
    {
        let ghost g0 = self@;
        if self.is_over() {
            return Err(MoveError::GameOver);
        }
        let cur = self.current as usize;
        let steward = self.current_steward();
        let has_empty = self.board.empty_count() > 0;

        // --- compute (don't yet apply) the rebuild layout, if owed one ---
        let rebuild = match self.resolve_rebuild(&mv) {
            Ok(od) => od,
            Err(e) => {
                return Err(e);
            },
        };

        // --- validate the placement (crater cells are TempDead, never Empty,
        // so a valid target is always outside the crater) ---
        let place_idx: Option<usize> = if has_empty {
            proof {
                lemma_index_of(g0.board, mv.coord);
            }
            let idx = match self.board.index(mv.coord) {
                Some(i) => i,
                None => {
                    return Err(MoveError::OutOfBounds);
                },
            };
            if self.board.get(idx) != CellState::Empty {
                return Err(MoveError::Occupied);
            }
            // No-crossing rule: reject a placement whose same-colour bond would
            // cross an existing different-colour bond on the shared face.
            if self.no_crossing && is_crossing_illegal(&self.board, mv.coord, steward) {
                return Err(MoveError::CrossesBond);
            }
            Some(idx)
        } else {
            None  // endgame: a rebuild-only turn with no remaining placement

        };
        assert(move_error(g0, mv) is None);

        // --- apply the rebuild ---
        let mut resolved_perma: Vec<Coord> = Vec::new();
        if let Some(d) = rebuild {
            let ghost fp = g0.pending[cur as int]->0;
            let ghost perma_set = planned_perma(g0, mv, fp);
            proof {
                assert(realises(fp, perma_set, planned_count(g0, mv, fp), d));
                assert forall|q: int| 0 <= q < d.live@.len() implies #[trigger] d.live@[q] < g0.board.len() by {
                    assert(d.live@.contains(d.live@[q]));
                    assert(fp.contains(d.live@[q]));
                    let w = choose|w: int| 0 <= w < fp.len() && fp[w] == d.live@[q];
                }
                assert forall|q: int| 0 <= q < d.perma@.len() implies #[trigger] d.perma@[q] < g0.board.len() by {
                    assert(d.perma@.contains(d.perma@[q]));
                    assert(fp.contains(d.perma@[q]));
                    let w = choose|w: int| 0 <= w < fp.len() && fp[w] == d.perma@[q];
                }
            }
            proof {
                if g0.craters_smoulder() {
                    lemma_rebuild_perma(g0, mv, fp, d);
                }
            }
            set_cells(&mut self.board, &d.live, CellState::Live(steward));
            set_cells(&mut self.board, &d.perma, CellState::PermaDead);
            proof {
                assert(self.board@.cells =~= rebuilt_cells(g0.board.cells, fp, perma_set, steward)) by {
                    assert forall|x: int| 0 <= x < g0.board.len() implies self.board@.cells[x] == rebuilt_cells(
                        g0.board.cells,
                        fp,
                        perma_set,
                        steward,
                    )[x] by {
                        if d.perma@.contains(x as usize) {
                            assert(perma_set.contains(x as usize));
                        } else if d.live@.contains(x as usize) {
                        } else {
                            if fp.contains(x as usize) {
                                assert(!perma_set.contains(x as usize));
                                assert(d.live@.contains(x as usize));
                            }
                        }
                    }
                }
            }
            self.scores[cur] = self.scores[cur] + d.perma.len() as u32;
            resolved_perma = coords_of(&self.board, &d.perma);
            self.pending[cur] = None;
            proof {
                lemma_listing(d.perma@, perma_set);
                if mv.dispersal is None {
                    lemma_recorded_layout_replays(g0, mv, fp, d, resolved_perma@);
                }
                assert(self@.pending =~= g0.pending.update(cur as int, None));
                assert(self@.scores =~= g0.scores.update(cur as int, (g0.scores[cur as int] + planned_count(g0, mv, fp)) as u32));
                assert(resolved_perma@ =~= resolved_coords(g0, mv));
                assert(self@ =~= (GameModel { history: g0.history, turn: g0.turn, ..after_rebuild(g0, mv) }));
            }
        } else {
            proof {
                assert(self@ =~= after_rebuild(g0, mv));
                assert(resolved_perma@ =~= resolved_coords(g0, mv));
            }
        }
        let ghost g1 = self@;
        assert(g1 == after_rebuild(g0, mv));

        // --- apply the placement (may itself trigger a fresh collapse) ---
        if let Some(idx) = place_idx {
            proof {
                if g0.craters_smoulder() {
                    assert(g1.board.cells[idx as int] == CellState::Empty) by {
                        if let Some(fpc) = g0.pending[cur as int] {
                            if fpc.contains(idx) {
                                let w = choose|w: int| 0 <= w < fpc.len() && fpc[w] == idx;
                                assert(g0.board.cells[fpc[w] as int] == CellState::TempDead(steward_at(cur as u8)));
                            }
                        }
                    }
                    lemma_place_keeps_perma(g1, mv.coord, cur as int, steward);
                }
            }
            self.board.set(idx, CellState::Live(steward));
            let ghost mid = self.board@;
            let mesh = self.board.mesh_containing(idx);
            if mesh.len() >= COLLAPSE_THRESHOLD {
                set_cells(&mut self.board, &mesh, CellState::TempDead(steward));
                self.pending[cur] = Some(mesh);
                proof {
                    lemma_listing(mesh@, Set::new(|x: usize| in_mesh(mid, idx as int, x as int)));
                    lemma_sorted_distinct(mesh@);
                }
            }
            proof {
                assert(self@.pending =~= after_place(g1, mv.coord, cur as int, steward).pending);
                assert(self@.board =~= after_place(g1, mv.coord, cur as int, steward).board);
            }
        }
        let ghost g2 = self@;
        self.history.push(MoveRecord { slot: self.current, coord: mv.coord, dispersal: resolved_perma });
        self.turn += 1;
        proof {
            assert(self@.history =~= g0.history.push(
                RecordModel { slot: g0.current, coord: mv.coord, dispersal: resolved_coords(g0, mv) },
            ));
            assert(self@.pending =~= g2.pending);
        }
        self.advance_turn();
        proof {
            if g0.craters_smoulder() {
                lemma_craters_preserved(g0, mv, self@);
            }
        }
        Ok(())
    }
}

/// An auto rebuild's recorded layout, offered back as a chosen layout with the
/// same placement, is accepted and plans the same rebuild.
proof fn lemma_recorded_layout_replays(g: GameModel, mv: Move, fp: Seq<usize>, d: Dispersal, list: Seq<Coord>)
    requires
        g.wf(),
        mv.dispersal is None,
        g.pending[g.current as int] == Some(fp),
        move_error(g, mv) is None,
        realises(fp, planned_perma(g, mv, fp), planned_count(g, mv, fp), d),
        layout_verdict(g.board, fp, d.perma@) is None,
        d.perma@ == listing(planned_perma(g, mv, fp)),
        list == d.perma@.map_values(|i: usize| g.board.coords[i as int]),
    ensures
        forall|v: Vec<Coord>|
            #![trigger v@]
            v@ == list ==> {
                let replay = (Move { coord: mv.coord, dispersal: Some(v) });
                &&& move_error(g, replay) is None
                &&& planned_perma(g, replay, fp) == planned_perma(g, mv, fp)
                &&& planned_count(g, replay, fp) == planned_count(g, mv, fp)
                &&& resolved_coords(g, replay) == resolved_coords(g, mv)
                &&& applied(g, replay) == applied(g, mv)
            },
{
    let m = g.board;
    assert forall|q: int| 0 <= q < d.perma@.len() implies #[trigger] d.perma@[q] < m.len() by {
        assert(d.perma@.contains(d.perma@[q]));
        assert(fp.contains(d.perma@[q]));
        let w = choose|w: int| 0 <= w < fp.len() && fp[w] == d.perma@[q];
    }
    assert forall|v: Vec<Coord>| #![trigger v@] v@ == list implies {
        let replay = (Move { coord: mv.coord, dispersal: Some(v) });
        &&& move_error(g, replay) is None
        &&& planned_perma(g, replay, fp) == planned_perma(g, mv, fp)
        &&& planned_count(g, replay, fp) == planned_count(g, mv, fp)
        &&& resolved_coords(g, replay) == resolved_coords(g, mv)
        &&& applied(g, replay) == applied(g, mv)
    } by {
        let replay = Move { coord: mv.coord, dispersal: Some(v) };
        assert forall|q: int| 0 <= q < list.len() implies is_cell(#[trigger] list[q], m.n) by {
            assert(list[q] == m.coords[d.perma@[q] as int]);
        }
        let chosen = chosen_indices(m, v@);
        assert(chosen =~= d.perma@) by {
            assert forall|q: int| 0 <= q < chosen.len() implies chosen[q] == d.perma@[q] by {
                lemma_index_of(m, m.coords[d.perma@[q] as int]);
            }
        }
        assert(rebuild_error(g, replay) is None);
        assert(planned_perma(g, replay, fp) =~= planned_perma(g, mv, fp)) by {
            assert forall|x: usize| chosen.to_set().contains(x) <==> planned_perma(g, mv, fp).contains(x) by {
                assert(chosen.to_set().contains(x) <==> chosen.contains(x));
            }
        }
        assert(planned_count(g, replay, fp) == planned_count(g, mv, fp));
        assert(after_rebuild(g, replay) == after_rebuild(g, mv));
        assert(resolved_coords(g, replay) == resolved_coords(g, mv));
    }
}

/// A state that follows an accepted move keeps every owed crater smouldering,
/// given the collapse crater it records is the listing of the collapsed mesh.
proof fn lemma_craters_preserved(g: GameModel, mv: Move, h: GameModel)
    requires
        g.wf(),
        g.craters_smoulder(),
        move_error(g, mv) is None,
        h == applied(g, mv),
        h.wf(),
        g.board.empty_count() > 0 ==> {
            let g1 = after_rebuild(g, mv);
            let idx = g1.board.index_of(mv.coord)->0;
            let mid = BoardModel { cells: g1.board.cells.update(idx, CellState::Live(g.steward())), ..g1.board };
            mesh_size(mid, idx) >= COLLAPSE_THRESHOLD ==> {
                let set = Set::new(|x: usize| in_mesh(mid, idx, x as int));
                strictly_sorted(listing(set)) && forall|x: usize| listing(set).contains(x) <==> set.contains(x)
            }
        },
    ensures
        h.craters_smoulder(),
{
    let cur = g.current as int;
    let st = g.steward();
    let g1 = after_rebuild(g, mv);
    lemma_index_of(g.board, mv.coord);
    assert forall|s: int, q: int|
        0 <= s < 4 && h.pending[s] is Some && 0 <= q < h.pending[s]->0.len() implies h.board.cells[#[trigger] h.pending[s]->0[q] as int]
            == CellState::TempDead(steward_at(s as u8)) by {
        let fp = h.pending[s]->0;
        let x = fp[q] as int;
        if s != cur {
            assert(g.pending[s] == h.pending[s]);
            assert(g.board.cells[x] == CellState::TempDead(steward_at(s as u8)));
            assert(x < g.board.len());
            assert(steward_at(s as u8) != st);
            // the mover's crater is all `TempDead(st)`, so it does not hold `x`
            if let Some(fpc) = g.pending[cur] {
                if fpc.contains(x as usize) {
                    let w = choose|w: int| 0 <= w < fpc.len() && fpc[w] == x as usize;
                    assert(g.board.cells[fpc[w] as int] == CellState::TempDead(st));
                }
            }
            assert(g1.board.cells[x] == g.board.cells[x]);
            if g.board.empty_count() > 0 {
                let idx = g1.board.index_of(mv.coord)->0;
                let mid = BoardModel { cells: g1.board.cells.update(idx, CellState::Live(st)), ..g1.board };
                assert(x != idx);
                if mesh_size(mid, idx) >= COLLAPSE_THRESHOLD && in_mesh(mid, idx, x) {
                    crate::mesh::lemma_connected_members(mid, crate::mesh::live_mask(mid, st), idx, x);
                }
            }
        } else {
            assert(g.board.empty_count() > 0);
            let idx = g1.board.index_of(mv.coord)->0;
            let mid = BoardModel { cells: g1.board.cells.update(idx, CellState::Live(st)), ..g1.board };
            let set = Set::new(|y: usize| in_mesh(mid, idx, y as int));
            assert(mesh_size(mid, idx) >= COLLAPSE_THRESHOLD);
            assert(listing(set).contains(fp[q]));
        }
    }
}

/// No capture: an accepted move never changes a live or smouldering cell of
/// another steward, and a perma-dead cell stays perma-dead. This holds of the
/// model of every well-formed `GameState`, whose owed craters always smoulder.
pub proof fn lemma_no_capture(g: GameModel, mv: Move, x: int)
    requires
        g.wf(),
        g.craters_smoulder(),
        move_error(g, mv) is None,
        0 <= x < g.board.len(),
        (g.board.cells[x] matches CellState::Live(s2) && s2 != g.steward()) || (g.board.cells[x] matches CellState::TempDead(s2) && s2 != g.steward()) || g.board.cells[x]
            == CellState::PermaDead,
    ensures
        applied(g, mv).board.cells[x] == g.board.cells[x],
{
    let cur = g.current as int;
    let st = g.steward();
    let g1 = after_rebuild(g, mv);
    lemma_index_of(g.board, mv.coord);
    if let Some(fpc) = g.pending[cur] {
        if fpc.contains(x as usize) {
            let w = choose|w: int| 0 <= w < fpc.len() && fpc[w] == x as usize;
            assert(g.board.cells[fpc[w] as int] == CellState::TempDead(st));
        }
    }
    assert(g1.board.cells[x] == g.board.cells[x]);
    if g.board.empty_count() > 0 {
        let idx = g1.board.index_of(mv.coord)->0;
        let mid = BoardModel { cells: g1.board.cells.update(idx, CellState::Live(st)), ..g1.board };
        assert(x != idx);
        if mesh_size(mid, idx) >= COLLAPSE_THRESHOLD && in_mesh(mid, idx, x) {
            crate::mesh::lemma_connected_members(mid, crate::mesh::live_mask(mid, st), idx, x);
        }
    }
}

/// The sum of the four scores.
pub open spec fn score_total(scores: Seq<u32>) -> int {
    scores[0] + scores[1] + scores[2] + scores[3]
}

impl GameState {
    /// The final result: per-steward perma-dead, their total, whether every
    /// steward ended at zero, and the state hash.
    pub fn outcome(&self) -> (o: Outcome)
        requires
            self.wf(),
            score_total(self@.scores) <= u32::MAX,
        ensures
            o.permadead@ == self@.scores,
            o.total == score_total(self@.scores),
            o.all_survivors == (o.total == 0),
            o.board_state_hash@ == sha256_digest(state_preimage(self@)),
    {
        let scores = self.score_array();
        let total: u32 = scores[0] + scores[1] + scores[2] + scores[3];
        Outcome {
            permadead: scores,
            total,
            all_survivors: total == 0,
            board_state_hash: board_state_hash(self),
        }
    }
}

/// The number of perma-dead cells on the board.
pub open spec fn perma_count(m: BoardModel) -> nat {
    count_true(Seq::new(m.len(), |x: int| m.cells[x] == CellState::PermaDead))
}

/// Counting a pointwise disjoint union.
proof fn lemma_count_true_or(a: Seq<bool>, b: Seq<bool>, c: Seq<bool>)
    requires
        a.len() == b.len(),
        a.len() == c.len(),
        forall|x: int| 0 <= x < a.len() ==> a[x] == (b[x] || c[x]),
        forall|x: int| 0 <= x < a.len() ==> !(b[x] && c[x]),
    ensures
        count_true(a) == count_true(b) + count_true(c),
    decreases a.len(),
{
    if a.len() > 0 {
        lemma_count_true_or(a.drop_last(), b.drop_last(), c.drop_last());
    }
}

/// Laying out a smouldering crater creates exactly the rebuild's perma-dead
/// count of new perma-dead cells.
proof fn lemma_rebuild_perma(g: GameModel, mv: Move, fp: Seq<usize>, d: Dispersal)
    requires
        g.wf(),
        g.craters_smoulder(),
        g.pending[g.current as int] == Some(fp),
        realises(fp, planned_perma(g, mv, fp), planned_count(g, mv, fp), d),
    ensures
        perma_count(after_rebuild(g, mv).board) == perma_count(g.board) + planned_count(g, mv, fp),
{
    let m = g.board;
    let m1 = after_rebuild(g, mv).board;
    let ps = planned_perma(g, mv, fp);
    let len = m.len();
    let a = Seq::new(len, |x: int| m1.cells[x] == CellState::PermaDead);
    let b = Seq::new(len, |x: int| m.cells[x] == CellState::PermaDead);
    let c = Seq::new(len, |x: int| d.perma@.contains(x as usize));
    assert forall|x: int| 0 <= x < len implies a[x] == (b[x] || c[x]) && !(b[x] && c[x]) by {
        if fp.contains(x as usize) {
            let q = choose|q: int| 0 <= q < fp.len() && fp[q] == x as usize;
            assert(m.cells[fp[q] as int] == CellState::TempDead(steward_at(g.current)));
        } else {
            if d.perma@.contains(x as usize) {
                assert(ps.contains(x as usize));
            }
        }
    }
    lemma_count_true_or(a, b, c);
    assert forall|q: int| 0 <= q < d.perma@.len() implies #[trigger] d.perma@[q] < len by {
        assert(d.perma@.contains(d.perma@[q]));
        assert(ps.contains(d.perma@[q]));
        assert(fp.contains(d.perma@[q]));
        let w = choose|w: int| 0 <= w < fp.len() && fp[w] == d.perma@[q];
    }
    crate::mesh::lemma_count_listing(d.perma@, len as int);
}

/// A placement (and the collapse it may set off) creates no perma-dead cell.
proof fn lemma_place_keeps_perma(g1: GameModel, coord: Coord, cur: int, st: Steward)
    requires
        g1.board.wf(),
        g1.board.index_of(coord) is Some,
        0 <= g1.board.index_of(coord)->0 < g1.board.len(),
        g1.board.cells[g1.board.index_of(coord)->0] == CellState::Empty,
    ensures
        perma_count(after_place(g1, coord, cur, st).board) == perma_count(g1.board),
{
    let m = g1.board;
    let idx = m.index_of(coord)->0;
    let mid = BoardModel { cells: m.cells.update(idx, CellState::Live(st)), ..m };
    let m2 = after_place(g1, coord, cur, st).board;
    let a = Seq::new(m2.len(), |x: int| m2.cells[x] == CellState::PermaDead);
    let b = Seq::new(m.len(), |x: int| m.cells[x] == CellState::PermaDead);
    assert(mid.cells[idx] == CellState::Live(st));
    assert forall|x: int| 0 <= x < m.len() implies a[x] == b[x] by {
        if x == idx {
            assert(m2.cells[x] != CellState::PermaDead);
        } else if mesh_size(mid, idx) >= COLLAPSE_THRESHOLD {
            if in_mesh(mid, idx, x) {
                assert(connected(mid, crate::mesh::live_mask(mid, st), idx, x));
                crate::mesh::lemma_connected_members(mid, crate::mesh::live_mask(mid, st), idx, x);
                assert(mid.cells[x] == CellState::Live(st));
            } else {
                assert(m2.cells[x] == mid.cells[x]);
            }
        } else {
            assert(m2.cells[x] == mid.cells[x]);
        }
    }
    assert(a =~= b);
}

/// The state after one `apply_move` call: the move applied when it is
/// accepted, the state unchanged when it is refused.
pub open spec fn after_move(g: GameModel, mv: Move) -> GameModel {
    if move_error(g, mv) is None {
        applied(g, mv)
    } else {
        g
    }
}

/// The state after a sequence of `apply_move` calls, in order.
pub open spec fn after_moves(g: GameModel, moves: Seq<Move>) -> GameModel
    decreases moves.len(),
{
    if moves.len() == 0 {
        g
    } else {
        after_moves(after_move(g, moves[0]), moves.drop_first())
    }
}

/// Two fresh games of the same edge and perma-dead layout are the same game.
pub proof fn lemma_fresh_game_unique(g1: GameModel, g2: GameModel, n: u8, perma: Seq<usize>)
    requires
        g1.wf(),
        g2.wf(),
        fresh_game(g1, n, perma),
        fresh_game(g2, n, perma),
    ensures
        g1 == g2,
{
    lemma_board_layout_unique(g1.board, g2.board);
    assert(g1.board.cells =~= g2.board.cells);
    assert(g1.board =~= g2.board);
    assert(g1.history =~= g2.history);
    assert(g1.pending =~= g2.pending);
}

/// Replay is deterministic: two games built by the same constructor call and
/// fed the same moves reach the same state (hence the same scores, outcome and
/// state hash).
pub proof fn lemma_replay_deterministic(
    g1: GameModel,
    g2: GameModel,
    n: u8,
    perma: Seq<usize>,
    moves: Seq<Move>,
)
    requires
        g1.wf(),
        g2.wf(),
        fresh_game(g1, n, perma),
        fresh_game(g2, n, perma),
    ensures
        after_moves(g1, moves) == after_moves(g2, moves),
        state_preimage(after_moves(g1, moves)) == state_preimage(after_moves(g2, moves)),
{
    lemma_fresh_game_unique(g1, g2, n, perma);
}

/// Scores accrue at dispersal, never at collapse: an accepted move changes no
/// score when the mover owes no crater, and otherwise only the mover's, by the
/// perma-dead count of the rebuild.
pub proof fn lemma_score_at_dispersal(g: GameModel, mv: Move)
    requires
        g.wf(),
        move_error(g, mv) is None,
    ensures
        g.pending[g.current as int] is None ==> applied(g, mv).scores == g.scores,
        forall|s: int| 0 <= s < 4 && s != g.current ==> #[trigger] applied(g, mv).scores[s] == g.scores[s],
        g.pending[g.current as int] matches Some(fp) ==> applied(g, mv).scores[g.current as int] == (
        g.scores[g.current as int] + planned_count(g, mv, fp)) as u32,
{
}

/// Every placement is born live as a mesh of its own steward (a lone cell is a
/// first-class mesh): the target was empty, and after the move it is `Live`
/// unless its mesh reached the collapse threshold, in which case it smoulders
/// as part of the mover's owed crater.
pub proof fn lemma_placement_born_live(g: GameModel, mv: Move)
    requires
        g.wf(),
        g.craters_smoulder(),
        move_error(g, mv) is None,
        g.board.empty_count() > 0,
    ensures
        ({
            let idx = g.board.index_of(mv.coord)->0;
            let st = g.steward();
            let g1 = after_rebuild(g, mv);
            let mid = BoardModel { cells: g1.board.cells.update(idx, CellState::Live(st)), ..g1.board };
            &&& 0 <= idx < g.board.len()
            &&& g.board.cells[idx] == CellState::Empty
            &&& mesh_size(mid, idx) < COLLAPSE_THRESHOLD ==> applied(g, mv).board.cells[idx] == CellState::Live(st)
            &&& mesh_size(mid, idx) >= COLLAPSE_THRESHOLD ==> applied(g, mv).board.cells[idx] == CellState::TempDead(
                st,
            ) && applied(g, mv).pending[g.current as int] is Some
        }),
{
    lemma_index_of(g.board, mv.coord);
    let idx = g.board.index_of(mv.coord)->0;
    let st = g.steward();
    let g1 = after_rebuild(g, mv);
    let mid = BoardModel { cells: g1.board.cells.update(idx, CellState::Live(st)), ..g1.board };
    crate::mesh::lemma_connected_refl(mid, crate::mesh::live_mask(mid, st), idx);
    assert(in_mesh(mid, idx, idx));
}

/// Set every listed cell to `state`.
fn set_cells(board: &mut Board, cells: &Vec<usize>, state: CellState)
    requires
        old(board).wf(),
        forall|q: int| 0 <= q < cells@.len() ==> #[trigger] cells@[q] < old(board)@.len(),
    ensures
        final(board).wf(),
        final(board)@ == (BoardModel {
            cells: Seq::new(
                old(board)@.len(),
                |x: int|
                    if cells@.contains(x as usize) {
                        state
                    } else {
                        old(board)@.cells[x]
                    },
            ),
            ..old(board)@
        }),
{
    let mut t: usize = 0;
    while t < cells.len()
        invariant
            board.wf(),
            forall|q: int| 0 <= q < cells@.len() ==> #[trigger] cells@[q] < old(board)@.len(),
            t <= cells@.len(),
            board@ == (BoardModel {
                cells: Seq::new(
                    old(board)@.len(),
                    |x: int|
                        if cells@.take(t as int).contains(x as usize) {
                            state
                        } else {
                            old(board)@.cells[x]
                        },
                ),
                ..old(board)@
            }),
        decreases cells@.len() - t,
    {
        let c = cells[t];
        let ghost before = board@;
        board.set(c, state);
        proof {
            let ct = cells@.take(t as int);
            let ct1 = cells@.take(t + 1);
            assert(ct1 =~= ct.push(c));
            assert(board@.cells =~= Seq::new(
                old(board)@.len(),
                |x: int|
                    if ct1.contains(x as usize) {
                        state
                    } else {
                        old(board)@.cells[x]
                    },
            )) by {
                assert forall|x: int| 0 <= x < old(board)@.len() implies board@.cells[x] == (if ct1.contains(
                    x as usize,
                ) {
                    state
                } else {
                    old(board)@.cells[x]
                }) by {
                    if x == c as int {
                        assert(ct1[t as int] == c);
                    } else {
                        if ct1.contains(x as usize) {
                            let w = choose|w: int| 0 <= w < ct1.len() && ct1[w] == x as usize;
                            assert(ct[w] == x as usize);
                        }
                        if ct.contains(x as usize) {
                            let w = choose|w: int| 0 <= w < ct.len() && ct[w] == x as usize;
                            assert(ct1[w] == x as usize);
                        }
                    }
                }
            }
        }
        t += 1;
    }
    assert(cells@.take(cells@.len() as int) =~= cells@);
}

/// The coordinates of the listed cells.
fn coords_of(board: &Board, cells: &Vec<usize>) -> (r: Vec<Coord>)
    requires
        board.wf(),
        forall|q: int| 0 <= q < cells@.len() ==> #[trigger] cells@[q] < board@.len(),
    ensures
        r@ == cells@.map_values(|i: usize| board@.coords[i as int]),
{
    let mut r: Vec<Coord> = Vec::new();
    let mut t: usize = 0;
    while t < cells.len()
        invariant
            board.wf(),
            forall|q: int| 0 <= q < cells@.len() ==> #[trigger] cells@[q] < board@.len(),
            t <= cells@.len(),
            r@ =~= cells@.take(t as int).map_values(|i: usize| board@.coords[i as int]),
        decreases cells@.len() - t,
    {
        r.push(board.coord(cells[t]));
        t += 1;
    }
    assert(cells@.take(cells@.len() as int) =~= cells@);
    r
}

} // verus!
