//! Seat and view configuration, the attract-screen language cycle, the
//! end-of-game classification, and the screensaver's Easy move policy.
use vstd::prelude::*;

use crate::board::{Board, BoardModel, CellState, Coord, Steward};
use crate::daily_seed::{chacha8_word, chacha8_word_at, Difficulty};
use crate::engine::{applied, legal_targets, move_error, GameModel, GameState, Move};
use crate::mesh::{connected, count_true, flood_fill, live_mask, marked_indices};
use crate::neighbor_list::{neighbor_items, neighbor_list_as_slice};
use crate::COLLAPSE_THRESHOLD;

verus! {

/// How the app was launched, which decides the seat defaults.
#[derive(Clone, Copy, Debug, PartialEq, Eq, Structural)]
pub enum AppMode {
    /// A person is playing: seat 0 defaults to Human.
    Human,
    /// An out-of-process agent is driving: seat 0 defaults to Agent.
    Agent,
}

/// What kind of player occupies a steward seat.
#[derive(Clone, Copy, Debug, PartialEq, Eq, Structural)]
pub enum PlayerKind {
    Human,
    Computer,
    Agent,
}

/// One steward seat's configuration; `difficulty` matters only for a
/// `Computer` seat.
#[derive(Clone, Copy, Debug, PartialEq, Eq, Structural)]
pub struct SlotConfig {
    pub kind: PlayerKind,
    pub difficulty: Difficulty,
}

/// The four-seat roster, in steward-slot order.
#[derive(Clone, Copy, Debug)]
pub struct RosterConfig {
    pub slots: [SlotConfig; 4],
}

impl RosterConfig {
    /// The default roster: a Human (an Agent, in agent mode) in seat 0 and three
    /// Computer opponents at Medium, Hard and Easy.
    pub fn default_for(mode: AppMode) -> (r: Self)
        ensures
            r.slots@[0] == (SlotConfig {
                kind: if mode == AppMode::Agent {
                    PlayerKind::Agent
                } else {
                    PlayerKind::Human
                },
                difficulty: Difficulty::Easy,
            }),
            r.slots@[1] == (SlotConfig { kind: PlayerKind::Computer, difficulty: Difficulty::Medium }),
            r.slots@[2] == (SlotConfig { kind: PlayerKind::Computer, difficulty: Difficulty::Hard }),
            r.slots@[3] == (SlotConfig { kind: PlayerKind::Computer, difficulty: Difficulty::Easy }),
    {
        let seat0 = match mode {
            AppMode::Agent => PlayerKind::Agent,
            AppMode::Human => PlayerKind::Human,
        };
        RosterConfig {
            slots: [
                SlotConfig { kind: seat0, difficulty: Difficulty::Easy },
                SlotConfig { kind: PlayerKind::Computer, difficulty: Difficulty::Medium },
                SlotConfig { kind: PlayerKind::Computer, difficulty: Difficulty::Hard },
                SlotConfig { kind: PlayerKind::Computer, difficulty: Difficulty::Easy },
            ],
        }
    }
}

/// Delivery format of the snapshot (for people: the flat alternate view).
#[derive(Clone, Copy, Debug, PartialEq, Eq, Structural)]
pub enum ViewFormat {
    Json,
    Ascii,
    Png,
    Animation,
}

/// Visual effects budget.
#[derive(Clone, Copy, Debug, PartialEq, Eq, Structural)]
pub enum Quality {
    Low,
    Medium,
    High,
}

/// UI text size.
#[derive(Clone, Copy, Debug, PartialEq, Eq, Structural)]
pub enum TextScale {
    Small,
    Normal,
    Large,
}

/// The shared view and accessibility configuration.
#[derive(Clone, Copy, Debug, PartialEq, Eq, Structural)]
pub struct ViewConfig {
    /// Render graphics at all.
    pub graphics: bool,
    /// Deliver motion.
    pub animation: bool,
    /// Delivery format.
    pub format: ViewFormat,
    /// Animation frame rate, fps.
    pub framerate: u8,
    /// Image size in px.
    pub size: u32,
    pub screen_reader: bool,
    pub captions: bool,
    pub high_contrast: bool,
    pub colorblind: bool,
    pub text_scale: TextScale,
    pub audio_muted: bool,
    /// Effects quality when `graphics` is on.
    pub quality: Quality,
}

impl Default for ViewConfig {
    /// Graphics on, a single PNG frame at 128 px, animation off (6 fps when on).
    fn default() -> (r: Self)
        ensures
            r == (ViewConfig {
                graphics: true,
                animation: false,
                format: ViewFormat::Png,
                framerate: 6,
                size: 128,
                screen_reader: false,
                captions: false,
                high_contrast: false,
                colorblind: false,
                text_scale: TextScale::Normal,
                audio_muted: false,
                quality: Quality::High,
            }),
    {
        ViewConfig {
            graphics: true,
            animation: false,
            format: ViewFormat::Png,
            framerate: 6,
            size: 128,
            screen_reader: false,
            captions: false,
            high_contrast: false,
            colorblind: false,
            text_scale: TextScale::Normal,
            audio_muted: false,
            quality: Quality::High,
        }
    }
}

/// The language index shown at position `seq` of the attract cycle: English
/// (index 0) at every fourth position, the 28 other languages (indices 1..=28)
/// cycling through the other three.
pub open spec fn lang_index(seq: u32) -> int {
    if seq % 4 == 3 {
        0
    } else {
        ((seq / 4) * 3 + seq % 4) % 28 + 1
    }
}

/// The language index for attract-cycle position `seq`.
pub fn lang_for_seq(seq: u32) -> (r: usize)
    ensures
        r == lang_index(seq),
        r <= 28,
{
    if seq % 4 == 3 {
        return 0;
    }
    let non_en_idx = ((seq / 4) * 3 + seq % 4) as usize % 28;
    non_en_idx + 1
}

/// Which ending plays on a finished board.
#[derive(Clone, Copy, Debug, PartialEq, Eq, Structural)]
pub enum EndKind {
    /// No perma-dead anywhere: the cooperative ending.
    Wild,
    /// Perma-dead exists and a live cell sits beside it.
    Mourn,
    /// Perma-dead exists but no live cell touches it.
    Celebrate,
}

/// Some cell is perma-dead.
pub open spec fn any_perma(m: BoardModel) -> bool {
    exists|x: int| 0 <= x < m.len() && #[trigger] m.cells[x] == CellState::PermaDead
}

/// Some live cell is face-adjacent to a perma-dead cell.
pub open spec fn live_beside_perma(m: BoardModel) -> bool {
    exists|x: int, y: int|
        0 <= x < m.len() && 0 <= y < m.len() && #[trigger] m.cells[x] is Live && #[trigger] m.adjacent(x, y)
            && m.cells[y] == CellState::PermaDead
}

/// The ending for board `m`.
pub open spec fn ending_of(m: BoardModel) -> EndKind {
    if !any_perma(m) {
        EndKind::Wild
    } else if live_beside_perma(m) {
        EndKind::Mourn
    } else {
        EndKind::Celebrate
    }
}

/// Classify the board: `Wild` with no perma-dead, else `Mourn` when some live
/// cell touches perma-dead, else `Celebrate`.
pub fn classify(gs: &GameState) -> (r: EndKind)
    requires
        gs.wf(),
    ensures
        r == ending_of(gs@.board),
{
    let b = gs.board_ref();
    let ghost m = b@;
    let len = b.len();
    let mut any_dead = false;
    let mut i: usize = 0;
    while i < len
        invariant
            b@ == m,
            b.wf(),
            len == m.len(),
            i <= len,
            any_dead <==> exists|x: int| 0 <= x < i && #[trigger] m.cells[x] == CellState::PermaDead,
        decreases len - i,
    {
        if b.get(i) == CellState::PermaDead {
            any_dead = true;
        }
        i += 1;
    }
    if !any_dead {
        return EndKind::Wild;
    }
    let mut near = false;
    let mut i: usize = 0;
    while i < len
        invariant
            b@ == m,
            b.wf(),
            len == m.len(),
            i <= len,
            near <==> exists|x: int, y: int|
                0 <= x < i && 0 <= y < m.len() && #[trigger] m.cells[x] is Live && #[trigger] m.adjacent(x, y)
                    && m.cells[y] == CellState::PermaDead,
        decreases len - i,
    {
        if let CellState::Live(_) = b.get(i) {
            let nbs = b.neighbors(i);
            let sl = neighbor_list_as_slice(&nbs);
            let mut t: usize = 0;
            let ghost was = near;
            while t < sl.len()
                invariant
                    b@ == m,
                    b.wf(),
                    len == m.len(),
                    i < len,
                    m.cells[i as int] is Live,
                    sl@ == neighbor_items(nbs),
                    crate::board::is_neighbor_list(m, i as int, sl@),
                    t <= sl@.len(),
                    near <==> was || exists|q: int|
                        0 <= q < t && m.cells[#[trigger] sl@[q] as int] == CellState::PermaDead,
                decreases sl@.len() - t,
            {
                let nb = sl[t];
                assert(m.adjacent(i as int, sl@[t as int] as int));
                if b.get(nb) == CellState::PermaDead {
                    near = true;
                }
                t += 1;
            }
            proof {
                if near && !was {
                    let q = choose|q: int| 0 <= q < sl@.len() && m.cells[#[trigger] sl@[q] as int] == CellState::PermaDead;
                    assert(m.adjacent(i as int, sl@[q] as int));
                    assert(m.cells[i as int] is Live);
                }
                if !near {
                    assert forall|y: int| 0 <= y < m.len() && #[trigger] m.adjacent(i as int, y) implies m.cells[y]
                        != CellState::PermaDead by {
                        assert(sl@.contains(y as usize));
                        let q = choose|q: int| 0 <= q < sl@.len() && sl@[q] == y as usize;
                        assert(m.cells[sl@[q] as int] != CellState::PermaDead);
                    }
                }
            }
        }
        i += 1;
    }
    if near {
        EndKind::Mourn
    } else {
        EndKind::Celebrate
    }
}

/// Little-endian byte `i` of `x`.
pub open spec fn le_byte(x: u64, i: int) -> u8 {
    ((x >> (8 * i) as u64) & 0xff) as u8
}

/// A 32-byte game seed: `counter` little-endian in bytes 0..8, zero after.
pub open spec fn counter_seed(counter: u64) -> Seq<u8> {
    Seq::new(32, |i: int| if i < 8 { le_byte(counter, i) } else { 0u8 })
}

/// The 32-byte game seed of a screensaver round counter.
pub fn seed_from_counter(counter: u64) -> (seed: [u8; 32])
    ensures
        seed@ == counter_seed(counter),
{
    let mut seed = [0u8; 32];
    let mut i: usize = 0;
    while i < 8
        invariant
            i <= 8,
            seed@.len() == 32,
            forall|p: int| 0 <= p < i ==> #[trigger] seed@[p] == le_byte(counter, p),
            forall|p: int| i <= p < 32 ==> #[trigger] seed@[p] == 0u8,
        decreases 8 - i,
    {
        let shift: u64 = 8 * i as u64;
        let b = ((counter >> shift) & 0xff) as u8;
        seed[i] = b;
        i += 1;
    }
    assert(seed@ =~= counter_seed(counter));
    seed
}

/// The AI's seed for a round: the round's game seed with byte 31 set to
/// `0xA5`, so the AI stream never coincides with the game's.
pub open spec fn round_ai_seed(round: u64) -> Seq<u8> {
    counter_seed(round).update(31, 0xA5u8)
}

/// The AI seed of screensaver round `round`.
pub fn ai_seed(round: u64) -> (seed: [u8; 32])
    ensures
        seed@ == round_ai_seed(round),
{
    let mut seed = seed_from_counter(round);
    seed[31] = 0xA5;
    seed
}

/// The AI's random stream: word `pos` onward of the ChaCha8 stream keyed by
/// `seed`.
pub struct AiStream {
    pub seed: [u8; 32],
    pub pos: u64,
}

impl AiStream {
    /// The stream of screensaver round `round`, at its first word.
    pub fn new(round: u64) -> (r: Self)
        ensures
            r.seed@ == round_ai_seed(round),
            r.pos == 0,
    {
        AiStream { seed: ai_seed(round), pos: 0 }
    }

    /// The next word of the stream.
    pub fn next_u32(&mut self) -> (w: u32)
        requires
            old(self).pos < u64::MAX,
        ensures
            w == chacha8_word(old(self).seed@, old(self).pos),
            final(self).seed == old(self).seed,
            final(self).pos == old(self).pos + 1,
    {
        let w = chacha8_word_at(self.seed, self.pos);
        self.pos = self.pos + 1;
        w
    }
}

/// The number of cells a flood from `idx` reaches through cells of `s`,
/// counting `idx` itself: the size `s`'s mesh would have with a cell at `idx`.
pub open spec fn placed_size(m: BoardModel, s: Steward, idx: int) -> nat {
    count_true(Seq::new(m.len(), |x: int| connected(m, live_mask(m, s).update(idx, true), idx, x)))
}

/// Size the same-steward mesh would have if `steward` placed a live cell at
/// `idx`.
pub fn placed_mesh_size(board: &Board, steward: Steward, idx: usize) -> (r: usize)
    requires
        board.wf(),
        idx < board@.len(),
    ensures
        r == placed_size(board@, steward, idx as int),
{
    let mut mask = board.live_mask_of(steward);
    mask.set(idx, true);
    let seen = flood_fill(board, &mask, idx);
    let reached = marked_indices(&seen);
    proof {
        assert(seen@ =~= Seq::new(
            board@.len(),
            |x: int| connected(board@, live_mask(board@, steward).update(idx as int, true), idx as int, x),
        ));
    }
    reached.len()
}

/// The coordinates among the first `t` of `legal` whose placement would not
/// collapse `s`'s mesh.
pub open spec fn safe_upto(m: BoardModel, s: Steward, legal: Seq<Coord>, t: int) -> Seq<Coord>
    decreases t,
{
    if t <= 0 {
        seq![]
    } else {
        let p = safe_upto(m, s, legal, t - 1);
        let c = legal[t - 1];
        if m.index_of(c) is Some && placed_size(m, s, m.index_of(c)->0) < COLLAPSE_THRESHOLD {
            p.push(c)
        } else {
            p
        }
    }
}

/// The Easy policy's choice for draw `w`: a legal cell picked by `w` among the
/// cells that do not collapse the mover's mesh, or among all legal cells when
/// every one would; `None` when there is no legal cell.
pub open spec fn easy_choice(m: BoardModel, s: Steward, w: u32) -> Option<Coord> {
    let legal = legal_targets(m);
    let safe = safe_upto(m, s, legal, legal.len() as int);
    let pool = if safe.len() == 0 {
        legal
    } else {
        safe
    };
    if legal.len() == 0 {
        None
    } else {
        Some(pool[(w as int) % (pool.len() as int)])
    }
}

/// Every cell kept by `safe_upto` is a legal cell whose placement leaves the
/// mover's mesh below the collapse size, and every such cell is kept.
proof fn lemma_safe_upto(m: BoardModel, s: Steward, legal: Seq<Coord>, t: int)
    requires
        0 <= t <= legal.len(),
    ensures
        safe_upto(m, s, legal, t).len() <= t,
        forall|q: int|
            0 <= q < safe_upto(m, s, legal, t).len() ==> {
                let c = #[trigger] safe_upto(m, s, legal, t)[q];
                &&& legal.contains(c)
                &&& m.index_of(c) is Some
                &&& placed_size(m, s, m.index_of(c)->0) < COLLAPSE_THRESHOLD
            },
        forall|i: int|
            0 <= i < t && m.index_of(#[trigger] legal[i]) is Some && placed_size(m, s, m.index_of(legal[i])->0)
                < COLLAPSE_THRESHOLD ==> safe_upto(m, s, legal, t).contains(legal[i]),
    decreases t,
{
    if t > 0 {
        lemma_safe_upto(m, s, legal, t - 1);
        let p = safe_upto(m, s, legal, t - 1);
        let r = safe_upto(m, s, legal, t);
        assert forall|q: int| 0 <= q < r.len() implies {
            let c = #[trigger] r[q];
            &&& legal.contains(c)
            &&& m.index_of(c) is Some
            &&& placed_size(m, s, m.index_of(c)->0) < COLLAPSE_THRESHOLD
        } by {
            if q < p.len() {
                assert(r[q] == p[q]);
            } else {
                assert(r[q] == legal[t - 1]);
            }
        }
        assert forall|i: int|
            0 <= i < t && m.index_of(#[trigger] legal[i]) is Some && placed_size(m, s, m.index_of(legal[i])->0)
                < COLLAPSE_THRESHOLD implies r.contains(legal[i]) by {
            if i < t - 1 {
                assert(p.contains(legal[i]));
                let w = choose|w: int| 0 <= w < p.len() && p[w] == legal[i];
                assert(r[w] == legal[i]);
            } else {
                assert(r[r.len() - 1] == legal[i]);
            }
        }
    }
}

/// The Easy policy never collapses its own mesh when it can avoid it: if some
/// legal cell would leave the mover's mesh below the collapse size, the chosen
/// cell is a legal one that does too. Whatever it picks is a legal cell.
pub proof fn lemma_easy_choice_avoids_collapse(m: BoardModel, s: Steward, w: u32)
    ensures
        easy_choice(m, s, w) matches Some(c) ==> legal_targets(m).contains(c),
        (exists|i: int|
            0 <= i < legal_targets(m).len() && m.index_of(#[trigger] legal_targets(m)[i]) is Some && placed_size(
                m,
                s,
                m.index_of(legal_targets(m)[i])->0,
            ) < COLLAPSE_THRESHOLD) ==> (easy_choice(m, s, w) matches Some(c) && m.index_of(c) is Some
            && placed_size(m, s, m.index_of(c)->0) < COLLAPSE_THRESHOLD),
{
    let legal = legal_targets(m);
    let safe = safe_upto(m, s, legal, legal.len() as int);
    lemma_safe_upto(m, s, legal, legal.len() as int);
    if legal.len() > 0 {
        let pool = if safe.len() == 0 {
            legal
        } else {
            safe
        };
        let q = (w as int) % (pool.len() as int);
        if safe.len() == 0 {
            assert(legal.contains(legal[q]));
        } else {
            assert(safe[q] == pool[q]);
        }
    }
    if exists|i: int|
        0 <= i < legal.len() && m.index_of(#[trigger] legal[i]) is Some && placed_size(m, s, m.index_of(legal[i])->0)
            < COLLAPSE_THRESHOLD {
        let i = choose|i: int|
            0 <= i < legal.len() && m.index_of(#[trigger] legal[i]) is Some && placed_size(
                m,
                s,
                m.index_of(legal[i])->0,
            ) < COLLAPSE_THRESHOLD;
        assert(safe.contains(legal[i]));
        assert(safe.len() > 0);
        let q = (w as int) % (safe.len() as int);
        assert(0 <= q < safe.len());
        assert(safe[q] == safe[q]);
    }
}

/// Every legal cell that leaves the mover's mesh below the collapse size is
/// the Easy choice for some draw: the policy picks among all such cells.
pub proof fn lemma_easy_choice_reaches_safe_cells(m: BoardModel, s: Steward, c: Coord)
    requires
        legal_targets(m).len() <= u32::MAX,
        legal_targets(m).contains(c),
        m.index_of(c) is Some,
        placed_size(m, s, m.index_of(c)->0) < COLLAPSE_THRESHOLD,
    ensures
        exists|w: u32| #[trigger] easy_choice(m, s, w) == Some(c),
{
    let legal = legal_targets(m);
    let safe = safe_upto(m, s, legal, legal.len() as int);
    lemma_safe_upto(m, s, legal, legal.len() as int);
    let i = choose|i: int| 0 <= i < legal.len() && legal[i] == c;
    assert(safe.contains(legal[i]));
    let j = choose|j: int| 0 <= j < safe.len() && safe[j] == c;
    let w = j as u32;
    assert(w as int == j);
    let len = safe.len() as int;
    assert(j % len == j) by (nonlinear_arith)
        requires
            0 <= j < len,
    ;
    assert(easy_choice(m, s, w) == Some(c));
}

/// The Easy policy's move for draw `w`.
pub fn easy_pick(gs: &GameState, w: u32) -> (r: Option<Coord>)
    requires
        gs.wf(),
    ensures
        r == easy_choice(gs@.board, gs@.steward(), w),
        r matches Some(c) ==> legal_targets(gs@.board).contains(c),
        (exists|i: int|
            0 <= i < legal_targets(gs@.board).len() && gs@.board.index_of(#[trigger] legal_targets(gs@.board)[i])
                is Some && placed_size(gs@.board, gs@.steward(), gs@.board.index_of(legal_targets(gs@.board)[i])->0)
                < COLLAPSE_THRESHOLD) ==> (r matches Some(c) && gs@.board.index_of(c) is Some && placed_size(
            gs@.board,
            gs@.steward(),
            gs@.board.index_of(c)->0,
        ) < COLLAPSE_THRESHOLD),
{
    proof {
        lemma_easy_choice_avoids_collapse(gs@.board, gs@.steward(), w);
    }
    let legal = gs.legal_moves();
    if legal.len() == 0 {
        return None;
    }
    let steward = gs.current_steward();
    let board = gs.board_ref();
    let ghost m = board@;
    let mut safe: Vec<Coord> = Vec::new();
    let mut t: usize = 0;
    while t < legal.len()
        invariant
            board.wf(),
            board@ == m,
            t <= legal@.len(),
            safe@ == safe_upto(m, steward, legal@, t as int),
        decreases legal@.len() - t,
    {
        let c = legal[t];
        match board.index(c) {
            Some(idx) => {
                proof {
                    crate::board::lemma_index_of(m, c);
                }
                if placed_mesh_size(board, steward, idx) < COLLAPSE_THRESHOLD {
                    safe.push(c);
                }
            },
            None => {},
        }
        t += 1;
    }
    let pool = if safe.len() == 0 {
        &legal
    } else {
        &safe
    };
    let pick = (w as usize) % pool.len();
    Some(pool[pick])
}

/// Choose the Easy policy's move, drawing one word from `rng` when there is a
/// legal cell.
pub fn choose_move(gs: &GameState, rng: &mut AiStream) -> (r: Option<Coord>)
    requires
        gs.wf(),
        old(rng).pos < u64::MAX,
    ensures
        legal_targets(gs@.board).len() == 0 ==> r is None && *final(rng) == *old(rng),
        legal_targets(gs@.board).len() > 0 ==> r == easy_choice(
            gs@.board,
            gs@.steward(),
            chacha8_word(old(rng).seed@, old(rng).pos),
        ) && final(rng).seed == old(rng).seed && final(rng).pos == old(rng).pos + 1,
{
    let legal = gs.legal_moves();
    if legal.len() == 0 {
        return None;
    }
    let w = rng.next_u32();
    easy_pick(gs, w)
}


/// The placement the screensaver makes: the Easy choice for draw `w`, or, with
/// no legal cell left, a placement at the origin that only settles an owed
/// crater.
pub open spec fn screensaver_coord(m: BoardModel, s: Steward, w: u32) -> Coord {
    match easy_choice(m, s, w) {
        Some(c) => c,
        None => Coord { i: 0, j: 0, k: 0 },
    }
}

/// Apply one Easy-policy move for the current steward; returns whether the
/// board changed. A rejected move leaves the game as it was.
pub fn step_ai(gs: &mut GameState, rng: &mut AiStream) -> (changed: bool)
    requires
        old(gs).wf(),
        old(gs)@.turn < u32::MAX,
        old(gs)@.pending[old(gs)@.current as int] matches Some(fp) ==> old(gs)@.scores[old(
            gs,
        )@.current as int] + fp.len() <= u32::MAX,
        old(rng).pos < u64::MAX,
    ensures
        final(gs).wf(),
        ({
            let w = chacha8_word(old(rng).seed@, old(rng).pos);
            let mv = Move { coord: screensaver_coord(old(gs)@.board, old(gs)@.steward(), w), dispersal: None };
            &&& changed == (move_error(old(gs)@, mv) is None)
            &&& changed ==> final(gs)@ == applied(old(gs)@, mv)
            &&& !changed ==> final(gs)@ == old(gs)@
        }),
        final(rng).seed == old(rng).seed,
        legal_targets(old(gs)@.board).len() == 0 ==> final(rng).pos == old(rng).pos,
        legal_targets(old(gs)@.board).len() > 0 ==> final(rng).pos == old(rng).pos + 1,
{
    let mv = match choose_move(gs, rng) {
        Some(coord) => Move::place(coord),
        None => Move::place(Coord::new(0, 0, 0)),
    };
    gs.apply_move(mv).is_ok()
}

/// The placement a person's click makes: when the game is not over, the seat to
/// move is a Human seat, and the hovered cell is a legal target, that cell.
pub open spec fn click_placement(g: GameModel, roster: RosterConfig, hovered: Option<usize>) -> Option<Coord> {
    match hovered {
        Some(idx) => {
            let c = g.board.coords[idx as int];
            if !g.over() && roster.slots@[g.current as int].kind == PlayerKind::Human && legal_targets(
                g.board,
            ).contains(c) {
                Some(c)
            } else {
                None
            }
        },
        None => None,
    }
}

/// The cell a person's click places on, if the click is accepted.
pub fn human_click(gs: &GameState, roster: &RosterConfig, hovered: Option<usize>) -> (r: Option<Coord>)
    requires
        gs.wf(),
        hovered matches Some(idx) ==> idx < gs@.board.len(),
    ensures
        r == click_placement(gs@, *roster, hovered),
{
    if gs.is_over() {
        return None;
    }
    let slot = gs.current_slot() as usize;
    if roster.slots[slot].kind != PlayerKind::Human {
        return None;
    }
    let idx = match hovered {
        Some(idx) => idx,
        None => return None,
    };
    let board = gs.board_ref();
    let coord = board.coord(idx);
    let legal = gs.current_legal_moves();
    let mut t: usize = 0;
    while t < legal.len()
        invariant
            t <= legal@.len(),
            forall|q: int| 0 <= q < t ==> legal@[q] != coord,
            legal@ == legal_targets(gs@.board),
            !gs@.over(),
            roster.slots@[gs@.current as int].kind == PlayerKind::Human,
            hovered == Some(idx),
            coord == gs@.board.coords[idx as int],
        decreases legal@.len() - t,
    {
        if coord_eq(legal[t], coord) {
            assert(legal@[t as int] == coord);
            assert(legal@.contains(coord));
            return Some(coord);
        }
        t += 1;
    }
    None
}

/// Coordinate equality.
fn coord_eq(a: Coord, b: Coord) -> (r: bool)
    ensures
        r == (a == b),
{
    a.i == b.i && a.j == b.j && a.k == b.k
}


/// The cell an agent seat forfeits to when no reply arrives in time: the first
/// legal cell, or the origin when none remains.
pub open spec fn forfeit_coord(g: GameModel) -> Coord {
    let legal = legal_targets(g.board);
    if legal.len() == 0 {
        Coord { i: 0, j: 0, k: 0 }
    } else {
        legal[0]
    }
}

/// The move an agent seat makes: its reply when one arrived, else a forfeit
/// placement.
pub fn agent_move_or_forfeit(gs: &GameState, reply: Option<Move>) -> (mv: Move)
    requires
        gs.wf(),
    ensures
        match reply {
            Some(m) => mv == m,
            None => mv.coord == forfeit_coord(gs@) && mv.dispersal is None,
        },
{
    match reply {
        Some(m) => m,
        None => {
            let legal = gs.current_legal_moves();
            if legal.len() == 0 {
                Move::place(Coord::new(0, 0, 0))
            } else {
                Move::place(legal[0])
            }
        },
    }
}


/// What the screensaver does on a frame.
#[derive(Clone, Copy, Debug, PartialEq, Eq, Structural)]
pub enum ScreensaverAction {
    /// Start the next round: a fresh board and a fresh AI stream.
    Reseed,
    /// The game is over: hold on the final board.
    StartHold,
    /// Apply one Easy-policy move.
    Step,
    /// Nothing this frame.
    Wait,
}

/// The screensaver's decision: while holding, reseed once the hold has run out;
/// otherwise, when the step timer fires, hold on a finished board or make a
/// move.
pub fn screensaver_action(holding: bool, hold_finished: bool, step_finished: bool, over: bool) -> (r:
    ScreensaverAction)
    ensures
        r == if holding {
            if hold_finished {
                ScreensaverAction::Reseed
            } else {
                ScreensaverAction::Wait
            }
        } else if step_finished {
            if over {
                ScreensaverAction::StartHold
            } else {
                ScreensaverAction::Step
            }
        } else {
            ScreensaverAction::Wait
        },
{
    if holding {
        if hold_finished {
            ScreensaverAction::Reseed
        } else {
            ScreensaverAction::Wait
        }
    } else if step_finished {
        if over {
            ScreensaverAction::StartHold
        } else {
            ScreensaverAction::Step
        }
    } else {
        ScreensaverAction::Wait
    }
}

} // verus!
