//! Concrete checks of the library's contracts: laws on chosen values, error
//! variants, exact formula values, and the outside calls behind the hashes and
//! the random streams.

use ciris_game_engine_core::board_view::{
    AgentViewOpts, BoardView, CameraAngle, default_png_size,
};
use ciris_game_engine_core::daily_seed::shuffle_roster;
use ciris_game_engine_core::hash::board_state_hash;
use ciris_game_engine_core::report::{cell_char, turn_events, winners};
use ciris_game_engine_core::session::{
    agent_move_or_forfeit, ai_seed, choose_move, classify, human_click, lang_for_seq, placed_mesh_size, seed_from_counter, step_ai,
    screensaver_action, AiStream, AppMode, EndKind, ScreensaverAction, PlayerKind, RosterConfig, ViewConfig, ViewFormat,
};
use ciris_game_engine_core::temperature::{resonance_margin, resonance_triggers, temperature};
use ciris_game_engine_core::{
    derive_daily_seed, dispersal_counts, is_crossing_illegal, try_derive_daily_seed, Board,
    CellState, Coord, Difficulty, GameState, LayoutError, Move, MoveError, Steward,
    validate_layout,
};
use base64::Engine;
use ciris_game_engine_core::scene::{
    atari_flags, board_transitions, bond_pairs, rest_phase, transition_phase, MistPhase,
};
use ciris_game_engine_core::wizard::{apply_wizard_action, kind_key, WizAction, WizardState};
use ciris_game_engine_core::i18n::is_rtl;
use ciris_game_engine_core::algorithm_a;
use ciris_game_engine_core::dispersal::auto_layout;
use ciris_game_engine_core::agent_image::{grid_raster, render_png_grid};
use rand_chacha::ChaCha8Rng;
use rand_core::{RngCore, SeedableRng};
use sha2::{Digest, Sha256};

/// The daily state computed step by step with the outside crates directly.
fn daily_by_hand(date: &str, n: u8) -> ([Difficulty; 4], u32, Vec<usize>, [u8; 32]) {
    let mut h = Sha256::new();
    h.update(b"ciris-daily-");
    h.update(date.as_bytes());
    let key: [u8; 32] = h.finalize().into();
    let mut rng = ChaCha8Rng::from_seed(key);
    let total = Board::new(n).len();
    let mut roster = [Difficulty::Easy, Difficulty::Medium, Difficulty::Hard, Difficulty::Brutal];
    for i in (2usize..=3).rev() {
        let j = 1 + (rng.next_u32() as usize % i);
        roster.swap(i, j);
    }
    let k = 3 + (rng.next_u32() % 13);
    let mut indices: Vec<usize> = (0..total).collect();
    for i in 0..k as usize {
        let j = i + (rng.next_u32() as usize % (total - i));
        indices.swap(i, j);
    }
    let mut perma: Vec<usize> = indices[..k as usize].to_vec();
    perma.sort_unstable();
    let mut h = Sha256::new();
    h.update(date.as_bytes());
    h.update(k.to_le_bytes());
    for &idx in &perma {
        h.update((idx as u32).to_le_bytes());
    }
    (roster, k, perma, h.finalize().into())
}

#[test]
fn daily_seed_matches_sequential_stream() {
    for date in ["2026-06-27", "2026-01-01", "1999-12-31"] {
        let ds = derive_daily_seed(date, 5);
        let (roster, k, perma, hash) = daily_by_hand(date, 5);
        assert_eq!(ds.roster, roster);
        assert_eq!(ds.k, k);
        assert_eq!(ds.perma_dead, perma);
        assert_eq!(ds.board_state_hash, hash);
    }
}

#[test]
fn daily_seed_refused_on_a_tiny_board() {
    // A one-cell board cannot hold the three or more perma-dead cells of any day.
    assert!(try_derive_daily_seed("2026-06-27", 1).is_none());
    assert!(GameState::try_from_daily_seed("2026-06-27", 1, [0u8; 32]).is_none());
    let ds = try_derive_daily_seed("2026-06-27", 5).unwrap();
    assert_eq!(ds, derive_daily_seed("2026-06-27", 5));
}

#[test]
fn daily_game_lays_out_the_day() {
    let date = "2026-06-27";
    let ds = derive_daily_seed(date, 5);
    let gs = GameState::from_daily_seed(date, 5, [42u8; 32]);
    for idx in 0..gs.board.len() {
        let expected = if ds.perma_dead.contains(&idx) { CellState::PermaDead } else { CellState::Empty };
        assert_eq!(gs.board.get(idx), expected);
    }
    assert_eq!(gs.board.empty_count(), gs.board.len() - ds.k as usize);
    let gs2 = GameState::try_from_daily_seed(date, 5, [42u8; 32]).unwrap();
    assert_eq!(gs2.outcome(), gs.outcome());
}

#[test]
fn roster_shuffle_exact() {
    // w0 % 3 == 0 swaps slot 3 with slot 1; w1 % 2 == 1 swaps slot 2 with slot 2.
    assert_eq!(
        shuffle_roster(3, 1),
        [Difficulty::Easy, Difficulty::Brutal, Difficulty::Hard, Difficulty::Medium]
    );
    // w0 % 3 == 2 leaves slot 3; w1 % 2 == 0 swaps slot 2 with slot 1.
    assert_eq!(
        shuffle_roster(2, 0),
        [Difficulty::Easy, Difficulty::Hard, Difficulty::Medium, Difficulty::Brutal]
    );
}

#[test]
fn state_hash_matches_preimage() {
    let mut gs = GameState::new(5, [9u8; 32]);
    let c = gs.board.coord(10);
    gs.apply_move(Move::new(c.i, c.j, c.k)).unwrap();
    let mut bytes = vec![gs.board.n];
    for idx in 0..gs.board.len() {
        bytes.push(match gs.board.get(idx) {
            CellState::Empty => 0,
            CellState::Live(s) => 1 + s.slot(),
            CellState::TempDead(s) => 5 + s.slot(),
            CellState::PermaDead => 9,
        });
    }
    for s in gs.scores {
        bytes.extend_from_slice(&s.to_le_bytes());
    }
    bytes.push(gs.current);
    let expected: [u8; 32] = Sha256::digest(&bytes).into();
    assert_eq!(board_state_hash(&gs), expected);
    assert_eq!(gs.outcome().board_state_hash, expected);
}

#[test]
fn outcome_totals() {
    let mut gs = GameState::new(5, [1u8; 32]);
    gs.scores = [1, 2, 0, 4];
    let o = gs.outcome();
    assert_eq!(o.permadead, [1, 2, 0, 4]);
    assert_eq!(o.total, 7);
    assert!(!o.all_survivors);
}

#[test]
fn temperature_exact_values() {
    // alpha*3 + (gamma*6 + delta*3) = 180 + 300 + 180.
    assert_eq!(temperature(3, &[6]), 660);
    // alpha*5 + (-beta*(5-2) + delta*2) = 300 - 240 + 120.
    assert_eq!(temperature(5, &[2]), 180);
    assert_eq!(temperature(4, &[]), 240);
    assert_eq!(temperature(0, &[]), 0);
    assert_eq!(resonance_margin(6, 5), (600, 610));
    assert_eq!(resonance_margin(7, 7), (840, 770));
}

#[test]
fn resonance_laws_on_values() {
    for s in 1..=40usize {
        assert!(resonance_triggers(s, s));
        assert!(temperature(s + 1, &[]) > temperature(s, &[]));
        assert!(temperature(s, &[s, 3]) > temperature(s, &[3]));
    }
    for m in 2..=40usize {
        assert!(!resonance_triggers(m, 1));
        assert!(!resonance_triggers(1, m));
    }
    assert!(!resonance_triggers(0, 0));
}

#[test]
fn fresh_snapshot() {
    let gs = GameState::new(5, [0u8; 32]);
    let v = BoardView::from_game_state(&gs);
    assert_eq!(v.board_n, 5);
    assert!(v.cells.is_empty() && v.temp_dead.is_empty() && v.perma_dead.is_empty());
    assert_eq!(v.legal_moves.len(), gs.board.len());
    assert!(v.meshes.is_empty());
    assert!(v.last_move.is_none());
    assert_eq!((v.collapse_threshold, v.atari_size), (7, 6));
    let grid = v.ascii_grid();
    assert_eq!(grid.len(), 125);
    assert!(grid.iter().all(|&b| b == b'.'));
}

#[test]
fn snapshot_after_moves() {
    let mut gs = GameState::new(5, [0u8; 32]);
    // Sienna at (0,0,0), then Lapis at (1,1,0), adjacent to it.
    gs.apply_move(Move::new(0, 0, 0)).unwrap();
    gs.apply_move(Move::new(1, 1, 0)).unwrap();
    let perma = gs.board.index(Coord::new(4, 4, 4)).unwrap();
    gs.board.set(perma, CellState::PermaDead);
    let v = BoardView::from_game_state(&gs);
    assert_eq!(v.cells.len(), 2);
    assert_eq!(v.cells[0].default_name, "Red");
    assert_eq!(v.cells[0].pigment, "#D97757");
    assert_eq!(v.cells[1].default_name, "Blue");
    assert_eq!(v.cells[1].slot_id, 1);
    assert_eq!(v.perma_dead, vec![[4, 4, 4]]);
    assert_eq!(v.meshes.len(), 2);
    // Each single cell is warmed by the other steward's equal-size mesh:
    // alpha*1 + gamma*1 + delta*1.
    assert_eq!(v.meshes[0].temperature_milli, 170);
    assert_eq!(v.meshes[1].temperature_milli, 170);
    assert!(!v.meshes[0].in_atari);
    let last = v.last_move.clone().unwrap();
    assert_eq!((last.slot, last.i, last.j, last.k), (1, 1, 1, 0));
    let grid = v.ascii_grid();
    assert_eq!(grid[0], b'S');
    assert_eq!(grid[1 + 5], b'L');
    assert_eq!(grid[4 + 5 * (4 + 5 * 4)], b'X');
    assert_eq!(v.legal_moves.len(), gs.board.len() - 3);
}

#[test]
fn view_defaults() {
    assert_eq!(default_png_size(), 128);
    let o = AgentViewOpts::default();
    assert_eq!(o.png_size, 0);
    assert_eq!(o.camera, CameraAngle::Isometric);
    assert!(o.layer_j.is_none() && !o.include_png && !o.include_anim);
    let v = ViewConfig::default();
    assert_eq!(v.format, ViewFormat::Png);
    assert_eq!((v.framerate, v.size), (6, 128));
}

#[test]
fn roster_defaults() {
    let r = RosterConfig::default_for(AppMode::Agent);
    assert_eq!(r.slots[0].kind, PlayerKind::Agent);
    assert_eq!(r.slots[3].difficulty, Difficulty::Easy);
    let h = RosterConfig::default_for(AppMode::Human);
    assert_eq!(h.slots[0].kind, PlayerKind::Human);
    assert_eq!(h.slots[1].kind, PlayerKind::Computer);
}

#[test]
fn language_cycle() {
    assert_eq!(lang_for_seq(0), 1);
    assert_eq!(lang_for_seq(3), 0);
    assert_eq!(lang_for_seq(4), 4);
    assert_eq!(lang_for_seq(37), 1);
    assert_eq!(lang_for_seq(7), 0);
}

#[test]
fn seeds_from_counters() {
    let s = seed_from_counter(0x0102_0304);
    assert_eq!(&s[..5], &[4, 3, 2, 1, 0]);
    assert!(s[8..].iter().all(|&b| b == 0));
    let a = ai_seed(7);
    assert_eq!(a[0], 7);
    assert_eq!(a[31], 0xA5);
}

#[test]
fn ai_stream_follows_chacha8() {
    let mut stream = AiStream::new(3);
    let mut rng = ChaCha8Rng::from_seed(ai_seed(3));
    for _ in 0..40 {
        assert_eq!(stream.next_u32(), rng.next_u32());
    }
    assert_eq!(stream.pos, 40);
}

#[test]
fn ending_classes() {
    let mut gs = GameState::new(5, [0u8; 32]);
    assert_eq!(classify(&gs), EndKind::Wild);
    let far = gs.board.index(Coord::new(4, 4, 4)).unwrap();
    gs.board.set(far, CellState::PermaDead);
    assert_eq!(classify(&gs), EndKind::Celebrate);
    let near = gs.board.index(Coord::new(3, 3, 4)).unwrap();
    gs.board.set(near, CellState::Live(Steward::Lapis));
    assert_eq!(classify(&gs), EndKind::Mourn);
}

#[test]
fn placed_size_and_easy_policy() {
    let mut gs = GameState::new(5, [0u8; 32]);
    let origin = gs.board.index(Coord::new(0, 0, 0)).unwrap();
    assert_eq!(placed_mesh_size(&gs.board, Steward::Sienna, origin), 1);
    gs.board.set(origin, CellState::Live(Steward::Sienna));
    let next = gs.board.index(Coord::new(1, 1, 0)).unwrap();
    assert_eq!(placed_mesh_size(&gs.board, Steward::Sienna, next), 2);
    assert_eq!(placed_mesh_size(&gs.board, Steward::Lapis, next), 1);

    let mut rng = AiStream::new(0);
    let pick = choose_move(&gs, &mut rng).unwrap();
    assert!(gs.legal_moves().contains(&pick));
    assert_eq!(rng.pos, 1);
}

#[test]
fn screensaver_step_changes_board() {
    let mut gs = GameState::new(5, [0u8; 32]);
    let mut rng = AiStream::new(0);
    assert!(step_ai(&mut gs, &mut rng));
    assert_eq!(rng.pos, 1);
    assert_eq!(gs.board.empty_count(), gs.board.len() - 1);
}

#[test]
fn cell_chars_and_events() {
    let mut gs = GameState::new(5, [0u8; 32]);
    let before: Vec<CellState> = (0..gs.board.len()).map(|i| gs.board.get(i)).collect();
    gs.apply_move(Move::new(0, 0, 0)).unwrap();
    assert_eq!(cell_char(&gs.board, 0), 'S');
    assert_eq!(cell_char(&gs.board, 1), '.');
    let ev = turn_events(&before, &gs.board);
    assert_eq!((ev.collapsed, ev.reborn_live, ev.reborn_perma), (0, 0, 0));
    let (min, slots) = winners([3, 1, 1, 2]);
    assert_eq!(min, 1);
    assert_eq!(slots, vec![1, 2]);
}

#[test]
fn move_errors_and_layout_errors() {
    let mut gs = GameState::new(5, [0u8; 32]);
    // (1,0,0) has odd parity: not a cell.
    assert_eq!(gs.apply_move(Move::new(1, 0, 0)), Err(MoveError::OutOfBounds));
    assert_eq!(
        gs.apply_move(Move::rebuild(Coord::new(0, 0, 0), vec![])),
        Err(MoveError::UnexpectedDispersal)
    );
    gs.apply_move(Move::new(0, 0, 0)).unwrap();
    assert_eq!(gs.apply_move(Move::new(0, 0, 0)), Err(MoveError::Occupied));
    let board = Board::new(5);
    let fp = [0usize, 1, 2];
    assert!(matches!(validate_layout(&board, &fp, &[7]), Err(LayoutError::NotInFootprint)));
    assert_eq!(dispersal_counts(7), (4, 3));
    assert!(!is_crossing_illegal(&board, Coord::new(0, 0, 0), Steward::Sienna));
}

#[test]
fn agent_image_round_trip() {
    let mut gs = GameState::new(5, [0u8; 32]);
    gs.apply_move(Move::new(0, 0, 0)).unwrap();
    let v = BoardView::from_game_state(&gs);
    let opts = AgentViewOpts::default();
    let (w, h, raster) = grid_raster(&v, &opts);
    assert_eq!((w, h), (5 * 5 * 14 + 4 * 3, 70));
    assert_eq!(raster.len(), (3 * w * h) as usize);
    let px = |x: u32, y: u32| {
        let o = (3 * (y * w + x)) as usize;
        (raster[o], raster[o + 1], raster[o + 2])
    };
    // Layer j = 0, tile (i, k) = (0, 0) holds the Sienna cell: pigment inside,
    // a third of it on the rim.
    assert_eq!(px(1, 1), (217, 119, 87));
    assert_eq!(px(0, 0), (72, 39, 29));
    // The gap after the first layer.
    assert_eq!(px(70, 5), (10, 10, 12));
    // Layer j = 1, tile (0, 0): not a cell, drawn empty.
    assert_eq!(px(74, 1), (28, 28, 30));

    let text = render_png_grid(&v, &opts);
    let png = base64::engine::general_purpose::STANDARD.decode(text).unwrap();
    assert_eq!(&png[..4], &[0x89, b'P', b'N', b'G']);
    let img = image::load_from_memory(&png).unwrap().to_rgb8();
    assert_eq!((img.width(), img.height()), (w, h));
    assert_eq!(img.as_raw(), &raster);

    let one = AgentViewOpts { layer_j: Some(0), ..AgentViewOpts::default() };
    let (w1, h1, _) = grid_raster(&v, &one);
    assert_eq!((w1, h1), (70, 70));
}

#[test]
fn agent_forfeit_and_clicks() {
    let mut gs = GameState::new(5, [0u8; 32]);
    let mv = agent_move_or_forfeit(&gs, None);
    assert_eq!(mv.coord, gs.legal_moves()[0]);
    assert!(mv.dispersal.is_none());
    let given = Move::new(2, 2, 0);
    assert_eq!(agent_move_or_forfeit(&gs, Some(given.clone())), given);

    let people = RosterConfig::default_for(AppMode::Human);
    assert_eq!(human_click(&gs, &people, Some(0)), Some(gs.board.coord(0)));
    assert_eq!(human_click(&gs, &people, None), None);
    let agents = RosterConfig::default_for(AppMode::Agent);
    assert_eq!(human_click(&gs, &agents, Some(0)), None);
    // An occupied cell is no legal target.
    gs.board.set(0, CellState::Live(Steward::Lapis));
    assert_eq!(human_click(&gs, &people, Some(0)), None);
}

#[test]
fn wizard_controls() {
    let mut st = WizardState {
        step: 0,
        roster: RosterConfig::default_for(AppMode::Human),
        view: ViewConfig::default(),
        lang: 0,
    };
    assert!(!apply_wizard_action(&mut st, WizAction::Back));
    assert_eq!(st.step, 0);
    for _ in 0..5 {
        apply_wizard_action(&mut st, WizAction::Next);
    }
    assert_eq!(st.step, 2);
    apply_wizard_action(&mut st, WizAction::SetKind(2, PlayerKind::Agent));
    assert_eq!(st.roster.slots[2].kind, PlayerKind::Agent);
    assert_eq!(st.roster.slots[2].difficulty, Difficulty::Hard);
    apply_wizard_action(&mut st, WizAction::CycleFramerate);
    assert_eq!(st.view.framerate, 12);
    apply_wizard_action(&mut st, WizAction::CycleSize);
    apply_wizard_action(&mut st, WizAction::CycleSize);
    apply_wizard_action(&mut st, WizAction::CycleSize);
    assert_eq!(st.view.size, 96);
    apply_wizard_action(&mut st, WizAction::ToggleFlatView);
    assert_eq!(st.view.format, ViewFormat::Ascii);
    apply_wizard_action(&mut st, WizAction::SetLang(40));
    assert_eq!(st.lang, 0);
    apply_wizard_action(&mut st, WizAction::SetLang(5));
    assert_eq!(st.lang, 5);
    assert!(apply_wizard_action(&mut st, WizAction::Start));
    assert_eq!(kind_key(PlayerKind::Computer), "player-computer");
}

#[test]
fn scene_updates() {
    let mut gs = GameState::new(5, [0u8; 32]);
    gs.eliminated = [false, true, true, true];
    let before: Vec<CellState> = (0..gs.board.len()).map(|i| gs.board.get(i)).collect();
    gs.apply_move(Move::new(0, 0, 0)).unwrap();
    gs.apply_move(Move::new(1, 1, 0)).unwrap();
    let (changed, born) = board_transitions(&before, &gs.board, false);
    let a = gs.board.index(Coord::new(0, 0, 0)).unwrap();
    let b = gs.board.index(Coord::new(1, 1, 0)).unwrap();
    assert!(changed[a] && changed[b] && born[a] && born[b]);
    assert_eq!(changed.iter().filter(|&&c| c).count(), 2);
    let (all, none) = board_transitions(&before, &gs.board, true);
    assert!(all.iter().all(|&c| c) && none.iter().all(|&c| !c));

    let bonds = bond_pairs(&gs.board);
    assert_eq!(bonds, vec![(a.min(b), a.max(b))]);
    assert!(atari_flags(&gs.board).iter().all(|&f| !f));

    // Grow the Sienna mesh to six cells: all six are in atari.
    let mut placed = vec![a, b];
    while placed.len() < 6 {
        let next = (0..gs.board.len())
            .find(|&i| {
                gs.board.get(i) == CellState::Empty
                    && placed.iter().any(|&p| gs.board.neighbors(p).contains(&i))
            })
            .unwrap();
        let c = gs.board.coord(next);
        gs.apply_move(Move::new(c.i, c.j, c.k)).unwrap();
        placed.push(next);
    }
    let flags = atari_flags(&gs.board);
    for (i, &f) in flags.iter().enumerate() {
        assert_eq!(f, placed.contains(&i));
    }
}

#[test]
fn mist_phases() {
    let live = CellState::Live(Steward::Kaolin);
    let temp = CellState::TempDead(Steward::Kaolin);
    assert_eq!(transition_phase(live, temp), MistPhase::Appear);
    assert_eq!(transition_phase(temp, CellState::PermaDead), MistPhase::ToGreen);
    assert_eq!(transition_phase(temp, live), MistPhase::FadeOut);
    assert_eq!(transition_phase(temp, CellState::Empty), MistPhase::FadeOut);
    assert_eq!(transition_phase(CellState::Empty, CellState::PermaDead), MistPhase::Green);
    assert_eq!(transition_phase(CellState::Empty, temp), MistPhase::Appear);
    assert_eq!(transition_phase(CellState::Empty, live), MistPhase::Hidden);
    assert_eq!(rest_phase(temp), MistPhase::Black);
    assert_eq!(rest_phase(CellState::PermaDead), MistPhase::Green);
    assert_eq!(rest_phase(live), MistPhase::Hidden);
}

#[test]
fn screensaver_decisions() {
    assert_eq!(screensaver_action(true, true, true, true), ScreensaverAction::Reseed);
    assert_eq!(screensaver_action(true, false, true, false), ScreensaverAction::Wait);
    assert_eq!(screensaver_action(false, false, true, true), ScreensaverAction::StartHold);
    assert_eq!(screensaver_action(false, false, true, false), ScreensaverAction::Step);
    assert_eq!(screensaver_action(false, true, false, false), ScreensaverAction::Wait);
}

#[test]
fn temperature_counts_only_touching_enemies() {
    let mut gs = GameState::new(5, [0u8; 32]);
    // Sienna at (0,0,0), Lapis touching it at (1,1,0), the third steward far
    // away at (4,4,4).
    gs.apply_move(Move::new(0, 0, 0)).unwrap();
    gs.apply_move(Move::new(1, 1, 0)).unwrap();
    gs.apply_move(Move::new(4, 4, 4)).unwrap();
    let v = BoardView::from_game_state(&gs);
    assert_eq!(v.meshes.len(), 3);
    // The touching pair warm each other: alpha*1 + gamma*1 + delta*1.
    assert_eq!(v.meshes[0].temperature_milli, 170);
    assert_eq!(v.meshes[1].temperature_milli, 170);
    // The lone mesh has no face-adjacent enemy: alpha*1 only.
    assert_eq!(v.meshes[2].size, 1);
    assert_eq!(v.meshes[2].slot_id, 2);
    assert_eq!(v.meshes[2].temperature_milli, 60);
}

#[test]
fn board_index_and_adjacency_examples() {
    let b = Board::new(5);
    assert_eq!(b.len(), 63);
    assert_eq!(b.index(Coord::new(1, 1, 0)), Some(3));
    assert_eq!(b.index(Coord::new(1, 0, 0)), None);
    assert_eq!(b.index(Coord::new(5, 0, 0)), None);
    for x in 0..b.len() {
        assert_eq!(b.index(b.coord(x)), Some(x));
    }
    assert!(b.adjacent(0, 3));
    assert!(b.adjacent(3, 0));
    assert!(!b.adjacent(0, 1));
    assert!(!b.adjacent(0, 0));
}

#[test]
fn right_to_left_languages() {
    assert!(is_rtl("ar"));
    assert!(is_rtl("fa"));
    assert!(is_rtl("ur"));
    assert!(!is_rtl("en"));
    assert!(!is_rtl("a"));
    assert!(!is_rtl("arb"));
    assert!(!is_rtl(""));
}

/// A connected crater grown from the corner: each step adds the smallest-index
/// free face-neighbour of the earliest cell that has one.
fn corner_crater(board: &Board, count: usize) -> Vec<usize> {
    let start = board.index(Coord::new(0, 0, 0)).unwrap();
    let mut cells = vec![start];
    while cells.len() < count {
        let mut next = None;
        for &c in &cells {
            for nb in 0..board.len() {
                if board.adjacent(c, nb) && !cells.contains(&nb) {
                    next = Some(nb);
                    break;
                }
            }
            if next.is_some() {
                break;
            }
        }
        cells.push(next.unwrap());
    }
    cells
}

/// Size of the component of `x` among the cells `live`.
fn live_component(board: &Board, live: &[usize], x: usize) -> usize {
    let mut seen = vec![x];
    let mut t = 0;
    while t < seen.len() {
        let c = seen[t];
        for &y in live {
            if board.adjacent(c, y) && !seen.contains(&y) {
                seen.push(y);
            }
        }
        t += 1;
    }
    seen.len()
}

#[test]
fn auto_layout_ignores_listing_order() {
    let board = Board::new(5);
    // A 13-cell crater listed in growth order, reversed, and rotated.
    let cells = corner_crater(&board, 13);
    let mut reversed = cells.clone();
    reversed.reverse();
    let mut rotated = cells.clone();
    rotated.rotate_left(5);
    let d = algorithm_a(&board, &cells);
    assert_eq!(d, algorithm_a(&board, &reversed));
    assert_eq!(d, algorithm_a(&board, &rotated));
    assert_eq!(d.live.len() + d.perma.len(), 13);
    let g = auto_layout(&board, &cells);
    assert_eq!(g, auto_layout(&board, &reversed));
    assert_eq!(g, auto_layout(&board, &rotated));
}

#[test]
fn auto_layout_guards_against_collapse_sized_components() {
    let board = Board::new(5);
    let cells = corner_crater(&board, 13);
    // Algorithm A's pairing alone keeps eight live cells in one component.
    let d = algorithm_a(&board, &cells);
    assert_eq!((d.live.len(), d.perma.len()), (8, 5));
    assert_eq!(live_component(&board, &d.live, d.live[0]), 8);
    assert_eq!(validate_layout(&board, &cells, &d.perma), Err(LayoutError::IllegalShape));
    // The guard demotes a pair; every kept component stays below seven.
    let g = auto_layout(&board, &cells);
    assert_eq!((g.live.len(), g.perma.len()), (6, 7));
    for &x in &g.live {
        assert!(live_component(&board, &g.live, x) < 7);
    }
    for &x in &d.perma {
        assert!(g.perma.contains(&x));
    }
    assert_eq!(validate_layout(&board, &cells, &g.perma), Ok(g.clone()));
    // Small craters need no demotion.
    let seven = corner_crater(&board, 7);
    assert_eq!(auto_layout(&board, &seven), algorithm_a(&board, &seven));
}

/// A game in which Sienna collapses the 13-cell corner crater and the three
/// other stewards then place far away; returns it on Sienna's rebuild turn.
fn game_at_rebuild_turn() -> GameState {
    let mut gs = GameState::new(5, [3u8; 32]);
    let crater = corner_crater(&gs.board, 13);
    for &x in &crater[..12] {
        gs.board.set(x, CellState::Live(Steward::Sienna));
    }
    let last = gs.board.coord(crater[12]);
    gs.apply_move(Move::place(last)).unwrap();
    for &x in &crater {
        assert_eq!(gs.board.get(x), CellState::TempDead(Steward::Sienna));
    }
    gs.apply_move(Move::new(4, 4, 2)).unwrap();
    gs.apply_move(Move::new(4, 2, 4)).unwrap();
    gs.apply_move(Move::new(2, 4, 4)).unwrap();
    gs
}

#[test]
fn recorded_auto_layout_replays() {
    let mut gs = game_at_rebuild_turn();
    gs.apply_move(Move::new(4, 4, 4)).unwrap();
    let rec = gs.history.last().unwrap().clone();
    assert_eq!(rec.dispersal.len(), 7);
    assert_eq!(gs.scores[0], 7);
    // The kept live cells of the crater form no collapse-sized mesh.
    let crater = corner_crater(&gs.board, 13);
    for &x in &crater {
        if gs.board.get(x) == CellState::Live(Steward::Sienna) {
            assert!(gs.board.mesh_containing(x).len() < 7);
        }
    }
    // Offering the recorded layout back reproduces the same state.
    let mut again = game_at_rebuild_turn();
    again.apply_move(Move::rebuild(Coord::new(4, 4, 4), rec.dispersal.clone())).unwrap();
    assert_eq!(again.scores, gs.scores);
    for x in 0..gs.board.len() {
        assert_eq!(again.board.get(x), gs.board.get(x));
    }
    assert_eq!(again.outcome(), gs.outcome());
}
