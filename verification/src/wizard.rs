//! The setup wizard's state machine: what each control does to the roster, the
//! view configuration, the language and the step, and the message keys the
//! wizard labels its choices with.
use vstd::prelude::*;

use crate::daily_seed::Difficulty;
use crate::session::{PlayerKind, Quality, RosterConfig, SlotConfig, TextScale, ViewConfig, ViewFormat};

verus! {

/// Number of wizard steps.
pub const WIZARD_STEPS: usize = 3;

/// Number of interface languages.
pub const LANGUAGE_COUNT: usize = 29;

/// What a clicked wizard control does.
#[derive(Clone, Copy, Debug, PartialEq, Eq, Structural)]
pub enum WizAction {
    Back,
    Next,
    /// Finish setup and start the game.
    Start,
    SetKind(usize, PlayerKind),
    SetDifficulty(usize, Difficulty),
    ToggleGraphics,
    ToggleAnimation,
    SetFormat(ViewFormat),
    CycleFramerate,
    CycleSize,
    ToggleReducedMotion,
    SetQuality(Quality),
    ToggleFlatView,
    ToggleScreenReader,
    ToggleCaptions,
    ToggleHighContrast,
    ToggleColorblind,
    SetTextScale(TextScale),
    ToggleAudioMute,
    SetLang(usize),
}

/// Everything the wizard edits.
pub struct WizardState {
    /// Which step is showing (`0..WIZARD_STEPS`).
    pub step: usize,
    pub roster: RosterConfig,
    pub view: ViewConfig,
    /// The active language index.
    pub lang: usize,
}

/// The framerate after `f` in the cycle 6 → 12 → 24 → 6 (an unlisted rate
/// restarts the cycle from 6).
pub open spec fn next_framerate(f: u8) -> u8 {
    if f == 6 {
        12
    } else if f == 12 {
        24
    } else if f == 24 {
        6
    } else {
        12
    }
}

/// The image size after `s` in the cycle 96 → 128 → 192 → 256 → 96 (an
/// unlisted size restarts the cycle from 96).
pub open spec fn next_size(s: u32) -> u32 {
    if s == 96 {
        128
    } else if s == 128 {
        192
    } else if s == 192 {
        256
    } else if s == 256 {
        96
    } else {
        128
    }
}

/// The view configuration after `a`.
pub open spec fn view_after(v: ViewConfig, a: WizAction) -> ViewConfig {
    match a {
        WizAction::ToggleGraphics => ViewConfig { graphics: !v.graphics, ..v },
        WizAction::ToggleAnimation => ViewConfig { animation: !v.animation, ..v },
        WizAction::SetFormat(f) => ViewConfig { format: f, ..v },
        WizAction::CycleFramerate => ViewConfig { framerate: next_framerate(v.framerate), ..v },
        WizAction::CycleSize => ViewConfig { size: next_size(v.size), ..v },
        WizAction::ToggleReducedMotion => ViewConfig { animation: !v.animation, ..v },
        WizAction::SetQuality(q) => ViewConfig { quality: q, ..v },
        WizAction::ToggleFlatView => ViewConfig {
            format: if v.format == ViewFormat::Ascii {
                ViewFormat::Png
            } else {
                ViewFormat::Ascii
            },
            ..v
        },
        WizAction::ToggleScreenReader => ViewConfig { screen_reader: !v.screen_reader, ..v },
        WizAction::ToggleCaptions => ViewConfig { captions: !v.captions, ..v },
        WizAction::ToggleHighContrast => ViewConfig { high_contrast: !v.high_contrast, ..v },
        WizAction::ToggleColorblind => ViewConfig { colorblind: !v.colorblind, ..v },
        WizAction::SetTextScale(t) => ViewConfig { text_scale: t, ..v },
        WizAction::ToggleAudioMute => ViewConfig { audio_muted: !v.audio_muted, ..v },
        _ => v,
    }
}

/// The step after `a`: back stops at the first step, next at the last.
pub open spec fn step_after(step: usize, a: WizAction) -> usize {
    match a {
        WizAction::Back => if step > 0 {
            (step - 1) as usize
        } else {
            0
        },
        WizAction::Next => if step + 1 < WIZARD_STEPS {
            (step + 1) as usize
        } else {
            (WIZARD_STEPS - 1) as usize
        },
        _ => step,
    }
}

/// The seats after `a`.
pub open spec fn slots_after(slots: Seq<SlotConfig>, a: WizAction) -> Seq<SlotConfig> {
    match a {
        WizAction::SetKind(slot, kind) => slots.update(
            slot as int,
            SlotConfig { kind, difficulty: slots[slot as int].difficulty },
        ),
        WizAction::SetDifficulty(slot, difficulty) => slots.update(
            slot as int,
            SlotConfig { kind: slots[slot as int].kind, difficulty },
        ),
        _ => slots,
    }
}

/// The language index after `a` (an index out of range is ignored).
pub open spec fn lang_after(lang: usize, a: WizAction) -> usize {
    match a {
        WizAction::SetLang(i) => if i < LANGUAGE_COUNT {
            i
        } else {
            lang
        },
        _ => lang,
    }
}

/// The next framerate in the cycle.
fn cycle_framerate(f: u8) -> (r: u8)
    ensures
        r == next_framerate(f),
{
    if f == 6 {
        12
    } else if f == 12 {
        24
    } else if f == 24 {
        6
    } else {
        12
    }
}

/// The next image size in the cycle.
fn cycle_size(s: u32) -> (r: u32)
    ensures
        r == next_size(s),
{
    if s == 96 {
        128
    } else if s == 128 {
        192
    } else if s == 192 {
        256
    } else if s == 256 {
        96
    } else {
        128
    }
}

/// Apply a clicked control; returns whether it starts the game.
pub fn apply_wizard_action(state: &mut WizardState, action: WizAction) -> (start: bool)
    requires
        action matches WizAction::SetKind(slot, _) ==> slot < 4,
        action matches WizAction::SetDifficulty(slot, _) ==> slot < 4,
        action is Next ==> old(state).step < usize::MAX,
    ensures
        start == (action is Start),
        final(state).step == step_after(old(state).step, action),
        final(state).roster.slots@ == slots_after(old(state).roster.slots@, action),
        final(state).view == view_after(old(state).view, action),
        final(state).lang == lang_after(old(state).lang, action),
{
    let v = state.view;
    match action {
        WizAction::Back => {
            state.step = if state.step > 0 {
                state.step - 1
            } else {
                0
            };
        },
        WizAction::Next => {
            state.step = if state.step < WIZARD_STEPS - 1 {
                state.step + 1
            } else {
                WIZARD_STEPS - 1
            };
        },
        WizAction::Start => {
            return true;
        },
        WizAction::SetKind(slot, kind) => {
            let c = state.roster.slots[slot];
            state.roster.slots[slot] = SlotConfig { kind, difficulty: c.difficulty };
        },
        WizAction::SetDifficulty(slot, difficulty) => {
            let c = state.roster.slots[slot];
            state.roster.slots[slot] = SlotConfig { kind: c.kind, difficulty };
        },
        WizAction::ToggleGraphics => state.view = ViewConfig { graphics: !v.graphics, ..v },
        WizAction::ToggleAnimation => state.view = ViewConfig { animation: !v.animation, ..v },
        WizAction::SetFormat(f) => state.view = ViewConfig { format: f, ..v },
        WizAction::CycleFramerate => state.view = ViewConfig { framerate: cycle_framerate(v.framerate), ..v },
        WizAction::CycleSize => state.view = ViewConfig { size: cycle_size(v.size), ..v },
        WizAction::ToggleReducedMotion => state.view = ViewConfig { animation: !v.animation, ..v },
        WizAction::SetQuality(q) => state.view = ViewConfig { quality: q, ..v },
        WizAction::ToggleFlatView => {
            let format = if v.format == ViewFormat::Ascii {
                ViewFormat::Png
            } else {
                ViewFormat::Ascii
            };
            state.view = ViewConfig { format, ..v };
        },
        WizAction::ToggleScreenReader => state.view = ViewConfig { screen_reader: !v.screen_reader, ..v },
        WizAction::ToggleCaptions => state.view = ViewConfig { captions: !v.captions, ..v },
        WizAction::ToggleHighContrast => state.view = ViewConfig { high_contrast: !v.high_contrast, ..v },
        WizAction::ToggleColorblind => state.view = ViewConfig { colorblind: !v.colorblind, ..v },
        WizAction::SetTextScale(t) => state.view = ViewConfig { text_scale: t, ..v },
        WizAction::ToggleAudioMute => state.view = ViewConfig { audio_muted: !v.audio_muted, ..v },
        WizAction::SetLang(i) => {
            if i < LANGUAGE_COUNT {
                state.lang = i;
            }
        },
    }
    false
}

/// The message key that labels a player kind.
pub fn kind_key(kind: PlayerKind) -> (r: &'static str)
    ensures
        r@ == match kind {
            PlayerKind::Human => "player-human"@,
            PlayerKind::Computer => "player-computer"@,
            PlayerKind::Agent => "player-agent"@,
        },
{
    match kind {
        PlayerKind::Human => "player-human",
        PlayerKind::Computer => "player-computer",
        PlayerKind::Agent => "player-agent",
    }
}

/// The message key that labels a difficulty.
pub fn diff_key(difficulty: Difficulty) -> (r: &'static str)
    ensures
        r@ == match difficulty {
            Difficulty::Easy => "diff-easy"@,
            Difficulty::Medium => "diff-medium"@,
            Difficulty::Hard => "diff-hard"@,
            Difficulty::Brutal => "diff-brutal"@,
        },
{
    match difficulty {
        Difficulty::Easy => "diff-easy",
        Difficulty::Medium => "diff-medium",
        Difficulty::Hard => "diff-hard",
        Difficulty::Brutal => "diff-brutal",
    }
}

/// The message key that labels a delivery format.
pub fn format_key(format: ViewFormat) -> (r: &'static str)
    ensures
        r@ == match format {
            ViewFormat::Json => "view-format-json"@,
            ViewFormat::Ascii => "view-format-ascii"@,
            ViewFormat::Png => "view-format-png"@,
            ViewFormat::Animation => "view-format-animation"@,
        },
{
    match format {
        ViewFormat::Json => "view-format-json",
        ViewFormat::Ascii => "view-format-ascii",
        ViewFormat::Png => "view-format-png",
        ViewFormat::Animation => "view-format-animation",
    }
}

/// The message key that labels an effects quality.
pub fn quality_key(quality: Quality) -> (r: &'static str)
    ensures
        r@ == match quality {
            Quality::Low => "quality-low"@,
            Quality::Medium => "quality-medium"@,
            Quality::High => "quality-high"@,
        },
{
    match quality {
        Quality::Low => "quality-low",
        Quality::Medium => "quality-medium",
        Quality::High => "quality-high",
    }
}

/// The message key that labels a text size.
pub fn text_scale_key(text_scale: TextScale) -> (r: &'static str)
    ensures
        r@ == match text_scale {
            TextScale::Small => "text-size-small"@,
            TextScale::Normal => "text-size-normal"@,
            TextScale::Large => "text-size-large"@,
        },
{
    match text_scale {
        TextScale::Small => "text-size-small",
        TextScale::Normal => "text-size-normal",
        TextScale::Large => "text-size-large",
    }
}

} // verus!
