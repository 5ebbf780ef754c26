use worms_ssh::game::{ColorDepth, GlyphMode};
use worms_ssh::session::{
    color_depth, farewell, glyph_choice, DataAction, SessionState, GLYPH_PROMPT,
    TERMINAL_ENTER, TERMINAL_RESTORE,
};
use worms_ssh::web::{clamp_viewport, web_viewport, HeldKeys, PULSE_MS, WEB_ENTER};

#[test]
fn terminal_restore_leaves_the_alternate_screen_after_play() {
    assert!(
        TERMINAL_RESTORE.contains("\x1b[?1049l"),
        "leaving the arena must return the player's original terminal screen"
    );
}

#[test]
fn entering_the_arena_hides_the_cursor_once_inside_the_alternate_screen() {
    assert!(
        TERMINAL_ENTER.contains("\x1b[?25l"),
        "the animation cursor must be hidden while the arena is visible"
    );
}

#[test]
fn color_depth_prefers_truecolor_then_256_then_16_then_mono() {
    assert_eq!(color_depth("xterm", Some("truecolor")), ColorDepth::TrueColor);
    assert_eq!(color_depth("dumb", Some("TrueColor")), ColorDepth::TrueColor);
    assert_eq!(color_depth("xterm-256color", None), ColorDepth::Ansi256);
    assert_eq!(color_depth("xterm-256color", Some("24bit")), ColorDepth::Ansi256);
    assert_eq!(color_depth("dumb", None), ColorDepth::Mono);
    assert_eq!(color_depth("xterm", None), ColorDepth::Ansi16);
    assert_eq!(color_depth("DUMB", None), ColorDepth::Ansi16);
    assert_eq!(color_depth("xterm-256COLOR", None), ColorDepth::Ansi16);
}

#[test]
fn glyph_prompt_answers() {
    assert_eq!(glyph_choice(b"y"), Some(GlyphMode::Powerlevel10k));
    assert_eq!(glyph_choice(b"Yes"), Some(GlyphMode::Powerlevel10k));
    assert_eq!(glyph_choice(b"no"), Some(GlyphMode::Ascii));
    assert_eq!(glyph_choice(b"\r"), Some(GlyphMode::Ascii));
    assert_eq!(glyph_choice(b"\n"), Some(GlyphMode::Ascii));
    assert_eq!(glyph_choice(b"q"), None);
    assert_eq!(glyph_choice(b""), None);
    assert_eq!(glyph_choice(b"\xffny"), Some(GlyphMode::Powerlevel10k));
}

#[test]
fn a_session_asks_for_glyphs_then_joins_then_leaves_once() {
    let mut s = SessionState::new();
    assert_eq!((s.columns, s.rows, s.colors), (102, 41, ColorDepth::Ansi16));
    assert!(!s.request_shell(0), "no shell before a channel and a login");
    s.authenticate("alice");
    s.open_channel(0);
    assert!(!s.request_shell(1), "a shell on another channel is refused");
    assert!(s.request_shell(0));
    assert!(s.awaiting_glyph_choice);
    assert_eq!(s.receive(b"?"), DataAction::Wait);
    let mut early = SessionState::new();
    early.authenticate("bob");
    early.open_channel(0);
    assert!(early.request_shell(0));
    assert_eq!(
        early.receive(b"\x03"),
        DataAction::Quit { announce_leave: false },
        "Ctrl-C quits at the glyph prompt too"
    );
    assert_eq!(s.receive(b"y"), DataAction::Join(GlyphMode::Powerlevel10k));
    assert_eq!(s.glyphs, Some(GlyphMode::Powerlevel10k));
    s.enter();
    assert!(s.joined && !s.awaiting_glyph_choice);
    assert!(!s.request_shell(0), "a player in the arena cannot open a second shell");
    assert_eq!(s.receive(b"dd"), DataAction::Input);
    assert_eq!(s.receive(b"a\x03"), DataAction::Quit { announce_leave: true });
    assert!(!s.leave(), "the leave was already reported");
    assert_eq!(s.receive(b"\x03"), DataAction::Quit { announce_leave: false });
}

#[test]
fn a_session_tracks_terminal_size_and_colours() {
    let mut s = SessionState::new();
    s.set_pty("xterm-256color", 120, 50);
    assert_eq!((s.columns, s.rows, s.colors), (120, 50, ColorDepth::Ansi256));
    assert!(!s.set_env("LANG", "truecolor"));
    assert!(!s.set_env("COLORTERM", "24bit"));
    assert!(s.set_env("COLORTERM", "TRUECOLOR"));
    assert_eq!(s.colors, ColorDepth::TrueColor);
    s.set_pty("dumb", 80, 24);
    assert_eq!(s.colors, ColorDepth::TrueColor, "COLORTERM outranks TERM");
    s.resize(90, 30);
    assert_eq!((s.columns, s.rows), (90, 30));
}

#[test]
fn quitting_restores_the_terminal_and_thanks_the_player() {
    let text = farewell();
    assert!(text.starts_with(TERMINAL_RESTORE));
    assert!(text.ends_with("\r\nThanks for playing.\r\n"));
    assert!(GLYPH_PROMPT.ends_with("[y/N] "));
}

#[test]
fn browser_viewports_are_clamped() {
    assert_eq!(web_viewport(None, None), (100, 30));
    assert_eq!(web_viewport(Some(5), Some(1000)), (20, 120));
    assert_eq!(web_viewport(Some(250), Some(40)), (250, 40));
    assert_eq!(clamp_viewport(999, 0), (400, 8));
    assert_eq!(PULSE_MS, 20);
    assert!(WEB_ENTER.contains("\x1b[?25l"));
}

#[test]
fn held_browser_keys_repeat_until_released() {
    let mut held = HeldKeys::new();
    assert!(held.pulse().is_empty());
    held.press("d".to_string());
    held.press(" ".to_string());
    held.press("d".to_string());
    assert_eq!(held.keys, vec!["d", " "]);
    assert_eq!(held.pulse(), b"d ".to_vec());
    held.release("d");
    assert_eq!(held.pulse(), b" ".to_vec());
    held.release("x");
    held.release(" ");
    assert!(held.keys.is_empty());
}
