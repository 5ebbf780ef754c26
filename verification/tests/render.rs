use worms_ssh::canvas::{paint, WormSprite};
use worms_ssh::feed::join_message;
use worms_ssh::game::{ColorDepth, GlyphMode, PlayerId, Weapon, MAX_HEALTH, WIDTH};
use worms_ssh::render::{
    frame, incremental_frame, level_char, level_split, quadrant_char, Hud, Scene, Style,
};
use worms_ssh::rng::seeded;
use worms_ssh::terrain::Terrain;

/// A world from `seed` with a worm for each of `players` standing where it spawned,
/// optionally moved to another column.
fn world(seed: u64, players: &[(PlayerId, &str, Option<i32>)]) -> (Terrain, Vec<WormSprite>) {
    let mut rng = seeded(seed);
    let terrain = Terrain::generate(&mut rng);
    let mut sprites = Vec::new();
    for &(id, _, column) in players {
        let blocked = vec![false; WIDTH];
        let (x, y) = terrain.spawn_point(&mut rng, &blocked);
        sprites.push(WormSprite {
            id,
            x: column.unwrap_or(x),
            y,
            facing: 1,
            aim: -1,
            health: MAX_HEALTH,
            respawn_ticks: 0,
            charge_started: None,
        });
    }
    (terrain, sprites)
}

fn hud(name: &str) -> Hud {
    Hud {
        name: name.to_string(),
        respawn_ticks: 0,
        respawn_seconds: "0.0".to_string(),
        charge_started: None,
        health: MAX_HEALTH,
        weapon: Weapon::Bazooka,
        vx: "+0.0".to_string(),
        aim: -1,
        kills: 0,
        deaths: 0,
    }
}

fn scene(sprites: Vec<WormSprite>, viewer_name: &str, feed: Vec<String>, tick: u64) -> Scene {
    let count = sprites.len();
    Scene {
        shots: Vec::new(),
        blasts: Vec::new(),
        sprites,
        feed,
        tick_number: tick,
        player_count: count,
        hud: Some(hud(viewer_name)),
    }
}

#[test]
fn frame_identifies_local_worm_and_controls() {
    let (terrain, sprites) = world(1, &[(4, "shell_user", None)]);
    let s = scene(sprites, "shell_user", Vec::new(), 0);

    let rendered = frame(&terrain, &s, 4, 102, 41, ColorDepth::Mono, GlyphMode::Ascii);

    assert!(rendered.contains("shell_user"));
    assert!(rendered.contains("SPACE jump"));
    assert!(rendered.contains('@'));
    assert!(rendered.contains("AIM:"));
}

#[test]
fn compact_terminal_resamples_the_complete_shared_battlefield() {
    let (terrain, sprites) = world(2, &[(1, "west", Some(1)), (2, "east", Some(98))]);
    let s = scene(sprites, "west", Vec::new(), 0);

    let rendered = frame(&terrain, &s, 1, 32, 18, ColorDepth::Mono, GlyphMode::Ascii);

    assert!(rendered.contains('@'));
    assert!(rendered.contains('w'));
    assert!(rendered.contains("+-----------------------------+"));
}

#[test]
fn truecolor_powerlevel10k_client_receives_color_and_icon_glyphs() {
    let (terrain, sprites) = world(3, &[(1, "iconic", None)]);
    let s = scene(sprites, "iconic", Vec::new(), 0);

    let rendered = frame(
        &terrain,
        &s,
        1,
        102,
        41,
        ColorDepth::TrueColor,
        GlyphMode::Powerlevel10k,
    );

    assert!(rendered.contains("\x1b[1;38;2;0;238;255m"));
    assert!(rendered.contains('\u{f188}'));
}

#[test]
fn animation_frames_do_not_leave_the_client_cursor_hidden() {
    let (terrain, sprites) = world(4, &[(1, "terminal", None)]);
    let s = scene(sprites, "terminal", Vec::new(), 0);

    let rendered = frame(&terrain, &s, 1, 102, 41, ColorDepth::Ansi16, GlyphMode::Ascii);

    assert!(
        !rendered.contains("\x1b[?25l"),
        "an abruptly closed SSH channel cannot repair a hidden cursor"
    );
}

#[test]
fn large_terminal_uses_additional_columns_and_rows_for_the_battlefield() {
    let (terrain, sprites) = world(5, &[(1, "wide", None)]);
    let s = scene(sprites, "wide", Vec::new(), 0);

    let rendered = frame(&terrain, &s, 1, 152, 64, ColorDepth::Mono, GlyphMode::Ascii);

    assert!(
        rendered.contains(&format!("+{}+", "-".repeat(149))),
        "large terminal columns must extend the rendered battlefield while reserving the wrap column"
    );
    assert!(
        rendered.lines().count() >= 64,
        "large terminal rows must extend the rendered battlefield"
    );
    assert!(
        rendered.contains('.'),
        "upscaled terrain must retain shaded ASCII surface detail"
    );
}

#[test]
fn frame_never_draws_into_the_terminal_autowrap_column() {
    let (terrain, sprites) = world(6, &[(1, "steady", None)]);
    let s = scene(sprites, "steady", Vec::new(), 0);

    let rendered = frame(&terrain, &s, 1, 80, 40, ColorDepth::Mono, GlyphMode::Ascii);

    assert!(rendered.contains(&format!("+{}+", "-".repeat(77))));
    assert!(
        !rendered.contains(&format!("+{}+", "-".repeat(78))),
        "writing the rightmost terminal column can cause the next frame to jump"
    );
}

#[test]
fn incremental_render_only_sends_changed_rows_for_a_stable_viewport() {
    let (terrain, sprites) = world(7, &[(1, "efficient", None)]);
    let before = frame(
        &terrain,
        &scene(sprites.clone(), "efficient", Vec::new(), 0),
        1,
        102,
        41,
        ColorDepth::Mono,
        GlyphMode::Ascii,
    );
    let after = frame(
        &terrain,
        &scene(sprites, "efficient", Vec::new(), 1),
        1,
        102,
        41,
        ColorDepth::Mono,
        GlyphMode::Ascii,
    );

    let update = incremental_frame(Some(&before), &after);

    assert!(
        update.is_empty(),
        "a simulation tick with no visible state change must send no terminal rows"
    );
}

#[test]
fn another_player_joining_updates_rows_without_forcing_a_full_frame() {
    let (terrain, sprites) = world(8, &[(1, "viewer", None), (2, "arrival", None)]);
    let before = frame(
        &terrain,
        &scene(sprites[..1].to_vec(), "viewer", Vec::new(), 0),
        1,
        80,
        24,
        ColorDepth::Mono,
        GlyphMode::Ascii,
    );
    let after = frame(
        &terrain,
        &scene(sprites, "viewer", vec![join_message("arrival", 0)], 0),
        1,
        80,
        24,
        ColorDepth::Mono,
        GlyphMode::Ascii,
    );

    let update = incremental_frame(Some(&before), &after);

    assert!(update.contains("P:2"));
    assert!(update.contains("arrival tunneled into the arena"));
    assert!(
        !update.contains("\x1b[H"),
        "a remote player event should remain a row delta"
    );
}

#[test]
fn an_unchanged_frame_sends_nothing_and_a_first_frame_is_sent_whole() {
    let (terrain, sprites) = world(9, &[(1, "same", None)]);
    let f = frame(
        &terrain,
        &scene(sprites, "same", Vec::new(), 0),
        1,
        90,
        30,
        ColorDepth::Ansi256,
        GlyphMode::Ascii,
    );
    assert_eq!(incremental_frame(Some(&f), &f), "");
    assert_eq!(incremental_frame(None, &f), f);
    assert_eq!(incremental_frame(Some("garbage"), &f), f);
}

#[test]
fn changed_rows_are_addressed_by_their_line_number() {
    let before = "\x1b[Ha\r\nb\r\nc\r\n\x1b[J";
    let after = "\x1b[Ha\r\nB\r\nc\r\n\x1b[J";
    assert_eq!(incremental_frame(Some(before), after), "\x1b[2;1HB");
    let shorter = "\x1b[Ha\r\n\x1b[J";
    assert_eq!(incremental_frame(Some(before), shorter), shorter);
}

#[test]
fn quadrant_glyphs_and_gauge_levels() {
    assert_eq!(quadrant_char(false, false, false, false), ' ');
    assert_eq!(quadrant_char(true, true, true, true), '\u{2588}');
    assert_eq!(quadrant_char(true, false, false, true), '\u{259a}');
    assert_eq!(level_split(0), (0, 0));
    assert_eq!(level_split(16), (8, 8));
    assert_eq!(level_split(11), (8, 3));
    assert_eq!(level_char(0), ' ');
    assert_eq!(level_char(3), '\u{2583}');
    assert_eq!(level_char(12), '\u{2588}');
    assert_eq!(Style::Plain.escape(ColorDepth::Mono), "\x1b[0m");
    assert_eq!(Style::Earth.escape(ColorDepth::Ansi256), "\x1b[38;5;130m");
}

#[test]
fn only_the_viewers_own_worm_gets_a_crosshair() {
    let (terrain, sprites) = world(10, &[(1, "me", None), (2, "you", None)]);
    let (mine, _) = paint(&terrain, &Vec::new(), &Vec::new(), &sprites, 1, GlyphMode::Ascii, 0, 100, 30);
    assert!(mine.contains(&'+'));
    let (theirs, _) = paint(&terrain, &Vec::new(), &Vec::new(), &sprites, 7, GlyphMode::Ascii, 0, 100, 30);
    assert!(!theirs.contains(&'+'));
}

#[test]
fn wounded_worms_show_a_yellow_health_gauge() {
    let (terrain, mut sprites) = world(11, &[(1, "hurt", None)]);
    sprites[0].health = 500;
    let (_, styles) = paint(&terrain, &Vec::new(), &Vec::new(), &sprites, 1, GlyphMode::Ascii, 0, 100, 30);
    assert!(styles.contains(&Some(Style::Caution)));
    assert!(!styles.contains(&Some(Style::Health)));
    assert_eq!(Style::Caution.escape(ColorDepth::Ansi16), "\x1b[1;33m");
    sprites[0].health = MAX_HEALTH;
    let (_, styles) = paint(&terrain, &Vec::new(), &Vec::new(), &sprites, 1, GlyphMode::Ascii, 0, 100, 30);
    assert!(styles.contains(&Some(Style::Health)));
}

#[test]
fn a_frame_has_one_line_per_terminal_row() {
    let (terrain, sprites) = world(12, &[(1, "lines", None)]);
    let f = frame(
        &terrain,
        &scene(sprites, "lines", vec!["a".to_string(), "b".to_string()], 0),
        1,
        102,
        41,
        ColorDepth::Ansi16,
        GlyphMode::Ascii,
    );
    assert!(f.starts_with("\x1b[H") && f.ends_with("\x1b[J"));
    assert_eq!(f.matches('\n').count(), 1 + 35 + 3 + 2);
}
