use worms_ssh::game::{
    age_blasts, available_name, sanitize_name, Blast, HEIGHT, NATIVE_HEIGHT, NATIVE_WIDTH, WIDTH,
    WORLD_SCALE,
};

#[test]
fn authoritative_battlefield_uses_four_physics_cells_per_native_terminal_cell() {
    assert_eq!(WIDTH, 77 * 4);
    assert_eq!(HEIGHT, 18 * 4);
}

#[test]
fn battlefield_is_the_native_grid_scaled_up() {
    assert_eq!(WIDTH, NATIVE_WIDTH * WORLD_SCALE);
    assert_eq!(HEIGHT, NATIVE_HEIGHT * WORLD_SCALE);
}

#[test]
fn duplicate_ssh_usernames_keep_distinct_live_worms() {
    let mut taken: Vec<String> = Vec::new();
    let first = available_name(&sanitize_name("alice"), 1, &taken);
    taken.push(first.clone());
    let second = available_name(&sanitize_name("alice"), 2, &taken);

    assert_eq!(first, "alice");
    assert_eq!(second, "alice#2");
}

#[test]
fn a_free_name_is_kept_as_it_is() {
    let taken = vec!["bob".to_string(), "carol".to_string()];
    assert_eq!(available_name("alice", 7, &taken), "alice");
    assert_eq!(available_name("carol", 12345, &taken), "carol#12345");
}

#[test]
fn names_keep_only_letters_digits_dashes_and_underscores() {
    assert_eq!(sanitize_name("al ice!"), "alice");
    assert_eq!(sanitize_name("x_y-z9"), "x_y-z9");
    assert_eq!(sanitize_name("é漢a"), "a");
}

#[test]
fn names_are_cut_to_eighteen_characters() {
    assert_eq!(sanitize_name("abcdefghijklmnopqrstuvwxyz"), "abcdefghijklmnopqr");
    assert_eq!(sanitize_name("abcdefghijklmnopq!r"), "abcdefghijklmnopqr");
}

#[test]
fn a_login_without_name_characters_becomes_worm() {
    assert_eq!(sanitize_name(""), "worm");
    assert_eq!(sanitize_name("!!! ???"), "worm");
}

#[test]
fn blasts_age_and_burn_out_after_eight_ticks() {
    let mut blasts = vec![
        Blast { x: 1, y: 2, radius: 16, age: 0 },
        Blast { x: 3, y: 4, radius: 32, age: 6 },
        Blast { x: 5, y: 6, radius: 48, age: 7 },
    ];
    age_blasts(&mut blasts);
    assert_eq!(blasts.len(), 2);
    assert_eq!((blasts[0].x, blasts[0].age), (1, 1));
    assert_eq!((blasts[1].x, blasts[1].age, blasts[1].radius), (3, 7, 32));
    for _ in 0..8 {
        age_blasts(&mut blasts);
    }
    assert!(blasts.is_empty());
}

#[test]
fn every_joining_player_gets_a_name_no_one_else_carries() {
    let mut taken: Vec<String> = Vec::new();
    for id in 1..=5u64 {
        let name = available_name(&sanitize_name("al#ice"), id, &taken);
        assert!(!taken.contains(&name), "{name} is already taken");
        taken.push(name);
    }
    assert_eq!(taken, vec!["alice", "alice#2", "alice#3", "alice#4", "alice#5"]);
}
