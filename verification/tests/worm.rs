use worms_ssh::game::{Weapon, MAX_HEALTH, TICK_RATE};
use worms_ssh::worm::{
    damage_to, MovePulse, Shot, Turn, Worm, FIRE_RELEASE_SILENCE, RESPAWN_TICKS, SELF_HIT_MAX,
};

/// Runs one simulation tick of the worm and returns the shot it fired, if any.
fn tick(w: &mut Worm, now: &mut u64) -> Option<Shot> {
    *now += 1;
    match w.advance(*now) {
        Turn::Alive(motion) => motion.shot,
        _ => None,
    }
}

fn fire_after(w: &mut Worm, now: &mut u64) -> Shot {
    let mut shot = None;
    for _ in 0..=FIRE_RELEASE_SILENCE {
        if let Some(s) = tick(w, now) {
            shot = Some(s);
        }
    }
    shot.expect("the charge was released")
}

#[test]
fn multiple_movement_bytes_in_one_tick_do_not_inflate_acceleration() {
    let mut one = Worm::spawned(1, "one".to_string());
    one.handle_input(b"d", 0);

    let mut repeated = Worm::spawned(1, "repeated".to_string());
    repeated.handle_input(b"dddddd", 0);

    assert_eq!(one.pulses, repeated.pulses);
    assert_eq!(one.pulses.len(), 1);
}

#[test]
fn rhythmic_direction_taps_build_more_velocity_than_slow_taps() {
    let mut fast = Worm::spawned(1, "rhythm".to_string());
    let mut now = 0;
    fast.handle_input(b"d", now);
    tick(&mut fast, &mut now);
    fast.handle_input(b"d", now);
    let fast_pulse = fast.pulses[0];

    let mut slow = Worm::spawned(1, "rhythm".to_string());
    let mut now = 0;
    slow.handle_input(b"d", now);
    for _ in 0..9 {
        tick(&mut slow, &mut now);
    }
    slow.handle_input(b"d", now);
    let slow_pulse = slow.pulses[0];

    assert_eq!(fast_pulse, MovePulse { direction: 1, held_ticks: 1, boosted: true });
    assert_eq!(slow_pulse, MovePulse { direction: 1, held_ticks: 0, boosted: false });
}

#[test]
fn weapon_power_depends_on_elapsed_held_enter_time() {
    let mut quick = Worm::spawned(1, "quick".to_string());
    let mut now = 0;
    quick.handle_input(b"\r", now);
    let quick_shot = fire_after(&mut quick, &mut now);

    let mut charged = Worm::spawned(1, "charged".to_string());
    let mut now = 0;
    charged.handle_input(b"\r", now);
    for _ in 0..12 {
        tick(&mut charged, &mut now);
        charged.handle_input(b"\r", now);
    }
    let charged_shot = fire_after(&mut charged, &mut now);

    assert!(charged_shot.power_pct > quick_shot.power_pct);
    assert_eq!(quick_shot.power_pct, 25);
    assert_eq!(charged_shot.power_pct, 35);
}

#[test]
fn repeated_enter_packets_do_not_inflate_power_without_elapsed_time() {
    let mut single = Worm::spawned(1, "single".to_string());
    let mut now = 0;
    single.handle_input(b"\r", now);
    tick(&mut single, &mut now);
    single.handle_input(b"\r", now);
    let single_shot = fire_after(&mut single, &mut now);

    let mut spammed = Worm::spawned(1, "spammed".to_string());
    let mut now = 0;
    spammed.handle_input(b"\r\r\r\r\r", now);
    tick(&mut spammed, &mut now);
    spammed.handle_input(b"\r\r\r\r\r", now);
    let spammed_shot = fire_after(&mut spammed, &mut now);

    assert_eq!(single_shot, spammed_shot);
}

#[test]
fn aiming_does_not_clear_velocity_or_active_charge() {
    let mut w = Worm::spawned(1, "pilot".to_string());
    let mut now = 0;
    w.handle_input(b"d\r", now);
    tick(&mut w, &mut now);
    let before_charge = w.charge_started;
    let before_pulses = w.pulses.clone();

    w.handle_input(b"jj", now);

    assert_eq!(w.pulses, before_pulses);
    assert_eq!(w.charge_started, before_charge);
    assert_eq!(w.charge_started, Some(0));
    assert_eq!(w.aim, -2);
}

#[test]
fn arrow_keys_arrive_in_every_terminal_flavour() {
    let mut w = Worm::spawned(1, "arrows".to_string());
    w.handle_input(b"\x1b[A", 0);
    assert_eq!(w.aim, -2);
    w.handle_input(b"\x1bOB", 10);
    assert_eq!(w.aim, -1);
    w.handle_input(b"\x1b[1;5C", 20);
    assert_eq!(w.facing, 1);
    w.handle_input(b"\x1b[1;2D", 21);
    assert_eq!(w.facing, -1);
    w.handle_input(b"2", 22);
    assert_eq!(w.weapon, Weapon::Grenade);
    w.handle_input(b" ", 22);
    assert!(w.jump);
}

#[test]
fn aim_stays_within_eight_steps() {
    let mut w = Worm::spawned(1, "aim".to_string());
    for t in 0..40 {
        w.handle_input(b"w", t * 10);
    }
    assert_eq!(w.aim, -8);
    for t in 40..80 {
        w.handle_input(b"s", t * 10);
    }
    assert_eq!(w.aim, 8);
}

#[test]
fn dead_worm_respawns_with_full_health_after_delay() {
    let mut w = Worm::spawned(1, "target".to_string());
    w.health = 1;
    assert!(w.take_hit(40));
    assert_eq!(w.deaths, 1);
    assert!(w.respawn_ticks > 0);

    let mut now = 0;
    let mut respawned = false;
    for _ in 0..=(TICK_RATE * 3) {
        now += 1;
        if let Turn::Respawn = w.advance(now) {
            w.respawn();
            respawned = true;
        }
    }

    assert!(respawned);
    assert_eq!(w.health, MAX_HEALTH);
    assert_eq!(w.respawn_ticks, 0);
    assert_eq!(RESPAWN_TICKS as u64, TICK_RATE * 3);
}

#[test]
fn wounded_worms_regenerate_over_twenty_seconds() {
    let mut w = Worm::spawned(1, "healer".to_string());
    assert!(!w.take_hit(500));
    let mut now = 0;
    for _ in 0..500 {
        tick(&mut w, &mut now);
    }
    assert_eq!(w.health, MAX_HEALTH);
}

#[test]
fn burial_and_kills_are_counted() {
    let mut w = Worm::spawned(1, "miner".to_string());
    w.bury();
    assert_eq!((w.health, w.deaths, w.respawn_ticks), (0, 1, RESPAWN_TICKS));
    w.credit_kill();
    assert_eq!(w.kills, 1);
}

#[test]
fn every_arrow_flavour_steers_like_its_letter() {
    for (seq, key) in [
        (&b"\x1b[A"[..], &b"w"[..]),
        (b"\x1bOA", b"w"),
        (b"\x1b[1;5A", b"w"),
        (b"\x1b[B", b"s"),
        (b"\x1b[C", b"d"),
        (b"\x1bOD", b"a"),
    ] {
        let mut a = Worm::spawned(1, "a".to_string());
        let mut b = Worm::spawned(1, "a".to_string());
        a.handle_input(seq, 3);
        b.handle_input(key, 3);
        assert_eq!((a.aim, a.facing, a.pulses.clone()), (b.aim, b.facing, b.pulses.clone()));
    }
}

#[test]
fn one_packet_moves_the_aim_one_step_and_the_last_weapon_key_wins() {
    let mut w = Worm::spawned(1, "w".to_string());
    w.handle_input(b"wwww2s1w2", 0);
    assert_eq!(w.aim, -2);
    assert_eq!(w.weapon, Weapon::Grenade);
    w.handle_input(b"21", 1);
    assert_eq!(w.weapon, Weapon::Bazooka);
}

#[test]
fn a_charge_is_released_half_a_second_after_the_last_tap() {
    let mut w = Worm::spawned(1, "patient".to_string());
    let mut now = 0;
    w.handle_input(b"\r", now);
    for _ in 0..24 {
        assert!(tick(&mut w, &mut now).is_none(), "released too early at tick {now}");
    }
    assert!(tick(&mut w, &mut now).is_some());
    assert_eq!(now, 25);
    assert_eq!(FIRE_RELEASE_SILENCE, 25);
}

#[test]
fn a_worm_cannot_one_shot_itself() {
    assert_eq!(damage_to(1200, 3, 3), SELF_HIT_MAX);
    assert_eq!(damage_to(800, 3, 3), 800);
    assert_eq!(damage_to(500, 3, 3), 500);
    assert_eq!(damage_to(1200, 3, 4), 1200);
    let mut w = Worm::spawned(3, "self".to_string());
    assert!(!w.take_hit(damage_to(1500, 3, 3)));
    assert_eq!(w.health, MAX_HEALTH - 800);
}
