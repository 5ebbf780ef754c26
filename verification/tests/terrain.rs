use worms_ssh::game::{
    Tile, GROWTH_MAX_BURST, HANG_FALL_DELAY, HEIGHT, MAX_HEALTH, TERRAIN_CAP, WIDTH,
};
use worms_ssh::worm::Worm;
use worms_ssh::rng::seeded;
use worms_ssh::terrain::Terrain;

/// The burst measure a growth event is given: the empty share of the cap times the
/// largest burst, as the game loop measures it in single precision.
fn scaled_deficit(t: &Terrain) -> usize {
    let earth = t.earth_count();
    if earth >= TERRAIN_CAP {
        return 0;
    }
    let deficit = (TERRAIN_CAP - earth) as f32 / TERRAIN_CAP as f32;
    (deficit * GROWTH_MAX_BURST as f32) as usize
}

fn grow(t: &mut Terrain, rng: &mut rand::rngs::SmallRng) {
    let d = scaled_deficit(t);
    t.grow_terrain(rng, d);
}

#[test]
fn terrain_growth_respects_the_cap() {
    let mut rng = seeded(3);
    let mut t = Terrain::empty();
    t.tiles.fill(Tile::Earth);
    for cell in t.tiles.iter_mut().take(WIDTH * HEIGHT / 3) {
        *cell = Tile::Air;
    }
    let before = t.earth_count();
    assert!(before >= TERRAIN_CAP);

    grow(&mut t, &mut rng);

    assert_eq!(t.earth_count(), before);
}

#[test]
fn terrain_growth_reseeds_an_arena_after_all_earth_is_destroyed() {
    let mut rng = seeded(13);
    let mut t = Terrain::empty();

    grow(&mut t, &mut rng);

    assert!(
        t.earth_count() > 0,
        "a fully destroyed arena must be able to regrow terrain"
    );
}

#[test]
fn critically_sparse_terrain_recovers_multiple_cells_per_growth_event() {
    let mut rng = seeded(14);
    let mut t = Terrain::empty();
    t.set_tile(50, HEIGHT as i32 - 1, Tile::Earth);
    let before = t.earth_count();

    grow(&mut t, &mut rng);

    assert!(
        t.earth_count() >= before + 4,
        "scarce terrain should regenerate in patches rather than one cell at a time"
    );
}

#[test]
fn terrain_growth_ignores_floating_islands_and_restarts_from_the_floor() {
    let mut rng = seeded(15);
    let mut t = Terrain::empty();
    for x in 1..(WIDTH - 1) as i32 {
        t.set_tile(x, 10, Tile::Earth);
    }

    grow(&mut t, &mut rng);

    assert!(
        (1..(WIDTH - 1) as i32).all(|x| t.tile(x, 9) == Tile::Air),
        "unsupported islands must not serve as roots for new terrain"
    );
    assert!(
        (1..(WIDTH - 1) as i32).any(|x| t.tile(x, HEIGHT as i32 - 1) == Tile::Earth),
        "new ground must be rooted at the floor"
    );
}

#[test]
fn growth_never_pushes_earth_into_the_top_thirty_percent() {
    let mut rng = seeded(21);
    let mut t = Terrain::empty();
    for _ in 0..400 {
        grow(&mut t, &mut rng);
    }
    let limit = HEIGHT as i32 * 30 / 100;
    for x in 0..WIDTH as i32 {
        for y in 0..limit - 2 {
            assert_eq!(t.tile(x, y), Tile::Air, "({x}, {y})");
        }
    }
    assert!(t.earth_count() <= TERRAIN_CAP);
}

#[test]
fn floating_terrain_collapses_to_supported_ground_during_simulation() {
    let mut rng = seeded(16);
    let mut t = Terrain::empty();
    t.set_tile(44, 4, Tile::Earth);
    t.set_tile(44, 9, Tile::Earth);

    for _ in 0..(HANG_FALL_DELAY as i32 + HEIGHT as i32 * 2) {
        t.settle(&mut rng);
    }

    let earth_on_floor = (0..WIDTH as i32)
        .filter(|&x| t.tile(x, HEIGHT as i32 - 1) == Tile::Earth)
        .count();
    assert!(earth_on_floor >= 2);
    assert_eq!(t.tile(44, 4), Tile::Air);
    assert_eq!(t.tile(44, 9), Tile::Air);
}

#[test]
fn settling_keeps_the_amount_of_earth() {
    let mut rng = seeded(5);
    let mut t = Terrain::generate(&mut rng);
    t.carve(100, 50, 12);
    let before = t.earth_count();
    for _ in 0..200 {
        t.settle(&mut rng);
    }
    assert_eq!(t.earth_count(), before);
}

#[test]
fn anchored_earth_is_what_touches_the_floor() {
    let mut t = Terrain::empty();
    t.set_tile(10, HEIGHT as i32 - 1, Tile::Earth);
    t.set_tile(10, HEIGHT as i32 - 2, Tile::Earth);
    t.set_tile(11, HEIGHT as i32 - 2, Tile::Earth);
    t.set_tile(30, 20, Tile::Earth);
    let anchored = t.anchor_map();
    let at = |x: usize, y: usize| anchored[y * WIDTH + x];
    assert!(at(10, HEIGHT - 1) && at(10, HEIGHT - 2) && at(11, HEIGHT - 2));
    assert!(!at(30, 20));
    assert!(!at(12, HEIGHT - 2));
}

#[test]
fn explosion_carves_terrain_and_damages_nearby_worm() {
    let mut t = Terrain::empty();
    t.set_tile(30, 12, Tile::Earth);
    t.set_tile(30, 16, Tile::Earth);
    t.set_tile(30, 17, Tile::Earth);

    t.carve(30, 12, 4);

    assert_eq!(t.tile(30, 12), Tile::Air);
    assert_eq!(t.tile(30, 16), Tile::Air, "the rim of the blast is carved");
    assert_eq!(t.tile(30, 17), Tile::Earth, "beyond the radius stays");

    let mut target = Worm::spawned(2, "target".to_string());
    assert!(!target.take_hit(800), "a full bazooka hit at the centre leaves a healthy worm standing");
    assert!(target.health < MAX_HEALTH);
}

#[test]
fn the_edges_of_the_grid_read_as_sky_and_rock() {
    let t = Terrain::empty();
    assert_eq!(t.tile(5, -1), Tile::Air);
    assert_eq!(t.tile(-1, 5), Tile::Earth);
    assert_eq!(t.tile(WIDTH as i32, 5), Tile::Earth);
    assert_eq!(t.tile(5, HEIGHT as i32), Tile::Earth);
    assert_eq!(t.surface_height(5), None);
    assert_eq!(t.supported_growth_site(5), Some(HEIGHT as i32 - 1));
}

#[test]
fn grounded_worm_slides_down_a_surface_steeper_than_thirty_degrees() {
    let mut t = Terrain::empty();
    for x in 0..WIDTH as i32 {
        let surface = if x < 44 { 30 } else { 34 };
        for y in surface..HEIGHT as i32 {
            t.set_tile(x, y, Tile::Earth);
        }
    }

    assert_eq!(
        t.slide_direction(43),
        1,
        "a supported steep drop to the right should induce downhill sliding"
    );
    assert_eq!(t.slide_direction(10), 0);
}

#[test]
fn generated_worlds_leave_the_sky_open_and_offer_a_spawn_point() {
    let mut rng = seeded(7);
    let t = Terrain::generate(&mut rng);
    for x in 0..WIDTH as i32 {
        for y in 0..(HEIGHT / 2) as i32 {
            assert_eq!(t.tile(x, y), Tile::Air);
        }
    }
    let blocked = vec![false; WIDTH];
    let (x, y) = t.spawn_point(&mut rng, &blocked);
    assert_eq!(t.tile(x, y), Tile::Air);
    assert_eq!(t.tile(x, y + 1), Tile::Earth);
    let everywhere = vec![true; WIDTH];
    assert_eq!(t.spawn_point(&mut rng, &everywhere), (4, 2));
}

#[test]
fn a_tall_column_collapses_into_a_polite_pile() {
    let mut rng = seeded(11);
    let mut t = Terrain::empty();
    for y in (HEIGHT as i32 - 20)..HEIGHT as i32 {
        t.set_tile(100, y, Tile::Earth);
    }
    let before = t.earth_count();
    for _ in 0..400 {
        t.settle(&mut rng);
    }
    assert_eq!(t.earth_count(), before);
    assert!(
        t.surface_height(100).unwrap() > HEIGHT as i32 - 20,
        "a lone tower must slough off"
    );
    assert!(t.tile(99, HEIGHT as i32 - 1) == Tile::Earth || t.tile(101, HEIGHT as i32 - 1) == Tile::Earth);
}

#[test]
fn the_same_seed_builds_the_same_world() {
    let a = Terrain::generate(&mut seeded(42));
    let b = Terrain::generate(&mut seeded(42));
    let c = Terrain::generate(&mut seeded(43));
    assert!(a.tiles == b.tiles && a.cohesion == b.cohesion);
    assert!(a.tiles != c.tiles);
}

#[test]
fn loose_earth_hangs_a_second_then_falls_one_row_per_tick() {
    let mut rng = seeded(31);
    let mut t = Terrain::empty();
    t.set_tile(44, 4, Tile::Earth);
    for _ in 0..(HANG_FALL_DELAY - 1) {
        t.settle(&mut rng);
    }
    assert_eq!(t.tile(44, 4), Tile::Earth, "still hanging");
    t.settle(&mut rng);
    assert_eq!((t.tile(44, 4), t.tile(44, 5)), (Tile::Air, Tile::Earth));
    t.settle(&mut rng);
    assert_eq!((t.tile(44, 5), t.tile(44, 6)), (Tile::Air, Tile::Earth));
    for _ in 0..100 {
        t.settle(&mut rng);
    }
    assert_eq!(t.tile(44, HEIGHT as i32 - 1), Tile::Earth);
    assert_eq!(t.earth_count(), 1);
}

#[test]
fn sparse_terrain_regrows_the_full_burst() {
    let mut rng = seeded(14);
    let mut t = Terrain::empty();
    t.set_tile(50, HEIGHT as i32 - 1, Tile::Earth);
    let before = t.earth_count();
    let burst = scaled_deficit(&t).clamp(6, GROWTH_MAX_BURST);
    grow(&mut t, &mut rng);
    assert_eq!(t.earth_count(), before + burst);
}

#[test]
fn the_cap_is_half_the_grid() {
    assert_eq!(TERRAIN_CAP, WIDTH * HEIGHT / 2);
}

#[test]
fn generated_surfaces_roll_between_the_middle_and_six_rows_above_the_floor() {
    let mut rng = seeded(12);
    let t = Terrain::generate(&mut rng);
    for x in 0..WIDTH as i32 {
        if let Some(top) = t.surface_height(x) {
            assert!(top >= HEIGHT as i32 / 2);
        }
    }
    assert!(t.earth_count() <= WIDTH * HEIGHT / 2);
    assert!(t.earth_count() > 0);
}

#[test]
fn one_slide_pass_keeps_the_earth() {
    let mut rng = seeded(19);
    let mut t = Terrain::generate(&mut rng);
    for y in 20..HEIGHT as i32 {
        t.set_tile(150, y, Tile::Earth);
    }
    let before = t.earth_count();
    t.slide_terrain(&mut rng);
    assert_eq!(t.earth_count(), before);
}
