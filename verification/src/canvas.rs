//! The viewport canvas: world cells scaled onto terminal cells, and the projectiles,
//! blasts and worms drawn on it.
use vstd::prelude::*;
use crate::game::{Blast, GlyphMode, PlayerId, Tile, HEIGHT, MAX_HEALTH, WIDTH};
use crate::render::{level_char, level_glyph, sampled, split_level, Style, MAX_VIEWPORT_HEIGHT, MAX_VIEWPORT_WIDTH};
use crate::terrain::Terrain;

verus! {

/// A worm as one client sees it: where it stands (rounded to cells), which way it
/// faces and aims, its health, whether it is waiting to respawn, and when it began
/// charging a shot.
#[derive(Debug, Clone, Copy, PartialEq, Eq, Structural)]
pub struct WormSprite {
    pub id: PlayerId,
    pub x: i32,
    pub y: i32,
    pub facing: i8,
    pub aim: i8,
    pub health: i16,
    pub respawn_ticks: u16,
    pub charge_started: Option<u64>,
}

/// A projectile in flight, rounded to cells, with its glyph.
#[derive(Debug, Clone, Copy, PartialEq, Eq, Structural)]
pub struct ShotSprite {
    pub x: i32,
    pub y: i32,
    pub glyph: char,
}

/// The characters of the viewport and the gauge styles that override their colouring,
/// row by row.
#[verifier::ext_equal]
pub struct CanvasView {
    pub cells: Seq<char>,
    pub styles: Seq<Option<Style>>,
}

/// Draws `ch` at world cell `(x, y)`, scaled into a `width` by `height` viewport;
/// nothing outside the world.
pub open spec fn plot(cv: CanvasView, width: int, height: int, x: int, y: int, ch: char) -> CanvasView {
    if 0 <= x < WIDTH && 0 <= y < HEIGHT {
        CanvasView { cells: cv.cells.update((y * height / (HEIGHT as int)) * width + x * width / (WIDTH as int), ch), ..cv }
    } else {
        cv
    }
}

/// Draws `ch` in `style` at viewport cell `(cx, cy)`; nothing outside the viewport.
pub open spec fn plot_styled(cv: CanvasView, width: int, height: int, cx: int, cy: int, ch: char, style: Style) -> CanvasView {
    if 0 <= cx < width && 0 <= cy < height {
        CanvasView { cells: cv.cells.update(cy * width + cx, ch), styles: cv.styles.update(cy * width + cx, Some(style)) }
    } else {
        cv
    }
}

/// Integer division rounding toward zero, as machine division does.
pub open spec fn trunc_div(a: int, b: int) -> int {
    if a >= 0 { a / b } else { -((-a) / b) }
}

pub open spec fn abs(a: int) -> int {
    if a < 0 { -a } else { a }
}

pub open spec fn shot_glyph(s: ShotSprite, glyphs: GlyphMode) -> char {
    if glyphs == GlyphMode::Ascii { s.glyph } else { '\u{f135}' }
}

pub open spec fn blast_glyph(b: Blast, glyphs: GlyphMode) -> char {
    if glyphs == GlyphMode::Ascii {
        if b.age % 2 == 0 { '@' } else { '*' }
    } else {
        '\u{f0e7}'
    }
}

/// Projectiles `0..n` drawn in order.
pub open spec fn draw_shots(cv: CanvasView, shots: Seq<ShotSprite>, glyphs: GlyphMode, width: int, height: int, n: int) -> CanvasView
    decreases n,
{
    if n <= 0 {
        cv
    } else {
        let s = shots[n - 1];
        plot(draw_shots(cv, shots, glyphs, width, height, n - 1), width, height, s.x as int, s.y as int, shot_glyph(s, glyphs))
    }
}

/// A blast flashes on its centre and the cells left, right and above it.
pub open spec fn draw_blast(cv: CanvasView, b: Blast, glyphs: GlyphMode, width: int, height: int) -> CanvasView {
    let g = blast_glyph(b, glyphs);
    let c1 = plot(cv, width, height, b.x as int, b.y as int, g);
    let c2 = plot(c1, width, height, b.x - 1, b.y as int, g);
    let c3 = plot(c2, width, height, b.x + 1, b.y as int, g);
    plot(c3, width, height, b.x as int, b.y - 1, g)
}

pub open spec fn draw_blasts(cv: CanvasView, blasts: Seq<Blast>, glyphs: GlyphMode, width: int, height: int, n: int) -> CanvasView
    decreases n,
{
    if n <= 0 {
        cv
    } else {
        draw_blast(draw_blasts(cv, blasts, glyphs, width, height, n - 1), blasts[n - 1], glyphs, width, height)
    }
}

/// The level of the health gauge, 0 to 16, rounded to the nearest sixteenth.
pub open spec fn health_level(health: int) -> int {
    let h = if health > 0 { health } else { 0 };
    let v = (h * 16 + MAX_HEALTH / 2) / (MAX_HEALTH as int);
    if v > 16 { 16 } else { v }
}

/// Health in whole percent, never below zero.
pub open spec fn health_percent(health: int) -> int {
    let h = if health > 0 { health } else { 0 };
    h * 100 / (MAX_HEALTH as int)
}

/// The gauge colour: green while healthy, yellow when wounded, red when critical.
pub open spec fn health_style(health: int) -> Style {
    let pct = health_percent(health);
    if pct >= 60 {
        Style::Health
    } else if pct >= 25 {
        Style::Caution
    } else {
        Style::Weapon
    }
}

/// The charge shown for a shot charging since `start`: five percent per two ticks.
pub open spec fn charge_percent(tick: u64, start: u64) -> int {
    let elapsed = if tick >= start { tick - start } else { 0 };
    let e = if elapsed > 40 { 40 } else { elapsed };
    let p = (e / 2) * 5;
    if p > 100 { 100 } else { p }
}

/// The worm itself: for the viewer a crosshair along the aim, the tail on the side it
/// faces, then the body.
pub open spec fn draw_figure(cv: CanvasView, s: WormSprite, viewer: PlayerId, glyphs: GlyphMode, width: int, height: int) -> CanvasView {
    let ascii = glyphs == GlyphMode::Ascii;
    let mine = s.id == viewer;
    let tail = if ascii { if s.facing >= 0 { '\u{3e}' } else { '\u{3c}' } } else if s.facing >= 0 { '\u{e0b0}' } else { '\u{e0b2}' };
    let body = if ascii { if mine { '@' } else { 'w' } } else if mine { '\u{f188}' } else { '\u{f2db}' };
    let horiz = if 16 - abs(s.aim as int) > 4 { 16 - abs(s.aim as int) } else { 4 };
    let c1 = if mine {
        plot(cv, width, height, s.x + s.facing * horiz, s.y + s.aim * 3, if ascii { '+' } else { '\u{f140}' })
    } else {
        cv
    };
    let c2 = plot(c1, width, height, s.x + s.facing * 4, s.y as int, tail);
    plot(c2, width, height, s.x as int, s.y as int, body)
}

/// Beside the worm, two cells high, the health gauge and, while it charges, the power
/// gauge.
pub open spec fn draw_gauges(cv: CanvasView, s: WormSprite, tick: u64, width: int, height: int) -> CanvasView {
    let cwx = trunc_div(s.x * width, WIDTH as int);
    let cwy = trunc_div(s.y * height, HEIGHT as int);
    let hp = split_level(health_level(s.health as int));
    let style = health_style(s.health as int);
    let c4 = plot_styled(cv, width, height, cwx - 1, cwy - 1, level_glyph(hp.0), style);
    let c5 = plot_styled(c4, width, height, cwx - 1, cwy - 2, level_glyph(hp.1), style);
    match s.charge_started {
        Some(start) => {
            let pw = split_level(charge_percent(tick, start) * 16 / 100);
            let c6 = plot_styled(c5, width, height, cwx + 1, cwy - 1, level_glyph(pw.0), Style::Weapon);
            plot_styled(c6, width, height, cwx + 1, cwy - 2, level_glyph(pw.1), Style::Weapon)
        },
        None => c5,
    }
}

/// A worm waiting to respawn is not drawn; a living one is drawn with its gauges.
pub open spec fn draw_sprite(cv: CanvasView, s: WormSprite, viewer: PlayerId, glyphs: GlyphMode, tick: u64, width: int, height: int) -> CanvasView {
    if s.respawn_ticks != 0 {
        cv
    } else {
        draw_gauges(draw_figure(cv, s, viewer, glyphs, width, height), s, tick, width, height)
    }
}

pub open spec fn draw_sprites(cv: CanvasView, sprites: Seq<WormSprite>, viewer: PlayerId, glyphs: GlyphMode, tick: u64, width: int, height: int, n: int) -> CanvasView
    decreases n,
{
    if n <= 0 {
        cv
    } else {
        draw_sprite(draw_sprites(cv, sprites, viewer, glyphs, tick, width, height, n - 1), sprites[n - 1], viewer, glyphs, tick, width, height)
    }
}

/// The resampled battlefield alone.
pub open spec fn base_canvas(tiles: Seq<Tile>, width: int, height: int) -> CanvasView {
    CanvasView {
        cells: Seq::new((width * height) as nat, |i: int| sampled(tiles, i % width, i / width, width, height)),
        styles: Seq::new((width * height) as nat, |i: int| None),
    }
}

proof fn lemma_viewport_index(x: int, y: int, w: int, h: int)
    requires
        0 <= x < w,
        0 <= y < h,
        w > 0,
    ensures
        0 <= y * w + x < w * h,
        (y * w + x) % w == x,
        (y * w + x) / w == y,
{
    vstd::arithmetic::div_mod::lemma_fundamental_div_mod_converse(y * w + x, w, y, x);
    assert(y * w + x < w * h) by (nonlinear_arith)
        requires
            0 <= x < w,
            0 <= y < h,
    ;
    assert(0 <= y * w) by (nonlinear_arith)
        requires
            0 <= y,
            0 <= w,
    ;
}

proof fn lemma_world_scaled(x: int, y: int, w: int, h: int)
    requires
        0 <= x < WIDTH,
        0 <= y < HEIGHT,
        0 < w,
        0 < h,
    ensures
        0 <= x * w / (WIDTH as int) < w,
        0 <= y * h / (HEIGHT as int) < h,
        0 <= (y * h / (HEIGHT as int)) * w + x * w / (WIDTH as int) < w * h,
{
    assert(0 <= x * w / (WIDTH as int) < w) by (nonlinear_arith)
        requires
            0 <= x < WIDTH,
            0 < w,
    {
        vstd::arithmetic::div_mod::lemma_div_pos_is_pos(x * w, WIDTH as int);
        vstd::arithmetic::div_mod::lemma_div_by_multiple_is_strongly_ordered(x * w, w * WIDTH, w, WIDTH as int);
    }
    assert(0 <= y * h / (HEIGHT as int) < h) by (nonlinear_arith)
        requires
            0 <= y < HEIGHT,
            0 < h,
    {
        vstd::arithmetic::div_mod::lemma_div_pos_is_pos(y * h, HEIGHT as int);
        vstd::arithmetic::div_mod::lemma_div_by_multiple_is_strongly_ordered(y * h, h * HEIGHT, h, HEIGHT as int);
    }
    lemma_viewport_index(x * w / (WIDTH as int), y * h / (HEIGHT as int), w, h);
}

/// Draws `ch` at world cell `(x, y)`.
pub fn plot_world(canvas: &mut Vec<char>, width: usize, height: usize, x: i64, y: i64, ch: char)
    requires
        0 < width <= MAX_VIEWPORT_WIDTH,
        0 < height <= MAX_VIEWPORT_HEIGHT,
        old(canvas)@.len() == width * height,
    ensures
        final(canvas)@.len() == old(canvas)@.len(),
        final(canvas)@ == plot((CanvasView { cells: old(canvas)@, styles: Seq::empty() }), width as int, height as int, x as int, y as int, ch).cells,
{
    if x < 0 || y < 0 || x >= WIDTH as i64 || y >= HEIGHT as i64 {
        return;
    }
    proof {
        lemma_world_scaled(x as int, y as int, width as int, height as int);
    }
    let sx = x as usize * width / WIDTH;
    let sy = y as usize * height / HEIGHT;
    assert(width * height <= 36000) by (nonlinear_arith)
        requires
            width <= 300,
            height <= 120,
    ;
    assert(sy * width + sx < width * height);
    canvas.set(sy * width + sx, ch);
}

/// Draws `ch` in `style` at viewport cell `(cx, cy)`.
pub fn plot_canvas_styled(canvas: &mut Vec<char>, overlay: &mut Vec<Option<Style>>, width: usize, height: usize, cx: i64, cy: i64, ch: char, style: Style)
    requires
        0 < width <= MAX_VIEWPORT_WIDTH,
        0 < height <= MAX_VIEWPORT_HEIGHT,
        old(canvas)@.len() == width * height,
        old(overlay)@.len() == width * height,
    ensures
        final(canvas)@.len() == old(canvas)@.len(),
        final(overlay)@.len() == old(overlay)@.len(),
        (CanvasView { cells: final(canvas)@, styles: final(overlay)@ }) == plot_styled(
            (CanvasView { cells: old(canvas)@, styles: old(overlay)@ }),
            width as int,
            height as int,
            cx as int,
            cy as int,
            ch,
            style,
        ),
{
    if cx < 0 || cy < 0 {
        return;
    }
    let h = height as i64;
    let w = width as i64;
    if cy < h && cx < w {
        proof {
            lemma_viewport_index(cx as int, cy as int, width as int, height as int);
        }
        assert(width * height <= 36000) by (nonlinear_arith)
            requires
                width <= 300,
                height <= 120,
        ;
        let i = cy as usize * width + cx as usize;
        canvas.set(i, ch);
        overlay.set(i, Some(style));
    }
}


/// Everything drawn on the resampled battlefield: projectiles first, then blasts,
/// then worms, each in the order given.
pub open spec fn painted(
    tiles: Seq<Tile>,
    shots: Seq<ShotSprite>,
    blasts: Seq<Blast>,
    sprites: Seq<WormSprite>,
    viewer: PlayerId,
    glyphs: GlyphMode,
    tick: u64,
    width: int,
    height: int,
) -> CanvasView {
    let c0 = base_canvas(tiles, width, height);
    let c1 = draw_shots(c0, shots, glyphs, width, height, shots.len() as int);
    let c2 = draw_blasts(c1, blasts, glyphs, width, height, blasts.len() as int);
    draw_sprites(c2, sprites, viewer, glyphs, tick, width, height, sprites.len() as int)
}

fn trunc_div_exec(a: i64, b: i64) -> (q: i64)
    requires
        b > 0,
        a > i64::MIN,
    ensures
        q == trunc_div(a as int, b as int),
{
    if a >= 0 { a / b } else { -((-a) / b) }
}

fn draw_figure_exec(
    canvas: &mut Vec<char>,
    overlay: &Vec<Option<Style>>,
    width: usize,
    height: usize,
    s: WormSprite,
    viewer: PlayerId,
    glyphs: GlyphMode,
)
    requires
        0 < width <= MAX_VIEWPORT_WIDTH,
        0 < height <= MAX_VIEWPORT_HEIGHT,
        old(canvas)@.len() == width * height,
    ensures
        final(canvas)@.len() == width * height,
        (CanvasView { cells: final(canvas)@, styles: overlay@ }) == draw_figure(
            (CanvasView { cells: old(canvas)@, styles: overlay@ }),
            s,
            viewer,
            glyphs,
            width as int,
            height as int,
        ),
{
    let ascii = glyphs == GlyphMode::Ascii;
    let mine = s.id == viewer;
    let tail = if ascii {
        if s.facing >= 0 { '\u{3e}' } else { '\u{3c}' }
    } else if s.facing >= 0 {
        '\u{e0b0}'
    } else {
        '\u{e0b2}'
    };
    let body = if ascii {
        if mine { '@' } else { 'w' }
    } else if mine {
        '\u{f188}'
    } else {
        '\u{f2db}'
    };
    let x = s.x as i64;
    let y = s.y as i64;
    let facing = s.facing as i64;
    let aim = s.aim as i64;
    if mine {
        let mag = if aim < 0 { -aim } else { aim };
        let horiz = if 16 - mag > 4 { 16 - mag } else { 4 };
        assert(-128 * 16 <= facing * horiz <= 128 * 16) by (nonlinear_arith)
            requires
                -128 <= facing <= 127,
                4 <= horiz <= 16,
        ;
        plot_world(canvas, width, height, x + facing * horiz, y + aim * 3, if ascii { '+' } else { '\u{f140}' });
    }
    plot_world(canvas, width, height, x + facing * 4, y, tail);
    plot_world(canvas, width, height, x, y, body);
}

fn draw_gauges_exec(
    canvas: &mut Vec<char>,
    overlay: &mut Vec<Option<Style>>,
    width: usize,
    height: usize,
    s: WormSprite,
    tick: u64,
)
    requires
        0 < width <= MAX_VIEWPORT_WIDTH,
        0 < height <= MAX_VIEWPORT_HEIGHT,
        old(canvas)@.len() == width * height,
        old(overlay)@.len() == width * height,
    ensures
        final(canvas)@.len() == width * height,
        final(overlay)@.len() == width * height,
        (CanvasView { cells: final(canvas)@, styles: final(overlay)@ }) == draw_gauges(
            (CanvasView { cells: old(canvas)@, styles: old(overlay)@ }),
            s,
            tick,
            width as int,
            height as int,
        ),
{
    let x = s.x as i64;
    let y = s.y as i64;
    assert(-0x8000_0000 * 300 <= x * width <= 0x8000_0000 * 300) by (nonlinear_arith)
        requires
            -0x8000_0000 <= x < 0x8000_0000,
            0 < width <= 300,
    ;
    assert(-0x8000_0000 * 120 <= y * height <= 0x8000_0000 * 120) by (nonlinear_arith)
        requires
            -0x8000_0000 <= y < 0x8000_0000,
            0 < height <= 120,
    ;
    let cwx = trunc_div_exec(x * width as i64, WIDTH as i64);
    let cwy = trunc_div_exec(y * height as i64, HEIGHT as i64);
    let hp_health: i64 = if s.health > 0 { s.health as i64 } else { 0 };
    let level = (hp_health * 16 + MAX_HEALTH as i64 / 2) / MAX_HEALTH as i64;
    let level = if level > 16 { 16 } else { level };
    let pct = hp_health * 100 / MAX_HEALTH as i64;
    let style = if pct >= 60 {
        Style::Health
    } else if pct >= 25 {
        Style::Caution
    } else {
        Style::Weapon
    };
    let bottom = if level < 8 { level } else { 8 };
    let top = if level > 8 { level - 8 } else { 0 };
    plot_canvas_styled(canvas, overlay, width, height, cwx - 1, cwy - 1, level_char(bottom as i32), style);
    plot_canvas_styled(canvas, overlay, width, height, cwx - 1, cwy - 2, level_char(top as i32), style);
    match s.charge_started {
        Some(start) => {
            let elapsed = tick.saturating_sub(start);
            let e = if elapsed > 40 { 40 } else { elapsed };
            let p = (e / 2) * 5;
            let percent = if p > 100 { 100 } else { p };
            let pw = (percent * 16 / 100) as i32;
            let pb = if pw < 8 { pw } else { 8 };
            let pt = if pw > 8 { pw - 8 } else { 0 };
            plot_canvas_styled(canvas, overlay, width, height, cwx + 1, cwy - 1, level_char(pb), Style::Weapon);
            plot_canvas_styled(canvas, overlay, width, height, cwx + 1, cwy - 2, level_char(pt), Style::Weapon);
        },
        None => {},
    }
}

fn draw_sprite_exec(
    canvas: &mut Vec<char>,
    overlay: &mut Vec<Option<Style>>,
    width: usize,
    height: usize,
    s: WormSprite,
    viewer: PlayerId,
    glyphs: GlyphMode,
    tick: u64,
)
    requires
        0 < width <= MAX_VIEWPORT_WIDTH,
        0 < height <= MAX_VIEWPORT_HEIGHT,
        old(canvas)@.len() == width * height,
        old(overlay)@.len() == width * height,
    ensures
        final(canvas)@.len() == width * height,
        final(overlay)@.len() == width * height,
        (CanvasView { cells: final(canvas)@, styles: final(overlay)@ }) == draw_sprite(
            (CanvasView { cells: old(canvas)@, styles: old(overlay)@ }),
            s,
            viewer,
            glyphs,
            tick,
            width as int,
            height as int,
        ),
{
    if s.respawn_ticks != 0 {
        return;
    }
    draw_figure_exec(canvas, overlay, width, height, s, viewer, glyphs);
    draw_gauges_exec(canvas, overlay, width, height, s, tick);
}

/// The viewport for one client: the battlefield resampled to `width` by `height`
/// cells with every projectile, blast and worm drawn on it.
pub fn paint(
    terrain: &Terrain,
    shots: &Vec<ShotSprite>,
    blasts: &Vec<Blast>,
    sprites: &Vec<WormSprite>,
    viewer: PlayerId,
    glyphs: GlyphMode,
    tick: u64,
    width: usize,
    height: usize,
) -> (r: (Vec<char>, Vec<Option<Style>>))
    requires
        terrain.wf(),
        0 < width <= MAX_VIEWPORT_WIDTH,
        0 < height <= MAX_VIEWPORT_HEIGHT,
    ensures
        r.0@.len() == width * height,
        r.1@.len() == width * height,
        (CanvasView { cells: r.0@, styles: r.1@ }) == painted(
            terrain.tiles@,
            shots@,
            blasts@,
            sprites@,
            viewer,
            glyphs,
            tick,
            width as int,
            height as int,
        ),
{
    assert(width * height <= 36000) by (nonlinear_arith)
        requires
            width <= 300,
            height <= 120,
    ;
    let ghost c0 = base_canvas(terrain.tiles@, width as int, height as int);
    let mut canvas: Vec<char> = Vec::new();
    let mut overlay: Vec<Option<Style>> = Vec::new();
    let mut sy: usize = 0;
    while sy < height
        invariant
            terrain.wf(),
            0 < width <= MAX_VIEWPORT_WIDTH,
            0 < height <= MAX_VIEWPORT_HEIGHT,
            width * height <= 36000,
            0 <= sy <= height,
            c0 == base_canvas(terrain.tiles@, width as int, height as int),
            canvas@.len() == sy * width,
            overlay@.len() == sy * width,
            forall|i: int| 0 <= i < canvas@.len() ==> #[trigger] canvas@[i] == c0.cells[i],
            forall|i: int| 0 <= i < overlay@.len() ==> #[trigger] overlay@[i] == c0.styles[i],
        decreases height - sy,
    {
        let mut sx: usize = 0;
        while sx < width
            invariant
                terrain.wf(),
                0 < width <= MAX_VIEWPORT_WIDTH,
                0 < height <= MAX_VIEWPORT_HEIGHT,
                width * height <= 36000,
                0 <= sy < height,
                0 <= sx <= width,
                c0 == base_canvas(terrain.tiles@, width as int, height as int),
                canvas@.len() == sy * width + sx,
                overlay@.len() == sy * width + sx,
                forall|i: int| 0 <= i < canvas@.len() ==> #[trigger] canvas@[i] == c0.cells[i],
                forall|i: int| 0 <= i < overlay@.len() ==> #[trigger] overlay@[i] == c0.styles[i],
            decreases width - sx,
        {
            proof {
                lemma_viewport_index(sx as int, sy as int, width as int, height as int);
            }
            let c = crate::render::sampled_terrain(terrain, sx, sy, width, height);
            canvas.push(c);
            overlay.push(None);
            sx = sx + 1;
        }
        proof {
            assert((sy + 1) * width == sy * width + width) by (nonlinear_arith);
        }
        sy = sy + 1;
    }
    proof {
        assert(height * width == width * height) by (nonlinear_arith);
        assert(canvas@ =~= c0.cells);
        assert(overlay@ =~= c0.styles);
    }
    let mut k: usize = 0;
    while k < shots.len()
        invariant
            0 < width <= MAX_VIEWPORT_WIDTH,
            0 < height <= MAX_VIEWPORT_HEIGHT,
            0 <= k <= shots@.len(),
            canvas@.len() == width * height,
            overlay@ == c0.styles,
            canvas@ == draw_shots(c0, shots@, glyphs, width as int, height as int, k as int).cells,
            draw_shots(c0, shots@, glyphs, width as int, height as int, k as int).styles == c0.styles,
        decreases shots@.len() - k,
    {
        let s = shots[k];
        let g = if glyphs == GlyphMode::Ascii { s.glyph } else { '\u{f135}' };
        plot_world(&mut canvas, width, height, s.x as i64, s.y as i64, g);
        k = k + 1;
    }
    let ghost c1 = draw_shots(c0, shots@, glyphs, width as int, height as int, shots@.len() as int);
    let mut k: usize = 0;
    while k < blasts.len()
        invariant
            0 < width <= MAX_VIEWPORT_WIDTH,
            0 < height <= MAX_VIEWPORT_HEIGHT,
            0 <= k <= blasts@.len(),
            canvas@.len() == width * height,
            overlay@ == c1.styles,
            canvas@ == draw_blasts(c1, blasts@, glyphs, width as int, height as int, k as int).cells,
            draw_blasts(c1, blasts@, glyphs, width as int, height as int, k as int).styles == c1.styles,
        decreases blasts@.len() - k,
    {
        let b = blasts[k];
        let g = if glyphs == GlyphMode::Ascii {
            if b.age % 2 == 0 { '@' } else { '*' }
        } else {
            '\u{f0e7}'
        };
        let bx = b.x as i64;
        let by = b.y as i64;
        plot_world(&mut canvas, width, height, bx, by, g);
        plot_world(&mut canvas, width, height, bx - 1, by, g);
        plot_world(&mut canvas, width, height, bx + 1, by, g);
        plot_world(&mut canvas, width, height, bx, by - 1, g);
        k = k + 1;
    }
    let ghost c2 = draw_blasts(c1, blasts@, glyphs, width as int, height as int, blasts@.len() as int);
    proof {
        assert((CanvasView { cells: canvas@, styles: overlay@ }) == c2);
    }
    let mut k: usize = 0;
    while k < sprites.len()
        invariant
            0 < width <= MAX_VIEWPORT_WIDTH,
            0 < height <= MAX_VIEWPORT_HEIGHT,
            0 <= k <= sprites@.len(),
            canvas@.len() == width * height,
            overlay@.len() == width * height,
            (CanvasView { cells: canvas@, styles: overlay@ }) == draw_sprites(c2, sprites@, viewer, glyphs, tick, width as int, height as int, k as int),
        decreases sprites@.len() - k,
    {
        draw_sprite_exec(&mut canvas, &mut overlay, width, height, sprites[k], viewer, glyphs, tick);
        k = k + 1;
    }
    (canvas, overlay)
}

/// The crosshair glyph of a glyph set.
pub open spec fn crosshair(glyphs: GlyphMode) -> char {
    if glyphs == GlyphMode::Ascii {
        '+'
    } else {
        '\u{f140}'
    }
}

/// Whether no cell of the viewport shows `ch`.
pub open spec fn lacks(cv: CanvasView, ch: char) -> bool {
    forall|i: int| 0 <= i < cv.cells.len() ==> cv.cells[i] != ch
}

proof fn lemma_plot_lacks(cv: CanvasView, width: int, height: int, x: int, y: int, c: char, ch: char)
    requires
        lacks(cv, ch),
        c != ch,
        width > 0,
        height > 0,
        cv.cells.len() == width * height,
    ensures
        lacks(plot(cv, width, height, x, y, c), ch),
        plot(cv, width, height, x, y, c).cells.len() == width * height,
{
    if 0 <= x < WIDTH && 0 <= y < HEIGHT {
        lemma_world_scaled(x, y, width, height);
    }
    let r = plot(cv, width, height, x, y, c);
    assert forall|i: int| 0 <= i < r.cells.len() implies r.cells[i] != ch by {
        if 0 <= x < WIDTH && 0 <= y < HEIGHT {
            let k = (y * height / (HEIGHT as int)) * width + x * width / (WIDTH as int);
            if i != k {
                assert(r.cells[i] == cv.cells[i]);
            }
        }
    }
}

proof fn lemma_plot_styled_lacks(cv: CanvasView, width: int, height: int, x: int, y: int, c: char, style: Style, ch: char)
    requires
        lacks(cv, ch),
        c != ch,
        width > 0,
        height > 0,
        cv.cells.len() == width * height,
    ensures
        lacks(plot_styled(cv, width, height, x, y, c, style), ch),
        plot_styled(cv, width, height, x, y, c, style).cells.len() == width * height,
{
    if 0 <= x < width && 0 <= y < height {
        lemma_viewport_index(x, y, width, height);
    }
    let r = plot_styled(cv, width, height, x, y, c, style);
    assert forall|i: int| 0 <= i < r.cells.len() implies r.cells[i] != ch by {
        if 0 <= x < width && 0 <= y < height {
            if i != y * width + x {
                assert(r.cells[i] == cv.cells[i]);
            }
        }
    }
}

proof fn lemma_gauges_lack(cv: CanvasView, s: WormSprite, tick: u64, width: int, height: int, ch: char)
    requires
        lacks(cv, ch),
        !gauge_char(ch),
        width > 0,
        height > 0,
        cv.cells.len() == width * height,
    ensures
        lacks(draw_gauges(cv, s, tick, width, height), ch),
        draw_gauges(cv, s, tick, width, height).cells.len() == width * height,
{
    let cwx = trunc_div(s.x * width, WIDTH as int);
    let cwy = trunc_div(s.y * height, HEIGHT as int);
    let hp = split_level(health_level(s.health as int));
    let style = health_style(s.health as int);
    lemma_plot_styled_lacks(cv, width, height, cwx - 1, cwy - 1, level_glyph(hp.0), style, ch);
    let c4 = plot_styled(cv, width, height, cwx - 1, cwy - 1, level_glyph(hp.0), style);
    lemma_plot_styled_lacks(c4, width, height, cwx - 1, cwy - 2, level_glyph(hp.1), style, ch);
    let c5 = plot_styled(c4, width, height, cwx - 1, cwy - 2, level_glyph(hp.1), style);
    match s.charge_started {
        Some(start) => {
            let pw = split_level(charge_percent(tick, start) * 16 / 100);
            lemma_plot_styled_lacks(c5, width, height, cwx + 1, cwy - 1, level_glyph(pw.0), Style::Weapon, ch);
            let c6 = plot_styled(c5, width, height, cwx + 1, cwy - 1, level_glyph(pw.0), Style::Weapon);
            lemma_plot_styled_lacks(c6, width, height, cwx + 1, cwy - 2, level_glyph(pw.1), Style::Weapon, ch);
        },
        None => {},
    }
}

proof fn lemma_sprites_lack(cv: CanvasView, sprites: Seq<WormSprite>, viewer: PlayerId, glyphs: GlyphMode, tick: u64, width: int, height: int, n: int, ch: char)
    requires
        lacks(cv, ch),
        n <= sprites.len(),
        width > 0,
        height > 0,
        cv.cells.len() == width * height,
        !gauge_char(ch),
        !figure_char(ch),
        ch == crosshair(glyphs) ==> forall|i: int| 0 <= i < sprites.len() && (#[trigger] sprites[i]).id == viewer ==> sprites[i].respawn_ticks != 0,
    ensures
        lacks(draw_sprites(cv, sprites, viewer, glyphs, tick, width, height, n), ch),
        draw_sprites(cv, sprites, viewer, glyphs, tick, width, height, n).cells.len() == width * height,
    decreases n,
{
    if n > 0 {
        lemma_sprites_lack(cv, sprites, viewer, glyphs, tick, width, height, n - 1, ch);
        let prev = draw_sprites(cv, sprites, viewer, glyphs, tick, width, height, n - 1);
        let s = sprites[n - 1];
        if s.respawn_ticks == 0 {
            let ascii = glyphs == GlyphMode::Ascii;
            let mine = s.id == viewer;
            let tail = if ascii { if s.facing >= 0 { '\u{3e}' } else { '\u{3c}' } } else if s.facing >= 0 { '\u{e0b0}' } else { '\u{e0b2}' };
            let body = if ascii { if mine { '@' } else { 'w' } } else if mine { '\u{f188}' } else { '\u{f2db}' };
            let horiz = if 16 - abs(s.aim as int) > 4 { 16 - abs(s.aim as int) } else { 4 };
            let c1 = if mine {
                lemma_plot_lacks(prev, width, height, s.x + s.facing * horiz, s.y + s.aim * 3, crosshair(glyphs), ch);
                plot(prev, width, height, s.x + s.facing * horiz, s.y + s.aim * 3, crosshair(glyphs))
            } else {
                prev
            };
            lemma_plot_lacks(c1, width, height, s.x + s.facing * 4, s.y as int, tail, ch);
            let c2 = plot(c1, width, height, s.x + s.facing * 4, s.y as int, tail);
            lemma_plot_lacks(c2, width, height, s.x as int, s.y as int, body, ch);
            lemma_gauges_lack(draw_figure(prev, s, viewer, glyphs, width, height), s, tick, width, height, ch);
        }
    }
}

proof fn lemma_shots_lack(cv: CanvasView, shots: Seq<ShotSprite>, glyphs: GlyphMode, width: int, height: int, n: int, ch: char)
    requires
        lacks(cv, ch),
        ch != '\u{f135}',
        n <= shots.len(),
        width > 0,
        height > 0,
        cv.cells.len() == width * height,
        forall|i: int| 0 <= i < shots.len() ==> (#[trigger] shots[i]).glyph != ch,
    ensures
        lacks(draw_shots(cv, shots, glyphs, width, height, n), ch),
        draw_shots(cv, shots, glyphs, width, height, n).cells.len() == width * height,
    decreases n,
{
    if n > 0 {
        lemma_shots_lack(cv, shots, glyphs, width, height, n - 1, ch);
        let s = shots[n - 1];
        lemma_plot_lacks(draw_shots(cv, shots, glyphs, width, height, n - 1), width, height, s.x as int, s.y as int, shot_glyph(s, glyphs), ch);
    }
}

proof fn lemma_blasts_lack(cv: CanvasView, blasts: Seq<Blast>, glyphs: GlyphMode, width: int, height: int, n: int, ch: char)
    requires
        lacks(cv, ch),
        ch != '@' && ch != '*' && ch != '\u{f0e7}',
        n <= blasts.len(),
        width > 0,
        height > 0,
        cv.cells.len() == width * height,
    ensures
        lacks(draw_blasts(cv, blasts, glyphs, width, height, n), ch),
        draw_blasts(cv, blasts, glyphs, width, height, n).cells.len() == width * height,
    decreases n,
{
    if n > 0 {
        lemma_blasts_lack(cv, blasts, glyphs, width, height, n - 1, ch);
        let b = blasts[n - 1];
        let g = blast_glyph(b, glyphs);
        let c0 = draw_blasts(cv, blasts, glyphs, width, height, n - 1);
        lemma_plot_lacks(c0, width, height, b.x as int, b.y as int, g, ch);
        let c1 = plot(c0, width, height, b.x as int, b.y as int, g);
        lemma_plot_lacks(c1, width, height, b.x - 1, b.y as int, g, ch);
        let c2 = plot(c1, width, height, b.x - 1, b.y as int, g);
        lemma_plot_lacks(c2, width, height, b.x + 1, b.y as int, g, ch);
        let c3 = plot(c2, width, height, b.x + 1, b.y as int, g);
        lemma_plot_lacks(c3, width, height, b.x as int, b.y - 1, g, ch);
    }
}

/// Characters the gauges draw: blank and the eighth blocks.
pub open spec fn gauge_char(c: char) -> bool {
    c == ' ' || ('\u{2581}' <= c && c <= '\u{2588}')
}

/// Characters a worm's figure draws besides the crosshair.
pub open spec fn figure_char(c: char) -> bool {
    c == '\u{3e}' || c == '\u{3c}' || c == '\u{e0b0}' || c == '\u{e0b2}' || c == '@' || c == 'w'
        || c == '\u{f188}' || c == '\u{f2db}'
}

/// A character that neither the terrain, the blasts nor the worms draw, and that no
/// projectile carries, shows in no cell of the painted viewport; nor does the
/// crosshair when the viewer has no living worm. The viewport has `width * height`
/// cells.
pub proof fn lemma_painted_lacks(
    tiles: Seq<Tile>,
    shots: Seq<ShotSprite>,
    blasts: Seq<Blast>,
    sprites: Seq<WormSprite>,
    viewer: PlayerId,
    glyphs: GlyphMode,
    tick: u64,
    width: int,
    height: int,
    ch: char,
)
    requires
        width > 0,
        height > 0,
        ch != ' ',
        ch == crosshair(glyphs) || ch < '\u{2580}' || ch > '\u{259f}',
        !gauge_char(ch),
        !figure_char(ch),
        ch != '@' && ch != '*' && ch != '\u{f0e7}' && ch != '\u{f135}',
        ch != '+' && ch != '\u{f140}' || ch == crosshair(glyphs),
        forall|i: int| 0 <= i < shots.len() ==> (#[trigger] shots[i]).glyph != ch,
        ch == crosshair(glyphs) ==> forall|i: int| 0 <= i < sprites.len() && (#[trigger] sprites[i]).id == viewer ==> sprites[i].respawn_ticks != 0,
    ensures
        lacks(painted(tiles, shots, blasts, sprites, viewer, glyphs, tick, width, height), ch),
        painted(tiles, shots, blasts, sprites, viewer, glyphs, tick, width, height).cells.len() == width * height,
{
    let c0 = base_canvas(tiles, width, height);
    assert(width * height > 0) by (nonlinear_arith)
        requires
            width > 0,
            height > 0,
    ;
    assert(c0.cells.len() == width * height);
    assert forall|i: int| 0 <= i < c0.cells.len() implies c0.cells[i] != ch by {
        assert(c0.cells[i] == sampled(tiles, i % width, i / width, width, height));
    }
    lemma_shots_lack(c0, shots, glyphs, width, height, shots.len() as int, ch);
    let c1 = draw_shots(c0, shots, glyphs, width, height, shots.len() as int);
    lemma_blasts_lack(c1, blasts, glyphs, width, height, blasts.len() as int, ch);
    let c2 = draw_blasts(c1, blasts, glyphs, width, height, blasts.len() as int);
    lemma_sprites_lack(c2, sprites, viewer, glyphs, tick, width, height, sprites.len() as int, ch);
}

/// Only the viewer's own worm carries an aim crosshair: where the viewer has no
/// living worm among the sprites (and no projectile is drawn as `+`), no cell of the
/// viewport shows the crosshair glyph.
pub proof fn lemma_crosshair_only_for_viewer(
    tiles: Seq<Tile>,
    shots: Seq<ShotSprite>,
    blasts: Seq<Blast>,
    sprites: Seq<WormSprite>,
    viewer: PlayerId,
    glyphs: GlyphMode,
    tick: u64,
    width: int,
    height: int,
)
    requires
        width > 0,
        height > 0,
        forall|i: int| 0 <= i < shots.len() ==> (#[trigger] shots[i]).glyph != '+',
        forall|i: int| 0 <= i < sprites.len() && (#[trigger] sprites[i]).id == viewer ==> sprites[i].respawn_ticks != 0,
    ensures
        lacks(painted(tiles, shots, blasts, sprites, viewer, glyphs, tick, width, height), crosshair(glyphs)),
{
    if glyphs == GlyphMode::Ascii {
        lemma_painted_lacks(tiles, shots, blasts, sprites, viewer, glyphs, tick, width, height, '+');
    } else {
        lemma_painted_lacks_icons(tiles, shots, blasts, sprites, viewer, tick, width, height);
    }
}

/// With icons, projectiles are drawn as rockets whatever glyph they carry.
proof fn lemma_painted_lacks_icons(
    tiles: Seq<Tile>,
    shots: Seq<ShotSprite>,
    blasts: Seq<Blast>,
    sprites: Seq<WormSprite>,
    viewer: PlayerId,
    tick: u64,
    width: int,
    height: int,
)
    requires
        width > 0,
        height > 0,
        forall|i: int| 0 <= i < sprites.len() && (#[trigger] sprites[i]).id == viewer ==> sprites[i].respawn_ticks != 0,
    ensures
        lacks(painted(tiles, shots, blasts, sprites, viewer, GlyphMode::Powerlevel10k, tick, width, height), '\u{f140}'),
{
    let glyphs = GlyphMode::Powerlevel10k;
    let ch = '\u{f140}';
    let c0 = base_canvas(tiles, width, height);
    assert(width * height > 0) by (nonlinear_arith)
        requires
            width > 0,
            height > 0,
    ;
    assert forall|i: int| 0 <= i < c0.cells.len() implies c0.cells[i] != ch by {
        assert(c0.cells[i] == sampled(tiles, i % width, i / width, width, height));
    }
    lemma_icon_shots_lack(c0, shots, width, height, shots.len() as int);
    let c1 = draw_shots(c0, shots, glyphs, width, height, shots.len() as int);
    lemma_blasts_lack(c1, blasts, glyphs, width, height, blasts.len() as int, ch);
    let c2 = draw_blasts(c1, blasts, glyphs, width, height, blasts.len() as int);
    lemma_sprites_lack(c2, sprites, viewer, glyphs, tick, width, height, sprites.len() as int, ch);
}

proof fn lemma_icon_shots_lack(cv: CanvasView, shots: Seq<ShotSprite>, width: int, height: int, n: int)
    requires
        lacks(cv, '\u{f140}'),
        n <= shots.len(),
        width > 0,
        height > 0,
        cv.cells.len() == width * height,
    ensures
        lacks(draw_shots(cv, shots, GlyphMode::Powerlevel10k, width, height, n), '\u{f140}'),
        draw_shots(cv, shots, GlyphMode::Powerlevel10k, width, height, n).cells.len() == width * height,
    decreases n,
{
    if n > 0 {
        lemma_icon_shots_lack(cv, shots, width, height, n - 1);
        let s = shots[n - 1];
        lemma_plot_lacks(draw_shots(cv, shots, GlyphMode::Powerlevel10k, width, height, n - 1), width, height, s.x as int, s.y as int, '\u{f135}', '\u{f140}');
    }
}

/// How many times `ch` occurs in `s`.
pub open spec fn count_char(s: Seq<char>, ch: char) -> nat
    decreases s.len(),
{
    if s.len() == 0 {
        0
    } else {
        count_char(s.drop_last(), ch) + if s.last() == ch { 1nat } else { 0nat }
    }
}

/// How many of the first `n` sprites are the viewer's own living worm.
pub open spec fn living_viewer_sprites(sprites: Seq<WormSprite>, viewer: PlayerId, n: int) -> nat
    decreases n,
{
    if n <= 0 {
        0
    } else {
        living_viewer_sprites(sprites, viewer, n - 1) + if sprites[n - 1].id == viewer
            && sprites[n - 1].respawn_ticks == 0 {
            1nat
        } else {
            0nat
        }
    }
}

proof fn lemma_count_update(s: Seq<char>, i: int, c: char, ch: char)
    requires
        0 <= i < s.len(),
    ensures
        count_char(s.update(i, c), ch) <= count_char(s, ch) + if c == ch { 1nat } else { 0nat },
    decreases s.len(),
{
    let u = s.update(i, c);
    if i == s.len() - 1 {
        assert(u.drop_last() =~= s.drop_last());
    } else {
        assert(u.drop_last() =~= s.drop_last().update(i, c));
        lemma_count_update(s.drop_last(), i, c, ch);
    }
}

proof fn lemma_count_absent(s: Seq<char>, ch: char)
    requires
        forall|i: int| 0 <= i < s.len() ==> s[i] != ch,
    ensures
        count_char(s, ch) == 0,
    decreases s.len(),
{
    if s.len() > 0 {
        lemma_count_absent(s.drop_last(), ch);
    }
}

proof fn lemma_plot_count(cv: CanvasView, width: int, height: int, x: int, y: int, c: char, ch: char)
    requires
        width > 0,
        height > 0,
        cv.cells.len() == width * height,
    ensures
        count_char(plot(cv, width, height, x, y, c).cells, ch) <= count_char(cv.cells, ch) + if c == ch { 1nat } else { 0nat },
        plot(cv, width, height, x, y, c).cells.len() == width * height,
{
    if 0 <= x < WIDTH && 0 <= y < HEIGHT {
        lemma_world_scaled(x, y, width, height);
        lemma_count_update(cv.cells, (y * height / (HEIGHT as int)) * width + x * width / (WIDTH as int), c, ch);
    }
}

proof fn lemma_plot_styled_count(cv: CanvasView, width: int, height: int, x: int, y: int, c: char, style: Style, ch: char)
    requires
        width > 0,
        height > 0,
        cv.cells.len() == width * height,
        c != ch,
    ensures
        count_char(plot_styled(cv, width, height, x, y, c, style).cells, ch) <= count_char(cv.cells, ch),
        plot_styled(cv, width, height, x, y, c, style).cells.len() == width * height,
{
    if 0 <= x < width && 0 <= y < height {
        lemma_viewport_index(x, y, width, height);
        lemma_count_update(cv.cells, y * width + x, c, ch);
    }
}

proof fn lemma_gauges_count(cv: CanvasView, s: WormSprite, tick: u64, width: int, height: int, ch: char)
    requires
        !gauge_char(ch),
        width > 0,
        height > 0,
        cv.cells.len() == width * height,
    ensures
        count_char(draw_gauges(cv, s, tick, width, height).cells, ch) <= count_char(cv.cells, ch),
        draw_gauges(cv, s, tick, width, height).cells.len() == width * height,
{
    let cwx = trunc_div(s.x * width, WIDTH as int);
    let cwy = trunc_div(s.y * height, HEIGHT as int);
    let hp = split_level(health_level(s.health as int));
    let style = health_style(s.health as int);
    lemma_plot_styled_count(cv, width, height, cwx - 1, cwy - 1, level_glyph(hp.0), style, ch);
    let c4 = plot_styled(cv, width, height, cwx - 1, cwy - 1, level_glyph(hp.0), style);
    lemma_plot_styled_count(c4, width, height, cwx - 1, cwy - 2, level_glyph(hp.1), style, ch);
    let c5 = plot_styled(c4, width, height, cwx - 1, cwy - 2, level_glyph(hp.1), style);
    match s.charge_started {
        Some(start) => {
            let pw = split_level(charge_percent(tick, start) * 16 / 100);
            lemma_plot_styled_count(c5, width, height, cwx + 1, cwy - 1, level_glyph(pw.0), Style::Weapon, ch);
            let c6 = plot_styled(c5, width, height, cwx + 1, cwy - 1, level_glyph(pw.0), Style::Weapon);
            lemma_plot_styled_count(c6, width, height, cwx + 1, cwy - 2, level_glyph(pw.1), Style::Weapon, ch);
        },
        None => {},
    }
}

proof fn lemma_sprites_count(cv: CanvasView, sprites: Seq<WormSprite>, viewer: PlayerId, glyphs: GlyphMode, tick: u64, width: int, height: int, n: int)
    requires
        n <= sprites.len(),
        width > 0,
        height > 0,
        cv.cells.len() == width * height,
    ensures
        count_char(draw_sprites(cv, sprites, viewer, glyphs, tick, width, height, n).cells, crosshair(glyphs))
            <= count_char(cv.cells, crosshair(glyphs)) + living_viewer_sprites(sprites, viewer, n),
        draw_sprites(cv, sprites, viewer, glyphs, tick, width, height, n).cells.len() == width * height,
    decreases n,
{
    if n > 0 {
        let ch = crosshair(glyphs);
        lemma_sprites_count(cv, sprites, viewer, glyphs, tick, width, height, n - 1);
        let prev = draw_sprites(cv, sprites, viewer, glyphs, tick, width, height, n - 1);
        let s = sprites[n - 1];
        if s.respawn_ticks == 0 {
            let ascii = glyphs == GlyphMode::Ascii;
            let mine = s.id == viewer;
            let tail = if ascii { if s.facing >= 0 { '\u{3e}' } else { '\u{3c}' } } else if s.facing >= 0 { '\u{e0b0}' } else { '\u{e0b2}' };
            let body = if ascii { if mine { '@' } else { 'w' } } else if mine { '\u{f188}' } else { '\u{f2db}' };
            let horiz = if 16 - abs(s.aim as int) > 4 { 16 - abs(s.aim as int) } else { 4 };
            let c1 = if mine {
                lemma_plot_count(prev, width, height, s.x + s.facing * horiz, s.y + s.aim * 3, ch, ch);
                plot(prev, width, height, s.x + s.facing * horiz, s.y + s.aim * 3, ch)
            } else {
                prev
            };
            lemma_plot_count(c1, width, height, s.x + s.facing * 4, s.y as int, tail, ch);
            let c2 = plot(c1, width, height, s.x + s.facing * 4, s.y as int, tail);
            lemma_plot_count(c2, width, height, s.x as int, s.y as int, body, ch);
            lemma_gauges_count(draw_figure(prev, s, viewer, glyphs, width, height), s, tick, width, height, ch);
        }
    }
}

/// The crosshair appears at most once per living worm of the viewer among the sprites
/// (once, where the viewer has one worm), given that no projectile is drawn as `+`.
pub proof fn lemma_crosshair_at_most_once(
    tiles: Seq<Tile>,
    shots: Seq<ShotSprite>,
    blasts: Seq<Blast>,
    sprites: Seq<WormSprite>,
    viewer: PlayerId,
    glyphs: GlyphMode,
    tick: u64,
    width: int,
    height: int,
)
    requires
        width > 0,
        height > 0,
        forall|i: int| 0 <= i < shots.len() ==> (#[trigger] shots[i]).glyph != '+',
    ensures
        count_char(painted(tiles, shots, blasts, sprites, viewer, glyphs, tick, width, height).cells, crosshair(glyphs))
            <= living_viewer_sprites(sprites, viewer, sprites.len() as int),
{
    let ch = crosshair(glyphs);
    let c0 = base_canvas(tiles, width, height);
    assert(width * height > 0) by (nonlinear_arith)
        requires
            width > 0,
            height > 0,
    ;
    assert(c0.cells.len() == width * height);
    assert forall|i: int| 0 <= i < c0.cells.len() implies c0.cells[i] != ch by {
        assert(c0.cells[i] == sampled(tiles, i % width, i / width, width, height));
    }
    if glyphs == GlyphMode::Ascii {
        lemma_shots_lack(c0, shots, glyphs, width, height, shots.len() as int, ch);
    } else {
        lemma_icon_shots_lack(c0, shots, width, height, shots.len() as int);
    }
    let c1 = draw_shots(c0, shots, glyphs, width, height, shots.len() as int);
    lemma_blasts_lack(c1, blasts, glyphs, width, height, blasts.len() as int, ch);
    let c2 = draw_blasts(c1, blasts, glyphs, width, height, blasts.len() as int);
    lemma_count_absent(c2.cells, ch);
    lemma_sprites_count(c2, sprites, viewer, glyphs, tick, width, height, sprites.len() as int);
}

} // verus!
