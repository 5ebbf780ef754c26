//! Projects the shared world into one client's terminal: the battlefield resampled
//! to the viewport with 2x2 block characters, projectiles, blasts and worms drawn on
//! top with floating gauges, a status line, the key help and the kill feed, all as
//! one ANSI frame; and the row-by-row difference between two such frames.
use vstd::prelude::*;
use crate::game::{Blast, ColorDepth, GlyphMode, PlayerId, Tile, Weapon, HEIGHT, MAX_HEALTH, WIDTH, WORLD_SCALE};
use crate::terrain::{tile_at, Terrain};
use crate::canvas::{charge_percent, health_percent, lacks, lemma_painted_lacks, paint, painted, CanvasView, ShotSprite, WormSprite};
use crate::session::{has_text, occurs_at};
use crate::text::{chars_of, decimal, lemma_decimal_digits, push_char, push_decimal, push_right_aligned3, push_signed, right_aligned, signed_decimal};

verus! {

pub const MAX_VIEWPORT_WIDTH: usize = 300;
pub const MAX_VIEWPORT_HEIGHT: usize = 120;

/// How a drawn character is coloured.
#[derive(Debug, Clone, Copy, PartialEq, Eq, Structural)]
pub enum Style {
    Plain,
    Earth,
    Local,
    Enemy,
    Weapon,
    Aim,
    Health,
    /// The yellow of a wounded worm's health gauge.
    Caution,
}

/// The colouring a gauge forces on a viewport cell, if any.
pub type Paint = Option<Style>;

/// Earth cells among columns `x0..x1` of row `y`.
pub open spec fn row_earth(tiles: Seq<Tile>, y: int, x0: int, x1: int) -> nat
    decreases x1 - x0,
{
    if x1 <= x0 {
        0
    } else {
        row_earth(tiles, y, x0, x1 - 1) + if tile_at(tiles, x1 - 1, y) == Tile::Earth { 1nat } else { 0nat }
    }
}

/// Earth cells in the rectangle of columns `x0..x1` and rows `y0..y1`.
pub open spec fn rect_earth(tiles: Seq<Tile>, x0: int, x1: int, y0: int, y1: int) -> nat
    decreases y1 - y0,
{
    if y1 <= y0 {
        0
    } else {
        rect_earth(tiles, x0, x1, y0, y1 - 1) + row_earth(tiles, y1 - 1, x0, x1)
    }
}

/// A non-empty rectangle is drawn filled when at least half of it is earth.
pub open spec fn half_earth(tiles: Seq<Tile>, x0: int, x1: int, y0: int, y1: int) -> bool {
    if x1 <= x0 || y1 <= y0 {
        false
    } else {
        rect_earth(tiles, x0, x1, y0, y1) * 2 >= (x1 - x0) * (y1 - y0)
    }
}

/// The block character whose four quadrants are filled as given.
pub open spec fn quadrant_glyph(tl: bool, tr: bool, bl: bool, br: bool) -> char {
    if !tl && !tr && !bl && !br {
        ' '
    } else if tl && !tr && !bl && !br {
        '\u{2598}'
    } else if !tl && tr && !bl && !br {
        '\u{259d}'
    } else if !tl && !tr && bl && !br {
        '\u{2596}'
    } else if !tl && !tr && !bl && br {
        '\u{2597}'
    } else if tl && tr && !bl && !br {
        '\u{2580}'
    } else if !tl && !tr && bl && br {
        '\u{2584}'
    } else if tl && !tr && bl && !br {
        '\u{258c}'
    } else if !tl && tr && !bl && br {
        '\u{2590}'
    } else if tl && !tr && !bl && br {
        '\u{259a}'
    } else if !tl && tr && bl && !br {
        '\u{259e}'
    } else if tl && tr && bl && !br {
        '\u{259b}'
    } else if tl && tr && !bl && br {
        '\u{259c}'
    } else if tl && !tr && bl && br {
        '\u{2599}'
    } else if !tl && tr && bl && br {
        '\u{259f}'
    } else {
        '\u{2588}'
    }
}

/// The quadrants a character of the Unicode block elements fills, as (upper left,
/// upper right, lower left, lower right), by the characters' Unicode names; a space
/// fills none, and any other character is no block.
pub open spec fn block_quadrants(c: char) -> Option<(bool, bool, bool, bool)> {
    if c == ' ' {
        Some((false, false, false, false))
    } else if c == '\u{2580}' {
        // UPPER HALF BLOCK
        Some((true, true, false, false))
    } else if c == '\u{2584}' {
        // LOWER HALF BLOCK
        Some((false, false, true, true))
    } else if c == '\u{2588}' {
        // FULL BLOCK
        Some((true, true, true, true))
    } else if c == '\u{258c}' {
        // LEFT HALF BLOCK
        Some((true, false, true, false))
    } else if c == '\u{2590}' {
        // RIGHT HALF BLOCK
        Some((false, true, false, true))
    } else if c == '\u{2596}' {
        // QUADRANT LOWER LEFT
        Some((false, false, true, false))
    } else if c == '\u{2597}' {
        // QUADRANT LOWER RIGHT
        Some((false, false, false, true))
    } else if c == '\u{2598}' {
        // QUADRANT UPPER LEFT
        Some((true, false, false, false))
    } else if c == '\u{2599}' {
        // QUADRANT UPPER LEFT AND LOWER LEFT AND LOWER RIGHT
        Some((true, false, true, true))
    } else if c == '\u{259a}' {
        // QUADRANT UPPER LEFT AND LOWER RIGHT
        Some((true, false, false, true))
    } else if c == '\u{259b}' {
        // QUADRANT UPPER LEFT AND UPPER RIGHT AND LOWER LEFT
        Some((true, true, true, false))
    } else if c == '\u{259c}' {
        // QUADRANT UPPER LEFT AND UPPER RIGHT AND LOWER RIGHT
        Some((true, true, false, true))
    } else if c == '\u{259d}' {
        // QUADRANT UPPER RIGHT
        Some((false, true, false, false))
    } else if c == '\u{259e}' {
        // QUADRANT UPPER RIGHT AND LOWER LEFT
        Some((false, true, true, false))
    } else if c == '\u{259f}' {
        // QUADRANT UPPER RIGHT AND LOWER LEFT AND LOWER RIGHT
        Some((false, true, true, true))
    } else {
        None
    }
}

/// Terrain glyphs show exactly the quadrants they were asked for: the character
/// drawn for a pattern of filled quadrants is the block element that fills those
/// quadrants and no others. A surface crossing the middle of a cell, earth below and
/// air above, is drawn as the lower half block.
pub proof fn lemma_quadrant_glyph_shows_its_quadrants(tl: bool, tr: bool, bl: bool, br: bool)
    ensures
        block_quadrants(quadrant_glyph(tl, tr, bl, br)) == Some((tl, tr, bl, br)),
{
}

/// Two different patterns of filled quadrants never share a glyph.
pub proof fn lemma_quadrant_glyphs_differ(a: (bool, bool, bool, bool), b: (bool, bool, bool, bool))
    requires
        a != b,
    ensures
        quadrant_glyph(a.0, a.1, a.2, a.3) != quadrant_glyph(b.0, b.1, b.2, b.3),
{
    lemma_quadrant_glyph_shows_its_quadrants(a.0, a.1, a.2, a.3);
    lemma_quadrant_glyph_shows_its_quadrants(b.0, b.1, b.2, b.3);
}

pub open spec fn ceil_div(a: int, b: int) -> int {
    (a + b - 1) / b
}

/// The character for viewport cell `(sx, sy)` of a `width` by `height` viewport: the
/// world rectangle it covers, split into four quadrants, each filled when at least
/// half earth.
pub open spec fn sampled(tiles: Seq<Tile>, sx: int, sy: int, width: int, height: int) -> char {
    let x0 = sx * WIDTH / width;
    let x1 = if ceil_div((sx + 1) * WIDTH, width) < WIDTH { ceil_div((sx + 1) * WIDTH, width) } else { WIDTH as int };
    let y0 = sy * HEIGHT / height;
    let y1 = if ceil_div((sy + 1) * HEIGHT, height) < HEIGHT { ceil_div((sy + 1) * HEIGHT, height) } else { HEIGHT as int };
    if x1 <= x0 || y1 <= y0 {
        ' '
    } else {
        let xm = (x0 + x1) / 2;
        let ym = (y0 + y1) / 2;
        let xl = if xm > x0 + 1 { xm } else { x0 + 1 };
        let yt = if ym > y0 + 1 { ym } else { y0 + 1 };
        quadrant_glyph(
            half_earth(tiles, x0, xl, y0, yt),
            half_earth(tiles, xm, x1, y0, yt),
            half_earth(tiles, x0, xl, ym, y1),
            half_earth(tiles, xm, x1, ym, y1),
        )
    }
}

/// The partial block for a gauge level of 1 to 8; blank at 0 or below.
pub open spec fn level_glyph(level: int) -> char {
    if level <= 0 {
        ' '
    } else if level == 1 {
        '\u{2581}'
    } else if level == 2 {
        '\u{2582}'
    } else if level == 3 {
        '\u{2583}'
    } else if level == 4 {
        '\u{2584}'
    } else if level == 5 {
        '\u{2585}'
    } else if level == 6 {
        '\u{2586}'
    } else if level == 7 {
        '\u{2587}'
    } else {
        '\u{2588}'
    }
}

/// A gauge value of 0 to 16 split over two stacked cells: the lower one fills first.
pub open spec fn split_level(value: int) -> (int, int) {
    (if value < 8 { value } else { 8 }, if value - 8 > 0 { value - 8 } else { 0 })
}

/// Gauge cells fill from the bottom in eighths: level `n`, for `n` from 1 to 8, is
/// the block element filling the lower `n` eighths of a cell (U+2580 plus `n`), a
/// level of 0 or below shows nothing and a level above 8 a full block. A value split
/// over two stacked cells fills the lower cell before the upper one and loses nothing.
pub proof fn lemma_gauge_levels(level: int, value: int)
    ensures
        1 <= level <= 8 ==> level_glyph(level) as int == 0x2580 + level,
        level <= 0 ==> level_glyph(level) == ' ',
        level >= 8 ==> level_glyph(level) == '\u{2588}',
        0 <= value <= 16 ==> split_level(value).0 + split_level(value).1 == value,
        0 <= value ==> 0 <= split_level(value).0 <= 8 && 0 <= split_level(value).1,
        split_level(value).1 > 0 ==> split_level(value).0 == 8,
{
}

/// The style a character is drawn in when no gauge overrides it.
pub open spec fn style_of(ch: char, glyphs: GlyphMode) -> Style {
    if glyphs == GlyphMode::Ascii && ch == '@' {
        Style::Local
    } else if glyphs == GlyphMode::Ascii && ch == 'w' {
        Style::Enemy
    } else if glyphs == GlyphMode::Ascii && (ch == '*' || ch == 'o' || ch == '=') {
        Style::Weapon
    } else if glyphs == GlyphMode::Ascii && ch == '+' {
        Style::Aim
    } else if ch == '|' {
        Style::Health
    } else if glyphs == GlyphMode::Powerlevel10k && ch == '\u{f188}' {
        Style::Local
    } else if glyphs == GlyphMode::Powerlevel10k && ch == '\u{f2db}' {
        Style::Enemy
    } else if glyphs == GlyphMode::Powerlevel10k && (ch == '\u{f135}' || ch == '\u{f0e7}') {
        Style::Weapon
    } else if glyphs == GlyphMode::Powerlevel10k && ch == '\u{f140}' {
        Style::Aim
    } else if ch == '#' || ch == '%' || ch == ':' || ch == '.' {
        Style::Earth
    } else if ch == '\u{2581}' || ch == '\u{2582}' || ch == '\u{2583}' || ch == '\u{2584}' || ch == '\u{2585}'
        || ch == '\u{2586}' || ch == '\u{2587}' || ch == '\u{2588}' {
        Style::Earth
    } else if ch == '\u{2580}' || ch == '\u{258c}' || ch == '\u{2590}' || ch == '\u{2596}' || ch == '\u{2597}'
        || ch == '\u{2598}' || ch == '\u{259d}' || ch == '\u{259a}' || ch == '\u{259e}' {
        Style::Earth
    } else if ch == '\u{2599}' || ch == '\u{259f}' || ch == '\u{259b}' || ch == '\u{259c}' {
        Style::Earth
    } else if ch == '\u{25b0}' {
        Style::Weapon
    } else if ch == '\u{25c6}' {
        Style::Health
    } else {
        Style::Plain
    }
}

/// The escape sequence that switches a terminal of colour depth `depth` to `style`.
pub open spec fn escape_of(style: Style, depth: ColorDepth) -> Seq<char> {
    if depth == ColorDepth::Mono || style == Style::Plain {
        "\x1b[0m"@
    } else if depth == ColorDepth::Ansi16 {
        match style {
            Style::Earth => "\x1b[33m"@,
            Style::Local => "\x1b[1;36m"@,
            Style::Enemy => "\x1b[1;35m"@,
            Style::Weapon => "\x1b[1;31m"@,
            Style::Aim => "\x1b[1;37m"@,
            Style::Caution => "\x1b[1;33m"@,
            _ => "\x1b[1;32m"@,
        }
    } else if depth == ColorDepth::Ansi256 {
        match style {
            Style::Earth => "\x1b[38;5;130m"@,
            Style::Local => "\x1b[1;38;5;51m"@,
            Style::Enemy => "\x1b[1;38;5;213m"@,
            Style::Weapon => "\x1b[1;38;5;203m"@,
            Style::Aim => "\x1b[1;38;5;231m"@,
            Style::Caution => "\x1b[1;38;5;226m"@,
            _ => "\x1b[1;38;5;82m"@,
        }
    } else {
        match style {
            Style::Earth => "\x1b[38;2;166;105;58m"@,
            Style::Local => "\x1b[1;38;2;0;238;255m"@,
            Style::Enemy => "\x1b[1;38;2;255;105;210m"@,
            Style::Weapon => "\x1b[1;38;2;255;72;54m"@,
            Style::Aim => "\x1b[1;38;2;255;245;190m"@,
            Style::Caution => "\x1b[1;38;2;255;220;0m"@,
            _ => "\x1b[1;38;2;110;255;110m"@,
        }
    }
}

pub fn quadrant_char(tl: bool, tr: bool, bl: bool, br: bool) -> (c: char)
    ensures
        c == quadrant_glyph(tl, tr, bl, br),
        block_quadrants(c) == Some((tl, tr, bl, br)),
{
    match (tl, tr, bl, br) {
        (false, false, false, false) => ' ',
        (true, false, false, false) => '\u{2598}',
        (false, true, false, false) => '\u{259d}',
        (false, false, true, false) => '\u{2596}',
        (false, false, false, true) => '\u{2597}',
        (true, true, false, false) => '\u{2580}',
        (false, false, true, true) => '\u{2584}',
        (true, false, true, false) => '\u{258c}',
        (false, true, false, true) => '\u{2590}',
        (true, false, false, true) => '\u{259a}',
        (false, true, true, false) => '\u{259e}',
        (true, true, true, false) => '\u{259b}',
        (true, true, false, true) => '\u{259c}',
        (true, false, true, true) => '\u{2599}',
        (false, true, true, true) => '\u{259f}',
        (true, true, true, true) => '\u{2588}',
    }
}

pub fn level_split(value: i32) -> (r: (i32, i32))
    ensures
        (r.0 as int, r.1 as int) == split_level(value as int),
{
    let bottom = if value < 8 { value } else { 8 };
    let top = if value > 8 { value - 8 } else { 0 };
    (bottom, top)
}

pub fn level_char(level: i32) -> (c: char)
    ensures
        c == level_glyph(level as int),
{
    if level <= 0 {
        ' '
    } else if level == 1 {
        '\u{2581}'
    } else if level == 2 {
        '\u{2582}'
    } else if level == 3 {
        '\u{2583}'
    } else if level == 4 {
        '\u{2584}'
    } else if level == 5 {
        '\u{2585}'
    } else if level == 6 {
        '\u{2586}'
    } else if level == 7 {
        '\u{2587}'
    } else {
        '\u{2588}'
    }
}

pub fn style_for(ch: char, glyphs: GlyphMode) -> (s: Style)
    ensures
        s == style_of(ch, glyphs),
{
    let ascii = glyphs == GlyphMode::Ascii;
    let icons = glyphs == GlyphMode::Powerlevel10k;
    if ascii && ch == '@' {
        Style::Local
    } else if ascii && ch == 'w' {
        Style::Enemy
    } else if ascii && (ch == '*' || ch == 'o' || ch == '=') {
        Style::Weapon
    } else if ascii && ch == '+' {
        Style::Aim
    } else if ch == '|' {
        Style::Health
    } else if icons && ch == '\u{f188}' {
        Style::Local
    } else if icons && ch == '\u{f2db}' {
        Style::Enemy
    } else if icons && (ch == '\u{f135}' || ch == '\u{f0e7}') {
        Style::Weapon
    } else if icons && ch == '\u{f140}' {
        Style::Aim
    } else if ch == '#' || ch == '%' || ch == ':' || ch == '.' {
        Style::Earth
    } else if ch == '\u{2581}' || ch == '\u{2582}' || ch == '\u{2583}' || ch == '\u{2584}' || ch == '\u{2585}'
        || ch == '\u{2586}' || ch == '\u{2587}' || ch == '\u{2588}' {
        Style::Earth
    } else if ch == '\u{2580}' || ch == '\u{258c}' || ch == '\u{2590}' || ch == '\u{2596}' || ch == '\u{2597}'
        || ch == '\u{2598}' || ch == '\u{259d}' || ch == '\u{259a}' || ch == '\u{259e}' {
        Style::Earth
    } else if ch == '\u{2599}' || ch == '\u{259f}' || ch == '\u{259b}' || ch == '\u{259c}' {
        Style::Earth
    } else if ch == '\u{25b0}' {
        Style::Weapon
    } else if ch == '\u{25c6}' {
        Style::Health
    } else {
        Style::Plain
    }
}

impl Style {
    /// The escape sequence that switches a terminal of colour depth `depth` to this
    /// style.
    pub fn escape(self, depth: ColorDepth) -> (e: &'static str)
        ensures
            e@ == escape_of(self, depth),
    {
        match (depth, self) {
            (ColorDepth::Mono, _) | (_, Style::Plain) => "\x1b[0m",
            (ColorDepth::Ansi16, Style::Earth) => "\x1b[33m",
            (ColorDepth::Ansi16, Style::Local) => "\x1b[1;36m",
            (ColorDepth::Ansi16, Style::Enemy) => "\x1b[1;35m",
            (ColorDepth::Ansi16, Style::Weapon) => "\x1b[1;31m",
            (ColorDepth::Ansi16, Style::Aim) => "\x1b[1;37m",
            (ColorDepth::Ansi16, Style::Health) => "\x1b[1;32m",
            (ColorDepth::Ansi16, Style::Caution) => "\x1b[1;33m",
            (ColorDepth::Ansi256, Style::Earth) => "\x1b[38;5;130m",
            (ColorDepth::Ansi256, Style::Local) => "\x1b[1;38;5;51m",
            (ColorDepth::Ansi256, Style::Enemy) => "\x1b[1;38;5;213m",
            (ColorDepth::Ansi256, Style::Weapon) => "\x1b[1;38;5;203m",
            (ColorDepth::Ansi256, Style::Aim) => "\x1b[1;38;5;231m",
            (ColorDepth::Ansi256, Style::Health) => "\x1b[1;38;5;82m",
            (ColorDepth::Ansi256, Style::Caution) => "\x1b[1;38;5;226m",
            (ColorDepth::TrueColor, Style::Earth) => "\x1b[38;2;166;105;58m",
            (ColorDepth::TrueColor, Style::Local) => "\x1b[1;38;2;0;238;255m",
            (ColorDepth::TrueColor, Style::Enemy) => "\x1b[1;38;2;255;105;210m",
            (ColorDepth::TrueColor, Style::Weapon) => "\x1b[1;38;2;255;72;54m",
            (ColorDepth::TrueColor, Style::Aim) => "\x1b[1;38;2;255;245;190m",
            (ColorDepth::TrueColor, Style::Health) => "\x1b[1;38;2;110;255;110m",
            (ColorDepth::TrueColor, Style::Caution) => "\x1b[1;38;2;255;220;0m",
        }
    }
}

/// Whether at least half of a non-empty in-grid rectangle is earth.
pub fn quadrant_filled(terrain: &Terrain, x0: usize, x1: usize, y0: usize, y1: usize) -> (f: bool)
    requires
        terrain.wf(),
        x1 <= WIDTH,
        y1 <= HEIGHT,
    ensures
        f == half_earth(terrain.tiles@, x0 as int, x1 as int, y0 as int, y1 as int),
{
    if x1 <= x0 || y1 <= y0 {
        return false;
    }
    let mut earth: usize = 0;
    let mut y = y0;
    while y < y1
        invariant
            terrain.wf(),
            x0 < x1 <= WIDTH,
            y0 <= y <= y1 <= HEIGHT,
            earth == rect_earth(terrain.tiles@, x0 as int, x1 as int, y0 as int, y as int),
            earth <= (y - y0) * WIDTH,
        decreases y1 - y,
    {
        let mut row: usize = 0;
        let mut x = x0;
        while x < x1
            invariant
                terrain.wf(),
                x0 <= x <= x1 <= WIDTH,
                y < HEIGHT,
                row == row_earth(terrain.tiles@, y as int, x0 as int, x as int),
                row <= x - x0,
            decreases x1 - x,
        {
            if terrain.tile(x as i32, y as i32) == Tile::Earth {
                row = row + 1;
            }
            x = x + 1;
        }
        earth = earth + row;
        y = y + 1;
    }
    assert((x1 - x0) * (y1 - y0) <= WIDTH * HEIGHT) by (nonlinear_arith)
        requires
            x1 - x0 <= WIDTH,
            y1 - y0 <= HEIGHT,
            x0 < x1,
            y0 < y1,
    ;
    earth * 2 >= (x1 - x0) * (y1 - y0)
}

/// The block character for viewport cell `(sx, sy)`.
pub fn sampled_terrain(terrain: &Terrain, sx: usize, sy: usize, width: usize, height: usize) -> (c: char)
    requires
        terrain.wf(),
        sx < width <= MAX_VIEWPORT_WIDTH,
        sy < height <= MAX_VIEWPORT_HEIGHT,
    ensures
        c == sampled(terrain.tiles@, sx as int, sy as int, width as int, height as int),
{
    let x0 = sx * WIDTH / width;
    let cx = ((sx + 1) * WIDTH + width - 1) / width;
    let x1 = if cx < WIDTH { cx } else { WIDTH };
    let y0 = sy * HEIGHT / height;
    let cy = ((sy + 1) * HEIGHT + height - 1) / height;
    let y1 = if cy < HEIGHT { cy } else { HEIGHT };
    if x1 <= x0 || y1 <= y0 {
        return ' ';
    }
    let xm = (x0 + x1) / 2;
    let ym = (y0 + y1) / 2;
    let xl = if xm > x0 + 1 { xm } else { x0 + 1 };
    let yt = if ym > y0 + 1 { ym } else { y0 + 1 };
    let tl = quadrant_filled(terrain, x0, xl, y0, yt);
    let tr = quadrant_filled(terrain, xm, x1, y0, yt);
    let bl = quadrant_filled(terrain, x0, xl, ym, y1);
    let br = quadrant_filled(terrain, xm, x1, ym, y1);
    quadrant_char(tl, tr, bl, br)
}



pub const HELP_LINE: &'static str = "A/D thrust | SPACE jump | J/L steer | ENTER charge/fire | 1/2 weapon | Ctrl-C exit";

/// What the status line shows of the viewer's own worm. The speed and the respawn
/// countdown arrive already written out, with one decimal.
pub struct Hud {
    pub name: String,
    pub respawn_ticks: u16,
    pub respawn_seconds: String,
    pub charge_started: Option<u64>,
    pub health: i16,
    pub weapon: Weapon,
    pub vx: String,
    pub aim: i8,
    pub kills: u32,
    pub deaths: u32,
}

/// Everything a frame shows besides the terrain: projectiles, blasts and worms to
/// draw, the kill feed (newest first), the tick number, how many players are in the
/// arena, and the viewer's status when the viewer plays.
pub struct Scene {
    pub shots: Vec<ShotSprite>,
    pub blasts: Vec<Blast>,
    pub sprites: Vec<WormSprite>,
    pub feed: Vec<String>,
    pub tick_number: u64,
    pub player_count: usize,
    pub hud: Option<Hud>,
}

/// Columns the frame may write: all but the terminal's last (autowrap) column, at
/// least six.
pub open spec fn terminal_width(columns: u32) -> int {
    let w = if columns >= 1 { columns - 1 } else { 0 };
    if w > 6 { w } else { 6 }
}

/// Kill feed lines below the battlefield: two on terminals of ten rows or more.
pub open spec fn feed_line_count(rows: u32) -> int {
    if rows >= 10 { 2 } else { 0 }
}

pub open spec fn viewport_width(columns: u32) -> int {
    let w = terminal_width(columns) - 2;
    if w < 4 { 4 } else if w > MAX_VIEWPORT_WIDTH { MAX_VIEWPORT_WIDTH as int } else { w }
}

pub open spec fn viewport_height(rows: u32) -> int {
    let r = rows - (4 + feed_line_count(rows));
    let r = if r > 0 { r } else { 0 };
    if r < 2 { 2 } else if r > MAX_VIEWPORT_HEIGHT { MAX_VIEWPORT_HEIGHT as int } else { r }
}

/// `text` cut to `width` characters, then erase-to-end-of-line and a line break.
pub open spec fn terminal_line(text: Seq<char>, width: int) -> Seq<char> {
    (if text.len() > width { text.take(width) } else { text }) + "\x1b[K\r\n"@
}

pub open spec fn border(width: int) -> Seq<char> {
    seq!['+'] + Seq::new(width as nat, |i: int| '-') + "+\x1b[K\r\n"@
}

/// The first `n` cells of a viewport row with the escapes that switch colour where it
/// changes, and the colour in force after them.
pub open spec fn row_run(cells: Seq<char>, styles: Seq<Option<Style>>, glyphs: GlyphMode, colors: ColorDepth, n: int) -> (Seq<char>, Style)
    decreases n,
{
    if n <= 0 {
        (Seq::empty(), Style::Plain)
    } else {
        let prev = row_run(cells, styles, glyphs, colors, n - 1);
        let ch = cells[n - 1];
        let st = match styles[n - 1] {
            Some(s) => s,
            None => style_of(ch, glyphs),
        };
        if st != prev.1 {
            (prev.0 + escape_of(st, colors) + seq![ch], st)
        } else {
            (prev.0.push(ch), prev.1)
        }
    }
}

/// Viewport row `sy` between its side walls.
pub open spec fn row_text(cv: CanvasView, width: int, sy: int, glyphs: GlyphMode, colors: ColorDepth) -> Seq<char> {
    let cells = cv.cells.subrange(sy * width, sy * width + width);
    let styles = cv.styles.subrange(sy * width, sy * width + width);
    seq!['|'] + row_run(cells, styles, glyphs, colors, width).0 + "\x1b[0m|\x1b[K\r\n"@
}

pub open spec fn rows_text(cv: CanvasView, width: int, glyphs: GlyphMode, colors: ColorDepth, n: int) -> Seq<char>
    decreases n,
{
    if n <= 0 {
        Seq::empty()
    } else {
        rows_text(cv, width, glyphs, colors, n - 1) + row_text(cv, width, n - 1, glyphs, colors)
    }
}

pub open spec fn weapon_label(w: Weapon) -> Seq<char> {
    match w {
        Weapon::Bazooka => "BAZOOKA [1]"@,
        _ => "GRENADE [2]"@,
    }
}

/// The viewer's state: the respawn countdown, else the charge, else the health.
pub open spec fn state_text(h: &Hud, tick: u64) -> Seq<char> {
    if h.respawn_ticks > 0 {
        "RESPAWN "@ + h.respawn_seconds@ + "s"@
    } else {
        match h.charge_started {
            Some(start) => "CHARGE "@ + right_aligned(decimal(charge_percent(tick, start) as nat), 3) + "%"@,
            None => "HP "@ + right_aligned(decimal(health_percent(h.health as int) as nat), 3) + "%"@,
        }
    }
}

/// The status line: name, state, weapon, speed, aim, kills, deaths and players.
pub open spec fn status_text(h: &Hud, tick: u64, players: nat) -> Seq<char> {
    "WORMS//SSH "@ + h.name@ + " "@ + state_text(h, tick) + " "@ + weapon_label(h.weapon) + " VX:"@ + h.vx@ + " AIM:"@
        + signed_decimal(h.aim as int) + " K:"@ + decimal(h.kills as nat) + " D:"@ + decimal(h.deaths as nat) + " P:"@
        + decimal(players)
}

/// Feed lines `0..n`: the newest messages, blank where the feed runs out.
pub open spec fn feed_text(feed: Seq<String>, width: int, n: int) -> Seq<char>
    decreases n,
{
    if n <= 0 {
        Seq::empty()
    } else {
        feed_text(feed, width, n - 1) + terminal_line(
            if n - 1 < feed.len() { "> "@ + feed[n - 1]@ } else { Seq::empty() },
            width,
        )
    }
}

/// The whole frame: cursor home, the status line (for a playing viewer), the
/// battlefield framed by borders, the key help, the kill feed, and clear-to-end.
pub open spec fn frame_text(tiles: Seq<Tile>, scene: &Scene, viewer: PlayerId, columns: u32, rows: u32, colors: ColorDepth, glyphs: GlyphMode) -> Seq<char> {
    let tw = terminal_width(columns);
    let vw = viewport_width(columns);
    let vh = viewport_height(rows);
    let cv = painted(tiles, scene.shots@, scene.blasts@, scene.sprites@, viewer, glyphs, scene.tick_number, vw, vh);
    let hud = match scene.hud {
        Some(h) => terminal_line(status_text(&h, scene.tick_number, scene.player_count as nat), tw),
        None => Seq::empty(),
    };
    "\x1b[H"@ + hud + border(vw) + rows_text(cv, vw, glyphs, colors, vh) + border(vw) + terminal_line(HELP_LINE@, tw)
        + feed_text(scene.feed@, tw, feed_line_count(rows)) + "\x1b[J"@
}

/// Appends `text` cut to `width` characters, then erase-to-end-of-line and a line
/// break.
pub fn push_terminal_line(out: &mut String, text: &str, width: usize)
    ensures
        final(out)@ == old(out)@ + terminal_line(text@, width as int),
{
    let n = text.unicode_len();
    let m = if n < width { n } else { width };
    let ghost start = out@;
    let mut i: usize = 0;
    while i < m
        invariant
            n == text@.len(),
            m <= n,
            0 <= i <= m,
            out@ == start + text@.take(i as int),
        decreases m - i,
    {
        let c = text.get_char(i);
        push_char(out, c);
        proof {
            assert(text@.take(i + 1) =~= text@.take(i as int).push(c));
        }
        i = i + 1;
    }
    proof {
        if n <= width {
            assert(text@.take(n as int) =~= text@);
        }
    }
    out.append("\x1b[K\r\n");
    proof {
        assert(out@ =~= start + terminal_line(text@, width as int));
    }
}

fn push_border(out: &mut String, width: usize)
    ensures
        final(out)@ == old(out)@ + border(width as int),
{
    let ghost start = out@;
    push_char(out, '+');
    let mut i: usize = 0;
    while i < width
        invariant
            0 <= i <= width,
            out@ == start + seq!['+'] + Seq::new(i as nat, |k: int| '-'),
        decreases width - i,
    {
        push_char(out, '-');
        proof {
            assert(Seq::new((i + 1) as nat, |k: int| '-') =~= Seq::new(i as nat, |k: int| '-').push('-'));
        }
        i = i + 1;
    }
    out.append("+\x1b[K\r\n");
    proof {
        assert(out@ =~= start + border(width as int));
    }
}

fn push_row(
    out: &mut String,
    canvas: &Vec<char>,
    overlay: &Vec<Option<Style>>,
    width: usize,
    height: usize,
    sy: usize,
    glyphs: GlyphMode,
    colors: ColorDepth,
)
    requires
        0 < width <= MAX_VIEWPORT_WIDTH,
        0 < height <= MAX_VIEWPORT_HEIGHT,
        sy < height,
        canvas@.len() == width * height,
        overlay@.len() == width * height,
    ensures
        final(out)@ == old(out)@ + row_text((CanvasView { cells: canvas@, styles: overlay@ }), width as int, sy as int, glyphs, colors),
{
    let ghost cv = CanvasView { cells: canvas@, styles: overlay@ };
    assert(sy * width + width <= width * height) by (nonlinear_arith)
        requires
            sy < height,
            0 < width,
    ;
    let ghost cells = canvas@.subrange(sy * width, sy * width + width);
    let ghost styles = overlay@.subrange(sy * width, sy * width + width);
    assert(width * height <= 36000) by (nonlinear_arith)
        requires
            width <= 300,
            height <= 120,
    ;
    let base = sy * width;
    let ghost start = out@;
    push_char(out, '|');
    let mut active = Style::Plain;
    let mut sx: usize = 0;
    while sx < width
        invariant
            0 < width <= MAX_VIEWPORT_WIDTH,
            base + width <= width * height,
            width * height <= 36000,
            base == sy * width,
            canvas@.len() == width * height,
            overlay@.len() == width * height,
            cells == canvas@.subrange(base as int, base + width),
            styles == overlay@.subrange(base as int, base + width),
            0 <= sx <= width,
            out@ == start + seq!['|'] + row_run(cells, styles, glyphs, colors, sx as int).0,
            active == row_run(cells, styles, glyphs, colors, sx as int).1,
        decreases width - sx,
    {
        let ch = canvas[base + sx];
        let st = match overlay[base + sx] {
            Some(s) => s,
            None => style_for(ch, glyphs),
        };
        assert(cells[sx as int] == ch);
        assert(styles[sx as int] == overlay@[base + sx]);
        let ghost before = out@;
        if st != active {
            out.append(st.escape(colors));
            active = st;
        }
        push_char(out, ch);
        proof {
            assert(out@ =~= start + seq!['|'] + row_run(cells, styles, glyphs, colors, sx + 1).0);
        }
        sx = sx + 1;
    }
    out.append("\x1b[0m|\x1b[K\r\n");
    proof {
        assert(out@ =~= start + row_text(cv, width as int, sy as int, glyphs, colors));
    }
}


/// The status line for the viewer.
fn status_line(h: &Hud, tick: u64, players: usize) -> (line: String)
    requires
        h.weapon != Weapon::Meteor,
    ensures
        line@ == status_text(h, tick, players as nat),
{
    let mut line = String::new();
    line.append("WORMS//SSH ");
    line.append(h.name.as_str());
    line.append(" ");
    let ghost before_state = line@;
    if h.respawn_ticks > 0 {
        line.append("RESPAWN ");
        line.append(h.respawn_seconds.as_str());
        line.append("s");
    } else {
        match h.charge_started {
            Some(start) => {
                let elapsed = tick.saturating_sub(start);
                let e = if elapsed > 40 { 40 } else { elapsed };
                let p = (e / 2) * 5;
                let percent = if p > 100 { 100 } else { p };
                line.append("CHARGE ");
                push_right_aligned3(&mut line, percent);
                line.append("%");
            },
            None => {
                let hp: i64 = if h.health > 0 { h.health as i64 } else { 0 };
                let pct = hp * 100 / MAX_HEALTH as i64;
                line.append("HP ");
                push_right_aligned3(&mut line, pct as u64);
                line.append("%");
            },
        }
    }
    proof {
        assert(line@ =~= before_state + state_text(h, tick));
    }
    line.append(" ");
    match h.weapon {
        Weapon::Bazooka => line.append("BAZOOKA [1]"),
        _ => line.append("GRENADE [2]"),
    }
    line.append(" VX:");
    line.append(h.vx.as_str());
    line.append(" AIM:");
    push_signed(&mut line, h.aim as i64);
    line.append(" K:");
    push_decimal(&mut line, h.kills as u64);
    line.append(" D:");
    push_decimal(&mut line, h.deaths as u64);
    line.append(" P:");
    push_decimal(&mut line, players as u64);
    proof {
        assert(line@ =~= status_text(h, tick, players as nat));
    }
    line
}

/// Renders the arena for the client of player `viewer`, whose terminal has
/// `columns` by `rows` cells and colour depth `colors`, using `glyphs`: the whole
/// frame `frame_text` describes. The battlefield is resampled to fill the terminal
/// (up to 300 by 120 cells) but never writes into its last column.
pub fn frame(
    terrain: &Terrain,
    scene: &Scene,
    viewer: PlayerId,
    columns: u32,
    rows: u32,
    colors: ColorDepth,
    glyphs: GlyphMode,
) -> (out: String)
    requires
        terrain.wf(),
        scene.hud matches Some(h) ==> h.weapon != Weapon::Meteor,
    ensures
        out@ == frame_text(terrain.tiles@, scene, viewer, columns, rows, colors, glyphs),
{
    let c = columns as usize;
    let tw0 = if c >= 1 { c - 1 } else { 0 };
    let tw = if tw0 > 6 { tw0 } else { 6 };
    let feed_lines: usize = if rows >= 10 { 2 } else { 0 };
    let vw0 = tw - 2;
    let vw = if vw0 < 4 { 4 } else if vw0 > MAX_VIEWPORT_WIDTH { MAX_VIEWPORT_WIDTH } else { vw0 };
    let r = rows as usize;
    let vh0 = if r > 4 + feed_lines { r - (4 + feed_lines) } else { 0 };
    let vh = if vh0 < 2 { 2 } else if vh0 > MAX_VIEWPORT_HEIGHT { MAX_VIEWPORT_HEIGHT } else { vh0 };
    assert(tw == terminal_width(columns));
    assert(vw == viewport_width(columns));
    assert(vh == viewport_height(rows));
    let (canvas, overlay) = paint(terrain, &scene.shots, &scene.blasts, &scene.sprites, viewer, glyphs, scene.tick_number, vw, vh);
    let ghost cv = CanvasView { cells: canvas@, styles: overlay@ };
    let mut out = String::new();
    out.append("\x1b[H");
    let ghost after_home = out@;
    match &scene.hud {
        Some(h) => {
            let line = status_line(h, scene.tick_number, scene.player_count);
            push_terminal_line(&mut out, line.as_str(), tw);
        },
        None => {},
    }
    let ghost after_hud = out@;
    push_border(&mut out, vw);
    let ghost after_top = out@;
    let mut sy: usize = 0;
    while sy < vh
        invariant
            0 < vw <= MAX_VIEWPORT_WIDTH,
            0 < vh <= MAX_VIEWPORT_HEIGHT,
            canvas@.len() == vw * vh,
            overlay@.len() == vw * vh,
            cv == (CanvasView { cells: canvas@, styles: overlay@ }),
            0 <= sy <= vh,
            out@ == after_top + rows_text(cv, vw as int, glyphs, colors, sy as int),
        decreases vh - sy,
    {
        push_row(&mut out, &canvas, &overlay, vw, vh, sy, glyphs, colors);
        sy = sy + 1;
    }
    let ghost after_rows = out@;
    push_border(&mut out, vw);
    push_terminal_line(&mut out, HELP_LINE, tw);
    let ghost after_help = out@;
    let mut index: usize = 0;
    while index < feed_lines
        invariant
            feed_lines <= 2,
            0 <= index <= feed_lines,
            out@ == after_help + feed_text(scene.feed@, tw as int, index as int),
        decreases feed_lines - index,
    {
        if index < scene.feed.len() {
            let mut item = String::new();
            item.append("> ");
            item.append(scene.feed[index].as_str());
            push_terminal_line(&mut out, item.as_str(), tw);
        } else {
            push_terminal_line(&mut out, "", tw);
            proof {
                assert(""@ =~= Seq::<char>::empty()) by {
                    reveal_strlit("");
                }
            }
        }
        index = index + 1;
    }
    out.append("\x1b[J");
    proof {
        assert(out@ =~= frame_text(terrain.tiles@, scene, viewer, columns, rows, colors, glyphs));
    }
    out
}


/// Scanning from index `i`, where the first line break (`\r\n`) of `s` starts; -1
/// when there is none.
pub open spec fn first_crlf(s: Seq<char>, i: int) -> int
    decreases s.len() - i,
{
    if i < 0 || i + 1 >= s.len() {
        -1
    } else if s[i] == '\r' && s[i + 1] == '\n' {
        i
    } else {
        first_crlf(s, i + 1)
    }
}

pub proof fn lemma_first_crlf(s: Seq<char>, i: int)
    requires
        0 <= i,
    ensures
        first_crlf(s, i) == -1 || (i <= first_crlf(s, i) && first_crlf(s, i) + 1 < s.len()
            && s[first_crlf(s, i)] == '\r' && s[first_crlf(s, i) + 1] == '\n'),
    decreases s.len() - i,
{
    if i + 1 < s.len() && !(s[i] == '\r' && s[i + 1] == '\n') {
        lemma_first_crlf(s, i + 1);
    }
}

/// `s` cut at every line break, as `str::split("\r\n")` cuts it.
pub open spec fn split_lines(s: Seq<char>) -> Seq<Seq<char>>
    decreases s.len(),
{
    let i = first_crlf(s, 0);
    if i < 0 {
        seq![s]
    } else {
        proof {
            lemma_first_crlf(s, 0);
        }
        seq![s.take(i)] + split_lines(s.skip(i + 2))
    }
}

/// The rows of a frame: what lies between the cursor-home and clear-to-end escapes,
/// without its final line break, cut at line breaks. `None` for text that is not a
/// frame.
pub open spec fn rows_of_frame(f: Seq<char>) -> Option<Seq<Seq<char>>> {
    if f.len() >= 6 && f[0] == '\x1b' && f[1] == '[' && f[2] == 'H' && f[f.len() - 3] == '\x1b' && f[f.len() - 2]
        == '[' && f[f.len() - 1] == 'J' {
        let end = if f.len() >= 8 && f[f.len() - 5] == '\r' && f[f.len() - 4] == '\n' {
            f.len() - 5
        } else {
            f.len() - 3
        };
        Some(split_lines(f.subrange(3, end)))
    } else {
        None
    }
}

/// For each of the first `n` rows that differ, a cursor move to that row (counted
/// from 1) followed by its new text.
pub open spec fn row_updates(old_rows: Seq<Seq<char>>, new_rows: Seq<Seq<char>>, n: int) -> Seq<char>
    decreases n,
{
    if n <= 0 {
        Seq::empty()
    } else {
        row_updates(old_rows, new_rows, n - 1) + if old_rows[n - 1] != new_rows[n - 1] {
            "\x1b["@ + decimal(n as nat) + ";1H"@ + new_rows[n - 1]
        } else {
            Seq::empty()
        }
    }
}

/// What to send a client that shows `previous` so that it shows `current`: only the
/// rows that changed when both are frames with the same number of rows, otherwise
/// the whole current frame.
pub open spec fn incremental(previous: Option<Seq<char>>, current: Seq<char>) -> Seq<char> {
    match previous {
        None => current,
        Some(p) => match (rows_of_frame(p), rows_of_frame(current)) {
            (Some(a), Some(b)) => if a.len() == b.len() { row_updates(a, b, a.len() as int) } else { current },
            _ => current,
        },
    }
}

/// A frame sent again unchanged needs no update at all.
pub proof fn lemma_unchanged_frame_sends_nothing(f: Seq<char>)
    requires
        rows_of_frame(f) is Some,
    ensures
        incremental(Some(f), f) == Seq::<char>::empty(),
{
    let rows = rows_of_frame(f)->0;
    lemma_no_updates(rows, rows.len() as int);
}

proof fn lemma_no_updates(rows: Seq<Seq<char>>, n: int)
    ensures
        row_updates(rows, rows, n) == Seq::<char>::empty(),
    decreases n,
{
    if n > 0 {
        lemma_no_updates(rows, n - 1);
        assert(row_updates(rows, rows, n) =~= Seq::<char>::empty());
    }
}

/// The pieces of `body[lo..hi]` between line breaks.
fn split_crlf(body: &Vec<char>, lo: usize, hi: usize) -> (rows: Vec<Vec<char>>)
    requires
        lo <= hi <= body@.len(),
    ensures
        rows@.len() == split_lines(body@.subrange(lo as int, hi as int)).len(),
        forall|i: int| 0 <= i < rows@.len() ==> #[trigger] rows@[i]@ == split_lines(body@.subrange(lo as int, hi as int))[i],
{
    let ghost s = body@.subrange(lo as int, hi as int);
    let mut rows: Vec<Vec<char>> = Vec::new();
    let ghost mut done: Seq<Seq<char>> = Seq::empty();
    let mut cur: Vec<char> = Vec::new();
    let mut start: usize = lo;
    let mut j: usize = lo;
    while j < hi
        invariant
            lo <= start <= j <= hi <= body@.len(),
            s == body@.subrange(lo as int, hi as int),
            cur@ == body@.subrange(start as int, j as int),
            rows@.len() == done.len(),
            forall|i: int| 0 <= i < rows@.len() ==> #[trigger] rows@[i]@ == done[i],
            split_lines(s) == done + split_lines(body@.subrange(start as int, hi as int)),
            first_crlf(body@.subrange(start as int, hi as int), 0) == first_crlf(body@.subrange(start as int, hi as int), j - start),
        decreases hi - j,
    {
        let ghost t = body@.subrange(start as int, hi as int);
        if j + 1 < hi && body[j] == '\r' && body[j + 1] == '\n' {
            proof {
                assert(t[j - start] == '\r' && t[j - start + 1] == '\n');
                assert(first_crlf(t, j - start) == j - start);
                assert(t.take(j - start) =~= cur@);
                assert(t.skip(j - start + 2) =~= body@.subrange(j + 2, hi as int));
                assert(first_crlf(body@.subrange(j + 2, hi as int), 0) == first_crlf(body@.subrange(j + 2, hi as int), 0));
                done = done.push(cur@);
                assert(split_lines(s) =~= done + split_lines(body@.subrange(j + 2, hi as int)));
            }
            rows.push(cur);
            cur = Vec::new();
            j = j + 2;
            start = j;
        } else {
            proof {
                assert(first_crlf(t, j - start) == first_crlf(t, j - start + 1));
            }
            cur.push(body[j]);
            j = j + 1;
        }
    }
    proof {
        let t = body@.subrange(start as int, hi as int);
        assert(first_crlf(t, j - start) == -1);
        assert(split_lines(t) == seq![t]);
        assert(cur@ =~= t);
        done = done.push(cur@);
    }
    rows.push(cur);
    proof {
        assert(split_lines(s) =~= done);
    }
    rows
}

/// The rows of a frame, or `None` for text that is not one.
pub fn frame_rows(f: &Vec<char>) -> (r: Option<Vec<Vec<char>>>)
    ensures
        r is None <==> rows_of_frame(f@) is None,
        r matches Some(rows) ==> rows@.len() == rows_of_frame(f@)->0.len()
            && forall|i: int| 0 <= i < rows@.len() ==> #[trigger] rows@[i]@ == rows_of_frame(f@)->0[i],
{
    let n = f.len();
    if n >= 6 && f[0] == '\x1b' && f[1] == '[' && f[2] == 'H' && f[n - 3] == '\x1b' && f[n - 2] == '[' && f[n - 1] == 'J' {
        let end = if n >= 8 && f[n - 5] == '\r' && f[n - 4] == '\n' { n - 5 } else { n - 3 };
        Some(split_crlf(f, 3, end))
    } else {
        None
    }
}

fn same_chars(a: &Vec<char>, b: &Vec<char>) -> (r: bool)
    ensures
        r == (a@ == b@),
{
    if a.len() != b.len() {
        return false;
    }
    let mut i: usize = 0;
    while i < a.len()
        invariant
            a@.len() == b@.len(),
            0 <= i <= a@.len(),
            forall|k: int| 0 <= k < i ==> a@[k] == b@[k],
        decreases a@.len() - i,
    {
        if a[i] != b[i] {
            return false;
        }
        i = i + 1;
    }
    proof {
        assert(a@ =~= b@);
    }
    true
}

/// The text that brings a client showing `previous` (if anything) to `current`:
/// `incremental` describes it.
pub fn incremental_frame(previous: Option<&str>, current: &str) -> (update: String)
    ensures
        update@ == incremental(
            match previous {
                Some(p) => Some(p@),
                None => None,
            },
            current@,
        ),
{
    let previous = match previous {
        Some(p) => p,
        None => return current.to_owned(),
    };
    let old_chars = chars_of(previous);
    let new_chars = chars_of(current);
    let old_rows = match frame_rows(&old_chars) {
        Some(rows) => rows,
        None => return current.to_owned(),
    };
    let new_rows = match frame_rows(&new_chars) {
        Some(rows) => rows,
        None => return current.to_owned(),
    };
    if old_rows.len() != new_rows.len() {
        return current.to_owned();
    }
    let ghost a = rows_of_frame(old_chars@)->0;
    let ghost b = rows_of_frame(new_chars@)->0;
    let mut update = String::new();
    let mut row: usize = 0;
    while row < old_rows.len()
        invariant
            old_rows@.len() == new_rows@.len(),
            old_rows@.len() == a.len(),
            new_rows@.len() == b.len(),
            forall|i: int| 0 <= i < old_rows@.len() ==> #[trigger] old_rows@[i]@ == a[i],
            forall|i: int| 0 <= i < new_rows@.len() ==> #[trigger] new_rows@[i]@ == b[i],
            0 <= row <= old_rows@.len(),
            update@ == row_updates(a, b, row as int),
        decreases old_rows@.len() - row,
    {
        let ghost before = update@;
        assert(old_rows@[row as int]@ == a[row as int]);
        assert(new_rows@[row as int]@ == b[row as int]);
        if !same_chars(&old_rows[row], &new_rows[row]) {
            update.append("\x1b[");
            push_decimal(&mut update, (row + 1) as u64);
            update.append(";1H");
            let line = &new_rows[row];
            let ghost mid = update@;
            let mut k: usize = 0;
            while k < line.len()
                invariant
                    0 <= k <= line@.len(),
                    update@ == mid + line@.take(k as int),
                decreases line@.len() - k,
            {
                push_char(&mut update, line[k]);
                proof {
                    assert(line@.take(k + 1) =~= line@.take(k as int).push(line@[k as int]));
                }
                k = k + 1;
            }
            proof {
                assert(line@.take(k as int) =~= line@);
                assert(update@ =~= row_updates(a, b, row + 1));
            }
        } else {
            proof {
                assert(update@ =~= row_updates(a, b, row + 1));
            }
        }
        row = row + 1;
    }
    update
}

/// `s` holds no escape character.
pub open spec fn no_esc(s: Seq<char>) -> bool {
    forall|i: int| 0 <= i < s.len() ==> #[trigger] s[i] != '\x1b'
}

/// Every escape in `s` opens a complete control sequence (`ESC [` and a third
/// character) that is not a private mode sequence (`ESC [ ?`), such as the one that
/// hides the cursor.
pub open spec fn plain_csi(s: Seq<char>) -> bool {
    forall|i: int| 0 <= i < s.len() && #[trigger] s[i] == '\x1b' ==> i + 2 < s.len() && s[i + 1] == '['
        && s[i + 2] != '?'
}

proof fn lemma_plain_csi_concat(a: Seq<char>, b: Seq<char>)
    requires
        plain_csi(a),
        plain_csi(b),
    ensures
        plain_csi(a + b),
{
    let c = a + b;
    assert forall|i: int| 0 <= i < c.len() && #[trigger] c[i] == '\x1b' implies i + 2 < c.len() && c[i + 1] == '['
        && c[i + 2] != '?' by {
        if i < a.len() {
            assert(a[i] == '\x1b');
            assert(c[i + 1] == a[i + 1] && c[i + 2] == a[i + 2]);
        } else {
            assert(b[i - a.len()] == '\x1b');
            assert(c[i + 1] == b[i + 1 - a.len()] && c[i + 2] == b[i + 2 - a.len()]);
        }
    }
}

proof fn lemma_no_esc_concat(a: Seq<char>, b: Seq<char>)
    requires
        no_esc(a),
        no_esc(b),
    ensures
        no_esc(a + b),
{
    assert forall|i: int| 0 <= i < (a + b).len() implies #[trigger] (a + b)[i] != '\x1b' by {
        if i < a.len() {
            assert((a + b)[i] == a[i]);
        } else {
            assert((a + b)[i] == b[i - a.len()]);
        }
    }
}

proof fn lemma_decimal_no_esc(n: nat)
    ensures
        no_esc(decimal(n)),
{
    lemma_decimal_digits(n);
}

proof fn lemma_status_no_esc(h: &Hud, tick: u64, players: nat)
    requires
        no_esc(h.name@),
        no_esc(h.vx@),
        no_esc(h.respawn_seconds@),
    ensures
        no_esc(status_text(h, tick, players)),
{
    reveal_strlit("WORMS//SSH ");
    reveal_strlit(" ");
    reveal_strlit(" VX:");
    reveal_strlit(" AIM:");
    reveal_strlit(" K:");
    reveal_strlit(" D:");
    reveal_strlit(" P:");
    reveal_strlit("RESPAWN ");
    reveal_strlit("s");
    reveal_strlit("CHARGE ");
    reveal_strlit("%");
    reveal_strlit("HP ");
    reveal_strlit("BAZOOKA [1]");
    reveal_strlit("GRENADE [2]");
    let st = state_text(h, tick);
    assert forall|n: nat| no_esc(#[trigger] right_aligned(decimal(n), 3)) by {
        lemma_decimal_no_esc(n);
        let d = decimal(n);
        if d.len() < 3 {
            let pad = Seq::new((3 - d.len()) as nat, |i: int| ' ');
            assert(no_esc(pad));
            lemma_no_esc_concat(pad, d);
        }
    }
    if h.respawn_ticks > 0 {
        lemma_no_esc_concat("RESPAWN "@, h.respawn_seconds@);
        lemma_no_esc_concat("RESPAWN "@ + h.respawn_seconds@, "s"@);
    } else {
        match h.charge_started {
            Some(start) => {
                let r = right_aligned(decimal(charge_percent(tick, start) as nat), 3);
                lemma_no_esc_concat("CHARGE "@, r);
                lemma_no_esc_concat("CHARGE "@ + r, "%"@);
            },
            None => {
                let r = right_aligned(decimal(health_percent(h.health as int) as nat), 3);
                lemma_no_esc_concat("HP "@, r);
                lemma_no_esc_concat("HP "@ + r, "%"@);
            },
        }
    }
    let sd = signed_decimal(h.aim as int);
    assert(no_esc(sd)) by {
        if h.aim >= 0 {
            lemma_decimal_no_esc(h.aim as nat);
            lemma_no_esc_concat(seq!['+'], decimal(h.aim as nat));
        } else {
            lemma_decimal_no_esc((-h.aim) as nat);
            lemma_no_esc_concat(seq!['-'], decimal((-h.aim) as nat));
        }
    }
    lemma_decimal_no_esc(h.kills as nat);
    lemma_decimal_no_esc(h.deaths as nat);
    lemma_decimal_no_esc(players);
    let w = weapon_label(h.weapon);
    let p1 = "WORMS//SSH "@ + h.name@;
    lemma_no_esc_concat("WORMS//SSH "@, h.name@);
    lemma_no_esc_concat(p1, " "@);
    lemma_no_esc_concat(p1 + " "@, st);
    lemma_no_esc_concat(p1 + " "@ + st, " "@);
    lemma_no_esc_concat(p1 + " "@ + st + " "@, w);
    let p2 = p1 + " "@ + st + " "@ + w;
    lemma_no_esc_concat(p2, " VX:"@);
    lemma_no_esc_concat(p2 + " VX:"@, h.vx@);
    lemma_no_esc_concat(p2 + " VX:"@ + h.vx@, " AIM:"@);
    let p3 = p2 + " VX:"@ + h.vx@ + " AIM:"@;
    lemma_no_esc_concat(p3, sd);
    lemma_no_esc_concat(p3 + sd, " K:"@);
    lemma_no_esc_concat(p3 + sd + " K:"@, decimal(h.kills as nat));
    let p4 = p3 + sd + " K:"@ + decimal(h.kills as nat);
    lemma_no_esc_concat(p4, " D:"@);
    lemma_no_esc_concat(p4 + " D:"@, decimal(h.deaths as nat));
    lemma_no_esc_concat(p4 + " D:"@ + decimal(h.deaths as nat), " P:"@);
    lemma_no_esc_concat(p4 + " D:"@ + decimal(h.deaths as nat) + " P:"@, decimal(players));
}

proof fn lemma_terminal_line_plain(text: Seq<char>, width: int)
    requires
        no_esc(text),
        width >= 0,
    ensures
        plain_csi(terminal_line(text, width)),
{
    reveal_strlit("\x1b[K\r\n");
    let t = if text.len() > width { text.take(width) } else { text };
    assert(no_esc(t));
    assert(plain_csi("\x1b[K\r\n"@));
    lemma_plain_csi_concat(t, "\x1b[K\r\n"@);
}

proof fn lemma_border_plain(width: int)
    requires
        width >= 0,
    ensures
        plain_csi(border(width)),
{
    reveal_strlit("+\x1b[K\r\n");
    let dashes = seq!['+'] + Seq::new(width as nat, |i: int| '-');
    assert(plain_csi(dashes));
    assert(plain_csi("+\x1b[K\r\n"@));
    lemma_plain_csi_concat(dashes, "+\x1b[K\r\n"@);
}

proof fn lemma_escape_plain(style: Style, depth: ColorDepth)
    ensures
        plain_csi(escape_of(style, depth)),
{
    reveal_strlit("\x1b[0m");
    reveal_strlit("\x1b[33m");
    reveal_strlit("\x1b[1;36m");
    reveal_strlit("\x1b[1;35m");
    reveal_strlit("\x1b[1;31m");
    reveal_strlit("\x1b[1;37m");
    reveal_strlit("\x1b[1;33m");
    reveal_strlit("\x1b[1;32m");
    reveal_strlit("\x1b[38;5;130m");
    reveal_strlit("\x1b[1;38;5;51m");
    reveal_strlit("\x1b[1;38;5;213m");
    reveal_strlit("\x1b[1;38;5;203m");
    reveal_strlit("\x1b[1;38;5;231m");
    reveal_strlit("\x1b[1;38;5;226m");
    reveal_strlit("\x1b[1;38;5;82m");
    reveal_strlit("\x1b[38;2;166;105;58m");
    reveal_strlit("\x1b[1;38;2;0;238;255m");
    reveal_strlit("\x1b[1;38;2;255;105;210m");
    reveal_strlit("\x1b[1;38;2;255;72;54m");
    reveal_strlit("\x1b[1;38;2;255;245;190m");
    reveal_strlit("\x1b[1;38;2;255;220;0m");
    reveal_strlit("\x1b[1;38;2;110;255;110m");
}

proof fn lemma_row_run_plain(cells: Seq<char>, styles: Seq<Option<Style>>, glyphs: GlyphMode, colors: ColorDepth, n: int)
    requires
        no_esc(cells),
        n <= cells.len(),
    ensures
        plain_csi(row_run(cells, styles, glyphs, colors, n).0),
    decreases n,
{
    if n > 0 {
        lemma_row_run_plain(cells, styles, glyphs, colors, n - 1);
        let prev = row_run(cells, styles, glyphs, colors, n - 1);
        let ch = cells[n - 1];
        let st = match styles[n - 1] {
            Some(s) => s,
            None => style_of(ch, glyphs),
        };
        assert(plain_csi(seq![ch]));
        if st != prev.1 {
            lemma_escape_plain(st, colors);
            lemma_plain_csi_concat(prev.0, escape_of(st, colors));
            lemma_plain_csi_concat(prev.0 + escape_of(st, colors), seq![ch]);
        } else {
            lemma_plain_csi_concat(prev.0, seq![ch]);
            assert(prev.0.push(ch) =~= prev.0 + seq![ch]);
        }
    }
}

proof fn lemma_rows_plain(cv: CanvasView, width: int, height: int, glyphs: GlyphMode, colors: ColorDepth, n: int)
    requires
        lacks(cv, '\x1b'),
        cv.cells.len() == width * height,
        0 < width,
        n <= height,
    ensures
        plain_csi(rows_text(cv, width, glyphs, colors, n)),
    decreases n,
{
    reveal_strlit("\x1b[0m|\x1b[K\r\n");
    if n > 0 {
        lemma_rows_plain(cv, width, height, glyphs, colors, n - 1);
        let sy = n - 1;
        assert(sy * width + width <= width * height) by (nonlinear_arith)
            requires
                0 <= sy < height,
                0 < width,
        ;
        assert(0 <= sy * width) by (nonlinear_arith)
            requires
                0 <= sy,
                0 < width,
        ;
        let cells = cv.cells.subrange(sy * width, sy * width + width);
        let styles = cv.styles.subrange(sy * width, sy * width + width);
        assert(no_esc(cells)) by {
            assert forall|i: int| 0 <= i < cells.len() implies #[trigger] cells[i] != '\x1b' by {
                assert(cells[i] == cv.cells[sy * width + i]);
            }
        }
        lemma_row_run_plain(cells, styles, glyphs, colors, width);
        let run = row_run(cells, styles, glyphs, colors, width).0;
        assert(plain_csi(seq!['|']));
        assert(plain_csi("\x1b[0m|\x1b[K\r\n"@));
        lemma_plain_csi_concat(seq!['|'], run);
        lemma_plain_csi_concat(seq!['|'] + run, "\x1b[0m|\x1b[K\r\n"@);
        lemma_plain_csi_concat(rows_text(cv, width, glyphs, colors, n - 1), row_text(cv, width, sy, glyphs, colors));
    }
}

proof fn lemma_feed_plain(feed: Seq<String>, width: int, n: int)
    requires
        forall|i: int| 0 <= i < feed.len() ==> no_esc(#[trigger] feed[i]@),
        width >= 0,
    ensures
        plain_csi(feed_text(feed, width, n)),
    decreases n,
{
    reveal_strlit("> ");
    if n > 0 {
        lemma_feed_plain(feed, width, n - 1);
        let text = if n - 1 < feed.len() { "> "@ + feed[n - 1]@ } else { Seq::empty() };
        if n - 1 < feed.len() {
            assert(no_esc("> "@));
            lemma_no_esc_concat("> "@, feed[n - 1]@);
        }
        lemma_terminal_line_plain(text, width);
        lemma_plain_csi_concat(feed_text(feed, width, n - 1), terminal_line(text, width));
    }
}

/// A frame never hides the client's cursor: where no name, speed, countdown or feed
/// line and no projectile glyph carries an escape character, every escape in the
/// frame opens a plain control sequence, so the frame holds no `ESC [ ? 25 l`.
pub proof fn lemma_frames_keep_the_cursor(
    tiles: Seq<Tile>,
    scene: &Scene,
    viewer: PlayerId,
    columns: u32,
    rows: u32,
    colors: ColorDepth,
    glyphs: GlyphMode,
)
    requires
        scene.hud matches Some(h) ==> no_esc(h.name@) && no_esc(h.vx@) && no_esc(h.respawn_seconds@),
        forall|i: int| 0 <= i < scene.feed@.len() ==> no_esc(#[trigger] scene.feed@[i]@),
        forall|i: int| 0 <= i < scene.shots@.len() ==> (#[trigger] scene.shots@[i]).glyph != '\x1b',
    ensures
        plain_csi(frame_text(tiles, scene, viewer, columns, rows, colors, glyphs)),
        !has_text(frame_text(tiles, scene, viewer, columns, rows, colors, glyphs), "\x1b[?25l"@),
{
    let tw = terminal_width(columns);
    let vw = viewport_width(columns);
    let vh = viewport_height(rows);
    lemma_painted_lacks(tiles, scene.shots@, scene.blasts@, scene.sprites@, viewer, glyphs, scene.tick_number, vw, vh, '\x1b');
    let cv = painted(tiles, scene.shots@, scene.blasts@, scene.sprites@, viewer, glyphs, scene.tick_number, vw, vh);
    let hud = match scene.hud {
        Some(h) => terminal_line(status_text(&h, scene.tick_number, scene.player_count as nat), tw),
        None => Seq::empty(),
    };
    match scene.hud {
        Some(h) => {
            lemma_status_no_esc(&h, scene.tick_number, scene.player_count as nat);
            lemma_terminal_line_plain(status_text(&h, scene.tick_number, scene.player_count as nat), tw);
        },
        None => {},
    }
    reveal_strlit("\x1b[H");
    reveal_strlit("\x1b[J");
    reveal_strlit("A/D thrust | SPACE jump | J/L steer | ENTER charge/fire | 1/2 weapon | Ctrl-C exit");
    assert(no_esc(HELP_LINE@));
    lemma_border_plain(vw);
    lemma_rows_plain(cv, vw, vh, glyphs, colors, vh);
    lemma_terminal_line_plain(HELP_LINE@, tw);
    lemma_feed_plain(scene.feed@, tw, feed_line_count(rows));
    let p0 = "\x1b[H"@;
    assert(plain_csi(p0));
    assert(plain_csi("\x1b[J"@));
    lemma_plain_csi_concat(p0, hud);
    lemma_plain_csi_concat(p0 + hud, border(vw));
    lemma_plain_csi_concat(p0 + hud + border(vw), rows_text(cv, vw, glyphs, colors, vh));
    let p1 = p0 + hud + border(vw) + rows_text(cv, vw, glyphs, colors, vh);
    lemma_plain_csi_concat(p1, border(vw));
    lemma_plain_csi_concat(p1 + border(vw), terminal_line(HELP_LINE@, tw));
    lemma_plain_csi_concat(p1 + border(vw) + terminal_line(HELP_LINE@, tw), feed_text(scene.feed@, tw, feed_line_count(rows)));
    lemma_plain_csi_concat(p1 + border(vw) + terminal_line(HELP_LINE@, tw) + feed_text(scene.feed@, tw, feed_line_count(rows)), "\x1b[J"@);
    let f = frame_text(tiles, scene, viewer, columns, rows, colors, glyphs);
    reveal_strlit("\x1b[?25l");
    if has_text(f, "\x1b[?25l"@) {
        let i = choose|i: int| occurs_at(f, "\x1b[?25l"@, i);
        assert(f.subrange(i, i + 6)[0] == f[i]);
        assert(f.subrange(i, i + 6)[2] == f[i + 2]);
        assert(f[i] == '\x1b');
    }
}

/// How many line breaks `s` holds.
pub open spec fn line_breaks(s: Seq<char>) -> nat
    decreases s.len(),
{
    if s.len() == 0 {
        0
    } else {
        line_breaks(s.drop_last()) + if s.last() == '\n' { 1nat } else { 0nat }
    }
}

proof fn lemma_breaks_concat(a: Seq<char>, b: Seq<char>)
    ensures
        line_breaks(a + b) == line_breaks(a) + line_breaks(b),
    decreases b.len(),
{
    if b.len() == 0 {
        assert(a + b =~= a);
    } else {
        assert((a + b).drop_last() =~= a + b.drop_last());
        lemma_breaks_concat(a, b.drop_last());
    }
}

proof fn lemma_breaks_none(s: Seq<char>)
    requires
        forall|i: int| 0 <= i < s.len() ==> #[trigger] s[i] != '\n',
    ensures
        line_breaks(s) == 0,
    decreases s.len(),
{
    if s.len() > 0 {
        lemma_breaks_none(s.drop_last());
    }
}

/// `s` holds no line break.
pub open spec fn one_line(s: Seq<char>) -> bool {
    forall|i: int| 0 <= i < s.len() ==> #[trigger] s[i] != '\n'
}

proof fn lemma_line_end_breaks()
    ensures
        line_breaks("\x1b[K\r\n"@) == 1,
        line_breaks("+\x1b[K\r\n"@) == 1,
        line_breaks("\x1b[0m|\x1b[K\r\n"@) == 1,
{
    reveal_strlit("\x1b[K\r\n");
    reveal_strlit("+\x1b[K\r\n");
    reveal_strlit("\x1b[0m|\x1b[K\r\n");
    let a = "\x1b[K\r\n"@;
    assert(a.drop_last() =~= seq!['\x1b', '[', 'K', '\r']);
    lemma_breaks_none(a.drop_last());
    let b = "+\x1b[K\r\n"@;
    assert(b.drop_last() =~= seq!['+', '\x1b', '[', 'K', '\r']);
    lemma_breaks_none(b.drop_last());
    let c = "\x1b[0m|\x1b[K\r\n"@;
    assert(c.drop_last() =~= seq!['\x1b', '[', '0', 'm', '|', '\x1b', '[', 'K', '\r']);
    lemma_breaks_none(c.drop_last());
}

proof fn lemma_terminal_line_breaks(text: Seq<char>, width: int)
    requires
        one_line(text),
        width >= 0,
    ensures
        line_breaks(terminal_line(text, width)) == 1,
{
    lemma_line_end_breaks();
    let t = if text.len() > width { text.take(width) } else { text };
    lemma_breaks_none(t);
    lemma_breaks_concat(t, "\x1b[K\r\n"@);
}

proof fn lemma_escape_one_line(style: Style, depth: ColorDepth)
    ensures
        one_line(escape_of(style, depth)),
{
    lemma_escape_plain(style, depth);
    reveal_strlit("\x1b[0m");
    reveal_strlit("\x1b[33m");
    reveal_strlit("\x1b[1;36m");
    reveal_strlit("\x1b[1;35m");
    reveal_strlit("\x1b[1;31m");
    reveal_strlit("\x1b[1;37m");
    reveal_strlit("\x1b[1;33m");
    reveal_strlit("\x1b[1;32m");
    reveal_strlit("\x1b[38;5;130m");
    reveal_strlit("\x1b[1;38;5;51m");
    reveal_strlit("\x1b[1;38;5;213m");
    reveal_strlit("\x1b[1;38;5;203m");
    reveal_strlit("\x1b[1;38;5;231m");
    reveal_strlit("\x1b[1;38;5;226m");
    reveal_strlit("\x1b[1;38;5;82m");
    reveal_strlit("\x1b[38;2;166;105;58m");
    reveal_strlit("\x1b[1;38;2;0;238;255m");
    reveal_strlit("\x1b[1;38;2;255;105;210m");
    reveal_strlit("\x1b[1;38;2;255;72;54m");
    reveal_strlit("\x1b[1;38;2;255;245;190m");
    reveal_strlit("\x1b[1;38;2;255;220;0m");
    reveal_strlit("\x1b[1;38;2;110;255;110m");
}

proof fn lemma_row_run_one_line(cells: Seq<char>, styles: Seq<Option<Style>>, glyphs: GlyphMode, colors: ColorDepth, n: int)
    requires
        one_line(cells),
        n <= cells.len(),
    ensures
        one_line(row_run(cells, styles, glyphs, colors, n).0),
    decreases n,
{
    if n > 0 {
        lemma_row_run_one_line(cells, styles, glyphs, colors, n - 1);
        let prev = row_run(cells, styles, glyphs, colors, n - 1);
        let ch = cells[n - 1];
        let st = match styles[n - 1] {
            Some(s) => s,
            None => style_of(ch, glyphs),
        };
        if st != prev.1 {
            lemma_escape_one_line(st, colors);
            let e = escape_of(st, colors);
            let r = prev.0 + e + seq![ch];
            assert forall|i: int| 0 <= i < r.len() implies #[trigger] r[i] != '\n' by {
                if i < prev.0.len() {
                    assert(r[i] == prev.0[i]);
                } else if i < prev.0.len() + e.len() {
                    assert(r[i] == e[i - prev.0.len()]);
                }
            }
        } else {
            let r = prev.0.push(ch);
            assert forall|i: int| 0 <= i < r.len() implies #[trigger] r[i] != '\n' by {
                if i < prev.0.len() {
                    assert(r[i] == prev.0[i]);
                }
            }
        }
    }
}

proof fn lemma_rows_breaks(cv: CanvasView, width: int, height: int, glyphs: GlyphMode, colors: ColorDepth, n: int)
    requires
        lacks(cv, '\n'),
        cv.cells.len() == width * height,
        0 < width,
        0 <= n <= height,
    ensures
        line_breaks(rows_text(cv, width, glyphs, colors, n)) == n,
    decreases n,
{
    if n > 0 {
        lemma_rows_breaks(cv, width, height, glyphs, colors, n - 1);
        let sy = n - 1;
        assert(sy * width + width <= width * height) by (nonlinear_arith)
            requires
                0 <= sy < height,
                0 < width,
        ;
        assert(0 <= sy * width) by (nonlinear_arith)
            requires
                0 <= sy,
                0 < width,
        ;
        let cells = cv.cells.subrange(sy * width, sy * width + width);
        let styles = cv.styles.subrange(sy * width, sy * width + width);
        assert(one_line(cells)) by {
            assert forall|i: int| 0 <= i < cells.len() implies #[trigger] cells[i] != '\n' by {
                assert(cells[i] == cv.cells[sy * width + i]);
            }
        }
        lemma_row_run_one_line(cells, styles, glyphs, colors, width);
        let run = row_run(cells, styles, glyphs, colors, width).0;
        let head = seq!['|'] + run;
        assert(one_line(head)) by {
            assert forall|i: int| 0 <= i < head.len() implies #[trigger] head[i] != '\n' by {
                if i > 0 {
                    assert(head[i] == run[i - 1]);
                }
            }
        }
        lemma_breaks_none(head);
        lemma_line_end_breaks();
        lemma_breaks_concat(head, "\x1b[0m|\x1b[K\r\n"@);
        lemma_breaks_concat(rows_text(cv, width, glyphs, colors, n - 1), row_text(cv, width, sy, glyphs, colors));
    }
}

proof fn lemma_feed_breaks(feed: Seq<String>, width: int, n: int)
    requires
        forall|i: int| 0 <= i < feed.len() ==> one_line(#[trigger] feed[i]@),
        width >= 0,
        n >= 0,
    ensures
        line_breaks(feed_text(feed, width, n)) == n,
    decreases n,
{
    reveal_strlit("> ");
    if n > 0 {
        lemma_feed_breaks(feed, width, n - 1);
        let text = if n - 1 < feed.len() { "> "@ + feed[n - 1]@ } else { Seq::empty() };
        if n - 1 < feed.len() {
            let m = feed[n - 1]@;
            assert forall|i: int| 0 <= i < text.len() implies #[trigger] text[i] != '\n' by {
                if i >= 2 {
                    assert(text[i] == m[i - 2]);
                }
            }
        }
        lemma_terminal_line_breaks(text, width);
        lemma_breaks_concat(feed_text(feed, width, n - 1), terminal_line(text, width));
    }
}

proof fn lemma_status_one_line(h: &Hud, tick: u64, players: nat)
    requires
        one_line(h.name@),
        one_line(h.vx@),
        one_line(h.respawn_seconds@),
    ensures
        one_line(status_text(h, tick, players)),
{
    reveal_strlit("WORMS//SSH ");
    reveal_strlit(" ");
    reveal_strlit(" VX:");
    reveal_strlit(" AIM:");
    reveal_strlit(" K:");
    reveal_strlit(" D:");
    reveal_strlit(" P:");
    reveal_strlit("RESPAWN ");
    reveal_strlit("s");
    reveal_strlit("CHARGE ");
    reveal_strlit("%");
    reveal_strlit("HP ");
    reveal_strlit("BAZOOKA [1]");
    reveal_strlit("GRENADE [2]");
    lemma_decimal_digits(h.kills as nat);
    lemma_decimal_digits(h.deaths as nat);
    lemma_decimal_digits(players);
    if h.aim >= 0 {
        lemma_decimal_digits(h.aim as nat);
    } else {
        lemma_decimal_digits((-h.aim) as nat);
    }
    match h.charge_started {
        Some(start) => lemma_decimal_digits(charge_percent(tick, start) as nat),
        None => {},
    }
    lemma_decimal_digits(health_percent(h.health as int) as nat);
    let st = state_text(h, tick);
    assert(one_line(st)) by {
        assert forall|i: int| 0 <= i < st.len() implies #[trigger] st[i] != '\n' by {
            if h.respawn_ticks > 0 {
                let a = "RESPAWN "@;
                if i >= a.len() && i < a.len() + h.respawn_seconds@.len() {
                    assert(st[i] == h.respawn_seconds@[i - a.len()]);
                }
            }
        }
    }
    let t = status_text(h, tick, players);
    assert forall|i: int| 0 <= i < t.len() implies #[trigger] t[i] != '\n' by {
        let p1 = "WORMS//SSH "@ + h.name@ + " "@;
        let p2 = p1 + st + " "@ + weapon_label(h.weapon) + " VX:"@;
        if i >= 11 && i < 11 + h.name@.len() {
            assert(t[i] == h.name@[i - 11]);
        } else if i >= p1.len() && i < p1.len() + st.len() {
            assert(t[i] == st[i - p1.len()]);
        } else if i >= p2.len() && i < p2.len() + h.vx@.len() {
            assert(t[i] == h.vx@[i - p2.len()]);
        }
    }
}

proof fn lemma_help_one_line()
    ensures
        one_line(HELP_LINE@),
{
    reveal_strlit("A/D thrust | SPACE jump | J/L steer | ENTER charge/fire | 1/2 weapon | Ctrl-C exit");
}

proof fn lemma_short_literals()
    ensures
        line_breaks("\x1b[H"@) == 0,
        line_breaks("\x1b[J"@) == 0,
        "\x1b[H"@.len() == 3,
        "\x1b[J"@.len() == 3,
{
    reveal_strlit("\x1b[H");
    reveal_strlit("\x1b[J");
    lemma_breaks_none("\x1b[H"@);
    lemma_breaks_none("\x1b[J"@);
}

/// A frame's shape: it starts with cursor-home and ends with clear-to-end, and where
/// no name, speed, countdown or feed line and no projectile glyph holds a line break,
/// it has one line for the status (when the viewer plays), the two borders, one per
/// viewport row, the key help and one per feed line.
#[verifier::rlimit(40)]
pub proof fn lemma_frame_lines(
    tiles: Seq<Tile>,
    scene: &Scene,
    viewer: PlayerId,
    columns: u32,
    rows: u32,
    colors: ColorDepth,
    glyphs: GlyphMode,
)
    requires
        scene.hud matches Some(h) ==> one_line(h.name@) && one_line(h.vx@) && one_line(h.respawn_seconds@),
        forall|i: int| 0 <= i < scene.feed@.len() ==> one_line(#[trigger] scene.feed@[i]@),
        forall|i: int| 0 <= i < scene.shots@.len() ==> (#[trigger] scene.shots@[i]).glyph != '\n',
    ensures
        frame_text(tiles, scene, viewer, columns, rows, colors, glyphs).take(3) == "\x1b[H"@,
        frame_text(tiles, scene, viewer, columns, rows, colors, glyphs).skip(
            frame_text(tiles, scene, viewer, columns, rows, colors, glyphs).len() - 3,
        ) == "\x1b[J"@,
        line_breaks(frame_text(tiles, scene, viewer, columns, rows, colors, glyphs)) == (if scene.hud is Some { 1int } else { 0int })
            + viewport_height(rows) + 3 + feed_line_count(rows),
{
    let tw = terminal_width(columns);
    let vw = viewport_width(columns);
    let vh = viewport_height(rows);
    lemma_painted_lacks(tiles, scene.shots@, scene.blasts@, scene.sprites@, viewer, glyphs, scene.tick_number, vw, vh, '\n');
    let cv = painted(tiles, scene.shots@, scene.blasts@, scene.sprites@, viewer, glyphs, scene.tick_number, vw, vh);
    let hud = match scene.hud {
        Some(h) => terminal_line(status_text(&h, scene.tick_number, scene.player_count as nat), tw),
        None => Seq::empty(),
    };
    match scene.hud {
        Some(h) => {
            lemma_status_one_line(&h, scene.tick_number, scene.player_count as nat);
            lemma_terminal_line_breaks(status_text(&h, scene.tick_number, scene.player_count as nat), tw);
        },
        None => {
            assert(line_breaks(hud) == 0);
        },
    }
    lemma_short_literals();
    lemma_help_one_line();
    lemma_line_end_breaks();
    let b = border(vw);
    let dashes = seq!['+'] + Seq::new(vw as nat, |i: int| '-');
    lemma_breaks_none(dashes);
    lemma_breaks_concat(dashes, "+\x1b[K\r\n"@);
    lemma_rows_breaks(cv, vw, vh, glyphs, colors, vh);
    lemma_terminal_line_breaks(HELP_LINE@, tw);
    lemma_feed_breaks(scene.feed@, tw, feed_line_count(rows));
    let r = rows_text(cv, vw, glyphs, colors, vh);
    let h = terminal_line(HELP_LINE@, tw);
    let fd = feed_text(scene.feed@, tw, feed_line_count(rows));
    let p0 = "\x1b[H"@;
    lemma_breaks_concat(p0, hud);
    lemma_breaks_concat(p0 + hud, b);
    lemma_breaks_concat(p0 + hud + b, r);
    lemma_breaks_concat(p0 + hud + b + r, b);
    lemma_breaks_concat(p0 + hud + b + r + b, h);
    lemma_breaks_concat(p0 + hud + b + r + b + h, fd);
    lemma_breaks_concat(p0 + hud + b + r + b + h + fd, "\x1b[J"@);
    let f = frame_text(tiles, scene, viewer, columns, rows, colors, glyphs);
    assert(f.take(3) =~= p0);
    assert(f.skip(f.len() - 3) =~= "\x1b[J"@);
}

} // verus!
