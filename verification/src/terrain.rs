//! The destructible battlefield: a grid of earth and air cells, how explosions carve
//! it, how unsupported earth hangs and falls, how steep slopes slough off, and how
//! fresh earth grows back from the floor.
use vstd::prelude::*;
use std::collections::VecDeque;
use rand::rngs::SmallRng;
use crate::game::{
    Tile, CELLS, GROWTH_HEIGHT_CAP_PCT, GROWTH_MAX_BURST, GROWTH_MIN_BURST, HANG_FALL_DELAY, HEIGHT,
    TALUS, TERRAIN_CAP, WIDTH, WORLD_SCALE,
};
use crate::rng::{random_between, random_ratio};

verus! {

/// Index of the in-grid cell `(x, y)`.
pub open spec fn cell(x: int, y: int) -> int {
    y * WIDTH + x
}

pub open spec fn in_grid(x: int, y: int) -> bool {
    0 <= x < WIDTH && 0 <= y < HEIGHT
}

/// The tile the simulation sees at `(x, y)`: open sky above the grid, solid rock
/// beside and below it.
pub open spec fn tile_at(tiles: Seq<Tile>, x: int, y: int) -> Tile {
    if y < 0 {
        Tile::Air
    } else if x < 0 || x >= WIDTH || y >= HEIGHT {
        Tile::Earth
    } else {
        tiles[cell(x, y)]
    }
}

/// Number of earth cells in `tiles`.
pub open spec fn earth_in(tiles: Seq<Tile>) -> nat
    decreases tiles.len(),
{
    if tiles.len() == 0 {
        0
    } else {
        earth_in(tiles.drop_last()) + if tiles.last() == Tile::Earth { 1nat } else { 0nat }
    }
}

pub proof fn lemma_earth_in_bound(tiles: Seq<Tile>)
    ensures
        earth_in(tiles) <= tiles.len(),
    decreases tiles.len(),
{
    if tiles.len() > 0 {
        lemma_earth_in_bound(tiles.drop_last());
    }
}

/// Overwriting one tile changes the earth count by the difference of the two tiles.
pub proof fn lemma_earth_in_update(tiles: Seq<Tile>, i: int, t: Tile)
    requires
        0 <= i < tiles.len(),
    ensures
        earth_in(tiles.update(i, t)) + (if tiles[i] == Tile::Earth { 1int } else { 0int })
            == earth_in(tiles) + (if t == Tile::Earth { 1int } else { 0int }),
    decreases tiles.len(),
{
    let u = tiles.update(i, t);
    if i == tiles.len() - 1 {
        assert(u.drop_last() =~= tiles.drop_last());
    } else {
        assert(u.drop_last() =~= tiles.drop_last().update(i, t));
        lemma_earth_in_update(tiles.drop_last(), i, t);
    }
}

/// The grid's contents, as the contracts speak of them.
#[verifier::ext_equal]
pub struct TerrainView {
    pub tiles: Seq<Tile>,
    pub hang: Seq<u16>,
    pub cohesion: Seq<u8>,
}

/// The battlefield grid, row by row from the sky down. Besides its tile, each cell
/// keeps how long it has hung unsupported and how strongly it resists sliding.
pub struct Terrain {
    pub tiles: Vec<Tile>,
    pub hang: Vec<u16>,
    pub cohesion: Vec<u8>,
}

impl View for Terrain {
    type V = TerrainView;

    open spec fn view(&self) -> TerrainView {
        TerrainView { tiles: self.tiles@, hang: self.hang@, cohesion: self.cohesion@ }
    }
}

pub open spec fn view_wf(v: TerrainView) -> bool {
    &&& v.tiles.len() == CELLS
    &&& v.hang.len() == CELLS
    &&& v.cohesion.len() == CELLS
}

impl Terrain {
    pub open spec fn wf(&self) -> bool {
        view_wf(self@)
    }

    /// An empty arena: all air, nothing hanging, no cohesion.
    pub fn empty() -> (t: Terrain)
        ensures
            t.wf(),
            forall|i: int| 0 <= i < CELLS ==> t.tiles@[i] == Tile::Air && t.hang@[i] == 0
                && t.cohesion@[i] == 0,
    {
        Terrain { tiles: vec![Tile::Air; CELLS], hang: vec![0u16; CELLS], cohesion: vec![0u8; CELLS] }
    }

    /// The tile at `(x, y)`; above the grid is air, beside and below it is earth.
    pub fn tile(&self, x: i32, y: i32) -> (t: Tile)
        requires
            self.wf(),
        ensures
            t == tile_at(self.tiles@, x as int, y as int),
    {
        if y < 0 {
            return Tile::Air;
        }
        if x < 0 || x >= WIDTH as i32 || y >= HEIGHT as i32 {
            return Tile::Earth;
        }
        self.tiles[y as usize * WIDTH + x as usize]
    }

    /// Writes `tile` at `(x, y)` when that cell is inside the grid; air loses its
    /// cohesion. Outside the grid nothing changes.
    pub fn set_tile(&mut self, x: i32, y: i32, tile: Tile)
        requires
            old(self).wf(),
        ensures
            final(self).wf(),
            final(self).hang@ == old(self).hang@,
            in_grid(x as int, y as int) ==> {
                &&& final(self).tiles@ == old(self).tiles@.update(cell(x as int, y as int), tile)
                &&& final(self).cohesion@ == if tile == Tile::Air {
                    old(self).cohesion@.update(cell(x as int, y as int), 0)
                } else {
                    old(self).cohesion@
                }
            },
            !in_grid(x as int, y as int) ==> final(self)@ == old(self)@,
    {
        if x >= 0 && y >= 0 && x < WIDTH as i32 && y < HEIGHT as i32 {
            let idx = y as usize * WIDTH + x as usize;
            self.tiles.set(idx, tile);
            if tile == Tile::Air {
                self.cohesion.set(idx, 0);
            }
        }
    }

    /// Gives the in-grid cell `(x, y)` a random cohesion of 1 to 3.
    pub fn seed_cohesion(&mut self, rng: &mut SmallRng, x: i32, y: i32)
        requires
            old(self).wf(),
        ensures
            final(self).wf(),
            final(self).tiles@ == old(self).tiles@,
            final(self).hang@ == old(self).hang@,
            in_grid(x as int, y as int) ==> {
                &&& 1 <= final(self).cohesion@[cell(x as int, y as int)] <= 3
                &&& final(self).cohesion@ == old(self).cohesion@.update(
                    cell(x as int, y as int),
                    final(self).cohesion@[cell(x as int, y as int)],
                )
            },
            !in_grid(x as int, y as int) ==> final(self).cohesion@ == old(self).cohesion@,
    {
        if x >= 0 && y >= 0 && x < WIDTH as i32 && y < HEIGHT as i32 {
            let idx = y as usize * WIDTH + x as usize;
            let c = random_between(rng, 1, 3);
            self.cohesion.set(idx, c as u8);
        }
    }

    /// Number of earth cells.
    pub fn earth_count(&self) -> (n: usize)
        requires
            self.wf(),
        ensures
            n == earth_in(self.tiles@),
    {
        let mut n: usize = 0;
        let mut i: usize = 0;
        while i < self.tiles.len()
            invariant
                self.wf(),
                i <= self.tiles@.len(),
                n == earth_in(self.tiles@.take(i as int)),
                n <= i,
            decreases self.tiles@.len() - i,
        {
            proof {
                assert(self.tiles@.take(i + 1).drop_last() =~= self.tiles@.take(i as int));
            }
            if self.tiles[i] == Tile::Earth {
                n = n + 1;
            }
            i = i + 1;
        }
        proof {
            assert(self.tiles@.take(i as int) =~= self.tiles@);
        }
        n
    }
}


/// Whether `(x, y)` lies in the disc of `radius` around `(cx, cy)`.
pub open spec fn in_blast(x: int, y: int, cx: int, cy: int, radius: int) -> bool {
    &&& cx - radius <= x <= cx + radius
    &&& cy - radius <= y <= cy + radius
    &&& (x - cx) * (x - cx) + (y - cy) * (y - cy) <= radius * radius
}

/// `b` is `a` with every in-grid cell within `radius` of `(cx, cy)` turned to air.
pub open spec fn carved(a: Seq<Tile>, b: Seq<Tile>, cx: int, cy: int, radius: int) -> bool {
    &&& b.len() == a.len()
    &&& forall|x: int, y: int|
        #![trigger cell(x, y)]
        in_grid(x, y) ==> b[cell(x, y)] == if in_blast(x, y, cx, cy, radius) {
            Tile::Air
        } else {
            a[cell(x, y)]
        }
}

/// The first earth row of column `x`, scanning down from row `y`.
pub open spec fn first_earth(tiles: Seq<Tile>, x: int, y: int) -> Option<int>
    decreases HEIGHT - y,
{
    if y >= HEIGHT || y < 0 {
        None
    } else if tile_at(tiles, x, y) == Tile::Earth {
        Some(y)
    } else {
        first_earth(tiles, x, y + 1)
    }
}

/// The surface of column `x`: its highest earth row, if the column holds any.
pub open spec fn surface_of(tiles: Seq<Tile>, x: int) -> Option<int> {
    first_earth(tiles, x, 0)
}

/// Scanning up from row `y`, the first row of column `x` that is not earth (-1 when
/// the column is earth all the way up).
pub open spec fn growth_top_from(tiles: Seq<Tile>, x: int, y: int) -> int
    decreases y + 1,
{
    if y < 0 {
        -1
    } else if tile_at(tiles, x, y) == Tile::Earth {
        growth_top_from(tiles, x, y - 1)
    } else {
        y
    }
}

/// Where new earth would grow in column `x`: the lowest air cell above the solid
/// stack that rises from the floor.
pub open spec fn growth_site(tiles: Seq<Tile>, x: int) -> Option<int> {
    let top = growth_top_from(tiles, x, HEIGHT - 1);
    if top >= 0 { Some(top) } else { None }
}

/// The drop of a slope that sets a grounded worm sliding: `1` downhill to the right,
/// `-1` downhill to the left, `0` when the ground around column `x` is gentle.
pub open spec fn slide_direction_of(tiles: Seq<Tile>, x: int) -> i8 {
    let here = surface_of(tiles, x);
    let left = surface_of(tiles, x - 2);
    let right = surface_of(tiles, x + 2);
    if here is Some && right is Some && right->0 - here->0 >= 4 {
        1i8
    } else if here is Some && left is Some && left->0 - here->0 >= 4 {
        -1i8
    } else {
        0i8
    }
}

impl Terrain {
    /// Turns every in-grid cell within `radius` of `(cx, cy)` into air.
    pub fn carve(&mut self, cx: i32, cy: i32, radius: i32)
        requires
            old(self).wf(),
            radius <= 32767,
            i32::MIN <= cx - radius,
            cx + radius <= i32::MAX,
            i32::MIN <= cy - radius,
            cy + radius <= i32::MAX,
        ensures
            final(self).wf(),
            final(self).hang@ == old(self).hang@,
            carved(old(self).tiles@, final(self).tiles@, cx as int, cy as int, radius as int),
            forall|x: int, y: int|
                #![trigger cell(x, y)]
                in_grid(x, y) ==> {
                    &&& final(self).tiles@[cell(x, y)] == if in_blast(
                        x,
                        y,
                        cx as int,
                        cy as int,
                        radius as int,
                    ) {
                        Tile::Air
                    } else {
                        old(self).tiles@[cell(x, y)]
                    }
                    &&& final(self).cohesion@[cell(x, y)] == if in_blast(
                        x,
                        y,
                        cx as int,
                        cy as int,
                        radius as int,
                    ) {
                        0
                    } else {
                        old(self).cohesion@[cell(x, y)]
                    }
                },
    {
        let ghost old_t = self.tiles@;
        let ghost old_c = self.cohesion@;
        if radius < 0 {
            return;
        }
        let r = radius as i64;
        let cx64 = cx as i64;
        let cy64 = cy as i64;
        let y0: i64 = if cy64 - r < 0 { 0 } else { cy64 - r };
        let y1: i64 = if cy64 + r > HEIGHT as i64 - 1 { HEIGHT as i64 - 1 } else { cy64 + r };
        let x0: i64 = if cx64 - r < 0 { 0 } else { cx64 - r };
        let x1: i64 = if cx64 + r > WIDTH as i64 - 1 { WIDTH as i64 - 1 } else { cx64 + r };
        let mut y = y0;
        while y <= y1
            invariant
                self.wf(),
                self.hang@ == old(self).hang@,
                old_t == old(self).tiles@,
                old_c == old(self).cohesion@,
                old_t.len() == CELLS,
                old_c.len() == CELLS,
                r == radius,
                cx64 == cx,
                cy64 == cy,
                radius <= 32767,
                0 <= r,
                y0 == (if cy - r < 0 { 0 } else { cy - r }),
                y1 == (if cy + r > HEIGHT - 1 { HEIGHT - 1 } else { cy + r }),
                x0 == (if cx - r < 0 { 0 } else { cx - r }),
                x1 == (if cx + r > WIDTH - 1 { WIDTH - 1 } else { cx + r }),
                y0 <= y <= y1 + 1 || (y == y0 && y0 > y1),
                forall|a: int, b: int|
                    #![trigger cell(a, b)]
                    in_grid(a, b) ==> {
                        &&& self.tiles@[cell(a, b)] == if b < y && in_blast(a, b, cx as int, cy as int, r as int) {
                            Tile::Air
                        } else {
                            old_t[cell(a, b)]
                        }
                        &&& self.cohesion@[cell(a, b)] == if b < y && in_blast(a, b, cx as int, cy as int, r as int) {
                            0
                        } else {
                            old_c[cell(a, b)]
                        }
                    },
            decreases y1 + 1 - y,
        {
            let mut x = x0;
            proof {
                assert forall|a: int, b: int|
                    #![trigger cell(a, b)]
                    in_grid(a, b) && b == y && a < x0 implies !in_blast(a, b, cx as int, cy as int, r as int) by {
                }
            }
            while x <= x1
                invariant
                    self.wf(),
                    self.hang@ == old(self).hang@,
                    old_t == old(self).tiles@,
                    old_c == old(self).cohesion@,
                    old_t.len() == CELLS,
                    old_c.len() == CELLS,
                    r == radius,
                    cx64 == cx,
                    cy64 == cy,
                    radius <= 32767,
                    0 <= r,
                    y0 <= y <= y1,
                    0 <= y < HEIGHT,
                    cy - r <= y <= cy + r,
                    x0 == (if cx - r < 0 { 0 } else { cx - r }),
                    x1 == (if cx + r > WIDTH - 1 { WIDTH - 1 } else { cx + r }),
                    x0 <= x <= x1 + 1 || (x == x0 && x0 > x1),
                    forall|a: int, b: int|
                        #![trigger cell(a, b)]
                        in_grid(a, b) ==> {
                            &&& self.tiles@[cell(a, b)] == if (b < y || (b == y && a < x)) && in_blast(a, b, cx as int, cy as int, r as int) {
                                Tile::Air
                            } else {
                                old_t[cell(a, b)]
                            }
                            &&& self.cohesion@[cell(a, b)] == if (b < y || (b == y && a < x)) && in_blast(a, b, cx as int, cy as int, r as int) {
                                0
                            } else {
                                old_c[cell(a, b)]
                            }
                        },
                decreases x1 + 1 - x,
            {
                let dx = x - cx64;
                let dy = y - cy64;
                assert(-32767 <= dx <= 32767);
                assert(-32767 <= dy <= 32767);
                assert(0 <= dx * dx <= 0x4000_0000 && 0 <= dy * dy <= 0x4000_0000 && 0 <= r * r <= 0x4000_0000) by (nonlinear_arith)
                    requires
                        -32767 <= dx <= 32767,
                        -32767 <= dy <= 32767,
                        -32767 <= r <= 32767,
                ;
                let ghost prev_t = self.tiles@;
                let ghost prev_c = self.cohesion@;
                let hit = dx * dx + dy * dy <= r * r;
                assert(hit == in_blast(x as int, y as int, cx as int, cy as int, r as int));
                if hit {
                    self.set_tile(x as i32, y as i32, Tile::Air);
                }
                proof {
                    assert forall|a: int, b: int|
                        #![trigger cell(a, b)]
                        in_grid(a, b) && (a != x || b != y) implies self.tiles@[cell(a, b)] == prev_t[cell(a, b)]
                            && self.cohesion@[cell(a, b)] == prev_c[cell(a, b)] by {
                        assert(cell(a, b) != cell(x as int, y as int));
                    }
                }
                x = x + 1;
            }
            proof {
                assert forall|a: int, b: int|
                    #![trigger cell(a, b)]
                    in_grid(a, b) && b == y && (a < x0 || a > x1) implies !in_blast(a, b, cx as int, cy as int, r as int) by {
                }
            }
            y = y + 1;
        }
        proof {
            assert forall|a: int, b: int|
                #![trigger cell(a, b)]
                in_grid(a, b) && (b < y0 || b >= y) implies !in_blast(a, b, cx as int, cy as int, r as int) by {
            }
        }
    }

    /// The highest earth row of column `x`, if any. Beside the grid every row is earth.
    pub fn surface_height(&self, x: i32) -> (r: Option<i32>)
        requires
            self.wf(),
        ensures
            r matches Some(y) ==> 0 <= y < HEIGHT,
            r matches Some(y) ==> surface_of(self.tiles@, x as int) == Some(y as int),
            r is None ==> surface_of(self.tiles@, x as int) is None,
    {
        let mut y: i32 = 0;
        while y < HEIGHT as i32
            invariant
                self.wf(),
                0 <= y <= HEIGHT,
                first_earth(self.tiles@, x as int, 0) == first_earth(self.tiles@, x as int, y as int),
            decreases HEIGHT - y,
        {
            if self.tile(x, y) == Tile::Earth {
                return Some(y);
            }
            y = y + 1;
        }
        None
    }

    /// The lowest air cell above the solid stack rising from the floor in column `x`;
    /// `None` when the column is earth to the top.
    pub fn supported_growth_site(&self, x: i32) -> (r: Option<i32>)
        requires
            self.wf(),
        ensures
            r matches Some(y) ==> growth_site(self.tiles@, x as int) == Some(y as int),
            r is None ==> growth_site(self.tiles@, x as int) is None,
    {
        let mut y: i32 = HEIGHT as i32 - 1;
        while y >= 0 && self.tile(x, y) == Tile::Earth
            invariant
                self.wf(),
                -1 <= y < HEIGHT,
                growth_top_from(self.tiles@, x as int, HEIGHT - 1) == growth_top_from(self.tiles@, x as int, y as int),
            decreases y + 1,
        {
            y = y - 1;
        }
        if y >= 0 { Some(y) } else { None }
    }

    /// Which way the ground around column `x` drops off steeply enough to make a
    /// grounded worm slide.
    pub fn slide_direction(&self, x: i32) -> (d: i8)
        requires
            self.wf(),
            i32::MIN + 2 <= x <= i32::MAX - 2,
        ensures
            d == slide_direction_of(self.tiles@, x as int),
    {
        let here = self.surface_height(x);
        let left = self.surface_height(x - 2);
        let right = self.surface_height(x + 2);
        match (here, left, right) {
            (Some(h), _, Some(r)) if r - h >= 4 => 1,
            (Some(h), Some(l), _) if l - h >= 4 => -1,
            _ => 0,
        }
    }
}


/// `(x, y)` is earth and reaches the floor through at most `k` steps between
/// side-by-side or stacked earth cells.
pub open spec fn anchored_within(tiles: Seq<Tile>, k: nat, x: int, y: int) -> bool
    decreases k,
{
    &&& in_grid(x, y)
    &&& tiles[cell(x, y)] == Tile::Earth
    &&& (y == HEIGHT - 1 || (k > 0 && (anchored_within(tiles, (k - 1) as nat, x - 1, y)
        || anchored_within(tiles, (k - 1) as nat, x + 1, y)
        || anchored_within(tiles, (k - 1) as nat, x, y - 1)
        || anchored_within(tiles, (k - 1) as nat, x, y + 1))))
}

/// `(x, y)` is earth connected to the floor: it is held up and does not hang.
pub open spec fn is_anchored(tiles: Seq<Tile>, x: int, y: int) -> bool {
    exists|k: nat| anchored_within(tiles, k, x, y)
}

spec fn neighbor_ok(anch: Seq<bool>, tiles: Seq<Tile>, a: int, b: int) -> bool {
    !in_grid(a, b) || tiles[cell(a, b)] != Tile::Earth || anch[cell(a, b)]
}

spec fn closed_at(anch: Seq<bool>, tiles: Seq<Tile>, a: int, b: int) -> bool {
    &&& neighbor_ok(anch, tiles, a - 1, b)
    &&& neighbor_ok(anch, tiles, a + 1, b)
    &&& neighbor_ok(anch, tiles, a, b - 1)
    &&& neighbor_ok(anch, tiles, a, b + 1)
}

spec fn false_count(s: Seq<bool>) -> nat
    decreases s.len(),
{
    if s.len() == 0 {
        0
    } else {
        false_count(s.drop_last()) + if s.last() { 0nat } else { 1nat }
    }
}

proof fn lemma_false_count_mark(s: Seq<bool>, i: int)
    requires
        0 <= i < s.len(),
        !s[i],
    ensures
        false_count(s.update(i, true)) + 1 == false_count(s),
    decreases s.len(),
{
    let u = s.update(i, true);
    if i == s.len() - 1 {
        assert(u.drop_last() =~= s.drop_last());
    } else {
        assert(u.drop_last() =~= s.drop_last().update(i, true));
        lemma_false_count_mark(s.drop_last(), i);
    }
}

/// The flood fill's invariant: marked cells are anchored, the floor's earth is
/// marked, every queued cell is marked, and every marked cell other than `(ex, ey)`
/// is either still queued or has all its earth neighbours marked.
spec fn fill_inv(tiles: Seq<Tile>, anch: Seq<bool>, queue: Seq<(i32, i32)>, ex: int, ey: int) -> bool {
    &&& tiles.len() == CELLS
    &&& anch.len() == CELLS
    &&& forall|a: int, b: int|
        #![trigger cell(a, b)]
        in_grid(a, b) && anch[cell(a, b)] ==> is_anchored(tiles, a, b)
    &&& forall|a: int|
        0 <= a < WIDTH && #[trigger] tiles[cell(a, HEIGHT - 1)] == Tile::Earth ==> anch[cell(a, HEIGHT - 1)]
    &&& forall|a: int, b: int|
        #![trigger cell(a, b)]
        in_grid(a, b) && anch[cell(a, b)] ==> (queue.contains((a as i32, b as i32))
            || closed_at(anch, tiles, a, b) || (a == ex && b == ey))
    &&& forall|i: int|
        0 <= i < queue.len() ==> in_grid(#[trigger] queue[i].0 as int, queue[i].1 as int)
            && anch[cell(queue[i].0 as int, queue[i].1 as int)]
}

proof fn lemma_closed_covers_anchored(tiles: Seq<Tile>, anch: Seq<bool>, k: nat, x: int, y: int)
    requires
        tiles.len() == CELLS,
        anch.len() == CELLS,
        forall|a: int| 0 <= a < WIDTH && #[trigger] tiles[cell(a, HEIGHT - 1)] == Tile::Earth ==> anch[cell(a, HEIGHT - 1)],
        forall|a: int, b: int| #![trigger cell(a, b)] in_grid(a, b) && anch[cell(a, b)] ==> closed_at(anch, tiles, a, b),
        anchored_within(tiles, k, x, y),
    ensures
        anch[cell(x, y)],
    decreases k,
{
    if y == HEIGHT - 1 {
        assert(tiles[cell(x, HEIGHT - 1)] == Tile::Earth);
    } else {
        let j = (k - 1) as nat;
        if anchored_within(tiles, j, x - 1, y) {
            lemma_closed_covers_anchored(tiles, anch, j, x - 1, y);
            assert(closed_at(anch, tiles, x - 1, y));
        } else if anchored_within(tiles, j, x + 1, y) {
            lemma_closed_covers_anchored(tiles, anch, j, x + 1, y);
            assert(closed_at(anch, tiles, x + 1, y));
        } else if anchored_within(tiles, j, x, y - 1) {
            lemma_closed_covers_anchored(tiles, anch, j, x, y - 1);
            assert(closed_at(anch, tiles, x, y - 1));
        } else {
            lemma_closed_covers_anchored(tiles, anch, j, x, y + 1);
            assert(closed_at(anch, tiles, x, y + 1));
        }
    }
}

impl Terrain {
    /// Marks and queues the neighbour `(nx, ny)` of the anchored cell `(x, y)` when it
    /// is unmarked earth inside the grid.
    fn visit(
        &self,
        anchored: &mut Vec<bool>,
        queue: &mut VecDeque<(i32, i32)>,
        x: i32,
        y: i32,
        nx: i32,
        ny: i32,
        Ghost(k0): Ghost<nat>,
    )
        requires
            self.wf(),
            in_grid(x as int, y as int),
            anchored_within(self.tiles@, k0, x as int, y as int),
            (nx == x && (ny == y - 1 || ny == y + 1)) || (ny == y && (nx == x - 1 || nx == x + 1)),
            fill_inv(self.tiles@, old(anchored)@, old(queue)@, x as int, y as int),
        ensures
            fill_inv(self.tiles@, final(anchored)@, final(queue)@, x as int, y as int),
            neighbor_ok(final(anchored)@, self.tiles@, nx as int, ny as int),
            forall|c: int| 0 <= c < CELLS && old(anchored)@[c] ==> #[trigger] final(anchored)@[c],
            (final(anchored)@ == old(anchored)@ && final(queue)@ == old(queue)@)
                || 2 * false_count(final(anchored)@) + final(queue)@.len() + 1 == 2 * false_count(
                old(anchored)@,
            ) + old(queue)@.len(),
    {
        if nx >= 0 && ny >= 0 && nx < WIDTH as i32 && ny < HEIGHT as i32 {
            let idx = ny as usize * WIDTH + nx as usize;
            if !anchored[idx] && self.tiles[idx] == Tile::Earth {
                let ghost a0 = anchored@;
                let ghost q0 = queue@;
                anchored.set(idx, true);
                queue.push_back((nx, ny));
                proof {
                    let t = self.tiles@;
                    lemma_false_count_mark(a0, idx as int);
                    assert(anchored_within(t, k0 + 1, nx as int, ny as int));
                    assert forall|a: int, b: int|
                        #![trigger cell(a, b)]
                        in_grid(a, b) && anchored@[cell(a, b)] implies is_anchored(t, a, b) by {
                        if a == nx && b == ny {
                            assert(anchored_within(t, k0 + 1, a, b));
                        } else {
                            assert(cell(a, b) != idx);
                        }
                    }
                    assert forall|a: int, b: int|
                        #![trigger cell(a, b)]
                        in_grid(a, b) && anchored@[cell(a, b)] implies (queue@.contains((a as i32, b as i32))
                            || closed_at(anchored@, t, a, b) || (a == x && b == y)) by {
                        if a == nx && b == ny {
                            assert(queue@[queue@.len() - 1] == (a as i32, b as i32));
                        } else {
                            assert(cell(a, b) != idx);
                            if q0.contains((a as i32, b as i32)) {
                                let i = choose|i: int| 0 <= i < q0.len() && q0[i] == (a as i32, b as i32);
                                assert(queue@[i] == q0[i]);
                            }
                        }
                    }
                    assert forall|i: int|
                        0 <= i < queue@.len() implies in_grid(#[trigger] queue@[i].0 as int, queue@[i].1 as int)
                            && anchored@[cell(queue@[i].0 as int, queue@[i].1 as int)] by {
                        if i < q0.len() {
                            assert(queue@[i] == q0[i]);
                            assert(in_grid(q0[i].0 as int, q0[i].1 as int));
                            assert(cell(q0[i].0 as int, q0[i].1 as int) == idx ==> anchored@[idx as int]);
                        } else {
                            assert(queue@[i] == (nx, ny));
                        }
                    }
                }
            }
        }
    }

    /// For every cell, whether it is earth connected to the floor, found by a flood
    /// fill from the earth of the bottom row.
    pub fn anchor_map(&self) -> (anchored: Vec<bool>)
        requires
            self.wf(),
        ensures
            anchored@.len() == CELLS,
            forall|x: int, y: int|
                #![trigger cell(x, y)]
                in_grid(x, y) ==> (anchored@[cell(x, y)] <==> is_anchored(self.tiles@, x, y)),
    {
        let mut anchored: Vec<bool> = vec![false; CELLS];
        let mut queue: VecDeque<(i32, i32)> = VecDeque::new();
        let bottom: i32 = HEIGHT as i32 - 1;
        let mut x: i32 = 0;
        while x < WIDTH as i32
            invariant
                self.wf(),
                0 <= x <= WIDTH,
                bottom == HEIGHT - 1,
                anchored@.len() == CELLS,
                forall|a: int, b: int|
                    #![trigger cell(a, b)]
                    in_grid(a, b) ==> (anchored@[cell(a, b)] <==> (b == HEIGHT - 1 && a < x
                        && self.tiles@[cell(a, b)] == Tile::Earth)),
                forall|i: int|
                    0 <= i < queue@.len() ==> in_grid(#[trigger] queue@[i].0 as int, queue@[i].1 as int)
                        && anchored@[cell(queue@[i].0 as int, queue@[i].1 as int)],
                forall|a: int, b: int|
                    #![trigger cell(a, b)]
                    in_grid(a, b) && anchored@[cell(a, b)] ==> queue@.contains((a as i32, b as i32)),
            decreases WIDTH - x,
        {
            let idx = bottom as usize * WIDTH + x as usize;
            let ghost a0 = anchored@;
            let ghost q0 = queue@;
            if self.tiles[idx] == Tile::Earth {
                anchored.set(idx, true);
                queue.push_back((x, bottom));
            }
            proof {
                assert forall|a: int, b: int|
                    #![trigger cell(a, b)]
                    in_grid(a, b) && (a != x || b != bottom) implies anchored@[cell(a, b)] == a0[cell(a, b)] by {
                    assert(cell(a, b) != cell(x as int, bottom as int));
                }
                assert forall|a: int, b: int|
                    #![trigger cell(a, b)]
                    in_grid(a, b) && anchored@[cell(a, b)] implies queue@.contains((a as i32, b as i32)) by {
                    if a == x && b == bottom {
                        assert(queue@[queue@.len() - 1] == (a as i32, b as i32));
                    } else {
                        assert(q0.contains((a as i32, b as i32)));
                        let i = choose|i: int| 0 <= i < q0.len() && q0[i] == (a as i32, b as i32);
                        assert(queue@[i] == q0[i]);
                    }
                }
                assert forall|i: int|
                    0 <= i < queue@.len() implies in_grid(#[trigger] queue@[i].0 as int, queue@[i].1 as int)
                        && anchored@[cell(queue@[i].0 as int, queue@[i].1 as int)] by {
                    if i < q0.len() {
                        assert(queue@[i] == q0[i]);
                        assert(in_grid(q0[i].0 as int, q0[i].1 as int));
                        assert(cell(q0[i].0 as int, q0[i].1 as int) != cell(x as int, bottom as int) ==> anchored@[cell(q0[i].0 as int, q0[i].1 as int)] == a0[cell(q0[i].0 as int, q0[i].1 as int)]);
                    } else {
                        assert(queue@[i] == (x, bottom));
                    }
                }
            }
            x = x + 1;
        }
        proof {
            assert forall|a: int, b: int|
                #![trigger cell(a, b)]
                in_grid(a, b) && anchored@[cell(a, b)] implies is_anchored(self.tiles@, a, b) by {
                assert(anchored_within(self.tiles@, 0, a, b));
            }
            assert(fill_inv(self.tiles@, anchored@, queue@, -1, -1));
        }
        while queue.len() > 0
            invariant
                self.wf(),
                fill_inv(self.tiles@, anchored@, queue@, -1, -1),
            decreases 2 * false_count(anchored@) + queue@.len(),
        {
            let ghost q0 = queue@;
            let (x, y) = queue.pop_front().unwrap();
            proof {
                assert(in_grid(q0[0].0 as int, q0[0].1 as int));
                assert(is_anchored(self.tiles@, x as int, y as int));
                assert forall|a: int, b: int|
                    #![trigger cell(a, b)]
                    in_grid(a, b) && anchored@[cell(a, b)] implies (queue@.contains((a as i32, b as i32))
                        || closed_at(anchored@, self.tiles@, a, b) || (a == x && b == y)) by {
                    if q0.contains((a as i32, b as i32)) && !(a == x && b == y) {
                        let i = choose|i: int| 0 <= i < q0.len() && q0[i] == (a as i32, b as i32);
                        assert(i != 0);
                        assert(queue@[i - 1] == q0[i]);
                    }
                }
                assert forall|i: int|
                    0 <= i < queue@.len() implies in_grid(#[trigger] queue@[i].0 as int, queue@[i].1 as int)
                        && anchored@[cell(queue@[i].0 as int, queue@[i].1 as int)] by {
                    assert(queue@[i] == q0[i + 1]);
                }
            }
            let ghost k0 = choose|k: nat| anchored_within(self.tiles@, k, x as int, y as int);
            self.visit(&mut anchored, &mut queue, x, y, x - 1, y, Ghost(k0));
            let ghost a1 = anchored@;
            self.visit(&mut anchored, &mut queue, x, y, x + 1, y, Ghost(k0));
            let ghost a2 = anchored@;
            self.visit(&mut anchored, &mut queue, x, y, x, y - 1, Ghost(k0));
            let ghost a3 = anchored@;
            self.visit(&mut anchored, &mut queue, x, y, x, y + 1, Ghost(k0));
            proof {
                let t = self.tiles@;
                assert(neighbor_ok(a1, t, x - 1, y as int));
                assert(neighbor_ok(anchored@, t, x - 1, y as int));
                assert(neighbor_ok(a2, t, x + 1, y as int));
                assert(neighbor_ok(anchored@, t, x + 1, y as int));
                assert(neighbor_ok(a3, t, x as int, y - 1));
                assert(neighbor_ok(anchored@, t, x as int, y - 1));
                assert(closed_at(anchored@, t, x as int, y as int));
                assert(fill_inv(t, anchored@, queue@, -1, -1));
            }
        }
        proof {
            assert forall|x: int, y: int|
                #![trigger cell(x, y)]
                in_grid(x, y) implies (anchored@[cell(x, y)] <==> is_anchored(self.tiles@, x, y)) by {
                if is_anchored(self.tiles@, x, y) {
                    let k = choose|k: nat| anchored_within(self.tiles@, k, x, y);
                    assert forall|a: int, b: int| #![trigger cell(a, b)] in_grid(a, b) && anchored@[cell(a, b)] implies closed_at(anchored@, self.tiles@, a, b) by {
                        assert(!queue@.contains((a as i32, b as i32)));
                    }
                    lemma_closed_covers_anchored(self.tiles@, anchored@, k, x, y);
                }
            }
        }
        anchored
    }
}


/// Row-major coordinates of an index, and back.
pub proof fn lemma_cell_coords(x: int, y: int)
    requires
        in_grid(x, y),
    ensures
        0 <= cell(x, y) < CELLS,
        cell(x, y) % (WIDTH as int) == x,
        cell(x, y) / (WIDTH as int) == y,
{
    vstd::arithmetic::div_mod::lemma_fundamental_div_mod_converse(cell(x, y), WIDTH as int, y, x);
}

pub proof fn lemma_index_coords(i: int)
    requires
        0 <= i < CELLS,
    ensures
        in_grid(i % (WIDTH as int), i / (WIDTH as int)),
        cell(i % (WIDTH as int), i / (WIDTH as int)) == i,
{
    vstd::arithmetic::div_mod::lemma_fundamental_div_mod(i, WIDTH as int);
    vstd::arithmetic::div_mod::lemma_div_pos_is_pos(i, WIDTH as int);
    vstd::arithmetic::div_mod::lemma_mod_pos_bound(i, WIDTH as int);
    vstd::arithmetic::div_mod::lemma_div_is_ordered(i, CELLS as int, WIDTH as int);
    assert((CELLS as int) / (WIDTH as int) == HEIGHT);
    if i / (WIDTH as int) >= HEIGHT {
        assert(i >= HEIGHT * WIDTH);
    }
}

pub open spec fn saturating_inc(h: u16) -> u16 {
    if h < 0xffff { (h + 1) as u16 } else { 0xffff }
}

/// One tick of hanging: anchored earth stops hanging, loose earth hangs one tick
/// longer (saturating), air is left as it was.
pub open spec fn aged(v: TerrainView) -> TerrainView {
    TerrainView {
        tiles: v.tiles,
        cohesion: v.cohesion,
        hang: Seq::new(
            CELLS as nat,
            |i: int|
                if v.tiles[i] == Tile::Earth {
                    if is_anchored(v.tiles, i % (WIDTH as int), i / (WIDTH as int)) {
                        0
                    } else {
                        saturating_inc(v.hang[i])
                    }
                } else {
                    v.hang[i]
                },
        ),
    }
}

/// The loose earth that has hung long enough to fall this tick.
pub open spec fn falling(v: TerrainView) -> Seq<bool> {
    Seq::new(
        CELLS as nat,
        |i: int|
            v.tiles[i] == Tile::Earth && !is_anchored(v.tiles, i % (WIDTH as int), i / (WIDTH as int))
                && saturating_inc(v.hang[i]) >= HANG_FALL_DELAY,
    )
}

/// Where a falling cell at `(x, y)` is after this tick: one row lower when the cell
/// below it is open air inside the grid, else where it is.
pub open spec fn drop_target(tiles: Seq<Tile>, x: int, y: int) -> int {
    if y + 1 < HEIGHT && tile_at(tiles, x, y + 1) == Tile::Air {
        y + 1
    } else {
        y
    }
}

/// The earth at `(x, y)` falls one row, carrying its cohesion (at least 1) and its
/// hang time, so that earth still unsupported keeps falling a row per tick.
pub open spec fn dropped(v: TerrainView, x: int, y: int) -> TerrainView {
    let ny = drop_target(v.tiles, x, y);
    if tile_at(v.tiles, x, y) != Tile::Earth || ny == y {
        v
    } else {
        let src = cell(x, y);
        let dst = cell(x, ny);
        let moved = if v.cohesion[src] >= 1 { v.cohesion[src] } else { 1u8 };
        TerrainView {
            tiles: v.tiles.update(src, Tile::Air).update(dst, Tile::Earth),
            cohesion: v.cohesion.update(src, 0).update(dst, moved),
            hang: v.hang.update(src, 0).update(dst, v.hang[src]),
        }
    }
}

/// The first `n` cells of the fall order (rows from the floor up, each row from the
/// left) applied in turn: each marked cell drops.
pub open spec fn drop_pass(v: TerrainView, marks: Seq<bool>, n: nat) -> TerrainView
    decreases n,
{
    if n == 0 {
        v
    } else {
        let p = n - 1;
        let x = p % (WIDTH as int);
        let y = HEIGHT - 1 - p / (WIDTH as int);
        let prev = drop_pass(v, marks, (n - 1) as nat);
        if marks[cell(x, y)] {
            dropped(prev, x, y)
        } else {
            prev
        }
    }
}

impl Terrain {
    /// Advances every cell's hang time by one tick and reports which cells fall.
    fn age_hanging(&mut self, anchored: &Vec<bool>) -> (falls: Vec<bool>)
        requires
            old(self).wf(),
            anchored@.len() == CELLS,
            forall|x: int, y: int|
                #![trigger cell(x, y)]
                in_grid(x, y) ==> (anchored@[cell(x, y)] <==> is_anchored(old(self).tiles@, x, y)),
        ensures
            final(self).wf(),
            final(self)@ == aged(old(self)@),
            falls@ == falling(old(self)@),
    {
        let ghost v0 = self@;
        let mut falls: Vec<bool> = vec![false; CELLS];
        let mut i: usize = 0;
        while i < CELLS
            invariant
                self.wf(),
                v0 == old(self)@,
                self.tiles@ == v0.tiles,
                self.cohesion@ == v0.cohesion,
                falls@.len() == CELLS,
                anchored@.len() == CELLS,
                0 <= i <= CELLS,
                forall|x: int, y: int|
                    #![trigger cell(x, y)]
                    in_grid(x, y) ==> (anchored@[cell(x, y)] <==> is_anchored(v0.tiles, x, y)),
                forall|j: int| 0 <= j < i ==> #[trigger] self.hang@[j] == aged(v0).hang[j],
                forall|j: int| 0 <= j < i ==> #[trigger] falls@[j] == falling(v0)[j],
                forall|j: int| i <= j < CELLS ==> #[trigger] self.hang@[j] == v0.hang[j],
                forall|j: int| i <= j < CELLS ==> !(#[trigger] falls@[j]),
                view_wf(v0),
            decreases CELLS - i,
        {
            proof {
                lemma_index_coords(i as int);
            }
            let ghost h0 = self.hang@;
            let ghost f0 = falls@;
            if self.tiles[i] == Tile::Earth {
                if anchored[i] {
                    self.hang.set(i, 0);
                } else {
                    let h = self.hang[i];
                    let nh = if h < 0xffff { h + 1 } else { 0xffff };
                    self.hang.set(i, nh);
                    assert(nh == saturating_inc(v0.hang[i as int]));
                    assert(!is_anchored(v0.tiles, (i as int) % (WIDTH as int), (i as int) / (WIDTH as int)));
                    if nh >= HANG_FALL_DELAY {
                        falls.set(i, true);
                        assert(falls@[i as int]);
                        assert(falling(v0)[i as int]);
                    }
                }
            }
            proof {
                assert(self.hang@[i as int] == aged(v0).hang[i as int]);
                assert(falls@[i as int] == falling(v0)[i as int]);
                assert forall|j: int| 0 <= j < CELLS && j != i implies self.hang@[j] == h0[j] by {
                }
                assert forall|j: int| 0 <= j < CELLS && j != i implies falls@[j] == f0[j] by {
                }
            }
            i = i + 1;
        }
        proof {
            assert(self.hang@ =~= aged(v0).hang);
            assert(falls@ =~= falling(v0));
        }
        falls
    }

    /// Lets the earth at `(x, y)` fall one row into the air beneath it.
    fn drop_cell(&mut self, x: i32, y: i32)
        requires
            old(self).wf(),
            in_grid(x as int, y as int),
        ensures
            final(self).wf(),
            final(self)@ == dropped(old(self)@, x as int, y as int),
    {
        if self.tile(x, y) != Tile::Earth {
            return;
        }
        if y + 1 < HEIGHT as i32 && self.tile(x, y + 1) == Tile::Air {
            let ny = y + 1;
            let src = y as usize * WIDTH + x as usize;
            let dst = ny as usize * WIDTH + x as usize;
            proof {
                lemma_cell_coords(x as int, y as int);
                lemma_cell_coords(x as int, ny as int);
            }
            let c = self.cohesion[src];
            let moved = if c >= 1 { c } else { 1 };
            let h = self.hang[src];
            self.set_tile(x, y, Tile::Air);
            self.set_tile(x, ny, Tile::Earth);
            self.cohesion.set(dst, moved);
            self.hang.set(src, 0);
            self.hang.set(dst, h);
        }
        proof {
            assert(self@ =~= dropped(old(self)@, x as int, y as int));
        }
    }

    /// Lets every marked cell fall, rows from the floor up and each row from the left.
    fn drop_marked(&mut self, marks: &Vec<bool>)
        requires
            old(self).wf(),
            marks@.len() == CELLS,
        ensures
            final(self).wf(),
            final(self)@ == drop_pass(old(self)@, marks@, CELLS as nat),
    {
        let ghost v0 = self@;
        let mut r: usize = 0;
        while r < HEIGHT
            invariant
                self.wf(),
                v0 == old(self)@,
                marks@.len() == CELLS,
                0 <= r <= HEIGHT,
                self@ == drop_pass(v0, marks@, (r * WIDTH) as nat),
            decreases HEIGHT - r,
        {
            let y = (HEIGHT - 1 - r) as i32;
            let mut x: usize = 0;
            while x < WIDTH
                invariant
                    self.wf(),
                    v0 == old(self)@,
                    marks@.len() == CELLS,
                    0 <= r < HEIGHT,
                    y == HEIGHT - 1 - r,
                    0 <= x <= WIDTH,
                    self@ == drop_pass(v0, marks@, (r * WIDTH + x) as nat),
                decreases WIDTH - x,
            {
                proof {
                    let p = r * WIDTH + x;
                    vstd::arithmetic::div_mod::lemma_fundamental_div_mod_converse(p as int, WIDTH as int, r as int, x as int);
                    lemma_cell_coords(x as int, y as int);
                }
                if marks[y as usize * WIDTH + x] {
                    self.drop_cell(x as i32, y);
                }
                x = x + 1;
            }
            r = r + 1;
        }
    }
}


/// Height of column `x`'s surface, or the floor's depth when the column is empty.
pub open spec fn height_or_floor(tiles: Seq<Tile>, x: int) -> int {
    match surface_of(tiles, x) {
        Some(y) => y,
        None => HEIGHT as int,
    }
}

/// Whether the top cell of column `x` may slough onto its neighbour on the left
/// (`go_left`) or right: the top rests on earth, one side drops away by at least the
/// talus, the move goes to the lower side (either side when both drop equally), and
/// the neighbour column has air just above its own surface.
pub open spec fn slide_legal(v: TerrainView, x: int, go_left: bool) -> bool {
    let t = v.tiles;
    let top = height_or_floor(t, x);
    let ld = height_or_floor(t, x - 1) - top;
    let rd = height_or_floor(t, x + 1) - top;
    let nx = if go_left { x - 1 } else { x + 1 };
    let ty = height_or_floor(t, nx) - 1;
    &&& 0 <= x < WIDTH
    &&& surface_of(t, x) is Some
    &&& top < HEIGHT - 1
    &&& tile_at(t, x, top + 1) == Tile::Earth
    &&& (ld >= TALUS || rd >= TALUS)
    &&& (if ld > rd { go_left } else if ld < rd { !go_left } else { true })
    &&& 0 <= nx < WIDTH
    &&& ty >= 0
    &&& tile_at(t, nx, ty) == Tile::Air
}

/// The top cell of column `x` moved onto the neighbouring column, keeping its
/// cohesion (at least 1); neither cell keeps any hang time.
pub open spec fn slid(v: TerrainView, x: int, go_left: bool) -> TerrainView {
    let t = v.tiles;
    let top = height_or_floor(t, x);
    let nx = if go_left { x - 1 } else { x + 1 };
    let ty = height_or_floor(t, nx) - 1;
    let src = cell(x, top);
    let dst = cell(nx, ty);
    let moved = if v.cohesion[src] >= 1 { v.cohesion[src] } else { 1u8 };
    TerrainView {
        tiles: t.update(src, Tile::Air).update(dst, Tile::Earth),
        cohesion: v.cohesion.update(src, 0).update(dst, moved),
        hang: v.hang.update(src, 0).update(dst, 0),
    }
}

/// Applies legal slides in order; `None` if one of them is not legal when its turn
/// comes.
pub open spec fn apply_slides(v: TerrainView, moves: Seq<(int, bool)>) -> Option<TerrainView>
    decreases moves.len(),
{
    if moves.len() == 0 {
        Some(v)
    } else {
        match apply_slides(v, moves.drop_last()) {
            Some(w) => if slide_legal(w, moves.last().0, moves.last().1) {
                Some(slid(w, moves.last().0, moves.last().1))
            } else {
                None
            },
            None => None,
        }
    }
}

/// `b` is what some sequence of legal slides makes of `a`.
pub open spec fn slides_to(a: TerrainView, b: TerrainView) -> bool {
    exists|moves: Seq<(int, bool)>| apply_slides(a, moves) == Some(b)
}

/// What one settling tick may make of `v`: hang times advance, loose earth that has
/// hung long enough drops, then slopes steeper than the talus slough off.
pub open spec fn settles_to(v: TerrainView, w: TerrainView) -> bool {
    slides_to(drop_pass(aged(v), falling(v), CELLS as nat), w)
}

/// One settling tick with the slide pass's draws given: hang times advance, loose
/// earth that has hung long enough falls a row, then one slide pass runs.
pub open spec fn settled(v: TerrainView, reverse: bool, coins: Seq<bool>) -> TerrainView {
    slide_pass(drop_pass(aged(v), falling(v), CELLS as nat), reverse, coins)
}

proof fn lemma_first_earth(tiles: Seq<Tile>, x: int, y0: int)
    ensures
        first_earth(tiles, x, y0) matches Some(y) ==> y0 <= y < HEIGHT && 0 <= y
            && tile_at(tiles, x, y) == Tile::Earth,
    decreases HEIGHT - y0,
{
    if y0 < HEIGHT && y0 >= 0 && tile_at(tiles, x, y0) != Tile::Earth {
        lemma_first_earth(tiles, x, y0 + 1);
    }
}

proof fn lemma_drop_target(tiles: Seq<Tile>, x: int, y: int)
    requires
        0 <= y < HEIGHT,
    ensures
        y <= drop_target(tiles, x, y) < HEIGHT,
        drop_target(tiles, x, y) != y ==> tile_at(tiles, x, drop_target(tiles, x, y)) == Tile::Air,
{
}

proof fn lemma_move_keeps_earth(t: Seq<Tile>, src: int, dst: int)
    requires
        0 <= src < t.len(),
        0 <= dst < t.len(),
        src != dst,
        t[src] == Tile::Earth,
        t[dst] == Tile::Air,
    ensures
        earth_in(t.update(src, Tile::Air).update(dst, Tile::Earth)) == earth_in(t),
{
    lemma_earth_in_update(t, src, Tile::Air);
    lemma_earth_in_update(t.update(src, Tile::Air), dst, Tile::Earth);
}

proof fn lemma_drop_pass_keeps_earth(v: TerrainView, marks: Seq<bool>, n: nat)
    requires
        view_wf(v),
        marks.len() == CELLS,
        n <= CELLS,
    ensures
        view_wf(drop_pass(v, marks, n)),
        earth_in(drop_pass(v, marks, n).tiles) == earth_in(v.tiles),
    decreases n,
{
    if n > 0 {
        let p = n - 1;
        let x = p % (WIDTH as int);
        let y = HEIGHT - 1 - p / (WIDTH as int);
        lemma_drop_pass_keeps_earth(v, marks, (n - 1) as nat);
        let prev = drop_pass(v, marks, (n - 1) as nat);
        lemma_index_coords(p);
        assert(in_grid(x, y)) by {
            vstd::arithmetic::div_mod::lemma_div_is_ordered(p, CELLS as int, WIDTH as int);
        }
        if marks[cell(x, y)] {
            let ny = drop_target(prev.tiles, x, y);
            lemma_drop_target(prev.tiles, x, y);
            if tile_at(prev.tiles, x, y) == Tile::Earth && ny != y {
                lemma_move_keeps_earth(prev.tiles, cell(x, y), cell(x, ny));
            }
        }
    }
}

proof fn lemma_slides_keep_earth(v: TerrainView, moves: Seq<(int, bool)>)
    requires
        view_wf(v),
        apply_slides(v, moves) is Some,
    ensures
        view_wf(apply_slides(v, moves)->0),
        earth_in(apply_slides(v, moves)->0.tiles) == earth_in(v.tiles),
    decreases moves.len(),
{
    if moves.len() > 0 {
        lemma_slides_keep_earth(v, moves.drop_last());
        let w = apply_slides(v, moves.drop_last())->0;
        let x = moves.last().0;
        let go_left = moves.last().1;
        let t = w.tiles;
        let top = height_or_floor(t, x);
        let nx = if go_left { x - 1 } else { x + 1 };
        let ty = height_or_floor(t, nx) - 1;
        lemma_first_earth(t, x, 0);
        lemma_first_earth(t, nx, 0);
        lemma_move_keeps_earth(t, cell(x, top), cell(nx, ty));
    }
}

/// Settling never creates or destroys earth: loose cells fall and slopes slough, but
/// every cell of earth is still somewhere.
pub proof fn lemma_settling_conserves_earth(v: TerrainView, w: TerrainView)
    requires
        view_wf(v),
        settles_to(v, w),
    ensures
        view_wf(w),
        earth_in(w.tiles) == earth_in(v.tiles),
{
    let moves = choose|moves: Seq<(int, bool)>| apply_slides(drop_pass(aged(v), falling(v), CELLS as nat), moves) == Some(w);
    lemma_drop_pass_keeps_earth(aged(v), falling(v), CELLS as nat);
    lemma_slides_keep_earth(drop_pass(aged(v), falling(v), CELLS as nat), moves);
}

/// Whether the top of column `x` is steep enough to slough: the column holds earth,
/// its top is above the floor and rests on earth, and one side drops away by at least
/// the talus.
pub open spec fn slide_candidate(t: Seq<Tile>, x: int) -> bool {
    let top = height_or_floor(t, x);
    &&& surface_of(t, x) is Some
    &&& top < HEIGHT - 1
    &&& tile_at(t, x, top + 1) == Tile::Earth
    &&& (height_or_floor(t, x - 1) - top >= TALUS || height_or_floor(t, x + 1) - top >= TALUS)
}

/// Column `x`'s turn in a slide pass, given the coins still to be drawn: a candidate
/// top draws a coin that says whether it slides; a sliding top between two equal
/// drops draws a second coin for its side (`true` is left); it then moves onto the
/// lower neighbour when that column is in the grid and has air above its surface.
/// Returns the terrain after the turn and the coins left.
pub open spec fn column_step(v: TerrainView, x: int, coins: Seq<bool>) -> (TerrainView, Seq<bool>) {
    let t = v.tiles;
    let top = height_or_floor(t, x);
    let ld = height_or_floor(t, x - 1) - top;
    let rd = height_or_floor(t, x + 1) - top;
    if !slide_candidate(t, x) || coins.len() == 0 {
        (v, coins)
    } else if !coins[0] {
        (v, coins.skip(1))
    } else if ld == rd && coins.len() < 2 {
        (v, Seq::empty())
    } else {
        let go_left = if ld > rd {
            true
        } else if ld < rd {
            false
        } else {
            coins[1]
        };
        let rest = if ld == rd {
            coins.skip(2)
        } else {
            coins.skip(1)
        };
        let nx = if go_left { x - 1 } else { x + 1 };
        let ty = height_or_floor(t, nx) - 1;
        if 0 <= nx < WIDTH && ty >= 0 && tile_at(t, nx, ty) == Tile::Air {
            (slid(v, x, go_left), rest)
        } else {
            (v, rest)
        }
    }
}

/// The column visited `j`-th by a pass: left to right, or right to left when
/// `reverse`.
pub open spec fn pass_column(reverse: bool, j: int) -> int {
    if reverse {
        WIDTH - 1 - j
    } else {
        j
    }
}

/// The first `n` turns of a slide pass.
pub open spec fn slide_steps(v: TerrainView, reverse: bool, coins: Seq<bool>, n: nat) -> (TerrainView, Seq<bool>)
    decreases n,
{
    if n == 0 {
        (v, coins)
    } else {
        let prev = slide_steps(v, reverse, coins, (n - 1) as nat);
        column_step(prev.0, pass_column(reverse, n - 1), prev.1)
    }
}

/// One slide pass over every column, in the order `reverse` picks, with the coins
/// drawn along the way.
pub open spec fn slide_pass(v: TerrainView, reverse: bool, coins: Seq<bool>) -> TerrainView {
    slide_steps(v, reverse, coins, WIDTH as nat).0
}

/// Sliding only moves earth around.
pub proof fn lemma_sliding_conserves_earth(v: TerrainView, w: TerrainView)
    requires
        view_wf(v),
        slides_to(v, w),
    ensures
        view_wf(w),
        earth_in(w.tiles) == earth_in(v.tiles),
{
    let moves = choose|moves: Seq<(int, bool)>| apply_slides(v, moves) == Some(w);
    lemma_slides_keep_earth(v, moves);
}

impl Terrain {
    /// Column `x`'s turn in a slide pass; returns the coins it drew and the slide it
    /// made, if any.
    fn slide_column(&mut self, rng: &mut SmallRng, x: i32) -> (r: (Ghost<Seq<bool>>, Ghost<Option<bool>>))
        requires
            old(self).wf(),
            0 <= x < WIDTH,
        ensures
            final(self).wf(),
            forall|rest: Seq<bool>| #[trigger] column_step(old(self)@, x as int, r.0@ + rest) == (final(self)@, rest),
            r.1@ is None ==> final(self)@ == old(self)@,
            r.1@ matches Some(go_left) ==> slide_legal(old(self)@, x as int, go_left)
                && final(self)@ == slid(old(self)@, x as int, go_left),
    {
        let ghost v = self@;
        let top = match self.surface_height(x) {
            Some(t) => t,
            None => {
                proof {
                    assert forall|rest: Seq<bool>| #[trigger] column_step(v, x as int, Seq::empty() + rest) == (v, rest) by {
                        assert(Seq::<bool>::empty() + rest =~= rest);
                    }
                }
                return (Ghost(Seq::empty()), Ghost(None));
            },
        };
        let left = match self.surface_height(x - 1) {
            Some(l) => l,
            None => HEIGHT as i32,
        };
        let right = match self.surface_height(x + 1) {
            Some(r) => r,
            None => HEIGHT as i32,
        };
        let left_diff = left - top;
        let right_diff = right - top;
        if top >= HEIGHT as i32 - 1 || self.tile(x, top + 1) != Tile::Earth || (left_diff < TALUS
            && right_diff < TALUS) {
            proof {
                assert(!slide_candidate(v.tiles, x as int));
                assert forall|rest: Seq<bool>| #[trigger] column_step(v, x as int, Seq::empty() + rest) == (v, rest) by {
                    assert(Seq::<bool>::empty() + rest =~= rest);
                }
            }
            return (Ghost(Seq::empty()), Ghost(None));
        }
        proof {
            assert(slide_candidate(v.tiles, x as int));
        }
        let src = top as usize * WIDTH + x as usize;
        let c = self.cohesion[src];
        let cohesion: u32 = if c >= 1 { c as u32 } else { 1 };
        let chance = if cohesion <= 11 {
            random_ratio(rng, 11, 20 * cohesion)
        } else {
            random_ratio(rng, 1, 20)
        };
        if !chance {
            proof {
                assert forall|rest: Seq<bool>| #[trigger] column_step(v, x as int, seq![false] + rest) == (v, rest) by {
                    assert((seq![false] + rest).skip(1) =~= rest);
                }
            }
            let ghost declined: Seq<bool> = seq![false];
            return (Ghost(declined), Ghost(None));
        }
        let tie = left_diff == right_diff;
        let go_left = if left_diff > right_diff {
            true
        } else if left_diff < right_diff {
            false
        } else {
            random_ratio(rng, 1, 2)
        };
        let ghost drawn: Seq<bool> = if tie { seq![true, go_left] } else { seq![true] };
        let nx = if go_left { x - 1 } else { x + 1 };
        let target_y = if 0 <= nx && nx < WIDTH as i32 {
            match self.surface_height(nx) {
                Some(y) => y - 1,
                None => HEIGHT as i32 - 1,
            }
        } else {
            -1
        };
        if nx < 0 || nx >= WIDTH as i32 || target_y < 0 || self.tile(nx, target_y) != Tile::Air {
            proof {
                assert forall|rest: Seq<bool>| #[trigger] column_step(v, x as int, drawn + rest) == (v, rest) by {
                    if tie {
                        assert((drawn + rest).skip(2) =~= rest);
                        assert((drawn + rest)[1] == go_left);
                    } else {
                        assert((drawn + rest).skip(1) =~= rest);
                    }
                    assert((drawn + rest)[0]);
                }
            }
            return (Ghost(drawn), Ghost(None));
        }
        proof {
            assert(slide_legal(v, x as int, go_left));
        }
        let dst = target_y as usize * WIDTH + nx as usize;
        let prev = self.cohesion[src];
        self.set_tile(x, top, Tile::Air);
        self.set_tile(nx, target_y, Tile::Earth);
        let moved = if prev >= 1 { prev } else { 1 };
        self.cohesion.set(dst, moved);
        self.hang.set(src, 0);
        self.hang.set(dst, 0);
        proof {
            assert(self@ =~= slid(v, x as int, go_left));
            assert forall|rest: Seq<bool>| #[trigger] column_step(v, x as int, drawn + rest) == (self@, rest) by {
                if tie {
                    assert((drawn + rest).skip(2) =~= rest);
                    assert((drawn + rest)[1] == go_left);
                } else {
                    assert((drawn + rest).skip(1) =~= rest);
                }
                assert((drawn + rest)[0]);
            }
        }
        (Ghost(drawn), Ghost(Some(go_left)))
    }

    /// Lets over-steep column tops slough onto a lower neighbour in one pass over the
    /// columns, left to right or right to left (a coin flip): `slide_pass` with the
    /// coins drawn. A candidate top slides with chance 0.55 divided by its cohesion,
    /// but never below one in twenty; a top between two equal drops picks its side
    /// with a coin flip.
    pub fn slide_terrain(&mut self, rng: &mut SmallRng)
        requires
            old(self).wf(),
        ensures
            final(self).wf(),
            slides_to(old(self)@, final(self)@),
            exists|reverse: bool, coins: Seq<bool>| final(self)@ == slide_pass(old(self)@, reverse, coins),
    {
        let ghost v0 = self@;
        let ghost mut moves: Seq<(int, bool)> = Seq::empty();
        let ghost mut drawn: Seq<bool> = Seq::empty();
        let reverse = random_ratio(rng, 1, 2);
        proof {
            assert forall|rest: Seq<bool>| #[trigger] slide_steps(v0, reverse, drawn + rest, 0) == (v0, rest) by {
                assert(drawn + rest =~= rest);
            }
        }
        let mut i: i32 = 0;
        while i < WIDTH as i32
            invariant
                self.wf(),
                v0 == old(self)@,
                0 <= i <= WIDTH,
                apply_slides(v0, moves) == Some(self@),
                forall|rest: Seq<bool>| #[trigger] slide_steps(v0, reverse, drawn + rest, i as nat) == (self@, rest),
            decreases WIDTH - i,
        {
            let x = if reverse { WIDTH as i32 - 1 - i } else { i };
            let ghost before = self@;
            let (e, mv) = self.slide_column(rng, x);
            proof {
                assert forall|rest: Seq<bool>| #[trigger] slide_steps(v0, reverse, (drawn + e@) + rest, (i + 1) as nat) == (self@, rest) by {
                    assert((drawn + e@) + rest =~= drawn + (e@ + rest));
                    assert(slide_steps(v0, reverse, drawn + (e@ + rest), i as nat) == (before, e@ + rest));
                    assert(pass_column(reverse, i as int) == x);
                }
                match mv@ {
                    Some(go_left) => {
                        let m = (x as int, go_left);
                        assert(moves.push(m).drop_last() =~= moves);
                        moves = moves.push(m);
                    },
                    None => {},
                }
                drawn = drawn + e@;
            }
            i = i + 1;
        }
        proof {
            assert(i == WIDTH);
            assert(slide_steps(v0, reverse, drawn + Seq::<bool>::empty(), i as nat) == (self@, Seq::<bool>::empty()));
            assert(drawn + Seq::<bool>::empty() =~= drawn);
            assert(self@ == slide_pass(v0, reverse, drawn));
        }
    }

    /// One settling tick: hang times advance, loose earth that has hung long enough
    /// falls one row (and keeps falling a row each tick while unsupported), then slopes
    /// slough off.
    pub fn settle(&mut self, rng: &mut SmallRng)
        requires
            old(self).wf(),
        ensures
            final(self).wf(),
            settles_to(old(self)@, final(self)@),
            exists|reverse: bool, coins: Seq<bool>| final(self)@ == settled(old(self)@, reverse, coins),
    {
        let anchored = self.anchor_map();
        let falls = self.age_hanging(&anchored);
        self.drop_marked(&falls);
        let ghost dropped_view = self@;
        self.slide_terrain(rng);
        proof {
            let (reverse, coins) = choose|reverse: bool, coins: Seq<bool>| self@ == slide_pass(dropped_view, reverse, coins);
            assert(self@ == settled(old(self)@, reverse, coins));
        }
    }
}


/// Column `x` has a growth site low enough to accept new earth.
pub open spec fn open_site(tiles: Seq<Tile>, x: int) -> bool {
    match growth_site(tiles, x) {
        Some(top) => top >= max_growth_top(),
        None => false,
    }
}

/// The highest row at which a growth site still accepts new earth.
pub open spec fn max_growth_top() -> int {
    HEIGHT * (100 - GROWTH_HEIGHT_CAP_PCT) / 100
}

/// How many cells one growth event may add, given the arena's earth count and the
/// scaled deficit `scaled` (the empty share of the earth cap, times the largest burst,
/// rounded down): the deficit clamped to the burst limits, and never past the cap.
pub open spec fn growth_burst(earth: int, scaled: int) -> int {
    let clamped = if scaled < GROWTH_MIN_BURST {
        GROWTH_MIN_BURST as int
    } else if scaled > GROWTH_MAX_BURST {
        GROWTH_MAX_BURST as int
    } else {
        scaled
    };
    if clamped < TERRAIN_CAP - earth { clamped } else { TERRAIN_CAP - earth }
}

proof fn lemma_growth_top(tiles: Seq<Tile>, x: int, y: int)
    requires
        y < HEIGHT,
        forall|y2: int| y < y2 < HEIGHT ==> tile_at(tiles, x, y2) == Tile::Earth,
    ensures
        growth_top_from(tiles, x, y) >= 0 ==> {
            &&& growth_top_from(tiles, x, y) <= y
            &&& tile_at(tiles, x, growth_top_from(tiles, x, y)) == Tile::Air
            &&& forall|y2: int| growth_top_from(tiles, x, y) < y2 < HEIGHT ==> tile_at(tiles, x, y2) == Tile::Earth
        },
    decreases y + 1,
{
    if y >= 0 && tile_at(tiles, x, y) == Tile::Earth {
        lemma_growth_top(tiles, x, y - 1);
    }
}

/// A growth site is air with solid earth beneath it all the way to the floor.
pub proof fn lemma_growth_site(tiles: Seq<Tile>, x: int)
    requires
        0 <= x < WIDTH,
        tiles.len() == CELLS,
    ensures
        growth_site(tiles, x) matches Some(top) ==> {
            &&& 0 <= top < HEIGHT
            &&& tiles[cell(x, top)] == Tile::Air
            &&& forall|y2: int| top < y2 < HEIGHT ==> tiles[#[trigger] cell(x, y2)] == Tile::Earth
        },
{
    lemma_growth_top(tiles, x, HEIGHT - 1);
    if growth_site(tiles, x) is Some {
        let top = growth_site(tiles, x)->0;
        assert forall|y2: int| top < y2 < HEIGHT implies tiles[#[trigger] cell(x, y2)] == Tile::Earth by {
            assert(tile_at(tiles, x, y2) == Tile::Earth);
        }
    }
}

/// Earth kept from `a` to `b` keeps the count from shrinking; one more cell of earth
/// makes it grow.
pub proof fn lemma_earth_in_monotone(a: Seq<Tile>, b: Seq<Tile>)
    requires
        a.len() == b.len(),
        forall|i: int| 0 <= i < a.len() && a[i] == Tile::Earth ==> #[trigger] b[i] == Tile::Earth,
    ensures
        earth_in(a) <= earth_in(b),
        (exists|i: int| 0 <= i < a.len() && a[i] != Tile::Earth && #[trigger] b[i] == Tile::Earth) ==> earth_in(a) < earth_in(b),
    decreases a.len(),
{
    if a.len() > 0 {
        let a2 = a.drop_last();
        let b2 = b.drop_last();
        assert forall|i: int| 0 <= i < a2.len() && a2[i] == Tile::Earth implies #[trigger] b2[i] == Tile::Earth by {
            assert(a[i] == Tile::Earth);
        }
        lemma_earth_in_monotone(a2, b2);
        if exists|i: int| 0 <= i < a.len() && a[i] != Tile::Earth && #[trigger] b[i] == Tile::Earth {
            let i = choose|i: int| 0 <= i < a.len() && a[i] != Tile::Earth && #[trigger] b[i] == Tile::Earth;
            if i < a.len() - 1 {
                assert(a2[i] != Tile::Earth && b2[i] == Tile::Earth);
            }
        }
    }
}

/// A growth event from `a` to `b` respects the earth cap: at or over the cap nothing
/// changes, below it the earth stays within the cap.
pub open spec fn capped_growth(a: TerrainView, b: TerrainView) -> bool {
    &&& earth_in(a.tiles) >= TERRAIN_CAP ==> b == a
    &&& earth_in(a.tiles) < TERRAIN_CAP ==> earth_in(b.tiles) <= TERRAIN_CAP
}

/// New earth in `b` that `a` lacked stands on a solid column down to the floor, in
/// the inner columns, no higher than two rows above the growth limit, freshly seeded
/// and not hanging.
pub open spec fn grown_rooted(a: TerrainView, b: TerrainView) -> bool {
    forall|x: int, y: int|
        #![trigger cell(x, y)]
        in_grid(x, y) && b.tiles[cell(x, y)] == Tile::Earth && a.tiles[cell(x, y)] != Tile::Earth ==> {
            &&& 1 <= x < WIDTH - 1
            &&& y >= max_growth_top() - 2
            &&& forall|y2: int| y < y2 < HEIGHT ==> b.tiles[#[trigger] cell(x, y2)] == Tile::Earth
            &&& b.hang[cell(x, y)] == 0
            &&& 1 <= b.cohesion[cell(x, y)] <= 3
        }
}

/// Every earth cell of column `x` rests on solid earth down to the floor.
pub open spec fn stacked(tiles: Seq<Tile>, x: int) -> bool {
    forall|y: int, y2: int|
        #![trigger tile_at(tiles, x, y), tile_at(tiles, x, y2)]
        0 <= y < y2 < HEIGHT && tile_at(tiles, x, y) == Tile::Earth ==> tile_at(tiles, x, y2) == Tile::Earth
}

/// No inner column holds earth hanging over air.
pub open spec fn all_stacked(tiles: Seq<Tile>) -> bool {
    forall|x: int| 1 <= x < WIDTH - 1 ==> #[trigger] stacked(tiles, x)
}

/// `b` only adds earth to `a`.
pub open spec fn keeps_earth(a: TerrainView, b: TerrainView) -> bool {
    forall|i: int| 0 <= i < CELLS && a.tiles[i] == Tile::Earth ==> #[trigger] b.tiles[i] == Tile::Earth
}

proof fn lemma_growth_top_same(t1: Seq<Tile>, t2: Seq<Tile>, x: int, y: int)
    requires
        forall|y2: int| 0 <= y2 < HEIGHT ==> tile_at(t1, x, y2) == tile_at(t2, x, y2),
        y < HEIGHT,
    ensures
        growth_top_from(t1, x, y) == growth_top_from(t2, x, y),
    decreases y + 1,
{
    if y >= 0 {
        lemma_growth_top_same(t1, t2, x, y - 1);
    }
}

/// A column whose cells are unchanged keeps its growth site.
proof fn lemma_open_site_same(t1: Seq<Tile>, t2: Seq<Tile>, x: int)
    requires
        0 <= x < WIDTH,
        t1.len() == CELLS,
        t2.len() == CELLS,
        forall|y: int| 0 <= y < HEIGHT ==> t1[#[trigger] cell(x, y)] == t2[cell(x, y)],
    ensures
        open_site(t1, x) == open_site(t2, x),
{
    assert forall|y2: int| 0 <= y2 < HEIGHT implies tile_at(t1, x, y2) == tile_at(t2, x, y2) by {
        assert(t1[cell(x, y2)] == t2[cell(x, y2)]);
    }
    lemma_growth_top_same(t1, t2, x, HEIGHT - 1);
}

/// Growth that keeps earth and roots every new cell leaves stacked columns stacked.
proof fn lemma_growth_keeps_stacked(a: TerrainView, b: TerrainView)
    requires
        view_wf(a),
        view_wf(b),
        all_stacked(a.tiles),
        keeps_earth(a, b),
        grown_rooted(a, b),
    ensures
        all_stacked(b.tiles),
{
    assert forall|x: int| 1 <= x < WIDTH - 1 implies #[trigger] stacked(b.tiles, x) by {
        assert forall|y: int, y2: int|
            #![trigger tile_at(b.tiles, x, y), tile_at(b.tiles, x, y2)]
            0 <= y < y2 < HEIGHT && tile_at(b.tiles, x, y) == Tile::Earth implies tile_at(b.tiles, x, y2) == Tile::Earth by {
            lemma_cell_coords(x, y);
            lemma_cell_coords(x, y2);
            if a.tiles[cell(x, y)] == Tile::Earth {
                assert(stacked(a.tiles, x));
                assert(tile_at(a.tiles, x, y) == Tile::Earth);
                assert(tile_at(a.tiles, x, y2) == Tile::Earth);
                assert(a.tiles[cell(x, y2)] == Tile::Earth);
            } else {
                assert(b.tiles[cell(x, y)] == Tile::Earth);
                assert(b.tiles[cell(x, y2)] == Tile::Earth);
            }
        }
    }
}

proof fn lemma_earth_in_all(s: Seq<Tile>)
    requires
        forall|i: int| 0 <= i < s.len() ==> s[i] == Tile::Earth,
    ensures
        earth_in(s) == s.len(),
    decreases s.len(),
{
    if s.len() > 0 {
        lemma_earth_in_all(s.drop_last());
    }
}

/// An arena in which no inner column is open to growth has earth across its whole
/// inner floor, so at least `WIDTH - 2` cells of earth.
pub proof fn lemma_closed_arena_has_a_floor(tiles: Seq<Tile>)
    requires
        tiles.len() == CELLS,
        forall|x: int| 1 <= x < WIDTH - 1 ==> !#[trigger] open_site(tiles, x),
    ensures
        earth_in(tiles) >= WIDTH - 2,
{
    let lo = (CELLS - WIDTH + 1) as int;
    let hi = (CELLS - 1) as int;
    let floor = tiles.subrange(lo, hi);
    assert forall|i: int| 0 <= i < floor.len() implies floor[i] == Tile::Earth by {
        let x = i + 1;
        assert(!open_site(tiles, x));
        lemma_growth_top(tiles, x, HEIGHT - 1);
        lemma_growth_site(tiles, x);
        assert(cell(x, HEIGHT - 1) == lo + i);
        if growth_site(tiles, x) is None {
            assert(growth_top_from(tiles, x, HEIGHT - 1) < 0);
            lemma_growth_top_all_earth(tiles, x, HEIGHT - 1);
            assert(tile_at(tiles, x, HEIGHT - 1) == Tile::Earth);
        }
    }
    lemma_earth_in_all(floor);
    assert(tiles =~= tiles.subrange(0, lo) + floor + tiles.subrange(hi, CELLS as int));
    lemma_earth_in_concat(tiles.subrange(0, lo) + floor, tiles.subrange(hi, CELLS as int));
    lemma_earth_in_concat(tiles.subrange(0, lo), floor);
}

proof fn lemma_growth_top_all_earth(tiles: Seq<Tile>, x: int, y: int)
    requires
        y < HEIGHT,
        growth_top_from(tiles, x, y) < 0,
    ensures
        forall|y2: int| 0 <= y2 <= y ==> tile_at(tiles, x, y2) == Tile::Earth,
    decreases y + 1,
{
    if y >= 0 {
        lemma_growth_top_all_earth(tiles, x, y - 1);
    }
}

impl Terrain {
    /// Pushes up to `push` cells of earth up column `x` from its growth site `top`.
    fn grow_column(&mut self, rng: &mut SmallRng, x: i32, top: i32, push: i32, Ghost(v0): Ghost<TerrainView>) -> (placed: usize)
        requires
            old(self).wf(),
            view_wf(v0),
            1 <= x < WIDTH - 1,
            1 <= push <= 3,
            max_growth_top() <= top,
            growth_site(old(self).tiles@, x as int) == Some(top as int),
            keeps_earth(v0, old(self)@),
            grown_rooted(v0, old(self)@),
        ensures
            final(self).wf(),
            placed == push,
            keeps_earth(v0, final(self)@),
            keeps_earth(old(self)@, final(self)@),
            grown_rooted(v0, final(self)@),
            earth_in(final(self).tiles@) <= earth_in(old(self).tiles@) + placed,
            final(self).tiles@[cell(x as int, top as int)] == Tile::Earth,
            forall|a: int, b: int| #![trigger cell(a, b)] in_grid(a, b) && a != x ==> final(self).tiles@[cell(a, b)] == old(self).tiles@[cell(a, b)],
            stacked(old(self).tiles@, x as int) ==> earth_in(final(self).tiles@) == earth_in(old(self).tiles@) + placed,
    {
        proof {
            lemma_growth_site(self.tiles@, x as int);
        }
        let ghost start = self@;
        assert(forall|y2: int| top < y2 < HEIGHT ==> self.tiles@[#[trigger] cell(x as int, y2)] == Tile::Earth);
        let mut placed: usize = 0;
        let mut k: i32 = 0;
        while k < push
            invariant
                self.wf(),
                view_wf(v0),
                1 <= x < WIDTH - 1,
                1 <= push <= 3,
                max_growth_top() <= top < HEIGHT,
                0 <= k <= push,
                placed == k,
                keeps_earth(v0, self@),
                keeps_earth(start, self@),
                view_wf(start),
                forall|y2: int| top < y2 < HEIGHT ==> start.tiles[#[trigger] cell(x as int, y2)] == Tile::Earth,
                grown_rooted(v0, self@),
                earth_in(self.tiles@) <= earth_in(start.tiles) + placed,
                forall|y2: int| top - k < y2 < HEIGHT ==> self.tiles@[#[trigger] cell(x as int, y2)] == Tile::Earth,
                k > 0 ==> self.tiles@[cell(x as int, top as int)] == Tile::Earth,
                start.tiles[cell(x as int, top as int)] == Tile::Air,
                forall|a: int, b: int| #![trigger cell(a, b)] in_grid(a, b) && a != x ==> self.tiles@[cell(a, b)] == start.tiles[cell(a, b)],
                forall|y2: int| 0 <= y2 <= top - k ==> self.tiles@[#[trigger] cell(x as int, y2)] == start.tiles[cell(x as int, y2)],
                stacked(start.tiles, x as int) ==> earth_in(self.tiles@) == earth_in(start.tiles) + placed,
            decreases push - k,
        {
            let y = top - k;
            let ghost before = self@;
            let idx = y as usize * WIDTH + x as usize;
            proof {
                lemma_earth_in_update(before.tiles, cell(x as int, y as int), Tile::Earth);
                lemma_cell_coords(x as int, y as int);
                lemma_cell_coords(x as int, top as int);
                if stacked(start.tiles, x as int) && y < top {
                    if start.tiles[cell(x as int, y as int)] == Tile::Earth {
                        assert(tile_at(start.tiles, x as int, y as int) == Tile::Earth);
                        assert(tile_at(start.tiles, x as int, top as int) == Tile::Earth);
                    }
                }
                assert(before.tiles[cell(x as int, y as int)] == start.tiles[cell(x as int, y as int)]);
            }
            self.set_tile(x, y, Tile::Earth);
            self.seed_cohesion(rng, x, y);
            self.hang.set(idx, 0);
            proof {
                assert forall|i: int| 0 <= i < CELLS && v0.tiles[i] == Tile::Earth implies #[trigger] self.tiles@[i] == Tile::Earth by {
                    assert(before.tiles[i] == Tile::Earth);
                }
                assert forall|i: int| 0 <= i < CELLS && start.tiles[i] == Tile::Earth implies #[trigger] self.tiles@[i] == Tile::Earth by {
                    assert(before.tiles[i] == Tile::Earth);
                }
                assert forall|a: int, b: int|
                    #![trigger cell(a, b)]
                    in_grid(a, b) && self.tiles@[cell(a, b)] == Tile::Earth && v0.tiles[cell(a, b)] != Tile::Earth implies {
                        &&& 1 <= a < WIDTH - 1
                        &&& b >= max_growth_top() - 2
                        &&& forall|y2: int| b < y2 < HEIGHT ==> self.tiles@[#[trigger] cell(a, y2)] == Tile::Earth
                        &&& self.hang@[cell(a, b)] == 0
                        &&& 1 <= self.cohesion@[cell(a, b)] <= 3
                    } by {
                    if a == x && b == y {
                        assert forall|y2: int| b < y2 < HEIGHT implies self.tiles@[#[trigger] cell(a, y2)] == Tile::Earth by {
                            if y2 > top {
                                assert(start.tiles[cell(a, y2)] == Tile::Earth);
                            }
                        }
                    } else {
                        assert(cell(a, b) != idx);
                        assert(before.tiles[cell(a, b)] == Tile::Earth);
                        assert forall|y2: int| b < y2 < HEIGHT implies self.tiles@[#[trigger] cell(a, y2)] == Tile::Earth by {
                            assert(before.tiles[cell(a, y2)] == Tile::Earth);
                            lemma_cell_coords(a, y2);
                        }
                    }
                }
            }
            proof {
                assert forall|a: int, b: int| #![trigger cell(a, b)] in_grid(a, b) && a != x implies self.tiles@[cell(a, b)] == start.tiles[cell(a, b)] by {
                    assert(cell(a, b) != idx) by {
                        lemma_cell_coords(a, b);
                    }
                }
                assert forall|y2: int| 0 <= y2 <= top - (k + 1) implies self.tiles@[#[trigger] cell(x as int, y2)] == start.tiles[cell(x as int, y2)] by {
                    lemma_cell_coords(x as int, y2);
                    assert(cell(x as int, y2) != idx);
                }
            }
            placed = placed + 1;
            k = k + 1;
        }
        placed
    }

    /// One growth event. Below the earth cap, fresh earth is pushed up from the floor
    /// at random inner columns whose growth site lies below the height limit, one to
    /// three cells at a time, until the burst is spent, no site is left, or twelve
    /// attempts per burst cell have been made.
    ///
    /// `scaled_deficit` is the empty share of the cap times the largest burst, rounded
    /// down, as the caller measures it.
    ///
    /// In an arena without overhangs and with a burst of at least 28 cells (so that the
    /// attempts cannot run out), the whole burst is placed unless every inner column
    /// has grown past the height limit; in a sparse arena that means the whole burst.
    /// With overhangs, a push may land on earth already there, but every push adds at
    /// least one cell, so at least a third of the burst is new earth.
    pub fn grow_terrain(&mut self, rng: &mut SmallRng, scaled_deficit: usize)
        requires
            old(self).wf(),
        ensures
            final(self).wf(),
            capped_growth(old(self)@, final(self)@),
            earth_in(old(self).tiles@) >= TERRAIN_CAP ==> final(self)@ == old(self)@,
            keeps_earth(old(self)@, final(self)@),
            grown_rooted(old(self)@, final(self)@),
            earth_in(old(self).tiles@) < TERRAIN_CAP ==> earth_in(final(self).tiles@) <= TERRAIN_CAP,
            earth_in(final(self).tiles@) <= earth_in(old(self).tiles@) + if earth_in(old(self).tiles@) < TERRAIN_CAP {
                growth_burst(earth_in(old(self).tiles@) as int, scaled_deficit as int)
            } else {
                0
            },
            earth_in(old(self).tiles@) < TERRAIN_CAP && (exists|x: int|
                1 <= x < WIDTH - 1 && #[trigger] open_site(old(self).tiles@, x))
                ==> earth_in(final(self).tiles@) > earth_in(old(self).tiles@),
            ({
                let burst = growth_burst(earth_in(old(self).tiles@) as int, scaled_deficit as int);
                earth_in(old(self).tiles@) < TERRAIN_CAP && all_stacked(old(self).tiles@) && 11 * burst >= WIDTH - 2
                    ==> earth_in(final(self).tiles@) == earth_in(old(self).tiles@) + burst
                        || forall|x: int| 1 <= x < WIDTH - 1 ==> !#[trigger] open_site(final(self).tiles@, x)
            }),
            ({
                let burst = growth_burst(earth_in(old(self).tiles@) as int, scaled_deficit as int);
                earth_in(old(self).tiles@) < TERRAIN_CAP && 11 * burst >= WIDTH - 2
                    ==> 3 * (earth_in(final(self).tiles@) - earth_in(old(self).tiles@)) >= burst
                        || forall|x: int| 1 <= x < WIDTH - 1 ==> !#[trigger] open_site(final(self).tiles@, x)
            }),
            ({
                let burst = growth_burst(earth_in(old(self).tiles@) as int, scaled_deficit as int);
                earth_in(old(self).tiles@) < TERRAIN_CAP && all_stacked(old(self).tiles@) && 11 * burst >= WIDTH - 2
                    && earth_in(old(self).tiles@) + burst < WIDTH - 2
                    ==> earth_in(final(self).tiles@) == earth_in(old(self).tiles@) + burst
            }),
    {
        let ghost v0 = self@;
        proof {
            lemma_earth_in_bound(self.tiles@);
        }
        let earth = self.earth_count();
        if earth >= TERRAIN_CAP {
            return;
        }
        let clamped = if scaled_deficit < GROWTH_MIN_BURST {
            GROWTH_MIN_BURST
        } else if scaled_deficit > GROWTH_MAX_BURST {
            GROWTH_MAX_BURST
        } else {
            scaled_deficit
        };
        let burst = if clamped < TERRAIN_CAP - earth { clamped } else { TERRAIN_CAP - earth };
        let max_top_y = HEIGHT as i32 * (100 - GROWTH_HEIGHT_CAP_PCT) / 100;
        let mut candidates: Vec<i32> = Vec::new();
        let mut x: i32 = 1;
        while x < WIDTH as i32 - 1
            invariant
                self.wf(),
                self@ == v0,
                1 <= x <= WIDTH - 1,
                max_top_y == max_growth_top(),
                candidates@.len() < x,
                forall|i: int| 0 <= i < candidates@.len() ==> 1 <= #[trigger] candidates@[i] < WIDTH - 1
                    && open_site(v0.tiles, candidates@[i] as int),
                forall|c: int| 1 <= c < x && #[trigger] open_site(v0.tiles, c) ==> candidates@.contains(c as i32),
            decreases WIDTH - x,
        {
            match self.supported_growth_site(x) {
                Some(top) => {
                    if top >= max_top_y {
                        let ghost c0 = candidates@;
                        candidates.push(x);
                        proof {
                            assert forall|c: int| 1 <= c < x + 1 && #[trigger] open_site(v0.tiles, c)
                                implies candidates@.contains(c as i32) by {
                                if c == x {
                                    assert(candidates@[candidates@.len() - 1] == c as i32);
                                } else {
                                    let i = choose|i: int| 0 <= i < c0.len() && c0[i] == c as i32;
                                    assert(candidates@[i] == c0[i]);
                                }
                            }
                        }
                    }
                },
                None => {},
            }
            x = x + 1;
        }
        if candidates.len() == 0 {
            proof {
                assert forall|c: int| 1 <= c < WIDTH - 1 implies !#[trigger] open_site(v0.tiles, c) by {
                    if open_site(v0.tiles, c) {
                        assert(candidates@.contains(c as i32));
                    }
                }
                lemma_closed_arena_has_a_floor(v0.tiles);
            }
            return;
        }
        let ghost initial = candidates@.len();
        let ghost mut removed: int = 0;
        let mut placed: usize = 0;
        let mut attempts: usize = 0;
        while placed < burst && candidates.len() > 0 && attempts < burst * 12
            invariant
                self.wf(),
                view_wf(v0),
                v0 == old(self)@,
                earth == earth_in(v0.tiles),
                earth < TERRAIN_CAP,
                burst == growth_burst(earth as int, scaled_deficit as int),
                1 <= burst <= GROWTH_MAX_BURST,
                placed <= burst,
                max_top_y == max_growth_top(),
                candidates@.len() <= WIDTH,
                attempts == 0 ==> placed == 0,
                forall|i: int| 0 <= i < candidates@.len() ==> 1 <= #[trigger] candidates@[i] < WIDTH - 1,
                keeps_earth(v0, self@),
                grown_rooted(v0, self@),
                earth_in(self.tiles@) <= earth_in(v0.tiles) + placed,
                attempts == 0 ==> self@ == v0 && candidates@.len() > 0 && forall|i: int| 0 <= i < candidates@.len()
                    ==> open_site(v0.tiles, #[trigger] candidates@[i] as int),
                attempts > 0 ==> earth_in(self.tiles@) > earth_in(v0.tiles),
                initial <= WIDTH - 2,
                0 <= removed,
                candidates@.len() + removed == initial,
                attempts <= placed + removed,
                forall|c: int| 1 <= c < WIDTH - 1 && #[trigger] open_site(self.tiles@, c) ==> candidates@.contains(c as i32),
                all_stacked(v0.tiles) ==> earth_in(self.tiles@) == earth_in(v0.tiles) + placed,
                3 * (earth_in(self.tiles@) - earth_in(v0.tiles)) >= placed,
            decreases burst * 12 - attempts,
        {
            let first = attempts == 0;
            attempts = attempts + 1;
            let pick = random_between(rng, 0, candidates.len() as i32 - 1) as usize;
            let x = candidates[pick];
            let site = self.supported_growth_site(x);
            let closed = match site {
                Some(top) => top < max_top_y,
                None => true,
            };
            if closed {
                let ghost c0 = candidates@;
                candidates.swap_remove(pick);
                proof {
                    removed = removed + 1;
                    assert(!open_site(self.tiles@, x as int));
                    assert forall|c: int| 1 <= c < WIDTH - 1 && #[trigger] open_site(self.tiles@, c) implies candidates@.contains(c as i32) by {
                        let j = choose|j: int| 0 <= j < c0.len() && c0[j] == c as i32;
                        assert(j != pick);
                        if j == c0.len() - 1 {
                            assert(candidates@[pick as int] == c as i32);
                        } else {
                            assert(candidates@[j] == c as i32);
                        }
                    }
                    assert forall|i: int| 0 <= i < candidates@.len() implies 1 <= #[trigger] candidates@[i] < WIDTH - 1 by {
                        if i == pick {
                            assert(candidates@[i] == c0[c0.len() - 1]);
                        } else {
                            assert(candidates@[i] == c0[i]);
                        }
                    }
                }
                continue;
            }
            let top = match site {
                Some(top) => top,
                None => 0,
            };
            let room = burst - placed;
            let max_push: i32 = if room < 3 { room as i32 } else { 3 };
            let max_push = if max_push < 1 { 1 } else { max_push };
            let push = random_between(rng, 1, max_push);
            let ghost before = self@;
            let n = self.grow_column(rng, x, top, push, Ghost(v0));
            proof {
                lemma_growth_site(before.tiles, x as int);
                if first {
                    assert(before.tiles[cell(x as int, top as int)] == Tile::Air);
                    lemma_earth_in_monotone(v0.tiles, self.tiles@);
                } else {
                    lemma_earth_in_monotone(before.tiles, self.tiles@);
                }
                assert forall|c: int| 1 <= c < WIDTH - 1 && #[trigger] open_site(self.tiles@, c) implies candidates@.contains(c as i32) by {
                    if c != x {
                        assert forall|y: int| 0 <= y < HEIGHT implies self.tiles@[#[trigger] cell(c, y)] == before.tiles[cell(c, y)] by {}
                        lemma_open_site_same(self.tiles@, before.tiles, c);
                    } else {
                        assert(candidates@[pick as int] == x);
                    }
                }
                if all_stacked(v0.tiles) {
                    lemma_growth_keeps_stacked(v0, before);
                    assert(stacked(before.tiles, x as int));
                }
            }
            placed = placed + n;
        }
        proof {
            if exists|x: int| 1 <= x < WIDTH - 1 && #[trigger] open_site(v0.tiles, x) {
                assert(attempts > 0);
            }
            if candidates@.len() == 0 {
                assert forall|c: int| 1 <= c < WIDTH - 1 implies !#[trigger] open_site(self.tiles@, c) by {
                    if open_site(self.tiles@, c) {
                        assert(candidates@.contains(c as i32));
                    }
                }
            }
            if all_stacked(v0.tiles) && 11 * burst >= WIDTH - 2 && earth + burst < WIDTH - 2 && placed < burst {
                if candidates@.len() == 0 {
                    lemma_closed_arena_has_a_floor(self.tiles@);
                }
            }
        }
    }
}


/// A place a worm can stand: air resting on earth.
pub open spec fn standing_spot(tiles: Seq<Tile>, x: int, y: int) -> bool {
    tile_at(tiles, x, y) == Tile::Air && tile_at(tiles, x, y + 1) == Tile::Earth
}

/// The highest standing spot of column `x` among rows `y..HEIGHT - 2`.
pub open spec fn spot_in(tiles: Seq<Tile>, x: int, y: int) -> Option<int>
    decreases HEIGHT - 2 - y,
{
    if y >= HEIGHT - 2 {
        None
    } else if standing_spot(tiles, x, y) {
        Some(y)
    } else {
        spot_in(tiles, x, y + 1)
    }
}

/// Whether a worm may spawn in column `x`: no worm is near it and it has a standing
/// spot between row 2 and `HEIGHT - 3`.
pub open spec fn spawnable(tiles: Seq<Tile>, blocked: Seq<bool>, x: int) -> bool {
    !blocked[x] && spot_in(tiles, x, 2) is Some
}

/// The spawn point the columns `xs`, tried in order, give: the highest spot of the
/// first spawnable one, or `(4, 2)` when none is.
pub open spec fn first_spot(tiles: Seq<Tile>, blocked: Seq<bool>, xs: Seq<int>) -> (int, int)
    decreases xs.len(),
{
    if xs.len() == 0 {
        (4, 2)
    } else if spawnable(tiles, blocked, xs[0]) {
        (xs[0], spot_in(tiles, xs[0], 2)->0)
    } else {
        first_spot(tiles, blocked, xs.drop_first())
    }
}

/// A surface row kept between the middle of the grid and six rows above the floor.
pub open spec fn clamp_surface(s: int) -> int {
    if s < HEIGHT / 2 {
        (HEIGHT / 2) as int
    } else if s > HEIGHT - 6 {
        (HEIGHT - 6) as int
    } else {
        s
    }
}

/// The surface row of column `x` when the surface starts at two thirds of the height
/// and each column moves it by its step.
pub open spec fn surface_walk(steps: Seq<int>, x: int) -> int
    decreases x + 1,
{
    if x < 0 {
        (HEIGHT * 2 / 3) as int
    } else {
        clamp_surface(surface_walk(steps, x - 1) + steps[x])
    }
}

/// Whether `(x, y)` lies in one of the caves, each given as centre and radius.
pub open spec fn in_caves(caves: Seq<(int, int, int)>, x: int, y: int) -> bool
    decreases caves.len(),
{
    if caves.len() == 0 {
        false
    } else {
        in_caves(caves.drop_last(), x, y) || in_blast(x, y, caves.last().0, caves.last().1, caves.last().2)
    }
}

/// The tile at `(x, y)` of a world built from the surface steps and caves given.
pub open spec fn world_tile(steps: Seq<int>, caves: Seq<(int, int, int)>, x: int, y: int) -> Tile {
    if y >= surface_walk(steps, x) && !in_caves(caves, x, y) {
        Tile::Earth
    } else {
        Tile::Air
    }
}

/// A cave the world builder may draw: centre column 8 to `WIDTH - 9`, centre row in
/// the lower half above the last three rows, radius two to four native cells.
pub open spec fn cave_draw(c: (int, int, int)) -> bool {
    &&& 8 <= c.0 <= WIDTH - 9
    &&& HEIGHT / 2 <= c.1 <= HEIGHT - 4
    &&& 2 * WORLD_SCALE <= c.2 <= 4 * WORLD_SCALE
}

/// Draws the world builder may make: a step of -1, 0 or 1 per column and ten caves.
pub open spec fn world_draws(steps: Seq<int>, caves: Seq<(int, int, int)>) -> bool {
    &&& steps.len() == WIDTH
    &&& forall|i: int| 0 <= i < steps.len() ==> -1 <= #[trigger] steps[i] <= 1
    &&& caves.len() == 10
    &&& forall|i: int| 0 <= i < caves.len() ==> #[trigger] cave_draw(caves[i])
}

proof fn lemma_walk_bounds(steps: Seq<int>, x: int)
    ensures
        HEIGHT / 2 <= surface_walk(steps, x) <= HEIGHT - 6,
    decreases x + 1,
{
    if x >= 0 {
        lemma_walk_bounds(steps, x - 1);
    }
}

proof fn lemma_walk_prefix(steps: Seq<int>, s: int, x: int)
    requires
        x < steps.len(),
    ensures
        surface_walk(steps.push(s), x) == surface_walk(steps, x),
    decreases x + 1,
{
    if x >= 0 {
        lemma_walk_prefix(steps, s, x - 1);
    }
}

impl Terrain {
    /// A fresh arena: a rolling surface between the middle and six rows above the
    /// floor, then ten caves carved into it; `world_tile` for the drawn steps and
    /// caves. The upper half is always open sky; earth has cohesion 1 to 3, air none,
    /// and nothing hangs.
    pub fn generate(rng: &mut SmallRng) -> (t: Terrain)
        ensures
            t.wf(),
            exists|steps: Seq<int>, caves: Seq<(int, int, int)>| {
                &&& world_draws(steps, caves)
                &&& forall|x: int, y: int| #![trigger cell(x, y)] in_grid(x, y) ==> t.tiles@[cell(x, y)] == world_tile(steps, caves, x, y)
            },
            forall|x: int, y: int| #![trigger cell(x, y)] in_grid(x, y) && y < HEIGHT / 2 ==> t.tiles@[cell(x, y)] == Tile::Air,
            forall|i: int| 0 <= i < CELLS ==> #[trigger] t.tiles@[i] == Tile::Earth ==> 1 <= t.cohesion@[i] <= 3,
            forall|i: int| 0 <= i < CELLS ==> #[trigger] t.tiles@[i] == Tile::Air ==> t.cohesion@[i] == 0,
            forall|i: int| 0 <= i < CELLS ==> #[trigger] t.hang@[i] == 0,
            earth_in(t.tiles@) <= CELLS / 2,
    {
        let mut t = Terrain::empty();
        let ghost mut steps: Seq<int> = Seq::empty();
        let mut surface: i32 = (HEIGHT * 2 / 3) as i32;
        let mut x: i32 = 0;
        while x < WIDTH as i32
            invariant
                t.wf(),
                0 <= x <= WIDTH,
                steps.len() == x,
                forall|i: int| 0 <= i < steps.len() ==> -1 <= #[trigger] steps[i] <= 1,
                surface == surface_walk(steps, x - 1),
                (HEIGHT / 2) as i32 <= surface <= (HEIGHT - 6) as i32,
                forall|a: int, b: int| #![trigger cell(a, b)] in_grid(a, b) ==> t.tiles@[cell(a, b)] == if a < x && b >= surface_walk(steps, a) { Tile::Earth } else { Tile::Air },
                forall|i: int| 0 <= i < CELLS ==> #[trigger] t.tiles@[i] == Tile::Earth ==> 1 <= t.cohesion@[i] <= 3,
                forall|i: int| 0 <= i < CELLS ==> #[trigger] t.tiles@[i] == Tile::Air ==> t.cohesion@[i] == 0,
                forall|i: int| 0 <= i < CELLS ==> #[trigger] t.hang@[i] == 0,
            decreases WIDTH - x,
        {
            let step = random_between(rng, -1, 1);
            let raised = surface + step;
            surface = if raised < (HEIGHT / 2) as i32 {
                (HEIGHT / 2) as i32
            } else if raised > (HEIGHT - 6) as i32 {
                (HEIGHT - 6) as i32
            } else {
                raised
            };
            let ghost old_steps = steps;
            proof {
                steps = steps.push(step as int);
                assert forall|a: int| 0 <= a < x implies #[trigger] surface_walk(steps, a) == surface_walk(old_steps, a) by {
                    lemma_walk_prefix(old_steps, step as int, a);
                }
                lemma_walk_prefix(old_steps, step as int, x - 1);
                assert(surface == surface_walk(steps, x as int));
            }
            let mut y = surface;
            while y < HEIGHT as i32
                invariant
                    t.wf(),
                    0 <= x < WIDTH,
                    steps.len() == x + 1,
                    surface == surface_walk(steps, x as int),
                    (HEIGHT / 2) as i32 <= surface <= y <= HEIGHT,
                    forall|a: int, b: int| #![trigger cell(a, b)] in_grid(a, b) ==> t.tiles@[cell(a, b)] == if (a < x && b >= surface_walk(steps, a)) || (a == x && surface <= b < y) { Tile::Earth } else { Tile::Air },
                    forall|i: int| 0 <= i < CELLS ==> #[trigger] t.tiles@[i] == Tile::Earth ==> 1 <= t.cohesion@[i] <= 3,
                    forall|i: int| 0 <= i < CELLS ==> #[trigger] t.tiles@[i] == Tile::Air ==> t.cohesion@[i] == 0,
                    forall|i: int| 0 <= i < CELLS ==> #[trigger] t.hang@[i] == 0,
                decreases HEIGHT - y,
            {
                let ghost before = t@;
                t.set_tile(x, y, Tile::Earth);
                t.seed_cohesion(rng, x, y);
                proof {
                    let c = cell(x as int, y as int);
                    lemma_cell_coords(x as int, y as int);
                    assert forall|a: int, b: int| #![trigger cell(a, b)] in_grid(a, b) implies t.tiles@[cell(a, b)] == if (a < x && b >= surface_walk(steps, a)) || (a == x && surface <= b < y + 1) { Tile::Earth } else { Tile::Air } by {
                        lemma_cell_coords(a, b);
                        if cell(a, b) != c {
                            assert(t.tiles@[cell(a, b)] == before.tiles[cell(a, b)]);
                        }
                    }
                    assert forall|i: int| 0 <= i < CELLS implies (#[trigger] t.tiles@[i] == Tile::Earth ==> 1 <= t.cohesion@[i] <= 3) && (t.tiles@[i] == Tile::Air ==> t.cohesion@[i] == 0) by {
                        if i != c {
                            assert(t.tiles@[i] == before.tiles[i]);
                            assert(t.cohesion@[i] == before.cohesion[i]);
                        }
                    }
                }
                y = y + 1;
            }
            x = x + 1;
        }
        let ghost mut caves: Seq<(int, int, int)> = Seq::empty();
        proof {
            assert forall|a: int, b: int| #![trigger cell(a, b)] in_grid(a, b) implies t.tiles@[cell(a, b)] == world_tile(steps, caves, a, b) by {}
        }
        let mut cave: i32 = 0;
        while cave < 10
            invariant
                t.wf(),
                0 <= cave <= 10,
                caves.len() == cave,
                steps.len() == WIDTH,
                forall|i: int| 0 <= i < steps.len() ==> -1 <= #[trigger] steps[i] <= 1,
                forall|i: int| 0 <= i < caves.len() ==> #[trigger] cave_draw(caves[i]),
                forall|a: int, b: int| #![trigger cell(a, b)] in_grid(a, b) ==> t.tiles@[cell(a, b)] == world_tile(steps, caves, a, b),
                forall|i: int| 0 <= i < CELLS ==> #[trigger] t.tiles@[i] == Tile::Earth ==> 1 <= t.cohesion@[i] <= 3,
                forall|i: int| 0 <= i < CELLS ==> #[trigger] t.tiles@[i] == Tile::Air ==> t.cohesion@[i] == 0,
                forall|i: int| 0 <= i < CELLS ==> #[trigger] t.hang@[i] == 0,
            decreases 10 - cave,
        {
            let cx = random_between(rng, 8, WIDTH as i32 - 9);
            let cy = random_between(rng, (HEIGHT / 2) as i32, HEIGHT as i32 - 4);
            let radius = random_between(rng, 2 * WORLD_SCALE as i32, 4 * WORLD_SCALE as i32);
            let ghost before = t@;
            t.carve(cx, cy, radius);
            proof {
                let old_caves = caves;
                caves = caves.push((cx as int, cy as int, radius as int));
                assert(caves.drop_last() =~= old_caves);
                assert forall|a: int, b: int| #![trigger cell(a, b)] in_grid(a, b) implies t.tiles@[cell(a, b)] == world_tile(steps, caves, a, b) by {}
                assert forall|i: int| 0 <= i < CELLS implies (#[trigger] t.tiles@[i] == Tile::Earth ==> 1 <= t.cohesion@[i] <= 3) && (t.tiles@[i] == Tile::Air ==> t.cohesion@[i] == 0) by {
                    lemma_index_coords(i);
                    let a = i % (WIDTH as int);
                    let b = i / (WIDTH as int);
                    assert(t.tiles@[cell(a, b)] == t.tiles@[i]);
                }
                assert forall|i: int| 0 <= i < caves.len() implies #[trigger] cave_draw(caves[i]) by {
                    if i < old_caves.len() {
                        assert(caves[i] == old_caves[i]);
                    }
                }
            }
            cave = cave + 1;
        }
        proof {
            assert forall|a: int, b: int| #![trigger cell(a, b)] in_grid(a, b) && b < HEIGHT / 2 implies t.tiles@[cell(a, b)] == Tile::Air by {
                lemma_walk_bounds(steps, a);
            }
            assert(world_draws(steps, caves));
            lemma_open_sky_is_half(t.tiles@);
        }
        t
    }

    /// Where a worm (re)appears: up to a hundred random columns between 3 and
    /// `WIDTH - 4` are tried in turn; the first one that is not `blocked` and has a
    /// standing spot gives its highest spot. If none does, `(4, 2)`.
    pub fn spawn_point(&self, rng: &mut SmallRng, blocked: &Vec<bool>) -> (p: (i32, i32))
        requires
            self.wf(),
            blocked@.len() == WIDTH,
        ensures
            exists|xs: Seq<int>|
                xs.len() <= 100 && (forall|i: int| 0 <= i < xs.len() ==> 3 <= #[trigger] xs[i] < WIDTH
                    - 3) && (p.0 as int, p.1 as int) == first_spot(self.tiles@, blocked@, xs),
            (forall|x: int| 3 <= x < WIDTH - 3 ==> #[trigger] spawnable(self.tiles@, blocked@, x))
                ==> !blocked@[p.0 as int] && standing_spot(self.tiles@, p.0 as int, p.1 as int),
    {
        let ghost t = self.tiles@;
        let ghost mut xs: Seq<int> = Seq::empty();
        proof {
            assert forall|rest: Seq<int>| #[trigger] first_spot(t, blocked@, xs + rest) == first_spot(t, blocked@, rest) by {
                assert(xs + rest =~= rest);
            }
        }
        let mut attempt: i32 = 0;
        while attempt < 100
            invariant
                self.wf(),
                t == self.tiles@,
                blocked@.len() == WIDTH,
                0 <= attempt <= 100,
                xs.len() == attempt,
                forall|i: int| 0 <= i < xs.len() ==> 3 <= #[trigger] xs[i] < WIDTH - 3,
                forall|rest: Seq<int>| #[trigger] first_spot(t, blocked@, xs + rest) == first_spot(t, blocked@, rest),
                attempt > 0 ==> !(forall|x: int| 3 <= x < WIDTH - 3 ==> #[trigger] spawnable(t, blocked@, x)),
            decreases 100 - attempt,
        {
            let x = random_between(rng, 3, WIDTH as i32 - 4);
            let mut y: i32 = 2;
            while y < HEIGHT as i32 - 2
                invariant
                    self.wf(),
                    t == self.tiles@,
                    blocked@.len() == WIDTH,
                    3 <= x < WIDTH - 3,
                    2 <= y <= HEIGHT - 2,
                    !blocked@[x as int] ==> spot_in(t, x as int, 2) == spot_in(t, x as int, y as int),
                    forall|i: int| 0 <= i < xs.len() ==> 3 <= #[trigger] xs[i] < WIDTH - 3,
                    forall|rest: Seq<int>| #[trigger] first_spot(t, blocked@, xs + rest) == first_spot(t, blocked@, rest),
                decreases HEIGHT - 2 - y,
            {
                if self.tile(x, y) == Tile::Air && self.tile(x, y + 1) == Tile::Earth {
                    if !blocked[x as usize] {
                        proof {
                            let one = seq![x as int];
                            assert(first_spot(t, blocked@, one) == (x as int, y as int)) by {
                                assert(one.drop_first() =~= Seq::<int>::empty());
                            }
                            assert(first_spot(t, blocked@, xs + one) == first_spot(t, blocked@, one));
                            let all = xs + one;
                            assert forall|i: int| 0 <= i < all.len() implies 3 <= #[trigger] all[i] < WIDTH - 3 by {
                                if i < xs.len() {
                                    assert(all[i] == xs[i]);
                                }
                            }
                        }
                        return (x, y);
                    }
                }
                y = y + 1;
            }
            proof {
                assert(!spawnable(t, blocked@, x as int));
                assert forall|rest: Seq<int>| #[trigger] first_spot(t, blocked@, xs.push(x as int) + rest) == first_spot(t, blocked@, rest) by {
                    let tail = seq![x as int] + rest;
                    assert(xs.push(x as int) + rest =~= xs + tail);
                    assert(tail.drop_first() =~= rest);
                    assert(first_spot(t, blocked@, xs + tail) == first_spot(t, blocked@, tail));
                }
                xs = xs.push(x as int);
            }
            attempt = attempt + 1;
        }
        proof {
            assert(xs + Seq::<int>::empty() =~= xs);
            assert(first_spot(t, blocked@, xs + Seq::<int>::empty()) == first_spot(t, blocked@, Seq::<int>::empty()));
        }
        (4, 2)
    }
}

/// What a worm moving sideways meets.
#[derive(Debug, Clone, Copy, PartialEq, Eq, Structural)]
pub enum Step {
    /// Open air: it moves on.
    Open,
    /// A ledge one cell high with room above: it climbs onto it.
    Climb,
    /// A wall: it stays.
    Blocked,
}

/// What a worm at row `y` moving into column `nx` meets: the cell itself, else the
/// two cells above it.
pub open spec fn step_at(tiles: Seq<Tile>, nx: int, y: int) -> Step {
    if tile_at(tiles, nx, y) == Tile::Air {
        Step::Open
    } else if tile_at(tiles, nx, y - 1) == Tile::Air && tile_at(tiles, nx, y - 2) == Tile::Air {
        Step::Climb
    } else {
        Step::Blocked
    }
}

impl Terrain {
    /// What a worm at row `y` moving into column `nx` meets.
    pub fn sideways_step(&self, nx: i32, y: i32) -> (s: Step)
        requires
            self.wf(),
            y >= i32::MIN + 2,
        ensures
            s == step_at(self.tiles@, nx as int, y as int),
    {
        if self.tile(nx, y) == Tile::Air {
            Step::Open
        } else if self.tile(nx, y - 1) == Tile::Air && self.tile(nx, y - 2) == Tile::Air {
            Step::Climb
        } else {
            Step::Blocked
        }
    }
}

proof fn lemma_carving_removes_earth(a: Seq<Tile>, b: Seq<Tile>, cx: int, cy: int, radius: int)
    requires
        a.len() == CELLS,
        carved(a, b, cx, cy, radius),
    ensures
        earth_in(b) <= earth_in(a),
{
    assert forall|i: int| 0 <= i < b.len() && b[i] == Tile::Earth implies #[trigger] a[i]
        == Tile::Earth by {
        lemma_index_coords(i);
        let x = i % (WIDTH as int);
        let y = i / (WIDTH as int);
        assert(b[cell(x, y)] == Tile::Earth);
    }
    lemma_earth_in_monotone(b, a);
}

/// Earth never outgrows its cap in play: from an arena within the cap, a blast's
/// crater, a settling step and a growth event leave it within the cap.
pub proof fn lemma_earth_stays_within_cap(
    v0: TerrainView,
    v1: TerrainView,
    v2: TerrainView,
    v3: TerrainView,
    cx: int,
    cy: int,
    radius: int,
)
    requires
        view_wf(v0),
        view_wf(v1),
        earth_in(v0.tiles) <= TERRAIN_CAP,
        carved(v0.tiles, v1.tiles, cx, cy, radius),
        settles_to(v1, v2),
        capped_growth(v2, v3),
    ensures
        earth_in(v3.tiles) <= TERRAIN_CAP,
{
    lemma_carving_removes_earth(v0.tiles, v1.tiles, cx, cy, radius);
    lemma_settling_conserves_earth(v1, v2);
}

proof fn lemma_earth_in_concat(a: Seq<Tile>, b: Seq<Tile>)
    ensures
        earth_in(a + b) == earth_in(a) + earth_in(b),
    decreases b.len(),
{
    if b.len() > 0 {
        assert((a + b).drop_last() =~= a + b.drop_last());
        lemma_earth_in_concat(a, b.drop_last());
    } else {
        assert(a + b =~= a);
    }
}

proof fn lemma_earth_in_none(a: Seq<Tile>)
    requires
        forall|i: int| 0 <= i < a.len() ==> a[i] != Tile::Earth,
    ensures
        earth_in(a) == 0,
    decreases a.len(),
{
    if a.len() > 0 {
        lemma_earth_in_none(a.drop_last());
    }
}

/// A grid whose upper half is open sky is at most half earth.
proof fn lemma_open_sky_is_half(tiles: Seq<Tile>)
    requires
        tiles.len() == CELLS,
        forall|x: int, y: int| #![trigger cell(x, y)] in_grid(x, y) && y < HEIGHT / 2 ==> tiles[cell(x, y)] == Tile::Air,
    ensures
        earth_in(tiles) <= CELLS / 2,
{
    let half = (CELLS / 2) as int;
    let top = tiles.take(half);
    let bottom = tiles.skip(half);
    assert forall|i: int| 0 <= i < top.len() implies top[i] != Tile::Earth by {
        lemma_index_coords(i);
        let x = i % (WIDTH as int);
        let y = i / (WIDTH as int);
        assert(y < HEIGHT / 2) by {
            vstd::arithmetic::div_mod::lemma_div_is_ordered(i, half, WIDTH as int);
            assert(half / (WIDTH as int) == HEIGHT / 2);
            if y >= HEIGHT / 2 {
                assert(i >= half);
            }
        }
        assert(tiles[cell(x, y)] == Tile::Air);
    }
    lemma_earth_in_none(top);
    lemma_earth_in_bound(bottom);
    assert(top + bottom =~= tiles);
    lemma_earth_in_concat(top, bottom);
}

} // verus!
