//! Arena dimensions and the plain value types shared by the simulation and the renderer.
use vstd::prelude::*;
use crate::text::{chars_of, decimal, lemma_decimal_digits, lemma_decimal_injective, push_char, push_decimal};

verus! {

pub const NATIVE_WIDTH: usize = 77;
pub const NATIVE_HEIGHT: usize = 18;
pub const WORLD_SCALE: usize = 4;
/// Physics cells across the shared battlefield.
pub const WIDTH: usize = 308;
/// Physics cells from the sky to the floor.
pub const HEIGHT: usize = 72;
/// Every cell of the grid.
pub const CELLS: usize = 22176;
/// Simulation ticks per second.
pub const TICK_RATE: u64 = 50;
/// Earth may fill at most half the grid; growth stops there.
pub const TERRAIN_CAP: usize = 11088;
/// Ticks an unsupported earth cell hangs before it starts to fall.
pub const HANG_FALL_DELAY: u16 = 50;
/// Height difference at which a column top sloughs onto a neighbour.
pub const TALUS: i32 = 2;
pub const GROWTH_HEIGHT_CAP_PCT: i32 = 70;
pub const GROWTH_MIN_BURST: usize = 6;
pub const GROWTH_MAX_BURST: usize = 60;
pub const MAX_HEALTH: i16 = 1000;
pub const MAX_CHARGE_TICKS: u64 = TICK_RATE * 2;
pub const POWER_STEP_TICKS: u64 = TICK_RATE / 10;
pub const POWER_STEP_PERCENT: u32 = 5;
/// Identifier of a connected player.
pub type PlayerId = u64;
/// The owner recorded for projectiles that fall from the sky.
pub const METEOR_OWNER: PlayerId = 0xffff_ffff_ffff_ffff;

#[derive(Debug, Clone, Copy, PartialEq, Eq, Structural)]
pub enum ColorDepth {
    Mono,
    Ansi16,
    Ansi256,
    TrueColor,
}

#[derive(Debug, Clone, Copy, PartialEq, Eq, Structural)]
pub enum GlyphMode {
    Ascii,
    Powerlevel10k,
}

#[derive(Debug, Clone, Copy, PartialEq, Eq, Structural)]
pub enum Tile {
    Air,
    Earth,
}

#[derive(Debug, Clone, Copy, PartialEq, Eq, Structural)]
pub enum Weapon {
    Bazooka,
    Grenade,
    Meteor,
}

/// The short-lived flash drawn where something exploded.
#[derive(Debug, Clone, Copy)]
pub struct Blast {
    pub x: i32,
    pub y: i32,
    pub radius: i32,
    pub age: u8,
}

/// The authoritative battlefield packs four physics cells into each native terminal
/// cell, in both directions, and earth may cover at most half of it.
pub proof fn lemma_battlefield_dimensions()
    ensures
        WIDTH == 77 * 4,
        HEIGHT == 18 * 4,
        CELLS == WIDTH * HEIGHT,
        TERRAIN_CAP == CELLS / 2,
{
}

/// The longest name a worm can carry.
pub const NAME_LIMIT: usize = 18;

/// Characters a worm's name may hold: ASCII letters and digits, `_` and `-`.
pub open spec fn is_name_char(c: char) -> bool {
    ('a' <= c && c <= 'z') || ('A' <= c && c <= 'Z') || ('0' <= c && c <= '9') || c == '_' || c
        == '-'
}

/// The name characters of `s`, in order.
pub open spec fn name_chars(s: Seq<char>) -> Seq<char>
    decreases s.len(),
{
    if s.len() == 0 {
        Seq::empty()
    } else if is_name_char(s.last()) {
        name_chars(s.drop_last()).push(s.last())
    } else {
        name_chars(s.drop_last())
    }
}

/// `s` cut to its first `n` characters.
pub open spec fn at_most(s: Seq<char>, n: nat) -> Seq<char> {
    if s.len() <= n {
        s
    } else {
        s.take(n as int)
    }
}

/// The name a login becomes: its first eighteen name characters, or `worm` where it
/// has none.
pub open spec fn sanitized(s: Seq<char>) -> Seq<char> {
    let kept = at_most(name_chars(s), NAME_LIMIT as nat);
    if kept.len() == 0 {
        "worm"@
    } else {
        kept
    }
}

fn is_name_char_exec(c: char) -> (b: bool)
    ensures
        b == is_name_char(c),
{
    ('a' <= c && c <= 'z') || ('A' <= c && c <= 'Z') || ('0' <= c && c <= '9') || c == '_' || c
        == '-'
}

/// Turns an SSH login into a worm's name.
pub fn sanitize_name(input: &str) -> (name: String)
    ensures
        name@ == sanitized(input@),
{
    let chars = chars_of(input);
    let mut out = String::new();
    let mut count: usize = 0;
    let mut i: usize = 0;
    while i < chars.len()
        invariant
            i <= chars.len(),
            out@ == at_most(name_chars(chars@.take(i as int)), NAME_LIMIT as nat),
            count == out@.len(),
        decreases chars.len() - i,
    {
        let c = chars[i];
        let ghost before = name_chars(chars@.take(i as int));
        proof {
            assert(chars@.take(i as int + 1).drop_last() =~= chars@.take(i as int));
            assert(chars@.take(i as int + 1).last() == c);
        }
        if is_name_char_exec(c) && count < NAME_LIMIT {
            push_char(&mut out, c);
            count = count + 1;
        }
        proof {
            let after = name_chars(chars@.take(i as int + 1));
            if is_name_char(c) {
                assert(after == before.push(c));
                if before.len() >= NAME_LIMIT {
                    assert(after.take(NAME_LIMIT as int) =~= before.take(NAME_LIMIT as int));
                }
            } else {
                assert(after == before);
            }
        }
        i = i + 1;
    }
    proof {
        assert(chars@.take(chars.len() as int) =~= chars@);
    }
    if count == 0 {
        return "worm".to_owned();
    }
    out
}

/// The names of the worms in the arena.
pub open spec fn names_of(names: Seq<String>) -> Seq<Seq<char>> {
    names.map_values(|n: String| n@)
}

/// `name` with `#` and the player's number behind it.
pub open spec fn tagged_name(name: Seq<char>, id: PlayerId) -> Seq<char> {
    name + seq!['#'] + decimal(id as nat)
}

/// The name a joining player gets: the wanted name, or, where a worm already has it,
/// that name tagged with the player's number.
pub open spec fn unique_name(taken: Seq<Seq<char>>, wanted: Seq<char>, id: PlayerId) -> Seq<char> {
    if taken.contains(wanted) {
        tagged_name(wanted, id)
    } else {
        wanted
    }
}

/// Picks the name under which player `id` plays, given the names already in use.
pub fn available_name(username: &str, id: PlayerId, taken: &Vec<String>) -> (name: String)
    ensures
        name@ == unique_name(names_of(taken@), username@, id),
{
    let wanted = username.to_owned();
    let mut i: usize = 0;
    while i < taken.len()
        invariant
            i <= taken.len(),
            wanted@ == username@,
            forall|j: int| 0 <= j < i ==> taken@[j]@ != wanted@,
        decreases taken.len() - i,
    {
        if taken[i] == wanted {
            proof {
                assert(names_of(taken@)[i as int] == username@);
            }
            let mut tagged = wanted;
            push_char(&mut tagged, '#');
            push_decimal(&mut tagged, id);
            proof {
                assert(tagged@ =~= tagged_name(username@, id));
            }
            return tagged;
        }
        i = i + 1;
    }
    proof {
        assert forall|j: int| 0 <= j < names_of(taken@).len() implies names_of(taken@)[j]
            != username@ by {
            assert(taken@[j]@ != wanted@);
        }
    }
    wanted
}

/// How many ticks a blast stays on screen.
pub const BLAST_LIFETIME: u8 = 8;

/// The blasts one tick later: each a tick older, those that reached their lifetime gone.
pub open spec fn aged_blasts(s: Seq<Blast>) -> Seq<Blast>
    decreases s.len(),
{
    if s.len() == 0 {
        Seq::empty()
    } else {
        let rest = aged_blasts(s.drop_last());
        let b = s.last();
        if b.age + 1 < BLAST_LIFETIME {
            rest.push(Blast { age: (b.age + 1) as u8, ..b })
        } else {
            rest
        }
    }
}

/// Ages every blast by one tick and drops those that have burnt out.
pub fn age_blasts(blasts: &mut Vec<Blast>)
    requires
        forall|i: int| 0 <= i < old(blasts).len() ==> #[trigger] old(blasts)@[i].age < u8::MAX,
    ensures
        final(blasts)@ == aged_blasts(old(blasts)@),
{
    let ghost all = blasts@;
    let mut kept: Vec<Blast> = Vec::new();
    let mut i: usize = 0;
    while i < blasts.len()
        invariant
            i <= blasts.len(),
            all == blasts@,
            forall|k: int| 0 <= k < blasts.len() ==> #[trigger] blasts@[k].age < u8::MAX,
            kept@ == aged_blasts(all.take(i as int)),
        decreases blasts.len() - i,
    {
        proof {
            assert(all.take(i as int + 1).drop_last() =~= all.take(i as int));
            assert(all.take(i as int + 1).last() == all[i as int]);
        }
        let b = blasts[i];
        let age = b.age + 1;
        if age < BLAST_LIFETIME {
            kept.push(Blast { x: b.x, y: b.y, radius: b.radius, age });
        }
        i = i + 1;
    }
    proof {
        assert(all.take(i as int) =~= all);
    }
    *blasts = kept;
}

/// A blast never outlives its lifetime: after a tick of aging, every blast left is
/// younger than eight ticks, and there are no more blasts than before.
pub proof fn lemma_aged_blasts_are_young(s: Seq<Blast>)
    ensures
        aged_blasts(s).len() <= s.len(),
        forall|i: int| 0 <= i < aged_blasts(s).len() ==> #[trigger] aged_blasts(s)[i].age
            < BLAST_LIFETIME,
    decreases s.len(),
{
    if s.len() > 0 {
        lemma_aged_blasts_are_young(s.drop_last());
    }
}

/// The radius, in physics cells, of the crater a weapon's blast carves: four, eight
/// and twelve native cells.
pub open spec fn radius_of(weapon: Weapon) -> int {
    match weapon {
        Weapon::Bazooka => 4 * WORLD_SCALE,
        Weapon::Grenade => 8 * WORLD_SCALE,
        Weapon::Meteor => 12 * WORLD_SCALE,
    }
}

/// Craters grow with the weapon: a rocket carves four native cells of radius, a
/// grenade twice that and a meteor three times; every crater is a whole number of
/// native cells.
pub proof fn lemma_crater_sizes(weapon: Weapon)
    ensures
        radius_of(Weapon::Bazooka) == 4 * WORLD_SCALE,
        radius_of(Weapon::Grenade) == 2 * radius_of(Weapon::Bazooka),
        radius_of(Weapon::Meteor) == 3 * radius_of(Weapon::Bazooka),
        radius_of(Weapon::Bazooka) < radius_of(Weapon::Grenade) < radius_of(Weapon::Meteor),
        radius_of(weapon) % (WORLD_SCALE as int) == 0,
        4 * WORLD_SCALE <= radius_of(weapon) <= 12 * WORLD_SCALE,
{
}

/// The radius of a weapon's blast.
pub fn blast_radius(weapon: Weapon) -> (r: i32)
    ensures
        r == radius_of(weapon),
{
    match weapon {
        Weapon::Bazooka => 4 * WORLD_SCALE as i32,
        Weapon::Grenade => 8 * WORLD_SCALE as i32,
        Weapon::Meteor => 12 * WORLD_SCALE as i32,
    }
}

proof fn lemma_name_chars_keep_names(s: Seq<char>)
    requires
        forall|i: int| 0 <= i < s.len() ==> is_name_char(#[trigger] s[i]),
    ensures
        name_chars(s) == s,
    decreases s.len(),
{
    if s.len() > 0 {
        assert forall|i: int| 0 <= i < s.drop_last().len() implies is_name_char(#[trigger] s.drop_last()[i]) by {
            assert(s.drop_last()[i] == s[i]);
        }
        lemma_name_chars_keep_names(s.drop_last());
        assert(is_name_char(s[s.len() - 1]));
        assert(s.drop_last().push(s.last()) =~= s);
    }
}

proof fn lemma_name_chars_drop_others(s: Seq<char>)
    requires
        forall|i: int| 0 <= i < s.len() ==> !is_name_char(#[trigger] s[i]),
    ensures
        name_chars(s).len() == 0,
    decreases s.len(),
{
    if s.len() > 0 {
        assert forall|i: int| 0 <= i < s.drop_last().len() implies !is_name_char(#[trigger] s.drop_last()[i]) by {
            assert(s.drop_last()[i] == s[i]);
        }
        lemma_name_chars_drop_others(s.drop_last());
        assert(!is_name_char(s[s.len() - 1]));
    }
}

/// A login that already makes a good name is kept as it is: one to eighteen ASCII
/// letters of either case, digits, `_` and `-`.
pub proof fn lemma_clean_login_kept(s: Seq<char>)
    requires
        1 <= s.len() <= 18,
        forall|i: int| 0 <= i < s.len() ==> {
            let c = #[trigger] s[i];
            ('a' <= c && c <= 'z') || ('A' <= c && c <= 'Z') || ('0' <= c && c <= '9') || c == '_' || c == '-'
        },
    ensures
        sanitized(s) == s,
{
    assert forall|i: int| 0 <= i < s.len() implies is_name_char(#[trigger] s[i]) by {}
    lemma_name_chars_keep_names(s);
}

/// What a name keeps of a login: only ASCII letters, digits, `_` and `-`, one to
/// eighteen of them; a login without any becomes `worm`.
pub proof fn lemma_sanitized_chars(s: Seq<char>)
    ensures
        1 <= sanitized(s).len() <= 18,
        forall|i: int| 0 <= i < sanitized(s).len() ==> {
            let c = #[trigger] sanitized(s)[i];
            ('a' <= c && c <= 'z') || ('A' <= c && c <= 'Z') || ('0' <= c && c <= '9') || c == '_' || c == '-'
        },
        (forall|i: int| 0 <= i < s.len() ==> {
            let c = #[trigger] s[i];
            !(('a' <= c && c <= 'z') || ('A' <= c && c <= 'Z') || ('0' <= c && c <= '9') || c == '_' || c == '-')
        }) ==> sanitized(s) == "worm"@,
{
    reveal_strlit("worm");
    lemma_name_chars_are_name_chars(s);
    let kept = at_most(name_chars(s), NAME_LIMIT as nat);
    if kept.len() != 0 {
        assert forall|i: int| 0 <= i < kept.len() implies is_name_char(#[trigger] kept[i]) by {
            assert(kept[i] == name_chars(s)[i]);
        }
    }
    if forall|i: int| 0 <= i < s.len() ==> !is_name_char(#[trigger] s[i]) {
        lemma_name_chars_drop_others(s);
    }
}

/// Sanitized names hold no `#`.
pub proof fn lemma_sanitized_has_no_tag(s: Seq<char>)
    ensures
        !sanitized(s).contains('#'),
{
    lemma_name_chars_are_name_chars(s);
    let kept = at_most(name_chars(s), NAME_LIMIT as nat);
    if kept.len() == 0 {
        reveal_strlit("worm");
        assert(!"worm"@.contains('#')) by {
            assert forall|i: int| 0 <= i < "worm"@.len() implies "worm"@[i] != '#' by {}
        }
    } else {
        assert forall|i: int| 0 <= i < kept.len() implies kept[i] != '#' by {
            assert(kept[i] == name_chars(s)[i]);
        }
    }
}

proof fn lemma_name_chars_are_name_chars(s: Seq<char>)
    ensures
        forall|i: int| 0 <= i < name_chars(s).len() ==> is_name_char(#[trigger] name_chars(s)[i]),
    decreases s.len(),
{
    if s.len() > 0 {
        lemma_name_chars_are_name_chars(s.drop_last());
        let prev = name_chars(s.drop_last());
        if is_name_char(s.last()) {
            assert forall|i: int| 0 <= i < name_chars(s).len() implies is_name_char(
                #[trigger] name_chars(s)[i],
            ) by {
                if i < prev.len() {
                    assert(name_chars(s)[i] == prev[i]);
                }
            }
        }
    }
}

proof fn lemma_tags_differ(w: Seq<char>, a: PlayerId, b: Seq<char>, o: PlayerId)
    requires
        !w.contains('#'),
        !b.contains('#'),
        tagged_name(w, a) == tagged_name(b, o),
    ensures
        a == o,
{
    let s = tagged_name(w, a);
    lemma_decimal_digits(a as nat);
    lemma_decimal_digits(o as nat);
    if w.len() < b.len() {
        assert(s[w.len() as int] == '#');
        assert(s[w.len() as int] == b[w.len() as int]);
        assert(b.contains('#'));
    } else if b.len() < w.len() {
        assert(s[b.len() as int] == '#');
        assert(s[b.len() as int] == w[b.len() as int]);
        assert(w.contains('#'));
    } else {
        assert(s.skip(w.len() as int + 1) =~= decimal(a as nat));
        assert(tagged_name(b, o).skip(b.len() as int + 1) =~= decimal(o as nat));
        lemma_decimal_injective(a as nat, o as nat);
    }
}

/// Two players never share a name. Names in the arena are either plain (no `#`) or
/// a plain name tagged with its owner's number; a player joining with a plain wanted
/// name and a number no one else has gets a name that no worm in the arena carries.
pub proof fn lemma_names_stay_distinct(
    taken: Seq<Seq<char>>,
    bases: Seq<Seq<char>>,
    owners: Seq<PlayerId>,
    wanted: Seq<char>,
    id: PlayerId,
)
    requires
        !wanted.contains('#'),
        bases.len() == taken.len(),
        owners.len() == taken.len(),
        forall|i: int| 0 <= i < taken.len() ==> !(#[trigger] bases[i]).contains('#'),
        forall|i: int|
            0 <= i < taken.len() ==> #[trigger] taken[i] == bases[i] || taken[i] == tagged_name(
                bases[i],
                owners[i],
            ),
        forall|i: int| 0 <= i < taken.len() ==> #[trigger] owners[i] != id,
    ensures
        !taken.contains(unique_name(taken, wanted, id)),
{
    let name = unique_name(taken, wanted, id);
    if taken.contains(wanted) {
        assert forall|i: int| 0 <= i < taken.len() implies taken[i] != name by {
            assert(name[wanted.len() as int] == '#');
            if taken[i] == bases[i] {
                assert(!bases[i].contains('#'));
                if name == bases[i] {
                    assert(bases[i][wanted.len() as int] == '#');
                }
            } else {
                if name == taken[i] {
                    lemma_tags_differ(wanted, id, bases[i], owners[i]);
                }
            }
        }
    }
}

} // verus!
