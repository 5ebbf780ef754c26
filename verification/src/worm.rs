//! The integer side of a worm: its health and score, its aim and weapon, how raw
//! terminal input steers it, and what each simulation tick does to it. Positions and
//! velocities are floating point and live with the caller.
use vstd::prelude::*;
use crate::game::{PlayerId, Weapon, MAX_HEALTH, MAX_CHARGE_TICKS, POWER_STEP_PERCENT, POWER_STEP_TICKS, TICK_RATE};

verus! {

/// Ticks between two aim steps.
pub const AIM_COOLDOWN_TICKS: u64 = 6;
/// Ticks of silence after the last Enter that release a charged shot: half a second.
pub const FIRE_RELEASE_SILENCE: u64 = 25;
/// Ticks without input after which friction applies.
pub const FRICTION_GRACE_TICKS: u64 = 7;
/// Ticks of the regeneration period: health regains `MAX_HEALTH` over this many ticks.
pub const HEALTH_REGEN_TICKS: i32 = 1000;
/// Ticks a dead worm waits before it respawns.
pub const RESPAWN_TICKS: u16 = 150;

/// One movement key press: its direction, how long the direction had been held
/// (capped at 24 ticks), and whether it came soon enough after the previous press
/// to build on it.
#[derive(Debug, Clone, Copy, PartialEq, Eq, Structural)]
pub struct MovePulse {
    pub direction: i8,
    pub held_ticks: u64,
    pub boosted: bool,
}

/// What a worm's player asked for, decoded from the bytes of a terminal.
#[derive(Debug, Clone, Copy, PartialEq, Eq, Structural)]
pub enum Key {
    AimUp,
    AimDown,
    Left,
    Right,
    Jump,
    Bazooka,
    Grenade,
    Charge,
}

/// A shot leaving the barrel: its weapon, its power in percent, the glyph it is drawn
/// with, and the ticks before it detonates on its own.
#[derive(Debug, Clone, Copy, PartialEq, Eq, Structural)]
pub struct Shot {
    pub weapon: Weapon,
    pub power_pct: u32,
    pub glyph: char,
    pub fuse: u16,
}

/// What one tick of a living worm hands to the physics: the movement presses since
/// the last tick, whether it asked to jump, whether it has been idle long enough for
/// friction, and the shot it fired, if any.
pub struct Motion {
    pub pulses: Vec<MovePulse>,
    pub jump: bool,
    pub idle: bool,
    pub shot: Option<Shot>,
}

/// What a tick does with a worm: a dead worm whose countdown is about to run out is
/// put back into the arena, a dead worm counts down, a living worm moves.
pub enum Turn {
    Respawn,
    Waiting,
    Alive(Motion),
}

/// The integer state of a worm.
pub struct Worm {
    pub id: PlayerId,
    pub name: String,
    pub health: i16,
    pub kills: u32,
    pub deaths: u32,
    pub aim: i8,
    pub facing: i8,
    pub weapon: Weapon,
    pub respawn_ticks: u16,
    pub fire_cooldown: u16,
    pub jump: bool,
    pub pulses: Vec<MovePulse>,
    pub charge_started: Option<u64>,
    pub last_charge_pulse: Option<u64>,
    pub last_move_tick: u64,
    pub movement_started: u64,
    pub last_direction: i8,
    pub last_input_tick: u64,
    pub regen_carry: i32,
    pub next_aim_tick: u64,
}

/// A worm as the contracts speak of it.
#[verifier::ext_equal]
pub struct WormView {
    pub id: PlayerId,
    pub name: Seq<char>,
    pub health: i16,
    pub kills: u32,
    pub deaths: u32,
    pub aim: i8,
    pub facing: i8,
    pub weapon: Weapon,
    pub respawn_ticks: u16,
    pub fire_cooldown: u16,
    pub jump: bool,
    pub pulses: Seq<MovePulse>,
    pub charge_started: Option<u64>,
    pub last_charge_pulse: Option<u64>,
    pub last_move_tick: u64,
    pub movement_started: u64,
    pub last_direction: i8,
    pub last_input_tick: u64,
    pub regen_carry: i32,
    pub next_aim_tick: u64,
}

impl View for Worm {
    type V = WormView;

    open spec fn view(&self) -> WormView {
        WormView {
            id: self.id,
            name: self.name@,
            health: self.health,
            kills: self.kills,
            deaths: self.deaths,
            aim: self.aim,
            facing: self.facing,
            weapon: self.weapon,
            respawn_ticks: self.respawn_ticks,
            fire_cooldown: self.fire_cooldown,
            jump: self.jump,
            pulses: self.pulses@,
            charge_started: self.charge_started,
            last_charge_pulse: self.last_charge_pulse,
            last_move_tick: self.last_move_tick,
            movement_started: self.movement_started,
            last_direction: self.last_direction,
            last_input_tick: self.last_input_tick,
            regen_carry: self.regen_carry,
            next_aim_tick: self.next_aim_tick,
        }
    }
}

/// The worm's aim stays within eight steps either way, it faces left or right, its
/// health never exceeds the maximum, it only ever holds a bazooka or a grenade, and
/// its regeneration carry stays below one period.
pub open spec fn worm_wf(w: WormView) -> bool {
    &&& -8 <= w.aim <= 8
    &&& (w.facing == 1 || w.facing == -1)
    &&& w.health <= MAX_HEALTH
    &&& w.weapon != Weapon::Meteor
    &&& 0 <= w.regen_carry < HEALTH_REGEN_TICKS
}

pub open spec fn clamp_aim(a: int) -> i8 {
    if a < -8 { -8i8 } else if a > 8 { 8i8 } else { a as i8 }
}

pub open spec fn saturating_sub(a: u64, b: u64) -> u64 {
    if a >= b { (a - b) as u64 } else { 0 }
}

/// A press of `direction` at `tick`. A second press of the same direction within the
/// same tick adds nothing. Pressing within four ticks of the previous press builds
/// speed; switching direction, or pausing longer, restarts the hold.
pub open spec fn pulse_move(w: WormView, direction: i8, tick: u64) -> WormView {
    let gap = saturating_sub(tick, w.last_move_tick);
    if direction == w.last_direction && w.last_move_tick == tick {
        w
    } else {
        let started = if direction != w.last_direction || gap > 4 { tick } else { w.movement_started };
        let held = saturating_sub(tick, started);
        let held = if held > 24 { 24u64 } else { held };
        WormView {
            pulses: w.pulses.push(MovePulse { direction, held_ticks: held, boosted: gap <= 4 }),
            facing: direction,
            last_direction: direction,
            last_move_tick: tick,
            last_input_tick: tick,
            movement_started: started,
            ..w
        }
    }
}

/// One key's effect at `tick`. Aiming is rate-limited to one step per cooldown;
/// Enter starts a charge when none is running and the weapon has cooled down, and
/// while a charge runs it records the press.
pub open spec fn apply_key(w: WormView, key: Key, tick: u64) -> WormView {
    match key {
        Key::AimUp => if tick >= w.next_aim_tick {
            WormView { aim: clamp_aim(w.aim - 1), next_aim_tick: (tick + AIM_COOLDOWN_TICKS) as u64, ..w }
        } else {
            w
        },
        Key::AimDown => if tick >= w.next_aim_tick {
            WormView { aim: clamp_aim(w.aim + 1), next_aim_tick: (tick + AIM_COOLDOWN_TICKS) as u64, ..w }
        } else {
            w
        },
        Key::Left => pulse_move(w, -1i8, tick),
        Key::Right => pulse_move(w, 1i8, tick),
        Key::Jump => WormView { jump: true, ..w },
        Key::Bazooka => WormView { weapon: Weapon::Bazooka, ..w },
        Key::Grenade => WormView { weapon: Weapon::Grenade, ..w },
        Key::Charge => {
            let started = if w.charge_started is None && w.fire_cooldown == 0 {
                Some(tick)
            } else {
                w.charge_started
            };
            WormView {
                charge_started: started,
                last_charge_pulse: if started is Some { Some(tick) } else { w.last_charge_pulse },
                ..w
            }
        },
    }
}

/// The keys applied in order.
pub open spec fn apply_keys(w: WormView, keys: Seq<Key>, tick: u64) -> WormView
    decreases keys.len(),
{
    if keys.len() == 0 {
        w
    } else {
        apply_keys(apply_key(w, keys[0], tick), keys.drop_first(), tick)
    }
}

pub open spec fn is_ascii_alphabetic(b: u8) -> bool {
    (0x41 <= b <= 0x5a) || (0x61 <= b <= 0x7a)
}

/// The key an ordinary byte stands for.
pub open spec fn plain_key(b: u8) -> Seq<Key> {
    if b == 0x61 || b == 0x41 {
        seq![Key::Left]
    } else if b == 0x64 || b == 0x44 {
        seq![Key::Right]
    } else if b == 0x20 {
        seq![Key::Jump]
    } else if b == 0x77 || b == 0x57 || b == 0x6a || b == 0x4a {
        seq![Key::AimUp]
    } else if b == 0x73 || b == 0x53 || b == 0x6c || b == 0x4c {
        seq![Key::AimDown]
    } else if b == 0x31 {
        seq![Key::Bazooka]
    } else if b == 0x32 {
        seq![Key::Grenade]
    } else if b == 0x0d || b == 0x0a || b == 0x78 || b == 0x58 || b == 0x66 || b == 0x46 {
        seq![Key::Charge]
    } else {
        seq![]
    }
}

/// The key the final byte of an arrow-key escape sequence stands for.
pub open spec fn arrow_key(b: u8) -> Seq<Key> {
    if b == 0x41 {
        seq![Key::AimUp]
    } else if b == 0x42 {
        seq![Key::AimDown]
    } else if b == 0x43 {
        seq![Key::Right]
    } else if b == 0x44 {
        seq![Key::Left]
    } else {
        seq![]
    }
}

/// The first index at or after `j` holding a letter or `~`: where an escape
/// sequence ends (the length when it never does).
pub open spec fn escape_end(bytes: Seq<u8>, j: int) -> int
    decreases bytes.len() - j,
{
    if j >= bytes.len() {
        bytes.len() as int
    } else if is_ascii_alphabetic(bytes[j]) || bytes[j] == 0x7e {
        j
    } else {
        escape_end(bytes, j + 1)
    }
}

/// The keys in `bytes` from index `i` on. An escape byte followed by `[` or `O`
/// opens a sequence that runs to its first letter or `~`, which names an arrow key
/// (CSI, SS3 and modified arrows alike); an escape followed by anything else is
/// dropped together with that byte.
pub open spec fn decode_from(bytes: Seq<u8>, i: int) -> Seq<Key>
    decreases bytes.len() - i,
{
    if i < 0 || i >= bytes.len() {
        seq![]
    } else if bytes[i] == 0x1b {
        if i + 1 >= bytes.len() {
            seq![]
        } else if bytes[i + 1] != 0x5b && bytes[i + 1] != 0x4f {
            decode_from(bytes, i + 2)
        } else {
            let j = escape_end(bytes, i + 2);
            if j >= bytes.len() {
                seq![]
            } else {
                proof {
                    lemma_escape_end(bytes, i + 2);
                }
                arrow_key(bytes[j]) + decode_from(bytes, j + 1)
            }
        }
    } else {
        plain_key(bytes[i]) + decode_from(bytes, i + 1)
    }
}

pub open spec fn decode(bytes: Seq<u8>) -> Seq<Key> {
    decode_from(bytes, 0)
}

pub proof fn lemma_escape_end(bytes: Seq<u8>, j: int)
    requires
        0 <= j,
    ensures
        j <= escape_end(bytes, j) <= bytes.len() || (j > bytes.len() && escape_end(bytes, j) == bytes.len()),
        escape_end(bytes, j) < bytes.len() ==> is_ascii_alphabetic(bytes[escape_end(bytes, j)])
            || bytes[escape_end(bytes, j)] == 0x7e,
    decreases bytes.len() - j,
{
    if j < bytes.len() && !(is_ascii_alphabetic(bytes[j]) || bytes[j] == 0x7e) {
        lemma_escape_end(bytes, j + 1);
    }
}

proof fn lemma_apply_one(w: WormView, k: Key, rest: Seq<Key>, tick: u64)
    ensures
        apply_keys(w, seq![k] + rest, tick) == apply_keys(apply_key(w, k, tick), rest, tick),
{
    assert((seq![k] + rest).drop_first() =~= rest);
}

proof fn lemma_apply_none(w: WormView, rest: Seq<Key>, tick: u64)
    ensures
        apply_keys(w, seq![] + rest, tick) == apply_keys(w, rest, tick),
{
    assert(seq![] + rest =~= rest);
}

/// Power in percent of a shot charged for `elapsed` ticks: five percent per step of
/// `POWER_STEP_TICKS`, full after two seconds.
pub open spec fn power_for(elapsed: u64) -> u32 {
    let e = if elapsed > MAX_CHARGE_TICKS { MAX_CHARGE_TICKS } else { elapsed };
    let p = (e / POWER_STEP_TICKS) * POWER_STEP_PERCENT as u64;
    if p > 100 { 100 } else { p as u32 }
}

/// Power builds with the time Enter was held: none at first, five percent more for
/// each step of `POWER_STEP_TICKS`, never falling as the charge runs, and full from
/// the maximum charge time on.
pub proof fn lemma_power_builds(e: u64, f: u64)
    ensures
        power_for(0) == 0,
        e <= f ==> power_for(e) <= power_for(f),
        e + POWER_STEP_TICKS <= MAX_CHARGE_TICKS ==> power_for((e + POWER_STEP_TICKS) as u64) == power_for(e)
            + POWER_STEP_PERCENT,
        e >= MAX_CHARGE_TICKS ==> power_for(e) == 100,
        power_for(e) <= 100,
{
}

/// A charge is released once it has run for the full charge time, or once Enter has
/// been silent for `FIRE_RELEASE_SILENCE` ticks, provided the weapon has cooled down.
pub open spec fn releases(w: WormView, tick: u64) -> bool {
    &&& w.charge_started is Some
    &&& (saturating_sub(tick, w.charge_started->0) >= MAX_CHARGE_TICKS
        || (w.last_charge_pulse is Some && saturating_sub(tick, w.last_charge_pulse->0) >= FIRE_RELEASE_SILENCE))
    &&& w.fire_cooldown == 0
}

pub open spec fn cooldown_of(weapon: Weapon) -> u16 {
    match weapon {
        Weapon::Bazooka => 12,
        Weapon::Grenade => 20,
        Weapon::Meteor => 0,
    }
}

pub open spec fn shot_of(weapon: Weapon, power_pct: u32) -> Shot {
    Shot {
        weapon,
        power_pct,
        glyph: match weapon {
            Weapon::Bazooka => '*',
            Weapon::Grenade => 'o',
            Weapon::Meteor => '@',
        },
        fuse: match weapon {
            Weapon::Bazooka => 200,
            Weapon::Grenade => 240,
            Weapon::Meteor => 200,
        },
    }
}

/// A fired shot is the weapon the worm holds, at the power it was charged to: the
/// shot carries that weapon and power, different weapons fly with different glyphs,
/// and a grenade's fuse outlasts a rocket's.
pub proof fn lemma_shot_is_the_held_weapon(weapon: Weapon, power_pct: u32, other: Weapon)
    ensures
        shot_of(weapon, power_pct).weapon == weapon,
        shot_of(weapon, power_pct).power_pct == power_pct,
        weapon != other ==> shot_of(weapon, power_pct).glyph != shot_of(other, power_pct).glyph,
        shot_of(Weapon::Grenade, power_pct).fuse > shot_of(Weapon::Bazooka, power_pct).fuse,
        cooldown_of(Weapon::Grenade) > cooldown_of(Weapon::Bazooka),
{
}

/// Health after one tick of regeneration: a wounded, living worm regains
/// `MAX_HEALTH / HEALTH_REGEN_TICKS` per tick, carrying the remainder.
pub open spec fn regen_health(w: WormView) -> (i16, i32) {
    if w.health > 0 && w.health < MAX_HEALTH {
        let carry = w.regen_carry + MAX_HEALTH;
        let step = carry / (HEALTH_REGEN_TICKS as int);
        if step > 0 {
            let h = if w.health + step > MAX_HEALTH { MAX_HEALTH as int } else { w.health + step };
            (h as i16, (carry - step * HEALTH_REGEN_TICKS) as i32)
        } else {
            (w.health, carry as i32)
        }
    } else {
        (w.health, w.regen_carry)
    }
}


/// A worm applies a run of presses of one direction within a tick as a single press:
/// holding a key down cannot inflate acceleration.
pub proof fn lemma_repeated_move_in_one_tick(w: WormView, direction: i8, tick: u64)
    ensures
        pulse_move(pulse_move(w, direction, tick), direction, tick) == pulse_move(w, direction, tick),
{
}

/// Repeated Enter presses within one tick do no more than one press: power only comes
/// from elapsed time.
pub proof fn lemma_repeated_charge_in_one_tick(w: WormView, tick: u64)
    ensures
        apply_key(apply_key(w, Key::Charge, tick), Key::Charge, tick) == apply_key(w, Key::Charge, tick),
{
}

/// Aiming changes neither the worm's movement presses nor a running charge.
pub proof fn lemma_aiming_keeps_motion_and_charge(w: WormView, tick: u64)
    ensures
        apply_key(w, Key::AimUp, tick).pulses == w.pulses,
        apply_key(w, Key::AimUp, tick).charge_started == w.charge_started,
        apply_key(w, Key::AimUp, tick).last_charge_pulse == w.last_charge_pulse,
        apply_key(w, Key::AimDown, tick).pulses == w.pulses,
        apply_key(w, Key::AimDown, tick).charge_started == w.charge_started,
        apply_key(w, Key::AimDown, tick).last_charge_pulse == w.last_charge_pulse,
{
}

/// Any key keeps a well-formed worm well formed: aim within eight steps, facing left
/// or right, never holding the meteor.
pub proof fn lemma_keys_keep_worm_wf(w: WormView, keys: Seq<Key>, tick: u64)
    requires
        worm_wf(w),
    ensures
        worm_wf(apply_keys(w, keys, tick)),
    decreases keys.len(),
{
    if keys.len() > 0 {
        lemma_keys_keep_worm_wf(apply_key(w, keys[0], tick), keys.drop_first(), tick);
    }
}

/// Holding Enter longer never gives a weaker shot.
pub proof fn lemma_power_grows_with_charge_time(a: u64, b: u64)
    requires
        a <= b,
    ensures
        power_for(a) <= power_for(b),
{
    let ea = if a > MAX_CHARGE_TICKS { MAX_CHARGE_TICKS } else { a };
    let eb = if b > MAX_CHARGE_TICKS { MAX_CHARGE_TICKS } else { b };
    assert(ea / POWER_STEP_TICKS <= eb / POWER_STEP_TICKS) by (nonlinear_arith)
        requires
            ea <= eb,
            POWER_STEP_TICKS == 5,
    ;
}

impl Worm {
    pub open spec fn wf(&self) -> bool {
        worm_wf(self@)
    }

    /// A worm fresh from joining: full health, aiming one step up, facing right,
    /// holding the bazooka.
    pub fn spawned(id: PlayerId, name: String) -> (w: Worm)
        ensures
            w.wf(),
            w@ == (WormView {
                id,
                name: name@,
                health: MAX_HEALTH,
                kills: 0,
                deaths: 0,
                aim: -1i8,
                facing: 1,
                weapon: Weapon::Bazooka,
                respawn_ticks: 0,
                fire_cooldown: 0,
                jump: false,
                pulses: Seq::empty(),
                charge_started: None,
                last_charge_pulse: None,
                last_move_tick: 0,
                movement_started: 0,
                last_direction: 0,
                last_input_tick: 0,
                regen_carry: 0,
                next_aim_tick: 0,
            }),
    {
        Worm {
            id,
            name,
            health: MAX_HEALTH,
            kills: 0,
            deaths: 0,
            aim: -1,
            facing: 1,
            weapon: Weapon::Bazooka,
            respawn_ticks: 0,
            fire_cooldown: 0,
            jump: false,
            pulses: Vec::new(),
            charge_started: None,
            last_charge_pulse: None,
            last_move_tick: 0,
            movement_started: 0,
            last_direction: 0,
            last_input_tick: 0,
            regen_carry: 0,
            next_aim_tick: 0,
        }
    }

    /// Brings a worm back to life: full health, no charge, no cooldown, no pending
    /// presses or jump. Its score, aim, facing and weapon are kept.
    pub fn respawn(&mut self)
        requires
            old(self).wf(),
        ensures
            final(self).wf(),
            final(self)@ == (WormView {
                health: MAX_HEALTH,
                respawn_ticks: 0,
                regen_carry: 0,
                charge_started: None,
                last_charge_pulse: None,
                fire_cooldown: 0,
                pulses: Seq::empty(),
                jump: false,
                ..old(self)@
            }),
    {
        self.health = MAX_HEALTH;
        self.respawn_ticks = 0;
        self.regen_carry = 0;
        self.charge_started = None;
        self.last_charge_pulse = None;
        self.fire_cooldown = 0;
        self.pulses = Vec::new();
        self.jump = false;
    }

    /// A press of `direction` (`-1` left, `1` right) at `tick`.
    pub fn pulse_move(&mut self, direction: i8, tick: u64)
        requires
            old(self).wf(),
            direction == 1 || direction == -1,
        ensures
            final(self).wf(),
            final(self)@ == pulse_move(old(self)@, direction, tick),
    {
        let gap = tick.saturating_sub(self.last_move_tick);
        if direction == self.last_direction && self.last_move_tick == tick {
            return;
        }
        if direction != self.last_direction || gap > 4 {
            self.movement_started = tick;
        }
        let held = tick.saturating_sub(self.movement_started);
        let held = if held > 24 { 24 } else { held };
        self.pulses.push(MovePulse { direction, held_ticks: held, boosted: gap <= 4 });
        self.facing = direction;
        self.last_direction = direction;
        self.last_move_tick = tick;
        self.last_input_tick = tick;
        proof {
            assert(self@ =~= pulse_move(old(self)@, direction, tick));
        }
    }

    /// Applies one key at `tick`.
    pub fn press(&mut self, key: Key, tick: u64)
        requires
            old(self).wf(),
            tick <= u64::MAX - AIM_COOLDOWN_TICKS,
        ensures
            final(self).wf(),
            final(self)@ == apply_key(old(self)@, key, tick),
    {
        match key {
            Key::AimUp => {
                if tick >= self.next_aim_tick {
                    let a = self.aim - 1;
                    self.aim = if a < -8 { -8 } else if a > 8 { 8 } else { a };
                    self.next_aim_tick = tick + AIM_COOLDOWN_TICKS;
                }
            },
            Key::AimDown => {
                if tick >= self.next_aim_tick {
                    let a = self.aim + 1;
                    self.aim = if a < -8 { -8 } else if a > 8 { 8 } else { a };
                    self.next_aim_tick = tick + AIM_COOLDOWN_TICKS;
                }
            },
            Key::Left => self.pulse_move(-1, tick),
            Key::Right => self.pulse_move(1, tick),
            Key::Jump => self.jump = true,
            Key::Bazooka => self.weapon = Weapon::Bazooka,
            Key::Grenade => self.weapon = Weapon::Grenade,
            Key::Charge => {
                if self.charge_started.is_none() && self.fire_cooldown == 0 {
                    self.charge_started = Some(tick);
                }
                if self.charge_started.is_some() {
                    self.last_charge_pulse = Some(tick);
                }
            },
        }
        proof {
            assert(self@ =~= apply_key(old(self)@, key, tick));
        }
    }

    /// Steers the worm by the raw bytes a terminal sent during tick `tick`: the keys
    /// `decode` finds in them, applied in order.
    pub fn handle_input(&mut self, input: &[u8], tick: u64)
        requires
            old(self).wf(),
            tick <= u64::MAX - AIM_COOLDOWN_TICKS,
        ensures
            final(self).wf(),
            final(self)@ == apply_keys(old(self)@, decode(input@), tick),
    {
        let bytes = input;
        let n = bytes.len();
        let mut i: usize = 0;
        while i < n
            invariant
                self.wf(),
                n == bytes@.len(),
                0 <= i <= n,
                tick <= u64::MAX - AIM_COOLDOWN_TICKS,
                apply_keys(self@, decode_from(bytes@, i as int), tick) == apply_keys(old(self)@, decode(bytes@), tick),
            decreases n - i,
        {
            let byte = bytes[i];
            if byte == 0x1b {
                if i + 1 >= n {
                    i = n;
                    continue;
                }
                let intro = bytes[i + 1];
                if intro != 0x5b && intro != 0x4f {
                    i = i + 2;
                    continue;
                }
                let mut j = i + 2;
                while j < n && !(((0x41 <= bytes[j] && bytes[j] <= 0x5a) || (0x61 <= bytes[j] && bytes[j] <= 0x7a)) || bytes[j] == 0x7e)
                    invariant
                        n == bytes@.len(),
                        i + 2 <= j <= n,
                        escape_end(bytes@, i + 2) == escape_end(bytes@, j as int),
                    decreases n - j,
                {
                    j = j + 1;
                }
                if j >= n {
                    i = n;
                    continue;
                }
                let end = bytes[j];
                let ghost rest = decode_from(bytes@, j + 1);
                let ghost w0 = self@;
                if end == 0x41 {
                    self.press(Key::AimUp, tick);
                    proof { lemma_apply_one(w0, Key::AimUp, rest, tick); }
                } else if end == 0x42 {
                    self.press(Key::AimDown, tick);
                    proof { lemma_apply_one(w0, Key::AimDown, rest, tick); }
                } else if end == 0x43 {
                    self.press(Key::Right, tick);
                    proof { lemma_apply_one(w0, Key::Right, rest, tick); }
                } else if end == 0x44 {
                    self.press(Key::Left, tick);
                    proof { lemma_apply_one(w0, Key::Left, rest, tick); }
                } else {
                    proof { lemma_apply_none(w0, rest, tick); }
                }
                i = j + 1;
                continue;
            }
            let ghost rest = decode_from(bytes@, i + 1);
            let ghost w0 = self@;
            let key: Option<Key> = if byte == 0x61 || byte == 0x41 {
                Some(Key::Left)
            } else if byte == 0x64 || byte == 0x44 {
                Some(Key::Right)
            } else if byte == 0x20 {
                Some(Key::Jump)
            } else if byte == 0x77 || byte == 0x57 || byte == 0x6a || byte == 0x4a {
                Some(Key::AimUp)
            } else if byte == 0x73 || byte == 0x53 || byte == 0x6c || byte == 0x4c {
                Some(Key::AimDown)
            } else if byte == 0x31 {
                Some(Key::Bazooka)
            } else if byte == 0x32 {
                Some(Key::Grenade)
            } else if byte == 0x0d || byte == 0x0a || byte == 0x78 || byte == 0x58 || byte == 0x66 || byte == 0x46 {
                Some(Key::Charge)
            } else {
                None
            };
            match key {
                Some(k) => {
                    self.press(k, tick);
                    proof {
                        assert(plain_key(byte) == seq![k]);
                        lemma_apply_one(w0, k, rest, tick);
                    }
                },
                None => {
                    proof {
                        assert(plain_key(byte) == Seq::<Key>::empty());
                        lemma_apply_none(w0, rest, tick);
                    }
                },
            }
            i = i + 1;
        }
    }
}


impl Worm {
    /// One simulation tick of the worm at tick number `tick`.
    ///
    /// A worm one tick from respawning is left for the caller to place and revive; a
    /// worm still counting down counts down. A living worm's weapon cools by a tick,
    /// it regenerates, a charge that `releases` fires at the power its elapsed time
    /// earned (starting the weapon's cooldown), and its pending presses and jump are
    /// handed over and cleared.
    pub fn advance(&mut self, tick: u64) -> (turn: Turn)
        requires
            old(self).wf(),
        ensures
            final(self).wf(),
            old(self).respawn_ticks == 1 ==> turn is Respawn && final(self)@ == old(self)@,
            old(self).respawn_ticks > 1 ==> turn is Waiting && final(self)@ == (WormView {
                respawn_ticks: (old(self).respawn_ticks - 1) as u16,
                ..old(self)@
            }),
            old(self).respawn_ticks == 0 ==> {
                let cooled = if old(self).fire_cooldown > 0 { (old(self).fire_cooldown - 1) as u16 } else { 0u16 };
                let mid = WormView {
                    fire_cooldown: cooled,
                    health: regen_health(old(self)@).0,
                    regen_carry: regen_health(old(self)@).1,
                    ..old(self)@
                };
                let fire = releases(mid, tick);
                &&& turn is Alive
                &&& turn->Alive_0.pulses@ == old(self).pulses@
                &&& turn->Alive_0.jump == old(self).jump
                &&& turn->Alive_0.idle == (saturating_sub(tick, old(self).last_input_tick) > FRICTION_GRACE_TICKS)
                &&& turn->Alive_0.shot is Some ==> turn->Alive_0.shot->0.weapon == old(self).weapon
                    && turn->Alive_0.shot->0.power_pct <= 100
                &&& turn->Alive_0.shot == if fire {
                    Some(shot_of(old(self).weapon, power_for(saturating_sub(tick, old(self).charge_started->0))))
                } else {
                    None
                }
                &&& final(self)@ == (WormView {
                    fire_cooldown: if fire { cooldown_of(old(self).weapon) } else { cooled },
                    charge_started: if fire { None } else { old(self).charge_started },
                    last_charge_pulse: if fire { None } else { old(self).last_charge_pulse },
                    pulses: Seq::empty(),
                    jump: false,
                    ..mid
                })
            },
    {
        if self.respawn_ticks == 1 {
            return Turn::Respawn;
        }
        if self.respawn_ticks > 0 {
            self.respawn_ticks = self.respawn_ticks - 1;
            return Turn::Waiting;
        }
        self.fire_cooldown = self.fire_cooldown.saturating_sub(1);
        if self.health > 0 && self.health < MAX_HEALTH {
            self.regen_carry = self.regen_carry + MAX_HEALTH as i32;
            let step = self.regen_carry / HEALTH_REGEN_TICKS;
            if step > 0 {
                let raised = self.health as i32 + step;
                self.health = if raised > MAX_HEALTH as i32 { MAX_HEALTH } else { raised as i16 };
                self.regen_carry = self.regen_carry - step * HEALTH_REGEN_TICKS;
            }
        }
        let idle = tick.saturating_sub(self.last_input_tick) > FRICTION_GRACE_TICKS;
        let mut shot: Option<Shot> = None;
        match self.charge_started {
            Some(start) => {
                let elapsed = tick.saturating_sub(start);
                let silent = match self.last_charge_pulse {
                    Some(pulse) => tick.saturating_sub(pulse) >= FIRE_RELEASE_SILENCE,
                    None => false,
                };
                if (elapsed >= MAX_CHARGE_TICKS || silent) && self.fire_cooldown == 0 {
                    let e = if elapsed > MAX_CHARGE_TICKS { MAX_CHARGE_TICKS } else { elapsed };
                    let p = (e / POWER_STEP_TICKS) * POWER_STEP_PERCENT as u64;
                    let power_pct: u32 = if p > 100 { 100 } else { p as u32 };
                    shot = Some(self.fire(power_pct));
                    self.charge_started = None;
                    self.last_charge_pulse = None;
                }
            },
            None => {},
        }
        let mut pulses: Vec<MovePulse> = Vec::new();
        std::mem::swap(&mut pulses, &mut self.pulses);
        let jump = self.jump;
        self.jump = false;
        proof {
            assert(self.pulses@ =~= Seq::<MovePulse>::empty());
        }
        Turn::Alive(Motion { pulses, jump, idle, shot })
    }

    /// Fires the held weapon with `power_pct` percent power and starts its cooldown.
    fn fire(&mut self, power_pct: u32) -> (shot: Shot)
        ensures
            shot == shot_of(old(self).weapon, power_pct),
            shot.weapon == old(self).weapon,
            shot.power_pct == power_pct,
            final(self)@ == (WormView { fire_cooldown: cooldown_of(old(self).weapon), ..old(self)@ }),
    {
        self.fire_cooldown = match self.weapon {
            Weapon::Bazooka => 12,
            Weapon::Grenade => 20,
            Weapon::Meteor => 0,
        };
        Shot {
            weapon: self.weapon,
            power_pct,
            glyph: match self.weapon {
                Weapon::Bazooka => '*',
                Weapon::Grenade => 'o',
                Weapon::Meteor => '@',
            },
            fuse: match self.weapon {
                Weapon::Bazooka => 200,
                Weapon::Grenade => 240,
                Weapon::Meteor => 200,
            },
        }
    }

    /// Takes `damage` from a blast. A worm brought to zero health or below dies: its
    /// death is counted and it starts the respawn countdown. Returns whether it died.
    pub fn take_hit(&mut self, damage: i16) -> (died: bool)
        requires
            old(self).wf(),
            old(self).health - damage >= i16::MIN,
            old(self).health - damage <= MAX_HEALTH,
            old(self).deaths < u32::MAX,
        ensures
            final(self).wf(),
            died == (old(self).health - damage <= 0),
            final(self)@ == (WormView {
                health: (old(self).health - damage) as i16,
                deaths: if died { (old(self).deaths + 1) as u32 } else { old(self).deaths },
                respawn_ticks: if died { RESPAWN_TICKS } else { old(self).respawn_ticks },
                ..old(self)@
            }),
    {
        self.health = self.health - damage;
        if self.health <= 0 {
            self.deaths = self.deaths + 1;
            self.respawn_ticks = RESPAWN_TICKS;
            true
        } else {
            false
        }
    }

    /// A worm buried with no air above it dies on the spot.
    pub fn bury(&mut self)
        requires
            old(self).wf(),
            old(self).deaths < u32::MAX,
        ensures
            final(self).wf(),
            final(self)@ == (WormView {
                health: 0,
                deaths: (old(self).deaths + 1) as u32,
                respawn_ticks: RESPAWN_TICKS,
                ..old(self)@
            }),
    {
        self.health = 0;
        self.deaths = self.deaths + 1;
        self.respawn_ticks = RESPAWN_TICKS;
    }

    /// Counts a kill of another worm.
    pub fn credit_kill(&mut self)
        requires
            old(self).kills < u32::MAX,
        ensures
            final(self)@ == (WormView { kills: (old(self).kills + 1) as u32, ..old(self)@ }),
    {
        self.kills = self.kills + 1;
    }
}

/// The weapon held after `keys`: that of the last weapon key among them, else `w`.
pub open spec fn last_weapon(keys: Seq<Key>, w: Weapon) -> Weapon
    decreases keys.len(),
{
    if keys.len() == 0 {
        w
    } else {
        last_weapon(
            keys.drop_first(),
            match keys[0] {
                Key::Bazooka => Weapon::Bazooka,
                Key::Grenade => Weapon::Grenade,
                _ => w,
            },
        )
    }
}

proof fn lemma_aim_cooling(w: WormView, keys: Seq<Key>, tick: u64)
    requires
        w.next_aim_tick > tick,
    ensures
        apply_keys(w, keys, tick).aim == w.aim,
    decreases keys.len(),
{
    if keys.len() > 0 {
        lemma_aim_cooling(apply_key(w, keys[0], tick), keys.drop_first(), tick);
    }
}

/// The keys of one input packet move the aim at most one step, within eight steps
/// either way, and leave the worm holding the weapon of the last weapon key.
pub proof fn lemma_one_aim_step_per_packet(w: WormView, keys: Seq<Key>, tick: u64)
    requires
        -8 <= w.aim <= 8,
        tick <= u64::MAX - AIM_COOLDOWN_TICKS,
    ensures
        -8 <= apply_keys(w, keys, tick).aim <= 8,
        -1 <= apply_keys(w, keys, tick).aim - w.aim <= 1,
        apply_keys(w, keys, tick).weapon == last_weapon(keys, w.weapon),
    decreases keys.len(),
{
    if keys.len() > 0 {
        let k = keys[0];
        let w1 = apply_key(w, k, tick);
        lemma_one_aim_step_per_packet(w1, keys.drop_first(), tick);
        if (k == Key::AimUp || k == Key::AimDown) && tick >= w.next_aim_tick {
            lemma_aim_cooling(w1, keys.drop_first(), tick);
        }
    }
}

/// Where an escape sequence that starts at `j` ends when its parameter bytes are
/// `params`: right after them.
proof fn lemma_escape_over_params(bytes: Seq<u8>, j: int, params: Seq<u8>)
    requires
        0 <= j,
        j + params.len() <= bytes.len(),
        bytes.subrange(j, j + params.len()) == params,
        forall|i: int| 0 <= i < params.len() ==> !is_ascii_alphabetic(#[trigger] params[i]) && params[i] != 0x7e,
    ensures
        escape_end(bytes, j) == escape_end(bytes, j + params.len()),
    decreases params.len(),
{
    if params.len() > 0 {
        assert(bytes[j] == params[0]);
        assert(bytes.subrange(j + 1, j + params.len()) =~= params.drop_first());
        lemma_escape_over_params(bytes, j + 1, params.drop_first());
    }
}

/// Decoding looks only forward: the keys of `prefix + rest` from past the prefix are
/// the keys of `rest`.
proof fn lemma_decode_suffix(prefix: Seq<u8>, rest: Seq<u8>, i: int)
    requires
        0 <= i,
    ensures
        decode_from(prefix + rest, prefix.len() + i) == decode_from(rest, i),
    decreases rest.len() - i,
{
    let b = prefix + rest;
    let p = prefix.len() as int;
    if i < rest.len() {
        assert(b[p + i] == rest[i]);
        if rest[i] == 0x1b {
            if i + 1 < rest.len() {
                assert(b[p + i + 1] == rest[i + 1]);
                if rest[i + 1] != 0x5b && rest[i + 1] != 0x4f {
                    lemma_decode_suffix(prefix, rest, i + 2);
                } else {
                    lemma_escape_shift(prefix, rest, i + 2);
                    let j = escape_end(rest, i + 2);
                    if j < rest.len() {
                        lemma_escape_end(rest, i + 2);
                        assert(b[p + j] == rest[j]);
                        lemma_decode_suffix(prefix, rest, j + 1);
                    }
                }
            }
        } else {
            lemma_decode_suffix(prefix, rest, i + 1);
        }
    }
}

proof fn lemma_escape_shift(prefix: Seq<u8>, rest: Seq<u8>, j: int)
    requires
        0 <= j,
    ensures
        escape_end(prefix + rest, prefix.len() + j) == prefix.len() + escape_end(rest, j),
    decreases rest.len() - j,
{
    let b = prefix + rest;
    if j < rest.len() {
        assert(b[prefix.len() + j] == rest[j]);
        if !(is_ascii_alphabetic(rest[j]) || rest[j] == 0x7e) {
            lemma_escape_shift(prefix, rest, j + 1);
        }
    }
}

/// A worm steered by a packet holding the single byte `b` at `tick`.
pub open spec fn after_byte(w: WormView, b: u8, tick: u64) -> WormView {
    apply_keys(w, decode(seq![b]), tick)
}

proof fn lemma_one_byte(b: u8)
    requires
        b != 0x1b,
    ensures
        decode(seq![b]) == plain_key(b),
        forall|rest: Seq<u8>| #[trigger] decode(seq![b] + rest) == plain_key(b) + decode(rest),
{
    assert(decode_from(seq![b], 1) == Seq::<Key>::empty());
    assert(decode(seq![b]) =~= plain_key(b));
    assert forall|rest: Seq<u8>| #[trigger] decode(seq![b] + rest) == plain_key(b) + decode(rest) by {
        let bytes = seq![b] + rest;
        assert(bytes[0] == b);
        lemma_decode_suffix(seq![b], rest, 0);
    }
}

/// The controls. A packet of one byte steers a living worm as the controls table
/// says, whatever state it is in: `w`/`j` aim one step up (towards -8) and `s`/`l`
/// one step down (towards 8), at most once per aim cooldown; `a` thrusts left and
/// `d` right; space jumps; `1` takes the bazooka and `2` the grenade; Enter, `x`
/// and `f` start a charge when the weapon is ready and keep a running one alive;
/// every other byte but the escape does nothing. Letters work in either case.
pub proof fn lemma_key_bindings(w: WormView, tick: u64)
    requires
        worm_wf(w),
        tick <= u64::MAX - AIM_COOLDOWN_TICKS,
    ensures
        forall|b: u8| (b == 0x77 || b == 0x57 || b == 0x6a || b == 0x4a) ==> #[trigger] after_byte(w, b, tick) == if tick >= w.next_aim_tick {
            WormView {
                aim: if w.aim == -8 { -8i8 } else { (w.aim - 1) as i8 },
                next_aim_tick: (tick + AIM_COOLDOWN_TICKS) as u64,
                ..w
            }
        } else {
            w
        },
        forall|b: u8| (b == 0x73 || b == 0x53 || b == 0x6c || b == 0x4c) ==> #[trigger] after_byte(w, b, tick) == if tick >= w.next_aim_tick {
            WormView {
                aim: if w.aim == 8 { 8i8 } else { (w.aim + 1) as i8 },
                next_aim_tick: (tick + AIM_COOLDOWN_TICKS) as u64,
                ..w
            }
        } else {
            w
        },
        forall|b: u8| (b == 0x61 || b == 0x41) ==> (#[trigger] after_byte(w, b, tick)).last_direction == -1
            && after_byte(w, b, tick).last_move_tick == tick && after_byte(w, b, tick).aim == w.aim
            && after_byte(w, b, tick).weapon == w.weapon,
        forall|b: u8| (b == 0x64 || b == 0x44) ==> (#[trigger] after_byte(w, b, tick)).last_direction == 1
            && after_byte(w, b, tick).last_move_tick == tick && after_byte(w, b, tick).aim == w.aim
            && after_byte(w, b, tick).weapon == w.weapon,
        after_byte(w, 0x20, tick) == (WormView { jump: true, ..w }),
        after_byte(w, 0x31, tick) == (WormView { weapon: Weapon::Bazooka, ..w }),
        after_byte(w, 0x32, tick) == (WormView { weapon: Weapon::Grenade, ..w }),
        forall|b: u8| (b == 0x0d || b == 0x0a || b == 0x78 || b == 0x58 || b == 0x66 || b == 0x46) ==> {
            let after = #[trigger] after_byte(w, b, tick);
            &&& after.charge_started is Some <==> (w.charge_started is Some || w.fire_cooldown == 0)
            &&& w.charge_started is Some ==> after.charge_started == w.charge_started
            &&& w.charge_started is None && w.fire_cooldown == 0 ==> after.charge_started == Some(tick)
            &&& after.charge_started is Some ==> after.last_charge_pulse == Some(tick)
            &&& after.charge_started is None ==> after == w
            &&& after.aim == w.aim && after.weapon == w.weapon && after.pulses == w.pulses
        },
        forall|b: u8| !(b == 0x77 || b == 0x57 || b == 0x6a || b == 0x4a || b == 0x73 || b == 0x53 || b == 0x6c
            || b == 0x4c || b == 0x61 || b == 0x41 || b == 0x64 || b == 0x44 || b == 0x20 || b == 0x31 || b == 0x32
            || b == 0x0d || b == 0x0a || b == 0x78 || b == 0x58 || b == 0x66 || b == 0x46) ==> #[trigger] after_byte(w, b, tick) == w,
{
    assert forall|b: u8| b != 0x1b implies #[trigger] after_byte(w, b, tick) == apply_keys(w, plain_key(b), tick) by {
        lemma_one_byte(b);
    }
    assert(after_byte(w, 0x1b, tick) == w) by {
        assert(decode(seq![0x1bu8]) =~= Seq::<Key>::empty());
    }
    assert forall|k: Key| #[trigger] apply_keys(w, seq![k], tick) == apply_key(w, k, tick) by {
        lemma_apply_one(w, k, Seq::empty(), tick);
        assert(seq![k] + Seq::<Key>::empty() =~= seq![k]);
    }
    assert(apply_keys(w, Seq::<Key>::empty(), tick) == w);
}

/// Letters steer alike in either case, and the spare bindings match the main ones:
/// `j` is `w`, `l` is `s`, and Enter, line feed, `x` and `f` all charge; whatever
/// follows in the packet.
pub proof fn lemma_key_aliases(rest: Seq<u8>)
    ensures
        forall|b: u8| 0x61 <= b <= 0x7a ==> #[trigger] decode(seq![b] + rest) == decode(seq![(b - 0x20) as u8] + rest),
        decode(seq![0x6au8] + rest) == decode(seq![0x77u8] + rest),
        decode(seq![0x6cu8] + rest) == decode(seq![0x73u8] + rest),
        decode(seq![0x0du8] + rest) == decode(seq![0x66u8] + rest),
        decode(seq![0x0au8] + rest) == decode(seq![0x66u8] + rest),
        decode(seq![0x78u8] + rest) == decode(seq![0x66u8] + rest),
{
    assert forall|b: u8| b != 0x1b implies #[trigger] decode(seq![b] + rest) == plain_key(b) + decode(rest) by {
        lemma_one_byte(b);
    }
    assert forall|b: u8| 0x61 <= b <= 0x7a implies #[trigger] decode(seq![b] + rest) == decode(seq![(b - 0x20) as u8] + rest) by {
        let u = (b - 0x20) as u8;
        assert(decode(seq![b] + rest) == plain_key(b) + decode(rest));
        assert(decode(seq![u] + rest) == plain_key(u) + decode(rest));
    }
    assert(decode(seq![0x6au8] + rest) == plain_key(0x6a) + decode(rest));
    assert(decode(seq![0x77u8] + rest) == plain_key(0x77) + decode(rest));
    assert(decode(seq![0x6cu8] + rest) == plain_key(0x6c) + decode(rest));
    assert(decode(seq![0x73u8] + rest) == plain_key(0x73) + decode(rest));
    assert(decode(seq![0x0du8] + rest) == plain_key(0x0d) + decode(rest));
    assert(decode(seq![0x0au8] + rest) == plain_key(0x0a) + decode(rest));
    assert(decode(seq![0x78u8] + rest) == plain_key(0x78) + decode(rest));
    assert(decode(seq![0x66u8] + rest) == plain_key(0x66) + decode(rest));
}

/// Arrow keys read alike in every flavour a terminal sends: an escape, `[` (CSI) or
/// `O` (SS3), any modifier parameters (digits, `;`), then `A`, `B`, `C` or `D`, steer
/// as `w`, `s`, `d` and `a` do: they decode to the same keys, so one worm steered by
/// either packet at one tick ends in the same state.
pub proof fn lemma_arrow_flavours_agree(intro: u8, params: Seq<u8>, last: u8, rest: Seq<u8>, w: WormView, tick: u64)
    requires
        intro == 0x5b || intro == 0x4f,
        forall|i: int| 0 <= i < params.len() ==> !is_ascii_alphabetic(#[trigger] params[i]) && params[i] != 0x7e,
        0x41 <= last <= 0x44,
    ensures
        decode(seq![0x1bu8, intro] + params + seq![last] + rest) == decode(seq![
            if last == 0x41 { 0x77u8 } else if last == 0x42 { 0x73u8 } else if last == 0x43 { 0x64u8 } else { 0x61u8 },
        ] + rest),
        apply_keys(w, decode(seq![0x1bu8, intro] + params + seq![last] + rest), tick) == apply_keys(w, decode(seq![
            if last == 0x41 { 0x77u8 } else if last == 0x42 { 0x73u8 } else if last == 0x43 { 0x64u8 } else { 0x61u8 },
        ] + rest), tick),
{
    let head = seq![0x1bu8, intro] + params + seq![last];
    let b = head + rest;
    assert(b =~= seq![0x1bu8, intro] + params + seq![last] + rest);
    let n = params.len() as int;
    assert(b[0] == 0x1bu8);
    assert(b[1] == intro);
    assert(b.subrange(2, 2 + n) =~= params);
    lemma_escape_over_params(b, 2, params);
    assert(b[2 + n] == last);
    assert(escape_end(b, 2 + n) == 2 + n);
    lemma_decode_suffix(head, rest, 0);
    assert(head.len() == 3 + n);
    let letter: u8 = if last == 0x41 { 0x77u8 } else if last == 0x42 { 0x73u8 } else if last == 0x43 { 0x64u8 } else { 0x61u8 };
    let plain = seq![letter] + rest;
    assert(plain[0] == letter);
    lemma_decode_suffix(seq![letter], rest, 0);
    assert(decode_from(b, 0) == arrow_key(last) + decode_from(b, 3 + n));
    assert(decode_from(plain, 0) == plain_key(letter) + decode_from(plain, 1));
}

/// The most a worm's own blast takes from it: four fifths of full health, so that a
/// worm at full health survives a direct hit at its own feet.
pub const SELF_HIT_MAX: i16 = 800;

/// The damage a blast owned by `owner` does to `victim`: a worm's own blast is capped
/// at `SELF_HIT_MAX`, anyone else's is taken in full.
pub open spec fn blast_damage(damage: i16, victim: PlayerId, owner: PlayerId) -> i16 {
    if victim == owner && damage > SELF_HIT_MAX {
        SELF_HIT_MAX
    } else {
        damage
    }
}

/// The damage a blast owned by `owner` does to `victim`.
pub fn damage_to(damage: i16, victim: PlayerId, owner: PlayerId) -> (d: i16)
    ensures
        d == blast_damage(damage, victim, owner),
{
    if victim == owner && damage > SELF_HIT_MAX {
        SELF_HIT_MAX
    } else {
        damage
    }
}

/// No worm can kill itself from full health with one of its own blasts.
pub proof fn lemma_no_self_one_shot(damage: i16, id: PlayerId)
    ensures
        MAX_HEALTH - blast_damage(damage, id, id) > 0,
{
}

} // verus!
