//! The browser client's side of the arena: the size of its viewport.
use vstd::prelude::*;
use crate::game::TICK_RATE;

verus! {

/// Hides the cursor and clears the browser terminal before the first frame.
pub const WEB_ENTER: &'static str = "\x1b[?25l\x1b[2J\x1b[H";
/// Milliseconds between two repeats of the keys a browser player holds down.
pub const PULSE_MS: u64 = 1000 / TICK_RATE;
pub const MIN_COLUMNS: u32 = 20;
pub const MAX_COLUMNS: u32 = 400;
pub const MIN_ROWS: u32 = 8;
pub const MAX_ROWS: u32 = 120;

/// `v` brought into `lo..=hi`.
pub open spec fn clamped(v: int, lo: int, hi: int) -> int {
    if v < lo {
        lo
    } else if v > hi {
        hi
    } else {
        v
    }
}

fn clamp_u32(v: u32, lo: u32, hi: u32) -> (r: u32)
    requires
        lo <= hi,
    ensures
        r == clamped(v as int, lo as int, hi as int),
{
    if v < lo {
        lo
    } else if v > hi {
        hi
    } else {
        v
    }
}

/// A browser's terminal size, kept within what the renderer serves.
pub fn clamp_viewport(columns: u32, rows: u32) -> (size: (u32, u32))
    ensures
        size.0 == clamped(columns as int, MIN_COLUMNS as int, MAX_COLUMNS as int),
        size.1 == clamped(rows as int, MIN_ROWS as int, MAX_ROWS as int),
{
    (clamp_u32(columns, MIN_COLUMNS, MAX_COLUMNS), clamp_u32(rows, MIN_ROWS, MAX_ROWS))
}

/// The terminal size a browser asked for when it connected: 100 by 30 where it named
/// none, kept within what the renderer serves.
pub fn web_viewport(columns: Option<u32>, rows: Option<u32>) -> (size: (u32, u32))
    ensures
        size.0 == clamped(
            match columns {
                Some(c) => c as int,
                None => 100,
            },
            MIN_COLUMNS as int,
            MAX_COLUMNS as int,
        ),
        size.1 == clamped(
            match rows {
                Some(r) => r as int,
                None => 30,
            },
            MIN_ROWS as int,
            MAX_ROWS as int,
        ),
{
    let c = match columns {
        Some(c) => c,
        None => 100,
    };
    let r = match rows {
        Some(r) => r,
        None => 30,
    };
    clamp_viewport(c, r)
}

/// The keys a browser player holds down, each once, in the order they went down.
pub struct HeldKeys {
    pub keys: Vec<String>,
}

/// Held keys as plain text.
pub open spec fn keys_view(keys: Seq<String>) -> Seq<Seq<char>> {
    keys.map_values(|k: String| k@)
}

/// `s` without the entries equal to `k`.
pub open spec fn without(s: Seq<Seq<char>>, k: Seq<char>) -> Seq<Seq<char>>
    decreases s.len(),
{
    if s.len() == 0 {
        Seq::empty()
    } else if s.last() == k {
        without(s.drop_last(), k)
    } else {
        without(s.drop_last(), k).push(s.last())
    }
}

/// The bytes one repeat sends: every held key's UTF-8 bytes, in order.
pub open spec fn pulse_bytes(keys: Seq<Seq<char>>) -> Seq<u8>
    decreases keys.len(),
{
    if keys.len() == 0 {
        Seq::empty()
    } else {
        pulse_bytes(keys.drop_last()) + vstd::utf8::encode_utf8(keys.last())
    }
}

impl View for HeldKeys {
    type V = Seq<Seq<char>>;

    open spec fn view(&self) -> Seq<Seq<char>> {
        keys_view(self.keys@)
    }
}

impl HeldKeys {
    /// No key held.
    pub fn new() -> (h: HeldKeys)
        ensures
            h@ == Seq::<Seq<char>>::empty(),
    {
        let h = HeldKeys { keys: Vec::new() };
        assert(h@ =~= Seq::<Seq<char>>::empty());
        h
    }

    /// A key goes down: it is held from now on (once, however often it goes down).
    pub fn press(&mut self, key: String)
        ensures
            final(self)@ == if old(self)@.contains(key@) {
                old(self)@
            } else {
                old(self)@.push(key@)
            },
    {
        let mut i: usize = 0;
        while i < self.keys.len()
            invariant
                i <= self.keys.len(),
                forall|j: int| 0 <= j < i ==> self.keys@[j]@ != key@,
            decreases self.keys.len() - i,
        {
            if self.keys[i] == key {
                proof {
                    assert(self@[i as int] == key@);
                }
                return;
            }
            i = i + 1;
        }
        proof {
            assert forall|j: int| 0 <= j < self@.len() implies self@[j] != key@ by {
                assert(self@[j] == self.keys@[j]@);
            }
        }
        let ghost before = self.keys@;
        self.keys.push(key);
        proof {
            assert(keys_view(self.keys@) =~= keys_view(before).push(self.keys@[before.len() as int]@));
        }
    }

    /// A key comes up: it is no longer held.
    pub fn release(&mut self, key: &str)
        ensures
            final(self)@ == without(old(self)@, key@),
    {
        let wanted = key.to_owned();
        let ghost all = self@;
        let mut kept: Vec<String> = Vec::new();
        let mut i: usize = 0;
        while i < self.keys.len()
            invariant
                i <= self.keys.len(),
                all == keys_view(self.keys@),
                wanted@ == key@,
                keys_view(kept@) == without(all.take(i as int), key@),
            decreases self.keys.len() - i,
        {
            proof {
                assert(all.take(i as int + 1).drop_last() =~= all.take(i as int));
                assert(all.take(i as int + 1).last() == all[i as int]);
            }
            if self.keys[i] != wanted {
                let ghost prefix = keys_view(kept@);
                kept.push(self.keys[i].clone());
                proof {
                    assert(keys_view(kept@) =~= prefix.push(all[i as int]));
                }
            }
            i = i + 1;
        }
        proof {
            assert(all.take(i as int) =~= all);
        }
        self.keys = kept;
    }

    /// The bytes one repeat of the held keys sends.
    pub fn pulse(&self) -> (bytes: Vec<u8>)
        ensures
            bytes@ == pulse_bytes(self@),
    {
        let mut bytes: Vec<u8> = Vec::new();
        let mut i: usize = 0;
        while i < self.keys.len()
            invariant
                i <= self.keys.len(),
                bytes@ == pulse_bytes(self@.take(i as int)),
            decreases self.keys.len() - i,
        {
            let b = self.keys[i].as_str().as_bytes();
            let ghost before = bytes@;
            let mut k: usize = 0;
            while k < b.len()
                invariant
                    k <= b.len(),
                    bytes@ == before + b@.take(k as int),
                decreases b.len() - k,
            {
                bytes.push(b[k]);
                proof {
                    assert(b@.take(k as int + 1) =~= b@.take(k as int).push(b@[k as int]));
                }
                k = k + 1;
            }
            proof {
                assert(b@.take(k as int) =~= b@);
                assert(self@.take(i as int + 1).drop_last() =~= self@.take(i as int));
                assert(self@.take(i as int + 1).last() == self.keys@[i as int]@);
            }
            i = i + 1;
        }
        proof {
            assert(self@.take(i as int) =~= self@);
        }
        bytes
    }
}

/// A key that came up is no longer held.
pub proof fn lemma_released_key_not_held(s: Seq<Seq<char>>, k: Seq<char>)
    ensures
        !without(s, k).contains(k),
        without(s, k).len() <= s.len(),
    decreases s.len(),
{
    if s.len() > 0 {
        lemma_released_key_not_held(s.drop_last(), k);
        let r = without(s.drop_last(), k);
        if s.last() != k {
            assert forall|i: int| 0 <= i < r.push(s.last()).len() implies r.push(s.last())[i] != k by {
                if i < r.len() {
                    assert(r.push(s.last())[i] == r[i]);
                }
            }
        }
    }
}

} // verus!
