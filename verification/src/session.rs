//! The decisions of an SSH session: what a terminal can show, when a player enters
//! and leaves the arena, and what the session writes back.
use vstd::prelude::*;
use crate::game::{ColorDepth, GlyphMode};
use crate::text::{chars_of, push_text};

verus! {

/// Switches to the alternate screen, hides the cursor and clears the screen.
pub const TERMINAL_ENTER: &'static str = "\x1b[?1049h\x1b[?25l\x1b[?1l\x1b[2J\x1b[H";
/// Resets colours, shows the cursor and returns to the player's own screen.
pub const TERMINAL_RESTORE: &'static str = "\x1b[0m\x1b[?25h\x1b[?1l\x1b[?1049l";
/// The question a new session answers before it enters the arena.
pub const GLYPH_PROMPT: &'static str = "WORMS//SSH\r\nPowerlevel10k / Nerd Font icons available? [y/N] ";

/// `c` with an ASCII capital turned into its small letter.
pub open spec fn ascii_lower(c: char) -> char {
    if 'A' <= c && c <= 'Z' {
        ((c as u32) + 32) as char
    } else {
        c
    }
}

/// `s` with every ASCII capital turned into its small letter.
pub open spec fn lowered(s: Seq<char>) -> Seq<char> {
    s.map_values(|c: char| ascii_lower(c))
}

/// Whether `needle` occurs in `hay` from position `i`.
pub open spec fn occurs_at(hay: Seq<char>, needle: Seq<char>, i: int) -> bool {
    0 <= i && i + needle.len() <= hay.len() && hay.subrange(i, i + needle.len()) == needle
}

/// Whether `needle` occurs anywhere in `hay`.
pub open spec fn has_text(hay: Seq<char>, needle: Seq<char>) -> bool {
    exists|i: int| occurs_at(hay, needle, i)
}

fn lower_char(c: char) -> (r: char)
    ensures
        r == ascii_lower(c),
{
    if 'A' <= c && c <= 'Z' {
        ((c as u8) + 32) as char
    } else {
        c
    }
}

fn lower_chars(s: &str) -> (v: Vec<char>)
    ensures
        v@ == lowered(s@),
{
    let chars = chars_of(s);
    let mut v: Vec<char> = Vec::new();
    let mut i: usize = 0;
    while i < chars.len()
        invariant
            i <= chars.len(),
            chars@ == s@,
            v@ == lowered(chars@.take(i as int)),
        decreases chars.len() - i,
    {
        v.push(lower_char(chars[i]));
        i = i + 1;
        proof {
            assert(v@ =~= lowered(chars@.take(i as int)));
        }
    }
    proof {
        assert(chars@.take(i as int) =~= chars@);
    }
    v
}

fn occurs_at_exec(hay: &Vec<char>, needle: &Vec<char>, i: usize) -> (r: bool)
    requires
        i + needle.len() <= hay.len(),
    ensures
        r == occurs_at(hay@, needle@, i as int),
{
    let mut k: usize = 0;
    while k < needle.len()
        invariant
            k <= needle.len(),
            i + needle.len() <= hay.len(),
            forall|t: int| 0 <= t < k ==> hay@[i + t] == needle@[t],
        decreases needle.len() - k,
    {
        if hay[i + k] != needle[k] {
            proof {
                assert(hay@.subrange(i as int, i + needle.len())[k as int] != needle@[k as int]);
            }
            return false;
        }
        k = k + 1;
    }
    proof {
        assert(hay@.subrange(i as int, i + needle.len()) =~= needle@);
    }
    true
}

/// Whether `needle` occurs anywhere in `hay`.
pub fn contains_text(hay: &Vec<char>, needle: &Vec<char>) -> (r: bool)
    ensures
        r == has_text(hay@, needle@),
{
    if needle.len() > hay.len() {
        return false;
    }
    if needle.len() == 0 {
        proof {
            assert(hay@.subrange(0, 0) =~= needle@);
            assert(occurs_at(hay@, needle@, 0));
        }
        return true;
    }
    let last = hay.len() - needle.len();
    let mut i: usize = 0;
    while i <= last
        invariant
            last + needle.len() == hay.len(),
            needle.len() > 0,
            i <= last + 1,
            forall|t: int| 0 <= t < i ==> !occurs_at(hay@, needle@, t),
        decreases last + 1 - i,
    {
        if occurs_at_exec(hay, needle, i) {
            return true;
        }
        i = i + 1;
    }
    false
}

/// The colours a terminal can show, from its `TERM` and, where the client sent one,
/// its `COLORTERM`.
pub open spec fn depth_for(term: Seq<char>, colorterm: Option<Seq<char>>) -> ColorDepth {
    if colorterm matches Some(c) && has_text(lowered(c), "truecolor"@) {
        ColorDepth::TrueColor
    } else if has_text(term, "256color"@) {
        ColorDepth::Ansi256
    } else if term == "dumb"@ {
        ColorDepth::Mono
    } else {
        ColorDepth::Ansi16
    }
}

/// An optional string as plain characters.
pub open spec fn opt_chars(s: Option<&str>) -> Option<Seq<char>> {
    match s {
        Some(t) => Some(t@),
        None => None,
    }
}

/// Reads the colours a terminal can show.
pub fn color_depth(term: &str, colorterm: Option<&str>) -> (d: ColorDepth)
    ensures
        d == depth_for(term@, opt_chars(colorterm)),
{
    let truecolor = match colorterm {
        Some(c) => contains_text(&lower_chars(c), &chars_of("truecolor")),
        None => false,
    };
    if truecolor {
        ColorDepth::TrueColor
    } else if contains_text(&chars_of(term), &chars_of("256color")) {
        ColorDepth::Ansi256
    } else if term.to_owned() == "dumb".to_owned() {
        ColorDepth::Mono
    } else {
        ColorDepth::Ansi16
    }
}

/// The glyphs a player picked in answer to the prompt: icons on a `y`, plain ASCII on
/// an `n` or a line end, no answer yet otherwise. Letters count in either case; as
/// ASCII bytes never belong to a malformed UTF-8 sequence, this is the answer read
/// from the bytes decoded leniently as UTF-8.
pub open spec fn glyph_answer(data: Seq<u8>) -> Option<GlyphMode> {
    if data.contains(0x79u8) || data.contains(0x59u8) {
        Some(GlyphMode::Powerlevel10k)
    } else if data.contains(0x6eu8) || data.contains(0x4eu8) || data.contains(0x0du8)
        || data.contains(0x0au8) {
        Some(GlyphMode::Ascii)
    } else {
        None
    }
}

fn has_byte(data: &[u8], b: u8) -> (r: bool)
    ensures
        r == data@.contains(b),
{
    let mut i: usize = 0;
    while i < data.len()
        invariant
            i <= data.len(),
            forall|k: int| 0 <= k < i ==> data@[k] != b,
        decreases data.len() - i,
    {
        if data[i] == b {
            proof {
                assert(data@[i as int] == b);
            }
            return true;
        }
        i = i + 1;
    }
    false
}

/// Reads a player's answer to the glyph prompt.
pub fn glyph_choice(data: &[u8]) -> (g: Option<GlyphMode>)
    ensures
        g == glyph_answer(data@),
{
    if has_byte(data, 0x79) || has_byte(data, 0x59) {
        Some(GlyphMode::Powerlevel10k)
    } else if has_byte(data, 0x6e) || has_byte(data, 0x4e) || has_byte(data, 0x0d) || has_byte(
        data,
        0x0a,
    ) {
        Some(GlyphMode::Ascii)
    } else {
        None
    }
}

/// The byte Ctrl-C sends.
pub const INTERRUPT: u8 = 3;

/// What a session does with bytes a player typed.
#[derive(Debug, Clone, Copy, PartialEq, Eq, Structural)]
pub enum DataAction {
    /// Nothing: the prompt is still waiting for an answer.
    Wait,
    /// Enter the arena with the glyphs the player picked.
    Join(GlyphMode),
    /// Say goodbye and close the channel; `announce_leave` tells whether the worm was in
    /// the arena and its leaving must be reported.
    Quit { announce_leave: bool },
    /// Hand the bytes to the player's worm.
    Input,
}

/// What the session knows of its player.
pub struct SessionState {
    pub username: Option<String>,
    pub channel: Option<u32>,
    pub joined: bool,
    pub columns: u32,
    pub rows: u32,
    pub colors: ColorDepth,
    pub truecolor: bool,
    pub glyphs: Option<GlyphMode>,
    pub awaiting_glyph_choice: bool,
}

/// A session's state as plain values.
#[verifier::ext_equal]
pub struct SessionView {
    pub username: Option<Seq<char>>,
    pub channel: Option<u32>,
    pub joined: bool,
    pub columns: u32,
    pub rows: u32,
    pub colors: ColorDepth,
    pub truecolor: bool,
    pub glyphs: Option<GlyphMode>,
    pub awaiting_glyph_choice: bool,
}

impl View for SessionState {
    type V = SessionView;

    open spec fn view(&self) -> SessionView {
        SessionView {
            username: match self.username {
                Some(u) => Some(u@),
                None => None,
            },
            channel: self.channel,
            joined: self.joined,
            columns: self.columns,
            rows: self.rows,
            colors: self.colors,
            truecolor: self.truecolor,
            glyphs: self.glyphs,
            awaiting_glyph_choice: self.awaiting_glyph_choice,
        }
    }
}

/// A fresh session: no player yet, a 102 by 41 terminal with sixteen colours.
pub open spec fn fresh_session() -> SessionView {
    SessionView {
        username: None,
        channel: None,
        joined: false,
        columns: 102,
        rows: 41,
        colors: ColorDepth::Ansi16,
        truecolor: false,
        glyphs: None,
        awaiting_glyph_choice: false,
    }
}

/// Whether a shell request on `channel` is granted: the session's one channel, with a
/// known player who is not in the arena yet.
pub open spec fn shell_granted(s: SessionView, channel: u32) -> bool {
    !s.joined && s.channel == Some(channel) && s.username is Some
}

/// The session after a shell request on `channel`.
pub open spec fn after_shell(s: SessionView, channel: u32) -> SessionView {
    if shell_granted(s, channel) {
        SessionView { awaiting_glyph_choice: true, ..s }
    } else {
        s
    }
}

/// What the session does with `data`, and the session after it. Ctrl-C quits at any
/// point, the glyph prompt included.
pub open spec fn after_data(s: SessionView, data: Seq<u8>) -> (SessionView, DataAction) {
    if data.contains(INTERRUPT) {
        (SessionView { joined: false, ..s }, DataAction::Quit { announce_leave: s.joined })
    } else if s.awaiting_glyph_choice && !s.joined {
        match glyph_answer(data) {
            Some(g) => (SessionView { glyphs: Some(g), ..s }, DataAction::Join(g)),
            None => (s, DataAction::Wait),
        }
    } else {
        (s, DataAction::Input)
    }
}

/// The session after its player leaves, and whether the leaving must be reported.
pub open spec fn after_leave(s: SessionView) -> (SessionView, bool) {
    (SessionView { joined: false, ..s }, s.joined)
}

/// The session after a `COLORTERM` style variable, and whether its colours changed.
pub open spec fn after_env(s: SessionView, name: Seq<char>, value: Seq<char>) -> (SessionView, bool) {
    if name == "COLORTERM"@ && has_text(lowered(value), "truecolor"@) {
        (SessionView { truecolor: true, colors: ColorDepth::TrueColor, ..s }, true)
    } else {
        (s, false)
    }
}

impl SessionState {
    /// A fresh session.
    pub fn new() -> (s: SessionState)
        ensures
            s@ == fresh_session(),
    {
        SessionState {
            username: None,
            channel: None,
            joined: false,
            columns: 102,
            rows: 41,
            colors: ColorDepth::Ansi16,
            truecolor: false,
            glyphs: None,
            awaiting_glyph_choice: false,
        }
    }

    /// Records the login name the player authenticated with.
    pub fn authenticate(&mut self, user: &str)
        ensures
            final(self)@ == (SessionView { username: Some(user@), ..old(self)@ }),
    {
        self.username = Some(user.to_owned());
    }

    /// Records the session's channel.
    pub fn open_channel(&mut self, channel: u32)
        ensures
            final(self)@ == (SessionView { channel: Some(channel), ..old(self)@ }),
    {
        self.channel = Some(channel);
    }

    /// Takes the terminal type and size of a pseudo-terminal request.
    pub fn set_pty(&mut self, term: &str, columns: u32, rows: u32)
        ensures
            final(self)@ == (SessionView {
                colors: depth_for(
                    term@,
                    if old(self).truecolor {
                        Some("truecolor"@)
                    } else {
                        None
                    },
                ),
                columns,
                rows,
                ..old(self)@
            }),
    {
        let colorterm = if self.truecolor {
            Some("truecolor")
        } else {
            None
        };
        self.colors = color_depth(term, colorterm);
        self.columns = columns;
        self.rows = rows;
    }

    /// Takes a new terminal size.
    pub fn resize(&mut self, columns: u32, rows: u32)
        ensures
            final(self)@ == (SessionView { columns, rows, ..old(self)@ }),
    {
        self.columns = columns;
        self.rows = rows;
    }

    /// Takes an environment variable; returns whether the colours changed.
    pub fn set_env(&mut self, name: &str, value: &str) -> (changed: bool)
        ensures
            (final(self)@, changed) == after_env(old(self)@, name@, value@),
    {
        if name.to_owned() == "COLORTERM".to_owned() && contains_text(
            &lower_chars(value),
            &chars_of("truecolor"),
        ) {
            self.truecolor = true;
            self.colors = ColorDepth::TrueColor;
            true
        } else {
            false
        }
    }

    /// Answers a shell request on `channel`: whether it is granted, in which case the
    /// session asks the glyph question next.
    pub fn request_shell(&mut self, channel: u32) -> (granted: bool)
        ensures
            granted == shell_granted(old(self)@, channel),
            final(self)@ == after_shell(old(self)@, channel),
    {
        if self.joined || self.channel != Some(channel) || self.username.is_none() {
            return false;
        }
        self.awaiting_glyph_choice = true;
        true
    }

    /// Decides what to do with bytes the player typed.
    pub fn receive(&mut self, data: &[u8]) -> (action: DataAction)
        ensures
            (final(self)@, action) == after_data(old(self)@, data@),
    {
        if has_byte(data, INTERRUPT) {
            let announce = self.joined;
            self.joined = false;
            DataAction::Quit { announce_leave: announce }
        } else if self.awaiting_glyph_choice && !self.joined {
            match glyph_choice(data) {
                Some(g) => {
                    self.glyphs = Some(g);
                    DataAction::Join(g)
                },
                None => DataAction::Wait,
            }
        } else {
            DataAction::Input
        }
    }

    /// Records that the player entered the arena.
    pub fn enter(&mut self)
        ensures
            final(self)@ == (SessionView {
                joined: true,
                awaiting_glyph_choice: false,
                ..old(self)@
            }),
    {
        self.joined = true;
        self.awaiting_glyph_choice = false;
    }

    /// Records that the player left; returns whether the leaving must be reported.
    pub fn leave(&mut self) -> (announce: bool)
        ensures
            (final(self)@, announce) == after_leave(old(self)@),
    {
        let announce = self.joined;
        self.joined = false;
        announce
    }
}

/// A player's leaving is reported once: a second leave, or an interrupt after the
/// first, reports nothing.
pub proof fn lemma_leave_reported_once(s: SessionView, data: Seq<u8>)
    ensures
        !after_leave(after_leave(s).0).1,
        after_data(after_leave(s).0, data).1 != (DataAction::Quit { announce_leave: true }),
{
}

/// Only a player waiting at the glyph prompt can be sent into the arena, and once
/// there, a shell request is refused and the player stays where they are.
pub proof fn lemma_join_only_from_prompt(s: SessionView, data: Seq<u8>, channel: u32)
    ensures
        after_data(s, data).1 is Join ==> s.awaiting_glyph_choice && !s.joined,
        s.joined ==> !shell_granted(s, channel) && after_shell(s, channel) == s,
{
}

/// The farewell written when a player quits with Ctrl-C.
pub fn farewell() -> (m: String)
    ensures
        m@ == TERMINAL_RESTORE@ + "\r\nThanks for playing.\r\n"@,
{
    let mut m = TERMINAL_RESTORE.to_owned();
    push_text(&mut m, "\r\nThanks for playing.\r\n");
    m
}

} // verus!
