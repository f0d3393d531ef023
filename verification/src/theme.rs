//! The palette the window is painted with.
//!
//! One file, `~/.config/ward/theme.conf`, and it is GENERATED from whatever colour scheme is
//! active, so the prompt matches the editor that raised it. Nobody edits it by hand and ward
//! never writes it.
//!
//! There is deliberately no configuration file beside it. Colour is the exception because
//! colour is not behaviour: it changes what the prompt looks like and nothing about what it
//! does, and matching the desktop is the difference between a prompt you recognise and one
//! you have to stop and examine.
//!
//! Parsed by hand — `key = #RRGGBB`, `#` starts a comment.

use vstd::prelude::*;

use crate::paths::{join, joined, named, named_by};
use crate::text::{
    chars_of, halves, hex_digit, hex_value, lines, lower_case, lowercase, opt_str, same, split_lines,
    split_once, split_words, trim, trimmed, views, words,
};

verus! {

/// The colours of a window, each as `0xRRGGBB`.
#[derive(Debug, Clone, Copy, PartialEq, Eq, Structural)]
pub struct Theme {
    pub bg: u32,
    pub fg: u32,
    pub dim: u32,
    pub accent: u32,
    pub error: u32,
    pub border: u32,
    pub field: u32,
}

/// What a colour is for.
#[derive(Debug, Clone, Copy, PartialEq, Eq, Structural)]
pub enum Slot {
    Bg,
    Fg,
    Dim,
    Accent,
    Error,
    Border,
    Field,
}

impl Theme {
    /// The built-in palette, Everforest.
    pub open spec fn everforest() -> Theme {
        Theme {
            bg: 0x2f383e,
            fg: 0xd3c6aa,
            dim: 0x859289,
            accent: 0x7fbbb3,
            error: 0xe67e80,
            border: 0x4f585e,
            field: 0x374247,
        }
    }

    /// One of the colours.
    pub open spec fn of(self, slot: Slot) -> u32 {
        match slot {
            Slot::Bg => self.bg,
            Slot::Fg => self.fg,
            Slot::Dim => self.dim,
            Slot::Accent => self.accent,
            Slot::Error => self.error,
            Slot::Border => self.border,
            Slot::Field => self.field,
        }
    }

    /// The palette with one colour changed.
    pub open spec fn with(self, slot: Slot, c: u32) -> Theme {
        match slot {
            Slot::Bg => Theme { bg: c, ..self },
            Slot::Fg => Theme { fg: c, ..self },
            Slot::Dim => Theme { dim: c, ..self },
            Slot::Accent => Theme { accent: c, ..self },
            Slot::Error => Theme { error: c, ..self },
            Slot::Border => Theme { border: c, ..self },
            Slot::Field => Theme { field: c, ..self },
        }
    }
}

impl Default for Theme {
    /// Everforest, the palette the rest of the lvim-tech set paints with, so ward looks like
    /// it belongs even before anything has generated a theme for it.
    fn default() -> (t: Self)
        ensures
            t == Theme::everforest(),
    {
        Theme {
            bg: 0x2f383e,
            fg: 0xd3c6aa,
            dim: 0x859289,
            accent: 0x7fbbb3,
            error: 0xe67e80,
            border: 0x4f585e,
            field: 0x374247,
        }
    }
}

/// Where the generated palette lives, from the values of `XDG_CONFIG_HOME` and `HOME`.
pub open spec fn theme_path(xdg: Option<Seq<char>>, home: Option<Seq<char>>) -> Seq<char> {
    let base = match named(xdg) {
        Some(d) => d,
        None => match home {
            Some(h) => joined(h, ".config"@),
            None => ".config"@,
        },
    };
    joined(joined(base, "ward"@), "theme.conf"@)
}

/// Where the generated palette lives, from the values of `XDG_CONFIG_HOME` and `HOME`.
pub fn path(xdg: Option<&str>, home: Option<&str>) -> (p: String)
    ensures
        p@ == theme_path(opt_str(xdg), opt_str(home)),
{
    let base = match named_by(xdg) {
        Some(d) => d.to_string(),
        None => match home {
            Some(h) => join(h, ".config"),
            None => ".config".to_string(),
        },
    };
    join(join(base.as_str(), "ward").as_str(), "theme.conf")
}

/// `s` without the `#` signs it starts with.
pub open spec fn without_hashes(s: Seq<char>) -> Seq<char>
    decreases s.len(),
{
    if s.len() > 0 && s[0] == '#' {
        without_hashes(s.drop_first())
    } else {
        s
    }
}

/// What a character is worth as a hexadecimal digit.
pub open spec fn hex_worth(c: char) -> Option<nat> {
    if (c as u32) < 0x80 {
        hex_digit(c as u8)
    } else {
        None
    }
}

/// The number that hexadecimal digits name, read after `so_far`.
pub open spec fn hex_after(so_far: nat, s: Seq<char>) -> Option<nat>
    decreases s.len(),
{
    if s.len() == 0 {
        Some(so_far)
    } else {
        match hex_worth(s[0]) {
            Some(d) => hex_after(so_far * 16 + d, s.drop_first()),
            None => None,
        }
    }
}

/// The colour that a value names: its first word, past any `#`, must be six hexadecimal
/// digits.
pub open spec fn colour_named(s: Seq<char>) -> Option<nat> {
    let ws = words(s);
    let digits = if ws.len() == 0 {
        Seq::empty()
    } else {
        without_hashes(ws[0])
    };
    if digits.len() != 6 {
        None
    } else {
        hex_after(0, digits)
    }
}

/// The colour that a value names, if it does.
pub fn colour(s: &str) -> (r: Option<u32>)
    ensures
        match r {
            Some(c) => colour_named(s@) == Some(c as nat),
            None => colour_named(s@) is None,
        },
{
    // The first token, so `bg = #101010   # the window` can carry a trailing comment without
    // the comment becoming part of the value.
    let ws = split_words(s);
    if ws.len() == 0 {
        return None;
    }
    assert(views(ws@)[0] == ws@[0]@);
    let v = chars_of(ws[0].as_str());
    let mut i: usize = 0;
    assert(v@.skip(0) =~= v@);
    while i < v.len() && v[i] == '#'
        invariant
            i <= v@.len(),
            without_hashes(v@) == without_hashes(v@.skip(i as int)),
        decreases v@.len() - i,
    {
        assert(v@.skip(i as int).drop_first() =~= v@.skip(i + 1));
        i += 1;
    }
    let ghost digits = v@.skip(i as int);
    if v.len() - i != 6 {
        return None;
    }
    let end: usize = v.len();
    let start: usize = i;
    let mut n: u32 = 0;
    let mut bound: u32 = 1;
    while i < end
        invariant
            end == v@.len(),
            start <= i <= end,
            end - start == 6,
            bound == 1 && i == start || bound == 16 && i == start + 1 || bound == 256 && i == start
                + 2 || bound == 4096 && i == start + 3 || bound == 65_536 && i == start + 4
                || bound == 1_048_576 && i == start + 5 || bound == 16_777_216 && i == start + 6,
            n < bound,
            colour_named(s@) == hex_after(0, digits),
            hex_after(0, digits) == hex_after(n as nat, v@.skip(i as int)),
        decreases end - i,
    {
        let c = v[i];
        assert(v@.skip(i as int).drop_first() =~= v@.skip(i + 1));
        if (c as u32) >= 0x80 {
            return None;
        }
        match hex_value(c as u8) {
            Some(d) => {
                n = n * 16 + d as u32;
            },
            None => {
                return None;
            },
        }
        bound = bound * 16;
        i += 1;
    }
    Some(n)
}

/// What a key is for.
pub open spec fn slot_named(key: Seq<char>) -> Option<Slot> {
    if key == "bg"@ || key == "background"@ {
        Some(Slot::Bg)
    } else if key == "fg"@ || key == "foreground"@ {
        Some(Slot::Fg)
    } else if key == "dim"@ || key == "comment"@ {
        Some(Slot::Dim)
    } else if key == "accent"@ || key == "blue"@ {
        Some(Slot::Accent)
    } else if key == "error"@ || key == "red"@ {
        Some(Slot::Error)
    } else if key == "border"@ {
        Some(Slot::Border)
    } else if key == "field"@ {
        Some(Slot::Field)
    } else {
        None
    }
}

/// What a key is for.
fn slot(key: &str) -> (r: Option<Slot>)
    ensures
        r == slot_named(key@),
{
    if same(key, "bg") || same(key, "background") {
        Some(Slot::Bg)
    } else if same(key, "fg") || same(key, "foreground") {
        Some(Slot::Fg)
    } else if same(key, "dim") || same(key, "comment") {
        Some(Slot::Dim)
    } else if same(key, "accent") || same(key, "blue") {
        Some(Slot::Accent)
    } else if same(key, "error") || same(key, "red") {
        Some(Slot::Error)
    } else if same(key, "border") {
        Some(Slot::Border)
    } else if same(key, "field") {
        Some(Slot::Field)
    } else {
        None
    }
}

/// What a line of the file sets. A comment is a line that STARTS with `#`; a value may well
/// hold one.
pub open spec fn setting(line: Seq<char>) -> Option<(Slot, u32)> {
    let l = trim(line);
    if l.len() > 0 && l[0] == '#' {
        None
    } else {
        match split_once(l, '=') {
            None => None,
            Some((k, v)) => match (colour_named(v), slot_named(lower_case(trim(k)))) {
                (Some(c), Some(slot)) => Some((slot, c as u32)),
                _ => None,
            },
        }
    }
}

/// What a line of the file sets.
fn setting_of(line: &str) -> (r: Option<(Slot, u32)>)
    ensures
        r == setting(line@),
{
    let l = trimmed(line);
    if l.unicode_len() > 0 && l.get_char(0) == '#' {
        return None;
    }
    match halves(l, '=') {
        None => None,
        Some((k, v)) => match colour(v) {
            None => None,
            Some(c) => match slot(lowercase(trimmed(k)).as_str()) {
                Some(s) => Some((s, c)),
                None => None,
            },
        },
    }
}

/// The palette that lines change `t` to, one after the other.
pub open spec fn repainted(t: Theme, ls: Seq<Seq<char>>) -> Theme
    decreases ls.len(),
{
    if ls.len() == 0 {
        t
    } else {
        let u = repainted(t, ls.drop_last());
        match setting(ls.last()) {
            Some((slot, c)) => u.with(slot, c),
            None => u,
        }
    }
}

impl Theme {
    /// The palette, from the contents of the generated file where it could be read.
    ///
    /// An unreadable file is not an error: it means no theme has been generated yet, which is
    /// the state every machine starts in.
    pub fn load(contents: Option<&str>) -> (t: Theme)
        ensures
            t == match opt_str(contents) {
                Some(text) => repainted(Theme::everforest(), lines(text)),
                None => Theme::everforest(),
            },
    {
        match contents {
            Some(text) => Theme::load_from(text),
            None => Theme::default(),
        }
    }

    /// The parse, falling back to the built-in palette key by key.
    ///
    /// Per key rather than all-or-nothing: a generator that learns a new colour later, or one
    /// that omits a key ward has since added, should shift what it knows about and leave the
    /// rest alone.
    pub fn load_from(text: &str) -> (t: Theme)
        ensures
            t == repainted(Theme::everforest(), lines(text@)),
    {
        let mut t = Theme::default();
        let ls = split_lines(text);
        let mut i: usize = 0;
        while i < ls.len()
            invariant
                views(ls@) == lines(text@),
                i <= ls@.len(),
                t == repainted(Theme::everforest(), lines(text@).take(i as int)),
            decreases ls@.len() - i,
        {
            let ghost next = lines(text@).take(i + 1);
            assert(next.drop_last() =~= lines(text@).take(i as int));
            assert(next.last() == ls@[i as int]@) by {
                assert(views(ls@)[i as int] == ls@[i as int]@);
            }
            match setting_of(ls[i].as_str()) {
                Some((slot, c)) => match slot {
                    Slot::Bg => t.bg = c,
                    Slot::Fg => t.fg = c,
                    Slot::Dim => t.dim = c,
                    Slot::Accent => t.accent = c,
                    Slot::Error => t.error = c,
                    Slot::Border => t.border = c,
                    Slot::Field => t.field = c,
                },
                None => {},
            }
            i += 1;
        }
        assert(lines(text@).take(i as int) =~= lines(text@));
        t
    }
}

/// The last value that lines give a colour, if any does.
pub open spec fn last_value(ls: Seq<Seq<char>>, slot: Slot) -> Option<u32>
    decreases ls.len(),
{
    if ls.len() == 0 {
        None
    } else {
        match setting(ls.last()) {
            Some((s, c)) => if s == slot {
                Some(c)
            } else {
                last_value(ls.drop_last(), slot)
            },
            None => last_value(ls.drop_last(), slot),
        }
    }
}

/// Each colour is the last one the file gives it, and the built-in one where the file gives
/// it none, whatever becomes of the others.
pub proof fn law_a_theme_falls_back_key_by_key(ls: Seq<Seq<char>>, slot: Slot)
    ensures
        repainted(Theme::everforest(), ls).of(slot) == match last_value(ls, slot) {
            Some(c) => c,
            None => Theme::everforest().of(slot),
        },
    decreases ls.len(),
{
    if ls.len() > 0 {
        law_a_theme_falls_back_key_by_key(ls.drop_last(), slot);
    }
}

/// A colour is red, green and blue and nothing more: it never passes `0xffffff`.
pub proof fn law_a_colour_has_three_channels(s: Seq<char>)
    ensures
        colour_named(s) matches Some(c) ==> c <= 0xffffff,
{
    let ws = words(s);
    if ws.len() > 0 {
        let digits = without_hashes(ws[0]);
        if digits.len() == 6 {
            lemma_hex_bound(0, digits, 1);
            assert(sixteen_to(6) == 16_777_216) by {
                reveal_with_fuel(sixteen_to, 7);
            }
        }
    }
}

/// A power of sixteen.
spec fn sixteen_to(n: nat) -> nat
    decreases n,
{
    if n == 0 {
        1
    } else {
        16 * sixteen_to((n - 1) as nat)
    }
}

proof fn lemma_hex_bound(so_far: nat, s: Seq<char>, bound: nat)
    requires
        so_far < bound,
    ensures
        hex_after(so_far, s) matches Some(n) ==> n < bound * sixteen_to(s.len()),
    decreases s.len(),
{
    if s.len() > 0 {
        match hex_worth(s[0]) {
            Some(d) => {
                assert(d < 16);
                lemma_hex_bound(so_far * 16 + d, s.drop_first(), bound * 16);
                let p = sixteen_to((s.len() - 1) as nat);
                assert(bound * 16 * p == bound * (16 * p)) by (nonlinear_arith);
            },
            None => {},
        }
    } else {
        assert(bound * 1 == bound);
    }
}

} // verus!
