//! The palette: what a line of the theme sets, what a colour is, and where the file lies.

use vstd::prelude::*;

use crate::laws::texts::{blank, law_a_text_is_split_once, law_trimming_takes_off_the_ends};
use crate::laws::wire::writes_digit;
use crate::paths::joined;
use crate::text::{
    is_space, is_word, lemma_space_run_is, lemma_words_join, lemma_words_of_word, lower_case, trim,
    trim_start, words,
};
use crate::theme::{
    colour_named, hex_after, repainted, setting, slot_named, theme_path, without_hashes, Slot, Theme,
};

verus! {

/// The built-in palette.
pub proof fn law_the_built_in_palette()
    ensures
        Theme::everforest() == (Theme {
            bg: 0x2f383e,
            fg: 0xd3c6aa,
            dim: 0x859289,
            accent: 0x7fbbb3,
            error: 0xe67e80,
            border: 0x4f585e,
            field: 0x374247,
        }),
{
}

/// Whether characters are the hexadecimal digits that are worth these.
pub open spec fn writes_digits(s: Seq<char>, ds: Seq<int>) -> bool {
    s.len() == ds.len() && forall|i: int|
        0 <= i < s.len() ==> (#[trigger] s[i] as u32) < 0x80 && writes_digit(s[i] as u8, ds[i])
}

proof fn lemma_digit_char(c: char, d: int)
    requires
        (c as u32) < 0x80,
        writes_digit(c as u8, d),
    ensures
        crate::theme::hex_worth(c) == Some(d as nat),
        !is_space(c),
        c != '#',
        0 <= d < 16,
{
}

proof fn lemma_hex_six(s: Seq<char>, ds: Seq<int>)
    requires
        writes_digits(s, ds),
        s.len() == 6,
    ensures
        hex_after(0, s) == Some(
            (((((ds[0] * 16 + ds[1]) * 16 + ds[2]) * 16 + ds[3]) * 16 + ds[4]) * 16 + ds[5]) as nat,
        ),
        is_word(s),
        s[0] != '#',
{
    assert forall|i: int| 0 <= i < 6 implies crate::theme::hex_worth(#[trigger] s[i]) == Some(
        ds[i] as nat,
    ) && !is_space(s[i]) && s[i] != '#' && 0 <= ds[i] < 16 by {
        lemma_digit_char(s[i], ds[i]);
    }
    let a = s.drop_first();
    let b = a.drop_first();
    let c = b.drop_first();
    let d = c.drop_first();
    let e = d.drop_first();
    let f = e.drop_first();
    assert(a[0] == s[1] && b[0] == s[2] && c[0] == s[3] && d[0] == s[4] && e[0] == s[5]);
    let n1 = ds[0] as nat;
    let n2 = n1 * 16 + ds[1] as nat;
    let n3 = n2 * 16 + ds[2] as nat;
    let n4 = n3 * 16 + ds[3] as nat;
    let n5 = n4 * 16 + ds[4] as nat;
    let n6 = n5 * 16 + ds[5] as nat;
    assert(hex_after(n6, f) == Some(n6));
    assert(hex_after(n5, e) == Some(n6));
    assert(hex_after(n4, d) == Some(n6));
    assert(hex_after(n3, c) == Some(n6));
    assert(hex_after(n2, b) == Some(n6));
    assert(hex_after(n1, a) == Some(n6));
}

/// Six hexadecimal digits name a colour, red first and blue last, whatever number of `#` stands
/// in front, and whatever follows them after a space.
pub proof fn law_six_digits_name_a_colour(
    hashes: Seq<char>,
    s: Seq<char>,
    ds: Seq<int>,
    more: Seq<char>,
)
    requires
        forall|i: int| 0 <= i < hashes.len() ==> #[trigger] hashes[i] == '#',
        writes_digits(s, ds),
        s.len() == 6,
    ensures
        ({
            let red = ds[0] * 16 + ds[1];
            let green = ds[2] * 16 + ds[3];
            let blue = ds[4] * 16 + ds[5];
            let c = (red * 65536 + green * 256 + blue) as nat;
            &&& colour_named(s) == Some(c)
            &&& colour_named(hashes + s) == Some(c)
            &&& colour_named(hashes + s + seq![' '] + more) == Some(c)
        }),
{
    lemma_hex_six(s, ds);
    let h = hashes + s;
    lemma_without_hashes(hashes, s);
    assert(is_word(h)) by {
        assert forall|i: int| 0 <= i < h.len() implies !is_space(#[trigger] h[i]) by {
            if i < hashes.len() {
                assert(h[i] == hashes[i]);
            } else {
                assert(h[i] == s[i - hashes.len()]);
            }
        }
    }
    lemma_words_of_word(s);
    lemma_words_of_word(h);
    lemma_words_join(h, ' ', more);
    assert(words(h + seq![' '] + more)[0] == h);
}

proof fn lemma_without_hashes(hashes: Seq<char>, s: Seq<char>)
    requires
        forall|i: int| 0 <= i < hashes.len() ==> #[trigger] hashes[i] == '#',
        s.len() > 0 ==> s[0] != '#',
    ensures
        without_hashes(hashes + s) == s,
    decreases hashes.len(),
{
    let h = hashes + s;
    if hashes.len() == 0 {
        assert(h =~= s);
    } else {
        assert(h[0] == hashes[0]);
        let rest = hashes.drop_first();
        assert forall|i: int| 0 <= i < rest.len() implies #[trigger] rest[i] == '#' by {
            assert(rest[i] == hashes[i + 1]);
        }
        assert(h.drop_first() =~= rest + s);
        lemma_without_hashes(rest, s);
    }
}

/// A value whose first word has more or fewer than six digits, or something else among them,
/// names no colour, and neither does no value at all.
pub proof fn law_other_values_name_no_colour(w: Seq<char>, gap: Seq<char>, i: int)
    requires
        is_word(w),
        w[0] != '#',
        w.len() != 6 || (0 <= i < 6 && ((w[i] as u32) >= 0x80 || forall|d: int|
            !#[trigger] writes_digit(w[i] as u8, d))),
        blank(gap),
    ensures
        colour_named(w) is None,
        colour_named("#"@ + w) is None,
        colour_named(gap) is None,
{
    reveal_strlit("#");
    let h = "#"@ + w;
    assert(h.drop_first() =~= w);
    reveal_with_fuel(without_hashes, 2);
    assert(is_word(h)) by {
        assert forall|k: int| 0 <= k < h.len() implies !is_space(#[trigger] h[k]) by {
            if k > 0 {
                assert(h[k] == w[k - 1]);
            }
        }
    }
    lemma_words_of_word(w);
    lemma_words_of_word(h);
    if w.len() == 6 {
        lemma_no_hex(0, w, i);
    }
    lemma_space_run_is(gap, gap.len() as int);
    assert(trim_start(gap).len() == 0);
}

proof fn lemma_no_hex(so_far: nat, s: Seq<char>, i: int)
    requires
        0 <= i < s.len(),
        (s[i] as u32) >= 0x80 || forall|d: int| !#[trigger] writes_digit(s[i] as u8, d),
    ensures
        hex_after(so_far, s) is None,
    decreases s.len(),
{
    if i == 0 {
        if (s[0] as u32) < 0x80 {
            let x = s[0] as u8;
            assert(0x30 <= x <= 0x39 ==> writes_digit(x, x - 0x30));
            assert(0x41 <= x <= 0x46 ==> writes_digit(x, x - 0x41 + 10));
            assert(0x61 <= x <= 0x66 ==> writes_digit(x, x - 0x61 + 10));
        }
    } else {
        assert(s.drop_first()[i - 1] == s[i]);
        match crate::theme::hex_worth(s[0]) {
            Some(d) => {
                lemma_no_hex(so_far * 16 + d, s.drop_first(), i - 1);
            },
            None => {},
        }
    }
}

/// Which colour each key sets. Some have a second name.
pub proof fn law_each_key_sets_its_own_colour(key: Seq<char>)
    ensures
        slot_named("bg"@) == Some(Slot::Bg),
        slot_named("background"@) == Some(Slot::Bg),
        slot_named("fg"@) == Some(Slot::Fg),
        slot_named("foreground"@) == Some(Slot::Fg),
        slot_named("dim"@) == Some(Slot::Dim),
        slot_named("comment"@) == Some(Slot::Dim),
        slot_named("accent"@) == Some(Slot::Accent),
        slot_named("blue"@) == Some(Slot::Accent),
        slot_named("error"@) == Some(Slot::Error),
        slot_named("red"@) == Some(Slot::Error),
        slot_named("border"@) == Some(Slot::Border),
        slot_named("field"@) == Some(Slot::Field),
        key != "bg"@ && key != "background"@ && key != "fg"@ && key != "foreground"@ && key != "dim"@
            && key != "comment"@ && key != "accent"@ && key != "blue"@ && key != "error"@ && key
            != "red"@ && key != "border"@ && key != "field"@ ==> slot_named(key) is None,
{
    reveal_strlit("bg");
    reveal_strlit("background");
    reveal_strlit("fg");
    reveal_strlit("foreground");
    reveal_strlit("dim");
    reveal_strlit("comment");
    reveal_strlit("accent");
    reveal_strlit("blue");
    reveal_strlit("error");
    reveal_strlit("red");
    reveal_strlit("border");
    reveal_strlit("field");
    assert("bg"@.len() == 2 && "bg"@[0] == 'b');
    assert("background"@.len() == 10 && "background"@[0] == 'b');
    assert("fg"@.len() == 2 && "fg"@[0] == 'f');
    assert("foreground"@.len() == 10 && "foreground"@[0] == 'f');
    assert("dim"@.len() == 3 && "dim"@[0] == 'd');
    assert("comment"@.len() == 7);
    assert("accent"@.len() == 6 && "accent"@[0] == 'a');
    assert("blue"@.len() == 4);
    assert("error"@.len() == 5 && "error"@[0] == 'e');
    assert("red"@.len() == 3 && "red"@[0] == 'r');
    assert("border"@.len() == 6 && "border"@[0] == 'b');
    assert("field"@.len() == 5 && "field"@[0] == 'f');
}

/// What a line sets: the colour that its key names, to the value after the `=`, whatever
/// whitespace stands around the key.
pub proof fn law_a_line_sets_one_colour(
    a: Seq<char>,
    key: Seq<char>,
    b: Seq<char>,
    value: Seq<char>,
    c: nat,
    slot: Slot,
)
    requires
        blank(a),
        blank(b),
        is_word(key),
        key[0] != '#',
        forall|i: int| 0 <= i < key.len() ==> #[trigger] key[i] != '=',
        value.len() > 0,
        !is_space(value.last()),
        colour_named(value) == Some(c),
        slot_named(lower_case(key)) == Some(slot),
    ensures
        setting(a + key + b + seq!['='] + value) == Some((slot, c as u32)),
{
    let kept = key + b + seq!['='] + value;
    let none = Seq::<char>::empty();
    assert(kept[0] == key[0]);
    assert(kept.last() == value.last());
    law_trimming_takes_off_the_ends(a, kept, none);
    assert(a + key + b + seq!['='] + value =~= a + kept + none);
    let k = key + b;
    assert forall|i: int| 0 <= i < k.len() implies #[trigger] k[i] != '=' by {
        if i < key.len() {
            assert(k[i] == key[i]);
        } else {
            assert(k[i] == b[i - key.len()]);
            assert(is_space(k[i]));
        }
    }
    law_a_text_is_split_once(k, '=', value);
    assert(!is_space(key[key.len() - 1]));
    law_trimming_takes_off_the_ends(none, key, b);
    assert(none + key + b =~= k);
}

/// A comment sets nothing, and neither does a line without a `=`, one whose value is no colour,
/// or one whose key ward does not know.
pub proof fn law_other_lines_set_nothing(a: Seq<char>, s: Seq<char>, k: Seq<char>, v: Seq<char>)
    requires
        blank(a),
        s.len() > 0 ==> !is_space(s[0]) && !is_space(s.last()),
        s.len() > 0 && s[0] == '#' || (forall|i: int| 0 <= i < s.len() ==> #[trigger] s[i] != '=')
            || (s == k + seq!['='] + v && (forall|i: int|
            0 <= i < k.len() ==> #[trigger] k[i] != '=') && (colour_named(v) is None || slot_named(
            lower_case(trim(k)),
        ) is None)),
    ensures
        setting(a + s) is None,
{
    let none = Seq::<char>::empty();
    law_trimming_takes_off_the_ends(a, s, none);
    assert(a + s + none =~= a + s);
    if s.len() > 0 && s[0] == '#' {
    } else if forall|i: int| 0 <= i < s.len() ==> #[trigger] s[i] != '=' {
        law_a_text_is_split_once(s, '=', none);
    } else {
        law_a_text_is_split_once(k, '=', v);
    }
}

/// A line changes the one colour it sets and leaves the others; one that sets nothing leaves
/// them all. The lines are read one after the other.
pub proof fn law_lines_repaint_one_after_the_other(t: Theme, ls: Seq<Seq<char>>, line: Seq<char>)
    ensures
        ({
            let before = repainted(t, ls);
            let after = repainted(t, ls.push(line));
            match setting(line) {
                None => after == before,
                Some((Slot::Bg, c)) => after == (Theme { bg: c, ..before }),
                Some((Slot::Fg, c)) => after == (Theme { fg: c, ..before }),
                Some((Slot::Dim, c)) => after == (Theme { dim: c, ..before }),
                Some((Slot::Accent, c)) => after == (Theme { accent: c, ..before }),
                Some((Slot::Error, c)) => after == (Theme { error: c, ..before }),
                Some((Slot::Border, c)) => after == (Theme { border: c, ..before }),
                Some((Slot::Field, c)) => after == (Theme { field: c, ..before }),
            }
        }),
        repainted(t, Seq::empty()) == t,
{
    assert(ls.push(line).drop_last() =~= ls);
    assert(ls.push(line).last() == line);
}

/// Where the theme lies: under `XDG_CONFIG_HOME` where that names a directory, else under
/// `.config` in the home directory.
pub proof fn law_where_the_theme_lies(xdg: Seq<char>, home: Seq<char>, other: Option<Seq<char>>)
    requires
        xdg.len() > 0 && xdg.last() != '/',
        home.len() > 0 && home.last() != '/',
    ensures
        theme_path(Some(xdg), other) == xdg + "/ward/theme.conf"@,
        theme_path(None, Some(home)) == home + "/.config/ward/theme.conf"@,
        theme_path(Some(Seq::empty()), Some(home)) == home + "/.config/ward/theme.conf"@,
        theme_path(None, None) == ".config/ward/theme.conf"@,
{
    reveal_strlit("/");
    reveal_strlit(".config");
    reveal_strlit("ward");
    reveal_strlit("theme.conf");
    reveal_strlit("/ward/theme.conf");
    reveal_strlit("/.config/ward/theme.conf");
    reveal_strlit(".config/ward/theme.conf");
    assert((xdg + "/"@ + "ward"@).last() == 'd');
    assert(theme_path(Some(xdg), other) =~= xdg + "/ward/theme.conf"@);
    let base = home + "/"@ + ".config"@;
    assert(base.last() == 'g');
    assert((base + "/"@ + "ward"@).last() == 'd');
    assert(theme_path(None, Some(home)) =~= home + "/.config/ward/theme.conf"@);
    assert((".config"@ + "/"@ + "ward"@).last() == 'd');
    assert(".config"@.last() == 'g');
    assert(theme_path(None, None) =~= ".config/ward/theme.conf"@);
}

/// A path is put together with one slash.
pub proof fn law_a_path_is_put_together_with_one_slash(dir: Seq<char>, child: Seq<char>)
    requires
        dir.len() > 0 ==> dir.last() != '/',
    ensures
        dir.len() > 0 ==> joined(dir, child) == dir + "/"@ + child,
        joined(dir + "/"@, child) == dir + "/"@ + child,
        dir.len() == 0 ==> joined(dir, child) == child,
{
    reveal_strlit("/");
    assert((dir + "/"@).last() == '/');
    if dir.len() == 0 {
        assert(dir + child =~= child);
    }
}

} // verus!
