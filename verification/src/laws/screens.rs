//! The terminal: how text is folded, and what the screens show.

use vstd::prelude::*;

use crate::assuan::decoded;
use crate::laws::commands::{law_each_setting_goes_to_its_own_place, unspaced};
use crate::server::{after_line, StateView};
use crate::text::{
    decimal, is_word, lemma_find_is, lemma_runs, lemma_words_are_words, lemma_words_join,
    lemma_words_of_word, paragraphs, words,
};
use crate::ui::tty::{
    confirm_screen, field_label, filled, fold_width, folded, law_wrapping_keeps_every_word, marks,
    millis, passage, pin_screen, section, words_of, wrapped, written,
};

verus! {

/// Words with one space between each two.
pub open spec fn spaced(ws: Seq<Seq<char>>) -> Seq<char>
    decreases ws.len(),
{
    if ws.len() == 0 {
        Seq::empty()
    } else if ws.len() == 1 {
        ws[0]
    } else {
        spaced(ws.drop_last()) + seq![' '] + ws.last()
    }
}

proof fn lemma_spaced_push(ws: Seq<Seq<char>>, w: Seq<char>)
    requires
        ws.len() > 0,
    ensures
        spaced(ws.push(w)) == spaced(ws) + seq![' '] + w,
{
    assert(ws.push(w).drop_last() =~= ws);
}

/// What holds of the lines that words are laid out in.
pub open spec fn laid_out(ls: Seq<Seq<char>>, width: nat) -> bool {
    &&& ls.len() > 0
    &&& forall|i: int| 0 <= i < ls.len() ==> #[trigger] ls[i] == spaced(words(ls[i]))
    &&& forall|i: int|
        0 <= i < ls.len() - 1 ==> words(#[trigger] ls[i + 1]).len() > 0 && ls[i].len() + 1 + words(
            ls[i + 1],
        )[0].len() > width
}

proof fn lemma_laid_out(ws: Seq<Seq<char>>, cur: Seq<char>, width: nat)
    requires
        forall|i: int| 0 <= i < ws.len() ==> is_word(#[trigger] ws[i]),
        cur == spaced(words(cur)),
        cur.len() > 0 ==> words(cur).len() > 0,
    ensures
        laid_out(filled(ws, cur, width), width),
        cur.len() > 0 ==> words(filled(ws, cur, width)[0]).len() > 0 && words(
            filled(ws, cur, width)[0],
        )[0] == words(cur)[0],
        cur.len() == 0 && ws.len() > 0 ==> words(filled(ws, cur, width)[0]).len() > 0 && words(
            filled(ws, cur, width)[0],
        )[0] == ws[0],
    decreases ws.len(),
{
    let ls = filled(ws, cur, width);
    if ws.len() > 0 {
        let w = ws[0];
        let rest = ws.drop_first();
        assert(is_word(w));
        assert forall|i: int| 0 <= i < rest.len() implies is_word(#[trigger] rest[i]) by {
            assert(rest[i] == ws[i + 1]);
        }
        lemma_words_of_word(w);
        assert(spaced(seq![w]) =~= w);
        if cur.len() == 0 {
            lemma_laid_out(rest, w, width);
        } else if cur.len() + 1 + w.len() > width {
            lemma_laid_out(rest, w, width);
            let next = filled(rest, w, width);
            assert(ls =~= seq![cur] + next);
            assert forall|i: int| 0 <= i < ls.len() implies #[trigger] ls[i] == spaced(
                words(ls[i]),
            ) by {
                if i > 0 {
                    assert(ls[i] == next[i - 1]);
                }
            }
            assert forall|i: int| 0 <= i < ls.len() - 1 implies words(#[trigger] ls[i + 1]).len()
                > 0 && ls[i].len() + 1 + words(ls[i + 1])[0].len() > width by {
                assert(ls[i + 1] == next[i]);
                if i > 0 {
                    assert(ls[i] == next[i - 1]);
                    assert(next[i - 1 + 1] == next[i]);
                }
            }
        } else {
            let more = cur + seq![' '] + w;
            lemma_words_join(cur, ' ', w);
            assert(words(cur) + seq![w] =~= words(cur).push(w));
            lemma_spaced_push(words(cur), w);
            lemma_laid_out(rest, more, width);
            assert(words(more)[0] == words(cur)[0]);
        }
    }
}

/// How a paragraph falls into lines. Each line is its words with one space between each two; a
/// line ends only where the next word would not have fitted; and an empty paragraph is one
/// empty line. No width below 8 is taken seriously.
pub proof fn law_lines_are_filled(s: Seq<char>, width: nat)
    requires
        forall|i: int| 0 <= i < s.len() ==> #[trigger] s[i] != '\n',
    ensures
        laid_out(
            wrapped(s, width),
            if width < 8 {
                8
            } else {
                width
            },
        ),
        words_of(wrapped(s, width)) == words(s),
        words(s).len() == 0 ==> wrapped(s, width) == seq![Seq::<char>::empty()],
{
    let w = if width < 8 {
        8
    } else {
        width
    };
    let nothing = Seq::<char>::empty();
    lemma_find_is(s, '\n', s.len() as int);
    assert(paragraphs(s) =~= seq![s]);
    reveal_with_fuel(folded, 2);
    assert(paragraphs(s).drop_first() =~= Seq::<Seq<char>>::empty());
    assert(wrapped(s, width) =~= filled(words(s), nothing, fold_width(width)));
    lemma_words_are_words(s);
    lemma_runs(nothing);
    assert(words(nothing) =~= Seq::<Seq<char>>::empty());
    assert(spaced(words(nothing)) =~= nothing);
    lemma_laid_out(words(s), nothing, w);
    law_wrapping_keeps_every_word(s, width);
}

/// Whether these pieces stand in a text, in this order, none over another.
pub open spec fn in_order(s: Seq<char>, parts: Seq<Seq<char>>) -> bool
    decreases parts.len(),
{
    parts.len() == 0 || exists|i: int| #[trigger] stands_at(s, parts[0], i) && in_order(
        s.skip(i + parts[0].len()),
        parts.drop_first(),
    )
}

/// Whether a piece stands in a text at this place.
pub open spec fn stands_at(s: Seq<char>, part: Seq<char>, i: int) -> bool {
    0 <= i && i + part.len() <= s.len() && s.subrange(i, i + part.len()) == part
}

/// What stands in the end of a text stands in the text.
proof fn lemma_in_order_after(a: Seq<char>, b: Seq<char>, parts: Seq<Seq<char>>)
    requires
        in_order(b, parts),
    ensures
        in_order(a + b, parts),
{
    if parts.len() > 0 {
        let p = parts[0];
        let i = choose|i: int| #[trigger] stands_at(b, p, i) && in_order(
            b.skip(i + p.len()),
            parts.drop_first(),
        );
        let k = a.len() + i;
        assert((a + b).subrange(k, k + p.len()) =~= b.subrange(i, i + p.len()));
        assert((a + b).skip(k + p.len()) =~= b.skip(i + p.len()));
        assert(stands_at(a + b, p, k));
    }
}

/// What stands in two texts stands in one after the other.
proof fn lemma_in_order_join(
    a: Seq<char>,
    b: Seq<char>,
    first: Seq<Seq<char>>,
    second: Seq<Seq<char>>,
)
    requires
        in_order(a, first),
        in_order(b, second),
    ensures
        in_order(a + b, first + second),
    decreases first.len(),
{
    if first.len() == 0 {
        assert(first + second =~= second);
        lemma_in_order_after(a, b, second);
    } else {
        let p = first[0];
        let all = first + second;
        let i = choose|i: int| #[trigger] stands_at(a, p, i) && in_order(
            a.skip(i + p.len()),
            first.drop_first(),
        );
        lemma_in_order_join(a.skip(i + p.len()), b, first.drop_first(), second);
        assert((a + b).subrange(i, i + p.len()) =~= a.subrange(i, i + p.len()));
        assert((a + b).skip(i + p.len()) =~= a.skip(i + p.len()) + b);
        assert(all.drop_first() =~= first.drop_first() + second);
        assert(all[0] == p);
        assert(stands_at(a + b, p, i));
    }
}

/// A text stands in itself.
proof fn lemma_in_order_one(s: Seq<char>)
    ensures
        in_order(s, seq![s]),
{
    let parts = seq![s];
    assert(s.subrange(0, s.len() as int) =~= s);
    assert(stands_at(s, parts[0], 0));
    assert(in_order(s.skip(s.len() as int), parts.drop_first()));
}

proof fn lemma_in_order_words(ws: Seq<Seq<char>>)
    ensures
        in_order(spaced(ws), ws),
    decreases ws.len(),
{
    if ws.len() == 1 {
        lemma_in_order_one(ws[0]);
        assert(ws =~= seq![ws[0]]);
    } else if ws.len() > 1 {
        let r = ws.drop_last();
        lemma_in_order_words(r);
        lemma_in_order_one(ws.last());
        lemma_in_order_after(seq![' '], ws.last(), seq![ws.last()]);
        lemma_in_order_join(spaced(r), seq![' '] + ws.last(), r, seq![ws.last()]);
        assert(r + seq![ws.last()] =~= ws);
        assert(spaced(r) + (seq![' '] + ws.last()) =~= spaced(ws));
    }
}

/// What stands in a text stands in a longer one.
proof fn lemma_in_order_within(
    a: Seq<char>,
    b: Seq<char>,
    c: Seq<char>,
    parts: Seq<Seq<char>>,
)
    requires
        in_order(b, parts),
    ensures
        in_order(a + b + c, parts),
{
    lemma_in_order_after(a, b, parts);
    lemma_in_order_join(a + b, c, parts, Seq::empty());
    assert(parts + Seq::<Seq<char>>::empty() =~= parts);
}

proof fn lemma_folded_words(ps: Seq<Seq<char>>, width: nat)
    ensures
        forall|i: int|
            0 <= i < folded(ps, width).len() ==> #[trigger] folded(ps, width)[i] == spaced(
                words(folded(ps, width)[i]),
            ),
        ps.len() > 0 ==> folded(ps, width).len() > 0,
    decreases ps.len(),
{
    if ps.len() > 0 {
        let nothing = Seq::<char>::empty();
        lemma_words_are_words(ps[0]);
        lemma_runs(nothing);
        assert(words(nothing) =~= Seq::<Seq<char>>::empty());
        assert(spaced(words(nothing)) =~= nothing);
        let head = filled(words(ps[0]), nothing, fold_width(width));
        let tail = folded(ps.drop_first(), width);
        lemma_laid_out(words(ps[0]), nothing, fold_width(width));
        lemma_folded_words(ps.drop_first(), width);
        let all = folded(ps, width);
        assert forall|i: int| 0 <= i < all.len() implies #[trigger] all[i] == spaced(
            words(all[i]),
        ) by {
            if i < head.len() {
                assert(all[i] == head[i]);
            } else {
                assert(all[i] == tail[i - head.len()]);
            }
        }
    }
}

proof fn lemma_written_words(ls: Seq<Seq<char>>, start: Seq<char>, end: Seq<char>)
    requires
        forall|i: int| 0 <= i < ls.len() ==> #[trigger] ls[i] == spaced(words(ls[i])),
    ensures
        in_order(written(ls, start, end), words_of(ls)),
    decreases ls.len(),
{
    if ls.len() > 0 {
        let r = ls.drop_first();
        assert forall|i: int| 0 <= i < r.len() implies #[trigger] r[i] == spaced(words(r[i])) by {
            assert(r[i] == ls[i + 1]);
        }
        lemma_written_words(r, start, end);
        assert(ls[0] == spaced(words(ls[0])));
        lemma_in_order_words(words(ls[0]));
        let line = "  "@ + start + ls[0] + end;
        lemma_in_order_within("  "@ + start, ls[0], end, words(ls[0]));
        lemma_in_order_join(line, written(r, start, end), words(ls[0]), words_of(r));
    }
}

/// A paragraph of the screen holds the words of the text, in order, and where it is coloured
/// the colour goes before them.
proof fn lemma_passage_words(s: Seq<char>, cols: nat, start: Seq<char>, end: Seq<char>)
    ensures
        in_order(passage(s, cols, start, end), words(s)),
        in_order(passage(s, cols, start, end), seq![start] + words(s)),
{
    let width = (crate::ui::tty::columns(cols) - 4) as nat;
    let ls = wrapped(s, width);
    lemma_folded_words(paragraphs(s), width);
    law_wrapping_keeps_every_word(s, width);
    lemma_written_words(ls, start, end);
    assert(paragraphs(s).len() > 0);
    let r = ls.drop_first();
    assert forall|i: int| 0 <= i < r.len() implies #[trigger] r[i] == spaced(words(r[i])) by {
        assert(r[i] == ls[i + 1]);
    }
    lemma_written_words(r, start, end);
    assert(ls[0] == spaced(words(ls[0])));
    lemma_in_order_words(words(ls[0]));
    lemma_in_order_one(start);
    lemma_in_order_after("  "@, start, seq![start]);
    lemma_in_order_join("  "@ + start, ls[0], seq![start], words(ls[0]));
    lemma_in_order_within(Seq::empty(), "  "@ + start + ls[0], end, seq![start] + words(ls[0]));
    assert(Seq::<char>::empty() + ("  "@ + start + ls[0]) + end =~= "  "@ + start + ls[0] + end);
    lemma_in_order_join(
        "  "@ + start + ls[0] + end,
        written(r, start, end),
        seq![start] + words(ls[0]),
        words_of(r),
    );
    assert(seq![start] + words(ls[0]) + words_of(r) =~= seq![start] + words(s));
}

/// The words of a text, where there is one.
pub open spec fn words_in(s: Option<Seq<char>>) -> Seq<Seq<char>> {
    if s is Some {
        words(s->0)
    } else {
        Seq::empty()
    }
}

/// A colour and the words in it, where there are any.
pub open spec fn coloured(colour: Seq<char>, s: Option<Seq<char>>) -> Seq<Seq<char>> {
    if s is Some {
        seq![colour] + words(s->0)
    } else {
        Seq::empty()
    }
}

proof fn lemma_section_words(s: Option<Seq<char>>, cols: nat, start: Seq<char>, end: Seq<char>)
    ensures
        in_order(section(s, cols, start, end), words_in(s)),
        in_order(section(s, cols, start, end), coloured(start, s)),
{
    if s is Some {
        let text = s->0;
        let p = passage(text, cols, start, end);
        lemma_passage_words(text, cols, start, end);
        lemma_in_order_within(Seq::empty(), p, "\r\n"@, words(text));
        lemma_in_order_within(Seq::empty(), p, "\r\n"@, seq![start] + words(text));
        assert(Seq::<char>::empty() + p + "\r\n"@ =~= p + "\r\n"@);
    }
}

/// What the agent set the label to, or the plain one.
pub open spec fn label_shown(st: StateView, repeating: bool) -> Seq<char> {
    if repeating && st.repeat is Some {
        st.repeat->0
    } else if repeating {
        "Repeat:"@
    } else if st.prompt is Some {
        st.prompt->0
    } else {
        "Passphrase:"@
    }
}

/// The screen of a passphrase prompt holds, in this order: the words of the title, those of the
/// description, those of the error in red, those of the note in yellow, the label of the field,
/// one mark for each character, how many characters there are, and which keys there are.
pub proof fn law_the_prompt_is_on_the_screen(
    st: StateView,
    cols: nat,
    entered: nat,
    repeating: bool,
    note: Option<Seq<char>>,
)
    ensures
        in_order(
            pin_screen(st, cols, entered, repeating, note),
            words_in(st.title) + words_in(st.desc) + coloured("\x1b[31m"@, st.error) + coloured(
                "\x1b[33m"@,
                note,
            ) + seq![
                label_shown(st, repeating),
                marks(entered),
                decimal(entered),
                " characters"@,
                "enter accept   esc cancel   ctrl-u clear"@,
            ],
        ),
{
    let head = "\x1b[2J\x1b[H\r\n"@;
    let a = section(st.title, cols, ""@, "\r\n"@);
    let b = section(st.desc, cols, ""@, "\r\n"@);
    let c = section(st.error, cols, "\x1b[31m"@, "\x1b[0m\r\n"@);
    let d = section(note, cols, "\x1b[33m"@, "\x1b[0m\r\n"@);
    lemma_section_words(st.title, cols, ""@, "\r\n"@);
    lemma_section_words(st.desc, cols, ""@, "\r\n"@);
    lemma_section_words(st.error, cols, "\x1b[31m"@, "\x1b[0m\r\n"@);
    lemma_section_words(note, cols, "\x1b[33m"@, "\x1b[0m\r\n"@);
    let pa = words_in(st.title);
    let pb = words_in(st.desc);
    let pc = coloured("\x1b[31m"@, st.error);
    let pd = coloured("\x1b[33m"@, note);
    lemma_in_order_after(head, a, pa);
    lemma_in_order_join(head + a, b, pa, pb);
    lemma_in_order_join(head + a + b, c, pa + pb, pc);
    lemma_in_order_join(head + a + b + c, d, pa + pb + pc, pd);
    let above = head + a + b + c + d;
    let name = label_shown(st, repeating);
    assert(name == field_label(st, repeating));
    let m = marks(entered);
    let n = decimal(entered);
    let chars = " characters"@;
    let hint = "enter accept   esc cancel   ctrl-u clear"@;
    lemma_in_order_one(name);
    lemma_in_order_one(m);
    lemma_in_order_one(n);
    lemma_in_order_one(chars);
    lemma_in_order_one(hint);
    lemma_in_order_after("  "@, name, seq![name]);
    lemma_in_order_after(" "@, m, seq![m]);
    lemma_in_order_after("  \x1b[2m("@, n, seq![n]);
    let count = " characters)\x1b[0m\r\n\r\n"@;
    let keys = "  \x1b[2menter accept   esc cancel   ctrl-u clear\x1b[0m\r\n"@;
    assert(count =~= Seq::<char>::empty() + chars + ")\x1b[0m\r\n\r\n"@) by {
        reveal_strlit(" characters)\x1b[0m\r\n\r\n");
        reveal_strlit(" characters");
        reveal_strlit(")\x1b[0m\r\n\r\n");
    }
    assert(keys =~= "  \x1b[2m"@ + hint + "\x1b[0m\r\n"@) by {
        reveal_strlit("  \x1b[2menter accept   esc cancel   ctrl-u clear\x1b[0m\r\n");
        reveal_strlit("  \x1b[2m");
        reveal_strlit("enter accept   esc cancel   ctrl-u clear");
        reveal_strlit("\x1b[0m\r\n");
    }
    lemma_in_order_within(Seq::empty(), chars, ")\x1b[0m\r\n\r\n"@, seq![chars]);
    lemma_in_order_within("  \x1b[2m"@, hint, "\x1b[0m\r\n"@, seq![hint]);
    let p0 = pa + pb + pc + pd;
    lemma_in_order_join(above, "  "@ + name, p0, seq![name]);
    lemma_in_order_join(above + ("  "@ + name), " "@ + m, p0 + seq![name], seq![m]);
    let s2 = above + ("  "@ + name) + (" "@ + m);
    lemma_in_order_join(s2, "  \x1b[2m("@ + n, p0 + seq![name] + seq![m], seq![n]);
    let s3 = s2 + ("  \x1b[2m("@ + n);
    let p3 = p0 + seq![name] + seq![m] + seq![n];
    lemma_in_order_join(s3, count, p3, seq![chars]);
    lemma_in_order_join(s3 + count, keys, p3 + seq![chars], seq![hint]);
    assert(p3 + seq![chars] + seq![hint] =~= p0 + seq![name, m, n, chars, hint]);
    assert(s3 + count + keys =~= pin_screen(st, cols, entered, repeating, note));
}

/// The screen of a question holds the words of the description, and after them which keys there
/// are.
pub proof fn law_the_question_is_on_the_screen(st: StateView, cols: nat, one_button: bool)
    ensures
        in_order(
            confirm_screen(st, cols, one_button),
            words_in(st.desc) + seq![
                if one_button {
                    "enter  dismiss"@
                } else {
                    "y accept   n decline   esc cancel"@
                },
            ],
        ),
{
    let head = "\x1b[2J\x1b[H\r\n"@;
    let hint = if one_button {
        "enter  dismiss"@
    } else {
        "y accept   n decline   esc cancel"@
    };
    let text = match st.desc {
        Some(s) => passage(s, cols, ""@, "\r\n"@),
        None => seq![],
    };
    if st.desc is Some {
        lemma_passage_words(st.desc->0, cols, ""@, "\r\n"@);
    }
    lemma_in_order_after(head, text, words_in(st.desc));
    lemma_in_order_one(hint);
    lemma_in_order_within("\r\n  \x1b[2m"@, hint, "\x1b[0m\r\n"@, seq![hint]);
    let tail = "\r\n  \x1b[2m"@ + hint + "\x1b[0m\r\n"@;
    lemma_in_order_join(head + text, tail, words_in(st.desc), seq![hint]);
    assert(head + text + tail =~= confirm_screen(st, cols, one_button));
}

/// What the agent describes is what the user reads: after `SETDESC` the screen holds the words
/// of the description above the field, and after `SETPROMPT` the field has that label.
pub proof fn law_the_user_reads_what_the_agent_said(
    st: StateView,
    v: Seq<char>,
    cols: nat,
    entered: nat,
    note: Option<Seq<char>>,
)
    requires
        unspaced(v),
    ensures
        in_order(
            pin_screen(after_line(st, "SETDESC "@ + v), cols, entered, false, note),
            words(decoded(v)) + seq![label_shown(st, false)],
        ),
        in_order(
            pin_screen(after_line(st, "SETPROMPT "@ + v), cols, entered, false, note),
            words_in(st.desc) + seq![decoded(v), marks(entered)],
        ),
        in_order(
            pin_screen(after_line(st, "SETREPEAT "@ + v), cols, entered, true, note),
            words_in(st.desc) + seq![decoded(v), marks(entered)],
        ),
        in_order(
            pin_screen(after_line(st, "SETERROR "@ + v), cols, entered, false, note),
            words_in(st.desc) + (seq!["\x1b[31m"@] + words(decoded(v))),
        ),
        in_order(
            pin_screen(after_line(st, "SETTITLE "@ + v), cols, entered, false, note),
            words(decoded(v)) + words_in(st.desc),
        ),
        in_order(confirm_screen(after_line(st, "SETDESC "@ + v), cols, false), words(decoded(v))),
{
    law_each_setting_goes_to_its_own_place(st, v);
    lemma_above_the_field(after_line(st, "SETDESC "@ + v), cols, entered, false, note);
    lemma_above_the_field(after_line(st, "SETPROMPT "@ + v), cols, entered, false, note);
    lemma_above_the_field(after_line(st, "SETREPEAT "@ + v), cols, entered, true, note);
    lemma_above_the_field(after_line(st, "SETERROR "@ + v), cols, entered, false, note);
    lemma_above_the_field(after_line(st, "SETTITLE "@ + v), cols, entered, false, note);
    let desc = after_line(st, "SETDESC "@ + v);
    law_the_question_is_on_the_screen(desc, cols, false);
    let hint = seq!["y accept   n decline   esc cancel"@];
    let said = words(decoded(v));
    assert(said + hint =~= Seq::<Seq<char>>::empty() + said + Seq::<Seq<char>>::empty() + Seq::<
        Seq<char>,
    >::empty() + hint);
    lemma_in_order_some(
        confirm_screen(desc, cols, false),
        Seq::empty(),
        said,
        Seq::empty(),
        Seq::empty(),
        hint,
        said + hint,
    );
    assert(said + Seq::<Seq<char>>::empty() =~= said);
}

/// Some of what stands on the screen, in order.
proof fn lemma_above_the_field(
    st: StateView,
    cols: nat,
    entered: nat,
    repeating: bool,
    note: Option<Seq<char>>,
)
    ensures
        ({
            let screen = pin_screen(st, cols, entered, repeating, note);
            let name = label_shown(st, repeating);
            &&& in_order(screen, words_in(st.desc) + seq![name])
            &&& in_order(screen, words_in(st.desc) + seq![name, marks(entered)])
            &&& in_order(screen, words_in(st.desc) + coloured("\x1b[31m"@, st.error))
            &&& in_order(screen, words_in(st.title) + words_in(st.desc))
        }),
{
    law_the_prompt_is_on_the_screen(st, cols, entered, repeating, note);
    let screen = pin_screen(st, cols, entered, repeating, note);
    let a = words_in(st.title);
    let b = words_in(st.desc);
    let c = coloured("\x1b[31m"@, st.error);
    let d = coloured("\x1b[33m"@, note);
    let name = label_shown(st, repeating);
    let m = marks(entered);
    let n = decimal(entered);
    let chars = " characters"@;
    let hint = "enter accept   esc cancel   ctrl-u clear"@;
    let last = seq![name, m, n, chars, hint];
    let all = a + b + c + d + last;
    let none = Seq::<Seq<char>>::empty();
    assert(last =~= seq![name] + seq![m, n, chars, hint]);
    assert(last =~= seq![name, m] + seq![n, chars, hint]);
    assert(all =~= a + b + (c + d) + seq![name] + seq![m, n, chars, hint]);
    lemma_in_order_some(screen, a, b, c + d, seq![name], seq![m, n, chars, hint], all);
    assert(all =~= a + b + (c + d) + seq![name, m] + seq![n, chars, hint]);
    lemma_in_order_some(screen, a, b, c + d, seq![name, m], seq![n, chars, hint], all);
    assert(all =~= a + b + none + c + (d + last));
    lemma_in_order_some(screen, a, b, none, c, d + last, all);
    assert(all =~= none + a + none + b + (c + d + last));
    lemma_in_order_some(screen, none, a, none, b, c + d + last, all);
}

/// Pieces that stand in a text in order do so still where some are passed over.
proof fn lemma_in_order_some(
    s: Seq<char>,
    a: Seq<Seq<char>>,
    b: Seq<Seq<char>>,
    c: Seq<Seq<char>>,
    d: Seq<Seq<char>>,
    e: Seq<Seq<char>>,
    all: Seq<Seq<char>>,
)
    requires
        in_order(s, all),
        all =~= a + b + c + d + e,
    ensures
        in_order(s, b + d),
{
    assert(all =~= a + (b + c + d + e));
    lemma_in_order_drop(s, a, b + c + d + e);
    assert(b + c + d + e =~= b + c + (d + e));
    lemma_in_order_keep(s, b, c, d + e);
    assert(b + (d + e) =~= b + d + e + Seq::<Seq<char>>::empty());
    lemma_in_order_keep(s, b + d, e, Seq::empty());
    assert(b + d + Seq::<Seq<char>>::empty() =~= b + d);
}

proof fn lemma_in_order_drop(s: Seq<char>, a: Seq<Seq<char>>, b: Seq<Seq<char>>)
    requires
        in_order(s, a + b),
    ensures
        in_order(s, b),
    decreases a.len(),
{
    let all = a + b;
    if a.len() == 0 {
        assert(all =~= b);
    } else {
        let p = all[0];
        let i = choose|i: int| #[trigger] stands_at(s, p, i) && in_order(
            s.skip(i + p.len()),
            all.drop_first(),
        );
        assert(all.drop_first() =~= a.drop_first() + b);
        lemma_in_order_drop(s.skip(i + p.len()), a.drop_first(), b);
        lemma_in_order_after(s.take(i + p.len()), s.skip(i + p.len()), b);
        assert(s.take(i + p.len()) + s.skip(i + p.len()) =~= s);
    }
}

proof fn lemma_in_order_keep(s: Seq<char>, a: Seq<Seq<char>>, b: Seq<Seq<char>>, c: Seq<Seq<char>>)
    requires
        in_order(s, a + b + c),
    ensures
        in_order(s, a + c),
    decreases a.len(),
{
    let all = a + b + c;
    if a.len() == 0 {
        assert(all =~= b + c);
        lemma_in_order_drop(s, b, c);
        assert(a + c =~= c);
    } else {
        let p = all[0];
        let i = choose|i: int| #[trigger] stands_at(s, p, i) && in_order(
            s.skip(i + p.len()),
            all.drop_first(),
        );
        assert(all.drop_first() =~= a.drop_first() + b + c);
        lemma_in_order_keep(s.skip(i + p.len()), a.drop_first(), b, c);
        assert((a + c).drop_first() =~= a.drop_first() + c);
        assert((a + c)[0] == p);
        assert(stands_at(s, p, i));
    }
}

/// Each line of a paragraph as it is written: two spaces, the colour where there is one, the
/// line, and what ends it.
pub open spec fn written_lines(ls: Seq<Seq<char>>, start: Seq<char>, end: Seq<char>) -> Seq<char>
    decreases ls.len(),
{
    if ls.len() == 0 {
        Seq::empty()
    } else {
        written_lines(ls.drop_last(), start, end) + ("  "@ + start + ls.last() + end)
    }
}

proof fn lemma_written_lines(a: Seq<Seq<char>>, b: Seq<Seq<char>>, start: Seq<char>, end: Seq<char>)
    ensures
        written_lines(a, start, end) + written(b, start, end) == written_lines(a + b, start, end),
    decreases b.len(),
{
    if b.len() == 0 {
        assert(a + b =~= a);
        assert(written_lines(a, start, end) + written(b, start, end) =~= written_lines(
            a,
            start,
            end,
        ));
    } else {
        let x = a.push(b[0]);
        lemma_written_lines(x, b.drop_first(), start, end);
        assert(x + b.drop_first() =~= a + b);
        assert(x.drop_last() =~= a);
        assert(written_lines(a, start, end) + written(b, start, end) =~= written_lines(
            x,
            start,
            end,
        ) + written(b.drop_first(), start, end));
    }
}

/// A text on the screen, as wide as the terminal is, but at least 20 columns and at most 100,
/// two of them free at either side, and a blank line below.
pub open spec fn block(s: Option<Seq<char>>, cols: nat, start: Seq<char>, end: Seq<char>) -> Seq<
    char,
> {
    let width: nat = if cols < 20 {
        16
    } else if cols > 100 {
        96
    } else {
        (cols - 4) as nat
    };
    if s is Some {
        written_lines(wrapped(s->0, width), start, end) + "\r\n"@
    } else {
        Seq::empty()
    }
}

proof fn lemma_block(s: Option<Seq<char>>, cols: nat, start: Seq<char>, end: Seq<char>)
    ensures
        section(s, cols, start, end) == block(s, cols, start, end),
{
    if s is Some {
        let ls = wrapped(s->0, (crate::ui::tty::columns(cols) - 4) as nat);
        let none = Seq::<Seq<char>>::empty();
        lemma_written_lines(none, ls, start, end);
        assert(none + ls =~= ls);
        assert(written_lines(none, start, end) + written(ls, start, end) =~= written(
            ls,
            start,
            end,
        ));
    }
}

/// The screen of a passphrase prompt, line by line: it holds what is to be read, the field and
/// the hint, and nothing else.
pub proof fn law_the_prompt_line_by_line(
    st: StateView,
    cols: nat,
    entered: nat,
    repeating: bool,
    note: Option<Seq<char>>,
)
    ensures
        pin_screen(st, cols, entered, repeating, note) == "\x1b[2J\x1b[H\r\n"@ + block(
            st.title,
            cols,
            Seq::empty(),
            "\r\n"@,
        ) + block(st.desc, cols, Seq::empty(), "\r\n"@) + block(
            st.error,
            cols,
            "\x1b[31m"@,
            "\x1b[0m\r\n"@,
        ) + block(note, cols, "\x1b[33m"@, "\x1b[0m\r\n"@) + "  "@ + label_shown(st, repeating)
            + " "@ + marks(entered) + "  \x1b[2m("@ + decimal(entered)
            + " characters)\x1b[0m\r\n\r\n"@
            + "  \x1b[2menter accept   esc cancel   ctrl-u clear\x1b[0m\r\n"@,
{
    reveal_strlit("");
    assert(""@ =~= Seq::<char>::empty());
    lemma_block(st.title, cols, ""@, "\r\n"@);
    lemma_block(st.desc, cols, ""@, "\r\n"@);
    lemma_block(st.error, cols, "\x1b[31m"@, "\x1b[0m\r\n"@);
    lemma_block(note, cols, "\x1b[33m"@, "\x1b[0m\r\n"@);
}

/// The screen of a question, line by line.
pub proof fn law_the_question_line_by_line(st: StateView, cols: nat, one_button: bool)
    ensures
        st.desc is Some ==> confirm_screen(st, cols, one_button) == "\x1b[2J\x1b[H\r\n"@ + block(
            st.desc,
            cols,
            Seq::empty(),
            "\r\n"@,
        ) + "  \x1b[2m"@ + if one_button {
            "enter  dismiss"@
        } else {
            "y accept   n decline   esc cancel"@
        } + "\x1b[0m\r\n"@,
        st.desc is None ==> confirm_screen(st, cols, one_button) == "\x1b[2J\x1b[H\r\n\r\n"@
            + "  \x1b[2m"@ + if one_button {
            "enter  dismiss"@
        } else {
            "y accept   n decline   esc cancel"@
        } + "\x1b[0m\r\n"@,
{
    reveal_strlit("");
    assert(""@ =~= Seq::<char>::empty());
    reveal_strlit("\r\n");
    reveal_strlit("  \x1b[2m");
    reveal_strlit("\r\n  \x1b[2m");
    reveal_strlit("\x1b[2J\x1b[H\r\n");
    reveal_strlit("\x1b[2J\x1b[H\r\n\r\n");
    let head = "\x1b[2J\x1b[H\r\n"@;
    assert("\r\n  \x1b[2m"@ =~= "\r\n"@ + "  \x1b[2m"@);
    if st.desc is Some {
        lemma_block(st.desc, cols, ""@, "\r\n"@);
        let p = passage(st.desc->0, cols, ""@, "\r\n"@);
        assert(head + p + "\r\n  \x1b[2m"@ =~= head + (p + "\r\n"@) + "  \x1b[2m"@);
    } else {
        assert(head + Seq::<char>::empty() + "\r\n  \x1b[2m"@ =~= "\x1b[2J\x1b[H\r\n\r\n"@
            + "  \x1b[2m"@);
    }
}

/// A wait is as long as the time left, in whole milliseconds, as far as it can be said.
pub proof fn law_a_wait_is_as_long_as_the_time_left(secs: nat, nanos: nat)
    requires
        nanos < 1_000_000_000,
    ensures
        ({
            let left = secs * 1_000_000_000 + nanos;
            let ms = millis(secs, nanos);
            &&& 0 <= ms <= i32::MAX
            &&& ms * 1_000_000 <= left
            &&& ms < i32::MAX ==> left < (ms + 1) * 1_000_000
        }),
{
}

} // verus!
