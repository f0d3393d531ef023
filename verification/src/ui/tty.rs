//! The terminal front-end: what it draws, and what it makes of what is typed.
//!
//! Drawn on the device gpg-agent named in `OPTION ttyname`, opened directly — never on
//! stdin or stdout, which belong to the protocol. Nothing here touches that device. A prompt
//! is told what happened on it, and says what is to be done there next.

use vstd::prelude::*;
use vstd::utf8::encode_utf8;

use crate::assuan::{law_secret_arrives_whole, payloads, secret_lines, unescaped};
use crate::secret::{char_count, clipped, law_counts_characters, without_last_char, Secret};
use crate::server::{State, StateView, PASSPHRASE_CAPACITY};
use crate::text::{
    decimal, decimal_of, find, is_word, lemma_find, lemma_paragraphs_join, lemma_runs,
    lemma_words_are_words, lemma_words_join, lemma_words_of_word, opt, opt_str, paragraphs,
    split_paragraphs, split_words, views, words,
};
use crate::ui::entry::{
    after_accept, after_backspace, after_byte, after_clear, law_room_for_every_character, typed_all,
    Entry, Fields, Held,
};
use crate::ui::Outcome;
use crate::unicode::{lemma_encode_last, lemma_one_char};

verus! {

/// How words fall into lines, where `cur` is the line they are added to: a word that does not
/// fit starts the next line, and no word is cut.
pub open spec fn filled(ws: Seq<Seq<char>>, cur: Seq<char>, width: nat) -> Seq<Seq<char>>
    decreases ws.len(),
{
    if ws.len() == 0 {
        seq![cur]
    } else if cur.len() == 0 {
        filled(ws.drop_first(), ws[0], width)
    } else if cur.len() + 1 + ws[0].len() > width {
        seq![cur] + filled(ws.drop_first(), ws[0], width)
    } else {
        filled(ws.drop_first(), cur + seq![' '] + ws[0], width)
    }
}

/// The width lines are folded to: never less than 8.
pub open spec fn fold_width(width: nat) -> nat {
    if width < 8 {
        8
    } else {
        width
    }
}

/// The lines of each paragraph, one paragraph after the other.
pub open spec fn folded(ps: Seq<Seq<char>>, width: nat) -> Seq<Seq<char>>
    decreases ps.len(),
{
    if ps.len() == 0 {
        seq![]
    } else {
        filled(words(ps[0]), Seq::empty(), fold_width(width)) + folded(ps.drop_first(), width)
    }
}

/// How a text falls into lines.
pub open spec fn wrapped(s: Seq<char>, width: nat) -> Seq<Seq<char>> {
    folded(paragraphs(s), width)
}

/// Adds the lines of one paragraph.
fn fill(out: &mut Vec<String>, para: &str, width: usize)
    ensures
        views(final(out)@) == views(old(out)@) + filled(words(para@), Seq::empty(), width as nat),
{
    let ws = split_words(para);
    let mut cur = String::new();
    let mut i: usize = 0;
    let ghost start = views(out@);
    let ghost all = filled(words(para@), Seq::empty(), width as nat);
    assert(views(ws@).skip(0) =~= words(para@));
    while i < ws.len()
        invariant
            views(ws@) == words(para@),
            i <= ws@.len(),
            start + all == views(out@) + filled(views(ws@).skip(i as int), cur@, width as nat),
        decreases ws@.len() - i,
    {
        let ghost rest = views(ws@).skip(i as int);
        let ghost done = views(out@);
        let word = ws[i].as_str();
        assert(rest[0] == word@);
        assert(rest.drop_first() =~= views(ws@).skip(i + 1));
        let n = cur.as_str().unicode_len();
        let k = word.unicode_len();
        let ghost line = cur@;
        if n > 0 && (n >= width || k > width - n - 1) {
            let ghost before = out@;
            out.push(cur);
            assert(views(out@) =~= views(before).push(line));
            cur = String::new();
            assert(cur@ + word@ =~= word@);
            cur.append(word);
            assert(views(out@) + filled(rest.drop_first(), word@, width as nat) =~= done + filled(
                rest,
                line,
                width as nat,
            ));
        } else {
            if n > 0 {
                cur.append(" ");
                proof {
                    reveal_strlit(" ");
                    assert(cur@ =~= line + seq![' ']);
                }
            }
            let ghost pre = cur@;
            cur.append(word);
            assert(n == 0 ==> cur@ =~= word@);
        }
        i += 1;
    }
    let ghost before = out@;
    let ghost line = cur@;
    out.push(cur);
    assert(views(out@) =~= views(before) + seq![line]);
}

/// Breaks text at character boundaries so a wrapped Cyrillic line does not lose half a
/// letter to the fold.
pub fn wrap(s: &str, width: usize) -> (out: Vec<String>)
    ensures
        views(out@) == wrapped(s@, width as nat),
{
    let w: usize = if width < 8 {
        8
    } else {
        width
    };
    let ps = split_paragraphs(s);
    let mut out: Vec<String> = Vec::new();
    let mut i: usize = 0;
    assert(views(ps@).skip(0) =~= paragraphs(s@));
    assert(views(out@) + wrapped(s@, width as nat) =~= wrapped(s@, width as nat));
    while i < ps.len()
        invariant
            views(ps@) == paragraphs(s@),
            w == fold_width(width as nat),
            i <= ps@.len(),
            wrapped(s@, width as nat) == views(out@) + folded(
                views(ps@).skip(i as int),
                width as nat,
            ),
        decreases ps@.len() - i,
    {
        let ghost rest = views(ps@).skip(i as int);
        let ghost done = views(out@);
        assert(rest[0] == ps@[i as int]@);
        assert(rest.drop_first() =~= views(ps@).skip(i + 1));
        fill(&mut out, ps[i].as_str(), w);
        assert(views(out@) + folded(rest.drop_first(), width as nat) =~= done + folded(
            rest,
            width as nat,
        ));
        i += 1;
    }
    assert(views(out@) + folded(views(ps@).skip(i as int), width as nat) =~= views(out@));
    out
}

/// The words of several lines, one line after the other.
pub open spec fn words_of(lines: Seq<Seq<char>>) -> Seq<Seq<char>>
    decreases lines.len(),
{
    if lines.len() == 0 {
        seq![]
    } else {
        words(lines[0]) + words_of(lines.drop_first())
    }
}

proof fn lemma_words_of_join(a: Seq<Seq<char>>, b: Seq<Seq<char>>)
    ensures
        words_of(a + b) == words_of(a) + words_of(b),
    decreases a.len(),
{
    if a.len() == 0 {
        assert(a + b =~= b);
        assert(words_of(a) + words_of(b) =~= words_of(b));
    } else {
        lemma_words_of_join(a.drop_first(), b);
        assert((a + b).drop_first() =~= a.drop_first() + b);
        assert(words_of(a + b) =~= words_of(a) + words_of(b));
    }
}

proof fn lemma_filled(ws: Seq<Seq<char>>, cur: Seq<char>, width: nat)
    requires
        forall|i: int| 0 <= i < ws.len() ==> is_word(#[trigger] ws[i]),
        cur.len() <= width || is_word(cur),
    ensures
        words_of(filled(ws, cur, width)) == words(cur) + ws,
        forall|i: int|
            0 <= i < filled(ws, cur, width).len() ==> (#[trigger] filled(ws, cur, width)[i]).len()
                <= width || is_word(filled(ws, cur, width)[i]),
    decreases ws.len(),
{
    let lines = filled(ws, cur, width);
    if ws.len() == 0 {
        assert(lines.drop_first() =~= seq![]);
        assert(words_of(lines.drop_first()) =~= seq![]);
        assert(words_of(lines) =~= words(cur) + ws);
    } else {
        let w = ws[0];
        let rest = ws.drop_first();
        assert(is_word(w));
        assert forall|i: int| 0 <= i < rest.len() implies is_word(#[trigger] rest[i]) by {
            assert(rest[i] == ws[i + 1]);
        }
        lemma_words_of_word(w);
        if cur.len() == 0 {
            lemma_filled(rest, w, width);
            lemma_runs(cur);
            assert(words(cur) =~= seq![]);
            assert(words(cur) + ws =~= seq![w] + rest);
        } else if cur.len() + 1 + w.len() > width {
            lemma_filled(rest, w, width);
            assert(lines.drop_first() =~= filled(rest, w, width));
            assert(seq![w] + rest =~= ws);
            assert forall|i: int| 0 <= i < lines.len() implies (#[trigger] lines[i]).len() <= width
                || is_word(lines[i]) by {
                if i > 0 {
                    assert(lines[i] == filled(rest, w, width)[i - 1]);
                }
            }
        } else {
            let next = cur + seq![' '] + w;
            lemma_words_join(cur, ' ', w);
            lemma_filled(rest, next, width);
            assert(words(next) + rest =~= words(cur) + ws);
        }
    }
}

/// Folding loses nothing: the lines hold the words of the text, all of them, whole and in
/// order.
pub proof fn law_wrapping_keeps_every_word(s: Seq<char>, width: nat)
    ensures
        words_of(wrapped(s, width)) == words(s),
    decreases s.len(),
{
    lemma_find(s, '\n');
    let n = find(s, '\n');
    let ps = paragraphs(s);
    let w = fold_width(width);
    lemma_words_are_words(ps[0]);
    lemma_filled(words(ps[0]), Seq::empty(), w);
    lemma_runs(Seq::<char>::empty());
    assert(words(Seq::<char>::empty()) =~= seq![]);
    assert(words(Seq::<char>::empty()) + words(ps[0]) =~= words(ps[0]));
    let head = filled(words(ps[0]), Seq::empty(), w);
    lemma_words_of_join(head, folded(ps.drop_first(), width));
    if n < s.len() {
        let a = s.take(n);
        let b = s.skip(n + 1);
        assert(ps.drop_first() =~= paragraphs(b));
        law_wrapping_keeps_every_word(b, width);
        lemma_words_join(a, '\n', b);
        assert(a + seq!['\n'] + b =~= s);
    } else {
        assert(ps.drop_first() =~= seq![]);
        assert(words_of(folded(ps.drop_first(), width)) =~= seq![]);
        assert(words_of(head) + words_of(folded(ps.drop_first(), width)) =~= words_of(head));
    }
}

/// No line is longer than the width, but for a single word that is.
pub proof fn law_wrapped_lines_fit(s: Seq<char>, width: nat, i: int)
    requires
        0 <= i < wrapped(s, width).len(),
    ensures
        wrapped(s, width)[i].len() <= fold_width(width) || is_word(wrapped(s, width)[i]),
{
    lemma_folded_fits(paragraphs(s), width, i);
}

proof fn lemma_folded_fits(ps: Seq<Seq<char>>, width: nat, i: int)
    requires
        0 <= i < folded(ps, width).len(),
    ensures
        folded(ps, width)[i].len() <= fold_width(width) || is_word(folded(ps, width)[i]),
    decreases ps.len(),
{
    if ps.len() > 0 {
        let head = filled(words(ps[0]), Seq::empty(), fold_width(width));
        lemma_words_are_words(ps[0]);
        lemma_filled(words(ps[0]), Seq::empty(), fold_width(width));
        if i < head.len() {
            assert(folded(ps, width)[i] == head[i]);
        } else {
            assert(folded(ps, width)[i] == folded(ps.drop_first(), width)[i - head.len()]);
            lemma_folded_fits(ps.drop_first(), width, i - head.len());
        }
    }
}

/// An explicit line break stays one: what stands before it and what stands after it are
/// folded each on its own.
pub proof fn law_explicit_breaks_are_kept(a: Seq<char>, b: Seq<char>, width: nat)
    ensures
        wrapped(a + seq!['\n'] + b, width) == wrapped(a, width) + wrapped(b, width),
{
    lemma_paragraphs_join(a, b);
    lemma_folded_join(paragraphs(a), paragraphs(b), width);
}

proof fn lemma_folded_join(a: Seq<Seq<char>>, b: Seq<Seq<char>>, width: nat)
    ensures
        folded(a + b, width) == folded(a, width) + folded(b, width),
    decreases a.len(),
{
    if a.len() == 0 {
        assert(a + b =~= b);
        assert(folded(a, width) + folded(b, width) =~= folded(b, width));
    } else {
        lemma_folded_join(a.drop_first(), b, width);
        assert((a + b).drop_first() =~= a.drop_first() + b);
        assert(folded(a + b, width) =~= folded(a, width) + folded(b, width));
    }
}

/// The columns a prompt is laid out in: at least 20 and at most 100.
pub open spec fn columns(cols: nat) -> nat {
    if cols < 20 {
        20
    } else if cols > 100 {
        100
    } else {
        cols
    }
}

/// The width of a terminal, from whether it answered and the number of columns it gave. A
/// terminal that will not say how wide it is gets the width every terminal has.
pub fn window_width(answered: bool, cols: u16) -> (w: usize)
    ensures
        w == if answered && cols > 0 {
            cols as int
        } else {
            80
        },
{
    if answered && cols > 0 {
        cols as usize
    } else {
        80
    }
}

/// Lines as they are written: indented by two, each between `start` and `end`.
pub open spec fn written(lines: Seq<Seq<char>>, start: Seq<char>, end: Seq<char>) -> Seq<char>
    decreases lines.len(),
{
    if lines.len() == 0 {
        seq![]
    } else {
        "  "@ + start + lines[0] + end + written(lines.drop_first(), start, end)
    }
}

/// A text on the screen, folded to the width that the indent leaves.
pub open spec fn passage(s: Seq<char>, cols: nat, start: Seq<char>, end: Seq<char>) -> Seq<char> {
    written(wrapped(s, (columns(cols) - 4) as nat), start, end)
}

/// Adds a text to the screen.
fn add_passage(out: &mut String, s: &str, cols: usize, start: &str, end: &str)
    ensures
        final(out)@ == old(out)@ + passage(s@, cols as nat, start@, end@),
{
    let w: usize = if cols < 20 {
        20
    } else if cols > 100 {
        100
    } else {
        cols
    };
    let lines = wrap(s, w - 4);
    let ghost all = views(lines@);
    let ghost before = out@;
    let mut i: usize = 0;
    assert(all.skip(0) =~= all);
    while i < lines.len()
        invariant
            i <= lines@.len(),
            all == views(lines@),
            before + written(all, start@, end@) == out@ + written(
                all.skip(i as int),
                start@,
                end@,
            ),
        decreases lines@.len() - i,
    {
        let ghost rest = all.skip(i as int);
        let ghost so_far = out@;
        assert(rest.drop_first() =~= all.skip(i + 1));
        assert(rest[0] == lines@[i as int]@);
        out.append("  ");
        out.append(start);
        out.append(lines[i].as_str());
        out.append(end);
        assert(so_far + written(rest, start@, end@) =~= out@ + written(
            rest.drop_first(),
            start@,
            end@,
        ));
        i += 1;
    }
    assert(out@ + written(all.skip(i as int), start@, end@) =~= out@);
}

/// The marks of the mask: one for each character, and no more than 80, so that a long
/// passphrase does not run onto the line below.
pub open spec fn marks(entered: nat) -> Seq<char> {
    Seq::new(
        if entered < 80 {
            entered
        } else {
            80
        },
        |i: int| '\u{2022}',
    )
}

/// The mask of a field that holds `entered` characters.
pub fn mask(entered: usize) -> (out: String)
    ensures
        out@ == marks(entered as nat),
{
    let n: usize = if entered < 80 {
        entered
    } else {
        80
    };
    let mut out = String::new();
    let mut i: usize = 0;
    while i < n
        invariant
            i <= n,
            out@ == Seq::new(i as nat, |k: int| '\u{2022}'),
        decreases n - i,
    {
        let ghost before = out@;
        out.push('\u{2022}');
        i += 1;
        assert(out@ =~= Seq::new(i as nat, |k: int| '\u{2022}'));
    }
    out
}

/// What the field is called: the label the agent set, or a plain one.
pub open spec fn field_label(st: StateView, repeating: bool) -> Seq<char> {
    if repeating {
        match st.repeat {
            Some(s) => s,
            None => "Repeat:"@,
        }
    } else {
        match st.prompt {
            Some(s) => s,
            None => "Passphrase:"@,
        }
    }
}

/// What the field is called.
pub fn label<'a>(st: &'a State, repeating: bool) -> (r: &'a str)
    ensures
        r@ == field_label(st@, repeating),
{
    let (set, plain): (&'a Option<String>, &'static str) = if repeating {
        (&st.repeat, "Repeat:")
    } else {
        (&st.prompt, "Passphrase:")
    };
    match set {
        Some(s) => s.as_str(),
        None => plain,
    }
}

/// A paragraph of the prompt and the blank line below it, where there is anything to say.
pub open spec fn section(
    s: Option<Seq<char>>,
    cols: nat,
    start: Seq<char>,
    end: Seq<char>,
) -> Seq<char> {
    match s {
        Some(s) => passage(s, cols, start, end) + "\r\n"@,
        None => seq![],
    }
}

/// The screen of a passphrase prompt.
///
/// All it says of the passphrase is how many characters it has. That number is the whole
/// point: a mask that counts bytes shows two marks for one Cyrillic keypress, and a
/// passphrase typed in the wrong keyboard layout then looks exactly like a right one.
pub open spec fn pin_screen(
    st: StateView,
    cols: nat,
    entered: nat,
    repeating: bool,
    note: Option<Seq<char>>,
) -> Seq<char> {
    "\x1b[2J\x1b[H\r\n"@ + section(st.title, cols, ""@, "\r\n"@) + section(
        st.desc,
        cols,
        ""@,
        "\r\n"@,
    ) + section(st.error, cols, "\x1b[31m"@, "\x1b[0m\r\n"@) + section(
        note,
        cols,
        "\x1b[33m"@,
        "\x1b[0m\r\n"@,
    ) + "  "@ + field_label(st, repeating) + " "@ + marks(entered) + "  \x1b[2m("@ + decimal(
        entered,
    ) + " characters)\x1b[0m\r\n\r\n"@
        + "  \x1b[2menter accept   esc cancel   ctrl-u clear\x1b[0m\r\n"@
}

/// Adds a paragraph and the blank line below it, where there is anything to say.
fn add_section(out: &mut String, s: Option<&str>, cols: usize, start: &str, end: &str)
    ensures
        final(out)@ == old(out)@ + section(opt_str(s), cols as nat, start@, end@),
{
    let ghost before = out@;
    match s {
        Some(s) => {
            add_passage(out, s, cols, start, end);
            out.append("\r\n");
            assert(out@ =~= before + (passage(s@, cols as nat, start@, end@) + "\r\n"@));
        },
        None => {
            assert(before + Seq::<char>::empty() =~= before);
        },
    }
}

/// An optional string, borrowed.
fn borrowed(s: &Option<String>) -> (r: Option<&str>)
    ensures
        opt_str(r) == opt(*s),
{
    match s {
        Some(s) => Some(s.as_str()),
        None => None,
    }
}

/// The screen of a passphrase prompt, as it is written to the terminal.
pub fn draw(st: &State, cols: usize, entered: usize, repeat: bool, note: Option<&str>) -> (out:
    String)
    ensures
        out@ == pin_screen(st@, cols as nat, entered as nat, repeat, opt_str(note)),
{
    let mut out = "\x1b[2J\x1b[H\r\n".to_string();
    add_section(&mut out, borrowed(&st.title), cols, "", "\r\n");
    add_section(&mut out, borrowed(&st.desc), cols, "", "\r\n");
    // Error and note wrap like everything else. Left raw, a long SETERROR folded wherever
    // the terminal chose and lost the indent the rest of the prompt keeps.
    add_section(&mut out, borrowed(&st.error), cols, "\x1b[31m", "\x1b[0m\r\n");
    add_section(&mut out, note, cols, "\x1b[33m", "\x1b[0m\r\n");
    out.append("  ");
    out.append(label(st, repeat));
    out.append(" ");
    out.append(mask(entered).as_str());
    out.append("  \x1b[2m(");
    out.append(decimal_of(entered as u64).as_str());
    out.append(" characters)\x1b[0m\r\n\r\n");
    out.append("  \x1b[2menter accept   esc cancel   ctrl-u clear\x1b[0m\r\n");
    out
}

/// The screen of a confirmation or a message.
pub open spec fn confirm_screen(st: StateView, cols: nat, one_button: bool) -> Seq<char> {
    "\x1b[2J\x1b[H\r\n"@ + (match st.desc {
        Some(s) => passage(s, cols, ""@, "\r\n"@),
        None => seq![],
    }) + "\r\n  \x1b[2m"@ + (if one_button {
        "enter  dismiss"@
    } else {
        "y accept   n decline   esc cancel"@
    }) + "\x1b[0m\r\n"@
}

/// The screen of a confirmation or a message, as it is written to the terminal.
pub fn draw_confirm(st: &State, cols: usize, one_button: bool) -> (out: String)
    ensures
        out@ == confirm_screen(st@, cols as nat, one_button),
{
    let mut out = "\x1b[2J\x1b[H\r\n".to_string();
    let ghost before = out@;
    match &st.desc {
        Some(d) => add_passage(&mut out, d.as_str(), cols, "", "\r\n"),
        None => {},
    }
    assert(out@ =~= before + (match st@.desc {
        Some(s) => passage(s, cols as nat, ""@, "\r\n"@),
        None => seq![],
    }));
    out.append("\r\n  \x1b[2m");
    if one_button {
        out.append("enter  dismiss");
    } else {
        out.append("y accept   n decline   esc cancel");
    }
    out.append("\x1b[0m\r\n");
    out
}

/// What became of a call that may be interrupted.
#[derive(Debug, Clone, Copy, PartialEq, Eq, Structural)]
pub enum Call {
    /// A signal came in between: the call is made again.
    Again,
    /// It failed.
    Failed,
    /// It gave this number.
    Done(usize),
}

/// Reads the result of a system call that gives a negative number when it fails.
pub fn called(n: isize, interrupted: bool) -> (c: Call)
    ensures
        c == if n >= 0 {
            Call::Done(n as usize)
        } else if interrupted {
            Call::Again
        } else {
            Call::Failed
        },
{
    if n >= 0 {
        Call::Done(n as usize)
    } else if interrupted {
        Call::Again
    } else {
        Call::Failed
    }
}

/// The milliseconds in a duration, but no more than an `i32` can say.
pub open spec fn millis(secs: nat, nanos: nat) -> int {
    let ms = secs * 1000 + nanos / 1_000_000;
    if ms < i32::MAX {
        ms as int
    } else {
        i32::MAX as int
    }
}

/// How long the next poll may wait, in milliseconds, from the time left as seconds and
/// nanoseconds: without end where there is no deadline, and `None` once it has passed.
///
/// Asked each time a poll is started rather than once: an interrupted poll is started again,
/// and handing it the full interval would let a stream of signals push the deadline out
/// indefinitely.
pub fn poll_timeout(left: Option<(u64, u32)>) -> (r: Option<i32>)
    ensures
        r == match left {
            None => Some(-1i32),
            Some((secs, nanos)) => if secs == 0 && nanos == 0 {
                None
            } else {
                Some(millis(secs as nat, nanos as nat) as i32)
            },
        },
{
    match left {
        None => Some(-1),
        Some((secs, nanos)) => {
            if secs == 0 && nanos == 0 {
                return None;
            }
            let ms: u128 = secs as u128 * 1000 + (nanos / 1_000_000) as u128;
            if ms < 2_147_483_647 {
                Some(ms as i32)
            } else {
                Some(i32::MAX)
            }
        },
    }
}

/// What happened on the terminal.
#[derive(Debug, Clone, Copy, PartialEq, Eq, Structural)]
pub enum Event {
    /// A byte was typed.
    Key(u8),
    /// The terminal went away.
    Closed,
    /// The deadline passed.
    TimedOut,
    /// Whether more input is already waiting.
    More(bool),
    /// A byte was read and dropped.
    Discarded,
}

/// What is to be done on the terminal next.
#[derive(Debug, Clone, Copy, PartialEq, Eq, Structural)]
pub enum Action {
    /// Draw the screen and wait for a byte, up to the deadline.
    Ask,
    /// See whether more input is already waiting.
    Probe,
    /// Read a byte and drop it.
    Discard,
    /// Put the terminal back and report.
    Finish(Outcome),
}

/// Where a prompt stands.
#[derive(Debug, Clone, Copy, PartialEq, Eq, Structural)]
pub enum Stage {
    /// A byte is awaited.
    Asking,
    /// An Escape came in, and what it means is not known yet.
    Escape,
    /// It began an escape sequence, which is being swallowed.
    Draining,
    /// A byte of the sequence is being dropped.
    Dropping,
}

/// What a stage waits for.
pub open spec fn awaited(stage: Stage) -> Action {
    match stage {
        Stage::Asking => Action::Ask,
        Stage::Escape => Action::Probe,
        Stage::Draining => Action::Probe,
        Stage::Dropping => Action::Discard,
    }
}

/// What a stage waits for.
fn action_at(stage: Stage) -> (a: Action)
    ensures
        a == awaited(stage),
{
    match stage {
        Stage::Asking => Action::Ask,
        Stage::Escape => Action::Probe,
        Stage::Draining => Action::Probe,
        Stage::Dropping => Action::Discard,
    }
}

/// The stage after an event while an escape sequence is told from a bare Escape and
/// swallowed. An event that answers nothing that was asked changes nothing.
pub open spec fn swallowing(stage: Stage, event: Event) -> Stage {
    match (stage, event) {
        (Stage::Escape, Event::More(true)) => Stage::Draining,
        (Stage::Draining, Event::More(true)) => Stage::Dropping,
        (Stage::Draining, Event::More(false)) => Stage::Asking,
        (Stage::Dropping, Event::Discarded) => Stage::Draining,
        _ => stage,
    }
}

/// The stage after an event that is part of an escape sequence.
fn swallow(stage: Stage, event: Event) -> (r: Stage)
    ensures
        r == swallowing(stage, event),
{
    match (stage, event) {
        (Stage::Escape, Event::More(true)) => Stage::Draining,
        (Stage::Draining, Event::More(true)) => Stage::Dropping,
        (Stage::Draining, Event::More(false)) => Stage::Asking,
        (Stage::Dropping, Event::Discarded) => Stage::Draining,
        _ => stage,
    }
}

/// What a typed byte means in a passphrase field.
#[derive(Debug, Clone, Copy, PartialEq, Eq, Structural)]
pub enum PinKey {
    Enter,
    /// Ctrl-C, which arrives as a byte rather than as a signal.
    Interrupt,
    Escape,
    Erase,
    /// Ctrl-U.
    Clear,
    /// Another control character. It carries no meaning in a passphrase field and would
    /// otherwise be stored invisibly.
    Ignored,
    Text,
}

/// What a typed byte means in a passphrase field.
pub open spec fn pin_key(b: u8) -> PinKey {
    if b == 0x0d || b == 0x0a {
        PinKey::Enter
    } else if b == 0x03 {
        PinKey::Interrupt
    } else if b == 0x1b {
        PinKey::Escape
    } else if b == 0x7f || b == 0x08 {
        PinKey::Erase
    } else if b == 0x15 {
        PinKey::Clear
    } else if b < 0x20 {
        PinKey::Ignored
    } else {
        PinKey::Text
    }
}

/// What a typed byte means in a passphrase field.
fn pin_key_of(b: u8) -> (k: PinKey)
    ensures
        k == pin_key(b),
{
    if b == 0x0d || b == 0x0a {
        PinKey::Enter
    } else if b == 0x03 {
        PinKey::Interrupt
    } else if b == 0x1b {
        PinKey::Escape
    } else if b == 0x7f || b == 0x08 {
        PinKey::Erase
    } else if b == 0x15 {
        PinKey::Clear
    } else if b < 0x20 {
        PinKey::Ignored
    } else {
        PinKey::Text
    }
}

/// A passphrase prompt after an event: where it stands, what has been typed, and how it ended
/// if it did.
pub open spec fn pin_step(
    stage: Stage,
    f: Fields,
    repeat_error: Option<Seq<char>>,
    event: Event,
) -> (Stage, Fields, Option<Outcome>) {
    match (stage, event) {
        (Stage::Asking, Event::Key(b)) => match pin_key(b) {
            PinKey::Enter => {
                let (g, over) = after_accept(f, repeat_error);
                (
                    Stage::Asking,
                    g,
                    if over {
                        Some(Outcome::Accepted)
                    } else {
                        None
                    },
                )
            },
            PinKey::Interrupt => (Stage::Asking, f, Some(Outcome::Cancelled)),
            PinKey::Escape => (Stage::Escape, f, None),
            PinKey::Erase => (Stage::Asking, after_backspace(f), None),
            PinKey::Clear => (Stage::Asking, after_clear(f), None),
            PinKey::Ignored => (Stage::Asking, f, None),
            PinKey::Text => (Stage::Asking, after_byte(f, b), None),
        },
        (Stage::Asking, Event::Closed) => (Stage::Asking, f, Some(Outcome::Cancelled)),
        (Stage::Asking, Event::TimedOut) => (Stage::Asking, f, Some(Outcome::Cancelled)),
        (Stage::Escape, Event::More(false)) => (Stage::Asking, f, Some(Outcome::Cancelled)),
        _ => (swallowing(stage, event), f, None),
    }
}

/// What follows from a step.
pub open spec fn next_action(stage: Stage, outcome: Option<Outcome>) -> Action {
    match outcome {
        Some(o) => Action::Finish(o),
        None => awaited(stage),
    }
}

/// A passphrase prompt on a terminal.
pub struct PinPrompt<'a> {
    entry: Entry<'a>,
    stage: Stage,
}

impl<'a> PinPrompt<'a> {
    /// Where the prompt stands.
    pub closed spec fn at(&self) -> Stage {
        self.stage
    }

    /// What has been typed.
    pub closed spec fn typing(&self) -> Entry<'a> {
        self.entry
    }

    /// What has been typed, the passphrase being in `into`.
    pub open spec fn fields(&self, into: &Secret) -> Fields {
        self.typing().fields(into)
    }

    /// What holds of every prompt.
    pub open spec fn wf(&self) -> bool {
        self.typing().wf()
    }

    /// A prompt with nothing typed. `confirm` is the buffer of the repetition, where one is
    /// asked for.
    pub fn new(confirm: Option<Secret<'a>>) -> (p: Self)
        requires
            confirm matches Some(c) ==> c.wf(),
        ensures
            p.wf(),
            p.at() == Stage::Asking,
            p.typing().again() == confirm,
            !p.typing().repeating(),
            p.typing().remark() is None,
            !p.typing().refusing(),
    {
        PinPrompt { entry: Entry::new(confirm), stage: Stage::Asking }
    }

    /// What is to be done next.
    pub fn action(&self) -> (a: Action)
        ensures
            a == awaited(self.at()),
    {
        action_at(self.stage)
    }

    /// The screen as it stands, for a terminal `cols` wide.
    pub fn screen(&self, st: &State, into: &Secret, cols: usize) -> (out: String)
        requires
            self.wf(),
            into.wf(),
        ensures
            out@ == pin_screen(
                st@,
                cols as nat,
                char_count(self.fields(into).target().bytes),
                self.fields(into).on_repeat,
                self.fields(into).note,
            ),
    {
        draw(
            st,
            cols,
            self.entry.entered(into),
            self.entry.is_repeating(),
            self.entry.note(),
        )
    }

    /// Takes what happened on the terminal and says what is to be done there next.
    pub fn step(&mut self, st: &State, into: &mut Secret, event: Event) -> (a: Action)
        requires
            old(self).wf(),
            old(into).wf(),
        ensures
            final(self).wf(),
            final(into).wf(),
            ({
                let (stage, f, outcome) = pin_step(
                    old(self).at(),
                    old(self).fields(old(into)),
                    st@.repeat_error,
                    event,
                );
                &&& final(self).at() == stage
                &&& final(self).fields(final(into)) == f
                &&& a == next_action(stage, outcome)
            }),
    {
        match (self.stage, event) {
            (Stage::Asking, Event::Key(b)) => match pin_key_of(b) {
                PinKey::Enter => {
                    if self.entry.accept(into, &st.repeat_error) {
                        return Action::Finish(Outcome::Accepted);
                    }
                },
                PinKey::Interrupt => {
                    return Action::Finish(Outcome::Cancelled);
                },
                // What an Escape means shows in what follows: a cursor key begins with the
                // same byte, and is no refusal.
                PinKey::Escape => {
                    self.stage = Stage::Escape;
                },
                PinKey::Erase => self.entry.backspace(into),
                PinKey::Clear => self.entry.clear_entry(into),
                PinKey::Ignored => {},
                PinKey::Text => self.entry.push_byte(into, b),
            },
            (Stage::Asking, Event::Closed) => {
                return Action::Finish(Outcome::Cancelled);
            },
            (Stage::Asking, Event::TimedOut) => {
                return Action::Finish(Outcome::Cancelled);
            },
            (Stage::Escape, Event::More(false)) => {
                self.stage = Stage::Asking;
                return Action::Finish(Outcome::Cancelled);
            },
            _ => {
                self.stage = swallow(self.stage, event);
            },
        }
        action_at(self.stage)
    }
}

/// How a typed byte other than Escape answers a confirmation, if it does.
///
/// With one button only a deliberate keystroke dismisses: taking any byte would let the first
/// byte of an arrow key close the message before it had been read.
pub open spec fn confirm_key(one_button: bool, b: u8) -> Option<Outcome> {
    if one_button {
        if b == 0x0d || b == 0x0a || b == 0x20 {
            Some(Outcome::Accepted)
        } else {
            None
        }
    } else if b == 0x79 || b == 0x59 || b == 0x0d || b == 0x0a {
        Some(Outcome::Accepted)
    } else if b == 0x6e || b == 0x4e {
        Some(Outcome::NotOk)
    } else if b == 0x03 {
        Some(Outcome::Cancelled)
    } else {
        None
    }
}

/// How a bare Escape answers a confirmation: it refuses, or, where there is nothing to
/// refuse, dismisses.
pub open spec fn bare_escape(one_button: bool) -> Outcome {
    if one_button {
        Outcome::Accepted
    } else {
        Outcome::Cancelled
    }
}

/// A confirmation after an event: where it stands, and how it ended if it did.
pub open spec fn confirm_step(stage: Stage, one_button: bool, event: Event) -> (
    Stage,
    Option<Outcome>,
) {
    match (stage, event) {
        (Stage::Asking, Event::Key(b)) => if b == 0x1b {
            (Stage::Escape, None)
        } else {
            (Stage::Asking, confirm_key(one_button, b))
        },
        (Stage::Asking, Event::Closed) => (Stage::Asking, Some(Outcome::Cancelled)),
        (Stage::Asking, Event::TimedOut) => (Stage::Asking, Some(Outcome::Cancelled)),
        (Stage::Escape, Event::More(false)) => (Stage::Asking, Some(bare_escape(one_button))),
        _ => (swallowing(stage, event), None),
    }
}

/// How a typed byte other than Escape answers a confirmation.
fn confirm_key_of(one_button: bool, b: u8) -> (r: Option<Outcome>)
    ensures
        r == confirm_key(one_button, b),
{
    if one_button {
        if b == 0x0d || b == 0x0a || b == 0x20 {
            Some(Outcome::Accepted)
        } else {
            None
        }
    } else if b == 0x79 || b == 0x59 || b == 0x0d || b == 0x0a {
        Some(Outcome::Accepted)
    } else if b == 0x6e || b == 0x4e {
        Some(Outcome::NotOk)
    } else if b == 0x03 {
        Some(Outcome::Cancelled)
    } else {
        None
    }
}

/// A confirmation or a message on a terminal.
pub struct ConfirmPrompt {
    one_button: bool,
    stage: Stage,
}

impl ConfirmPrompt {
    /// Where the prompt stands.
    pub closed spec fn at(&self) -> Stage {
        self.stage
    }

    /// Whether there is nothing to decide.
    pub closed spec fn single(&self) -> bool {
        self.one_button
    }

    /// A confirmation; with one button, a message.
    pub fn new(one_button: bool) -> (p: Self)
        ensures
            p.at() == Stage::Asking,
            p.single() == one_button,
    {
        ConfirmPrompt { one_button, stage: Stage::Asking }
    }

    /// What is to be done next.
    pub fn action(&self) -> (a: Action)
        ensures
            a == awaited(self.at()),
    {
        action_at(self.stage)
    }

    /// The screen, for a terminal `cols` wide.
    pub fn screen(&self, st: &State, cols: usize) -> (out: String)
        ensures
            out@ == confirm_screen(st@, cols as nat, self.single()),
    {
        draw_confirm(st, cols, self.one_button)
    }

    /// Takes what happened on the terminal and says what is to be done there next.
    pub fn step(&mut self, event: Event) -> (a: Action)
        ensures
            final(self).single() == old(self).single(),
            ({
                let (stage, outcome) = confirm_step(old(self).at(), old(self).single(), event);
                &&& final(self).at() == stage
                &&& a == next_action(stage, outcome)
            }),
    {
        match (self.stage, event) {
            (Stage::Asking, Event::Key(b)) => {
                // Escape needs the same care here as in a passphrase prompt: dismissing
                // "Really delete this key?" because somebody nudged Left is the same
                // disaster.
                if b == 0x1b {
                    self.stage = Stage::Escape;
                } else {
                    match confirm_key_of(self.one_button, b) {
                        Some(o) => {
                            return Action::Finish(o);
                        },
                        None => {},
                    }
                }
            },
            (Stage::Asking, Event::Closed) => {
                return Action::Finish(Outcome::Cancelled);
            },
            (Stage::Asking, Event::TimedOut) => {
                return Action::Finish(Outcome::Cancelled);
            },
            (Stage::Escape, Event::More(false)) => {
                self.stage = Stage::Asking;
                return Action::Finish(
                    if self.one_button {
                        Outcome::Accepted
                    } else {
                        Outcome::Cancelled
                    },
                );
            },
            _ => {
                self.stage = swallow(self.stage, event);
            },
        }
        action_at(self.stage)
    }
}

/// A passphrase prompt after several events; it takes no more once it is over.
pub open spec fn pin_run(
    stage: Stage,
    f: Fields,
    repeat_error: Option<Seq<char>>,
    events: Seq<Event>,
) -> (Stage, Fields, Option<Outcome>)
    decreases events.len(),
{
    if events.len() == 0 {
        (stage, f, None)
    } else {
        let (next, g, outcome) = pin_step(stage, f, repeat_error, events[0]);
        if outcome is Some {
            (next, g, outcome)
        } else {
            pin_run(next, g, repeat_error, events.drop_first())
        }
    }
}

/// A confirmation after several events; it takes no more once it is over.
pub open spec fn confirm_run(stage: Stage, one_button: bool, events: Seq<Event>) -> (
    Stage,
    Option<Outcome>,
)
    decreases events.len(),
{
    if events.len() == 0 {
        (stage, None)
    } else {
        let (next, outcome) = confirm_step(stage, one_button, events[0]);
        if outcome is Some {
            (next, outcome)
        } else {
            confirm_run(next, one_button, events.drop_first())
        }
    }
}

/// The rest of an escape sequence: `n` bytes that were waiting, and then none.
pub open spec fn sequence_rest(n: nat) -> Seq<Event>
    decreases n,
{
    if n == 0 {
        seq![Event::More(false)]
    } else {
        seq![Event::More(true), Event::Discarded] + sequence_rest((n - 1) as nat)
    }
}

/// An escape sequence: an Escape with more waiting behind it.
pub open spec fn sequence(n: nat) -> Seq<Event> {
    seq![Event::Key(0x1b), Event::More(true)] + sequence_rest(n)
}

proof fn lemma_sequence_is_swallowed(
    f: Fields,
    repeat_error: Option<Seq<char>>,
    one_button: bool,
    n: nat,
)
    ensures
        pin_run(Stage::Draining, f, repeat_error, sequence_rest(n)) == (
            Stage::Asking,
            f,
            None::<Outcome>,
        ),
        confirm_run(Stage::Draining, one_button, sequence_rest(n)) == (
            Stage::Asking,
            None::<Outcome>,
        ),
    decreases n,
{
    reveal_with_fuel(pin_run, 3);
    reveal_with_fuel(confirm_run, 3);
    if n > 0 {
        let k = (n - 1) as nat;
        lemma_sequence_is_swallowed(f, repeat_error, one_button, k);
        let e = sequence_rest(n);
        assert(e.drop_first().drop_first() =~= sequence_rest(k));
        assert(e[0] == Event::More(true));
        assert(e.drop_first()[0] == Event::Discarded);
    }
}

/// An arrow key is not a refusal: an escape sequence, however long, leaves a prompt as it
/// was, and nothing of what has been typed is lost.
pub proof fn law_an_arrow_key_is_not_a_refusal(
    f: Fields,
    repeat_error: Option<Seq<char>>,
    one_button: bool,
    n: nat,
)
    ensures
        pin_run(Stage::Asking, f, repeat_error, sequence(n)) == (Stage::Asking, f, None::<Outcome>),
        confirm_run(Stage::Asking, one_button, sequence(n)) == (Stage::Asking, None::<Outcome>),
{
    reveal_with_fuel(pin_run, 3);
    reveal_with_fuel(confirm_run, 3);
    let e = sequence(n);
    assert(e.drop_first().drop_first() =~= sequence_rest(n));
    assert(e.drop_first()[0] == Event::More(true));
    lemma_sequence_is_swallowed(f, repeat_error, one_button, n);
}

/// A bare Escape still refuses: it cancels a passphrase prompt and a confirmation.
pub proof fn law_a_bare_escape_cancels(f: Fields, repeat_error: Option<Seq<char>>)
    ensures
        pin_run(
            Stage::Asking,
            f,
            repeat_error,
            seq![Event::Key(0x1b), Event::More(false)],
        ).2 == Some(Outcome::Cancelled),
        confirm_run(Stage::Asking, false, seq![Event::Key(0x1b), Event::More(false)]).1 == Some(
            Outcome::Cancelled,
        ),
{
    reveal_with_fuel(pin_run, 3);
    reveal_with_fuel(confirm_run, 3);
    let e = seq![Event::Key(0x1b), Event::More(false)];
    assert(e.drop_first()[0] == Event::More(false));
}

/// No control character among the bytes.
pub open spec fn visible(bytes: Seq<u8>) -> bool {
    forall|i: int| 0 <= i < bytes.len() ==> #[trigger] bytes[i] >= 0x20 && bytes[i] != 0x7f
}

/// A control character is never stored: whatever happens on the terminal, there is none in
/// what has been typed.
pub proof fn law_control_characters_are_never_stored(
    stage: Stage,
    f: Fields,
    repeat_error: Option<Seq<char>>,
    event: Event,
)
    requires
        f.sound(),
        visible(f.first.bytes),
        f.again matches Some(h) ==> visible(h.bytes),
    ensures
        pin_step(stage, f, repeat_error, event).1.sound(),
        visible(pin_step(stage, f, repeat_error, event).1.first.bytes),
        pin_step(stage, f, repeat_error, event).1.again matches Some(h) ==> visible(h.bytes),
{
    let t = f.target().bytes;
    match event {
        Event::Key(b) => {
            lemma_shorter_by_one(t);
            let c = clipped(t.push(b), f.target().cap);
            assert(pin_key(b) == PinKey::Text ==> visible(t.push(b)));
            assert forall|i: int| 0 <= i < c.len() implies #[trigger] c[i] == t.push(b)[i] by {}
            assert(pin_key(b) == PinKey::Text ==> visible(c));
        },
        _ => {},
    }
}

/// Taking a character back leaves a beginning of what was there.
proof fn lemma_shorter_by_one(bytes: Seq<u8>)
    ensures
        without_last_char(bytes).len() <= bytes.len(),
        forall|i: int|
            0 <= i < without_last_char(bytes).len() ==> #[trigger] without_last_char(bytes)[i]
                == bytes[i],
    decreases bytes.len(),
{
    if bytes.len() > 0 {
        lemma_shorter_by_one(bytes.drop_last());
    }
}

/// A character that is no control character.
pub open spec fn printable(c: char) -> bool {
    c as u32 >= 0x20 && c as u32 != 0x7f
}

pub(crate) proof fn lemma_printable(c: char)
    requires
        printable(c),
    ensures
        visible(encode_utf8(seq![c])),
{
    lemma_one_char(c);
}

/// The bytes of a text, as they are typed.
pub open spec fn keys(bytes: Seq<u8>) -> Seq<Event> {
    bytes.map_values(|b: u8| Event::Key(b))
}

pub(crate) proof fn lemma_text_keys(f: Fields, repeat_error: Option<Seq<char>>, bytes: Seq<u8>)
    requires
        f.sound(),
        visible(bytes),
    ensures
        ({
            let (stored, refused) = typed_all(f.target(), f.refused, bytes);
            pin_run(Stage::Asking, f, repeat_error, keys(bytes)) == (
                Stage::Asking,
                (Fields { refused, ..f.with_target(stored) }),
                None::<Outcome>,
            )
        }),
    decreases bytes.len(),
{
    if bytes.len() == 0 {
        assert(Fields { refused: f.refused, ..f.with_target(f.target().bytes) } =~= f);
    } else {
        let g = after_byte(f, bytes[0]);
        let rest = bytes.drop_first();
        assert forall|i: int| 0 <= i < rest.len() implies #[trigger] rest[i] >= 0x20 && rest[i]
            != 0x7f by {
            assert(rest[i] == bytes[i + 1]);
        }
        assert(keys(bytes).drop_first() =~= keys(rest));
        assert(keys(bytes)[0] == Event::Key(bytes[0]));
        assert(bytes[0] >= 0x20 && bytes[0] != 0x7f);
        lemma_text_keys(g, repeat_error, rest);
    }
}

/// One keypress, one character: typing a character into a field that holds a text of fewer
/// than `n`, in a buffer of four bytes for each of `n`, adds it to the text, and the count
/// that is shown goes up by one, however many bytes the character has.
pub proof fn law_a_keypress_counts_once(
    f: Fields,
    repeat_error: Option<Seq<char>>,
    n: nat,
    s: Seq<char>,
    c: char,
)
    requires
        f.sound(),
        f.target().bytes == encode_utf8(s),
        f.target().cap == 4 * n,
        s.len() < n,
        printable(c),
    ensures
        ({
            let (stage, g, outcome) = pin_run(
                Stage::Asking,
                f,
                repeat_error,
                keys(encode_utf8(seq![c])),
            );
            &&& stage == Stage::Asking
            &&& outcome is None
            &&& g.sound()
            &&& g.target() == (Held { bytes: encode_utf8(s.push(c)), ..f.target() })
            &&& char_count(f.target().bytes) == s.len()
            &&& char_count(g.target().bytes) == s.len() + 1
        }),
{
    lemma_printable(c);
    lemma_text_keys(f, repeat_error, encode_utf8(seq![c]));
    law_room_for_every_character(f.target(), n, s, f.refused, c);
    law_counts_characters(s);
    law_counts_characters(s.push(c));
}

pub(crate) proof fn lemma_run_join(
    stage: Stage,
    f: Fields,
    repeat_error: Option<Seq<char>>,
    a: Seq<Event>,
    b: Seq<Event>,
)
    requires
        pin_run(stage, f, repeat_error, a).2 is None,
    ensures
        ({
            let (next, g, _) = pin_run(stage, f, repeat_error, a);
            pin_run(stage, f, repeat_error, a + b) == pin_run(next, g, repeat_error, b)
        }),
    decreases a.len(),
{
    if a.len() == 0 {
        assert(a + b =~= b);
    } else {
        let (next, g, _) = pin_step(stage, f, repeat_error, a[0]);
        assert((a + b)[0] == a[0]);
        assert((a + b).drop_first() =~= a.drop_first() + b);
        lemma_run_join(next, g, repeat_error, a.drop_first(), b);
    }
}

/// The agent gets what was typed: a text of no more than `n` characters, typed into an empty
/// field with four bytes for each of `n`, is in the field byte for byte, is counted character
/// for character, and is what the lines that carry the field to the agent say.
pub proof fn law_the_agent_gets_what_was_typed(
    f: Fields,
    repeat_error: Option<Seq<char>>,
    n: nat,
    s: Seq<char>,
)
    requires
        f.sound(),
        f.target().bytes.len() == 0,
        f.target().cap == 4 * n,
        s.len() <= n,
        forall|i: int| 0 <= i < s.len() ==> printable(#[trigger] s[i]),
    ensures
        ({
            let (stage, g, outcome) = pin_run(
                Stage::Asking,
                f,
                repeat_error,
                keys(encode_utf8(s)),
            );
            &&& stage == Stage::Asking
            &&& outcome is None
            &&& g.sound()
            &&& g.target() == (Held { bytes: encode_utf8(s), ..f.target() })
            &&& char_count(g.target().bytes) == s.len()
            &&& unescaped(payloads(secret_lines(g.target().bytes))) == encode_utf8(s)
        }),
    decreases s.len(),
{
    law_secret_arrives_whole(encode_utf8(s));
    law_counts_characters(s);
    if s.len() == 0 {
        assert(encode_utf8(s) =~= Seq::<u8>::empty());
        assert(keys(encode_utf8(s)) =~= Seq::<Event>::empty());
    } else {
        let t = s.drop_last();
        let c = s.last();
        law_the_agent_gets_what_was_typed(f, repeat_error, n, t);
        let (stage, g, _) = pin_run(Stage::Asking, f, repeat_error, keys(encode_utf8(t)));
        assert(s[s.len() - 1] == c);
        law_a_keypress_counts_once(g, repeat_error, n, t, c);
        assert(t.push(c) =~= s);
        lemma_encode_last(s);
        lemma_one_char(c);
        assert(keys(encode_utf8(s)) =~= keys(encode_utf8(t)) + keys(encode_utf8(seq![c])));
        lemma_run_join(
            Stage::Asking,
            f,
            repeat_error,
            keys(encode_utf8(t)),
            keys(encode_utf8(seq![c])),
        );
    }
}

/// The buffer every prompt gets takes the 2048 characters that a pinentry guarantees, however
/// many bytes they take, and hands them to the agent whole.
pub proof fn law_a_long_passphrase_fits(
    f: Fields,
    repeat_error: Option<Seq<char>>,
    s: Seq<char>,
)
    requires
        f.sound(),
        f.target().bytes.len() == 0,
        f.target().cap == PASSPHRASE_CAPACITY as nat,
        s.len() <= 2048,
        forall|i: int| 0 <= i < s.len() ==> printable(#[trigger] s[i]),
    ensures
        ({
            let (_, g, outcome) = pin_run(Stage::Asking, f, repeat_error, keys(encode_utf8(s)));
            &&& outcome is None
            &&& char_count(g.target().bytes) == s.len()
            &&& unescaped(payloads(secret_lines(g.target().bytes))) == encode_utf8(s)
        }),
{
    law_the_agent_gets_what_was_typed(f, repeat_error, 2048, s);
}

} // verus!
