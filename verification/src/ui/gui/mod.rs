//! The window: what it shows, and what it makes of what is typed.
//!
//! This is the front-end that makes ward usable at all from a menu, a browser, or anything
//! else launched without a terminal. It is drawn pixel by pixel, with no widget toolkit, and
//! the reason is narrow: the text widgets of the usual toolkits own their contents as a heap
//! string that reallocates as it grows and is never wiped. The buffer is the whole argument
//! this program makes.
//!
//! The guarantee is narrow too and worth stating exactly: the ASSEMBLED passphrase exists
//! only in the locked buffer.

use vstd::prelude::*;
use vstd::utf8::encode_utf8;

use crate::secret::{char_count, law_counts_characters, Secret};
use crate::server::{State, StateView};
use crate::text::{
    chars_of, decimal, decimal_of, lines as lines_of, opt_str, split_lines, views,
};
use crate::theme::Theme;
use crate::ui::entry::{after_accept, after_backspace, after_clear, after_text, Entry, Fields};
use crate::ui::tty::{
    bare_escape, confirm_key, confirm_run, field_label, label, law_a_bare_escape_cancels, marks, mask,
    pin_run, Event, Stage,
};
use crate::ui::Outcome;
use crate::unicode::lemma_encode_join;

pub mod font;

verus! {

/// The room left around everything.
pub const PAD: i32 = 20;

/// The narrowest and the widest a window gets.
pub const MIN_WIDTH: u32 = 420;

pub const MAX_WIDTH: u32 = 760;

/// What a line is for, which decides its colour and how much room it gets.
#[derive(Debug, Clone, Copy, PartialEq, Eq, Structural)]
pub enum Role {
    Title,
    Body,
    Error,
}

/// A line of the prompt.
pub struct Line {
    pub text: String,
    pub role: Role,
}

/// Lines, as the contracts speak of them.
pub open spec fn spelled(v: Seq<Line>) -> Seq<(Seq<char>, Role)> {
    v.map_values(|l: Line| (l.text@, l.role))
}

/// A text on a line of its own, where there is one.
pub open spec fn single(s: Option<Seq<char>>, role: Role) -> Seq<(Seq<char>, Role)> {
    match s {
        Some(s) => seq![(s, role)],
        None => seq![],
    }
}

/// The lines the prompt occupies, in the order they are drawn.
pub open spec fn prompt_lines(st: StateView, note: Option<Seq<char>>) -> Seq<(Seq<char>, Role)> {
    single(st.title, Role::Title) + (match st.desc {
        Some(d) => lines_of(d).map_values(|l: Seq<char>| (l, Role::Body)),
        None => seq![],
    }) + single(st.error, Role::Error) + single(note, Role::Error)
}

/// Adds a line.
fn add_line(v: &mut Vec<Line>, text: &str, role: Role)
    ensures
        spelled(final(v)@) == spelled(old(v)@).push((text@, role)),
{
    let ghost before = v@;
    v.push(Line { text: text.to_string(), role });
    assert(spelled(v@) =~= spelled(before).push((text@, role)));
}

/// The lines the prompt will occupy, in the order they are drawn.
///
/// Measured once and used for both the window size and the drawing, so the two cannot
/// disagree — a layout computed twice is a layout that eventually differs from itself.
pub fn lines(st: &State, note: Option<&str>) -> (v: Vec<Line>)
    ensures
        spelled(v@) == prompt_lines(st@, opt_str(note)),
{
    let mut v: Vec<Line> = Vec::new();
    match &st.title {
        Some(t) => add_line(&mut v, t.as_str(), Role::Title),
        None => {},
    }
    assert(spelled(v@) =~= single(st@.title, Role::Title));
    let ghost head = spelled(v@);
    match &st.desc {
        Some(d) => {
            let ls = split_lines(d.as_str());
            let ghost body = lines_of(d@).map_values(|l: Seq<char>| (l, Role::Body));
            let mut i: usize = 0;
            assert(head + body.take(0) =~= head);
            while i < ls.len()
                invariant
                    views(ls@) == lines_of(d@),
                    body == lines_of(d@).map_values(|l: Seq<char>| (l, Role::Body)),
                    i <= ls@.len(),
                    spelled(v@) == head + body.take(i as int),
                decreases ls@.len() - i,
            {
                assert(views(ls@)[i as int] == ls@[i as int]@);
                assert(body[i as int] == (ls@[i as int]@, Role::Body));
                add_line(&mut v, ls[i].as_str(), Role::Body);
                i += 1;
                assert(spelled(v@) =~= head + body.take(i as int));
            }
            assert(body.take(i as int) =~= body);
        },
        None => {
            assert(head + Seq::empty() =~= head);
        },
    }
    let ghost upto = spelled(v@);
    match &st.error {
        Some(e) => add_line(&mut v, e.as_str(), Role::Error),
        None => {},
    }
    assert(spelled(v@) =~= upto + single(st@.error, Role::Error));
    let ghost most = spelled(v@);
    match note {
        Some(n) => add_line(&mut v, n, Role::Error),
        None => {},
    }
    assert(spelled(v@) =~= most + single(opt_str(note), Role::Error));
    v
}

/// How far below a line the next one lies.
pub open spec fn advance(role: Role) -> int {
    if role == Role::Title {
        30
    } else {
        20
    }
}

/// How much room lines take.
pub open spec fn depth(ls: Seq<(Seq<char>, Role)>) -> int
    decreases ls.len(),
{
    if ls.len() == 0 {
        0
    } else {
        depth(ls.drop_last()) + advance(ls.last().1)
    }
}

/// The widest of several widths, but at least `MIN_WIDTH`, with the room at either side.
pub open spec fn widest(widths: Seq<i32>) -> int
    decreases widths.len(),
{
    if widths.len() == 0 {
        MIN_WIDTH as int
    } else {
        let rest = widest(widths.drop_last());
        let this = widths.last() + 2 * PAD;
        if this > rest {
            this
        } else {
            rest
        }
    }
}

/// The width a window needs.
pub open spec fn width_needed(widths: Seq<i32>) -> int {
    if widest(widths) > MAX_WIDTH {
        MAX_WIDTH as int
    } else {
        widest(widths)
    }
}

/// The height a window needs: its lines, the field and the count under it where a passphrase
/// is asked for, and the hint with the breathing room around it.
pub open spec fn height_needed(ls: Seq<(Seq<char>, Role)>, pin: bool) -> int {
    let h = PAD + depth(ls) + (if pin {
        30 + 20int
    } else {
        0
    }) + 28 + PAD;
    if h < 96 {
        96
    } else {
        h
    }
}

/// How much room a line takes.
fn line_advance(role: Role) -> (n: i32)
    ensures
        n == advance(role),
{
    match role {
        Role::Title => 30,
        _ => 20,
    }
}

proof fn lemma_depth(ls: Seq<(Seq<char>, Role)>, n: int)
    requires
        0 <= n <= ls.len(),
    ensures
        0 <= depth(ls.take(n)) <= depth(ls),
    decreases ls.len() - n,
{
    lemma_depth_positive(ls.take(n));
    if n < ls.len() {
        lemma_depth(ls, n + 1);
        assert(ls.take(n + 1).drop_last() =~= ls.take(n));
    } else {
        assert(ls.take(n) =~= ls);
    }
}

proof fn lemma_depth_positive(ls: Seq<(Seq<char>, Role)>)
    ensures
        0 <= depth(ls),
    decreases ls.len(),
{
    if ls.len() > 0 {
        lemma_depth_positive(ls.drop_last());
    }
}

/// The room that lines take.
fn depth_of(ls: &Vec<Line>) -> (d: i32)
    requires
        depth(spelled(ls@)) <= i32::MAX,
    ensures
        d == depth(spelled(ls@)),
{
    let ghost all = spelled(ls@);
    let mut d: i32 = 0;
    let mut i: usize = 0;
    while i < ls.len()
        invariant
            all == spelled(ls@),
            depth(all) <= i32::MAX,
            i <= ls@.len(),
            d == depth(all.take(i as int)),
        decreases ls@.len() - i,
    {
        proof {
            lemma_depth(all, i + 1);
            lemma_depth(all, i as int);
            assert(all.take(i + 1).drop_last() =~= all.take(i as int));
            assert(all[i as int] == (ls@[i as int].text@, ls@[i as int].role));
        }
        d = d + line_advance(ls[i].role);
        i += 1;
    }
    assert(all.take(i as int) =~= all);
    d
}

/// Whether the height that a prompt needs can be said at all.
pub fn fits(ls: &Vec<Line>, pin: bool) -> (r: bool)
    ensures
        r == (height_needed(spelled(ls@), pin) <= i32::MAX),
{
    let ghost all = spelled(ls@);
    let most: i32 = if pin {
        i32::MAX - 118
    } else {
        i32::MAX - 68
    };
    let mut d: i32 = 0;
    let mut i: usize = 0;
    while i < ls.len()
        invariant
            all == spelled(ls@),
            most == if pin {
                i32::MAX - 118
            } else {
                i32::MAX - 68
            },
            i <= ls@.len(),
            0 <= d <= most,
            d == depth(all.take(i as int)),
        decreases ls@.len() - i,
    {
        proof {
            lemma_depth(all, i + 1);
            assert(all.take(i + 1).drop_last() =~= all.take(i as int));
            assert(all[i as int] == (ls@[i as int].text@, ls@[i as int].role));
        }
        d = d + line_advance(ls[i].role);
        if d > most {
            return false;
        }
        i += 1;
    }
    assert(all.take(i as int) =~= all);
    true
}

/// The window size a prompt needs, from its lines and how wide each of them is.
pub fn size(ls: &Vec<Line>, widths: &Vec<i32>, pin: bool) -> (r: (u32, u32))
    requires
        forall|i: int| 0 <= i < widths@.len() ==> #[trigger] widths@[i] <= i32::MAX - 2 * PAD,
        height_needed(spelled(ls@), pin) <= i32::MAX,
    ensures
        r.0 == width_needed(widths@),
        r.1 == height_needed(spelled(ls@), pin),
{
    let mut w: i32 = 420;
    let mut i: usize = 0;
    while i < widths.len()
        invariant
            forall|i: int| 0 <= i < widths@.len() ==> #[trigger] widths@[i] <= i32::MAX - 2 * PAD,
            i <= widths@.len(),
            w == widest(widths@.take(i as int)),
            w >= 420,
        decreases widths@.len() - i,
    {
        assert(widths@.take(i + 1).drop_last() =~= widths@.take(i as int));
        let this: i32 = widths[i] + 40;
        if this > w {
            w = this;
        }
        i += 1;
    }
    assert(widths@.take(i as int) =~= widths@);
    if w > 760 {
        w = 760;
    }
    proof {
        lemma_depth_positive(spelled(ls@));
    }
    let d = depth_of(ls);
    let mut h: i32 = 20 + d;
    if pin {
        h = h + 50;
    }
    h = h + 48;
    if h < 96 {
        h = 96;
    }
    (w as u32, h as u32)
}

/// What happened to the window.
#[derive(Debug, Clone, Copy)]
pub enum Stroke<'t> {
    /// It was closed.
    Close,
    Enter,
    Escape,
    Backspace,
    /// Another key, and the text the keyboard layout made of it. Taking it from the keycode
    /// instead is how a program ends up storing Latin letters while the user is typing
    /// Cyrillic.
    Text(&'t str),
}

/// What happened to the window, as the contracts speak of it.
pub enum StrokeView {
    Close,
    Enter,
    Escape,
    Backspace,
    Text(Seq<char>),
}

impl<'t> View for Stroke<'t> {
    type V = StrokeView;

    open spec fn view(&self) -> StrokeView {
        match *self {
            Stroke::Close => StrokeView::Close,
            Stroke::Enter => StrokeView::Enter,
            Stroke::Escape => StrokeView::Escape,
            Stroke::Backspace => StrokeView::Backspace,
            Stroke::Text(t) => StrokeView::Text(t@),
        }
    }
}

/// A text of control characters and nothing else.
pub open spec fn is_control(t: Seq<char>) -> bool {
    forall|i: int| 0 <= i < t.len() ==> (#[trigger] t[i] as u32) < 0x20
}

/// Whether a text holds nothing but control characters, and whether Ctrl-U is among them.
fn control(t: &str) -> (r: (bool, bool))
    ensures
        r.0 == is_control(t@),
        r.0 ==> r.1 == t@.contains('\u{15}'),
{
    let v = chars_of(t);
    let mut clear = false;
    let mut i: usize = 0;
    while i < v.len()
        invariant
            v@ == t@,
            i <= v@.len(),
            forall|k: int| 0 <= k < i ==> (#[trigger] v@[k] as u32) < 0x20,
            clear == exists|k: int| 0 <= k < i && #[trigger] v@[k] == '\u{15}',
        decreases v@.len() - i,
    {
        let c = v[i];
        if c as u32 >= 0x20 {
            assert(!((t@[i as int] as u32) < 0x20));
            return (false, false);
        }
        if c == '\u{15}' {
            clear = true;
        }
        i += 1;
    }
    (true, clear)
}

/// A passphrase window after a stroke: what has been typed, and how it ended if it did.
pub open spec fn pin_stroke(f: Fields, repeat_error: Option<Seq<char>>, stroke: StrokeView) -> (
    Fields,
    Option<Outcome>,
) {
    match stroke {
        // Closing the window is a refusal, not a mistake to be ignored — and it is reported as
        // cancellation rather than as an empty passphrase.
        StrokeView::Close => (f, Some(Outcome::Cancelled)),
        StrokeView::Enter => {
            let (g, over) = after_accept(f, repeat_error);
            (
                g,
                if over {
                    Some(Outcome::Accepted)
                } else {
                    None
                },
            )
        },
        StrokeView::Escape => (f, Some(Outcome::Cancelled)),
        StrokeView::Backspace => (after_backspace(f), None),
        StrokeView::Text(t) => if !is_control(t) {
            (after_text(f, encode_utf8(t)), None)
        } else if t.contains('\u{15}') {
            (after_clear(f), None)
        } else {
            (f, None)
        },
    }
}

/// How a question answers to a stroke, if it does. A letter is taken as the terminal takes
/// it, so that a question is answered identically whichever front-end the user got.
pub open spec fn confirm_stroke(one_button: bool, stroke: StrokeView) -> Option<Outcome> {
    match stroke {
        StrokeView::Close => Some(Outcome::Cancelled),
        StrokeView::Enter => Some(Outcome::Accepted),
        StrokeView::Escape => Some(Outcome::Cancelled),
        StrokeView::Backspace => None,
        StrokeView::Text(t) => if is_control(t) || one_button {
            None
        } else if t[0] == 'y' || t[0] == 'Y' {
            Some(Outcome::Accepted)
        } else if t[0] == 'n' || t[0] == 'N' {
            Some(Outcome::NotOk)
        } else {
            None
        },
    }
}

/// An outcome, or the one that stands already where there is no new one.
pub open spec fn latest(before: Option<Outcome>, new: Option<Outcome>) -> Option<Outcome> {
    if new is Some {
        new
    } else {
        before
    }
}

/// How a prompt ended, if it did: an outcome counts before the deadline does.
pub open spec fn ended(outcome: Option<Outcome>, late: bool) -> Option<Outcome> {
    if outcome is None && late {
        Some(Outcome::Cancelled)
    } else {
        outcome
    }
}

/// Whether the two entries differ where they are compared.
pub open spec fn disagree(f: Fields) -> bool {
    f.on_repeat && f.again is Some && f.again->0.bytes != f.first.bytes
}

/// Whether Enter changes what the window has to show: it does where a note goes away and
/// where one appears.
pub open spec fn changes_size(f: Fields, stroke: StrokeView) -> bool {
    stroke is Enter && f.again is Some && (if f.on_repeat {
        disagree(f)
    } else {
        f.note is Some
    })
}

/// A passphrase prompt in a window.
pub struct PinWindow<'a> {
    entry: Entry<'a>,
    outcome: Option<Outcome>,
}

impl<'a> PinWindow<'a> {
    /// What has been typed.
    pub closed spec fn typing(&self) -> Entry<'a> {
        self.entry
    }

    /// How it ended, if it did.
    pub closed spec fn result(&self) -> Option<Outcome> {
        self.outcome
    }

    /// What has been typed, the passphrase being in `into`.
    pub open spec fn fields(&self, into: &Secret) -> Fields {
        self.typing().fields(into)
    }

    /// What holds of every prompt.
    pub open spec fn wf(&self) -> bool {
        self.typing().wf()
    }

    /// A prompt with nothing typed. `confirm` is the buffer of the repetition, where one is
    /// asked for.
    pub fn new(confirm: Option<Secret<'a>>) -> (w: Self)
        requires
            confirm matches Some(c) ==> c.wf(),
        ensures
            w.wf(),
            w.result() is None,
            w.typing().again() == confirm,
            !w.typing().repeating(),
            w.typing().remark() is None,
            !w.typing().refusing(),
    {
        PinWindow { entry: Entry::new(confirm), outcome: None }
    }

    /// Takes a stroke. Returns whether the window needs another size: a note that appears or
    /// goes away is a line more or less, and in a window of the old height everything below it
    /// would slide under the edge.
    pub fn press(&mut self, st: &State, into: &mut Secret, stroke: Stroke) -> (resize: bool)
        requires
            old(self).wf(),
            old(into).wf(),
        ensures
            final(self).wf(),
            final(into).wf(),
            ({
                let (f, outcome) = pin_stroke(
                    old(self).fields(old(into)),
                    st@.repeat_error,
                    stroke@,
                );
                &&& final(self).fields(final(into)) == f
                &&& final(self).result() == latest(old(self).result(), outcome)
            }),
            resize == changes_size(old(self).fields(old(into)), stroke@),
    {
        match stroke {
            Stroke::Close => {
                self.outcome = Some(Outcome::Cancelled);
                false
            },
            // Escape is cancellation everywhere, as it is in the terminal.
            Stroke::Escape => {
                self.outcome = Some(Outcome::Cancelled);
                false
            },
            Stroke::Enter => {
                let asked_twice = self.entry.asks_twice();
                let repeating = self.entry.is_repeating();
                let noted = self.entry.note().is_some();
                let over = self.entry.accept(into, &st.repeat_error);
                if over {
                    self.outcome = Some(Outcome::Accepted);
                }
                asked_twice && if repeating {
                    !over
                } else {
                    noted
                }
            },
            Stroke::Backspace => {
                self.entry.backspace(into);
                false
            },
            Stroke::Text(t) => {
                let (control, clear) = control(t);
                if !control {
                    self.entry.push_text(into, t);
                } else if clear {
                    self.entry.clear_entry(into);
                }
                false
            },
        }
    }

    /// Notes that the window could not be shown. Nobody was asked, so this is no refusal.
    pub fn unavailable(&mut self)
        ensures
            final(self).result() == Some(Outcome::Unavailable),
            final(self).typing() == old(self).typing(),
    {
        self.outcome = Some(Outcome::Unavailable);
    }

    /// How it ended, if it did; `late` tells whether the deadline has passed.
    pub fn over(&self, late: bool) -> (r: Option<Outcome>)
        ensures
            r == ended(self.result(), late),
    {
        if self.outcome.is_none() && late {
            Some(Outcome::Cancelled)
        } else {
            self.outcome
        }
    }

    /// What the user is told about the previous try.
    pub fn note(&self) -> (r: Option<&str>)
        ensures
            opt_str(r) == self.typing().remark(),
    {
        self.entry.note()
    }

    /// Whether the repetition is being typed.
    pub fn is_repeating(&self) -> (r: bool)
        ensures
            r == self.typing().repeating(),
    {
        self.entry.is_repeating()
    }

    /// How many characters the field holds.
    pub fn entered(&self, into: &Secret) -> (n: usize)
        requires
            self.wf(),
            into.wf(),
        ensures
            n == char_count(self.fields(into).target().bytes),
    {
        self.entry.entered(into)
    }
}

/// A question or a message in a window.
pub struct ConfirmWindow {
    one_button: bool,
    outcome: Option<Outcome>,
}

impl ConfirmWindow {
    /// How it ended, if it did.
    pub closed spec fn result(&self) -> Option<Outcome> {
        self.outcome
    }

    /// Whether there is nothing to decide.
    pub closed spec fn plain(&self) -> bool {
        self.one_button
    }

    /// A question; with one button, a message.
    pub fn new(one_button: bool) -> (w: Self)
        ensures
            w.result() is None,
            w.plain() == one_button,
    {
        ConfirmWindow { one_button, outcome: None }
    }

    /// Takes a stroke.
    pub fn press(&mut self, stroke: Stroke)
        ensures
            final(self).plain() == old(self).plain(),
            final(self).result() == latest(
                old(self).result(),
                confirm_stroke(old(self).plain(), stroke@),
            ),
    {
        match stroke {
            Stroke::Close => {
                self.outcome = Some(Outcome::Cancelled);
            },
            Stroke::Escape => {
                self.outcome = Some(Outcome::Cancelled);
            },
            Stroke::Enter => {
                self.outcome = Some(Outcome::Accepted);
            },
            Stroke::Backspace => {},
            Stroke::Text(t) => {
                let (control, _) = control(t);
                if !control && !self.one_button {
                    let c = t.get_char(0);
                    if c == 'y' || c == 'Y' {
                        self.outcome = Some(Outcome::Accepted);
                    } else if c == 'n' || c == 'N' {
                        self.outcome = Some(Outcome::NotOk);
                    }
                }
            },
        }
    }

    /// Notes that the window could not be shown.
    pub fn unavailable(&mut self)
        ensures
            final(self).result() == Some(Outcome::Unavailable),
            final(self).plain() == old(self).plain(),
    {
        self.outcome = Some(Outcome::Unavailable);
    }

    /// How it ended, if it did; `late` tells whether the deadline has passed.
    pub fn over(&self, late: bool) -> (r: Option<Outcome>)
        ensures
            r == ended(self.result(), late),
    {
        if self.outcome.is_none() && late {
            Some(Outcome::Cancelled)
        } else {
            self.outcome
        }
    }
}

/// A question with two answers is answered identically whichever front-end the user got: by
/// every letter that both can be given, by Enter and by Escape.
pub proof fn law_a_question_is_answered_the_same_everywhere(b: u8)
    requires
        0x20 <= b < 0x80,
    ensures
        confirm_stroke(false, StrokeView::Text(seq![b as char])) == confirm_key(false, b),
        confirm_stroke(false, StrokeView::Enter) == confirm_key(false, 0x0d),
        confirm_stroke(false, StrokeView::Enter) == confirm_key(false, 0x0a),
        confirm_stroke(false, StrokeView::Escape) == Some(bare_escape(false)),
{
    let c = b as char;
    assert(c as u32 == b);
    assert(!is_control(seq![c])) by {
        assert(seq![c][0] == c);
    }
}

/// Escape cancels a prompt for a passphrase and a question with two answers, in the window as
/// on the terminal.
pub proof fn law_escape_cancels_everywhere(f: Fields, repeat_error: Option<Seq<char>>)
    ensures
        pin_stroke(f, repeat_error, StrokeView::Escape) == (f, Some(Outcome::Cancelled)),
        pin_run(
            Stage::Asking,
            f,
            repeat_error,
            seq![Event::Key(0x1b), Event::More(false)],
        ).2 == Some(Outcome::Cancelled),
        confirm_stroke(false, StrokeView::Escape) == Some(Outcome::Cancelled),
        confirm_run(Stage::Asking, false, seq![Event::Key(0x1b), Event::More(false)]).1 == Some(
            Outcome::Cancelled,
        ),
{
    law_a_bare_escape_cancels(f, repeat_error);
}

/// The count goes up by what was typed, character for character: a text that fits a field
/// adds as many to the count as it has characters, however many bytes they take.
pub proof fn law_typed_text_is_counted(
    f: Fields,
    repeat_error: Option<Seq<char>>,
    s: Seq<char>,
    t: Seq<char>,
)
    requires
        f.sound(),
        f.target().bytes == encode_utf8(s),
        !is_control(t),
        encode_utf8(s).len() + encode_utf8(t).len() <= f.target().cap,
    ensures
        ({
            let (g, outcome) = pin_stroke(f, repeat_error, StrokeView::Text(t));
            &&& outcome is None
            &&& g.target().bytes == encode_utf8(s + t)
            &&& char_count(f.target().bytes) == s.len()
            &&& char_count(g.target().bytes) == s.len() + t.len()
        }),
{
    lemma_encode_join(s, t);
    law_counts_characters(s);
    law_counts_characters(s + t);
}

/// How large a text is drawn.
#[derive(Debug, Clone, Copy, PartialEq, Eq, Structural)]
pub enum Face {
    /// The title.
    Large,
    /// Whatever is to be read.
    Small,
    /// The count and the hint.
    Tiny,
}

/// Something to paint.
pub enum Paint {
    /// A text with its baseline at `y`, from `x` on.
    Text { text: String, x: i32, y: i32, face: Face, colour: u32 },
    /// A strip of one colour.
    Strip { x: i32, y: i32, width: i32, height: i32, colour: u32 },
}

/// Something to paint, as the contracts speak of it.
pub enum PaintView {
    Text { text: Seq<char>, x: int, y: int, face: Face, colour: u32 },
    Strip { x: int, y: int, width: int, height: int, colour: u32 },
}

impl View for Paint {
    type V = PaintView;

    open spec fn view(&self) -> PaintView {
        match self {
            Paint::Text { text, x, y, face, colour } => PaintView::Text {
                text: text@,
                x: *x as int,
                y: *y as int,
                face: *face,
                colour: *colour,
            },
            Paint::Strip { x, y, width, height, colour } => PaintView::Strip {
                x: *x as int,
                y: *y as int,
                width: *width as int,
                height: *height as int,
                colour: *colour,
            },
        }
    }
}

/// Several things to paint, as the contracts speak of them.
pub open spec fn picture(v: Seq<Paint>) -> Seq<PaintView> {
    v.map_values(|p: Paint| p@)
}

/// The colour of a line.
pub open spec fn line_colour(t: Theme, role: Role) -> u32 {
    match role {
        Role::Title => t.accent,
        Role::Body => t.fg,
        Role::Error => t.error,
    }
}

/// How large a line is drawn.
pub open spec fn line_face(role: Role) -> Face {
    if role == Role::Title {
        Face::Large
    } else {
        Face::Small
    }
}

/// How large a line is drawn, and measured.
pub fn face_of(role: Role) -> (f: Face)
    ensures
        f == line_face(role),
{
    match role {
        Role::Title => Face::Large,
        _ => Face::Small,
    }
}

/// The baseline of the first line.
pub open spec fn first_baseline() -> int {
    PAD + 15
}

/// The lines, one below the other.
pub open spec fn line_paint(ls: Seq<(Seq<char>, Role)>, t: Theme) -> Seq<PaintView>
    decreases ls.len(),
{
    if ls.len() == 0 {
        seq![]
    } else {
        line_paint(ls.drop_last(), t).push(
            PaintView::Text {
                text: ls.last().0,
                x: PAD as int,
                y: first_baseline() + depth(ls.drop_last()),
                face: line_face(ls.last().1),
                colour: line_colour(t, ls.last().1),
            },
        )
    }
}

/// The field and what belongs to it, on the baseline `y`: the label, a sunken strip that
/// makes it obvious where the typing goes, one mark for each character, and their number
/// under the right edge. `label_width` and `count_width` are how wide the label and the
/// number are.
pub open spec fn field_paint(
    label: Seq<char>,
    label_width: int,
    entered: nat,
    count_width: int,
    y: int,
    stride: int,
    t: Theme,
) -> Seq<PaintView> {
    let x = PAD + label_width + 12;
    seq![
        PaintView::Text { text: label, x: PAD as int, y, face: Face::Small, colour: t.dim },
        PaintView::Strip { x, y: y - 15, width: stride - x - PAD, height: 22, colour: t.field },
        PaintView::Text { text: marks(entered), x: x + 8, y, face: Face::Small, colour: t.fg },
        PaintView::Text {
            text: count_text(entered),
            x: stride - PAD - count_width,
            y: y + 19,
            face: Face::Tiny,
            colour: t.dim,
        },
    ]
}

/// The number of characters, in words.
pub open spec fn count_text(entered: nat) -> Seq<char> {
    decimal(entered) + " characters"@
}

/// The number of characters, in words.
pub fn count(entered: usize) -> (s: String)
    ensures
        s@ == count_text(entered as nat),
{
    let mut s = decimal_of(entered as u64);
    s.append(" characters");
    s
}

/// The hint, near the bottom.
pub open spec fn hint_paint(text: Seq<char>, height: int, t: Theme) -> PaintView {
    PaintView::Text {
        text,
        x: PAD as int,
        y: height - PAD / 2 - 2,
        face: Face::Tiny,
        colour: t.dim,
    }
}

/// The hint of a question.
pub open spec fn confirm_hint(one_button: bool) -> Seq<char> {
    if one_button {
        "enter  dismiss"@
    } else {
        "enter  accept        n  decline        esc  cancel"@
    }
}

/// What a passphrase window shows, in the order it is painted.
pub open spec fn pin_picture(
    st: StateView,
    note: Option<Seq<char>>,
    repeating: bool,
    entered: nat,
    label_width: int,
    count_width: int,
    stride: int,
    height: int,
    t: Theme,
) -> Seq<PaintView> {
    let ls = prompt_lines(st, note);
    (line_paint(ls, t) + field_paint(
        field_label(st, repeating),
        label_width,
        entered,
        count_width,
        first_baseline() + depth(ls),
        stride,
        t,
    )).push(hint_paint("enter  accept        esc  cancel        ctrl-u  clear"@, height, t))
}

/// What a question or a message shows, in the order it is painted.
pub open spec fn confirm_picture(st: StateView, one_button: bool, height: int, t: Theme) -> Seq<
    PaintView,
> {
    line_paint(prompt_lines(st, None), t).push(hint_paint(confirm_hint(one_button), height, t))
}

/// Adds something to paint.
fn add_paint(v: &mut Vec<Paint>, p: Paint)
    ensures
        picture(final(v)@) == picture(old(v)@).push(p@),
{
    let ghost before = v@;
    v.push(p);
    assert(picture(v@) =~= picture(before).push(p@));
}

/// The lines to paint, and the baseline below them.
fn paint_lines(ls: &Vec<Line>, t: &Theme) -> (r: (Vec<Paint>, i32))
    requires
        height_needed(spelled(ls@), false) <= i32::MAX,
    ensures
        picture(r.0@) == line_paint(spelled(ls@), *t),
        r.1 == first_baseline() + depth(spelled(ls@)),
{
    let ghost all = spelled(ls@);
    let mut v: Vec<Paint> = Vec::new();
    let mut y: i32 = 35;
    let mut i: usize = 0;
    assert(picture(v@) =~= line_paint(all.take(0), *t));
    while i < ls.len()
        invariant
            all == spelled(ls@),
            height_needed(all, false) <= i32::MAX,
            i <= ls@.len(),
            y == first_baseline() + depth(all.take(i as int)),
            picture(v@) == line_paint(all.take(i as int), *t),
        decreases ls@.len() - i,
    {
        proof {
            lemma_depth(all, i + 1);
            lemma_depth(all, i as int);
            assert(all.take(i + 1).drop_last() =~= all.take(i as int));
            assert(all[i as int] == (ls@[i as int].text@, ls@[i as int].role));
        }
        let role = ls[i].role;
        let face = face_of(role);
        let colour: u32 = match role {
            Role::Title => t.accent,
            Role::Body => t.fg,
            Role::Error => t.error,
        };
        add_paint(&mut v, Paint::Text { text: ls[i].text.clone(), x: 20, y, face, colour });
        y = y + line_advance(role);
        i += 1;
    }
    assert(all.take(i as int) =~= all);
    (v, y)
}

/// The height of a window as the drawing can use it.
pub open spec fn drawable(stride: int, height: int) -> bool {
    0 < stride <= i32::MAX && 0 < height <= i32::MAX
}

/// What a passphrase window shows, in the order it is painted, `stride` pixels wide and
/// `height` high. `label_width` and `count_width` are how wide the label of the field and the
/// number of characters are.
pub fn draw_pin(
    st: &State,
    window: &PinWindow,
    into: &Secret,
    label_width: i32,
    count_width: i32,
    stride: usize,
    height: usize,
    t: &Theme,
) -> (v: Vec<Paint>)
    requires
        window.wf(),
        into.wf(),
        drawable(stride as int, height as int),
        0 <= label_width <= i32::MAX - 60,
        0 <= count_width <= i32::MAX - 60,
        height_needed(prompt_lines(st@, window.typing().remark()), true) <= i32::MAX,
    ensures
        picture(v@) == pin_picture(
            st@,
            window.typing().remark(),
            window.typing().repeating(),
            char_count(window.fields(into).target().bytes),
            label_width as int,
            count_width as int,
            stride as int,
            height as int,
            *t,
        ),
{
    let entered = window.entered(into);
    let ls = lines(st, window.note());
    proof {
        lemma_depth_positive(spelled(ls@));
    }
    let (mut v, y) = paint_lines(&ls, t);
    let ghost head = picture(v@);
    let name = label(st, window.is_repeating());
    add_paint(
        &mut v,
        Paint::Text { text: name.to_string(), x: 20, y, face: Face::Small, colour: t.dim },
    );
    let x: i32 = 20 + label_width + 12;
    let width: i32 = stride as i32 - x - 20;
    add_paint(&mut v, Paint::Strip { x, y: y - 15, width, height: 22, colour: t.field });
    add_paint(
        &mut v,
        Paint::Text { text: mask(entered), x: x + 8, y, face: Face::Small, colour: t.fg },
    );
    add_paint(
        &mut v,
        Paint::Text {
            text: count(entered),
            x: stride as i32 - 20 - count_width,
            y: y + 19,
            face: Face::Tiny,
            colour: t.dim,
        },
    );
    assert(picture(v@) =~= head + field_paint(
        name@,
        label_width as int,
        entered as nat,
        count_width as int,
        y as int,
        stride as int,
        *t,
    ));
    add_paint(
        &mut v,
        Paint::Text {
            text: "enter  accept        esc  cancel        ctrl-u  clear".to_string(),
            x: 20,
            y: height as i32 - 12,
            face: Face::Tiny,
            colour: t.dim,
        },
    );
    v
}

/// What a question or a message shows, in the order it is painted.
pub fn draw_confirm(st: &State, window: &ConfirmWindow, height: usize, t: &Theme) -> (v: Vec<Paint>)
    requires
        0 < height <= i32::MAX,
        height_needed(prompt_lines(st@, None), false) <= i32::MAX,
    ensures
        picture(v@) == confirm_picture(st@, window.plain(), height as int, *t),
{
    let ls = lines(st, None);
    let (mut v, _) = paint_lines(&ls, t);
    let text = if window.one_button {
        "enter  dismiss"
    } else {
        "enter  accept        n  decline        esc  cancel"
    };
    add_paint(
        &mut v,
        Paint::Text {
            text: text.to_string(),
            x: 20,
            y: height as i32 - 12,
            face: Face::Tiny,
            colour: t.dim,
        },
    );
    v
}

/// Whether a pixel lies on the edge of a window.
pub open spec fn on_edge(row: int, col: int, stride: int, height: int) -> bool {
    row == 0 || row == height - 1 || col == 0 || col == stride - 1
}

/// An empty window: the background, in a one-pixel frame.
pub open spec fn cleared(len: nat, stride: int, height: int, t: Theme) -> Seq<u32> {
    Seq::new(
        len,
        |i: int|
            if i < stride * height && on_edge(i / stride, i % stride, stride, height) {
                t.border
            } else {
                t.bg
            },
    )
}

/// Paints an empty window: the background, in a one-pixel frame, so the prompt reads as its
/// own thing rather than as a patch of colour floating over whatever is behind it.
pub fn clear(buf: &mut [u32], stride: usize, height: usize, t: &Theme)
    requires
        0 < stride,
        0 < height,
        stride * height <= old(buf)@.len(),
    ensures
        final(buf)@ == cleared(old(buf)@.len(), stride as int, height as int, *t),
{
    let ghost before = buf@;
    let total: usize = buf.len();
    let inside: usize = stride * height;
    let mut i: usize = 0;
    while i < total
        invariant
            0 < stride,
            0 < height,
            inside == stride * height,
            total == before.len(),
            buf@.len() == total,
            i <= total,
            forall|k: int|
                0 <= k < i ==> #[trigger] buf@[k] == cleared(
                    before.len(),
                    stride as int,
                    height as int,
                    *t,
                )[k],
        decreases total - i,
    {
        let row = i / stride;
        let col = i % stride;
        let edge = row == 0 || row == height - 1 || col == 0 || col == stride - 1;
        if i < inside && edge {
            buf[i] = t.border;
        } else {
            buf[i] = t.bg;
        }
        i += 1;
    }
    assert(buf@ =~= cleared(before.len(), stride as int, height as int, *t));
}

/// Whether a pixel lies in a strip.
pub open spec fn in_strip(row: int, col: int, x: int, y: int, width: int, height: int) -> bool {
    y <= row < y + height && x <= col < x + width
}

/// Pixels after a strip was painted. `stride` pixels make a row, and there are `rows`.
pub open spec fn with_strip(
    px: Seq<u32>,
    stride: int,
    rows: int,
    x: int,
    y: int,
    width: int,
    height: int,
    colour: u32,
) -> Seq<u32> {
    Seq::new(
        px.len(),
        |i: int|
            if i < stride * rows && in_strip(i / stride, i % stride, x, y, width, height) {
                colour
            } else {
                px[i]
            },
    )
}

/// Paints a strip. What falls outside the buffer is left out.
pub fn strip(
    buf: &mut [u32],
    stride: usize,
    rows: usize,
    x: i32,
    y: i32,
    width: i32,
    height: i32,
    colour: u32,
)
    requires
        0 < stride <= i32::MAX,
        rows <= i32::MAX,
        stride * rows <= old(buf)@.len(),
    ensures
        final(buf)@ == with_strip(
            old(buf)@,
            stride as int,
            rows as int,
            x as int,
            y as int,
            width as int,
            height as int,
            colour,
        ),
{
    let ghost before = buf@;
    let total: usize = buf.len();
    let inside: usize = stride * rows;
    let ghost after = with_strip(
        before,
        stride as int,
        rows as int,
        x as int,
        y as int,
        width as int,
        height as int,
        colour,
    );
    let mut i: usize = 0;
    while i < inside
        invariant
            0 < stride <= i32::MAX,
            inside == stride * rows,
            inside <= total,
            total == before.len(),
            buf@.len() == total,
            i <= inside,
            rows <= i32::MAX,
            after == with_strip(
                before,
                stride as int,
                rows as int,
                x as int,
                y as int,
                width as int,
                height as int,
                colour,
            ),
            forall|k: int| 0 <= k < i ==> #[trigger] buf@[k] == after[k],
            forall|k: int| i <= k < total ==> #[trigger] buf@[k] == before[k],
        decreases inside - i,
    {
        proof {
            font::lemma_row_in(i as int, stride as int, rows as int);
        }
        let row: i64 = (i / stride) as i64;
        let col: i64 = (i % stride) as i64;
        let (left, top) = (x as i64, y as i64);
        if top <= row && row < top + height as i64 && left <= col && col < left + width as i64 {
            buf[i] = colour;
        }
        i += 1;
    }
    assert(buf@ =~= after);
}

/// Whether something lies inside a window of this height.
pub open spec fn lies_inside(p: PaintView, window_height: int) -> bool {
    match p {
        PaintView::Text { y, .. } => 0 < y < window_height,
        PaintView::Strip { y, height, .. } => 0 < y && y + height < window_height,
    }
}

proof fn lemma_lines_lie_inside(ls: Seq<(Seq<char>, Role)>, t: Theme, height: int)
    requires
        first_baseline() + depth(ls) < height,
    ensures
        line_paint(ls, t).len() == ls.len(),
        forall|i: int|
            0 <= i < ls.len() ==> lies_inside(#[trigger] line_paint(ls, t)[i], height),
    decreases ls.len(),
{
    if ls.len() > 0 {
        lemma_depth_positive(ls.drop_last());
        lemma_lines_lie_inside(ls.drop_last(), t, height);
    }
}

/// A window of the height it asks for holds everything it shows, whatever the agent said and
/// whether or not there is a note.
pub proof fn law_a_window_holds_what_it_shows(
    st: StateView,
    note: Option<Seq<char>>,
    repeating: bool,
    entered: nat,
    label_width: int,
    count_width: int,
    stride: int,
    t: Theme,
    one_button: bool,
)
    ensures
        ({
            let height = height_needed(prompt_lines(st, note), true);
            let p = pin_picture(
                st,
                note,
                repeating,
                entered,
                label_width,
                count_width,
                stride,
                height,
                t,
            );
            forall|i: int| 0 <= i < p.len() ==> lies_inside(#[trigger] p[i], height)
        }),
        ({
            let height = height_needed(prompt_lines(st, None), false);
            let p = confirm_picture(st, one_button, height, t);
            forall|i: int| 0 <= i < p.len() ==> lies_inside(#[trigger] p[i], height)
        }),
{
    let ls = prompt_lines(st, note);
    let height = height_needed(ls, true);
    lemma_depth_positive(ls);
    lemma_lines_lie_inside(ls, t, height);
    let n = line_paint(ls, t).len() as int;
    let p = pin_picture(
        st,
        note,
        repeating,
        entered,
        label_width,
        count_width,
        stride,
        height,
        t,
    );
    assert forall|i: int| 0 <= i < p.len() implies lies_inside(#[trigger] p[i], height) by {
        if i < n {
            assert(p[i] == line_paint(ls, t)[i]);
        }
    }
    let plain = prompt_lines(st, None);
    let h = height_needed(plain, false);
    lemma_depth_positive(plain);
    lemma_lines_lie_inside(plain, t, h);
    let q = confirm_picture(st, one_button, h, t);
    assert forall|i: int| 0 <= i < q.len() implies lies_inside(#[trigger] q[i], h) by {
        if i < plain.len() {
            assert(q[i] == line_paint(plain, t)[i]);
        }
    }
}

} // verus!
