//! Windows: what they show and where, how large they are, and what each pixel becomes.

use vstd::arithmetic::div_mod::{
    lemma_fundamental_div_mod_converse_div,
    lemma_fundamental_div_mod_converse_mod,
};
use vstd::prelude::*;

use crate::server::StateView;
use crate::text::{decimal, lines};
use crate::theme::Theme;
use crate::ui::entry::Fields;
use crate::ui::gui::{
    changes_size, cleared, confirm_picture, depth, ended, height_needed, latest, line_paint,
    pin_picture, pin_stroke, prompt_lines, widest, width_needed, with_strip, Face, PaintView, Role,
    StrokeView,
};
use crate::ui::tty::marks;
use crate::ui::Outcome;

verus! {

/// One where there is something, and none where there is not.
pub open spec fn one_if<T>(o: Option<T>) -> int {
    if o is Some {
        1
    } else {
        0
    }
}

/// The lines of the description.
pub open spec fn body(st: StateView) -> Seq<Seq<char>> {
    if st.desc is Some {
        lines(st.desc->0)
    } else {
        Seq::empty()
    }
}

/// How many lines a prompt has: the title, those of the description, the error and the note.
pub open spec fn line_total(st: StateView, note: Option<Seq<char>>) -> int {
    one_if(st.title) + body(st).len() + one_if(st.error) + one_if(note)
}

/// The baseline of the `i`th line: 30 pixels below the one before where that is the title, and
/// 20 where it is not.
pub open spec fn baseline(st: StateView, i: int) -> int {
    if st.title is Some && i > 0 {
        35 + 30 + 20 * (i - 1)
    } else {
        35 + 20 * i
    }
}

/// A text at the left edge.
pub open spec fn at_left(text: Seq<char>, y: int, face: Face, colour: u32) -> PaintView {
    PaintView::Text { text, x: 20, y, face, colour }
}

/// The lines of a prompt as they are painted: the title, the lines of the description, the
/// error and the note, in this order, one below the other, each in its colour.
pub open spec fn shows_lines(
    p: Seq<PaintView>,
    st: StateView,
    note: Option<Seq<char>>,
    t: Theme,
) -> bool {
    let a = one_if(st.title);
    let b = a + body(st).len();
    let c = b + one_if(st.error);
    &&& p.len() >= line_total(st, note)
    &&& st.title matches Some(s) ==> p[0] == at_left(s, 35, Face::Large, t.accent)
    &&& forall|i: int|
        a <= i < b ==> #[trigger] p[i] == at_left(body(st)[i - a], baseline(st, i), Face::Small, t.fg)
    &&& st.error matches Some(s) ==> p[b] == at_left(s, baseline(st, b), Face::Small, t.error)
    &&& note matches Some(s) ==> p[c] == at_left(s, baseline(st, c), Face::Small, t.error)
}

proof fn lemma_prompt_lines(st: StateView, note: Option<Seq<char>>)
    ensures
        ({
            let ls = prompt_lines(st, note);
            let a = one_if(st.title);
            let b = a + body(st).len();
            let c = b + one_if(st.error);
            &&& ls.len() == line_total(st, note)
            &&& st.title matches Some(s) ==> ls[0] == (s, Role::Title)
            &&& forall|i: int| a <= i < b ==> #[trigger] ls[i] == (body(st)[i - a], Role::Body)
            &&& st.error matches Some(s) ==> ls[b] == (s, Role::Error)
            &&& note matches Some(s) ==> ls[c] == (s, Role::Error)
            &&& forall|i: int| a <= i < ls.len() ==> (#[trigger] ls[i]).1 != Role::Title
        }),
{
}

proof fn lemma_line_paint(ls: Seq<(Seq<char>, Role)>, t: Theme, n: int)
    requires
        0 <= n <= ls.len(),
    ensures
        line_paint(ls.take(n), t).len() == n,
        forall|i: int|
            0 <= i < n ==> #[trigger] line_paint(ls.take(n), t)[i] == at_left(
                ls[i].0,
                35 + depth(ls.take(i)),
                if ls[i].1 == Role::Title {
                    Face::Large
                } else {
                    Face::Small
                },
                match ls[i].1 {
                    Role::Title => t.accent,
                    Role::Body => t.fg,
                    Role::Error => t.error,
                },
            ),
    decreases n,
{
    if n > 0 {
        lemma_line_paint(ls, t, n - 1);
        assert(ls.take(n).drop_last() =~= ls.take(n - 1));
        assert(ls.take(n).last() == ls[n - 1]);
    }
}

proof fn lemma_depth_at(st: StateView, note: Option<Seq<char>>, n: int)
    requires
        0 <= n <= line_total(st, note),
    ensures
        35 + depth(prompt_lines(st, note).take(n)) == baseline(st, n),
    decreases n,
{
    let ls = prompt_lines(st, note);
    lemma_prompt_lines(st, note);
    if n > 0 {
        lemma_depth_at(st, note, n - 1);
        assert(ls.take(n).drop_last() =~= ls.take(n - 1));
        assert(ls.take(n).last() == ls[n - 1]);
    }
}

proof fn lemma_shows_lines(st: StateView, note: Option<Seq<char>>, t: Theme)
    ensures
        line_paint(prompt_lines(st, note), t).len() == line_total(st, note),
        shows_lines(line_paint(prompt_lines(st, note), t), st, note, t),
        35 + depth(prompt_lines(st, note)) == baseline(st, line_total(st, note)),
{
    let ls = prompt_lines(st, note);
    lemma_prompt_lines(st, note);
    lemma_line_paint(ls, t, ls.len() as int);
    assert(ls.take(ls.len() as int) =~= ls);
    lemma_depth_at(st, note, ls.len() as int);
    let p = line_paint(ls, t);
    let a = one_if(st.title);
    let b = a + body(st).len();
    let c = b + one_if(st.error);
    if st.title is Some {
        lemma_depth_at(st, note, 0);
    }
    assert forall|i: int| a <= i < b implies #[trigger] p[i] == at_left(
        body(st)[i - a],
        baseline(st, i),
        Face::Small,
        t.fg,
    ) by {
        lemma_depth_at(st, note, i);
        assert(ls[i] == (body(st)[i - a], Role::Body));
    }
    if st.error is Some {
        lemma_depth_at(st, note, b);
    }
    if note is Some {
        lemma_depth_at(st, note, c);
    }
}

/// A window that puts a question shows everything there is to read: the title, each line of the
/// description and the error, exactly, in this order, one below the other, and after them the
/// hint and nothing else.
pub proof fn law_a_question_shows_what_it_is_about(
    st: StateView,
    one_button: bool,
    height: int,
    t: Theme,
)
    ensures
        ({
            let p = confirm_picture(st, one_button, height, t);
            &&& p.len() == one_if(st.title) + body(st).len() + one_if(st.error) + 1
            &&& shows_lines(p, st, None, t)
            &&& p.last() == at_left(
                if one_button {
                    "enter  dismiss"@
                } else {
                    "enter  accept        n  decline        esc  cancel"@
                },
                height - 12,
                Face::Tiny,
                t.dim,
            )
        }),
{
    lemma_shows_lines(st, None, t);
    let q = line_paint(prompt_lines(st, None), t);
    let p = confirm_picture(st, one_button, height, t);
    assert forall|i: int| 0 <= i < q.len() implies p[i] == #[trigger] q[i] by {}
    let a = one_if(st.title);
    let b = a + body(st).len();
    assert forall|i: int| a <= i < b implies #[trigger] p[i] == at_left(
        body(st)[i - a],
        baseline(st, i),
        Face::Small,
        t.fg,
    ) by {
        assert(p[i] == q[i]);
    }
}

/// In a window of the height it needs, everything lies above the hint.
pub proof fn law_the_hint_lies_below_everything(
    st: StateView,
    note: Option<Seq<char>>,
    repeating: bool,
    entered: nat,
    label_width: int,
    count_width: int,
    stride: int,
    one_button: bool,
    t: Theme,
    i: int,
)
    ensures
        ({
            let height = height_needed(prompt_lines(st, None), false);
            let p = confirm_picture(st, one_button, height, t);
            0 <= i < p.len() - 1 ==> p[i] is Text && p[i]->Text_y < p.last()->Text_y
        }),
        ({
            let height = height_needed(prompt_lines(st, note), true);
            let p = pin_picture(
                st,
                note,
                repeating,
                entered,
                label_width,
                count_width,
                stride,
                height,
                t,
            );
            0 <= i < p.len() - 1 ==> match p[i] {
                PaintView::Text { y, .. } => y < p.last()->Text_y,
                PaintView::Strip { y, height, .. } => y + height <= p.last()->Text_y,
            }
        }),
{
    let plain = prompt_lines(st, None);
    lemma_line_paint(plain, t, plain.len() as int);
    assert(plain.take(plain.len() as int) =~= plain);
    lemma_prompt_lines(st, None);
    lemma_depth_at(st, None, plain.len() as int);
    if 0 <= i < plain.len() {
        lemma_depth_at(st, None, i);
        assert(confirm_picture(st, one_button, height_needed(plain, false), t)[i] == line_paint(
            plain,
            t,
        )[i]);
    }
    let ls = prompt_lines(st, note);
    lemma_line_paint(ls, t, ls.len() as int);
    assert(ls.take(ls.len() as int) =~= ls);
    lemma_prompt_lines(st, note);
    lemma_depth_at(st, note, ls.len() as int);
    let height = height_needed(ls, true);
    let p = pin_picture(
        st,
        note,
        repeating,
        entered,
        label_width,
        count_width,
        stride,
        height,
        t,
    );
    if 0 <= i < ls.len() {
        lemma_depth_at(st, note, i);
        assert(p[i] == line_paint(ls, t)[i]);
    }
}

/// A window that asks for a passphrase shows everything there is to read in the same way, the
/// note about the previous try after the error. Below that lie the label of the field, the strip
/// that is the field, a mark for each character, their number, and the hint.
pub proof fn law_a_passphrase_window_shows_its_prompt(
    st: StateView,
    note: Option<Seq<char>>,
    repeating: bool,
    entered: nat,
    label_width: int,
    count_width: int,
    stride: int,
    height: int,
    t: Theme,
)
    ensures
        ({
            let p = pin_picture(
                st,
                note,
                repeating,
                entered,
                label_width,
                count_width,
                stride,
                height,
                t,
            );
            let n = line_total(st, note);
            let y = baseline(st, n);
            &&& p.len() == n + 5
            &&& shows_lines(p, st, note, t)
            &&& p[n] == at_left(
                if repeating {
                    if st.repeat is Some {
                        st.repeat->0
                    } else {
                        "Repeat:"@
                    }
                } else if st.prompt is Some {
                    st.prompt->0
                } else {
                    "Passphrase:"@
                },
                y,
                Face::Small,
                t.dim,
            )
            &&& p[n + 1] == (PaintView::Strip {
                x: 20 + label_width + 12,
                y: y - 15,
                width: stride - 20 - (20 + label_width + 12),
                height: 22,
                colour: t.field,
            })
            &&& p[n + 2] == (PaintView::Text {
                text: marks(entered),
                x: 20 + label_width + 12 + 8,
                y,
                face: Face::Small,
                colour: t.fg,
            })
            &&& p[n + 3] == (PaintView::Text {
                text: decimal(entered) + " characters"@,
                x: stride - 20 - count_width,
                y: y + 19,
                face: Face::Tiny,
                colour: t.dim,
            })
            &&& p[n + 4] == at_left(
                "enter  accept        esc  cancel        ctrl-u  clear"@,
                height - 12,
                Face::Tiny,
                t.dim,
            )
        }),
{
    lemma_shows_lines(st, note, t);
    let q = line_paint(prompt_lines(st, note), t);
    let p = pin_picture(
        st,
        note,
        repeating,
        entered,
        label_width,
        count_width,
        stride,
        height,
        t,
    );
    assert forall|i: int| 0 <= i < q.len() implies p[i] == #[trigger] q[i] by {}
    let a = one_if(st.title);
    let b = a + body(st).len();
    assert forall|i: int| a <= i < b implies #[trigger] p[i] == at_left(
        body(st)[i - a],
        baseline(st, i),
        Face::Small,
        t.fg,
    ) by {
        assert(p[i] == q[i]);
    }
}

/// The height of a window: room for each line, 50 pixels more for the field and its count, and
/// 68 around all that, but never less than 96.
pub proof fn law_the_height_of_a_window(st: StateView, note: Option<Seq<char>>)
    ensures
        ({
            let room = 30 * one_if(st.title) + 20 * (body(st).len() + one_if(st.error) + one_if(
                note,
            ));
            &&& height_needed(prompt_lines(st, note), true) == if room + 118 < 96 {
                96
            } else {
                room + 118
            }
            &&& height_needed(prompt_lines(st, note), false) == if room + 68 < 96 {
                96
            } else {
                room + 68
            }
        }),
{
    let ls = prompt_lines(st, note);
    lemma_prompt_lines(st, note);
    assert(ls.take(ls.len() as int) =~= ls);
    lemma_depth_at(st, note, ls.len() as int);
}

proof fn lemma_widest(widths: Seq<i32>)
    ensures
        widest(widths) >= 420,
        forall|i: int| 0 <= i < widths.len() ==> #[trigger] widths[i] + 40 <= widest(widths),
        widest(widths) == 420 || exists|i: int|
            0 <= i < widths.len() && #[trigger] widths[i] + 40 == widest(widths),
    decreases widths.len(),
{
    if widths.len() > 0 {
        let r = widths.drop_last();
        lemma_widest(r);
        assert forall|i: int| 0 <= i < widths.len() implies #[trigger] widths[i] + 40 <= widest(
            widths,
        ) by {
            if i < r.len() {
                assert(r[i] + 40 <= widest(r));
            }
        }
        if widest(widths) == widest(r) && widest(r) != 420 {
            let k = choose|i: int| 0 <= i < r.len() && #[trigger] r[i] + 40 == widest(r);
            assert(widths[k] + 40 == widest(widths));
        } else if widest(widths) != widest(r) {
            assert(widths[widths.len() - 1] + 40 == widest(widths));
        }
    }
}

/// The width of a window: every line fits with 20 pixels at either side unless the window is as
/// wide as one gets, and it is no wider than a line asks for, or than a window is at least.
pub proof fn law_the_width_of_a_window(widths: Seq<i32>)
    ensures
        420 <= width_needed(widths) <= 760,
        forall|i: int|
            0 <= i < widths.len() ==> #[trigger] widths[i] + 40 <= width_needed(widths)
                || width_needed(widths) == 760,
        width_needed(widths) == 420 || exists|i: int|
            0 <= i < widths.len() && #[trigger] widths[i] + 40 >= width_needed(widths),
{
    lemma_widest(widths);
    if width_needed(widths) != 420 {
        let k = choose|i: int| 0 <= i < widths.len() && #[trigger] widths[i] + 40 == widest(widths);
        assert(widths[k] + 40 >= width_needed(widths));
    }
}

/// The window is given another size exactly where a key changes how many lines it shows.
pub proof fn law_the_window_is_resized_with_its_lines(
    st: StateView,
    f: Fields,
    repeat_error: Option<Seq<char>>,
    stroke: StrokeView,
)
    requires
        f.sound(),
        f.on_repeat ==> f.note is None,
    ensures
        changes_size(f, stroke) <==> line_total(st, f.note) != line_total(
            st,
            pin_stroke(f, repeat_error, stroke).0.note,
        ),
        pin_stroke(f, repeat_error, stroke).0.on_repeat ==> pin_stroke(
            f,
            repeat_error,
            stroke,
        ).0.note is None,
{
}

/// A new outcome takes the place of the one before and none leaves it; and the deadline cancels
/// a prompt that has no outcome yet, and no other.
pub proof fn law_an_outcome_beats_the_deadline(before: Option<Outcome>, new: Outcome, late: bool)
    ensures
        latest(before, Some(new)) == Some(new),
        latest(before, None) == before,
        ended(Some(new), late) == Some(new),
        ended(None, true) == Some(Outcome::Cancelled),
        ended(None, false) is None,
{
}

/// Where a pixel lies in the rows of a window.
pub open spec fn pixel(row: int, col: int, stride: int) -> int {
    row * stride + col
}

proof fn lemma_pixel(row: int, col: int, stride: int, rows: int)
    requires
        0 <= row < rows,
        0 <= col < stride,
    ensures
        0 <= pixel(row, col, stride) < stride * rows,
        pixel(row, col, stride) / stride == row,
        pixel(row, col, stride) % stride == col,
{
    lemma_fundamental_div_mod_converse_div(pixel(row, col, stride), stride, row, col);
    lemma_fundamental_div_mod_converse_mod(pixel(row, col, stride), stride, row, col);
    assert(0 <= row * stride + col < stride * rows) by (nonlinear_arith)
        requires
            0 <= row < rows,
            0 <= col < stride,
    ;
}

/// An empty window is the background in a frame one pixel wide, and whatever lies past its last
/// row is the background.
pub proof fn law_an_empty_window_is_framed(
    len: nat,
    stride: int,
    height: int,
    t: Theme,
    row: int,
    col: int,
    past: int,
)
    requires
        0 <= row < height,
        0 <= col < stride,
        stride * height <= len,
        stride * height <= past,
    ensures
        cleared(len, stride, height, t).len() == len,
        cleared(len, stride, height, t)[pixel(row, col, stride)] == if row == 0 || row == height - 1
            || col == 0 || col == stride - 1 {
            t.border
        } else {
            t.bg
        },
        past < len ==> cleared(len, stride, height, t)[past] == t.bg,
{
    lemma_pixel(row, col, stride, height);
    assert(0 <= stride * height) by (nonlinear_arith)
        requires
            0 <= col < stride,
            0 <= row < height,
    ;
}

/// A strip colours the pixels from its left edge on, as wide and as high as it is, and no
/// others: what falls outside the rows is left out.
pub proof fn law_a_strip_colours_its_pixels(
    px: Seq<u32>,
    stride: int,
    rows: int,
    x: int,
    y: int,
    width: int,
    height: int,
    colour: u32,
    row: int,
    col: int,
    past: int,
)
    requires
        0 <= row < rows,
        0 <= col < stride,
        stride * rows <= px.len(),
        stride * rows <= past,
    ensures
        ({
            let after = with_strip(px, stride, rows, x, y, width, height, colour);
            &&& after.len() == px.len()
            &&& after[pixel(row, col, stride)] == if x <= col < x + width && y <= row < y + height {
                colour
            } else {
                px[pixel(row, col, stride)]
            }
            &&& past < px.len() ==> after[past] == px[past]
        }),
{
    lemma_pixel(row, col, stride, rows);
    assert(0 <= stride * rows) by (nonlinear_arith)
        requires
            0 <= col < stride,
            0 <= row < rows,
    ;
}

} // verus!
