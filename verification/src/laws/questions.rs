//! Questions and messages: what each key answers, and what a prompt waits for.

use vstd::prelude::*;

use crate::ui::entry::Fields;
use crate::ui::gui::{confirm_stroke, StrokeView};
use crate::ui::tty::{
    confirm_run, confirm_step, next_action, pin_step, Action, Event, Stage,
};
use crate::ui::Outcome;

verus! {

/// What a step of a question comes to, on the terminal.
pub open spec fn answers(one_button: bool, b: u8, outcome: Option<Outcome>) -> bool {
    confirm_step(Stage::Asking, one_button, Event::Key(b)) == (Stage::Asking, outcome)
}

/// Which keys answer a question on the terminal: `y` and Enter accept, `n` declines, Ctrl-C
/// cancels, a bare Escape cancels, and no other key does anything.
pub proof fn law_the_keys_of_a_question(b: u8)
    ensures
        b == 0x79 || b == 0x59 || b == 0x0d || b == 0x0a ==> answers(
            false,
            b,
            Some(Outcome::Accepted),
        ),
        b == 0x6e || b == 0x4e ==> answers(false, b, Some(Outcome::NotOk)),
        b == 0x03 ==> answers(false, b, Some(Outcome::Cancelled)),
        b != 0x79 && b != 0x59 && b != 0x0d && b != 0x0a && b != 0x6e && b != 0x4e && b != 0x03
            && b != 0x1b ==> answers(false, b, None),
        confirm_run(Stage::Asking, false, seq![Event::Key(0x1b), Event::More(false)]).1 == Some(
            Outcome::Cancelled,
        ),
{
    reveal_with_fuel(confirm_run, 3);
    let e = seq![Event::Key(0x1b), Event::More(false)];
    assert(e.drop_first()[0] == Event::More(false));
}

/// Which keys dismiss a message on the terminal: Enter, the space bar and a bare Escape, and no
/// other key does anything.
pub proof fn law_the_keys_of_a_message(b: u8)
    ensures
        b == 0x0d || b == 0x0a || b == 0x20 ==> answers(true, b, Some(Outcome::Accepted)),
        b != 0x0d && b != 0x0a && b != 0x20 && b != 0x1b ==> answers(true, b, None),
        confirm_run(Stage::Asking, true, seq![Event::Key(0x1b), Event::More(false)]).1 == Some(
            Outcome::Accepted,
        ),
{
    reveal_with_fuel(confirm_run, 3);
    let e = seq![Event::Key(0x1b), Event::More(false)];
    assert(e.drop_first()[0] == Event::More(false));
}

/// The deadline and a terminal that goes away cancel a question and a message.
pub proof fn law_a_question_can_run_out(one_button: bool)
    ensures
        confirm_step(Stage::Asking, one_button, Event::TimedOut).1 == Some(Outcome::Cancelled),
        confirm_step(Stage::Asking, one_button, Event::Closed).1 == Some(Outcome::Cancelled),
{
}

/// What answers a question in a window: Enter accepts, Escape and closing the window cancel, a
/// text that starts with `y` accepts and one that starts with `n` declines, and nothing else
/// does anything. With one button no text answers.
pub proof fn law_the_strokes_of_a_question(one_button: bool, t: Seq<char>)
    requires
        t.len() > 0,
        t[0] as u32 >= 0x20,
    ensures
        confirm_stroke(one_button, StrokeView::Enter) == Some(Outcome::Accepted),
        confirm_stroke(one_button, StrokeView::Escape) == Some(Outcome::Cancelled),
        confirm_stroke(one_button, StrokeView::Close) == Some(Outcome::Cancelled),
        confirm_stroke(one_button, StrokeView::Backspace) is None,
        confirm_stroke(true, StrokeView::Text(t)) is None,
        t[0] == 'y' || t[0] == 'Y' ==> confirm_stroke(false, StrokeView::Text(t)) == Some(
            Outcome::Accepted,
        ),
        t[0] == 'n' || t[0] == 'N' ==> confirm_stroke(false, StrokeView::Text(t)) == Some(
            Outcome::NotOk,
        ),
        t[0] != 'y' && t[0] != 'Y' && t[0] != 'n' && t[0] != 'N' ==> confirm_stroke(
            false,
            StrokeView::Text(t),
        ) is None,
{
}

/// Control characters answer nothing in a window.
pub proof fn law_control_characters_answer_nothing(one_button: bool, t: Seq<char>)
    requires
        forall|i: int| 0 <= i < t.len() ==> (#[trigger] t[i] as u32) < 0x20,
    ensures
        confirm_stroke(one_button, StrokeView::Text(t)) is None,
{
}

/// What is done on the terminal next: a prompt that is over reports how it ended. One that waits
/// for a key draws and asks; one that has seen an Escape looks whether more is waiting, drops
/// what is, and looks again, until nothing is.
pub proof fn law_what_a_prompt_waits_for(
    f: Fields,
    repeat_error: Option<Seq<char>>,
    one_button: bool,
    outcome: Outcome,
    stage: Stage,
)
    ensures
        next_action(stage, Some(outcome)) == Action::Finish(outcome),
        next_action(Stage::Asking, None) == Action::Ask,
        ({
            let escape = pin_step(Stage::Asking, f, repeat_error, Event::Key(0x1b));
            let more = pin_step(escape.0, f, repeat_error, Event::More(true));
            let drop = pin_step(more.0, f, repeat_error, Event::More(true));
            let dropped = pin_step(drop.0, f, repeat_error, Event::Discarded);
            let done = pin_step(dropped.0, f, repeat_error, Event::More(false));
            &&& escape.1 == f && more.1 == f && drop.1 == f && dropped.1 == f && done.1 == f
            &&& next_action(escape.0, escape.2) == Action::Probe
            &&& next_action(more.0, more.2) == Action::Probe
            &&& next_action(drop.0, drop.2) == Action::Discard
            &&& next_action(dropped.0, dropped.2) == Action::Probe
            &&& next_action(done.0, done.2) == Action::Ask
        }),
        ({
            let escape = confirm_step(Stage::Asking, one_button, Event::Key(0x1b));
            let more = confirm_step(escape.0, one_button, Event::More(true));
            let drop = confirm_step(more.0, one_button, Event::More(true));
            let dropped = confirm_step(drop.0, one_button, Event::Discarded);
            let done = confirm_step(dropped.0, one_button, Event::More(false));
            &&& next_action(escape.0, escape.1) == Action::Probe
            &&& next_action(more.0, more.1) == Action::Probe
            &&& next_action(drop.0, drop.1) == Action::Discard
            &&& next_action(dropped.0, dropped.1) == Action::Probe
            &&& next_action(done.0, done.1) == Action::Ask
        }),
{
}

/// While an escape sequence is being swallowed, nothing is typed and nothing is answered.
pub proof fn law_nothing_is_typed_while_a_sequence_is_swallowed(
    stage: Stage,
    f: Fields,
    repeat_error: Option<Seq<char>>,
    one_button: bool,
    event: Event,
)
    requires
        stage != Stage::Asking,
    ensures
        pin_step(stage, f, repeat_error, event).1 == f,
        pin_step(stage, f, repeat_error, event).2 is Some <==> stage == Stage::Escape && event
            == Event::More(false),
        confirm_step(stage, one_button, event).1 is Some <==> stage == Stage::Escape && event
            == Event::More(false),
{
}

} // verus!
