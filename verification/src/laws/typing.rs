//! Typing a passphrase: what each key does to the fields, on the terminal and in the window.

use vstd::prelude::*;
use vstd::utf8::{encode_utf8, is_continuation_byte};

use crate::secret::{
    char_count, clipped, law_backspace_removes_a_character, law_backspace_undoes_a_character,
    law_counts_characters, without_last_char, zeros,
};
use crate::ui::entry::{law_a_character_is_whole_or_absent, Fields, Held};
use crate::ui::gui::{pin_stroke, StrokeView};
use crate::ui::tty::{
    keys, lemma_printable, lemma_run_join, lemma_text_keys, marks, pin_run, pin_step, printable,
    Event, Stage,
};
use crate::ui::Outcome;
use crate::unicode::{lemma_encode_join, lemma_one_char};

verus! {

/// Whether the field that is being typed into, the passphrase or its repetition, holds these
/// bytes.
pub open spec fn typed_field_holds(f: Fields, bytes: Seq<u8>) -> bool {
    if f.on_repeat {
        f.again matches Some(h) && h.bytes == bytes
    } else {
        f.first.bytes == bytes
    }
}

/// How many bytes the field that is being typed into still takes.
pub open spec fn room(f: Fields) -> int {
    if f.on_repeat {
        f.again->0.cap - f.again->0.bytes.len()
    } else {
        f.first.cap - f.first.bytes.len()
    }
}

/// The same buffer, whatever it holds.
pub open spec fn same_buffer(a: Held, b: Held) -> bool {
    a.cap == b.cap && a.locked == b.locked
}

/// Whether nothing but the contents of the field that is being typed into differs.
pub open spec fn rest_is_same(f: Fields, g: Fields) -> bool {
    &&& g.on_repeat == f.on_repeat
    &&& g.note == f.note
    &&& if f.on_repeat {
        &&& g.first == f.first
        &&& f.again is Some && g.again is Some && same_buffer(f.again->0, g.again->0)
    } else {
        &&& g.again == f.again
        &&& same_buffer(f.first, g.first)
    }
}

/// A step after which the prompt goes on, the field that is being typed into holds `bytes`, and
/// nothing else differs.
pub open spec fn went_on(
    f: Fields,
    bytes: Seq<u8>,
    after: (Stage, Fields, Option<Outcome>),
) -> bool {
    &&& after.0 == Stage::Asking
    &&& typed_field_holds(after.1, bytes)
    &&& rest_is_same(f, after.1)
    &&& after.2 is None
}

/// The same of a window.
pub open spec fn stayed_open(f: Fields, bytes: Seq<u8>, after: (Fields, Option<Outcome>)) -> bool {
    &&& typed_field_holds(after.0, bytes)
    &&& rest_is_same(f, after.0)
    &&& after.1 is None
}

/// Backspace takes the last character out of the field that is being typed into, be it the
/// passphrase or its repetition, and leaves the other as it is.
pub proof fn law_backspace_works_in_either_field(
    f: Fields,
    repeat_error: Option<Seq<char>>,
    s: Seq<char>,
)
    requires
        f.sound(),
        s.len() > 0,
        typed_field_holds(f, encode_utf8(s)),
    ensures
        ({
            let less = encode_utf8(s.drop_last());
            &&& went_on(f, less, pin_step(Stage::Asking, f, repeat_error, Event::Key(0x7f)))
            &&& went_on(f, less, pin_step(Stage::Asking, f, repeat_error, Event::Key(0x08)))
            &&& stayed_open(f, less, pin_stroke(f, repeat_error, StrokeView::Backspace))
        }),
{
    law_backspace_removes_a_character(s);
}

/// Backspace in an empty field does nothing.
pub proof fn law_backspace_in_an_empty_field_is_harmless(
    f: Fields,
    repeat_error: Option<Seq<char>>,
)
    requires
        f.sound(),
        typed_field_holds(f, Seq::empty()),
    ensures
        went_on(
            f,
            Seq::empty(),
            pin_step(Stage::Asking, f, repeat_error, Event::Key(0x7f)),
        ),
        went_on(
            f,
            Seq::empty(),
            pin_step(Stage::Asking, f, repeat_error, Event::Key(0x08)),
        ),
        stayed_open(f, Seq::empty(), pin_stroke(f, repeat_error, StrokeView::Backspace)),
{
}

/// A character is added at the end of the field that is being typed into, whatever it holds,
/// where even the longest encoding would fit; where it would not, the field keeps what it
/// holds.
pub proof fn law_a_typed_character_is_appended(
    f: Fields,
    repeat_error: Option<Seq<char>>,
    held: Seq<u8>,
    c: char,
)
    requires
        f.sound(),
        typed_field_holds(f, held),
        printable(c),
    ensures
        room(f) >= 4 ==> went_on(
            f,
            held + encode_utf8(seq![c]),
            pin_run(Stage::Asking, f, repeat_error, keys(encode_utf8(seq![c]))),
        ),
        room(f) < 4 ==> went_on(
            f,
            held,
            pin_run(Stage::Asking, f, repeat_error, keys(encode_utf8(seq![c]))),
        ),
{
    lemma_printable(c);
    lemma_text_keys(f, repeat_error, encode_utf8(seq![c]));
    let h = if f.on_repeat {
        f.again->0
    } else {
        f.first
    };
    assert(h == f.target());
    law_a_character_is_whole_or_absent(h, f.refused, c);
}

/// In a window a text is added at the end of the field that is being typed into, whatever it
/// holds, where it fits; where it does not, the field keeps what it holds.
pub proof fn law_typed_text_is_appended(
    f: Fields,
    repeat_error: Option<Seq<char>>,
    held: Seq<u8>,
    t: Seq<char>,
)
    requires
        f.sound(),
        typed_field_holds(f, held),
        exists|i: int| 0 <= i < t.len() && #[trigger] t[i] as u32 >= 0x20,
    ensures
        encode_utf8(t).len() <= room(f) ==> stayed_open(
            f,
            held + encode_utf8(t),
            pin_stroke(f, repeat_error, StrokeView::Text(t)),
        ),
        encode_utf8(t).len() > room(f) ==> stayed_open(
            f,
            held,
            pin_stroke(f, repeat_error, StrokeView::Text(t)),
        ),
        pin_stroke(f, repeat_error, StrokeView::Text(t)).0.refused == f.refused,
{
}

/// Typing a character and taking it back leaves the field that is being typed into as it was,
/// whatever it held.
pub proof fn law_backspace_undoes_a_keypress(
    f: Fields,
    repeat_error: Option<Seq<char>>,
    held: Seq<u8>,
    c: char,
)
    requires
        f.sound(),
        typed_field_holds(f, held),
        printable(c),
        room(f) >= 4,
    ensures
        went_on(
            f,
            held,
            pin_run(
                Stage::Asking,
                f,
                repeat_error,
                keys(encode_utf8(seq![c])) + seq![Event::Key(0x7f)],
            ),
        ),
        ({
            let typed = pin_stroke(f, repeat_error, StrokeView::Text(seq![c])).0;
            stayed_open(f, held, pin_stroke(typed, repeat_error, StrokeView::Backspace))
        }),
{
    law_a_typed_character_is_appended(f, repeat_error, held, c);
    law_backspace_undoes_a_character(held, c);
    let ks = keys(encode_utf8(seq![c]));
    let back = seq![Event::Key(0x7f)];
    lemma_run_join(Stage::Asking, f, repeat_error, ks, back);
    reveal_with_fuel(pin_run, 2);
    assert(back.drop_first() =~= Seq::<Event>::empty());
    assert(seq![c][0] == c);
    law_typed_text_is_appended(f, repeat_error, held, seq![c]);
    lemma_one_char(c);
}

/// Ctrl-U empties the field that is being typed into, and leaves the other as it is.
pub proof fn law_clearing_empties_the_field(f: Fields, repeat_error: Option<Seq<char>>)
    requires
        f.sound(),
    ensures
        went_on(
            f,
            Seq::empty(),
            pin_step(Stage::Asking, f, repeat_error, Event::Key(0x15)),
        ),
        stayed_open(
            f,
            Seq::empty(),
            pin_stroke(f, repeat_error, StrokeView::Text(seq!['\u{15}'])),
        ),
{
    let t = seq!['\u{15}'];
    assert(t[0] == '\u{15}');
    assert(t.contains('\u{15}'));
}

/// A control character that means nothing changes nothing.
pub proof fn law_other_control_characters_do_nothing(
    f: Fields,
    repeat_error: Option<Seq<char>>,
    b: u8,
    t: Seq<char>,
)
    requires
        b < 0x20,
        b != 0x0d && b != 0x0a && b != 0x03 && b != 0x1b && b != 0x08 && b != 0x15,
        forall|i: int| 0 <= i < t.len() ==> (#[trigger] t[i] as u32) < 0x20 && t[i] != '\u{15}',
    ensures
        pin_step(Stage::Asking, f, repeat_error, Event::Key(b)) == (
            Stage::Asking,
            f,
            None::<Outcome>,
        ),
        pin_stroke(f, repeat_error, StrokeView::Text(t)) == (f, None::<Outcome>),
{
}

/// Ctrl-C, the deadline and a terminal that goes away cancel a prompt on a terminal; closing
/// the window and Escape cancel one in a window. What was typed is not touched.
pub proof fn law_a_prompt_can_be_cancelled(f: Fields, repeat_error: Option<Seq<char>>)
    ensures
        pin_step(Stage::Asking, f, repeat_error, Event::Key(0x03)).2 == Some(Outcome::Cancelled),
        pin_step(Stage::Asking, f, repeat_error, Event::TimedOut).2 == Some(Outcome::Cancelled),
        pin_step(Stage::Asking, f, repeat_error, Event::Closed).2 == Some(Outcome::Cancelled),
        pin_step(Stage::Asking, f, repeat_error, Event::Key(0x03)).1 == f,
        pin_step(Stage::Asking, f, repeat_error, Event::TimedOut).1 == f,
        pin_step(Stage::Asking, f, repeat_error, Event::Closed).1 == f,
        pin_stroke(f, repeat_error, StrokeView::Close) == (f, Some(Outcome::Cancelled)),
        pin_stroke(f, repeat_error, StrokeView::Escape) == (f, Some(Outcome::Cancelled)),
{
}

/// What Enter came to, whichever way it was pressed.
pub open spec fn entered_as(
    f: Fields,
    repeat_error: Option<Seq<char>>,
    g: Fields,
    outcome: Option<Outcome>,
) -> bool {
    &&& pin_step(Stage::Asking, f, repeat_error, Event::Key(0x0d)) == (Stage::Asking, g, outcome)
    &&& pin_step(Stage::Asking, f, repeat_error, Event::Key(0x0a)) == (Stage::Asking, g, outcome)
    &&& pin_stroke(f, repeat_error, StrokeView::Enter) == (g, outcome)
}

/// Enter, where no repetition was asked for, ends the prompt with what was typed.
pub proof fn law_enter_accepts(f: Fields, repeat_error: Option<Seq<char>>)
    requires
        f.again is None,
    ensures
        entered_as(f, repeat_error, f, Some(Outcome::Accepted)),
{
}

/// Enter, where a repetition was asked for and the passphrase has been typed, goes on to the
/// repetition. What was typed stays, and the note about the previous try goes away.
pub proof fn law_enter_goes_on_to_the_repetition(f: Fields, repeat_error: Option<Seq<char>>)
    requires
        f.again is Some,
        !f.on_repeat,
    ensures
        entered_as(
            f,
            repeat_error,
            (Fields { on_repeat: true, note: None, refused: false, ..f }),
            None,
        ),
{
}

/// Enter after a repetition that agrees ends the prompt with what was typed.
pub proof fn law_a_repetition_that_agrees_is_accepted(
    f: Fields,
    repeat_error: Option<Seq<char>>,
)
    requires
        f.on_repeat,
        f.again is Some,
        f.again->0.bytes == f.first.bytes,
    ensures
        entered_as(f, repeat_error, f, Some(Outcome::Accepted)),
{
}

/// Enter after a repetition that does not agree empties both fields, starts over with the
/// passphrase, and tells the user so in the agent's words, or in plain ones.
pub proof fn law_a_repetition_that_differs_starts_over(
    f: Fields,
    repeat_error: Option<Seq<char>>,
)
    requires
        f.on_repeat,
        f.again is Some,
        f.again->0.bytes != f.first.bytes,
    ensures
        ({
            let (stage, g, outcome) = pin_step(
                Stage::Asking,
                f,
                repeat_error,
                Event::Key(0x0d),
            );
            &&& entered_as(f, repeat_error, g, None)
            &&& g.first.bytes.len() == 0 && same_buffer(f.first, g.first)
            &&& g.again matches Some(h) && h.bytes.len() == 0 && same_buffer(f.again->0, h)
            &&& !g.on_repeat
            &&& g.note == Some(
                if repeat_error is Some {
                    repeat_error->0
                } else {
                    "the two entries do not match"@
                },
            )
        }),
{
}

/// Typing the same text twice, with Enter after each, ends the prompt with that text; typing
/// two texts that differ never does.
pub proof fn law_a_passphrase_is_confirmed_by_typing_it_again(
    f: Fields,
    repeat_error: Option<Seq<char>>,
    s: Seq<char>,
    t: Seq<char>,
)
    requires
        !f.on_repeat,
        f.first.bytes.len() == 0,
        f.again matches Some(h) && h.bytes.len() == 0 && encode_utf8(t).len() <= h.cap,
        encode_utf8(s).len() <= f.first.cap,
        exists|i: int| 0 <= i < s.len() && #[trigger] s[i] as u32 >= 0x20,
        exists|i: int| 0 <= i < t.len() && #[trigger] t[i] as u32 >= 0x20,
    ensures
        ({
            let once = pin_stroke(f, repeat_error, StrokeView::Text(s)).0;
            let on = pin_stroke(once, repeat_error, StrokeView::Enter).0;
            let again = pin_stroke(on, repeat_error, StrokeView::Text(t)).0;
            let (g, outcome) = pin_stroke(again, repeat_error, StrokeView::Enter);
            &&& encode_utf8(s) == encode_utf8(t) ==> outcome == Some(Outcome::Accepted)
                && g.first.bytes == encode_utf8(s)
            &&& encode_utf8(s) != encode_utf8(t) ==> outcome is None && g.first.bytes.len() == 0
        }),
{
    law_typed_text_is_appended(f, repeat_error, f.first.bytes, s);
    let once = pin_stroke(f, repeat_error, StrokeView::Text(s)).0;
    assert(f.first.bytes + encode_utf8(s) =~= encode_utf8(s));
    law_enter_goes_on_to_the_repetition(once, repeat_error);
    let on = pin_stroke(once, repeat_error, StrokeView::Enter).0;
    law_typed_text_is_appended(on, repeat_error, on.again->0.bytes, t);
    assert(on.again->0.bytes + encode_utf8(t) =~= encode_utf8(t));
}

/// The mask has one mark for each character, up to 80 of them, and nothing but marks.
pub proof fn law_the_mask_has_a_mark_for_each_character(n: nat)
    ensures
        n <= 80 ==> marks(n).len() == n,
        n > 80 ==> marks(n).len() == 80,
        forall|i: int| 0 <= i < marks(n).len() ==> #[trigger] marks(n)[i] == '\u{2022}',
{
}

/// Each character that is typed makes the mask longer by one mark, until there are 80, however
/// many bytes the character takes; and each one taken back makes it shorter by one.
pub proof fn law_the_mask_grows_with_the_typing(
    f: Fields,
    repeat_error: Option<Seq<char>>,
    s: Seq<char>,
    c: char,
)
    requires
        f.sound(),
        typed_field_holds(f, encode_utf8(s)),
        s.len() < 80,
        printable(c),
        room(f) >= 4,
    ensures
        marks(char_count(encode_utf8(s))).len() == s.len(),
        ({
            let g = pin_run(Stage::Asking, f, repeat_error, keys(encode_utf8(seq![c]))).1;
            let back = pin_step(Stage::Asking, g, repeat_error, Event::Key(0x7f)).1;
            let bytes = |h: Fields|
                if f.on_repeat {
                    h.again->0.bytes
                } else {
                    h.first.bytes
                };
            &&& marks(char_count(bytes(g))).len() == s.len() + 1
            &&& marks(char_count(bytes(back))).len() == s.len()
        }),
{
    law_a_typed_character_is_appended(f, repeat_error, encode_utf8(s), c);
    lemma_encode_join(s, seq![c]);
    assert(s + seq![c] =~= s.push(c));
    law_counts_characters(s);
    law_counts_characters(s.push(c));
    let g = pin_run(Stage::Asking, f, repeat_error, keys(encode_utf8(seq![c]))).1;
    law_backspace_works_in_either_field(g, repeat_error, s.push(c));
    assert(s.push(c).drop_last() =~= s);
}

/// Only the bytes from 0x80 to 0xbf continue a character.
pub proof fn law_a_character_starts_at_any_other_byte(b: u8, before: Seq<u8>)
    ensures
        char_count(before.push(b)) == char_count(before) + if 0x80 <= b < 0xc0 {
            0int
        } else {
            1int
        },
{
    assert(before.push(b).drop_last() =~= before);
    assert(is_continuation_byte(b) <==> 0x80 <= b < 0xc0) by (bit_vector);
}

/// A byte that starts a character is taken where even the longest encoding would fit, and
/// turned away where it would not; the bytes that continue a character share its fate. A
/// character that was turned away is forgotten once anything is taken back or cleared.
pub proof fn law_a_byte_is_taken_or_turned_away(
    f: Fields,
    repeat_error: Option<Seq<char>>,
    held: Seq<u8>,
    b: u8,
)
    requires
        f.sound(),
        typed_field_holds(f, held),
        held.len() <= if f.on_repeat {
            f.again->0.cap
        } else {
            f.first.cap
        },
        b >= 0x20 && b != 0x7f,
    ensures
        ({
            let after = pin_step(Stage::Asking, f, repeat_error, Event::Key(b));
            let continues = 0x80 <= b < 0xc0;
            let taken = if continues {
                !f.refused && room(f) >= 1
            } else {
                room(f) >= 4
            };
            &&& taken ==> went_on(f, held.push(b), after)
            &&& !taken ==> went_on(f, held, after)
            &&& after.1.refused == if continues {
                f.refused
            } else {
                room(f) < 4
            }
        }),
        !pin_step(Stage::Asking, f, repeat_error, Event::Key(0x7f)).1.refused,
        !pin_step(Stage::Asking, f, repeat_error, Event::Key(0x15)).1.refused,
{
    assert(is_continuation_byte(b) <==> 0x80 <= b < 0xc0) by (bit_vector);
    if room(f) == 0 {
        assert(held.push(b).take(held.len() as int) =~= held);
    }
}

/// Backspace takes off the bytes at the end that continue a character and the one before them,
/// whatever the bytes are.
pub proof fn law_backspace_takes_one_start_and_what_continues_it(
    a: Seq<u8>,
    b: u8,
    rest: Seq<u8>,
)
    requires
        !(0x80 <= b < 0xc0) || a.len() == 0,
        forall|i: int| 0 <= i < rest.len() ==> 0x80 <= #[trigger] rest[i] < 0xc0,
    ensures
        without_last_char(a + seq![b] + rest) == a,
        without_last_char(Seq::empty()).len() == 0,
    decreases rest.len(),
{
    let s = a + seq![b] + rest;
    if rest.len() == 0 {
        assert(s =~= a.push(b));
        assert(s.last() == b);
        assert(is_continuation_byte(b) <==> 0x80 <= b < 0xc0) by (bit_vector);
        assert(s.drop_last() =~= a);
    } else {
        let c = rest.last();
        assert(0x80 <= rest[rest.len() - 1] < 0xc0);
        assert(is_continuation_byte(c) <==> 0x80 <= c < 0xc0) by (bit_vector);
        assert(s.last() == c);
        assert(s.drop_last() =~= a + seq![b] + rest.drop_last());
        law_backspace_takes_one_start_and_what_continues_it(a, b, rest.drop_last());
    }
}

/// What does not fit a buffer is cut off, and a wiped buffer holds zeros.
pub proof fn law_a_buffer_takes_what_fits(bytes: Seq<u8>, cap: nat, i: int)
    requires
        0 <= i < cap,
    ensures
        clipped(bytes, cap).len() == if bytes.len() <= cap {
            bytes.len()
        } else {
            cap
        },
        i < bytes.len() ==> clipped(bytes, cap)[i] == bytes[i],
        zeros(cap).len() == cap,
        zeros(cap)[i] == 0,
{
}

} // verus!
