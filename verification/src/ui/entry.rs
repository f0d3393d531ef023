//! What the user has typed so far, whichever front-end they type into.

use vstd::prelude::*;
use vstd::utf8::{encode_scalar, encode_utf8, is_continuation_byte};

use crate::secret::{char_count, clipped, continues, without_last_char, zeros, Secret};
use crate::text::opt;
use crate::unicode::{lemma_encode_last, lemma_one_char};

verus! {

/// The contents of one buffer.
#[verifier::ext_equal]
pub struct Held {
    /// The bytes in it.
    pub bytes: Seq<u8>,
    /// The most it can take.
    pub cap: nat,
    /// Whether it is locked in RAM.
    pub locked: bool,
}

/// The contents of a buffer.
pub open spec fn held_by(s: &Secret) -> Held {
    Held { bytes: s.bytes(), cap: s.region().len(), locked: s.pinned() }
}

/// What has been typed, as the contracts speak of it.
#[verifier::ext_equal]
pub struct Fields {
    /// The passphrase.
    pub first: Held,
    /// Its repetition, where one was asked for.
    pub again: Option<Held>,
    /// Whether the repetition is being typed now.
    pub on_repeat: bool,
    /// What the user is told about the previous try.
    pub note: Option<Seq<char>>,
    /// Whether the last byte belonged to a character that was turned away.
    pub refused: bool,
}

impl Fields {
    /// The buffer that is being typed into.
    pub open spec fn target(self) -> Held {
        if self.on_repeat {
            self.again->0
        } else {
            self.first
        }
    }

    /// The same, with other bytes in the buffer that is being typed into.
    pub open spec fn with_target(self, bytes: Seq<u8>) -> Fields {
        if self.on_repeat {
            Fields { again: Some(Held { bytes, ..self.again->0 }), ..self }
        } else {
            Fields { first: Held { bytes, ..self.first }, ..self }
        }
    }

    /// Only a repetition that was asked for can be typed.
    pub open spec fn sound(self) -> bool {
        self.on_repeat ==> self.again is Some
    }
}

/// What a buffer holds after a byte of text was typed, and whether the byte was turned away.
///
/// A new character is only started if even the longest UTF-8 encoding would fit, and the
/// bytes that continue a character share its fate, so the buffer can never end on half a
/// letter.
pub open spec fn typed(held: Held, refused: bool, b: u8) -> (Seq<u8>, bool) {
    if is_continuation_byte(b) {
        if refused {
            (held.bytes, true)
        } else {
            (clipped(held.bytes.push(b), held.cap), false)
        }
    } else if held.bytes.len() + 4 <= held.cap {
        (held.bytes.push(b), false)
    } else {
        (held.bytes, true)
    }
}

/// What is there after a byte of text was typed.
pub open spec fn after_byte(f: Fields, b: u8) -> Fields {
    let (bytes, refused) = typed(f.target(), f.refused, b);
    Fields { refused, ..f.with_target(bytes) }
}

/// What is there after a whole piece of text was typed: all of it, or nothing where it does
/// not fit.
pub open spec fn after_text(f: Fields, text: Seq<u8>) -> Fields {
    if f.target().bytes.len() + text.len() <= f.target().cap {
        f.with_target(f.target().bytes + text)
    } else {
        f
    }
}

/// What is there after the last character was taken back.
pub open spec fn after_backspace(f: Fields) -> Fields {
    Fields { refused: false, ..f.with_target(without_last_char(f.target().bytes)) }
}

/// What is there after the field was cleared.
pub open spec fn after_clear(f: Fields) -> Fields {
    Fields { refused: false, ..f.with_target(Seq::empty()) }
}

/// What the user is told when the two entries differ.
pub open spec fn mismatch_note(repeat_error: Option<Seq<char>>) -> Seq<char> {
    match repeat_error {
        Some(s) => s,
        None => "the two entries do not match"@,
    }
}

/// What is there after Enter, and whether the prompt is over.
pub open spec fn after_accept(f: Fields, repeat_error: Option<Seq<char>>) -> (Fields, bool) {
    if f.again is None {
        (f, true)
    } else if !f.on_repeat {
        (Fields { on_repeat: true, note: None, refused: false, ..f }, false)
    } else if f.again->0.bytes == f.first.bytes {
        (f, true)
    } else {
        (
            Fields {
                first: Held { bytes: Seq::empty(), ..f.first },
                again: Some(Held { bytes: Seq::empty(), ..f.again->0 }),
                on_repeat: false,
                note: Some(mismatch_note(repeat_error)),
                refused: false,
            },
            false,
        )
    }
}

/// The typing of one passphrase. The passphrase itself stays with the caller, who passes its
/// buffer along with every keystroke; the repetition, where one was asked for, is held here
/// in a buffer locked like the first: a repetition in ordinary memory would undo the point of
/// the one that does not live there.
pub struct Entry<'a> {
    confirm: Option<Secret<'a>>,
    on_repeat: bool,
    note: Option<String>,
    refused: bool,
}

impl<'a> Entry<'a> {
    /// The buffer of the repetition.
    pub closed spec fn again(&self) -> Option<Secret<'a>> {
        self.confirm
    }

    /// Whether the repetition is being typed.
    pub closed spec fn repeating(&self) -> bool {
        self.on_repeat
    }

    /// What the user is told.
    pub closed spec fn remark(&self) -> Option<Seq<char>> {
        match self.note {
            Some(n) => Some(n@),
            None => None,
        }
    }

    /// Whether a character is being turned away.
    pub closed spec fn refusing(&self) -> bool {
        self.refused
    }

    /// What has been typed, the passphrase being in `into`.
    pub open spec fn fields(&self, into: &Secret) -> Fields {
        Fields {
            first: held_by(into),
            again: match self.again() {
                Some(c) => Some(held_by(&c)),
                None => None,
            },
            on_repeat: self.repeating(),
            note: self.remark(),
            refused: self.refusing(),
        }
    }

    /// What holds of every entry.
    pub open spec fn wf(&self) -> bool {
        &&& self.again() matches Some(c) ==> c.wf()
        &&& self.repeating() ==> self.again() is Some
    }

    /// Nothing typed yet. `confirm` is the buffer of the repetition, where one is asked for.
    pub fn new(confirm: Option<Secret<'a>>) -> (e: Self)
        requires
            confirm matches Some(c) ==> c.wf(),
        ensures
            e.wf(),
            e.again() == confirm,
            !e.repeating(),
            e.remark() is None,
            !e.refusing(),
    {
        Entry { confirm, on_repeat: false, note: None, refused: false }
    }

    /// Whether the repetition is being typed.
    pub fn is_repeating(&self) -> (r: bool)
        ensures
            r == self.repeating(),
    {
        self.on_repeat
    }

    /// Whether a repetition was asked for.
    pub fn asks_twice(&self) -> (r: bool)
        ensures
            r == self.again() is Some,
    {
        self.confirm.is_some()
    }

    /// What the user is told about the previous try.
    pub fn note(&self) -> (r: Option<&str>)
        ensures
            crate::text::opt_str(r) == self.remark(),
    {
        match &self.note {
            Some(n) => Some(n.as_str()),
            None => None,
        }
    }

    /// How many characters the field that is being typed into holds.
    pub fn entered(&self, into: &Secret) -> (n: usize)
        requires
            self.wf(),
            into.wf(),
        ensures
            n == char_count(self.fields(into).target().bytes),
    {
        if self.on_repeat {
            match &self.confirm {
                Some(c) => c.chars(),
                None => 0,
            }
        } else {
            into.chars()
        }
    }

    /// Types one byte of text.
    pub fn push_byte(&mut self, into: &mut Secret, b: u8)
        requires
            old(self).wf(),
            old(into).wf(),
        ensures
            final(self).wf(),
            final(into).wf(),
            final(self).fields(final(into)) == after_byte(old(self).fields(old(into)), b),
    {
        let refused = self.refused;
        if self.on_repeat {
            match &mut self.confirm {
                Some(c) => {
                    self.refused = type_byte(c, refused, b);
                },
                None => {},
            }
        } else {
            self.refused = type_byte(into, refused, b);
        }
    }

    /// Types a whole piece of text, if it fits.
    pub fn push_text(&mut self, into: &mut Secret, text: &str)
        requires
            old(self).wf(),
            old(into).wf(),
        ensures
            final(self).wf(),
            final(into).wf(),
            final(self).fields(final(into)) == after_text(
                old(self).fields(old(into)),
                encode_utf8(text@),
            ),
    {
        if self.on_repeat {
            match &mut self.confirm {
                Some(c) => type_text(c, text),
                None => {},
            }
        } else {
            type_text(into, text);
        }
    }

    /// Takes the last character back.
    pub fn backspace(&mut self, into: &mut Secret)
        requires
            old(self).wf(),
            old(into).wf(),
        ensures
            final(self).wf(),
            final(into).wf(),
            final(self).fields(final(into)) == after_backspace(old(self).fields(old(into))),
    {
        self.refused = false;
        if self.on_repeat {
            match &mut self.confirm {
                Some(c) => c.pop_char(),
                None => {},
            }
        } else {
            into.pop_char();
        }
    }

    /// Clears the field that is being typed into.
    pub fn clear_entry(&mut self, into: &mut Secret)
        requires
            old(self).wf(),
            old(into).wf(),
        ensures
            final(self).wf(),
            final(into).wf(),
            final(self).fields(final(into)) == after_clear(old(self).fields(old(into))),
    {
        self.refused = false;
        if self.on_repeat {
            match &mut self.confirm {
                Some(c) => c.clear(),
                None => {},
            }
        } else {
            into.clear();
        }
    }

    /// Enter. Returns whether the prompt is over: it is when no repetition was asked for, or
    /// when the repetition agrees. Where it does not, both buffers are wiped and the user
    /// starts again.
    pub fn accept(&mut self, into: &mut Secret, repeat_error: &Option<String>) -> (over: bool)
        requires
            old(self).wf(),
            old(into).wf(),
        ensures
            final(self).wf(),
            final(into).wf(),
            (final(self).fields(final(into)), over) == after_accept(
                old(self).fields(old(into)),
                opt(*repeat_error),
            ),
            old(self).repeating() && !over ==> {
                &&& final(into).region() == zeros(old(into).region().len())
                &&& final(self).again() matches Some(c) && c.region() == zeros(c.region().len())
            },
    {
        match &mut self.confirm {
            None => true,
            Some(c) => {
                if !self.on_repeat {
                    self.on_repeat = true;
                    self.note = None;
                    self.refused = false;
                    return false;
                }
                // Constant time, because the comparison is between a passphrase and its
                // confirmation and a timing difference would leak how much of the two agree.
                if into.eq_constant_time(c) {
                    return true;
                }
                self.note = Some(
                    match repeat_error {
                        Some(s) => s.clone(),
                        None => "the two entries do not match".to_string(),
                    },
                );
                into.clear();
                c.clear();
                self.on_repeat = false;
                self.refused = false;
                false
            },
        }
    }
}

/// Types a piece of text into a buffer, if it fits.
fn type_text(target: &mut Secret, text: &str)
    requires
        old(target).wf(),
    ensures
        final(target).wf(),
        final(target).region().len() == old(target).region().len(),
        final(target).pinned() == old(target).pinned(),
        final(target).bytes() == if old(target).bytes().len() + encode_utf8(text@).len() <= old(
            target,
        ).region().len() {
            old(target).bytes() + encode_utf8(text@)
        } else {
            old(target).bytes()
        },
{
    let bytes = text.as_bytes();
    let cap = target.capacity();
    let len = target.len();
    if bytes.len() <= cap - len {
        target.push(bytes);
    }
}

/// Types one byte into a buffer.
fn type_byte(target: &mut Secret, refused: bool, b: u8) -> (r: bool)
    requires
        old(target).wf(),
    ensures
        final(target).wf(),
        final(target).region().len() == old(target).region().len(),
        final(target).pinned() == old(target).pinned(),
        (final(target).bytes(), r) == typed(
            held_by(old(target)),
            refused,
            b,
        ),
{
    // `Secret::push` truncates in silence and documents that the front-end stops before the
    // capacity — this is where that promise is kept.
    let ghost before = target.bytes();
    assert(before + [b]@ =~= before.push(b));
    if continues(b) {
        if refused {
            return true;
        }
        target.push(&[b]);
        false
    } else {
        let cap = target.capacity();
        if cap >= 4 && target.len() <= cap - 4 {
            target.push(&[b]);
            false
        } else {
            true
        }
    }
}

/// The buffer after `bytes` were typed into it one by one.
pub open spec fn typed_all(held: Held, refused: bool, bytes: Seq<u8>) -> (Seq<u8>, bool)
    decreases bytes.len(),
{
    if bytes.len() == 0 {
        (held.bytes, refused)
    } else {
        let (next, r) = typed(held, refused, bytes[0]);
        typed_all(Held { bytes: next, ..held }, r, bytes.drop_first())
    }
}

/// A character is typed whole or not at all: from its first byte to its last, the buffer
/// takes it where even the longest encoding would fit, and otherwise none of it.
pub proof fn law_a_character_is_whole_or_absent(held: Held, refused: bool, c: char)
    ensures
        typed_all(held, refused, encode_utf8(seq![c])) == if held.bytes.len() + 4 <= held.cap {
            (held.bytes + encode_utf8(seq![c]), false)
        } else {
            (held.bytes, true)
        },
{
    let e = encode_scalar(c as u32);
    lemma_one_char(c);
    let rest = e.drop_first();
    assert forall|i: int| 0 <= i < rest.len() implies is_continuation_byte(#[trigger] rest[i]) by {
        assert(rest[i] == e[i + 1]);
    }
    if held.bytes.len() + 4 <= held.cap {
        let next = Held { bytes: held.bytes.push(e[0]), ..held };
        lemma_continuation_taken(next, rest);
        assert(held.bytes + e =~= held.bytes.push(e[0]) + rest);
    } else {
        lemma_continuation_refused(held, rest);
    }
}

proof fn lemma_continuation_taken(held: Held, rest: Seq<u8>)
    requires
        held.bytes.len() + rest.len() <= held.cap,
        forall|i: int| 0 <= i < rest.len() ==> is_continuation_byte(#[trigger] rest[i]),
    ensures
        typed_all(held, false, rest) == (held.bytes + rest, false),
    decreases rest.len(),
{
    if rest.len() == 0 {
        assert(held.bytes + rest =~= held.bytes);
    } else {
        let next = Held { bytes: held.bytes.push(rest[0]), ..held };
        let r = rest.drop_first();
        assert forall|i: int| 0 <= i < r.len() implies is_continuation_byte(#[trigger] r[i]) by {
            assert(r[i] == rest[i + 1]);
        }
        lemma_continuation_taken(next, r);
        assert(held.bytes + rest =~= next.bytes + r);
    }
}

proof fn lemma_continuation_refused(held: Held, rest: Seq<u8>)
    requires
        forall|i: int| 0 <= i < rest.len() ==> is_continuation_byte(#[trigger] rest[i]),
    ensures
        typed_all(held, true, rest) == (held.bytes, true),
    decreases rest.len(),
{
    if rest.len() > 0 {
        let r = rest.drop_first();
        assert forall|i: int| 0 <= i < r.len() implies is_continuation_byte(#[trigger] r[i]) by {
            assert(r[i] == rest[i + 1]);
        }
        lemma_continuation_refused(held, r);
    }
}

/// A text takes at most four bytes for each of its characters.
proof fn lemma_four_bytes_each(s: Seq<char>)
    ensures
        encode_utf8(s).len() <= 4 * s.len(),
    decreases s.len(),
{
    if s.len() > 0 {
        lemma_four_bytes_each(s.drop_last());
        lemma_encode_last(s);
        lemma_one_char(s.last());
    }
}

/// A buffer of four bytes for each of `n` characters takes `n` characters, whichever they
/// are: while it holds a text of fewer, the next one is taken.
pub proof fn law_room_for_every_character(
    held: Held,
    n: nat,
    s: Seq<char>,
    refused: bool,
    c: char,
)
    requires
        held.bytes == encode_utf8(s),
        held.cap == 4 * n,
        s.len() < n,
    ensures
        typed_all(held, refused, encode_utf8(seq![c])) == (encode_utf8(s.push(c)), false),
{
    lemma_four_bytes_each(s);
    law_a_character_is_whole_or_absent(held, refused, c);
    lemma_one_char(c);
    lemma_encode_last(s.push(c));
    assert(s.push(c).drop_last() =~= s);
}

/// Where a repetition was asked for, the prompt is over only when the two entries agree.
pub proof fn law_a_repetition_must_agree(f: Fields, repeat_error: Option<Seq<char>>)
    requires
        f.sound(),
        f.again is Some,
        after_accept(f, repeat_error).1,
    ensures
        f.on_repeat,
        f.again->0.bytes == f.first.bytes,
        after_accept(f, repeat_error).0 == f,
{
}

} // verus!
