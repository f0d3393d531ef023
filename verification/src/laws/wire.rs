//! The wire: how bytes are escaped, how a passphrase is cut into lines, and how lines are read.

use vstd::prelude::*;
use vstd::utf8::{
    decode_utf8_encode_utf8, encode_utf8, encode_utf8_decode_utf8,
    encode_utf8_valid_utf8, valid_utf8,
};

use crate::assuan::{
    decoded, encoded, entry, escaped, escaped_byte, fitting, lemma_fitting, lemma_line_feed,
    lemma_line_feed_is, line_read, line_size, secret_line, secret_lines,
    stripped, unescaped, with_replacements, LineError,
};

verus! {

/// Whether a byte is the hexadecimal digit that is worth `d`, capital or small.
pub open spec fn writes_digit(c: u8, d: int) -> bool {
    ||| 0 <= d < 10 && c == 0x30 + d
    ||| 10 <= d < 16 && c == 0x41 + (d - 10)
    ||| 10 <= d < 16 && c == 0x61 + (d - 10)
}

/// `%` and two hexadecimal digits stand for one byte, whichever case the digits are in, and
/// what follows is read on its own.
pub proof fn law_every_byte_has_an_escape(a: u8, b: u8, h: int, l: int, rest: Seq<u8>)
    requires
        writes_digit(a, h),
        writes_digit(b, l),
    ensures
        unescaped(seq![0x25u8, a, b] + rest) == seq![(16 * h + l) as u8] + unescaped(rest),
{
    let s = seq![0x25u8, a, b] + rest;
    assert(s.skip(3) =~= rest);
    assert(s[0] == 0x25 && s[1] == a && s[2] == b);
}

/// A `%` that two hexadecimal digits do not follow stands for itself, and so does every other
/// byte.
pub proof fn law_anything_else_stands_for_itself(c: u8, rest: Seq<u8>)
    requires
        c == 0x25 ==> rest.len() < 2 || (forall|d: int| !writes_digit(rest[0], d)) || (forall|
            d: int,
        |
            !writes_digit(rest[1], d)),
    ensures
        unescaped(seq![c] + rest) == seq![c] + unescaped(rest),
        unescaped(Seq::empty()).len() == 0,
{
    let s = seq![c] + rest;
    assert(s.drop_first() =~= rest);
    assert(s[0] == c);
    if rest.len() >= 2 {
        let x = rest[0];
        let y = rest[1];
        assert(s[1] == x && s[2] == y);
        assert(0x30 <= x <= 0x39 ==> writes_digit(x, x - 0x30));
        assert(0x41 <= x <= 0x46 ==> writes_digit(x, x - 0x41 + 10));
        assert(0x61 <= x <= 0x66 ==> writes_digit(x, x - 0x61 + 10));
        assert(0x30 <= y <= 0x39 ==> writes_digit(y, y - 0x30));
        assert(0x41 <= y <= 0x46 ==> writes_digit(y, y - 0x41 + 10));
        assert(0x61 <= y <= 0x66 ==> writes_digit(y, y - 0x61 + 10));
    }
}

/// Three bytes are escaped on the way out, and no other.
pub proof fn law_three_bytes_are_escaped(b: u8, rest: Seq<u8>)
    ensures
        escaped(Seq::empty()).len() == 0,
        escaped(seq![0x25u8] + rest) == seq![0x25u8, 0x32, 0x35] + escaped(rest),
        escaped(seq![0x0du8] + rest) == seq![0x25u8, 0x30, 0x44] + escaped(rest),
        escaped(seq![0x0au8] + rest) == seq![0x25u8, 0x30, 0x41] + escaped(rest),
        b != 0x25 && b != 0x0d && b != 0x0a ==> escaped(seq![b] + rest) == seq![b] + escaped(rest),
{
    assert((seq![0x25u8] + rest).drop_first() =~= rest);
    assert((seq![0x0du8] + rest).drop_first() =~= rest);
    assert((seq![0x0au8] + rest).drop_first() =~= rest);
    assert((seq![b] + rest).drop_first() =~= rest);
}

/// Three characters are escaped in a reply, and no other.
pub proof fn law_three_characters_are_escaped(s: Seq<char>, c: char)
    ensures
        encoded(Seq::empty()).len() == 0,
        encoded(s.push('%')) == encoded(s) + "%25"@,
        encoded(s.push('\r')) == encoded(s) + "%0D"@,
        encoded(s.push('\n')) == encoded(s) + "%0A"@,
        c != '%' && c != '\r' && c != '\n' ==> encoded(s.push(c)) == encoded(s).push(c),
{
    reveal_strlit("%25");
    reveal_strlit("%0D");
    reveal_strlit("%0A");
    assert("%25"@ =~= seq!['%', '2', '5']);
    assert("%0D"@ =~= seq!['%', '0', 'D']);
    assert("%0A"@ =~= seq!['%', '0', 'A']);
    assert(s.push('%').drop_last() =~= s);
    assert(s.push('\r').drop_last() =~= s);
    assert(s.push('\n').drop_last() =~= s);
    assert(s.push(c).drop_last() =~= s);
    assert(encoded(s) + seq![c] =~= encoded(s).push(c));
}

/// A value stands for the text that its bytes spell once their escapes are resolved, wherever
/// those bytes spell one, and with replacements where they do not.
pub proof fn law_a_value_is_what_its_bytes_spell(s: Seq<char>)
    ensures
        valid_utf8(unescaped(encode_utf8(s))) ==> encode_utf8(decoded(s)) == unescaped(
            encode_utf8(s),
        ),
        !valid_utf8(unescaped(encode_utf8(s))) ==> decoded(s) == with_replacements(
            unescaped(encode_utf8(s)),
        ),
{
    if valid_utf8(unescaped(encode_utf8(s))) {
        decode_utf8_encode_utf8(unescaped(encode_utf8(s)));
    }
}

proof fn lemma_fitting_is_greedy(b: Seq<u8>, room: int)
    requires
        room >= 0,
    ensures
        fitting(b, room) < b.len() ==> escaped(b.take(fitting(b, room))).len() + escaped_byte(
            b[fitting(b, room)],
        ).len() > room,
    decreases b.len(),
{
    if b.len() > 0 && escaped_byte(b[0]).len() <= room {
        let r = b.drop_first();
        let left = room - escaped_byte(b[0]).len();
        lemma_fitting(r, left);
        lemma_fitting_is_greedy(r, left);
        let t = b.take(fitting(b, room));
        assert(t.drop_first() =~= r.take(fitting(r, left)));
        assert(t[0] == b[0]);
    } else {
        assert(b.take(0) =~= seq![]);
    }
}

/// A passphrase goes out in as few lines as it can: every line but the last is full, that is
/// holds at least 510 of the 512 bytes there is room for, and none holds more.
pub proof fn law_the_lines_of_a_passphrase_are_full(b: Seq<u8>, i: int)
    requires
        0 <= i < secret_lines(b).len(),
    ensures
        secret_lines(b)[i].len() <= 515,
        i < secret_lines(b).len() - 1 ==> secret_lines(b)[i].len() >= 513,
        secret_lines(b)[0] == secret_line(b),
        escaped(b).len() <= 512 ==> secret_lines(b).len() == 1,
    decreases b.len(),
{
    let n = fitting(b, 512);
    lemma_fitting(b, 512);
    lemma_fitting_is_greedy(b, 512);
    if n < b.len() {
        let tail = secret_lines(b.skip(n));
        assert(secret_lines(b) =~= seq![secret_line(b)] + tail);
        if escaped(b).len() <= 512 {
            lemma_fits_whole(b, 512);
        }
        if i > 0 {
            assert(secret_lines(b)[i] == tail[i - 1]);
            law_the_lines_of_a_passphrase_are_full(b.skip(n), i - 1);
        } else {
            assert(secret_lines(b)[0] == secret_line(b));
        }
    }
}

proof fn lemma_fits_whole(b: Seq<u8>, room: int)
    requires
        escaped(b).len() <= room,
    ensures
        fitting(b, room) == b.len(),
    decreases b.len(),
{
    if b.len() > 0 {
        lemma_fits_whole(b.drop_first(), room - escaped_byte(b[0]).len());
    }
}

/// Without a line feed among the first bytes there is no line yet; one byte past 1000, it is
/// known to be too long, and is refused; and once the input has ended, whatever is left is a
/// line.
pub proof fn law_a_line_without_an_end(waiting: Seq<u8>, closed: bool)
    requires
        forall|i: int| 0 <= i < waiting.len() && i <= 1000 ==> #[trigger] waiting[i] != 0x0a,
    ensures
        waiting.len() > 1000 ==> line_size(waiting, closed) == Some(1001int),
        waiting.len() > 1000 && valid_utf8(waiting.take(1001)) ==> line_read(waiting.take(1001))
            == Err::<Option<Seq<char>>, LineError>(LineError::TooLong),
        waiting.len() <= 1000 ==> line_size(waiting, true) == Some(waiting.len() as int),
        waiting.len() <= 1000 ==> line_size(waiting, false) is None,
{
    lemma_line_feed(waiting);
}

/// A line of up to 1000 bytes, its line feed counted, is taken, and a longer one is not.
pub proof fn law_a_line_ends_at_its_line_feed(body: Seq<u8>, more: Seq<u8>, closed: bool)
    requires
        forall|i: int| 0 <= i < body.len() ==> #[trigger] body[i] != 0x0a,
    ensures
        body.len() <= 1000 ==> line_size(body + seq![0x0au8] + more, closed) == Some(
            body.len() + 1int,
        ),
        body.len() > 1000 ==> line_size(body + seq![0x0au8] + more, closed) == Some(1001int),
        body.len() == 1000 && valid_utf8(body + seq![0x0au8]) ==> line_read(body + seq![0x0au8])
            == Err::<Option<Seq<char>>, LineError>(LineError::TooLong),
{
    let all = body + seq![0x0au8] + more;
    assert forall|i: int| 0 <= i < body.len() implies #[trigger] all[i] != 0x0a by {
        assert(all[i] == body[i]);
    }
    lemma_line_feed_is(all, body.len() as int);
}

/// What the bytes of a line are read as: nothing at all is the end of the input, bytes that
/// spell no text are refused, and a text is read without the line feeds and carriage returns at
/// its end, and whole otherwise.
pub proof fn law_what_a_line_is_read_as(text: Seq<char>, ends: Seq<char>, raw: Seq<u8>)
    requires
        text.len() > 0 ==> text.last() != '\n' && text.last() != '\r',
        forall|i: int| 0 <= i < ends.len() ==> #[trigger] ends[i] == '\n' || ends[i] == '\r',
        0 < encode_utf8(text + ends).len() <= 1000,
        !valid_utf8(raw),
    ensures
        line_read(encode_utf8(text + ends)) == Ok::<Option<Seq<char>>, LineError>(Some(text)),
        line_read(Seq::empty()) == Ok::<Option<Seq<char>>, LineError>(None),
        line_read(raw) == Err::<Option<Seq<char>>, LineError>(LineError::NotText),
{
    encode_utf8_valid_utf8(text + ends);
    encode_utf8_decode_utf8(text + ends);
    lemma_stripped(text, ends);
    let none = Seq::<char>::empty();
    encode_utf8_valid_utf8(none);
    assert(encode_utf8(none) =~= Seq::<u8>::empty());
}

proof fn lemma_stripped(text: Seq<char>, ends: Seq<char>)
    requires
        text.len() > 0 ==> text.last() != '\n' && text.last() != '\r',
        forall|i: int| 0 <= i < ends.len() ==> #[trigger] ends[i] == '\n' || ends[i] == '\r',
    ensures
        stripped(text + ends) == text,
    decreases ends.len(),
{
    if ends.len() == 0 {
        assert(text + ends =~= text);
    } else {
        assert((text + ends).drop_last() =~= text + ends.drop_last());
        assert((text + ends).last() == ends[ends.len() - 1]);
        lemma_stripped(text, ends.drop_last());
    }
}

/// A line of the transcript tells which way a line went, and what it said.
pub proof fn law_a_transcript_entry(direction: Seq<char>, line: Seq<char>)
    ensures
        entry(direction, line) == direction + " "@ + line + "\n"@,
{
}

} // verus!
