//! The Assuan line protocol: what a command line is, and what a reply looks like.
//!
//! Nothing here touches a descriptor. Bytes that arrived are handed in, bytes to send are
//! handed out, and everything between the two is decided in this module.

use vstd::prelude::*;
use vstd::utf8::{
    decode_utf8, encode_scalar, encode_utf8, encode_utf8_decode_utf8, encode_utf8_valid_utf8,
    is_ascii_chars, is_ascii_chars_encode_utf8, valid_utf8,
};

use crate::secret::Secret;
use crate::text::{chars_of, decimal, decimal_of, hex_digit, hex_value, text_of};
use crate::unicode::{lemma_encode_join, lemma_encode_last, lemma_one_char};

verus! {

/// Assuan lines are limited to 1000 bytes including the terminator. Anything longer is a
/// broken peer rather than a long value; values that do not fit are split by the sender.
pub const MAX_LINE: usize = 1000;

/// `GPG_ERR_CANCELED`, from the source `GPG_ERR_SOURCE_PINENTRY`: the user declined.
///
/// Error codes are `(source << 24) | code`, and the source is 5. The distinction between this
/// one and `ERR_NO_PIN_ENTRY` matters to the caller and is easy to collapse by accident: "the
/// user declined" and "nobody could be asked" call for different responses, and an agent that
/// cannot tell them apart will eventually treat one as the other.
pub const ERR_CANCELLED: u32 = 83_886_179;

/// `GPG_ERR_NOT_CONFIRMED`: the user said no.
pub const ERR_NOT_CONFIRMED: u32 = 83_886_194;

/// `GPG_ERR_NO_PIN_ENTRY`: nobody could be asked.
pub const ERR_NO_PIN_ENTRY: u32 = 83_886_147;

/// The two characters after a `%` that make it an escape, two hexadecimal digits, and the byte
/// it stands for.
pub open spec fn escape_value(a: u8, b: u8) -> Option<u8> {
    match (hex_digit(a), hex_digit(b)) {
        (Some(x), Some(y)) => Some((16 * x + y) as u8),
        _ => None,
    }
}

/// Bytes with their escapes resolved. A `%` that starts no escape stands for itself.
pub open spec fn unescaped(b: Seq<u8>) -> Seq<u8>
    decreases b.len(),
{
    if b.len() == 0 {
        seq![]
    } else if b[0] == 0x25 && b.len() > 2 && escape_value(b[1], b[2]) is Some {
        seq![escape_value(b[1], b[2])->0] + unescaped(b.skip(3))
    } else {
        seq![b[0]] + unescaped(b.drop_first())
    }
}

/// How one byte is written on a line: `%`, carriage return and line feed as escapes, and
/// everything else as itself.
pub open spec fn escaped_byte(b: u8) -> Seq<u8> {
    if b == 0x25 {
        seq![0x25u8, 0x32u8, 0x35u8]
    } else if b == 0x0d {
        seq![0x25u8, 0x30u8, 0x44u8]
    } else if b == 0x0a {
        seq![0x25u8, 0x30u8, 0x41u8]
    } else {
        seq![b]
    }
}

/// How bytes are written on a line.
pub open spec fn escaped(b: Seq<u8>) -> Seq<u8>
    decreases b.len(),
{
    if b.len() == 0 {
        seq![]
    } else {
        escaped_byte(b[0]) + escaped(b.drop_first())
    }
}

/// How one character is written on a line.
pub open spec fn encoded_char(c: char) -> Seq<char> {
    if c == '%' {
        seq!['%', '2', '5']
    } else if c == '\r' {
        seq!['%', '0', 'D']
    } else if c == '\n' {
        seq!['%', '0', 'A']
    } else {
        seq![c]
    }
}

/// How a text is written on a line.
pub open spec fn encoded(s: Seq<char>) -> Seq<char>
    decreases s.len(),
{
    if s.len() == 0 {
        seq![]
    } else {
        encoded(s.drop_last()) + encoded_char(s.last())
    }
}

/// What `String::from_utf8_lossy` makes of bytes that are not UTF-8.
pub uninterp spec fn with_replacements(bytes: Seq<u8>) -> Seq<char>;

/// The text that bytes spell: what they encode where they are UTF-8, and with replacement
/// characters for the rest.
pub open spec fn shown(bytes: Seq<u8>) -> Seq<char> {
    if valid_utf8(bytes) {
        decode_utf8(bytes)
    } else {
        with_replacements(bytes)
    }
}

/// The text that a percent-escaped value stands for.
pub open spec fn decoded(s: Seq<char>) -> Seq<char> {
    shown(unescaped(encode_utf8(s)))
}

/// `String::from_utf8_lossy` of the standard library. Bytes that are UTF-8 give the text
/// they encode. What takes the place of invalid bytes is a function of the bytes alone and is
/// named, not stated.
#[verifier::external_body]
fn lossy_text(bytes: &Vec<u8>) -> (s: String)
    ensures
        s@ == if valid_utf8(bytes@) {
            decode_utf8(bytes@)
        } else {
            with_replacements(bytes@)
        },
{
    String::from_utf8_lossy(bytes).into_owned()
}

/// `String::from_utf8` of the standard library. It succeeds on exactly the byte sequences
/// that are UTF-8, and the string has those bytes.
#[verifier::external_body]
fn exact_text(bytes: Vec<u8>) -> (s: Option<String>)
    ensures
        match s {
            Some(t) => valid_utf8(bytes@) && t@ == decode_utf8(bytes@),
            None => !valid_utf8(bytes@),
        },
{
    String::from_utf8(bytes).ok()
}

/// Reads the two bytes after a `%`.
fn read_escape(a: u8, b: u8) -> (r: Option<u8>)
    ensures
        r == escape_value(a, b),
{
    match (hex_value(a), hex_value(b)) {
        (Some(x), Some(y)) => Some(16 * x + y),
        _ => None,
    }
}

/// Resolves the escapes in a value.
pub fn unescape(b: &[u8]) -> (out: Vec<u8>)
    ensures
        out@ == unescaped(b@),
{
    let mut out: Vec<u8> = Vec::with_capacity(b.len());
    let mut i: usize = 0;
    assert(b@.skip(0) =~= b@);
    assert(out@ + unescaped(b@) =~= unescaped(b@));
    while i < b.len()
        invariant
            i <= b@.len(),
            unescaped(b@) == out@ + unescaped(b@.skip(i as int)),
        decreases b@.len() - i,
    {
        let ghost t = b@.skip(i as int);
        let ghost before = out@;
        assert(t.drop_first() =~= b@.skip(i + 1));
        let mut value: Option<u8> = None;
        if b[i] == 0x25 && b.len() - i > 2 {
            value = read_escape(b[i + 1], b[i + 2]);
        }
        match value {
            Some(v) => {
                out.push(v);
                assert(t.skip(3) =~= b@.skip(i + 3));
                assert(out@ + unescaped(t.skip(3)) =~= before + unescaped(t));
                i += 3;
            },
            None => {
                out.push(b[i]);
                assert(out@ + unescaped(t.drop_first()) =~= before + unescaped(t));
                i += 1;
            },
        }
    }
    assert(out@ + unescaped(b@.skip(i as int)) =~= out@);
    out
}

/// Decodes the percent escaping Assuan uses for values.
///
/// A malformed escape is kept verbatim rather than dropped: this decodes a description
/// string that will be shown to a human, and a stray `%` in somebody's key comment should
/// appear as a `%`, not vanish or abort the prompt.
pub fn percent_decode(s: &str) -> (r: String)
    ensures
        r@ == decoded(s@),
{
    // The protocol carries UTF-8; a peer that sends something else gets replacement
    // characters rather than a refusal to display its own prompt.
    lossy_text(&unescape(s.as_bytes()))
}

/// Escapes one byte for a `D` line, if it needs escaping.
///
/// Only three bytes must be escaped: the escape character itself and the two that would end
/// or split the line. Escaping more would be harmless but would also make the encoding
/// depend on taste rather than on the protocol.
pub fn escape_byte(b: u8, out: &mut [u8; 3]) -> (n: usize)
    ensures
        n == escaped_byte(b).len(),
        final(out)@.take(n as int) == escaped_byte(b),
        forall|i: int| n <= i < 3 ==> #[trigger] final(out)@[i] == old(out)@[i],
{
    if b == 0x25 {
        out[0] = 0x25;
        out[1] = 0x32;
        out[2] = 0x35;
        assert(out@.take(3) =~= escaped_byte(b));
        3
    } else if b == 0x0d {
        out[0] = 0x25;
        out[1] = 0x30;
        out[2] = 0x44;
        assert(out@.take(3) =~= escaped_byte(b));
        3
    } else if b == 0x0a {
        out[0] = 0x25;
        out[1] = 0x30;
        out[2] = 0x41;
        assert(out@.take(3) =~= escaped_byte(b));
        3
    } else {
        out[0] = b;
        assert(out@.take(1) =~= escaped_byte(b));
        1
    }
}

/// Percent-encodes a string for a reply. For descriptions and status lines, never for the
/// passphrase — that one never becomes a `String` in the first place.
pub fn percent_encode(s: &str) -> (r: String)
    ensures
        r@ == encoded(s@),
{
    let v = chars_of(s);
    let mut r = String::new();
    let mut i: usize = 0;
    while i < v.len()
        invariant
            v@ == s@,
            i <= v@.len(),
            r@ == encoded(s@.take(i as int)),
        decreases v@.len() - i,
    {
        let c = v[i];
        let ghost before = r@;
        if c == '%' {
            r.push('%');
            r.push('2');
            r.push('5');
        } else if c == '\r' {
            r.push('%');
            r.push('0');
            r.push('D');
        } else if c == '\n' {
            r.push('%');
            r.push('0');
            r.push('A');
        } else {
            r.push(c);
        }
        proof {
            let t = s@.take(i + 1);
            assert(t.drop_last() =~= s@.take(i as int));
            assert(r@ =~= before + encoded_char(c));
        }
        i += 1;
    }
    assert(s@.take(i as int) =~= s@);
    r
}

/// What `OK` looks like on the wire.
pub open spec fn ok_line(text: Seq<char>) -> Seq<char> {
    if text.len() == 0 {
        "OK\n"@
    } else {
        "OK "@ + encoded(text) + "\n"@
    }
}

/// What an error looks like on the wire.
pub open spec fn err_line(code: u32, text: Seq<char>) -> Seq<char> {
    "ERR "@ + decimal(code as nat) + " "@ + encoded(text) + "\n"@
}

/// What a status line looks like on the wire.
pub open spec fn status_line(text: Seq<char>) -> Seq<char> {
    "S "@ + encoded(text) + "\n"@
}

/// What ordinary data looks like on the wire.
pub open spec fn data_line(text: Seq<char>) -> Seq<char> {
    "D "@ + encoded(text) + "\n"@
}

/// The reply channel: replies that wait to be sent.
///
/// Everything except the passphrase goes through here; the passphrase leaves one line at a
/// time through a window its caller wipes, so it never enters a buffer this type would have
/// to wipe.
pub struct Writer {
    out: String,
}

impl View for Writer {
    type V = Seq<char>;

    closed spec fn view(&self) -> Seq<char> {
        self.out@
    }
}

impl Writer {
    /// A channel on which nothing waits.
    pub fn stdout() -> (w: Self)
        ensures
            w@ == Seq::<char>::empty(),
    {
        Writer { out: String::new() }
    }

    /// Hands over what waits to be sent.
    pub fn take(&mut self) -> (s: String)
        ensures
            s@ == old(self)@,
            final(self)@ == Seq::<char>::empty(),
    {
        let s = self.out.clone();
        self.out = String::new();
        s
    }

    /// Answers that all is well.
    pub fn ok(&mut self, text: &str)
        ensures
            final(self)@ == old(self)@ + ok_line(text@),
    {
        if text.is_empty() {
            self.out.append("OK\n");
        } else {
            self.out.append("OK ");
            self.out.append(percent_encode(text).as_str());
            self.out.append("\n");
        }
        assert(self@ =~= old(self)@ + ok_line(text@));
    }

    /// Answers that something is not.
    pub fn err(&mut self, code: u32, text: &str)
        ensures
            final(self)@ == old(self)@ + err_line(code, text@),
    {
        self.out.append("ERR ");
        self.out.append(decimal_of(code as u64).as_str());
        self.out.append(" ");
        self.out.append(percent_encode(text).as_str());
        self.out.append("\n");
        assert(self@ =~= old(self)@ + err_line(code, text@));
    }

    /// Tells the agent something on the side.
    pub fn status(&mut self, text: &str)
        ensures
            final(self)@ == old(self)@ + status_line(text@),
    {
        self.out.append("S ");
        self.out.append(percent_encode(text).as_str());
        self.out.append("\n");
        assert(self@ =~= old(self)@ + status_line(text@));
    }

    /// A `D` line carrying ordinary data — used for GETINFO answers, never for a secret.
    pub fn data_str(&mut self, text: &str)
        ensures
            final(self)@ == old(self)@ + data_line(text@),
    {
        self.out.append("D ");
        self.out.append(percent_encode(text).as_str());
        self.out.append("\n");
        assert(self@ =~= old(self)@ + data_line(text@));
    }

    /// Writes the next line of the passphrase into `line`: the one for the bytes from `from`
    /// on. Returns how long the line is and where the next one starts; there is a next one
    /// while that is not the end.
    ///
    /// The bytes travel from the locked buffer through this one window, straight to the
    /// descriptor, and the window is wiped afterwards. There is deliberately no `String` and
    /// no buffered writer anywhere on this path: each of those would take a copy onto the heap
    /// that nothing could erase afterwards, which is precisely the leak `Secret` exists to
    /// prevent, reintroduced at the last step.
    ///
    /// SEVERAL lines, not one, and that is not caution — it is arithmetic. A pinentry must
    /// accept 2048 characters while an Assuan line holds under 1000 bytes, and escaping can
    /// treble a byte. A single `D` line would therefore break on a long passphrase and on
    /// nothing else: it would pass every test written with a short one, and fail on the
    /// person who took the advice to use a long one. The client concatenates consecutive
    /// `D` payloads, so splitting is invisible to it.
    pub fn data_secret(secret: &Secret, from: usize, line: &mut [u8]) -> (r: (usize, usize))
        requires
            secret.wf(),
            from <= secret.bytes().len(),
            old(line)@.len() == SECRET_LINE,
        ensures
            r.0 <= SECRET_LINE,
            final(line)@.len() == SECRET_LINE,
            final(line)@.take(r.0 as int) == secret_line(secret.bytes().skip(from as int)),
            forall|i: int| r.0 <= i < SECRET_LINE ==> #[trigger] final(line)@[i] == old(line)@[i],
            r.1 == from + fitting(secret.bytes().skip(from as int), PAYLOAD as int),
            from <= r.1 <= secret.bytes().len(),
    {
        let b = secret.as_bytes();
        let ghost rest = b@.skip(from as int);
        line[0] = 0x44;
        line[1] = 0x20;
        let mut n: usize = 0;
        let mut i: usize = from;
        let mut enc: [u8; 3] = [0, 0, 0];
        assert(rest.take(0) =~= seq![]);
        assert(b@.skip(i as int) =~= rest);
        assert(line@.subrange(2, 2) =~= escaped(rest.take(0)));
        while i < b.len()
            invariant_except_break
                fitting(rest, PAYLOAD as int) == (i - from) + fitting(
                    b@.skip(i as int),
                    PAYLOAD - n,
                ),
            invariant
                b@ == secret.bytes(),
                rest == b@.skip(from as int),
                line@.len() == SECRET_LINE,
                line@[0] == 0x44,
                line@[1] == 0x20,
                from <= i <= b@.len(),
                n <= PAYLOAD,
                line@.subrange(2, 2 + n as int) == escaped(rest.take(i - from)),
                old(line)@.len() == SECRET_LINE,
                forall|j: int| 2 + n <= j < SECRET_LINE ==> #[trigger] line@[j] == old(line)@[j],
            ensures
                fitting(rest, PAYLOAD as int) == i - from,
            decreases b@.len() - i,
        {
            let ghost t = b@.skip(i as int);
            let ghost was = line@.subrange(2, 2 + n as int);
            assert(t.drop_first() =~= b@.skip(i + 1));
            let used = escape_byte(b[i], &mut enc);
            if n + used > PAYLOAD {
                break;
            }
            let ghost e = escaped_byte(t[0]);
            assert(enc@.take(used as int) == e);
            let mut k: usize = 0;
            while k < used
                invariant
                    used <= 3,
                    k <= used,
                    n + used <= PAYLOAD,
                    e.len() == used,
                    enc@.take(used as int) == e,
                    line@.len() == SECRET_LINE,
                    line@[0] == 0x44,
                    line@[1] == 0x20,
                    was.len() == n,
                    forall|j: int| 0 <= j < n ==> #[trigger] line@[2 + j] == was[j],
                    forall|j: int| 0 <= j < k ==> #[trigger] line@[2 + n + j] == e[j],
                    old(line)@.len() == SECRET_LINE,
                    forall|j: int|
                        2 + n + k <= j < SECRET_LINE ==> #[trigger] line@[j] == old(line)@[j],
                decreases used - k,
            {
                let x = enc[k];
                assert(x == enc@.take(used as int)[k as int]);
                line[2 + n + k] = x;
                k += 1;
            }
            proof {
                let end = 2 + n + used;
                assert forall|j: int| 0 <= j < n + used implies line@.subrange(2, end)[j] == (was
                    + e)[j] by {
                    if j >= n {
                        assert(line@[2 + n + (j - n)] == e[j - n]);
                    } else {
                        assert(line@[2 + j] == was[j]);
                    }
                }
                assert(line@.subrange(2, end) =~= was + e);
            }
            n = n + used;
            i += 1;
            proof {
                let done = rest.take(i - from);
                assert(done.drop_last() =~= rest.take(i - from - 1));
                lemma_escaped_push(rest.take(i - from - 1), t[0]);
                assert(done =~= rest.take(i - from - 1).push(t[0]));
            }
        }
        line[2 + n] = 0x0a;
        proof {
            let total = (n + 3) as int;
            assert(line@.subrange(2, 2 + n as int) =~= escaped(rest.take(i - from)));
            assert(line@.take(total) =~= secret_line(rest));
        }
        (n + 3, i)
    }
}

/// Payload per line, chosen well under the limit so the `D ` in front, the newline behind and
/// a worst-case escape landing on the boundary all still fit.
pub const PAYLOAD: usize = 512;

/// A window that holds one line of a passphrase: the `D `, the payload, the newline.
pub const SECRET_LINE: usize = 515;

/// Whether all of a passphrase is sent once the next line would start at `from`.
pub fn is_sent(secret: &Secret, from: usize) -> (r: bool)
    requires
        secret.wf(),
    ensures
        r == (from == secret.bytes().len()),
{
    from == secret.len()
}

/// How many bytes from the start of `b` fit into `room` once they are escaped. An escape is
/// placed whole or not at all.
pub open spec fn fitting(b: Seq<u8>, room: int) -> int
    decreases b.len(),
{
    if b.len() > 0 && escaped_byte(b[0]).len() <= room {
        1 + fitting(b.drop_first(), room - escaped_byte(b[0]).len())
    } else {
        0
    }
}

/// The first line that carries `b`.
pub open spec fn secret_line(b: Seq<u8>) -> Seq<u8> {
    seq![0x44u8, 0x20u8] + escaped(b.take(fitting(b, PAYLOAD as int))) + seq![0x0au8]
}

/// Escaping works byte by byte.
pub(crate) proof fn lemma_escaped_push(a: Seq<u8>, b: u8)
    ensures
        escaped(a.push(b)) == escaped(a) + escaped_byte(b),
    decreases a.len(),
{
    if a.len() == 0 {
        assert(a.push(b).drop_first() =~= a);
        assert(escaped(a) =~= seq![]);
        assert(escaped(a.push(b)) =~= escaped_byte(b));
        assert(escaped(a) + escaped_byte(b) =~= escaped_byte(b));
    } else {
        lemma_escaped_push(a.drop_first(), b);
        assert(a.push(b).drop_first() =~= a.drop_first().push(b));
        assert(escaped(a.push(b)) =~= escaped(a) + escaped_byte(b));
    }
}

/// Why there is no line to be had.
#[derive(Debug, Clone, Copy, PartialEq, Eq, Structural)]
pub enum LineError {
    /// The line has not arrived yet: more bytes are needed, or the end of the input.
    Incomplete,
    /// The line is not UTF-8.
    NotText,
    /// The line is longer than the protocol allows.
    TooLong,
}

/// Where the first line feed of `b` is, or the length of `b` if it has none.
pub open spec fn line_feed(b: Seq<u8>) -> int
    decreases b.len(),
{
    if b.len() > 0 && b[0] != 0x0a {
        1 + line_feed(b.drop_first())
    } else {
        0
    }
}

/// How many of the waiting bytes the next line takes, its line feed counted, once that is
/// known. One byte past the limit is enough to know that a line is too long, and at the end of
/// the input whatever is left is a line.
pub open spec fn line_size(waiting: Seq<u8>, closed: bool) -> Option<int> {
    if line_feed(waiting) < waiting.len() && line_feed(waiting) <= MAX_LINE {
        Some(line_feed(waiting) + 1)
    } else if waiting.len() > MAX_LINE {
        Some(MAX_LINE + 1)
    } else if closed {
        Some(waiting.len() as int)
    } else {
        None
    }
}

/// A line without the line feeds and carriage returns at its end.
pub open spec fn stripped(s: Seq<char>) -> Seq<char>
    decreases s.len(),
{
    if s.len() > 0 && (s.last() == '\n' || s.last() == '\r') {
        stripped(s.drop_last())
    } else {
        s
    }
}

/// What a line of `raw` bytes is read as. No bytes at all are the end of the input.
pub open spec fn line_read(raw: Seq<u8>) -> Result<Option<Seq<char>>, LineError> {
    if !valid_utf8(raw) {
        Err(LineError::NotText)
    } else if raw.len() > MAX_LINE {
        Err(LineError::TooLong)
    } else if raw.len() == 0 {
        Ok(None)
    } else {
        Ok(Some(stripped(decode_utf8(raw))))
    }
}

/// The command channel: bytes that arrived and were not read yet.
pub struct Reader {
    waiting: Vec<u8>,
    closed: bool,
}

impl Default for Reader {
    fn default() -> (r: Self)
        ensures
            r.waiting() == Seq::<u8>::empty(),
            !r.closed(),
    {
        Reader::new()
    }
}

impl Reader {
    /// The bytes that arrived and were not read yet.
    pub closed spec fn waiting(&self) -> Seq<u8> {
        self.waiting@
    }

    /// Whether the input has ended.
    pub closed spec fn closed(&self) -> bool {
        self.closed
    }

    /// A channel on which nothing has arrived.
    pub fn new() -> (r: Self)
        ensures
            r.waiting() == Seq::<u8>::empty(),
            !r.closed(),
    {
        Reader { waiting: Vec::new(), closed: false }
    }

    /// Takes in bytes that arrived.
    pub fn feed(&mut self, bytes: &[u8])
        ensures
            final(self).waiting() == old(self).waiting() + bytes@,
            final(self).closed() == old(self).closed(),
    {
        self.waiting.extend_from_slice(bytes);
        assert(self.waiting() =~= old(self).waiting() + bytes@);
    }

    /// Takes note that nothing more will arrive.
    pub fn close(&mut self)
        ensures
            final(self).waiting() == old(self).waiting(),
            final(self).closed(),
    {
        self.closed = true;
    }

    /// Reads one command line, or `None` at end of input.
    ///
    /// End of input is a normal way for this program to finish: the agent closes the pipe
    /// when it no longer needs the prompt, and treating that as an error would fill its log
    /// with noise for something that happens every time.
    ///
    /// A line is bounded, because `MAX_LINE` is what the protocol allows and an unbounded read
    /// grows for as long as the other end keeps sending without a newline. The real peer is
    /// gpg-agent and never does that; stdin is reachable by anyone who can start ward, and
    /// that is the one worth not trusting.
    pub fn line(&mut self) -> (r: Result<Option<String>, LineError>)
        ensures
            final(self).closed() == old(self).closed(),
            match line_size(old(self).waiting(), old(self).closed()) {
                None => r == Err::<Option<String>, LineError>(LineError::Incomplete)
                    && final(self).waiting() == old(self).waiting(),
                Some(n) => {
                    &&& 0 <= n <= old(self).waiting().len()
                    &&& final(self).waiting() == old(self).waiting().skip(n)
                    &&& match r {
                        Ok(Some(s)) => line_read(old(self).waiting().take(n)) == Ok::<
                            Option<Seq<char>>,
                            LineError,
                        >(Some(s@)),
                        Ok(None) => line_read(old(self).waiting().take(n)) == Ok::<
                            Option<Seq<char>>,
                            LineError,
                        >(None),
                        Err(e) => line_read(old(self).waiting().take(n)) == Err::<
                            Option<Seq<char>>,
                            LineError,
                        >(e),
                    }
                },
            },
    {
        let ghost w = self.waiting@;
        let len = self.waiting.len();
        let mut at: usize = 0;
        while at < len && at <= MAX_LINE && self.waiting[at] != 0x0a
            invariant
                self.waiting@ == w,
                len == w.len(),
                at <= len,
                at <= MAX_LINE + 1,
                forall|j: int| 0 <= j < at ==> #[trigger] w[j] != 0x0a,
            decreases len - at,
        {
            at += 1;
        }
        proof {
            lemma_line_feed(w);
            if at < len && at <= MAX_LINE {
                lemma_line_feed_is(w, at as int);
            } else if line_feed(w) < at {
                assert(w[line_feed(w)] != 0x0a);
            }
        }
        let n: usize = if at < len && at <= MAX_LINE {
            at + 1
        } else if len > MAX_LINE {
            MAX_LINE + 1
        } else if self.closed {
            len
        } else {
            return Err(LineError::Incomplete);
        };
        let mut raw = self.waiting.split_off(n);
        std::mem::swap(&mut raw, &mut self.waiting);
        assert(raw@ =~= w.take(n as int));
        assert(self.waiting() =~= w.skip(n as int));
        let text = match exact_text(raw) {
            Some(t) => t,
            None => return Err(LineError::NotText),
        };
        if n > MAX_LINE {
            return Err(LineError::TooLong);
        }
        if n == 0 {
            return Ok(None);
        }
        Ok(Some(strip(text)))
    }
}

/// Takes the line feeds and carriage returns off the end.
fn strip(s: String) -> (r: String)
    ensures
        r@ == stripped(s@),
{
    let v = chars_of(s.as_str());
    let mut end: usize = v.len();
    assert(s@.take(end as int) =~= s@);
    while end > 0 && (v[end - 1] == '\n' || v[end - 1] == '\r')
        invariant
            v@ == s@,
            end <= v@.len(),
            stripped(s@) == stripped(s@.take(end as int)),
        decreases end,
    {
        let ghost t = s@.take(end as int);
        assert(t.drop_last() =~= s@.take(end - 1));
        assert(t.last() == v@[end - 1]);
        end -= 1;
    }
    let ghost t = s@.take(end as int);
    assert(end > 0 ==> t.last() == v@[end - 1]);
    assert(t =~= v@.subrange(0, end as int));
    text_of(&v, 0, end)
}

pub(crate) proof fn lemma_line_feed(b: Seq<u8>)
    ensures
        0 <= line_feed(b) <= b.len(),
        forall|i: int| 0 <= i < line_feed(b) ==> #[trigger] b[i] != 0x0a,
        line_feed(b) < b.len() ==> b[line_feed(b)] == 0x0a,
    decreases b.len(),
{
    if b.len() > 0 && b[0] != 0x0a {
        let r = b.drop_first();
        lemma_line_feed(r);
        assert forall|i: int| 0 <= i < line_feed(b) implies #[trigger] b[i] != 0x0a by {
            if i > 0 {
                assert(b[i] == r[i - 1]);
            }
        }
    }
}

pub(crate) proof fn lemma_line_feed_is(b: Seq<u8>, n: int)
    requires
        0 <= n <= b.len(),
        forall|i: int| 0 <= i < n ==> #[trigger] b[i] != 0x0a,
        n < b.len() ==> b[n] == 0x0a,
    ensures
        line_feed(b) == n,
{
    lemma_line_feed(b);
    if line_feed(b) < n {
        assert(b[line_feed(b)] != 0x0a);
    } else if n < line_feed(b) {
        assert(b[n] != 0x0a);
    }
}

/// Escaping is undone by unescaping, on every byte sequence.
pub proof fn law_unescape_undoes_escape(b: Seq<u8>)
    ensures
        unescaped(escaped(b)) == b,
    decreases b.len(),
{
    if b.len() == 0 {
        assert(unescaped(escaped(b)) =~= b);
    } else {
        let e = escaped(b);
        let rest = escaped(b.drop_first());
        law_unescape_undoes_escape(b.drop_first());
        if escaped_byte(b[0]).len() == 3 {
            assert(e.skip(3) =~= rest);
            assert(e[0] == 0x25 && e[1] == escaped_byte(b[0])[1] && e[2] == escaped_byte(b[0])[2]);
            assert(escape_value(e[1], e[2]) == Some(b[0]));
        } else {
            assert(e.drop_first() =~= rest);
            assert(e[0] == b[0]);
        }
        assert(unescaped(e) =~= seq![b[0]] + unescaped(rest));
        assert(unescaped(e) =~= b);
    }
}

/// Escaping two stretches of bytes together is escaping each of them.
pub(crate) proof fn lemma_escaped_join(a: Seq<u8>, b: Seq<u8>)
    ensures
        escaped(a + b) == escaped(a) + escaped(b),
    decreases a.len(),
{
    if a.len() == 0 {
        assert(a + b =~= b);
        assert(escaped(a) + escaped(b) =~= escaped(b));
    } else {
        lemma_escaped_join(a.drop_first(), b);
        assert((a + b).drop_first() =~= a.drop_first() + b);
        assert(escaped(a + b) =~= escaped(a) + escaped(b));
    }
}

/// Bytes that need no escape are escaped as they are.
proof fn lemma_escaped_plain(b: Seq<u8>)
    requires
        forall|i: int| 0 <= i < b.len() ==> escaped_byte(#[trigger] b[i]) == seq![b[i]],
    ensures
        escaped(b) == b,
    decreases b.len(),
{
    if b.len() > 0 {
        let r = b.drop_first();
        assert forall|i: int| 0 <= i < r.len() implies escaped_byte(#[trigger] r[i]) == seq![
            r[i],
        ] by {
            assert(r[i] == b[i + 1]);
        }
        lemma_escaped_plain(r);
        assert(escaped_byte(b[0]) == seq![b[0]]);
        assert(escaped(b) =~= b);
    }
}

/// Encoding a text and escaping its bytes are the same thing.
pub proof fn law_encode_escapes_the_bytes(s: Seq<char>)
    ensures
        encode_utf8(encoded(s)) == escaped(encode_utf8(s)),
    decreases s.len(),
{
    if s.len() == 0 {
        assert(encode_utf8(encoded(s)) =~= escaped(encode_utf8(s)));
    } else {
        let c = s.last();
        law_encode_escapes_the_bytes(s.drop_last());
        lemma_encode_last(s);
        lemma_one_char(c);
        lemma_encode_join(encoded(s.drop_last()), encoded_char(c));
        lemma_escaped_join(encode_utf8(s.drop_last()), encode_scalar(c as u32));
        assert(encode_utf8(encoded_char(c)) == escaped(encode_scalar(c as u32))) by {
            lemma_encode_char(c);
        }
    }
}

proof fn lemma_encode_char(c: char)
    ensures
        encode_utf8(encoded_char(c)) == escaped(encode_scalar(c as u32)),
{
    let e = encode_scalar(c as u32);
    lemma_one_char(c);
    if c == '%' || c == '\r' || c == '\n' {
        assert(is_ascii_chars(encoded_char(c)));
        is_ascii_chars_encode_utf8(encoded_char(c));
        let x = encoded_char(c);
        let y = encode_utf8(x);
        assert(y.len() == 3);
        assert(x[0] as u8 == y[0] && x[1] as u8 == y[1] && x[2] as u8 == y[2]);
        assert(y =~= escaped_byte(c as u8));
        assert((c as u32) < 0x80);
        assert(e =~= seq![c as u8]);
        assert(e.drop_first() =~= seq![]);
        assert(escaped(e.drop_first()) =~= seq![]);
        assert(escaped(e) =~= escaped_byte(c as u8));
    } else {
        assert(encoded_char(c) =~= seq![c]);
        assert forall|i: int| 0 <= i < e.len() implies escaped_byte(#[trigger] e[i]) == seq![
            e[i],
        ] by {
            if (c as u32) < 0x80 {
                assert(e[i] == c as u8);
            }
        }
        lemma_escaped_plain(e);
    }
}

/// What was encoded decodes to itself, on every text.
pub proof fn law_decode_undoes_encode(s: Seq<char>)
    ensures
        decoded(encoded(s)) == s,
{
    law_encode_escapes_the_bytes(s);
    law_unescape_undoes_escape(encode_utf8(s));
    encode_utf8_valid_utf8(s);
    encode_utf8_decode_utf8(s);
}

/// A text without a `%` decodes to itself.
pub proof fn law_plain_text_decodes_to_itself(s: Seq<char>)
    requires
        forall|i: int| 0 <= i < s.len() ==> #[trigger] s[i] != '%',
    ensures
        decoded(s) == s,
{
    lemma_text_without(s, '%');
    lemma_unescaped_plain(encode_utf8(s));
    encode_utf8_valid_utf8(s);
    encode_utf8_decode_utf8(s);
}

/// The encoding of a text holds the byte of an ASCII character only if the text holds that
/// character.
pub proof fn lemma_text_without(s: Seq<char>, a: char)
    requires
        (a as u32) < 0x80,
        forall|i: int| 0 <= i < s.len() ==> #[trigger] s[i] != a,
    ensures
        forall|i: int| 0 <= i < encode_utf8(s).len() ==> #[trigger] encode_utf8(s)[i] != a as u8,
    decreases s.len(),
{
    if s.len() > 0 {
        lemma_text_without(s.drop_last(), a);
        lemma_encode_last(s);
        assert(s.last() != a);
        lemma_char_without(s.last(), a);
        let e = encode_scalar(s.last() as u32);
        let p = encode_utf8(s.drop_last());
        assert forall|i: int| 0 <= i < encode_utf8(s).len() implies #[trigger] encode_utf8(s)[i]
            != a as u8 by {
            if i < p.len() {
                assert(encode_utf8(s)[i] == p[i]);
            } else {
                assert(encode_utf8(s)[i] == e[i - p.len()]);
            }
        }
    }
}

/// The encoding of a character holds the byte of an ASCII character only if it is that
/// character.
proof fn lemma_char_without(c: char, a: char)
    requires
        (a as u32) < 0x80,
        c != a,
    ensures
        forall|i: int|
            0 <= i < encode_scalar(c as u32).len() ==> #[trigger] encode_scalar(c as u32)[i]
                != a as u8,
{
    lemma_one_char(c);
    if (c as u32) < 0x80 {
        assert(encode_scalar(c as u32) =~= seq![c as u8]);
    }
}

proof fn lemma_unescaped_plain(b: Seq<u8>)
    requires
        forall|i: int| 0 <= i < b.len() ==> #[trigger] b[i] != 0x25,
    ensures
        unescaped(b) == b,
    decreases b.len(),
{
    if b.len() > 0 {
        let r = b.drop_first();
        assert forall|i: int| 0 <= i < r.len() implies #[trigger] r[i] != 0x25 by {
            assert(r[i] == b[i + 1]);
        }
        lemma_unescaped_plain(r);
        assert(b[0] != 0x25);
        assert(unescaped(b) =~= b);
    }
}

/// One whole line: a line feed at its end, and neither line feed nor carriage return before
/// that.
pub open spec fn one_line(s: Seq<char>) -> bool {
    &&& s.len() > 0
    &&& s.last() == '\n'
    &&& forall|i: int| 0 <= i < s.len() - 1 ==> #[trigger] s[i] != '\n' && s[i] != '\r'
}

/// Neither line feed nor carriage return.
pub open spec fn unbroken(s: Seq<char>) -> bool {
    forall|i: int| 0 <= i < s.len() ==> #[trigger] s[i] != '\n' && s[i] != '\r'
}

/// Every reply is exactly one line, whatever text it carries: no text can end a line early
/// and start another.
pub proof fn law_replies_are_single_lines(code: u32, text: Seq<char>)
    ensures
        one_line(ok_line(text)),
        one_line(err_line(code, text)),
        one_line(status_line(text)),
        one_line(data_line(text)),
{
    reveal_strlit("OK\n");
    reveal_strlit("OK ");
    reveal_strlit("ERR ");
    reveal_strlit(" ");
    reveal_strlit("S ");
    reveal_strlit("D ");
    reveal_strlit("\n");
    lemma_encoded_unbroken(text);
    lemma_decimal_unbroken(code as nat);
    assert(unbroken("ERR "@ + decimal(code as nat) + " "@ + encoded(text)));
    assert(unbroken("OK "@ + encoded(text)));
    assert(unbroken("S "@ + encoded(text)));
    assert(unbroken("D "@ + encoded(text)));
}

proof fn lemma_encoded_unbroken(s: Seq<char>)
    ensures
        unbroken(encoded(s)),
    decreases s.len(),
{
    if s.len() > 0 {
        lemma_encoded_unbroken(s.drop_last());
    }
}

proof fn lemma_decimal_unbroken(n: nat)
    ensures
        unbroken(decimal(n)),
    decreases n,
{
    if n >= 10 {
        lemma_decimal_unbroken(n / 10);
    }
}

/// All the lines that carry `b`, in the order they are sent.
pub open spec fn secret_lines(b: Seq<u8>) -> Seq<Seq<u8>>
    decreases b.len(),
    via secret_lines_decreases
{
    let n = fitting(b, PAYLOAD as int);
    if n == b.len() {
        seq![secret_line(b)]
    } else {
        seq![secret_line(b)] + secret_lines(b.skip(n))
    }
}

#[via_fn]
proof fn secret_lines_decreases(b: Seq<u8>) {
    lemma_fitting(b, PAYLOAD as int);
}

pub(crate) proof fn lemma_fitting(b: Seq<u8>, room: int)
    requires
        room >= 0,
    ensures
        0 <= fitting(b, room) <= b.len(),
        escaped(b.take(fitting(b, room))).len() <= room,
        b.len() > 0 && room >= 3 ==> fitting(b, room) > 0,
    decreases b.len(),
{
    if b.len() > 0 && escaped_byte(b[0]).len() <= room {
        let r = b.drop_first();
        let left = room - escaped_byte(b[0]).len();
        lemma_fitting(r, left);
        let t = b.take(fitting(b, room));
        assert(t.drop_first() =~= r.take(fitting(r, left)));
        assert(t[0] == b[0]);
    } else {
        assert(b.take(0) =~= seq![]);
    }
}

/// What a client receives: the payloads of consecutive `D` lines, joined.
pub open spec fn payloads(lines: Seq<Seq<u8>>) -> Seq<u8>
    decreases lines.len(),
{
    if lines.len() == 0 {
        seq![]
    } else {
        lines[0].subrange(2, lines[0].len() - 1) + payloads(lines.drop_first())
    }
}

/// A line that carries part of a passphrase: `D `, a payload that no line feed or carriage
/// return interrupts, a line feed, and no more bytes than the protocol allows.
pub open spec fn is_secret_line(line: Seq<u8>) -> bool {
    &&& 3 <= line.len() <= MAX_LINE
    &&& line[0] == 0x44
    &&& line[1] == 0x20
    &&& line.last() == 0x0a
    &&& forall|i: int| 2 <= i < line.len() - 1 ==> #[trigger] line[i] != 0x0a && line[i] != 0x0d
}

/// A passphrase of any length arrives whole: every line that carries it is a line the
/// protocol allows, and the client, which joins the payloads and resolves the escapes, gets
/// back exactly the bytes that were sent.
pub proof fn law_secret_arrives_whole(b: Seq<u8>)
    ensures
        forall|i: int| 0 <= i < secret_lines(b).len() ==> is_secret_line(#[trigger] secret_lines(b)[i]),
        unescaped(payloads(secret_lines(b))) == b,
{
    lemma_secret_lines(b);
    law_unescape_undoes_escape(b);
}

proof fn lemma_secret_lines(b: Seq<u8>)
    ensures
        forall|i: int| 0 <= i < secret_lines(b).len() ==> is_secret_line(#[trigger] secret_lines(b)[i]),
        payloads(secret_lines(b)) == escaped(b),
    decreases b.len(),
{
    let n = fitting(b, PAYLOAD as int);
    lemma_fitting(b, PAYLOAD as int);
    let head = b.take(n);
    let line = secret_line(b);
    lemma_escaped_unbroken(head);
    assert(line.subrange(2, line.len() - 1) =~= escaped(head));
    assert(is_secret_line(line)) by {
        assert forall|i: int| 2 <= i < line.len() - 1 implies #[trigger] line[i] != 0x0a && line[i]
            != 0x0d by {
            assert(line[i] == escaped(head)[i - 2]);
        }
    }
    if n == b.len() {
        assert(head =~= b);
        let all = seq![line];
        assert(all.drop_first() =~= seq![]);
        assert(payloads(all.drop_first()) =~= seq![]);
        assert(payloads(all) =~= escaped(b));
    } else {
        let tail = b.skip(n);
        lemma_secret_lines(tail);
        let all = seq![line] + secret_lines(tail);
        assert(all.drop_first() =~= secret_lines(tail));
        lemma_escaped_join(head, tail);
        assert(head + tail =~= b);
        assert forall|i: int| 0 <= i < all.len() implies is_secret_line(#[trigger] all[i]) by {
            if i > 0 {
                assert(all[i] == secret_lines(tail)[i - 1]);
            }
        }
    }
}

proof fn lemma_escaped_unbroken(b: Seq<u8>)
    ensures
        forall|i: int|
            0 <= i < escaped(b).len() ==> #[trigger] escaped(b)[i] != 0x0a && escaped(b)[i] != 0x0d,
    decreases b.len(),
{
    if b.len() > 0 {
        let e = escaped_byte(b[0]);
        let r = escaped(b.drop_first());
        lemma_escaped_unbroken(b.drop_first());
        assert forall|i: int| 0 <= i < escaped(b).len() implies #[trigger] escaped(b)[i] != 0x0a
            && escaped(b)[i] != 0x0d by {
            if i >= e.len() {
                assert(escaped(b)[i] == r[i - e.len()]);
            }
        }
    }
}

/// A line that was sent is read back: a text without a line feed in it, and without a
/// carriage return at its end, arrives as that text, and what follows it keeps waiting.
pub proof fn law_a_sent_line_is_read(text: Seq<char>, more: Seq<u8>, closed: bool)
    requires
        forall|i: int| 0 <= i < text.len() ==> #[trigger] text[i] != '\n',
        text.len() > 0 ==> text.last() != '\r',
        encode_utf8(text).len() < MAX_LINE,
    ensures
        ({
            let sent = encode_utf8(text) + seq![0x0au8];
            &&& line_size(sent + more, closed) == Some(sent.len() as int)
            &&& (sent + more).take(sent.len() as int) == sent
            &&& (sent + more).skip(sent.len() as int) == more
            &&& line_read(sent) == Ok::<Option<Seq<char>>, LineError>(Some(text))
        }),
{
    let body = encode_utf8(text);
    let sent = body + seq![0x0au8];
    let all = sent + more;
    lemma_text_without(text, '\n');
    assert forall|i: int| 0 <= i < body.len() implies #[trigger] all[i] != 0x0a by {
        assert(all[i] == body[i]);
    }
    lemma_line_feed_is(all, body.len() as int);
    assert(all.take(sent.len() as int) =~= sent);
    assert(all.skip(sent.len() as int) =~= more);
    let line = text.push('\n');
    lemma_encode_last(line);
    lemma_one_char('\n');
    assert(line.drop_last() =~= text);
    assert(encode_utf8(line) =~= sent);
    encode_utf8_valid_utf8(line);
    encode_utf8_decode_utf8(line);
    assert(stripped(text) == text);
    assert(stripped(line) == text);
}

/// A line of the transcript.
pub open spec fn entry(direction: Seq<char>, line: Seq<char>) -> Seq<char> {
    direction + " "@ + line + "\n"@
}

/// The line of a transcript: which way a line went, and what it said.
pub fn transcript_entry(direction: &str, line: &str) -> (s: String)
    ensures
        s@ == entry(direction@, line@),
{
    let mut s = direction.to_string();
    s.append(" ");
    s.append(line);
    s.append("\n");
    s
}

} // verus!
