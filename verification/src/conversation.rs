//! A conversation with the agent, from the greeting to its end: what is read, what is
//! answered, and what is written down.

use vstd::prelude::*;
use vstd::utf8::encode_utf8;

use crate::assuan::{
    data_line, entry, err_line, is_secret_line, law_replies_are_single_lines,
    law_secret_arrives_whole, lemma_text_without, ok_line, one_line, secret_lines, status_line,
    transcript_entry, LineError, ERR_CANCELLED, ERR_NOT_CONFIRMED, ERR_NO_PIN_ENTRY,
};
use crate::server::{
    after_line, command_parts, info_data, law_every_request_is_answered, reply_to, sends_secret,
    step_for, told_after, told_before, verb, Answer, StateView, Step, Verb,
};
use crate::text::trim;
use crate::unicode::{lemma_encode_join, lemma_one_char};

verus! {

/// What follows from an attempt to read a line.
pub enum Heard {
    /// More bytes have to be read first.
    More,
    /// The agent said this.
    Line(String),
    /// The input is over, and with it the conversation. That is a normal way to finish: the
    /// agent closes the pipe when it no longer needs the prompt.
    Over,
    /// The conversation cannot go on, and why.
    Fail(&'static str),
}

/// Says what follows from an attempt to read a line.
pub fn heard(read: Result<Option<String>, LineError>) -> (h: Heard)
    ensures
        match read {
            Ok(Some(line)) => h == Heard::Line(line),
            Ok(None) => h is Over,
            Err(LineError::Incomplete) => h is More,
            Err(LineError::TooLong) => h matches Heard::Fail(why) && why@
                == "Assuan line longer than the protocol allows"@,
            Err(LineError::NotText) => h matches Heard::Fail(why) && why@
                == "stream did not contain valid UTF-8"@,
        },
{
    match read {
        Ok(Some(line)) => Heard::Line(line),
        Ok(None) => Heard::Over,
        Err(LineError::Incomplete) => Heard::More,
        Err(LineError::TooLong) => Heard::Fail("Assuan line longer than the protocol allows"),
        Err(LineError::NotText) => Heard::Fail("stream did not contain valid UTF-8"),
    }
}

/// What the transcript says of the greeting.
pub open spec fn greeting_notes() -> Seq<char> {
    entry("<--"@, "OK Pleased to meet you"@)
}

/// What the transcript says of the greeting.
pub fn note_greeting() -> (s: String)
    ensures
        s@ == greeting_notes(),
{
    transcript_entry("<--", "OK Pleased to meet you")
}

/// What the transcript says of a line: the line, and where it ends the conversation, the
/// farewell. No answer that carries a passphrase is ever written down.
pub open spec fn notes(line: Seq<char>, step: Step) -> Seq<char> {
    match step {
        Step::Nothing => seq![],
        Step::Close => entry("-->"@, line) + entry("<--"@, "OK closing connection"@),
        _ => entry("-->"@, line),
    }
}

/// What the transcript says of a line.
pub fn note(line: &str, step: Step) -> (s: String)
    ensures
        s@ == notes(line@, step),
{
    match step {
        Step::Nothing => {
            let s = String::new();
            assert(s@ =~= Seq::<char>::empty());
            s
        },
        Step::Close => {
            let mut s = transcript_entry("-->", line);
            s.append(transcript_entry("<--", "OK closing connection").as_str());
            s
        },
        _ => transcript_entry("-->", line),
    }
}

/// One line of a conversation. Where it asks for somebody, `answer` is what came of that, and
/// `secret` what the buffer held.
pub struct Turn {
    pub line: Seq<char>,
    pub answer: Answer,
    pub secret: Seq<u8>,
}

/// The state after a turn.
pub open spec fn turn_state(st: StateView, t: Turn) -> StateView {
    if step_for(t.line) is Ask {
        StateView { error: None, ..after_line(st, t.line) }
    } else {
        after_line(st, t.line)
    }
}

/// Lines, one after the other.
pub open spec fn joined(ls: Seq<Seq<u8>>) -> Seq<u8>
    decreases ls.len(),
{
    if ls.len() == 0 {
        seq![]
    } else {
        ls[0] + joined(ls.drop_first())
    }
}

/// What is sent in a turn: the reply that `command` writes, or what `answered` tells, with the
/// lines of the passphrase in between where it is sent.
pub open spec fn turn_sent(st: StateView, t: Turn, pid: nat, version: Seq<char>) -> Seq<u8> {
    if step_for(t.line) is Ask {
        encode_utf8(told_before(st, t.answer)) + (if sends_secret(t.answer) {
            joined(secret_lines(t.secret))
        } else {
            seq![]
        }) + encode_utf8(told_after(t.answer))
    } else {
        encode_utf8(reply_to(st, t.line, pid, version))
    }
}

/// What is sent in a conversation after the greeting: turn after turn, until one closes it or
/// the input ends.
pub open spec fn sent(st: StateView, turns: Seq<Turn>, pid: nat, version: Seq<char>) -> Seq<u8>
    decreases turns.len(),
{
    if turns.len() == 0 {
        seq![]
    } else if step_for(turns[0].line) == Step::Close {
        turn_sent(st, turns[0], pid, version)
    } else {
        turn_sent(st, turns[0], pid, version) + sent(
            turn_state(st, turns[0]),
            turns.drop_first(),
            pid,
            version,
        )
    }
}

/// All that is sent in a conversation.
pub open spec fn conversation(
    st: StateView,
    turns: Seq<Turn>,
    pid: nat,
    version: Seq<char>,
) -> Seq<u8> {
    encode_utf8(ok_line("Pleased to meet you"@)) + sent(st, turns, pid, version)
}

/// One whole line of bytes: a line feed at its end, and neither line feed nor carriage return
/// before that.
pub open spec fn byte_line(l: Seq<u8>) -> bool {
    &&& l.len() > 0
    &&& l.last() == 0x0a
    &&& forall|i: int| 0 <= i < l.len() - 1 ==> #[trigger] l[i] != 0x0a && l[i] != 0x0d
}

/// A line that goes before an answer: it starts with `S ` or `D `.
pub open spec fn is_side(l: Seq<u8>) -> bool {
    byte_line(l) && l.len() > 2 && (l[0] == 0x53 || l[0] == 0x44) && l[1] == 0x20
}

/// A line that is an answer: it starts with `OK` or with `ERR`.
pub open spec fn is_final(l: Seq<u8>) -> bool {
    &&& byte_line(l)
    &&& l.len() > 2
    &&& l[0] == 0x4f && l[1] == 0x4b || l[0] == 0x45 && l[1] == 0x52 && l[2] == 0x52
}

/// One answer and the lines that go before it.
pub struct Reply {
    pub sides: Seq<Seq<u8>>,
    pub last: Seq<u8>,
}

impl Reply {
    /// The lines before are such lines, and the last is an answer.
    pub open spec fn wf(self) -> bool {
        &&& forall|i: int| 0 <= i < self.sides.len() ==> is_side(#[trigger] self.sides[i])
        &&& is_final(self.last)
    }

    /// The reply as it is sent.
    pub open spec fn bytes(self) -> Seq<u8> {
        joined(self.sides) + self.last
    }
}

/// The reply to a line that says something.
pub open spec fn reply(st: StateView, t: Turn, pid: nat, version: Seq<char>) -> Reply {
    let (cmd, rest) = command_parts(t.line);
    match step_for(t.line) {
        Step::Ask(_) => Reply {
            sides: (if told_before(st, t.answer).len() > 0 {
                seq![encode_utf8(told_before(st, t.answer))]
            } else {
                seq![]
            }) + (if sends_secret(t.answer) {
                secret_lines(t.secret)
            } else {
                seq![]
            }),
            last: encode_utf8(told_after(t.answer)),
        },
        Step::Close => Reply {
            sides: seq![],
            last: encode_utf8(ok_line("closing connection"@)),
        },
        _ => Reply {
            sides: if verb(cmd) == Verb::GetInfo {
                match info_data(st, trim(rest), pid, version) {
                    Some(data) => seq![encode_utf8(data_line(data))],
                    None => seq![],
                }
            } else {
                seq![]
            },
            last: encode_utf8(ok_line(Seq::empty())),
        },
    }
}

/// The lines that are to be answered: those that say something, up to the first that closes
/// the conversation, and that one too.
pub open spec fn heeded(turns: Seq<Turn>) -> Seq<Turn>
    decreases turns.len(),
{
    if turns.len() == 0 {
        seq![]
    } else {
        match step_for(turns[0].line) {
            Step::Nothing => heeded(turns.drop_first()),
            Step::Close => seq![turns[0]],
            _ => seq![turns[0]] + heeded(turns.drop_first()),
        }
    }
}

/// The state that each of those lines finds.
pub open spec fn states(st: StateView, turns: Seq<Turn>) -> Seq<StateView>
    decreases turns.len(),
{
    if turns.len() == 0 {
        seq![]
    } else {
        match step_for(turns[0].line) {
            Step::Nothing => states(st, turns.drop_first()),
            Step::Close => seq![st],
            _ => seq![st] + states(turn_state(st, turns[0]), turns.drop_first()),
        }
    }
}

/// The replies to those lines, in order.
pub open spec fn replies(
    st: StateView,
    turns: Seq<Turn>,
    pid: nat,
    version: Seq<char>,
) -> Seq<Reply> {
    Seq::new(
        heeded(turns).len(),
        |i: int| reply(states(st, turns)[i], heeded(turns)[i], pid, version),
    )
}

/// Replies, one after the other.
pub open spec fn all_bytes(rs: Seq<Reply>) -> Seq<u8>
    decreases rs.len(),
{
    if rs.len() == 0 {
        seq![]
    } else {
        rs[0].bytes() + all_bytes(rs.drop_first())
    }
}

/// The bytes of a line of text are a line of bytes.
proof fn lemma_byte_line(s: Seq<char>)
    requires
        one_line(s),
    ensures
        byte_line(encode_utf8(s)),
{
    let body = s.drop_last();
    assert forall|i: int| 0 <= i < body.len() implies #[trigger] body[i] != '\n' && body[i]
        != '\r' by {
        assert(body[i] == s[i]);
    }
    assert(body + seq!['\n'] =~= s);
    lemma_encode_join(body, seq!['\n']);
    lemma_one_char('\n');
    lemma_text_without(body, '\n');
    lemma_text_without(body, '\r');
    let b = encode_utf8(body);
    let e = encode_utf8(s);
    assert(e =~= b.push(0x0a));
    assert forall|i: int| 0 <= i < e.len() - 1 implies #[trigger] e[i] != 0x0a && e[i] != 0x0d by {
        assert(e[i] == b[i]);
    }
}

/// An ASCII character at the start of a text is the byte at the start of its encoding.
proof fn lemma_first_byte(c: char, rest: Seq<char>)
    requires
        (c as u32) < 0x80,
    ensures
        encode_utf8(seq![c] + rest) == seq![c as u8] + encode_utf8(rest),
{
    lemma_encode_join(seq![c], rest);
    lemma_one_char(c);
}

/// Which kind of line each reply is.
proof fn lemma_kinds(code: u32, text: Seq<char>)
    ensures
        is_final(encode_utf8(ok_line(text))),
        is_final(encode_utf8(err_line(code, text))),
        is_side(encode_utf8(status_line(text))),
        is_side(encode_utf8(data_line(text))),
{
    law_replies_are_single_lines(code, text);
    lemma_byte_line(ok_line(text));
    lemma_byte_line(err_line(code, text));
    lemma_byte_line(status_line(text));
    lemma_byte_line(data_line(text));
    reveal_strlit("OK\n");
    reveal_strlit("OK ");
    reveal_strlit("ERR ");
    reveal_strlit(" ");
    reveal_strlit("S ");
    reveal_strlit("D ");
    reveal_strlit("\n");
    let ok = ok_line(text);
    lemma_head(ok, 'O', 'K', ok[2]);
    let err = err_line(code, text);
    lemma_head(err, 'E', 'R', 'R');
    let status = status_line(text);
    lemma_head(status, 'S', ' ', status[2]);
    let data = data_line(text);
    lemma_head(data, 'D', ' ', data[2]);
}

/// The bytes that a text of three characters or more begins with.
proof fn lemma_head(s: Seq<char>, a: char, b: char, c: char)
    requires
        s.len() > 2,
        s[0] == a,
        s[1] == b,
        s[2] == c,
        (a as u32) < 0x80,
        (b as u32) < 0x80,
    ensures
        encode_utf8(s).len() > 2,
        encode_utf8(s)[0] == a as u8,
        encode_utf8(s)[1] == b as u8,
        (c as u32) < 0x80 ==> encode_utf8(s)[2] == c as u8,
{
    let rest = s.skip(3);
    let tail = seq![c] + rest;
    assert(seq![a] + (seq![b] + tail) =~= s);
    lemma_first_byte(a, seq![b] + tail);
    lemma_first_byte(b, tail);
    lemma_encode_join(seq![c], rest);
    lemma_one_char(c);
}

/// A line that carries part of a passphrase goes before an answer.
proof fn lemma_secret_line_is_side(l: Seq<u8>)
    requires
        is_secret_line(l),
    ensures
        is_side(l),
{
}

proof fn lemma_joined(a: Seq<Seq<u8>>, b: Seq<Seq<u8>>)
    ensures
        joined(a + b) == joined(a) + joined(b),
    decreases a.len(),
{
    if a.len() == 0 {
        assert(a + b =~= b);
        assert(joined(a) + joined(b) =~= joined(b));
    } else {
        lemma_joined(a.drop_first(), b);
        assert((a + b).drop_first() =~= a.drop_first() + b);
        assert(joined(a + b) =~= joined(a) + joined(b));
    }
}

proof fn lemma_joined_one(l: Seq<u8>)
    ensures
        joined(seq![l]) == l,
{
    let rest = seq![l].drop_first();
    assert(rest.len() == 0);
    assert(joined(rest) =~= seq![]);
    assert(l + joined(rest) =~= l);
}

/// What is sent in a turn is one reply.
proof fn lemma_turn(st: StateView, t: Turn, pid: nat, version: Seq<char>)
    requires
        step_for(t.line) != Step::Nothing,
    ensures
        reply(st, t, pid, version).wf(),
        reply(st, t, pid, version).bytes() == turn_sent(st, t, pid, version),
{
    let r = reply(st, t, pid, version);
    let nothing = Seq::<char>::empty();
    lemma_kinds(0, nothing);
    assert(joined(Seq::<Seq<u8>>::empty()) =~= seq![]);
    match step_for(t.line) {
        Step::Ask(_) => {
            law_every_request_is_answered(t.answer);
            assert(is_final(r.last)) by {
                if told_after(t.answer) != ok_line(nothing) {
                    let (code, text) = choose|code: u32, text: Seq<char>|
                        told_after(t.answer) == #[trigger] err_line(code, text) && (code
                            == ERR_CANCELLED || code == ERR_NOT_CONFIRMED || code
                            == ERR_NO_PIN_ENTRY);
                    lemma_kinds(code, text);
                }
            }
            let before = told_before(st, t.answer);
            let first = if before.len() > 0 {
                seq![encode_utf8(before)]
            } else {
                seq![]
            };
            let second = if sends_secret(t.answer) {
                secret_lines(t.secret)
            } else {
                seq![]
            };
            lemma_kinds(0, "PIN_REPEATED"@);
            law_secret_arrives_whole(t.secret);
            assert forall|i: int| 0 <= i < r.sides.len() implies is_side(#[trigger] r.sides[i]) by {
                if i < first.len() {
                    assert(r.sides[i] == encode_utf8(before));
                } else {
                    assert(r.sides[i] == second[i - first.len()]);
                    lemma_secret_line_is_side(second[i - first.len()]);
                }
            }
            lemma_joined(first, second);
            lemma_joined_one(encode_utf8(before));
            if before.len() == 0 {
                assert(encode_utf8(before) =~= seq![]);
                assert(joined(first) =~= encode_utf8(before));
            }
            assert(r.bytes() =~= turn_sent(st, t, pid, version));
        },
        Step::Close => {
            lemma_kinds(0, "closing connection"@);
            assert(r.bytes() =~= turn_sent(st, t, pid, version));
        },
        _ => {
            let (cmd, rest) = command_parts(t.line);
            let data = info_data(st, trim(rest), pid, version);
            if verb(cmd) == Verb::GetInfo && data is Some {
                lemma_kinds(0, data->0);
                lemma_joined_one(encode_utf8(data_line(data->0)));
                lemma_encode_join(data_line(data->0), ok_line(nothing));
            }
            assert(r.bytes() =~= turn_sent(st, t, pid, version));
        },
    }
}

proof fn lemma_conversation(st: StateView, turns: Seq<Turn>, pid: nat, version: Seq<char>)
    ensures
        states(st, turns).len() == heeded(turns).len(),
        sent(st, turns, pid, version) == all_bytes(replies(st, turns, pid, version)),
        forall|i: int|
            0 <= i < heeded(turns).len() ==> (#[trigger] replies(st, turns, pid, version)[i]).wf(),
    decreases turns.len(),
{
    let rs = replies(st, turns, pid, version);
    if turns.len() == 0 {
        assert(rs =~= seq![]);
    } else {
        let t = turns[0];
        let rest = turns.drop_first();
        let next = turn_state(st, t);
        let later = replies(next, rest, pid, version);
        lemma_conversation(next, rest, pid, version);
        match step_for(t.line) {
            Step::Nothing => {
                assert(next == st);
                assert(rs =~= later);
                assert(turn_sent(st, t, pid, version) =~= seq![]);
                assert(sent(st, turns, pid, version) =~= sent(next, rest, pid, version));
            },
            Step::Close => {
                lemma_turn(st, t, pid, version);
                assert(rs =~= seq![reply(st, t, pid, version)]);
                assert(rs.drop_first() =~= seq![]);
                assert(all_bytes(rs.drop_first()) =~= seq![]);
                assert(all_bytes(rs) =~= turn_sent(st, t, pid, version));
            },
            _ => {
                lemma_turn(st, t, pid, version);
                assert(rs =~= seq![reply(st, t, pid, version)] + later);
                assert(rs.drop_first() =~= later);
                assert forall|i: int| 0 <= i < rs.len() implies (#[trigger] rs[i]).wf() by {
                    if i > 0 {
                        assert(rs[i] == later[i - 1]);
                    }
                }
            },
        }
    }
}

/// Over a whole conversation the agent hears the greeting and after that exactly one answer to
/// each line that says something, in order, until it says goodbye or the input ends: an `OK` or
/// an `ERR`, with nothing before it but its own status and data lines.
pub proof fn law_each_line_is_answered_once(
    st: StateView,
    turns: Seq<Turn>,
    pid: nat,
    version: Seq<char>,
)
    ensures
        conversation(st, turns, pid, version) == encode_utf8(ok_line("Pleased to meet you"@))
            + all_bytes(replies(st, turns, pid, version)),
        is_final(encode_utf8(ok_line("Pleased to meet you"@))),
        replies(st, turns, pid, version).len() == heeded(turns).len(),
        forall|i: int|
            0 <= i < heeded(turns).len() ==> (#[trigger] replies(st, turns, pid, version)[i]).wf(),
{
    lemma_conversation(st, turns, pid, version);
    lemma_kinds(0, "Pleased to meet you"@);
}

/// A line cannot be taken for both an answer and one that goes before it, so the answers of a
/// conversation can be counted.
pub proof fn law_an_answer_is_told_from_what_goes_before(l: Seq<u8>)
    ensures
        !(is_side(l) && is_final(l)),
{
}

/// What the transcript of a conversation says after the greeting.
pub open spec fn noted(turns: Seq<Turn>) -> Seq<char>
    decreases turns.len(),
{
    if turns.len() == 0 {
        seq![]
    } else if step_for(turns[0].line) == Step::Close {
        notes(turns[0].line, step_for(turns[0].line))
    } else {
        notes(turns[0].line, step_for(turns[0].line)) + noted(turns.drop_first())
    }
}

/// What the transcript of a conversation says.
pub open spec fn transcript(turns: Seq<Turn>) -> Seq<char> {
    greeting_notes() + noted(turns)
}

/// The transcript does not depend on a passphrase: two conversations in which the agent says
/// the same have the same transcript, whatever was typed in each of them and whatever came of
/// it.
pub proof fn law_the_transcript_holds_no_passphrase(a: Seq<Turn>, b: Seq<Turn>)
    requires
        a.len() == b.len(),
        forall|i: int| 0 <= i < a.len() ==> #[trigger] a[i].line == b[i].line,
    ensures
        transcript(a) == transcript(b),
{
    lemma_noted(a, b);
}

proof fn lemma_noted(a: Seq<Turn>, b: Seq<Turn>)
    requires
        a.len() == b.len(),
        forall|i: int| 0 <= i < a.len() ==> #[trigger] a[i].line == b[i].line,
    ensures
        noted(a) == noted(b),
    decreases a.len(),
{
    if a.len() > 0 {
        let (r, s) = (a.drop_first(), b.drop_first());
        assert(a[0].line == b[0].line);
        assert forall|i: int| 0 <= i < r.len() implies #[trigger] r[i].line == s[i].line by {
            assert(r[i] == a[i + 1]);
            assert(a[i + 1].line == b[i + 1].line);
        }
        lemma_noted(r, s);
    }
}

} // verus!
