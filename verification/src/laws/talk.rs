//! A conversation: what the agent receives of a passphrase, and what is written down.

use vstd::prelude::*;
use vstd::utf8::encode_utf8;

use crate::assuan::{entry, payloads, secret_lines, unescaped};
use crate::conversation::{
    greeting_notes, joined, noted, notes, sent, transcript, turn_sent, turn_state, Turn,
};
use crate::laws::replies::law_what_a_passphrase_prompt_is_answered;
use crate::server::{after_line, step_for, Answer, StateView, Step};
use crate::ui::Outcome;

verus! {

/// What the transcript says: nothing of a line that says nothing, otherwise the line and which
/// way it went, and after the one that closes the conversation the farewell.
pub proof fn law_what_the_transcript_says(line: Seq<char>, step: Step)
    ensures
        greeting_notes() == "<-- OK Pleased to meet you\n"@,
        notes(line, Step::Nothing).len() == 0,
        notes(line, Step::Close) == "--> "@ + line + "\n<-- OK closing connection\n"@,
        step is Reply || step is Ask ==> notes(line, step) == "--> "@ + line + "\n"@,
{
    reveal_strlit("<--");
    reveal_strlit("-->");
    reveal_strlit(" ");
    reveal_strlit("\n");
    reveal_strlit("--> ");
    assert("-->"@ + " "@ =~= "--> "@);
    assert(entry("<--"@, "OK Pleased to meet you"@) =~= "<-- OK Pleased to meet you\n"@) by {
        reveal_strlit("OK Pleased to meet you");
        reveal_strlit("<-- OK Pleased to meet you\n");
    }
    assert("\n"@ + entry("<--"@, "OK closing connection"@)
        =~= "\n<-- OK closing connection\n"@) by {
        reveal_strlit("OK closing connection");
        reveal_strlit("\n<-- OK closing connection\n");
    }
    assert(notes(line, Step::Close) =~= "--> "@ + line + ("\n"@ + entry(
        "<--"@,
        "OK closing connection"@,
    )));
}

/// The transcript holds the greeting and then every line that says something, in order, up to
/// the one that closes the conversation.
pub proof fn law_the_transcript_holds_every_line(t: Turn, rest: Seq<Turn>)
    ensures
        transcript(Seq::empty()) == "<-- OK Pleased to meet you\n"@,
        step_for(t.line) == Step::Nothing ==> noted(seq![t] + rest) == noted(rest),
        step_for(t.line) == Step::Close ==> noted(seq![t] + rest) == "--> "@ + t.line
            + "\n<-- OK closing connection\n"@,
        step_for(t.line) is Reply || step_for(t.line) is Ask ==> noted(seq![t] + rest) == "--> "@
            + t.line + "\n"@ + noted(rest),
{
    let all = seq![t] + rest;
    assert(all.drop_first() =~= rest);
    assert(all[0] == t);
    law_what_the_transcript_says(t.line, step_for(t.line));
    assert(noted(Seq::<Turn>::empty()) =~= Seq::<char>::empty());
    assert(transcript(Seq::empty()) =~= greeting_notes());
    if step_for(t.line) == Step::Nothing {
        assert(noted(all) =~= noted(rest));
    }
}

/// A passphrase that is accepted is sent whole: between the word that it was repeated, where a
/// repetition was asked for, and the `OK`, the agent receives lines whose payloads spell it. An
/// empty one is an `OK` and nothing else.
pub proof fn law_an_accepted_passphrase_is_sent(
    st: StateView,
    t: Turn,
    empty: bool,
    pid: nat,
    version: Seq<char>,
)
    requires
        step_for(t.line) is Ask,
        t.answer == (Answer::Pin { outcome: Outcome::Accepted, empty }),
    ensures
        ({
            let before = if st.repeat is Some {
                encode_utf8("S PIN_REPEATED\n"@)
            } else {
                Seq::empty()
            };
            &&& empty ==> turn_sent(st, t, pid, version) == before + encode_utf8("OK\n"@)
            &&& !empty ==> turn_sent(st, t, pid, version) == before + joined(
                secret_lines(t.secret),
            ) + encode_utf8("OK\n"@)
            &&& unescaped(payloads(secret_lines(t.secret))) == t.secret
        }),
{
    law_what_a_passphrase_prompt_is_answered(st, empty);
    crate::assuan::law_secret_arrives_whole(t.secret);
    let none = Seq::<char>::empty();
    assert(encode_utf8(none) =~= Seq::<u8>::empty());
    let e = Seq::<u8>::empty();
    let ok = encode_utf8("OK\n"@);
    let r = encode_utf8("S PIN_REPEATED\n"@);
    assert(e + e + ok =~= e + ok);
    assert(r + e + ok =~= r + ok);
}

/// A prompt that is not accepted sends the agent an error and nothing of what was typed.
pub proof fn law_a_refused_passphrase_is_not_sent(
    st: StateView,
    t: Turn,
    other: Turn,
    empty: bool,
    pid: nat,
    version: Seq<char>,
)
    requires
        step_for(t.line) is Ask,
        t.answer == (Answer::Pin { outcome: Outcome::Cancelled, empty }) || t.answer == (
        Answer::Pin { outcome: Outcome::NotOk, empty }),
        other.line == t.line && other.answer == t.answer,
    ensures
        turn_sent(st, t, pid, version) == encode_utf8("ERR 83886179 Operation cancelled\n"@),
        turn_sent(st, other, pid, version) == turn_sent(st, t, pid, version),
{
    law_what_a_passphrase_prompt_is_answered(st, empty);
    let none = Seq::<char>::empty();
    assert(encode_utf8(none) =~= Seq::<u8>::empty());
    let e = Seq::<u8>::empty();
    let err = encode_utf8("ERR 83886179 Operation cancelled\n"@);
    assert(e + e + err =~= err);
}

/// The error of a previous try is shown once: after any request it is gone, and everything else
/// is as the line left it.
pub proof fn law_an_error_is_shown_once(st: StateView, t: Turn)
    ensures
        step_for(t.line) is Ask ==> turn_state(st, t) == (StateView { error: None, ..st }),
        !(step_for(t.line) is Ask) ==> turn_state(st, t) == after_line(st, t.line),
{
}

/// The turns of a conversation follow each other, each on the state that the one before left,
/// and nothing is sent after the one that closes it.
pub proof fn law_turns_follow_each_other(
    st: StateView,
    t: Turn,
    rest: Seq<Turn>,
    pid: nat,
    version: Seq<char>,
)
    ensures
        sent(st, Seq::empty(), pid, version).len() == 0,
        step_for(t.line) == Step::Close ==> sent(st, seq![t] + rest, pid, version) == encode_utf8(
            "OK closing connection\n"@,
        ),
        step_for(t.line) != Step::Close ==> sent(st, seq![t] + rest, pid, version) == turn_sent(
            st,
            t,
            pid,
            version,
        ) + sent(turn_state(st, t), rest, pid, version),
{
    let all = seq![t] + rest;
    assert(all.drop_first() =~= rest);
    assert(all[0] == t);
    let text = "closing connection"@;
    reveal_strlit("closing connection");
    crate::laws::commands::law_plain_text_is_sent_as_it_is(text);
    assert("OK "@ + text + "\n"@ =~= "OK closing connection\n"@) by {
        reveal_strlit("OK ");
        reveal_strlit("\n");
        reveal_strlit("OK closing connection\n");
    }
}

} // verus!
