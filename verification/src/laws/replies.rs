//! Replies: what the agent reads of an answer, of a question about ward, and of a number.

use vstd::prelude::*;

use crate::assuan::{data_line, encoded, err_line, ok_line, status_line};
use crate::laws::commands::{
    law_plain_text_is_sent_as_it_is, lemma_capitals, lemma_named, lemma_named_verbs, lemma_spaced,
    lemma_trimmed,
};
use crate::laws::texts::{blank, law_trimming_takes_off_the_ends};
use crate::server::{
    after_line, info_reply, reply_to, sends_secret, step_for, told_after, told_before, told_log,
    Answer, Request, StateView, Step,
};
use crate::text::{decimal, digit, digits_after, is_space, is_word, number, NumberError};
use crate::ui::Outcome;

verus! {

/// What a number in decimal is made of.
proof fn lemma_decimal(n: nat)
    ensures
        decimal(n).len() > 0,
        forall|i: int| 0 <= i < decimal(n).len() ==> '0' <= #[trigger] decimal(n)[i] <= '9',
    decreases n,
{
    if n >= 10 {
        lemma_decimal(n / 10);
    }
}

proof fn lemma_digits_push(so_far: nat, s: Seq<char>, d: nat, n: nat)
    requires
        d < 10,
        digits_after(so_far, s) == Ok::<nat, NumberError>(n),
        n * 10 + d <= u64::MAX,
    ensures
        digits_after(so_far, s.push(digit(d))) == Ok::<nat, NumberError>(n * 10 + d),
    decreases s.len(),
{
    let t = s.push(digit(d));
    if s.len() == 0 {
        assert(t.drop_first() =~= Seq::<char>::empty());
        assert(t[0] == digit(d));
        reveal_with_fuel(digits_after, 2);
    } else {
        assert(t[0] == s[0]);
        assert(t.drop_first() =~= s.drop_first().push(digit(d)));
        let next = so_far * 10 + (s[0] as nat - 48) as nat;
        lemma_digits_push(next, s.drop_first(), d, n);
    }
}

proof fn lemma_digits_read(n: nat)
    requires
        n <= u64::MAX,
    ensures
        digits_after(0, decimal(n)) == Ok::<nat, NumberError>(n),
    decreases n,
{
    if n < 10 {
        reveal_with_fuel(digits_after, 2);
        assert(seq![digit(n)].drop_first() =~= Seq::<char>::empty());
    } else {
        lemma_digits_read(n / 10);
        lemma_digits_push(0, decimal(n / 10), n % 10, n / 10);
    }
}

proof fn lemma_not_digits(so_far: nat, s: Seq<char>, i: int)
    requires
        0 <= i < s.len(),
        !('0' <= s[i] <= '9'),
    ensures
        digits_after(so_far, s) is Err,
    decreases s.len(),
{
    if i > 0 && '0' <= s[0] <= '9' {
        assert(s.drop_first()[i - 1] == s[i]);
        let next = so_far * 10 + (s[0] as nat - 48) as nat;
        lemma_not_digits(next, s.drop_first(), i - 1);
    }
}

/// A number that is written in decimal is read back as itself, with a `+` in front or without.
pub proof fn law_numbers_are_read_back(n: u64)
    ensures
        number(decimal(n as nat)) == Ok::<nat, NumberError>(n as nat),
        number("+"@ + decimal(n as nat)) == Ok::<nat, NumberError>(n as nat),
{
    lemma_decimal(n as nat);
    lemma_digits_read(n as nat);
    assert(decimal(n as nat)[0] != '+');
    reveal_strlit("+");
    let s = "+"@ + decimal(n as nat);
    assert(s[0] == '+');
    assert(s.drop_first() =~= decimal(n as nat));
}

/// A text that holds anything but digits, other than one `+` in front of them, is no number,
/// and neither is nothing at all.
pub proof fn law_other_text_is_no_number(s: Seq<char>, i: int)
    requires
        s.len() > 0 ==> 0 <= i < s.len() && !('0' <= s[i] <= '9') && (s.len() == 1 || i > 0 || s[i]
            != '+'),
    ensures
        number(s) is Err,
{
    if s.len() > 0 {
        if s[0] == '+' && s.len() > 1 {
            assert(s.drop_first()[i - 1] == s[i]);
            lemma_not_digits(0, s.drop_first(), i - 1);
        } else {
            lemma_not_digits(0, s, i);
        }
    }
}

/// Ten times a number is that number with a nought at its end.
pub proof fn law_decimals_are_positional(n: nat, d: nat)
    requires
        d < 10,
        n > 0,
    ensures
        decimal(10 * n + d) == decimal(n).push((48 + d) as char),
        decimal(d) == seq![(48 + d) as char],
{
    assert((10 * n + d) / 10 == n);
    assert((10 * n + d) % 10 == d);
}

/// `SETTIMEOUT` takes over the number it carries, and what is no number is no timeout.
pub proof fn law_a_timeout_is_taken_over(
    st: StateView,
    n: u64,
    gap: Seq<char>,
    v: Seq<char>,
    i: int,
)
    requires
        blank(gap),
        is_word(v),
        0 <= i < v.len(),
        !('0' <= v[i] <= '9'),
        v.len() == 1 || i > 0 || v[i] != '+',
    ensures
        after_line(st, "SETTIMEOUT "@ + decimal(n as nat)) == (StateView {
            timeout_secs: Some(n),
            ..st
        }),
        after_line(st, "SETTIMEOUT "@ + (decimal(n as nat) + gap)) == (StateView {
            timeout_secs: Some(n),
            ..st
        }),
        after_line(st, "SETTIMEOUT "@ + v) == (StateView { timeout_secs: None, ..st }),
{
    let t = decimal(n as nat);
    lemma_decimal(n as nat);
    lemma_capitals();
    lemma_named_verbs();
    lemma_spaced();
    assert(!is_space(t[0]) && !is_space(t[t.len() - 1]));
    lemma_named("SETTIMEOUT"@, t);
    lemma_trimmed(t);
    assert((t + gap)[0] == t[0]);
    lemma_named("SETTIMEOUT"@, t + gap);
    law_trimming_takes_off_the_ends(Seq::empty(), t, gap);
    assert(Seq::<char>::empty() + t + gap =~= t + gap);
    law_numbers_are_read_back(n);
    lemma_named("SETTIMEOUT"@, v);
    assert(!is_space(v[v.len() - 1]));
    lemma_trimmed(v);
    law_other_text_is_no_number(v, i);
}

/// What each reply looks like on the wire.
pub proof fn law_replies_have_their_form(code: u32, text: Seq<char>)
    ensures
        ok_line(Seq::empty()) == "OK\n"@,
        text.len() > 0 ==> ok_line(text) == "OK "@ + encoded(text) + "\n"@,
        err_line(code, text) == "ERR "@ + decimal(code as nat) + " "@ + encoded(text) + "\n"@,
        status_line(text) == "S "@ + encoded(text) + "\n"@,
        data_line(text) == "D "@ + encoded(text) + "\n"@,
{
}

/// How the codes are written.
proof fn lemma_codes()
    ensures
        decimal(83_886_179) == "83886179"@,
        decimal(83_886_194) == "83886194"@,
        decimal(83_886_147) == "83886147"@,
{
    reveal_with_fuel(decimal, 9);
    reveal_strlit("83886179");
    reveal_strlit("83886194");
    reveal_strlit("83886147");
    assert(decimal(83_886_179) =~= "83886179"@);
    assert(decimal(83_886_194) =~= "83886194"@);
    assert(decimal(83_886_147) =~= "83886147"@);
}

proof fn lemma_refusals()
    ensures
        err_line(83_886_179, "Operation cancelled"@) == "ERR 83886179 Operation cancelled\n"@,
        err_line(83_886_194, "not confirmed"@) == "ERR 83886194 not confirmed\n"@,
        err_line(83_886_147, "the display went away"@) == "ERR 83886147 the display went away\n"@,
        err_line(83_886_147, "no memory for the passphrase"@)
            == "ERR 83886147 no memory for the passphrase\n"@,
        err_line(83_886_147, "the prompt could not be shown"@)
            == "ERR 83886147 the prompt could not be shown\n"@,
        status_line("PIN_REPEATED"@) == "S PIN_REPEATED\n"@,
{
    lemma_codes();
    reveal_strlit("ERR ");
    reveal_strlit(" ");
    reveal_strlit("\n");
    reveal_strlit("83886179");
    reveal_strlit("83886194");
    reveal_strlit("83886147");
    assert(err_line(83_886_179, "Operation cancelled"@) =~= "ERR 83886179 Operation cancelled\n"@)
        by {
        reveal_strlit("Operation cancelled");
        reveal_strlit("ERR 83886179 Operation cancelled\n");
        law_plain_text_is_sent_as_it_is("Operation cancelled"@);
    }
    assert(err_line(83_886_194, "not confirmed"@) =~= "ERR 83886194 not confirmed\n"@) by {
        reveal_strlit("not confirmed");
        reveal_strlit("ERR 83886194 not confirmed\n");
        law_plain_text_is_sent_as_it_is("not confirmed"@);
    }
    assert(err_line(83_886_147, "the display went away"@)
        =~= "ERR 83886147 the display went away\n"@) by {
        reveal_strlit("the display went away");
        reveal_strlit("ERR 83886147 the display went away\n");
        law_plain_text_is_sent_as_it_is("the display went away"@);
    }
    assert(err_line(83_886_147, "no memory for the passphrase"@)
        =~= "ERR 83886147 no memory for the passphrase\n"@) by {
        reveal_strlit("no memory for the passphrase");
        reveal_strlit("ERR 83886147 no memory for the passphrase\n");
        law_plain_text_is_sent_as_it_is("no memory for the passphrase"@);
    }
    assert(err_line(83_886_147, "the prompt could not be shown"@)
        =~= "ERR 83886147 the prompt could not be shown\n"@) by {
        reveal_strlit("the prompt could not be shown");
        reveal_strlit("ERR 83886147 the prompt could not be shown\n");
        law_plain_text_is_sent_as_it_is("the prompt could not be shown"@);
    }
    assert(status_line("PIN_REPEATED"@) =~= "S PIN_REPEATED\n"@) by {
        reveal_strlit("S ");
        reveal_strlit("PIN_REPEATED");
        reveal_strlit("S PIN_REPEATED\n");
        law_plain_text_is_sent_as_it_is("PIN_REPEATED"@);
    }
}

/// What the agent reads of a request for a passphrase, however it ended. The passphrase goes
/// out if it was accepted and is not empty, and never otherwise.
pub proof fn law_what_a_passphrase_prompt_is_answered(st: StateView, empty: bool)
    ensures
        ({
            let accepted = Answer::Pin { outcome: Outcome::Accepted, empty };
            let cancelled = Answer::Pin { outcome: Outcome::Cancelled, empty };
            let declined = Answer::Pin { outcome: Outcome::NotOk, empty };
            let gone = Answer::Pin { outcome: Outcome::Unavailable, empty };
            &&& told_after(accepted) == "OK\n"@
            &&& sends_secret(accepted) == !empty
            &&& told_before(st, accepted) == if st.repeat is Some {
                "S PIN_REPEATED\n"@
            } else {
                Seq::empty()
            }
            &&& told_after(cancelled) == "ERR 83886179 Operation cancelled\n"@
            &&& told_after(declined) == "ERR 83886179 Operation cancelled\n"@
            &&& told_after(gone) == "ERR 83886147 the display went away\n"@
            &&& forall|a: Answer|
                a == cancelled || a == declined || a == gone ==> !#[trigger] sends_secret(a)
                    && told_before(st, a).len() == 0
        }),
{
    lemma_refusals();
}

/// What the agent reads of a question and of a message, however it ended, and of a request
/// that could not be put to anybody. None of these ever carries a passphrase.
pub proof fn law_what_a_question_is_answered(st: StateView, why: String)
    ensures
        told_after(Answer::Confirmed(Outcome::Accepted)) == "OK\n"@,
        told_after(Answer::Confirmed(Outcome::NotOk)) == "ERR 83886194 not confirmed\n"@,
        told_after(Answer::Confirmed(Outcome::Cancelled))
            == "ERR 83886179 Operation cancelled\n"@,
        told_after(Answer::Confirmed(Outcome::Unavailable))
            == "ERR 83886147 the display went away\n"@,
        told_after(Answer::Shown) == "OK\n"@,
        told_after(Answer::NoBuffer(why)) == "ERR 83886147 no memory for the passphrase\n"@,
        told_after(Answer::PromptFailed(why)) == "ERR 83886147 the prompt could not be shown\n"@,
        told_after(Answer::NoFrontend(why)) == "ERR 83886147 "@ + encoded(why@) + "\n"@,
        forall|a: Answer| !(a is Pin) ==> !#[trigger] sends_secret(a) && told_before(st, a).len()
            == 0,
{
    lemma_refusals();
    lemma_codes();
    reveal_strlit("ERR ");
    reveal_strlit(" ");
    reveal_strlit("83886147");
    reveal_strlit("ERR 83886147 ");
    assert("ERR "@ + "83886147"@ + " "@ =~= "ERR 83886147 "@);
}

/// What goes into the log of a request that failed names why; a request that did not fail leaves
/// nothing there.
pub proof fn law_a_failed_request_is_logged(request: Request, why: String, one_button: bool)
    ensures
        told_log(Request::GetPin, Answer::NoFrontend(why)) == Some("ward: GETPIN: "@ + why@),
        told_log(Request::Confirm { one_button }, Answer::NoFrontend(why)) == Some(
            "ward: CONFIRM: "@ + why@,
        ),
        told_log(Request::Message, Answer::NoFrontend(why)) == Some("ward: MESSAGE: "@ + why@),
        told_log(request, Answer::NoBuffer(why)) == Some("ward: no locked buffer: "@ + why@),
        told_log(request, Answer::PromptFailed(why)) == Some("ward: the prompt failed: "@ + why@),
        forall|a: Answer|
            a is Pin || a is Confirmed || a is Shown ==> #[trigger] told_log(request, a) is None,
{
    reveal_strlit("ward: ");
    reveal_strlit(": ");
    assert("ward: "@ + "GETPIN"@ + ": "@ =~= "ward: GETPIN: "@) by {
        reveal_strlit("GETPIN");
        reveal_strlit("ward: GETPIN: ");
    }
    assert("ward: "@ + "CONFIRM"@ + ": "@ =~= "ward: CONFIRM: "@) by {
        reveal_strlit("CONFIRM");
        reveal_strlit("ward: CONFIRM: ");
    }
    assert("ward: "@ + "MESSAGE"@ + ": "@ =~= "ward: MESSAGE: "@) by {
        reveal_strlit("MESSAGE");
        reveal_strlit("ward: MESSAGE: ");
    }
}

/// A value, or a dash.
pub open spec fn given(o: Option<Seq<char>>) -> Seq<char> {
    if o is Some {
        o->0
    } else {
        "-"@
    }
}

/// What ward tells about itself: its process, its version, its name, and the terminal, its kind
/// and the display that the agent named, in this order. Any other question gets a plain `OK`.
pub proof fn law_questions_about_ward_are_answered(
    st: StateView,
    what: Seq<char>,
    pid: nat,
    version: Seq<char>,
)
    ensures
        info_reply(st, "pid"@, pid, version) == "D "@ + decimal(pid) + "\n"@ + "OK\n"@,
        info_reply(st, "version"@, pid, version) == "D "@ + encoded(version) + "\n"@ + "OK\n"@,
        info_reply(st, "flavor"@, pid, version) == "D ward\nOK\n"@,
        info_reply(st, "ttyinfo"@, pid, version) == "D "@ + encoded(
            given(st.ttyname) + " "@ + given(st.ttytype) + " "@ + given(st.display),
        ) + "\n"@ + "OK\n"@,
        what != "pid"@ && what != "version"@ && what != "flavor"@ && what != "ttyinfo"@
            ==> info_reply(st, what, pid, version) == "OK\n"@,
{
    reveal_strlit("pid");
    reveal_strlit("version");
    reveal_strlit("flavor");
    reveal_strlit("ttyinfo");
    assert("pid"@.len() == 3 && "version"@.len() == 7 && "flavor"@.len() == 6);
    assert("ttyinfo"@.len() == 7 && "ttyinfo"@[0] == 't' && "version"@[0] == 'v');
    lemma_decimal(pid);
    law_plain_text_is_sent_as_it_is(decimal(pid));
    assert("D "@ + encoded("ward"@) + "\n"@ + "OK\n"@ =~= "D ward\nOK\n"@) by {
        reveal_strlit("ward");
        law_plain_text_is_sent_as_it_is("ward"@);
        reveal_strlit("D ");
        reveal_strlit("\n");
        reveal_strlit("OK\n");
        reveal_strlit("D ward\nOK\n");
    }
}

/// `GETINFO` is answered from the question that follows it.
pub proof fn law_getinfo_answers_its_question(
    st: StateView,
    what: Seq<char>,
    gap: Seq<char>,
    pid: nat,
    version: Seq<char>,
)
    requires
        is_word(what),
        blank(gap),
    ensures
        step_for("GETINFO "@ + what) == Step::Reply,
        reply_to(st, "GETINFO "@ + what, pid, version) == info_reply(st, what, pid, version),
        reply_to(st, "GETINFO "@ + (what + gap), pid, version) == info_reply(
            st,
            what,
            pid,
            version,
        ),
{
    lemma_capitals();
    lemma_named_verbs();
    lemma_spaced();
    lemma_named("GETINFO"@, what);
    assert(!is_space(what[what.len() - 1]));
    lemma_trimmed(what);
    assert((what + gap)[0] == what[0]);
    lemma_named("GETINFO"@, what + gap);
    law_trimming_takes_off_the_ends(Seq::empty(), what, gap);
    assert(Seq::<char>::empty() + what + gap =~= what + gap);
}

proof fn lemma_digits_after_push(so_far: nat, s: Seq<char>, c: char)
    ensures
        digits_after(so_far, s.push(c)) == match digits_after(so_far, s) {
            Ok(n) => digits_after(n, seq![c]),
            Err(e) => Err(e),
        },
    decreases s.len(),
{
    let t = s.push(c);
    if s.len() == 0 {
        assert(t =~= seq![c]);
    } else {
        assert(t[0] == s[0]);
        assert(t.drop_first() =~= s.drop_first().push(c));
        if '0' <= s[0] <= '9' {
            lemma_digits_after_push(so_far * 10 + (s[0] as nat - 48) as nat, s.drop_first(), c);
        }
    }
}

/// How a number is read, digit by digit: each digit counts ten times what came before and
/// itself, as far as 64 bits hold it, and the first thing that goes wrong is what is told.
pub proof fn law_a_number_is_read_digit_by_digit(s: Seq<char>, c: char)
    requires
        s.len() > 0,
        s[0] != '+' || s.len() > 1,
    ensures
        number(Seq::empty()) == Err::<nat, NumberError>(NumberError::Empty),
        number(seq![c]) == if '0' <= c <= '9' {
            Ok::<nat, NumberError>((c as nat - 48) as nat)
        } else {
            Err(NumberError::InvalidDigit)
        },
        number(s.push(c)) == match number(s) {
            Err(e) => Err(e),
            Ok(n) => if !('0' <= c <= '9') {
                Err(NumberError::InvalidDigit)
            } else if n * 10 + (c as nat - 48) > u64::MAX {
                Err(NumberError::TooLarge)
            } else {
                Ok((n * 10 + (c as nat - 48)) as nat)
            },
        },
{
    reveal_with_fuel(digits_after, 2);
    assert(seq![c].drop_first() =~= Seq::<char>::empty());
    assert(s.push(c)[0] == s[0]);
    if s[0] == '+' {
        assert(s.push(c).drop_first() =~= s.drop_first().push(c));
        lemma_digits_after_push(0, s.drop_first(), c);
    } else {
        lemma_digits_after_push(0, s, c);
    }
}

} // verus!
