//! The commands of the agent: what each line it sends does to the state, what it is answered,
//! and what it makes ward ask.

use vstd::prelude::*;

use crate::assuan::{decoded, encoded, law_plain_text_decodes_to_itself};
use crate::laws::texts::{blank, law_a_text_is_split_once, law_trimming_takes_off_the_ends};
use crate::server::{
    after_line, command_parts, complaint_about, option_parts, reply_to, says_nothing, step_for,
    undashed, verb, Request, StateView, Step, Verb,
};
use crate::text::{
    is_space, is_word, lemma_find_is, lemma_runs, lemma_space_run_is, lemma_word_run_is,
    lemma_words_of_word, trim, trim_start, upper, upper_case, words,
};

verus! {

/// Whether `w` spells the command `name`, which is written in capitals, in any case.
pub open spec fn spells(w: Seq<char>, name: Seq<char>) -> bool {
    &&& w.len() == name.len()
    &&& forall|i: int|
        0 <= i < w.len() ==> #[trigger] w[i] == name[i] || ('A' <= name[i] <= 'Z' && w[i] as u32
            == name[i] as u32 + 32)
}

/// A command and what follows it.
pub open spec fn with_argument(w: Seq<char>, v: Seq<char>) -> Seq<char> {
    w + " "@ + v
}

/// Whether a text starts with no whitespace.
pub open spec fn unspaced(v: Seq<char>) -> bool {
    v.len() > 0 ==> !is_space(v[0])
}


proof fn lemma_upper(c: char, d: char)
    requires
        c == d || ('A' <= d <= 'Z' && c as u32 == d as u32 + 32),
        'A' <= d <= 'Z' || d == '_',
    ensures
        upper(c) == d,
        !is_space(c),
        c != '#',
{
}

/// A command is told apart from what follows it.
proof fn lemma_said(w: Seq<char>, name: Seq<char>, v: Seq<char>)
    requires
        spells(w, name),
        capitals(name),
        unspaced(v),
    ensures
        !says_nothing(with_argument(w, v)),
        command_parts(with_argument(w, v)) == (w, v),
        !says_nothing(w),
        command_parts(w) == (w, Seq::<char>::empty()),
        upper_case(w) == name,
{
    reveal_strlit(" ");
    let line = with_argument(w, v);
    assert forall|i: int| 0 <= i < w.len() implies upper(#[trigger] w[i]) == name[i] && !is_space(
        w[i],
    ) && w[i] != '#' && line[i] == w[i] by {
        assert('A' <= name[i] <= 'Z' || name[i] == '_');
        lemma_upper(w[i], name[i]);
    }
    assert(upper_case(w) =~= name);
    let n = w.len() as int;
    assert forall|i: int| 0 <= i < n implies !is_space(#[trigger] line[i]) by {
        assert(!is_space(w[i]));
    }
    assert(line[n] == ' ');
    lemma_word_run_is(line, n);
    lemma_word_run_is(w, n);
    assert(line.take(n) =~= w);
    assert(w.take(n) =~= w);
    let tail = line.skip(n);
    if v.len() > 0 {
        assert(tail[1] == v[0]);
    }
    lemma_space_run_is(tail, 1);
    assert(trim_start(tail) =~= v);
    assert(w.skip(n) =~= Seq::<char>::empty());
    lemma_space_run_is(w.skip(n), 0);
    assert(trim_start(w.skip(n)) =~= Seq::<char>::empty());
    assert(line[0] == w[0] && w[0] != '#');
}

/// Whether a name is written in capitals.
pub open spec fn capitals(name: Seq<char>) -> bool {
    name.len() > 0 && forall|i: int|
        0 <= i < name.len() ==> 'A' <= #[trigger] name[i] <= 'Z' || name[i] == '_'
}

pub(crate) proof fn lemma_capitals()
    ensures
        capitals("SETDESC"@),
        capitals("SETPROMPT"@),
        capitals("SETTITLE"@),
        capitals("SETERROR"@),
        capitals("SETOK"@),
        capitals("SETCANCEL"@),
        capitals("SETNOTOK"@),
        capitals("SETREPEAT"@),
        capitals("SETREPEATERROR"@),
        capitals("SETQUALITYBAR"@),
        capitals("SETKEYINFO"@),
        capitals("SETTIMEOUT"@),
        capitals("OPTION"@),
        capitals("GETINFO"@),
        capitals("RESET"@),
        capitals("MESSAGE"@),
        capitals("CONFIRM"@),
        capitals("GETPIN"@),
        capitals("BYE"@),
        capitals("CLEARPASSPHRASE"@),
        capitals("SETQUALITYBAR_TT"@),
        capitals("SETGENPIN"@),
        capitals("SETGENPIN_TT"@),
        capitals("NOP"@),
{
    reveal_strlit("SETDESC");
    reveal_strlit("SETPROMPT");
    reveal_strlit("SETTITLE");
    reveal_strlit("SETERROR");
    reveal_strlit("SETOK");
    reveal_strlit("SETCANCEL");
    reveal_strlit("SETNOTOK");
    reveal_strlit("SETREPEAT");
    reveal_strlit("SETREPEATERROR");
    reveal_strlit("SETQUALITYBAR");
    reveal_strlit("SETKEYINFO");
    reveal_strlit("SETTIMEOUT");
    reveal_strlit("OPTION");
    reveal_strlit("GETINFO");
    reveal_strlit("RESET");
    reveal_strlit("MESSAGE");
    reveal_strlit("CONFIRM");
    reveal_strlit("GETPIN");
    reveal_strlit("BYE");
    reveal_strlit("CLEARPASSPHRASE");
    reveal_strlit("SETQUALITYBAR_TT");
    reveal_strlit("SETGENPIN");
    reveal_strlit("SETGENPIN_TT");
    reveal_strlit("NOP");
}

/// Each word of the protocol is one command.
proof fn lemma_verbs(w: Seq<char>)
    ensures
        upper_case(w) == "SETDESC"@ ==> verb(w) == Verb::SetDesc,
        upper_case(w) == "SETPROMPT"@ ==> verb(w) == Verb::SetPrompt,
        upper_case(w) == "SETTITLE"@ ==> verb(w) == Verb::SetTitle,
        upper_case(w) == "SETERROR"@ ==> verb(w) == Verb::SetError,
        upper_case(w) == "SETOK"@ ==> verb(w) == Verb::SetOk,
        upper_case(w) == "SETCANCEL"@ ==> verb(w) == Verb::SetCancel,
        upper_case(w) == "SETNOTOK"@ ==> verb(w) == Verb::SetNotOk,
        upper_case(w) == "SETREPEAT"@ ==> verb(w) == Verb::SetRepeat,
        upper_case(w) == "SETREPEATERROR"@ ==> verb(w) == Verb::SetRepeatError,
        upper_case(w) == "SETQUALITYBAR"@ ==> verb(w) == Verb::SetQualityBar,
        upper_case(w) == "SETKEYINFO"@ ==> verb(w) == Verb::SetKeyInfo,
        upper_case(w) == "SETTIMEOUT"@ ==> verb(w) == Verb::SetTimeout,
        upper_case(w) == "OPTION"@ ==> verb(w) == Verb::SetOption,
        upper_case(w) == "GETINFO"@ ==> verb(w) == Verb::GetInfo,
        upper_case(w) == "RESET"@ ==> verb(w) == Verb::Reset,
        upper_case(w) == "MESSAGE"@ ==> verb(w) == Verb::Message,
        upper_case(w) == "CONFIRM"@ ==> verb(w) == Verb::Confirm,
        upper_case(w) == "GETPIN"@ ==> verb(w) == Verb::GetPin,
        upper_case(w) == "BYE"@ ==> verb(w) == Verb::Bye,
        upper_case(w) == "CLEARPASSPHRASE"@ ==> verb(w) == Verb::Agree,
        upper_case(w) == "SETQUALITYBAR_TT"@ ==> verb(w) == Verb::Agree,
        upper_case(w) == "SETGENPIN"@ ==> verb(w) == Verb::Agree,
        upper_case(w) == "SETGENPIN_TT"@ ==> verb(w) == Verb::Agree,
        upper_case(w) == "NOP"@ ==> verb(w) == Verb::Agree,
{
    reveal_strlit("SETDESC");
    reveal_strlit("SETPROMPT");
    reveal_strlit("SETTITLE");
    reveal_strlit("SETERROR");
    reveal_strlit("SETOK");
    reveal_strlit("SETCANCEL");
    reveal_strlit("SETNOTOK");
    reveal_strlit("SETREPEAT");
    reveal_strlit("SETREPEATERROR");
    reveal_strlit("SETQUALITYBAR");
    reveal_strlit("SETKEYINFO");
    reveal_strlit("SETTIMEOUT");
    reveal_strlit("OPTION");
    reveal_strlit("GETINFO");
    reveal_strlit("RESET");
    reveal_strlit("MESSAGE");
    reveal_strlit("CONFIRM");
    reveal_strlit("GETPIN");
    reveal_strlit("BYE");
    reveal_strlit("CLEARPASSPHRASE");
    reveal_strlit("SETQUALITYBAR_TT");
    reveal_strlit("SETGENPIN");
    reveal_strlit("SETGENPIN_TT");
    reveal_strlit("NOP");
    assert("SETDESC"@.len() == 7 && "SETDESC"@[0] == 'S');
    assert("SETPROMPT"@.len() == 9 && "SETPROMPT"@[3] == 'P');
    assert("SETTITLE"@.len() == 8 && "SETTITLE"@[3] == 'T');
    assert("SETERROR"@.len() == 8 && "SETERROR"@[3] == 'E');
    assert("SETOK"@.len() == 5 && "SETOK"@[0] == 'S');
    assert("SETCANCEL"@.len() == 9 && "SETCANCEL"@[3] == 'C');
    assert("SETNOTOK"@.len() == 8 && "SETNOTOK"@[3] == 'N');
    assert("SETREPEAT"@.len() == 9 && "SETREPEAT"@[3] == 'R');
    assert("SETREPEATERROR"@.len() == 14);
    assert("SETQUALITYBAR"@.len() == 13);
    assert("SETKEYINFO"@.len() == 10 && "SETKEYINFO"@[3] == 'K');
    assert("SETTIMEOUT"@.len() == 10 && "SETTIMEOUT"@[3] == 'T');
    assert("OPTION"@.len() == 6 && "OPTION"@[0] == 'O');
    assert("GETINFO"@.len() == 7 && "GETINFO"@[0] == 'G');
    assert("RESET"@.len() == 5 && "RESET"@[0] == 'R');
    assert("MESSAGE"@.len() == 7 && "MESSAGE"@[0] == 'M');
    assert("CONFIRM"@.len() == 7 && "CONFIRM"@[0] == 'C');
    assert("GETPIN"@.len() == 6 && "GETPIN"@[0] == 'G');
    assert("BYE"@.len() == 3 && "BYE"@[0] == 'B');
    assert("CLEARPASSPHRASE"@.len() == 15);
    assert("SETQUALITYBAR_TT"@.len() == 16);
    assert("SETGENPIN"@.len() == 9 && "SETGENPIN"@[3] == 'G');
    assert("SETGENPIN_TT"@.len() == 12);
    assert("NOP"@.len() == 3 && "NOP"@[0] == 'N');
}

/// A name, with and without something after it, is read as the command it names.
pub(crate) proof fn lemma_named(name: Seq<char>, v: Seq<char>)
    requires
        capitals(name),
        unspaced(v),
    ensures
        !says_nothing(with_argument(name, v)),
        command_parts(with_argument(name, v)) == (name, v),
        !says_nothing(name),
        command_parts(name) == (name, Seq::<char>::empty()),
        upper_case(name) == name,
{
    lemma_said(name, name, v);
}

/// Which command each name is.
pub(crate) proof fn lemma_named_verbs()
    ensures
        verb("SETDESC"@) == Verb::SetDesc,
        verb("SETPROMPT"@) == Verb::SetPrompt,
        verb("SETTITLE"@) == Verb::SetTitle,
        verb("SETERROR"@) == Verb::SetError,
        verb("SETOK"@) == Verb::SetOk,
        verb("SETCANCEL"@) == Verb::SetCancel,
        verb("SETNOTOK"@) == Verb::SetNotOk,
        verb("SETREPEAT"@) == Verb::SetRepeat,
        verb("SETREPEATERROR"@) == Verb::SetRepeatError,
        verb("SETQUALITYBAR"@) == Verb::SetQualityBar,
        verb("SETKEYINFO"@) == Verb::SetKeyInfo,
        verb("SETTIMEOUT"@) == Verb::SetTimeout,
        verb("OPTION"@) == Verb::SetOption,
        verb("GETINFO"@) == Verb::GetInfo,
        verb("RESET"@) == Verb::Reset,
        verb("MESSAGE"@) == Verb::Message,
        verb("CONFIRM"@) == Verb::Confirm,
        verb("GETPIN"@) == Verb::GetPin,
        verb("BYE"@) == Verb::Bye,
        verb("CLEARPASSPHRASE"@) == Verb::Agree,
        verb("SETQUALITYBAR_TT"@) == Verb::Agree,
        verb("SETGENPIN"@) == Verb::Agree,
        verb("SETGENPIN_TT"@) == Verb::Agree,
        verb("NOP"@) == Verb::Agree,
{
    lemma_capitals();
    assert(verb("SETDESC"@) == Verb::SetDesc) by {
        lemma_named("SETDESC"@, Seq::empty());
        lemma_verbs("SETDESC"@);
    }
    assert(verb("SETPROMPT"@) == Verb::SetPrompt) by {
        lemma_named("SETPROMPT"@, Seq::empty());
        lemma_verbs("SETPROMPT"@);
    }
    assert(verb("SETTITLE"@) == Verb::SetTitle) by {
        lemma_named("SETTITLE"@, Seq::empty());
        lemma_verbs("SETTITLE"@);
    }
    assert(verb("SETERROR"@) == Verb::SetError) by {
        lemma_named("SETERROR"@, Seq::empty());
        lemma_verbs("SETERROR"@);
    }
    assert(verb("SETOK"@) == Verb::SetOk) by {
        lemma_named("SETOK"@, Seq::empty());
        lemma_verbs("SETOK"@);
    }
    assert(verb("SETCANCEL"@) == Verb::SetCancel) by {
        lemma_named("SETCANCEL"@, Seq::empty());
        lemma_verbs("SETCANCEL"@);
    }
    assert(verb("SETNOTOK"@) == Verb::SetNotOk) by {
        lemma_named("SETNOTOK"@, Seq::empty());
        lemma_verbs("SETNOTOK"@);
    }
    assert(verb("SETREPEAT"@) == Verb::SetRepeat) by {
        lemma_named("SETREPEAT"@, Seq::empty());
        lemma_verbs("SETREPEAT"@);
    }
    assert(verb("SETREPEATERROR"@) == Verb::SetRepeatError) by {
        lemma_named("SETREPEATERROR"@, Seq::empty());
        lemma_verbs("SETREPEATERROR"@);
    }
    assert(verb("SETQUALITYBAR"@) == Verb::SetQualityBar) by {
        lemma_named("SETQUALITYBAR"@, Seq::empty());
        lemma_verbs("SETQUALITYBAR"@);
    }
    assert(verb("SETKEYINFO"@) == Verb::SetKeyInfo) by {
        lemma_named("SETKEYINFO"@, Seq::empty());
        lemma_verbs("SETKEYINFO"@);
    }
    assert(verb("SETTIMEOUT"@) == Verb::SetTimeout) by {
        lemma_named("SETTIMEOUT"@, Seq::empty());
        lemma_verbs("SETTIMEOUT"@);
    }
    assert(verb("OPTION"@) == Verb::SetOption) by {
        lemma_named("OPTION"@, Seq::empty());
        lemma_verbs("OPTION"@);
    }
    assert(verb("GETINFO"@) == Verb::GetInfo) by {
        lemma_named("GETINFO"@, Seq::empty());
        lemma_verbs("GETINFO"@);
    }
    assert(verb("RESET"@) == Verb::Reset) by {
        lemma_named("RESET"@, Seq::empty());
        lemma_verbs("RESET"@);
    }
    assert(verb("MESSAGE"@) == Verb::Message) by {
        lemma_named("MESSAGE"@, Seq::empty());
        lemma_verbs("MESSAGE"@);
    }
    assert(verb("CONFIRM"@) == Verb::Confirm) by {
        lemma_named("CONFIRM"@, Seq::empty());
        lemma_verbs("CONFIRM"@);
    }
    assert(verb("GETPIN"@) == Verb::GetPin) by {
        lemma_named("GETPIN"@, Seq::empty());
        lemma_verbs("GETPIN"@);
    }
    assert(verb("BYE"@) == Verb::Bye) by {
        lemma_named("BYE"@, Seq::empty());
        lemma_verbs("BYE"@);
    }
    assert(verb("CLEARPASSPHRASE"@) == Verb::Agree) by {
        lemma_named("CLEARPASSPHRASE"@, Seq::empty());
        lemma_verbs("CLEARPASSPHRASE"@);
    }
    assert(verb("SETQUALITYBAR_TT"@) == Verb::Agree) by {
        lemma_named("SETQUALITYBAR_TT"@, Seq::empty());
        lemma_verbs("SETQUALITYBAR_TT"@);
    }
    assert(verb("SETGENPIN"@) == Verb::Agree) by {
        lemma_named("SETGENPIN"@, Seq::empty());
        lemma_verbs("SETGENPIN"@);
    }
    assert(verb("SETGENPIN_TT"@) == Verb::Agree) by {
        lemma_named("SETGENPIN_TT"@, Seq::empty());
        lemma_verbs("SETGENPIN_TT"@);
    }
    assert(verb("NOP"@) == Verb::Agree) by {
        lemma_named("NOP"@, Seq::empty());
        lemma_verbs("NOP"@);
    }
}

pub(crate) proof fn lemma_spaced()
    ensures
        "SETDESC "@ == "SETDESC"@ + " "@,
        "SETPROMPT "@ == "SETPROMPT"@ + " "@,
        "SETTITLE "@ == "SETTITLE"@ + " "@,
        "SETERROR "@ == "SETERROR"@ + " "@,
        "SETOK "@ == "SETOK"@ + " "@,
        "SETCANCEL "@ == "SETCANCEL"@ + " "@,
        "SETNOTOK "@ == "SETNOTOK"@ + " "@,
        "SETREPEAT "@ == "SETREPEAT"@ + " "@,
        "SETREPEATERROR "@ == "SETREPEATERROR"@ + " "@,
        "SETQUALITYBAR "@ == "SETQUALITYBAR"@ + " "@,
        "SETKEYINFO "@ == "SETKEYINFO"@ + " "@,
        "SETTIMEOUT "@ == "SETTIMEOUT"@ + " "@,
        "OPTION "@ == "OPTION"@ + " "@,
        "GETINFO "@ == "GETINFO"@ + " "@,
        "RESET "@ == "RESET"@ + " "@,
        "MESSAGE "@ == "MESSAGE"@ + " "@,
        "CONFIRM "@ == "CONFIRM"@ + " "@,
        "GETPIN "@ == "GETPIN"@ + " "@,
        "BYE "@ == "BYE"@ + " "@,
        "CLEARPASSPHRASE "@ == "CLEARPASSPHRASE"@ + " "@,
        "SETQUALITYBAR_TT "@ == "SETQUALITYBAR_TT"@ + " "@,
        "SETGENPIN "@ == "SETGENPIN"@ + " "@,
        "SETGENPIN_TT "@ == "SETGENPIN_TT"@ + " "@,
        "NOP "@ == "NOP"@ + " "@,
{
    reveal_strlit(" ");
    assert("SETDESC "@ =~= "SETDESC"@ + " "@) by {
        reveal_strlit("SETDESC ");
        reveal_strlit("SETDESC");
    }
    assert("SETPROMPT "@ =~= "SETPROMPT"@ + " "@) by {
        reveal_strlit("SETPROMPT ");
        reveal_strlit("SETPROMPT");
    }
    assert("SETTITLE "@ =~= "SETTITLE"@ + " "@) by {
        reveal_strlit("SETTITLE ");
        reveal_strlit("SETTITLE");
    }
    assert("SETERROR "@ =~= "SETERROR"@ + " "@) by {
        reveal_strlit("SETERROR ");
        reveal_strlit("SETERROR");
    }
    assert("SETOK "@ =~= "SETOK"@ + " "@) by {
        reveal_strlit("SETOK ");
        reveal_strlit("SETOK");
    }
    assert("SETCANCEL "@ =~= "SETCANCEL"@ + " "@) by {
        reveal_strlit("SETCANCEL ");
        reveal_strlit("SETCANCEL");
    }
    assert("SETNOTOK "@ =~= "SETNOTOK"@ + " "@) by {
        reveal_strlit("SETNOTOK ");
        reveal_strlit("SETNOTOK");
    }
    assert("SETREPEAT "@ =~= "SETREPEAT"@ + " "@) by {
        reveal_strlit("SETREPEAT ");
        reveal_strlit("SETREPEAT");
    }
    assert("SETREPEATERROR "@ =~= "SETREPEATERROR"@ + " "@) by {
        reveal_strlit("SETREPEATERROR ");
        reveal_strlit("SETREPEATERROR");
    }
    assert("SETQUALITYBAR "@ =~= "SETQUALITYBAR"@ + " "@) by {
        reveal_strlit("SETQUALITYBAR ");
        reveal_strlit("SETQUALITYBAR");
    }
    assert("SETKEYINFO "@ =~= "SETKEYINFO"@ + " "@) by {
        reveal_strlit("SETKEYINFO ");
        reveal_strlit("SETKEYINFO");
    }
    assert("SETTIMEOUT "@ =~= "SETTIMEOUT"@ + " "@) by {
        reveal_strlit("SETTIMEOUT ");
        reveal_strlit("SETTIMEOUT");
    }
    assert("OPTION "@ =~= "OPTION"@ + " "@) by {
        reveal_strlit("OPTION ");
        reveal_strlit("OPTION");
    }
    assert("GETINFO "@ =~= "GETINFO"@ + " "@) by {
        reveal_strlit("GETINFO ");
        reveal_strlit("GETINFO");
    }
    assert("RESET "@ =~= "RESET"@ + " "@) by {
        reveal_strlit("RESET ");
        reveal_strlit("RESET");
    }
    assert("MESSAGE "@ =~= "MESSAGE"@ + " "@) by {
        reveal_strlit("MESSAGE ");
        reveal_strlit("MESSAGE");
    }
    assert("CONFIRM "@ =~= "CONFIRM"@ + " "@) by {
        reveal_strlit("CONFIRM ");
        reveal_strlit("CONFIRM");
    }
    assert("GETPIN "@ =~= "GETPIN"@ + " "@) by {
        reveal_strlit("GETPIN ");
        reveal_strlit("GETPIN");
    }
    assert("BYE "@ =~= "BYE"@ + " "@) by {
        reveal_strlit("BYE ");
        reveal_strlit("BYE");
    }
    assert("CLEARPASSPHRASE "@ =~= "CLEARPASSPHRASE"@ + " "@) by {
        reveal_strlit("CLEARPASSPHRASE ");
        reveal_strlit("CLEARPASSPHRASE");
    }
    assert("SETQUALITYBAR_TT "@ =~= "SETQUALITYBAR_TT"@ + " "@) by {
        reveal_strlit("SETQUALITYBAR_TT ");
        reveal_strlit("SETQUALITYBAR_TT");
    }
    assert("SETGENPIN "@ =~= "SETGENPIN"@ + " "@) by {
        reveal_strlit("SETGENPIN ");
        reveal_strlit("SETGENPIN");
    }
    assert("SETGENPIN_TT "@ =~= "SETGENPIN_TT"@ + " "@) by {
        reveal_strlit("SETGENPIN_TT ");
        reveal_strlit("SETGENPIN_TT");
    }
    assert("NOP "@ =~= "NOP"@ + " "@) by {
        reveal_strlit("NOP ");
        reveal_strlit("NOP");
    }
}

/// A command may be spelled in any case.
pub proof fn law_the_case_of_a_command_does_not_matter(
    st: StateView,
    w: Seq<char>,
    name: Seq<char>,
    v: Seq<char>,
    pid: nat,
    version: Seq<char>,
)
    requires
        spells(w, name),
        capitals(name),
        unspaced(v),
    ensures
        after_line(st, with_argument(w, v)) == after_line(st, with_argument(name, v)),
        step_for(with_argument(w, v)) == step_for(with_argument(name, v)),
        reply_to(st, with_argument(w, v), pid, version) == reply_to(
            st,
            with_argument(name, v),
            pid,
            version,
        ),
        after_line(st, w) == after_line(st, name),
        step_for(w) == step_for(name),
        reply_to(st, w, pid, version) == reply_to(st, name, pid, version),
{
    lemma_said(w, name, v);
    lemma_said(name, name, v);
}

/// Each of the commands that describe the prompt sets the one thing it is named after, to what
/// follows it on the line, and leaves everything else as it was.
pub proof fn law_each_setting_goes_to_its_own_place(st: StateView, v: Seq<char>)
    requires
        unspaced(v),
    ensures
        after_line(st, "SETDESC "@ + v) == (StateView { desc: Some(decoded(v)), ..st }),
        after_line(st, "SETPROMPT "@ + v) == (StateView { prompt: Some(decoded(v)), ..st }),
        after_line(st, "SETTITLE "@ + v) == (StateView { title: Some(decoded(v)), ..st }),
        after_line(st, "SETERROR "@ + v) == (StateView { error: Some(decoded(v)), ..st }),
        after_line(st, "SETOK "@ + v) == (StateView { ok: Some(decoded(v)), ..st }),
        after_line(st, "SETCANCEL "@ + v) == (StateView { cancel: Some(decoded(v)), ..st }),
        after_line(st, "SETNOTOK "@ + v) == (StateView { notok: Some(decoded(v)), ..st }),
        after_line(st, "SETREPEAT "@ + v) == (StateView { repeat: Some(decoded(v)), ..st }),
        after_line(st, "SETREPEATERROR "@ + v) == (StateView { repeat_error: Some(decoded(v)), ..st }),
        after_line(st, "SETQUALITYBAR "@ + v) == (StateView { quality_bar: Some(decoded(v)), ..st }),
        v != "--clear"@ ==> after_line(st, "SETKEYINFO "@ + v) == (StateView {
            keyinfo: Some(v),
            ..st
        }),
        after_line(st, "SETKEYINFO --clear"@) == (StateView { keyinfo: None, ..st }),
{
    lemma_capitals();
    lemma_named_verbs();
    lemma_spaced();
    lemma_named("SETDESC"@, v);
    lemma_named("SETPROMPT"@, v);
    lemma_named("SETTITLE"@, v);
    lemma_named("SETERROR"@, v);
    lemma_named("SETOK"@, v);
    lemma_named("SETCANCEL"@, v);
    lemma_named("SETNOTOK"@, v);
    lemma_named("SETREPEAT"@, v);
    lemma_named("SETREPEATERROR"@, v);
    lemma_named("SETQUALITYBAR"@, v);
    lemma_named("SETKEYINFO"@, v);
    reveal_strlit("--clear");
    lemma_named("SETKEYINFO"@, "--clear"@);
    assert("SETKEYINFO --clear"@ =~= "SETKEYINFO "@ + "--clear"@) by {
        reveal_strlit("SETKEYINFO --clear");
        reveal_strlit("SETKEYINFO ");
    }
}

/// What happens to a line that is answered at once with a plain `OK`.
pub open spec fn simply_accepted(
    st: StateView,
    line: Seq<char>,
    pid: nat,
    version: Seq<char>,
) -> bool {
    &&& step_for(line) == Step::Reply
    &&& reply_to(st, line, pid, version) == "OK\n"@
}

/// The commands that change the state are each answered `OK`, whatever they carry, and so are
/// those that ask for nothing ward keeps.
pub proof fn law_settings_are_acknowledged(
    st: StateView,
    name: Seq<char>,
    v: Seq<char>,
    pid: nat,
    version: Seq<char>,
)
    requires
        unspaced(v),
        name == "SETDESC"@
            || name == "SETPROMPT"@
            || name == "SETTITLE"@
            || name == "SETERROR"@
            || name == "SETOK"@
            || name == "SETCANCEL"@
            || name == "SETNOTOK"@
            || name == "SETREPEAT"@
            || name == "SETREPEATERROR"@
            || name == "SETQUALITYBAR"@
            || name == "SETKEYINFO"@
            || name == "SETTIMEOUT"@
            || name == "RESET"@
            || name == "CLEARPASSPHRASE"@
            || name == "SETQUALITYBAR_TT"@
            || name == "SETGENPIN"@
            || name == "SETGENPIN_TT"@
            || name == "NOP"@,
    ensures
        simply_accepted(st, name + " "@ + v, pid, version),
        simply_accepted(st, name, pid, version),
        complaint_about(name + " "@ + v) is None,
        complaint_about(name) is None,
{
    lemma_capitals();
    lemma_named_verbs();
    lemma_named(name, v);
}

/// The commands that ask for nothing ward keeps change nothing.
pub proof fn law_agreeing_changes_nothing(st: StateView, name: Seq<char>, v: Seq<char>)
    requires
        unspaced(v),
        name == "CLEARPASSPHRASE"@ || name == "SETQUALITYBAR_TT"@ || name == "SETGENPIN"@
            || name == "SETGENPIN_TT"@ || name == "NOP"@ || name == "GETINFO"@ || name == "GETPIN"@
            || name == "CONFIRM"@ || name == "MESSAGE"@ || name == "BYE"@,
    ensures
        after_line(st, name + " "@ + v) == st,
        after_line(st, name) == st,
{
    lemma_capitals();
    lemma_named_verbs();
    lemma_named(name, v);
}

/// `RESET` forgets what belongs to one prompt and nothing else.
pub proof fn law_reset_forgets_the_prompt_alone(st: StateView)
    ensures
        after_line(st, "RESET"@) == (StateView {
            desc: None,
            prompt: None,
            error: None,
            repeat: None,
            repeat_error: None,
            quality_bar: None,
            timeout_secs: st.default_timeout_secs,
            ..st
        }),
{
    lemma_capitals();
    lemma_named_verbs();
    lemma_named("RESET"@, Seq::empty());
}

/// What happens to a line that makes ward ask somebody: nothing is said before the answer.
pub open spec fn asked(
    st: StateView,
    line: Seq<char>,
    request: Request,
    pid: nat,
    version: Seq<char>,
) -> bool {
    &&& step_for(line) == Step::Ask(request)
    &&& reply_to(st, line, pid, version).len() == 0
    &&& complaint_about(line) is None
}

/// `GETPIN` asks for a passphrase, `MESSAGE` shows a message and `CONFIRM` puts a question, with
/// one button where `--one-button` is among the words that follow it and with two otherwise.
pub proof fn law_each_request_asks_its_own_question(
    st: StateView,
    v: Seq<char>,
    pid: nat,
    version: Seq<char>,
)
    requires
        unspaced(v),
    ensures
        asked(st, "GETPIN"@, Request::GetPin, pid, version),
        asked(st, "GETPIN "@ + v, Request::GetPin, pid, version),
        asked(st, "MESSAGE"@, Request::Message, pid, version),
        asked(st, "MESSAGE "@ + v, Request::Message, pid, version),
        asked(st, "CONFIRM"@, Request::Confirm { one_button: false }, pid, version),
        asked(st, "CONFIRM --one-button"@, Request::Confirm { one_button: true }, pid, version),
        asked(
            st,
            "CONFIRM "@ + v,
            (Request::Confirm { one_button: words(v).contains("--one-button"@) }),
            pid,
            version,
        ),
{
    lemma_capitals();
    lemma_named_verbs();
    lemma_spaced();
    lemma_named("GETPIN"@, v);
    lemma_named("MESSAGE"@, v);
    lemma_named("CONFIRM"@, v);
    lemma_runs(Seq::<char>::empty());
    assert(words(Seq::<char>::empty()).len() == 0);
    let one = "--one-button"@;
    reveal_strlit("--one-button");
    lemma_named("CONFIRM"@, one);
    assert("CONFIRM --one-button"@ =~= "CONFIRM "@ + one) by {
        reveal_strlit("CONFIRM --one-button");
        reveal_strlit("CONFIRM ");
    }
    lemma_words_of_word(one);
    assert(words(one)[0] == one);
}

/// `BYE` ends the conversation, and says so.
pub proof fn law_bye_closes(st: StateView, v: Seq<char>, pid: nat, version: Seq<char>)
    requires
        unspaced(v),
    ensures
        step_for("BYE"@) == Step::Close,
        step_for("BYE "@ + v) == Step::Close,
        reply_to(st, "BYE"@, pid, version) == "OK closing connection\n"@,
        reply_to(st, "BYE "@ + v, pid, version) == "OK closing connection\n"@,
{
    lemma_capitals();
    lemma_named_verbs();
    lemma_spaced();
    lemma_named("BYE"@, v);
    let text = "closing connection"@;
    reveal_strlit("closing connection");
    law_plain_text_is_sent_as_it_is(text);
    assert("OK "@ + text + "\n"@ =~= "OK closing connection\n"@) by {
        reveal_strlit("OK ");
        reveal_strlit("\n");
        reveal_strlit("OK closing connection\n");
    }
}

/// An empty line and a comment are passed over.
pub proof fn law_comments_are_passed_over(
    st: StateView,
    v: Seq<char>,
    pid: nat,
    version: Seq<char>,
)
    ensures
        step_for(Seq::empty()) == Step::Nothing,
        step_for("#"@ + v) == Step::Nothing,
        after_line(st, Seq::empty()) == st,
        after_line(st, "#"@ + v) == st,
        reply_to(st, Seq::empty(), pid, version).len() == 0,
        reply_to(st, "#"@ + v, pid, version).len() == 0,
        complaint_about(Seq::empty()) is None,
        complaint_about("#"@ + v) is None,
{
    reveal_strlit("#");
    assert(("#"@ + v)[0] == '#');
}

/// A command that ward does not know is answered `OK`, changes nothing, and is named in the
/// log.
pub proof fn law_an_unknown_command_is_accepted_and_logged(
    st: StateView,
    w: Seq<char>,
    v: Seq<char>,
    pid: nat,
    version: Seq<char>,
)
    requires
        is_word(w),
        w[0] != '#',
        unspaced(v),
        upper_case(w) != "SETDESC"@,
        upper_case(w) != "SETPROMPT"@,
        upper_case(w) != "SETTITLE"@,
        upper_case(w) != "SETERROR"@,
        upper_case(w) != "SETOK"@,
        upper_case(w) != "SETCANCEL"@,
        upper_case(w) != "SETNOTOK"@,
        upper_case(w) != "SETREPEAT"@,
        upper_case(w) != "SETREPEATERROR"@,
        upper_case(w) != "SETQUALITYBAR"@,
        upper_case(w) != "SETKEYINFO"@,
        upper_case(w) != "SETTIMEOUT"@,
        upper_case(w) != "OPTION"@,
        upper_case(w) != "GETINFO"@,
        upper_case(w) != "RESET"@,
        upper_case(w) != "MESSAGE"@,
        upper_case(w) != "CONFIRM"@,
        upper_case(w) != "GETPIN"@,
        upper_case(w) != "BYE"@,
        upper_case(w) != "CLEARPASSPHRASE"@,
        upper_case(w) != "SETQUALITYBAR_TT"@,
        upper_case(w) != "SETGENPIN"@,
        upper_case(w) != "SETGENPIN_TT"@,
        upper_case(w) != "NOP"@,
    ensures
        simply_accepted(st, w + " "@ + v, pid, version),
        simply_accepted(st, w, pid, version),
        after_line(st, w + " "@ + v) == st,
        after_line(st, w) == st,
        complaint_about(w + " "@ + v) == Some("ward: unknown command: "@ + w),
        complaint_about(w) == Some("ward: unknown command: "@ + w),
{
    reveal_strlit(" ");
    let line = w + " "@ + v;
    let n = w.len() as int;
    assert forall|i: int| 0 <= i < n implies !is_space(#[trigger] line[i]) by {
        assert(line[i] == w[i]);
    }
    assert(line[n] == ' ');
    lemma_word_run_is(line, n);
    lemma_word_run_is(w, n);
    assert(line.take(n) =~= w);
    assert(w.take(n) =~= w);
    assert(line[0] == w[0]);
}

/// A text that holds no `%`, no carriage return and no line feed is sent as it is.
pub proof fn law_plain_text_is_sent_as_it_is(s: Seq<char>)
    requires
        forall|i: int|
            0 <= i < s.len() ==> #[trigger] s[i] != '%' && s[i] != '\r' && s[i] != '\n',
    ensures
        encoded(s) == s,
    decreases s.len(),
{
    if s.len() > 0 {
        law_plain_text_is_sent_as_it_is(s.drop_last());
        assert(s[s.len() - 1] == s.last());
        assert(s.drop_last() + seq![s.last()] =~= s);
    }
}

/// Whether a text is the name of an option: one word that holds no `=` and starts with no dash.
pub open spec fn is_option_name(name: Seq<char>) -> bool {
    &&& is_word(name)
    &&& name[0] != '-'
    &&& forall|i: int| 0 <= i < name.len() ==> #[trigger] name[i] != '='
}

/// What may stand in front of an option's name: nothing, two dashes, or more, always in pairs.
pub open spec fn is_dashes(d: Seq<char>) -> bool {
    d.len() % 2 == 0 && forall|i: int| 0 <= i < d.len() ==> #[trigger] d[i] == '-'
}

proof fn lemma_undashed(d: Seq<char>, name: Seq<char>)
    requires
        is_dashes(d),
        name.len() > 0,
        name[0] != '-',
    ensures
        undashed(d + name) == name,
    decreases d.len(),
{
    let s = d + name;
    if d.len() == 0 {
        assert(s =~= name);
    } else {
        assert(s[0] == d[0] && s[1] == d[1]);
        let rest = d.skip(2);
        assert forall|i: int| 0 <= i < rest.len() implies #[trigger] rest[i] == '-' by {
            assert(rest[i] == d[i + 2]);
        }
        assert(s.skip(2) =~= rest + name);
        lemma_undashed(rest, name);
    }
}

pub(crate) proof fn lemma_trimmed(s: Seq<char>)
    requires
        s.len() > 0,
        !is_space(s[0]),
        !is_space(s.last()),
    ensures
        trim(s) == s,
{
    lemma_space_run_is(s, 0);
    assert(trim_start(s) =~= s);
}

/// An option is taken apart into its name and its value.
proof fn lemma_option(d: Seq<char>, name: Seq<char>, value: Seq<char>)
    requires
        is_option_name(name),
        is_dashes(d),
    ensures
        option_parts(d + name + "="@ + value) == (name, value),
        option_parts(d + name) == (name, Seq::<char>::empty()),
        unspaced(d + name + "="@ + value),
        unspaced(d + name),
{
    reveal_strlit("=");
    let n = d + name;
    let rest = d + name + "="@ + value;
    let k = n.len() as int;
    assert(n.last() == name[name.len() - 1]);
    lemma_undashed(d, name);
    if d.len() == 0 {
        assert(n =~= name);
    } else {
        assert(n[0] == d[0]);
    }
    assert forall|i: int| 0 <= i < k implies #[trigger] rest[i] != '=' && n[i] != '=' && rest[i]
        == n[i] by {
        if i < d.len() {
            assert(n[i] == d[i]);
        } else {
            assert(name[i - d.len()] != '=');
        }
    }
    assert(rest[k] == '=');
    lemma_find_is(rest, '=', k);
    lemma_find_is(n, '=', k);
    assert(rest.take(k) =~= n);
    assert(rest.skip(k + 1) =~= value);
    lemma_trimmed(n);
    assert(rest[0] == n[0]);
}

proof fn lemma_option_names()
    ensures
        is_option_name("ttyname"@),
        is_option_name("ttytype"@),
        is_option_name("display"@),
        is_option_name("lc-ctype"@),
        is_option_name("lc-messages"@),
        is_option_name("owner"@),
        is_option_name("grab"@),
        is_option_name("no-grab"@),
        is_option_name("allow-external-password-cache"@),
        is_option_name("touch-file"@),
        is_option_name("putenv"@),
{
    reveal_strlit("ttyname");
    reveal_strlit("ttytype");
    reveal_strlit("display");
    reveal_strlit("lc-ctype");
    reveal_strlit("lc-messages");
    reveal_strlit("owner");
    reveal_strlit("grab");
    reveal_strlit("no-grab");
    reveal_strlit("allow-external-password-cache");
    reveal_strlit("touch-file");
    reveal_strlit("putenv");
}

/// The names of the options differ from each other.
proof fn lemma_option_literals()
    ensures
        "ttyname"@.len() == 7,
        "ttytype"@.len() == 7,
        "display"@.len() == 7,
        "lc-ctype"@.len() == 8,
        "lc-messages"@.len() == 11,
        "owner"@.len() == 5,
        "grab"@.len() == 4,
        "no-grab"@.len() == 7,
        "allow-external-password-cache"@.len() == 29,
        "touch-file"@.len() == 10,
        "putenv"@.len() == 6,
        "ttyname"@[0] == 't',
        "ttyname"@[1] == 't',
        "ttyname"@[3] == 'n',
        "ttytype"@[0] == 't',
        "ttytype"@[1] == 't',
        "ttytype"@[3] == 't',
        "display"@[0] == 'd',
        "display"@[1] == 'i',
        "lc-ctype"@[0] == 'l',
        "lc-ctype"@[1] == 'c',
        "lc-messages"@[0] == 'l',
        "lc-messages"@[1] == 'c',
        "owner"@[0] == 'o',
        "owner"@[1] == 'w',
        "grab"@[0] == 'g',
        "grab"@[1] == 'r',
        "no-grab"@[0] == 'n',
        "no-grab"@[1] == 'o',
        "allow-external-password-cache"@[0] == 'a',
        "allow-external-password-cache"@[1] == 'l',
        "touch-file"@[0] == 't',
        "touch-file"@[1] == 'o',
        "putenv"@[0] == 'p',
        "putenv"@[1] == 'u',
{
    reveal_strlit("ttyname");
    reveal_strlit("ttytype");
    reveal_strlit("display");
    reveal_strlit("lc-ctype");
    reveal_strlit("lc-messages");
    reveal_strlit("owner");
    reveal_strlit("grab");
    reveal_strlit("no-grab");
    reveal_strlit("allow-external-password-cache");
    reveal_strlit("touch-file");
    reveal_strlit("putenv");
}

/// The line `OPTION rest`.
proof fn lemma_option_line(rest: Seq<char>)
    requires
        unspaced(rest),
    ensures
        !says_nothing("OPTION "@ + rest),
        command_parts("OPTION "@ + rest) == ("OPTION"@, rest),
        verb("OPTION"@) == Verb::SetOption,
{
    lemma_capitals();
    lemma_named_verbs();
    lemma_spaced();
    lemma_named("OPTION"@, rest);
}

/// Each option that carries a value sets the one thing it is named after, with dashes in front
/// or without.
pub proof fn law_each_option_goes_to_its_own_place(st: StateView, d: Seq<char>, value: Seq<char>)
    requires
        is_dashes(d),
    ensures
        after_line(st, "OPTION "@ + (d + "ttyname"@ + "="@ + value)) == (StateView {
            ttyname: Some(decoded(value)),
            ..st
        }),
        after_line(st, "OPTION "@ + (d + "ttytype"@ + "="@ + value)) == (StateView {
            ttytype: Some(decoded(value)),
            ..st
        }),
        after_line(st, "OPTION "@ + (d + "display"@ + "="@ + value)) == (StateView {
            display: Some(decoded(value)),
            ..st
        }),
        after_line(st, "OPTION "@ + (d + "lc-ctype"@ + "="@ + value)) == (StateView {
            lc_ctype: Some(decoded(value)),
            ..st
        }),
        after_line(st, "OPTION "@ + (d + "lc-messages"@ + "="@ + value)) == (StateView {
            lc_messages: Some(decoded(value)),
            ..st
        }),
        after_line(st, "OPTION "@ + (d + "owner"@ + "="@ + value)) == (StateView {
            owner: Some(decoded(value)),
            ..st
        }),
{
    lemma_option_names();
    lemma_option_literals();
    lemma_option(d, "ttyname"@, value);
    lemma_option_line(d + "ttyname"@ + "="@ + value);
    lemma_option(d, "ttytype"@, value);
    lemma_option_line(d + "ttytype"@ + "="@ + value);
    lemma_option(d, "display"@, value);
    lemma_option_line(d + "display"@ + "="@ + value);
    lemma_option(d, "lc-ctype"@, value);
    lemma_option_line(d + "lc-ctype"@ + "="@ + value);
    lemma_option(d, "lc-messages"@, value);
    lemma_option_line(d + "lc-messages"@ + "="@ + value);
    lemma_option(d, "owner"@, value);
    lemma_option_line(d + "owner"@ + "="@ + value);
}

/// The options that are flags switch what they are named after, with a value or without; and
/// `touch-file` is known and asks for nothing.
pub proof fn law_each_flag_switches_its_own_setting(st: StateView, d: Seq<char>, value: Seq<char>)
    requires
        is_dashes(d),
    ensures
        after_line(st, "OPTION "@ + (d + "grab"@)) == (StateView { no_grab: false, ..st }),
        after_line(st, "OPTION "@ + (d + "grab"@ + "="@ + value)) == (StateView {
            no_grab: false,
            ..st
        }),
        after_line(st, "OPTION "@ + (d + "no-grab"@)) == (StateView { no_grab: true, ..st }),
        after_line(st, "OPTION "@ + (d + "no-grab"@ + "="@ + value)) == (StateView {
            no_grab: true,
            ..st
        }),
        after_line(st, "OPTION "@ + (d + "allow-external-password-cache"@)) == (StateView {
            external_cache_allowed: true,
            ..st
        }),
        after_line(
            st,
            "OPTION "@ + (d + "allow-external-password-cache"@ + "="@ + value),
        ) == (StateView { external_cache_allowed: true, ..st }),
        after_line(st, "OPTION "@ + (d + "touch-file"@ + "="@ + value)) == st,
{
    lemma_option_names();
    lemma_option_literals();
    lemma_option(d, "grab"@, value);
    lemma_option_line(d + "grab"@ + "="@ + value);
    lemma_option_line(d + "grab"@);
    lemma_option(d, "no-grab"@, value);
    lemma_option_line(d + "no-grab"@ + "="@ + value);
    lemma_option_line(d + "no-grab"@);
    lemma_option(d, "allow-external-password-cache"@, value);
    lemma_option_line(d + "allow-external-password-cache"@ + "="@ + value);
    lemma_option_line(d + "allow-external-password-cache"@);
    lemma_option(d, "touch-file"@, value);
    lemma_option_line(d + "touch-file"@ + "="@ + value);
    lemma_option_line(d + "touch-file"@);
}

/// `putenv` sets a variable of the client's environment to what follows the `=`, and with a
/// name alone takes it away. No other variable changes, and nothing else does.
pub proof fn law_putenv_sets_one_variable(
    st: StateView,
    d: Seq<char>,
    name: Seq<char>,
    value: Seq<char>,
)
    requires
        is_dashes(d),
        forall|i: int| 0 <= i < name.len() ==> #[trigger] name[i] != '=' && name[i] != '%',
        forall|i: int| 0 <= i < value.len() ==> #[trigger] value[i] != '%',
    ensures
        after_line(st, "OPTION "@ + (d + "putenv"@ + "="@ + (name + "="@ + value))) == (StateView {
            client_env: st.client_env.insert(name, value),
            ..st
        }),
        after_line(st, "OPTION "@ + (d + "putenv"@ + "="@ + name)) == (StateView {
            client_env: st.client_env.remove(name),
            ..st
        }),
{
    lemma_option_names();
    lemma_option_literals();
    reveal_strlit("=");
    let setting = name + "="@ + value;
    let n = name.len() as int;
    assert forall|i: int| 0 <= i < setting.len() implies #[trigger] setting[i] != '%' by {
        if i < n {
            assert(setting[i] == name[i]);
        } else if i > n {
            assert(setting[i] == value[i - n - 1]);
        }
    }
    assert forall|i: int| 0 <= i < n implies #[trigger] setting[i] != '=' by {
        assert(setting[i] == name[i]);
    }
    law_plain_text_decodes_to_itself(setting);
    law_plain_text_decodes_to_itself(name);
    assert(setting[n] == '=');
    lemma_find_is(setting, '=', n);
    lemma_find_is(name, '=', n);
    assert(setting.take(n) =~= name);
    assert(setting.skip(n + 1) =~= value);
    lemma_option(d, "putenv"@, setting);
    lemma_option(d, "putenv"@, name);
    lemma_option_line(d + "putenv"@ + "="@ + setting);
    lemma_option_line(d + "putenv"@ + "="@ + name);
}

/// Any option whose name starts with `default-` is kept under its name.
pub proof fn law_default_labels_are_kept(
    st: StateView,
    d: Seq<char>,
    label: Seq<char>,
    value: Seq<char>,
)
    requires
        is_dashes(d),
        is_word(label),
        forall|i: int| 0 <= i < label.len() ==> #[trigger] label[i] != '=',
    ensures
        after_line(st, "OPTION "@ + (d + ("default-"@ + label) + "="@ + value)) == (StateView {
            defaults: st.defaults.insert("default-"@ + label, decoded(value)),
            ..st
        }),
        complaint_about("OPTION "@ + (d + ("default-"@ + label) + "="@ + value)) is None,
{
    let name = "default-"@ + label;
    reveal_strlit("default-");
    assert forall|i: int| 0 <= i < name.len() implies !is_space(#[trigger] name[i]) && name[i]
        != '=' by {
        if i >= 8 {
            assert(name[i] == label[i - 8]);
        }
    }
    lemma_option(d, name, value);
    lemma_option_line(d + name + "="@ + value);
    assert(name.take(8) =~= "default-"@);
    lemma_option_literals();
    assert(name[0] == 'd' && name[1] == 'e');
}

/// An option that ward does not know is answered `OK`, changes nothing, and is named in the
/// log. One that it knows is answered `OK` too, and nothing is logged.
pub proof fn law_an_unknown_option_is_accepted_and_logged(
    st: StateView,
    d: Seq<char>,
    name: Seq<char>,
    value: Seq<char>,
    pid: nat,
    version: Seq<char>,
)
    requires
        is_dashes(d),
        is_option_name(name),
        !(name.len() >= 8 && name.take(8) == "default-"@),
    ensures
        simply_accepted(st, "OPTION "@ + (d + name), pid, version),
        simply_accepted(st, "OPTION "@ + (d + name + "="@ + value), pid, version),
        ({
            let known = name == "ttyname"@
                || name == "ttytype"@
                || name == "display"@
                || name == "lc-ctype"@
                || name == "lc-messages"@
                || name == "owner"@
                || name == "grab"@
                || name == "no-grab"@
                || name == "allow-external-password-cache"@
                || name == "touch-file"@
                || name == "putenv"@;
            let said = "ward: unknown option: "@ + name;
            &&& known ==> complaint_about("OPTION "@ + (d + name)) is None
            &&& known ==> complaint_about("OPTION "@ + (d + name + "="@ + value)) is None
            &&& !known ==> complaint_about("OPTION "@ + (d + name)) == Some(said)
            &&& !known ==> complaint_about("OPTION "@ + (d + name + "="@ + value)) == Some(said)
            &&& !known ==> after_line(st, "OPTION "@ + (d + name)) == st
            &&& !known ==> after_line(st, "OPTION "@ + (d + name + "="@ + value)) == st
        }),
{
    lemma_option(d, name, value);
    lemma_option_line(d + name);
    lemma_option_line(d + name + "="@ + value);
    reveal_strlit("default-");
}

/// Blanks between an option's name and its `=` do not matter.
pub proof fn law_blanks_after_an_option_name_do_not_matter(
    st: StateView,
    d: Seq<char>,
    name: Seq<char>,
    gap: Seq<char>,
    value: Seq<char>,
)
    requires
        is_dashes(d),
        is_option_name(name),
        blank(gap),
    ensures
        after_line(st, "OPTION "@ + (d + name + gap + "="@ + value)) == after_line(
            st,
            "OPTION "@ + (d + name + "="@ + value),
        ),
        after_line(st, "OPTION "@ + (d + name + gap)) == after_line(st, "OPTION "@ + (d + name)),
{
    reveal_strlit("=");
    lemma_option(d, name, value);
    lemma_option_line(d + name + "="@ + value);
    lemma_option_line(d + name);
    lemma_undashed(d, name);
    let none = Seq::<char>::empty();
    let n = d + name;
    let g = d + name + gap;
    assert(n.last() == name[name.len() - 1]);
    if d.len() > 0 {
        assert(n[0] == d[0]);
    } else {
        assert(n[0] == name[0]);
    }
    law_trimming_takes_off_the_ends(none, n, gap);
    assert(none + n + gap =~= g);
    assert forall|i: int| 0 <= i < g.len() implies #[trigger] g[i] != '=' by {
        if i < d.len() {
            assert(g[i] == d[i]);
        } else if i < n.len() {
            assert(g[i] == name[i - d.len()]);
        } else {
            assert(g[i] == gap[i - n.len()]);
            assert(is_space(g[i]));
        }
    }
    law_a_text_is_split_once(g, '=', value);
    assert("="@ =~= seq!['=']);
    let rest = g + "="@ + value;
    assert(rest[0] == n[0] && g[0] == n[0]);
    lemma_option_line(rest);
    lemma_option_line(g);
    assert(option_parts(rest) == (name, value));
    assert(option_parts(g) == (name, none));
}

/// Any whitespace, and any amount of it, separates a command from what follows it.
pub proof fn law_any_whitespace_separates(
    st: StateView,
    w: Seq<char>,
    gap: Seq<char>,
    v: Seq<char>,
    pid: nat,
    version: Seq<char>,
)
    requires
        is_word(w),
        blank(gap),
        gap.len() > 0,
        unspaced(v),
    ensures
        after_line(st, w + gap + v) == after_line(st, w + " "@ + v),
        step_for(w + gap + v) == step_for(w + " "@ + v),
        reply_to(st, w + gap + v, pid, version) == reply_to(st, w + " "@ + v, pid, version),
        complaint_about(w + gap + v) == complaint_about(w + " "@ + v),
{
    reveal_strlit(" ");
    lemma_separated(w, gap, v);
    lemma_separated(w, " "@, v);
    assert((w + gap + v)[0] == w[0]);
    assert((w + " "@ + v)[0] == w[0]);
}

proof fn lemma_separated(w: Seq<char>, gap: Seq<char>, v: Seq<char>)
    requires
        is_word(w),
        blank(gap),
        gap.len() > 0,
        unspaced(v),
    ensures
        command_parts(w + gap + v) == (w, v),
{
    let line = w + gap + v;
    let n = w.len() as int;
    assert forall|i: int| 0 <= i < n implies !is_space(#[trigger] line[i]) by {
        assert(line[i] == w[i]);
    }
    assert(line[n] == gap[0]);
    lemma_word_run_is(line, n);
    assert(line.take(n) =~= w);
    let tail = line.skip(n);
    assert forall|i: int| 0 <= i < gap.len() implies is_space(#[trigger] tail[i]) by {
        assert(tail[i] == gap[i]);
    }
    if v.len() > 0 {
        assert(tail[gap.len() as int] == v[0]);
    }
    lemma_space_run_is(tail, gap.len() as int);
    assert(trim_start(tail) =~= v);
}

/// Dashes alone are an option without a name, which ward does not know.
pub proof fn law_dashes_alone_are_an_unknown_option(st: StateView, d: Seq<char>)
    requires
        is_dashes(d),
        d.len() > 0,
    ensures
        after_line(st, "OPTION "@ + d) == st,
        complaint_about("OPTION "@ + d) == Some("ward: unknown option: "@),
{
    assert(d[0] == '-' && d[d.len() - 1] == '-');
    lemma_option_line(d);
    lemma_only_dashes(d);
    lemma_trimmed(d);
    lemma_find_is(d, '=', d.len() as int);
    lemma_option_literals();
    reveal_strlit("default-");
    assert("ward: unknown option: "@ + Seq::<char>::empty() =~= "ward: unknown option: "@);
}

proof fn lemma_only_dashes(d: Seq<char>)
    requires
        is_dashes(d),
    ensures
        undashed(d) == Seq::<char>::empty(),
    decreases d.len(),
{
    if d.len() > 0 {
        assert(d[0] == '-' && d[1] == '-');
        let rest = d.skip(2);
        assert forall|i: int| 0 <= i < rest.len() implies #[trigger] rest[i] == '-' by {
            assert(rest[i] == d[i + 2]);
        }
        lemma_only_dashes(rest);
    } else {
        assert(d =~= Seq::<char>::empty());
    }
}

} // verus!
