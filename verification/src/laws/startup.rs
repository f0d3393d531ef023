//! The start: what each flag does, and what is reported of hardening and swap.

use vstd::prelude::*;
use vstd::utf8::encode_utf8;

use crate::args::{
    command_line, flags_read, listed, opening_text, version_text, InvocationView, Purpose,
};
use crate::harden::{devices, spoken, swap_note, took_effect};
use crate::laws::replies::law_numbers_are_read_back;
use crate::laws::texts::{blank, law_a_text_falls_into_lines, law_trimming_takes_off_the_ends};
use crate::server::{StateView, PASSPHRASE_CAPACITY};
use crate::text::{decimal, is_space, lines, number, trim, trim_end, NumberError};
use crate::unicode::{lemma_encode_last, lemma_one_char};

verus! {

/// What is known before anything is read.
pub open spec fn nothing_said() -> InvocationView {
    InvocationView {
        purpose: Purpose::Serve,
        state: StateView::blank(),
        transcript: None,
        complaints: Seq::empty(),
    }
}

/// Flags are read one after the other: a flag that takes a value takes the argument after it,
/// sets the one thing it is named after, and the reading goes on behind that.
pub proof fn law_each_flag_sets_its_own_setting(
    inv: InvocationView,
    v: Seq<char>,
    rest: Seq<Seq<char>>,
)
    ensures
        flags_read(inv, seq!["--transcript"@, v] + rest) == flags_read(
            (InvocationView { transcript: Some(v), ..inv }),
            rest,
        ),
        flags_read(inv, seq!["--frontend"@, v] + rest) == flags_read(
            (InvocationView {
                state: (StateView { forced_frontend: Some(v), ..inv.state }),
                ..inv
            }),
            rest,
        ),
        flags_read(inv, seq!["--display"@, v] + rest) == flags_read(
            (InvocationView { state: (StateView { display: Some(v), ..inv.state }), ..inv }),
            rest,
        ),
        flags_read(inv, seq!["--ttyname"@, v] + rest) == flags_read(
            (InvocationView { state: (StateView { ttyname: Some(v), ..inv.state }), ..inv }),
            rest,
        ),
        flags_read(inv, seq!["--ttytype"@, v] + rest) == flags_read(
            (InvocationView { state: (StateView { ttytype: Some(v), ..inv.state }), ..inv }),
            rest,
        ),
        flags_read(inv, seq!["--lc-ctype"@, v] + rest) == flags_read(
            (InvocationView { state: (StateView { lc_ctype: Some(v), ..inv.state }), ..inv }),
            rest,
        ),
        flags_read(inv, seq!["--lc-messages"@, v] + rest) == flags_read(
            (InvocationView { state: (StateView { lc_messages: Some(v), ..inv.state }), ..inv }),
            rest,
        ),
{
    lemma_flags();
    assert((seq!["--transcript"@, v] + rest).skip(2) =~= rest);
    assert((seq!["--frontend"@, v] + rest).skip(2) =~= rest);
    assert((seq!["--display"@, v] + rest).skip(2) =~= rest);
    assert((seq!["--ttyname"@, v] + rest).skip(2) =~= rest);
    assert((seq!["--ttytype"@, v] + rest).skip(2) =~= rest);
    assert((seq!["--lc-ctype"@, v] + rest).skip(2) =~= rest);
    assert((seq!["--lc-messages"@, v] + rest).skip(2) =~= rest);
}

/// The flags differ from each other.
proof fn lemma_flags()
    ensures
        "--transcript"@.len() == 12,
        "--frontend"@.len() == 10,
        "--frontend"@[2] == 'f',
        "--display"@.len() == 9,
        "--display"@[2] == 'd',
        "--ttyname"@.len() == 9,
        "--ttyname"@[2] == 't',
        "--ttyname"@[3] == 't',
        "--ttyname"@[5] == 'n',
        "--ttytype"@.len() == 9,
        "--ttytype"@[2] == 't',
        "--ttytype"@[3] == 't',
        "--ttytype"@[5] == 't',
        "--lc-ctype"@.len() == 10,
        "--lc-ctype"@[2] == 'l',
        "--lc-messages"@.len() == 13,
        "--timeout"@.len() == 9,
        "--timeout"@[2] == 't',
        "--timeout"@[3] == 'i',
        "--help"@.len() == 6,
        "-h"@.len() == 2,
        "-h"@[1] == 'h',
        "--version"@.len() == 9,
        "--version"@[2] == 'v',
        "-V"@.len() == 2,
        "-V"@[1] == 'V',
{
    reveal_strlit("--transcript");
    reveal_strlit("--frontend");
    reveal_strlit("--display");
    reveal_strlit("--ttyname");
    reveal_strlit("--ttytype");
    reveal_strlit("--lc-ctype");
    reveal_strlit("--lc-messages");
    reveal_strlit("--timeout");
    reveal_strlit("--help");
    reveal_strlit("-h");
    reveal_strlit("--version");
    reveal_strlit("-V");
}

/// `--timeout` sets the seconds of this prompt and of every later one; what is no number is
/// complained about, and changes nothing.
pub proof fn law_the_timeout_flag(
    inv: InvocationView,
    n: u64,
    v: Seq<char>,
    rest: Seq<Seq<char>>,
)
    requires
        number(v) is Err,
    ensures
        flags_read(inv, seq!["--timeout"@, decimal(n as nat)] + rest) == flags_read(
            (InvocationView {
                state: (StateView {
                    default_timeout_secs: Some(n),
                    timeout_secs: Some(n),
                    ..inv.state
                }),
                ..inv
            }),
            rest,
        ),
        ({
            let why = match number(v)->Err_0 {
                NumberError::Empty => "cannot parse integer from empty string"@,
                NumberError::InvalidDigit => "invalid digit found in string"@,
                NumberError::TooLarge => "number too large to fit in target type"@,
            };
            flags_read(inv, seq!["--timeout"@, v] + rest) == flags_read(
                (InvocationView {
                    complaints: inv.complaints.push(
                        "ward: --timeout is not a number of seconds: "@ + why,
                    ),
                    ..inv
                }),
                rest,
            )
        }),
        flags_read(inv, seq!["--timeout"@]) == (InvocationView {
            complaints: inv.complaints.push("ward: --timeout wants a number of seconds"@),
            ..inv
        }),
{
    lemma_flags();
    law_numbers_are_read_back(n);
    assert((seq!["--timeout"@, v] + rest).skip(2) =~= rest);
    assert((seq!["--timeout"@, decimal(n as nat)] + rest).skip(2) =~= rest);
}

/// A flag that takes a value and stands last has none, and sets what it is named after to
/// nothing.
pub proof fn law_a_flag_without_its_value(inv: InvocationView)
    ensures
        flags_read(inv, seq!["--transcript"@]) == (InvocationView { transcript: None, ..inv }),
        flags_read(inv, seq!["--frontend"@]) == (InvocationView {
            state: (StateView { forced_frontend: None, ..inv.state }),
            ..inv
        }),
        flags_read(inv, seq!["--display"@]) == (InvocationView {
            state: (StateView { display: None, ..inv.state }),
            ..inv
        }),
        flags_read(inv, seq!["--ttyname"@]) == (InvocationView {
            state: (StateView { ttyname: None, ..inv.state }),
            ..inv
        }),
        flags_read(inv, seq!["--ttytype"@]) == (InvocationView {
            state: (StateView { ttytype: None, ..inv.state }),
            ..inv
        }),
        flags_read(inv, seq!["--lc-ctype"@]) == (InvocationView {
            state: (StateView { lc_ctype: None, ..inv.state }),
            ..inv
        }),
        flags_read(inv, seq!["--lc-messages"@]) == (InvocationView {
            state: (StateView { lc_messages: None, ..inv.state }),
            ..inv
        }),
{
    lemma_flags();
}

/// `--help` and `--version` end the reading, and say what ward was started for.
pub proof fn law_help_and_version_end_the_reading(inv: InvocationView, rest: Seq<Seq<char>>)
    ensures
        flags_read(inv, seq!["--help"@] + rest) == (InvocationView {
            purpose: Purpose::Help,
            ..inv
        }),
        flags_read(inv, seq!["-h"@] + rest) == (InvocationView { purpose: Purpose::Help, ..inv }),
        flags_read(inv, seq!["--version"@] + rest) == (InvocationView {
            purpose: Purpose::Version,
            ..inv
        }),
        flags_read(inv, seq!["-V"@] + rest) == (InvocationView {
            purpose: Purpose::Version,
            ..inv
        }),
        flags_read(inv, Seq::empty()) == inv,
{
    lemma_flags();
}

/// An argument that ward does not know is complained about and passed over.
pub proof fn law_an_unknown_argument_is_passed_over(
    inv: InvocationView,
    arg: Seq<char>,
    rest: Seq<Seq<char>>,
)
    requires
        arg != "--transcript"@,
        arg != "--frontend"@,
        arg != "--display"@,
        arg != "--ttyname"@,
        arg != "--ttytype"@,
        arg != "--lc-ctype"@,
        arg != "--lc-messages"@,
        arg != "--timeout"@,
        arg != "--help"@,
        arg != "-h"@,
        arg != "--version"@,
        arg != "-V"@,
    ensures
        flags_read(inv, seq![arg] + rest) == flags_read(
            (InvocationView {
                complaints: inv.complaints.push("ward: ignoring unknown argument: "@ + arg),
                ..inv
            }),
            rest,
        ),
{
    assert((seq![arg] + rest).skip(1) =~= rest);
}

/// `install` as the first argument makes gpg-agent use ward, or with `--dry-run` or `--print`
/// among the others shows how; any other command line is made of flags.
pub proof fn law_install_is_a_command(rest: Seq<Seq<char>>, args: Seq<Seq<char>>)
    requires
        args.len() > 0 ==> args[0] != "install"@,
    ensures
        command_line(seq!["install"@] + rest) == (InvocationView {
            purpose: Purpose::Install {
                dry_run: exists|i: int|
                    0 <= i < rest.len() && (#[trigger] rest[i] == "--dry-run"@ || rest[i]
                        == "--print"@),
            },
            ..nothing_said()
        }),
        command_line(args) == flags_read(nothing_said(), args),
        nothing_said().state.timeout_secs is None,
        nothing_said().state.forced_frontend is None,
        nothing_said().state.desc is None,
{
    let all = seq!["install"@] + rest;
    assert(all[0] == "install"@);
    reveal_strlit("install");
    reveal_strlit("--dry-run");
    reveal_strlit("--print");
    assert("install"@[0] == 'i' && "--dry-run"@[0] == '-' && "--print"@[0] == '-');
    if exists|i: int|
        0 <= i < rest.len() && (#[trigger] rest[i] == "--dry-run"@ || rest[i] == "--print"@) {
        let i = choose|i: int|
            0 <= i < rest.len() && (#[trigger] rest[i] == "--dry-run"@ || rest[i] == "--print"@);
        assert(all[i + 1] == rest[i]);
        assert(all.contains(rest[i]));
    }
    if all.contains("--dry-run"@) {
        let k = choose|k: int| 0 <= k < all.len() && all[k] == "--dry-run"@;
        assert(rest[k - 1] == "--dry-run"@);
    }
    if all.contains("--print"@) {
        let k = choose|k: int| 0 <= k < all.len() && all[k] == "--print"@;
        assert(rest[k - 1] == "--print"@);
    }
}

/// What is reported of the hardening is what took effect.
pub proof fn law_hardening_is_reported_as_it_is()
    ensures
        took_effect(true, true) == seq!["core dumps disabled"@, "ptrace/dump denied"@],
        took_effect(true, false) == seq!["core dumps disabled"@],
        took_effect(false, true) == seq!["ptrace/dump denied"@],
        took_effect(false, false).len() == 0,
{
    assert(took_effect(true, true) =~= seq!["core dumps disabled"@, "ptrace/dump denied"@]);
    assert(took_effect(true, false) =~= seq!["core dumps disabled"@]);
    assert(took_effect(false, true) =~= seq!["ptrace/dump denied"@]);
}

/// What is printed for `--version` and what the log is told, in full.
pub proof fn law_what_is_reported(version: Seq<char>, w: Seq<char>)
    ensures
        version_text(version, took_effect(true, true), None) == "ward "@ + version
            + "\nhardening: core dumps disabled, ptrace/dump denied\n"@,
        version_text(version, took_effect(true, true), Some(w)) == "ward "@ + version
            + "\nhardening: core dumps disabled, ptrace/dump denied\nwarning: "@ + w + "\n"@,
        opening_text(took_effect(true, true), None)
            == "ward: hardening: core dumps disabled, ptrace/dump denied\n"@,
        opening_text(took_effect(true, true), Some(w))
            == "ward: hardening: core dumps disabled, ptrace/dump denied\nward: "@ + w + "\n"@,
{
    let both = took_effect(true, true);
    law_hardening_is_reported_as_it_is();
    reveal_with_fuel(listed, 2);
    assert(both.drop_last() =~= seq!["core dumps disabled"@]);
    let l = listed(both);
    assert(l == "core dumps disabled"@ + ", "@ + "ptrace/dump denied"@);
    reveal_strlit("core dumps disabled");
    reveal_strlit(", ");
    reveal_strlit("ptrace/dump denied");
    reveal_strlit("\n");
    assert("\nhardening: "@ + l + "\n"@
        =~= "\nhardening: core dumps disabled, ptrace/dump denied\n"@) by {
        reveal_strlit("\nhardening: ");
        reveal_strlit("\nhardening: core dumps disabled, ptrace/dump denied\n");
    }
    assert("\nhardening: core dumps disabled, ptrace/dump denied\n"@ + "warning: "@
        =~= "\nhardening: core dumps disabled, ptrace/dump denied\nwarning: "@) by {
        reveal_strlit("warning: ");
        reveal_strlit("\nhardening: core dumps disabled, ptrace/dump denied\n");
        reveal_strlit("\nhardening: core dumps disabled, ptrace/dump denied\nwarning: ");
    }
    assert("ward: hardening: "@ + l + "\n"@
        =~= "ward: hardening: core dumps disabled, ptrace/dump denied\n"@) by {
        reveal_strlit("ward: hardening: ");
        reveal_strlit("ward: hardening: core dumps disabled, ptrace/dump denied\n");
    }
    assert("ward: hardening: core dumps disabled, ptrace/dump denied\n"@ + "ward: "@
        =~= "ward: hardening: core dumps disabled, ptrace/dump denied\nward: "@) by {
        reveal_strlit("ward: ");
        reveal_strlit("ward: hardening: core dumps disabled, ptrace/dump denied\n");
        reveal_strlit("ward: hardening: core dumps disabled, ptrace/dump denied\nward: ");
    }
    assert(version_text(version, both, None) =~= "ward "@ + version + ("\nhardening: "@ + l
        + "\n"@));
    assert(version_text(version, both, Some(w)) =~= "ward "@ + version + ("\nhardening: "@ + l
        + "\n"@ + "warning: "@) + w + "\n"@);
    assert(opening_text(both, None) =~= "ward: hardening: "@ + l + "\n"@);
    assert(opening_text(both, Some(w)) =~= ("ward: hardening: "@ + l + "\n"@ + "ward: "@) + w
        + "\n"@);
}

/// Several texts are listed with a comma and a space between each two.
pub proof fn law_a_list_has_a_comma_between_each_two(v: Seq<Seq<char>>, x: Seq<char>)
    ensures
        listed(Seq::empty()).len() == 0,
        listed(seq![x]) == x,
        v.len() > 0 ==> listed(v.push(x)) == listed(v) + ", "@ + x,
{
    assert(v.push(x).drop_last() =~= v);
}

/// How many swap devices a listing names: below its first line, each line that says something
/// is one, and a blank one is none.
pub proof fn law_each_line_below_the_first_is_a_device(
    header: Seq<char>,
    before: Seq<char>,
    line: Seq<char>,
    gap: Seq<char>,
    i: int,
)
    requires
        forall|k: int| 0 <= k < header.len() ==> #[trigger] header[k] != '\n',
        forall|k: int| 0 <= k < line.len() ==> #[trigger] line[k] != '\n',
        forall|k: int| 0 <= k < gap.len() ==> #[trigger] gap[k] != '\n',
        0 <= i < line.len(),
        !is_space(line[i]),
        blank(gap),
    ensures
        devices(Seq::empty()) == 0,
        devices(header) == 0,
        devices(header + seq!['\n']) == 0,
        devices(header + seq!['\n'] + (line + seq!['\n'] + before)) == 1 + devices(
            header + seq!['\n'] + before,
        ),
        devices(header + seq!['\n'] + (gap + seq!['\n'] + before)) == devices(
            header + seq!['\n'] + before,
        ),
{
    let none = Seq::<char>::empty();
    law_a_text_falls_into_lines(header, none);
    assert(header + seq!['\n'] + none =~= header + seq!['\n']);
    law_a_text_falls_into_lines(header, before);
    law_a_text_falls_into_lines(line, before);
    law_a_text_falls_into_lines(gap, before);
    law_a_text_falls_into_lines(header, line + seq!['\n'] + before);
    law_a_text_falls_into_lines(header, gap + seq!['\n'] + before);
    lemma_tail(header, none);
    lemma_tail(header, before);
    lemma_tail(header, line + seq!['\n'] + before);
    lemma_tail(header, gap + seq!['\n'] + before);
    let l = crate::laws::texts::unended(line);
    let g = crate::laws::texts::unended(gap);
    lemma_spoken_join(seq![l], lines(before));
    lemma_spoken_join(seq![g], lines(before));
    reveal_with_fuel(spoken, 2);
    assert(seq![l].drop_last().len() == 0);
    assert(seq![g].drop_last().len() == 0);
    assert(l[i] == line[i]);
    lemma_says_something(l, i);
    assert forall|k: int| 0 <= k < g.len() implies is_space(#[trigger] g[k]) by {
        assert(g[k] == gap[k]);
    }
    law_trimming_takes_off_the_ends(g, none, none);
    assert(g + none + none =~= g);
    if header.len() > 0 {
        assert(lines(header).drop_first().len() == 0);
    }
}

proof fn lemma_tail(header: Seq<char>, rest: Seq<char>)
    requires
        forall|k: int| 0 <= k < header.len() ==> #[trigger] header[k] != '\n',
    ensures
        devices(header + seq!['\n'] + rest) == spoken(lines(rest)),
{
    law_a_text_falls_into_lines(header, rest);
    assert(lines(header + seq!['\n'] + rest).drop_first() =~= lines(rest));
}

proof fn lemma_spoken_join(a: Seq<Seq<char>>, b: Seq<Seq<char>>)
    ensures
        spoken(a + b) == spoken(a) + spoken(b),
    decreases b.len(),
{
    if b.len() == 0 {
        assert(a + b =~= a);
    } else {
        assert((a + b).drop_last() =~= a + b.drop_last());
        assert((a + b).last() == b.last());
        lemma_spoken_join(a, b.drop_last());
    }
}

proof fn lemma_says_something(s: Seq<char>, i: int)
    requires
        0 <= i < s.len(),
        !is_space(s[i]),
    ensures
        trim(s).len() > 0,
{
    crate::text::lemma_runs(s);
    let n = crate::text::space_run(s);
    if i < n {
        assert(is_space(s[i]));
    }
    let t = crate::text::trim_start(s);
    assert(t[i - n] == s[i]);
    lemma_end_stays(t, i - n);
}

proof fn lemma_end_stays(s: Seq<char>, i: int)
    requires
        0 <= i < s.len(),
        !is_space(s[i]),
    ensures
        trim_end(s).len() > i,
    decreases s.len(),
{
    if is_space(s.last()) {
        assert(s.drop_last()[i] == s[i]);
        lemma_end_stays(s.drop_last(), i);
    }
}

/// What is said about swap: how many devices there are, where there are any.
pub proof fn law_swap_is_warned_about(text: Seq<char>)
    ensures
        swap_note(None) is None,
        devices(text) == 0 ==> swap_note(Some(text)) is None,
        devices(text) > 0 ==> swap_note(Some(text)) == Some(
            "swap is active ("@ + decimal(devices(text))
                + " devices) — unless it is encrypted, memory can reach the disk"@,
        ),
{
}

/// A fresh state says nothing at all.
pub proof fn law_a_fresh_state_says_nothing()
    ensures
        ({
            let st = StateView::blank();
            &&& st.desc is None && st.prompt is None && st.title is None && st.error is None
            &&& st.ok is None && st.cancel is None && st.notok is None
            &&& st.repeat is None && st.repeat_error is None
            &&& st.keyinfo is None && st.quality_bar is None && st.timeout_secs is None
            &&& st.defaults == Map::<Seq<char>, Seq<char>>::empty()
            &&& st.client_env == Map::<Seq<char>, Seq<char>>::empty()
            &&& st.ttyname is None && st.ttytype is None && st.display is None
            &&& st.lc_ctype is None && st.lc_messages is None && st.owner is None
            &&& !st.no_grab && !st.external_cache_allowed
            &&& st.forced_frontend is None && st.default_timeout_secs is None
        }),
{
}

/// Every prompt gets a buffer for 2048 characters, whatever they are: a character takes four
/// bytes at most.
pub proof fn law_a_prompt_takes_2048_characters(s: Seq<char>)
    requires
        s.len() <= 2048,
    ensures
        encode_utf8(s).len() <= PASSPHRASE_CAPACITY,
{
    lemma_four_bytes(s);
}

proof fn lemma_four_bytes(s: Seq<char>)
    ensures
        encode_utf8(s).len() <= 4 * s.len(),
    decreases s.len(),
{
    if s.len() > 0 {
        lemma_four_bytes(s.drop_last());
        lemma_encode_last(s);
        lemma_one_char(s.last());
    }
}

} // verus!
