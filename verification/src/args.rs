//! The command line.

use vstd::prelude::*;

use crate::assuan::{encoded, law_decode_undoes_encode};
use crate::harden::texts;
use crate::server::{after_option, option_parts, State, StateView};
use crate::text::{
    is_space, lemma_find_is, lemma_space_run_is, number, opt, parse_number, same, trim_start, views,
    NumberError,
};

verus! {

/// What is printed for `--help`.
pub const USAGE: &'static str =
    "ward — a passphrase prompt for gpg-agent

usage:
  ward [options]        speak the Assuan protocol on stdin/stdout (how gpg-agent runs it)
  ward install          make gpg-agent use ward (--dry-run shows the file first)
  ward --version
  ward --help

options:
  --frontend tty|gui    force a front-end instead of choosing by what is reachable
  --display NAME        as OPTION display
  --ttyname PATH        as OPTION ttyname
  --ttytype NAME        as OPTION ttytype
  --lc-ctype VALUE      as OPTION lc-ctype
  --lc-messages VALUE   as OPTION lc-messages
  --timeout SECONDS     as SETTIMEOUT
  --transcript PATH     append the conversation to PATH; passphrases are never written

ward is not run by hand. Point gpg-agent at it:
  pinentry-program /path/to/ward
in ~/.gnupg/gpg-agent.conf, then: gpg-connect-agent RELOADAGENT /bye
";

/// What ward was started for.
#[derive(Debug, Clone, Copy, PartialEq, Eq, Structural)]
pub enum Purpose {
    /// To make gpg-agent use ward, or to show how.
    Install { dry_run: bool },
    Help,
    Version,
    /// To speak the protocol.
    Serve,
}

/// What the command line says.
pub struct Invocation {
    pub purpose: Purpose,
    /// What the flags say of the prompts to come.
    pub state: State,
    /// Where the conversation is written down.
    pub transcript: Option<String>,
    /// What was not understood. Not fatal: a pinentry that dies on a bad flag dies before it
    /// can say why, and gpg-agent shows the user nothing at all.
    pub complaints: Vec<String>,
}

/// What the command line says, as the contracts speak of it.
#[verifier::ext_equal]
pub struct InvocationView {
    pub purpose: Purpose,
    pub state: StateView,
    pub transcript: Option<Seq<char>>,
    pub complaints: Seq<Seq<char>>,
}

impl View for Invocation {
    type V = InvocationView;

    open spec fn view(&self) -> InvocationView {
        InvocationView {
            purpose: self.purpose,
            state: self.state@,
            transcript: opt(self.transcript),
            complaints: views(self.complaints@),
        }
    }
}

/// Why a piece of text is not a number, in words.
pub open spec fn number_error_text(e: NumberError) -> Seq<char> {
    match e {
        NumberError::Empty => "cannot parse integer from empty string"@,
        NumberError::InvalidDigit => "invalid digit found in string"@,
        NumberError::TooLarge => "number too large to fit in target type"@,
    }
}

/// What is said of a `--timeout` that is no number of seconds.
pub open spec fn timeout_complaint(given: Option<NumberError>) -> Seq<char> {
    match given {
        Some(e) => "ward: --timeout is not a number of seconds: "@ + number_error_text(e),
        None => "ward: --timeout wants a number of seconds"@,
    }
}

/// Whether a flag takes the argument after it.
pub open spec fn takes_value(flag: Seq<char>) -> bool {
    flag == "--transcript"@ || flag == "--frontend"@ || flag == "--display"@ || flag
        == "--ttyname"@ || flag == "--ttytype"@ || flag == "--lc-ctype"@ || flag
        == "--lc-messages"@ || flag == "--timeout"@
}

/// What is known after a flag that takes the argument after it, where there is one.
pub open spec fn with_flag(inv: InvocationView, flag: Seq<char>, given: Option<Seq<char>>) -> InvocationView {
    let st = inv.state;
    if flag == "--transcript"@ {
        InvocationView { transcript: given, ..inv }
    } else if flag == "--frontend"@ {
        InvocationView { state: StateView { forced_frontend: given, ..st }, ..inv }
    } else if flag == "--display"@ {
        InvocationView { state: StateView { display: given, ..st }, ..inv }
    } else if flag == "--ttyname"@ {
        InvocationView { state: StateView { ttyname: given, ..st }, ..inv }
    } else if flag == "--ttytype"@ {
        InvocationView { state: StateView { ttytype: given, ..st }, ..inv }
    } else if flag == "--lc-ctype"@ {
        InvocationView { state: StateView { lc_ctype: given, ..st }, ..inv }
    } else if flag == "--lc-messages"@ {
        InvocationView { state: StateView { lc_messages: given, ..st }, ..inv }
    } else {
        match given {
            None => InvocationView { complaints: inv.complaints.push(timeout_complaint(None)), ..inv },
            Some(s) => match number(s) {
                Ok(n) => InvocationView {
                    state: StateView {
                        default_timeout_secs: Some(n as u64),
                        timeout_secs: Some(n as u64),
                        ..st
                    },
                    ..inv
                },
                Err(e) => InvocationView {
                    complaints: inv.complaints.push(timeout_complaint(Some(e))),
                    ..inv
                },
            },
        }
    }
}

/// What the flags say, read one after the other. `--help` and `--version` end the reading.
pub open spec fn flags_read(inv: InvocationView, args: Seq<Seq<char>>) -> InvocationView
    decreases args.len(),
{
    if args.len() == 0 {
        inv
    } else if args[0] == "--help"@ || args[0] == "-h"@ {
        InvocationView { purpose: Purpose::Help, ..inv }
    } else if args[0] == "--version"@ || args[0] == "-V"@ {
        InvocationView { purpose: Purpose::Version, ..inv }
    } else if takes_value(args[0]) {
        if args.len() > 1 {
            flags_read(with_flag(inv, args[0], Some(args[1])), args.skip(2))
        } else {
            with_flag(inv, args[0], None)
        }
    } else {
        flags_read(
            InvocationView {
                complaints: inv.complaints.push("ward: ignoring unknown argument: "@ + args[0]),
                ..inv
            },
            args.skip(1),
        )
    }
}

/// Whether an install is only to be shown.
pub open spec fn only_shown(args: Seq<Seq<char>>) -> bool {
    args.contains("--dry-run"@) || args.contains("--print"@)
}

/// What the command line says, the name of the program left out.
pub open spec fn command_line(args: Seq<Seq<char>>) -> InvocationView {
    let blank = InvocationView {
        purpose: Purpose::Serve,
        state: StateView::blank(),
        transcript: None,
        complaints: Seq::empty(),
    };
    if args.len() > 0 && args[0] == "install"@ {
        InvocationView { purpose: Purpose::Install { dry_run: only_shown(args) }, ..blank }
    } else {
        flags_read(blank, args)
    }
}

/// Why a piece of text is not a number, in words.
fn number_error(e: NumberError) -> (r: &'static str)
    ensures
        r@ == number_error_text(e),
{
    match e {
        NumberError::Empty => "cannot parse integer from empty string",
        NumberError::InvalidDigit => "invalid digit found in string",
        NumberError::TooLarge => "number too large to fit in target type",
    }
}

impl Invocation {
    /// Adds a complaint.
    fn complain(&mut self, text: String)
        ensures
            final(self)@ == (InvocationView {
                complaints: old(self)@.complaints.push(text@),
                ..old(self)@
            }),
    {
        let ghost before = self.complaints@;
        self.complaints.push(text);
        assert(views(self.complaints@) =~= views(before).push(text@));
    }

    /// Reads a flag that takes the argument after it.
    fn take_flag(&mut self, flag: &str, given: Option<String>)
        requires
            takes_value(flag@),
        ensures
            final(self)@ == with_flag(old(self)@, flag@, opt(given)),
    {
        // Some callers pass these as flags rather than as OPTION lines. They are wired into
        // the same state the OPTION lines fill. A later OPTION or SETTIMEOUT from the agent
        // still wins — it is more recent.
        if same(flag, "--transcript") {
            self.transcript = given;
        } else if same(flag, "--frontend") {
            self.state.forced_frontend = given;
        } else if same(flag, "--display") {
            self.state.display = given;
        } else if same(flag, "--ttyname") {
            self.state.ttyname = given;
        } else if same(flag, "--ttytype") {
            self.state.ttytype = given;
        } else if same(flag, "--lc-ctype") {
            self.state.lc_ctype = given;
        } else if same(flag, "--lc-messages") {
            self.state.lc_messages = given;
        } else {
            match given {
                None => {
                    self.complain("ward: --timeout wants a number of seconds".to_string());
                },
                Some(s) => match parse_number(s.as_str()) {
                    Ok(n) => {
                        self.state.default_timeout_secs = Some(n);
                        self.state.timeout_secs = Some(n);
                    },
                    Err(e) => {
                        let mut text =
                            "ward: --timeout is not a number of seconds: ".to_string();
                        text.append(number_error(e));
                        self.complain(text);
                    },
                },
            }
        }
    }
}

/// Whether a flag takes the argument after it.
fn wants_value(flag: &str) -> (r: bool)
    ensures
        r == takes_value(flag@),
{
    same(flag, "--transcript") || same(flag, "--frontend") || same(flag, "--display") || same(
        flag,
        "--ttyname",
    ) || same(flag, "--ttytype") || same(flag, "--lc-ctype") || same(flag, "--lc-messages") || same(
        flag,
        "--timeout",
    )
}

/// Whether an install is only to be shown.
fn shown_only(args: &Vec<String>) -> (r: bool)
    ensures
        r == only_shown(views(args@)),
{
    let ghost all = views(args@);
    let mut i: usize = 0;
    while i < args.len()
        invariant
            all == views(args@),
            i <= args@.len(),
            forall|k: int| 0 <= k < i ==> #[trigger] all[k] != "--dry-run"@ && all[k] != "--print"@,
        decreases args@.len() - i,
    {
        assert(all[i as int] == args@[i as int]@);
        if same(args[i].as_str(), "--dry-run") || same(args[i].as_str(), "--print") {
            assert(all.contains(all[i as int]));
            return true;
        }
        i += 1;
    }
    false
}

/// Reads the command line, the name of the program left out.
pub fn read(args: &Vec<String>) -> (inv: Invocation)
    ensures
        inv@ == command_line(views(args@)),
{
    let ghost all = views(args@);
    let mut inv = Invocation {
        purpose: Purpose::Serve,
        state: State::default(),
        transcript: None,
        complaints: Vec::new(),
    };
    assert(inv@.complaints =~= Seq::empty());
    assert(all.len() > 0 ==> all[0] == args@[0]@);
    if args.len() > 0 && same(args[0].as_str(), "install") {
        inv.purpose = Purpose::Install { dry_run: shown_only(args) };
        return inv;
    }
    let mut i: usize = 0;
    assert(all.skip(0) =~= all);
    while i < args.len()
        invariant
            all == views(args@),
            i <= args@.len(),
            command_line(all) == flags_read(inv@, all.skip(i as int)),
        decreases args@.len() - i,
    {
        let ghost rest = all.skip(i as int);
        let flag = args[i].as_str();
        assert(rest[0] == flag@);
        if same(flag, "--help") || same(flag, "-h") {
            inv.purpose = Purpose::Help;
            return inv;
        }
        if same(flag, "--version") || same(flag, "-V") {
            inv.purpose = Purpose::Version;
            return inv;
        }
        if wants_value(flag) {
            if args.len() - i > 1 {
                assert(rest[1] == args@[i + 1]@);
                assert(rest.skip(2) =~= all.skip(i + 2));
                inv.take_flag(flag, Some(args[i + 1].clone()));
                i += 2;
            } else {
                inv.take_flag(flag, None);
                return inv;
            }
        } else {
            let mut text = "ward: ignoring unknown argument: ".to_string();
            text.append(flag);
            assert(rest.skip(1) =~= all.skip(i + 1));
            inv.complain(text);
            i += 1;
        }
    }
    inv
}

/// Several texts with a comma between them.
pub open spec fn listed(v: Seq<Seq<char>>) -> Seq<char>
    decreases v.len(),
{
    if v.len() == 0 {
        seq![]
    } else if v.len() == 1 {
        v[0]
    } else {
        listed(v.drop_last()) + ", "@ + v.last()
    }
}

/// Several texts with a comma between them.
pub fn list(v: &Vec<&'static str>) -> (r: String)
    ensures
        r@ == listed(texts(v@)),
{
    let ghost all = texts(v@);
    let mut r = String::new();
    let mut i: usize = 0;
    assert(all.take(0) =~= seq![]);
    while i < v.len()
        invariant
            all == texts(v@),
            i <= v@.len(),
            r@ == listed(all.take(i as int)),
        decreases v@.len() - i,
    {
        let ghost next = all.take(i + 1);
        assert(next.drop_last() =~= all.take(i as int));
        assert(next.last() == v@[i as int]@);
        let ghost before = r@;
        if i > 0 {
            r.append(", ");
        }
        r.append(v[i]);
        assert(i == 0 ==> r@ =~= v@[i as int]@);
        i += 1;
    }
    assert(all.take(i as int) =~= all);
    r
}

/// What is printed for `--version`.
pub open spec fn version_text(
    version: Seq<char>,
    hardened: Seq<Seq<char>>,
    warning: Option<Seq<char>>,
) -> Seq<char> {
    "ward "@ + version + "\nhardening: "@ + listed(hardened) + "\n"@ + (match warning {
        Some(w) => "warning: "@ + w + "\n"@,
        None => seq![],
    })
}

/// What is printed for `--version`.
pub fn version_report(
    version: &str,
    hardened: &Vec<&'static str>,
    warning: &Option<String>,
) -> (r: String)
    ensures
        r@ == version_text(version@, texts(hardened@), opt(*warning)),
{
    let mut r = "ward ".to_string();
    r.append(version);
    r.append("\nhardening: ");
    r.append(list(hardened).as_str());
    r.append("\n");
    let ghost before = r@;
    match warning {
        Some(w) => {
            r.append("warning: ");
            r.append(w.as_str());
            r.append("\n");
        },
        None => {},
    }
    assert(r@ =~= before + (match opt(*warning) {
        Some(w) => "warning: "@ + w + "\n"@,
        None => seq![],
    }));
    r
}

/// What the log is told before the conversation starts.
pub open spec fn opening_text(hardened: Seq<Seq<char>>, warning: Option<Seq<char>>) -> Seq<char> {
    "ward: hardening: "@ + listed(hardened) + "\n"@ + (match warning {
        Some(w) => "ward: "@ + w + "\n"@,
        None => seq![],
    })
}

/// What the log is told before the conversation starts. gpg-agent captures standard error
/// into its own log, which is the only place such a note can usefully go.
pub fn opening_note(hardened: &Vec<&'static str>, warning: &Option<String>) -> (r: String)
    ensures
        r@ == opening_text(texts(hardened@), opt(*warning)),
{
    let mut r = "ward: hardening: ".to_string();
    r.append(list(hardened).as_str());
    r.append("\n");
    let ghost before = r@;
    match warning {
        Some(w) => {
            r.append("ward: ");
            r.append(w.as_str());
            r.append("\n");
        },
        None => {},
    }
    assert(r@ =~= before + (match opt(*warning) {
        Some(w) => "ward: "@ + w + "\n"@,
        None => seq![],
    }));
    r
}

/// The flags that say the same as an option, by the name of the option.
pub open spec fn is_option_flag(name: Seq<char>) -> bool {
    name == "display"@ || name == "ttyname"@ || name == "ttytype"@ || name == "lc-ctype"@ || name
        == "lc-messages"@
}

/// A flag and the option of the same name say the same: `--ttyname V` leaves the state that
/// `OPTION ttyname=V` leaves, with V written as the protocol writes it.
pub proof fn law_flags_say_what_options_say(
    inv: InvocationView,
    name: Seq<char>,
    v: Seq<char>,
)
    requires
        is_option_flag(name),
    ensures
        takes_value("--"@ + name),
        with_flag(inv, "--"@ + name, Some(v)).state == after_option(
            inv.state,
            name + "="@ + encoded(v),
        ),
{
    reveal_strlit("--");
    reveal_strlit("=");
    reveal_strlit("display");
    reveal_strlit("ttyname");
    reveal_strlit("ttytype");
    reveal_strlit("lc-ctype");
    reveal_strlit("lc-messages");
    reveal_strlit("--display");
    reveal_strlit("--ttyname");
    reveal_strlit("--ttytype");
    reveal_strlit("--lc-ctype");
    reveal_strlit("--lc-messages");
    reveal_strlit("--transcript");
    reveal_strlit("--frontend");
    reveal_strlit("--timeout");
    let flag = "--"@ + name;
    if name == "display"@ {
        assert(flag =~= "--display"@);
    } else if name == "ttyname"@ {
        assert(flag =~= "--ttyname"@);
        assert(flag[2] != "--display"@[2]);
    } else if name == "ttytype"@ {
        assert(flag =~= "--ttytype"@);
        assert(flag[2] != "--display"@[2]);
        assert(flag[5] != "--ttyname"@[5]);
    } else if name == "lc-ctype"@ {
        assert(flag =~= "--lc-ctype"@);
        assert(flag[2] != "--frontend"@[2]);
    } else {
        assert(flag =~= "--lc-messages"@);
    }
    assert(flag.len() != "--transcript"@.len() || flag[2] != "--transcript"@[2]);
    assert(flag.len() != "--frontend"@.len() || flag[2] != "--frontend"@[2]);
    let rest = name + "="@ + encoded(v);
    assert(!is_space(name[0]) && !is_space(name.last()));
    assert forall|i: int| 0 <= i < name.len() implies #[trigger] name[i] != '=' by {}
    assert forall|i: int| 0 <= i < name.len() implies #[trigger] rest[i] != '=' by {
        assert(rest[i] == name[i]);
    }
    lemma_find_is(rest, '=', name.len() as int);
    assert(rest.take(name.len() as int) =~= name);
    assert(rest.skip(name.len() as int + 1) =~= encoded(v));
    lemma_space_run_is(name, 0);
    assert(trim_start(name) =~= name);
    assert(name[0] != '-');
    assert(option_parts(rest) == (name, encoded(v)));
    law_decode_undoes_encode(v);
    if name == "ttyname"@ {
    } else if name == "ttytype"@ {
        assert(name[3] != "ttyname"@[3]);
    } else if name == "display"@ {
        assert(name[0] != "ttyname"@[0]);
        assert(name[0] != "ttytype"@[0]);
    }
}

/// A timeout given on the command line belongs to the connection: a `RESET` puts it back.
pub proof fn law_the_timeout_survives_a_reset(inv: InvocationView, s: Seq<char>, st: StateView)
    requires
        number(s) is Ok,
        st.default_timeout_secs == with_flag(inv, "--timeout"@, Some(s)).state.default_timeout_secs,
    ensures
        st.reset().timeout_secs == Some(number(s)->Ok_0 as u64),
{
    reveal_strlit("--display");
    reveal_strlit("--ttyname");
    reveal_strlit("--ttytype");
    reveal_strlit("--lc-ctype");
    reveal_strlit("--lc-messages");
    reveal_strlit("--transcript");
    reveal_strlit("--frontend");
    reveal_strlit("--timeout");
    assert("--timeout"@[2] != "--display"@[2]);
    assert("--timeout"@[3] != "--ttyname"@[3]);
    assert("--timeout"@[3] != "--ttytype"@[3]);
}

} // verus!
