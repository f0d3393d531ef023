//! Command dispatch: what the agent asks for, and what ward answers.
//!
//! The state here is the pinentry's own idea of the prompt it is about to draw — the
//! description, the labels, the error from the previous attempt. It is accumulated across
//! many commands and consumed by one (`GETPIN`, `CONFIRM`, `MESSAGE`), which is why it is a
//! struct rather than parameters.

use vstd::prelude::*;

use crate::assuan::{
    data_line, decoded, err_line, law_replies_are_single_lines, ok_line, one_line, percent_decode,
    status_line, Writer, ERR_CANCELLED, ERR_NOT_CONFIRMED, ERR_NO_PIN_ENTRY,
};
use crate::table::Table;
use crate::text::{
    chars_of, decimal, decimal_of, halves, has_prefix, number, opt, parse_number, same, skip_spaces,
    skip_word, split_once, split_words, starts_with, trim, trim_start, trimmed, upper_case,
    uppercase, views, word_run, words,
};
use crate::ui::{Kind, NoFrontend, Outcome};

verus! {

/// The buffer every prompt gets. pinentry guarantees callers 2048 characters, and a
/// character can be four bytes, so the mapping is sized once for the worst case rather than
/// grown later — growing means copying, and a copy of a passphrase is what `Secret` exists
/// to prevent.
pub const PASSPHRASE_CAPACITY: usize = 8192;

/// Everything the agent has told us about the prompt it wants.
pub struct State {
    pub desc: Option<String>,
    pub prompt: Option<String>,
    pub title: Option<String>,
    pub error: Option<String>,
    pub ok: Option<String>,
    pub cancel: Option<String>,
    pub notok: Option<String>,
    pub repeat: Option<String>,
    pub repeat_error: Option<String>,
    pub keyinfo: Option<String>,
    pub quality_bar: Option<String>,
    pub timeout_secs: Option<u64>,
    /// `OPTION default-*` values: the agent's translations of the standard button labels,
    /// used when the caller did not set an explicit one.
    pub defaults: Table,
    /// The client's session environment, arriving as `OPTION putenv=NAME=VALUE`.
    ///
    /// This is the only trustworthy source for `WAYLAND_DISPLAY`, `DISPLAY` and
    /// `PINENTRY_USER_DATA`. ward's own environment is the AGENT's environment, inherited
    /// whenever that daemon happened to start — which may be a login session that has since
    /// ended. Reading the display from there is how a prompt ends up addressed to a screen
    /// that no longer exists.
    pub client_env: Table,
    pub ttyname: Option<String>,
    pub ttytype: Option<String>,
    pub display: Option<String>,
    pub lc_ctype: Option<String>,
    pub lc_messages: Option<String>,
    pub owner: Option<String>,
    /// True when the agent asked us not to grab the keyboard. Recorded, and on Wayland there
    /// is nothing to honour, because an ordinary client cannot grab in the first place.
    pub no_grab: bool,
    /// The agent offers to let a pinentry consult an external password manager. ward records
    /// the offer and never acts on it: it has no cache and never emits `PASSWORD_FROM_CACHE`.
    /// Accepting the option keeps prompts working on agents that treat a refusal as fatal;
    /// what it means here is written down rather than implied.
    pub external_cache_allowed: bool,
    /// The permanent form of the front-end override, from `--frontend` on the
    /// `pinentry-program` line. `PINENTRY_USER_DATA` beats it, because that one can differ
    /// per invocation and a configuration file cannot.
    pub forced_frontend: Option<String>,
    /// `--timeout` from the command line, surviving `RESET`.
    ///
    /// `timeout_secs` is per-request and cleared with the rest of the prompt; a timeout
    /// given on the `pinentry-program` line belongs to the connection, so it is kept here
    /// and put back after every reset. A later `SETTIMEOUT` still overrides it.
    pub default_timeout_secs: Option<u64>,
}

/// The state as the contracts speak of it.
#[verifier::ext_equal]
pub struct StateView {
    pub desc: Option<Seq<char>>,
    pub prompt: Option<Seq<char>>,
    pub title: Option<Seq<char>>,
    pub error: Option<Seq<char>>,
    pub ok: Option<Seq<char>>,
    pub cancel: Option<Seq<char>>,
    pub notok: Option<Seq<char>>,
    pub repeat: Option<Seq<char>>,
    pub repeat_error: Option<Seq<char>>,
    pub keyinfo: Option<Seq<char>>,
    pub quality_bar: Option<Seq<char>>,
    pub timeout_secs: Option<u64>,
    pub defaults: Map<Seq<char>, Seq<char>>,
    pub client_env: Map<Seq<char>, Seq<char>>,
    pub ttyname: Option<Seq<char>>,
    pub ttytype: Option<Seq<char>>,
    pub display: Option<Seq<char>>,
    pub lc_ctype: Option<Seq<char>>,
    pub lc_messages: Option<Seq<char>>,
    pub owner: Option<Seq<char>>,
    pub no_grab: bool,
    pub external_cache_allowed: bool,
    pub forced_frontend: Option<Seq<char>>,
    pub default_timeout_secs: Option<u64>,
}

impl View for State {
    type V = StateView;

    open spec fn view(&self) -> StateView {
        StateView {
            desc: opt(self.desc),
            prompt: opt(self.prompt),
            title: opt(self.title),
            error: opt(self.error),
            ok: opt(self.ok),
            cancel: opt(self.cancel),
            notok: opt(self.notok),
            repeat: opt(self.repeat),
            repeat_error: opt(self.repeat_error),
            keyinfo: opt(self.keyinfo),
            quality_bar: opt(self.quality_bar),
            timeout_secs: self.timeout_secs,
            defaults: self.defaults@,
            client_env: self.client_env@,
            ttyname: opt(self.ttyname),
            ttytype: opt(self.ttytype),
            display: opt(self.display),
            lc_ctype: opt(self.lc_ctype),
            lc_messages: opt(self.lc_messages),
            owner: opt(self.owner),
            no_grab: self.no_grab,
            external_cache_allowed: self.external_cache_allowed,
            forced_frontend: opt(self.forced_frontend),
            default_timeout_secs: self.default_timeout_secs,
        }
    }
}

impl StateView {
    /// Nothing said yet.
    pub open spec fn blank() -> StateView {
        StateView {
            desc: None,
            prompt: None,
            title: None,
            error: None,
            ok: None,
            cancel: None,
            notok: None,
            repeat: None,
            repeat_error: None,
            keyinfo: None,
            quality_bar: None,
            timeout_secs: None,
            defaults: Map::empty(),
            client_env: Map::empty(),
            ttyname: None,
            ttytype: None,
            display: None,
            lc_ctype: None,
            lc_messages: None,
            owner: None,
            no_grab: false,
            external_cache_allowed: false,
            forced_frontend: None,
            default_timeout_secs: None,
        }
    }

    /// The prompt forgotten, the connection kept.
    pub open spec fn reset(self) -> StateView {
        StateView {
            desc: None,
            prompt: None,
            error: None,
            repeat: None,
            repeat_error: None,
            quality_bar: None,
            timeout_secs: self.default_timeout_secs,
            ..self
        }
    }

    /// What a variable is, where `own` is what ward's own environment says.
    pub open spec fn variable(self, name: Seq<char>, own: Option<Seq<char>>) -> Option<Seq<char>> {
        if self.client_env.contains_key(name) {
            Some(self.client_env[name])
        } else {
            own
        }
    }
}

impl Default for State {
    fn default() -> (st: Self)
        ensures
            st@ == StateView::blank(),
    {
        State {
            desc: None,
            prompt: None,
            title: None,
            error: None,
            ok: None,
            cancel: None,
            notok: None,
            repeat: None,
            repeat_error: None,
            keyinfo: None,
            quality_bar: None,
            timeout_secs: None,
            defaults: Table::new(),
            client_env: Table::new(),
            ttyname: None,
            ttytype: None,
            display: None,
            lc_ctype: None,
            lc_messages: None,
            owner: None,
            no_grab: false,
            external_cache_allowed: false,
            forced_frontend: None,
            default_timeout_secs: None,
        }
    }
}

impl State {
    /// Clears what belongs to one request, keeping what belongs to the connection.
    ///
    /// `RESET` means "forget the prompt", not "forget who you are talking to": the options
    /// and the client environment were established once at startup and the agent does not
    /// resend them.
    pub fn reset_request(&mut self)
        ensures
            final(self)@ == old(self)@.reset(),
    {
        self.desc = None;
        self.prompt = None;
        self.error = None;
        self.repeat = None;
        self.repeat_error = None;
        self.quality_bar = None;
        self.timeout_secs = self.default_timeout_secs;
    }

    /// Looks a variable up in the client's environment first and ward's own second. `own` is
    /// what ward's own environment has.
    pub fn env(&self, name: &str, own: Option<String>) -> (r: Option<String>)
        ensures
            opt(r) == self@.variable(name@, opt(own)),
    {
        match self.client_env.get(name) {
            Some(v) => Some(v.to_string()),
            None => own,
        }
    }
}

/// A line taken apart: what stands before the first whitespace, and what follows it.
pub open spec fn command_parts(line: Seq<char>) -> (Seq<char>, Seq<char>) {
    (line.take(word_run(line)), trim_start(line.skip(word_run(line))))
}

/// Splits `COMMAND rest` into its two halves.
pub fn split_command<'a>(line: &'a str) -> (r: (&'a str, &'a str))
    ensures
        (r.0@, r.1@) == command_parts(line@),
{
    let v = chars_of(line);
    let n = v.len();
    assert(v@.skip(0) =~= line@);
    let i = skip_word(&v, 0);
    // The separator need not be one byte: `skip_spaces` steps over characters, and U+00A0 and
    // U+2003 are whitespace as well as the space is.
    let j = skip_spaces(&v, i);
    let a = line.substring_char(0, i);
    let b = line.substring_char(j, n);
    assert(a@ =~= command_parts(line@).0);
    assert(b@ =~= command_parts(line@).1);
    (a, b)
}

/// A name without the pairs of dashes in front of it.
pub open spec fn undashed(s: Seq<char>) -> Seq<char>
    decreases s.len(),
{
    if s.len() >= 2 && s[0] == '-' && s[1] == '-' {
        undashed(s.skip(2))
    } else {
        s
    }
}

/// An option taken apart into its name and its value. Without a `=` there is no value.
pub open spec fn option_parts(rest: Seq<char>) -> (Seq<char>, Seq<char>) {
    match split_once(rest, '=') {
        Some((n, v)) => (undashed(trim(n)), v),
        None => (undashed(trim(rest)), Seq::empty()),
    }
}

/// The client's environment after `putenv`: `NAME=VALUE` sets, and `NAME` alone unsets.
pub open spec fn after_putenv(
    env: Map<Seq<char>, Seq<char>>,
    setting: Seq<char>,
) -> Map<Seq<char>, Seq<char>> {
    match split_once(setting, '=') {
        Some((k, v)) => env.insert(k, v),
        None => env.remove(setting),
    }
}

/// The state after an option with this name and value.
pub open spec fn with_option(st: StateView, name: Seq<char>, value: Seq<char>) -> StateView {
    if name == "ttyname"@ {
        StateView { ttyname: Some(decoded(value)), ..st }
    } else if name == "ttytype"@ {
        StateView { ttytype: Some(decoded(value)), ..st }
    } else if name == "display"@ {
        StateView { display: Some(decoded(value)), ..st }
    } else if name == "lc-ctype"@ {
        StateView { lc_ctype: Some(decoded(value)), ..st }
    } else if name == "lc-messages"@ {
        StateView { lc_messages: Some(decoded(value)), ..st }
    } else if name == "owner"@ {
        StateView { owner: Some(decoded(value)), ..st }
    } else if name == "grab"@ {
        StateView { no_grab: false, ..st }
    } else if name == "no-grab"@ {
        StateView { no_grab: true, ..st }
    } else if name == "allow-external-password-cache"@ {
        StateView { external_cache_allowed: true, ..st }
    } else if name == "touch-file"@ {
        st
    } else if name == "putenv"@ {
        StateView { client_env: after_putenv(st.client_env, decoded(value)), ..st }
    } else if starts_with(name, "default-"@) {
        StateView { defaults: st.defaults.insert(name, decoded(value)), ..st }
    } else {
        st
    }
}

/// Whether an option is one that ward knows.
pub open spec fn known_option(name: Seq<char>) -> bool {
    ||| name == "ttyname"@
    ||| name == "ttytype"@
    ||| name == "display"@
    ||| name == "lc-ctype"@
    ||| name == "lc-messages"@
    ||| name == "owner"@
    ||| name == "grab"@
    ||| name == "no-grab"@
    ||| name == "allow-external-password-cache"@
    ||| name == "touch-file"@
    ||| name == "putenv"@
    ||| starts_with(name, "default-"@)
}

/// The state after `OPTION rest`.
pub open spec fn after_option(st: StateView, rest: Seq<char>) -> StateView {
    with_option(st, option_parts(rest).0, option_parts(rest).1)
}

/// What is said about an option that ward does not know.
pub open spec fn option_complaint(rest: Seq<char>) -> Option<Seq<char>> {
    if known_option(option_parts(rest).0) {
        None
    } else {
        Some("ward: unknown option: "@ + option_parts(rest).0)
    }
}

/// Takes the pairs of dashes off a name.
fn without_dashes<'a>(s: &'a str) -> (r: &'a str)
    ensures
        r@ == undashed(s@),
{
    let v = chars_of(s);
    let n = v.len();
    let mut i: usize = 0;
    assert(v@.skip(0) =~= s@);
    while n - i >= 2 && v[i] == '-' && v[i + 1] == '-'
        invariant
            v@ == s@,
            n == v@.len(),
            i <= n,
            undashed(s@) == undashed(v@.skip(i as int)),
        decreases n - i,
    {
        assert(v@.skip(i as int).skip(2) =~= v@.skip(i + 2));
        i += 2;
    }
    let r = s.substring_char(i, n);
    assert(r@ =~= v@.skip(i as int));
    r
}

/// Takes in one option. Returns what is to be said about it, if ward does not know it.
pub fn handle_option(st: &mut State, rest: &str) -> (complaint: Option<String>)
    ensures
        final(st)@ == after_option(old(st)@, rest@),
        opt(complaint) == option_complaint(rest@),
{
    let (name, value) = match halves(rest, '=') {
        Some((n, v)) => (trimmed(n), v),
        None => (trimmed(rest), ""),
    };
    proof {
        reveal_strlit("");
        assert(""@ =~= Seq::<char>::empty());
    }
    let name = without_dashes(name);
    assert((name@, value@) == option_parts(rest@));
    if same(name, "ttyname") {
        st.ttyname = Some(percent_decode(value));
    } else if same(name, "ttytype") {
        st.ttytype = Some(percent_decode(value));
    } else if same(name, "display") {
        st.display = Some(percent_decode(value));
    } else if same(name, "lc-ctype") {
        st.lc_ctype = Some(percent_decode(value));
    } else if same(name, "lc-messages") {
        st.lc_messages = Some(percent_decode(value));
    } else if same(name, "owner") {
        st.owner = Some(percent_decode(value));
    } else if same(name, "grab") {
        st.no_grab = false;
    } else if same(name, "no-grab") {
        st.no_grab = true;
    } else if same(name, "allow-external-password-cache") {
        st.external_cache_allowed = true;
    } else if same(name, "touch-file") {
        // It points at the agent's socket and exists so a pinentry can touch it to keep the
        // agent alive. ward has nothing to do with it, and knowing it keeps a line per
        // passphrase out of the log.
    } else if same(name, "putenv") {
        let setting = percent_decode(value);
        match halves(setting.as_str(), '=') {
            Some((k, v)) => st.client_env.insert(k, v),
            None => st.client_env.remove(setting.as_str()),
        }
    } else if has_prefix(name, "default-") {
        let label = percent_decode(value);
        st.defaults.insert(name, label.as_str());
    } else {
        let mut complaint = "ward: unknown option: ".to_string();
        complaint.append(name);
        return Some(complaint);
    }
    None
}

/// A value, or a dash in the place of one that was never given.
pub open spec fn or_dash(o: Option<Seq<char>>) -> Seq<char> {
    match o {
        Some(s) => s,
        None => "-"@,
    }
}

/// What ward tells about itself, where `pid` is the process and `version` the program's.
pub open spec fn info_data(
    st: StateView,
    what: Seq<char>,
    pid: nat,
    version: Seq<char>,
) -> Option<Seq<char>> {
    if what == "pid"@ {
        Some(decimal(pid))
    } else if what == "version"@ {
        Some(version)
    } else if what == "flavor"@ {
        Some("ward"@)
    } else if what == "ttyinfo"@ {
        Some(or_dash(st.ttyname) + " "@ + or_dash(st.ttytype) + " "@ + or_dash(st.display))
    } else {
        None
    }
}

/// What `GETINFO what` is answered: the data, where there is any, and an `OK`.
pub open spec fn info_reply(
    st: StateView,
    what: Seq<char>,
    pid: nat,
    version: Seq<char>,
) -> Seq<char> {
    match info_data(st, what, pid, version) {
        Some(data) => data_line(data) + ok_line(Seq::empty()),
        None => ok_line(Seq::empty()),
    }
}

/// A value, or a dash.
fn dash(o: &Option<String>) -> (s: String)
    ensures
        s@ == or_dash(opt(*o)),
{
    match o {
        Some(s) => s.clone(),
        None => "-".to_string(),
    }
}

/// Answers that all is well, with nothing to add.
fn plain_ok(writer: &mut Writer)
    ensures
        final(writer)@ == old(writer)@ + ok_line(Seq::empty()),
{
    proof {
        reveal_strlit("");
        assert(""@ =~= Seq::<char>::empty());
    }
    writer.ok("");
}

/// Answers a question about ward itself.
pub fn handle_getinfo(st: &State, writer: &mut Writer, what: &str, pid: u32, version: &str)
    ensures
        final(writer)@ == old(writer)@ + info_reply(st@, what@, pid as nat, version@),
{
    if same(what, "pid") {
        writer.data_str(decimal_of(pid as u64).as_str());
    } else if same(what, "version") {
        writer.data_str(version);
    } else if same(what, "flavor") {
        // The agent logs this. Naming ourselves rather than borrowing another pinentry's
        // flavour keeps its log honest about what actually asked.
        writer.data_str("ward");
    } else if same(what, "ttyinfo") {
        let mut line = dash(&st.ttyname);
        line.append(" ");
        line.append(dash(&st.ttytype).as_str());
        line.append(" ");
        line.append(dash(&st.display).as_str());
        writer.data_str(line.as_str());
    }
    plain_ok(writer);
    assert(writer@ =~= old(writer)@ + info_reply(st@, what@, pid as nat, version@));
}

/// The commands of the protocol.
#[derive(Debug, Clone, Copy, PartialEq, Eq, Structural)]
pub enum Verb {
    SetDesc,
    SetPrompt,
    SetTitle,
    SetError,
    SetOk,
    SetCancel,
    SetNotOk,
    SetRepeat,
    SetRepeatError,
    /// Accepted and never rendered. Drawing it means answering the agent's `INQUIRE QUALITY`
    /// with the partial passphrase on every keystroke — real exposure, repeated per character,
    /// to colour a bar. Strength advice belongs where the passphrase is chosen, not where it is
    /// typed.
    SetQualityBar,
    SetKeyInfo,
    SetTimeout,
    SetOption,
    GetInfo,
    Reset,
    Message,
    Confirm,
    GetPin,
    Bye,
    /// A command that asks for nothing ward keeps or shows. The agent sends
    /// `CLEARPASSPHRASE` when it wants any externally cached copy dropped; ward has no cache
    /// to drop, so agreeing is the whole of the correct answer.
    Agree,
    /// A command that ward does not know.
    Unknown,
}

/// Which command a word is, whatever its case.
pub open spec fn verb(cmd: Seq<char>) -> Verb {
    let w = upper_case(cmd);
    if w == "SETDESC"@ {
        Verb::SetDesc
    } else if w == "SETPROMPT"@ {
        Verb::SetPrompt
    } else if w == "SETTITLE"@ {
        Verb::SetTitle
    } else if w == "SETERROR"@ {
        Verb::SetError
    } else if w == "SETOK"@ {
        Verb::SetOk
    } else if w == "SETCANCEL"@ {
        Verb::SetCancel
    } else if w == "SETNOTOK"@ {
        Verb::SetNotOk
    } else if w == "SETREPEAT"@ {
        Verb::SetRepeat
    } else if w == "SETREPEATERROR"@ {
        Verb::SetRepeatError
    } else if w == "SETQUALITYBAR"@ {
        Verb::SetQualityBar
    } else if w == "SETKEYINFO"@ {
        Verb::SetKeyInfo
    } else if w == "SETTIMEOUT"@ {
        Verb::SetTimeout
    } else if w == "OPTION"@ {
        Verb::SetOption
    } else if w == "GETINFO"@ {
        Verb::GetInfo
    } else if w == "RESET"@ {
        Verb::Reset
    } else if w == "MESSAGE"@ {
        Verb::Message
    } else if w == "CONFIRM"@ {
        Verb::Confirm
    } else if w == "GETPIN"@ {
        Verb::GetPin
    } else if w == "BYE"@ {
        Verb::Bye
    } else if w == "CLEARPASSPHRASE"@ || w == "SETQUALITYBAR_TT"@ || w == "SETGENPIN"@ || w
        == "SETGENPIN_TT"@ || w == "NOP"@ {
        Verb::Agree
    } else {
        Verb::Unknown
    }
}

/// Recognises a command.
pub fn verb_of(cmd: &str) -> (v: Verb)
    ensures
        v == verb(cmd@),
{
    let upper = uppercase(cmd);
    let w = upper.as_str();
    if same(w, "SETDESC") {
        Verb::SetDesc
    } else if same(w, "SETPROMPT") {
        Verb::SetPrompt
    } else if same(w, "SETTITLE") {
        Verb::SetTitle
    } else if same(w, "SETERROR") {
        Verb::SetError
    } else if same(w, "SETOK") {
        Verb::SetOk
    } else if same(w, "SETCANCEL") {
        Verb::SetCancel
    } else if same(w, "SETNOTOK") {
        Verb::SetNotOk
    } else if same(w, "SETREPEAT") {
        Verb::SetRepeat
    } else if same(w, "SETREPEATERROR") {
        Verb::SetRepeatError
    } else if same(w, "SETQUALITYBAR") {
        Verb::SetQualityBar
    } else if same(w, "SETKEYINFO") {
        Verb::SetKeyInfo
    } else if same(w, "SETTIMEOUT") {
        Verb::SetTimeout
    } else if same(w, "OPTION") {
        Verb::SetOption
    } else if same(w, "GETINFO") {
        Verb::GetInfo
    } else if same(w, "RESET") {
        Verb::Reset
    } else if same(w, "MESSAGE") {
        Verb::Message
    } else if same(w, "CONFIRM") {
        Verb::Confirm
    } else if same(w, "GETPIN") {
        Verb::GetPin
    } else if same(w, "BYE") {
        Verb::Bye
    } else if same(w, "CLEARPASSPHRASE") || same(w, "SETQUALITYBAR_TT") || same(w, "SETGENPIN")
        || same(w, "SETGENPIN_TT") || same(w, "NOP") {
        Verb::Agree
    } else {
        Verb::Unknown
    }
}

/// What a prompt is to ask.
#[derive(Debug, Clone, Copy, PartialEq, Eq, Structural)]
pub enum Request {
    GetPin,
    Confirm { one_button: bool },
    Message,
}

/// What is to be done about a line.
#[derive(Debug, Clone, Copy, PartialEq, Eq, Structural)]
pub enum Step {
    /// Nothing: the line is empty, or a comment.
    Nothing,
    /// The reply is written.
    Reply,
    /// Somebody has to be asked first.
    Ask(Request),
    /// The reply is written and the conversation over. gpg-agent sends `BYE` and closes the
    /// pipe without waiting, so that nobody takes the reply is no error.
    Close,
}

/// Whether a line says nothing.
pub open spec fn says_nothing(line: Seq<char>) -> bool {
    line.len() == 0 || line[0] == '#'
}

/// The step for a line.
pub open spec fn step_for(line: Seq<char>) -> Step {
    let (cmd, rest) = command_parts(line);
    if says_nothing(line) {
        Step::Nothing
    } else {
        match verb(cmd) {
            Verb::GetPin => Step::Ask(Request::GetPin),
            Verb::Confirm => Step::Ask(
                Request::Confirm { one_button: words(rest).contains("--one-button"@) },
            ),
            Verb::Message => Step::Ask(Request::Message),
            Verb::Bye => Step::Close,
            _ => Step::Reply,
        }
    }
}

/// The seconds that a timeout names, if it names any.
pub open spec fn seconds(rest: Seq<char>) -> Option<u64> {
    match number(trim(rest)) {
        Ok(n) => Some(n as u64),
        Err(_) => None,
    }
}

/// The state after a line.
pub open spec fn after_line(st: StateView, line: Seq<char>) -> StateView {
    let (cmd, rest) = command_parts(line);
    if says_nothing(line) {
        st
    } else {
        match verb(cmd) {
            Verb::SetDesc => StateView { desc: Some(decoded(rest)), ..st },
            Verb::SetPrompt => StateView { prompt: Some(decoded(rest)), ..st },
            Verb::SetTitle => StateView { title: Some(decoded(rest)), ..st },
            Verb::SetError => StateView { error: Some(decoded(rest)), ..st },
            Verb::SetOk => StateView { ok: Some(decoded(rest)), ..st },
            Verb::SetCancel => StateView { cancel: Some(decoded(rest)), ..st },
            Verb::SetNotOk => StateView { notok: Some(decoded(rest)), ..st },
            Verb::SetRepeat => StateView { repeat: Some(decoded(rest)), ..st },
            Verb::SetRepeatError => StateView { repeat_error: Some(decoded(rest)), ..st },
            Verb::SetQualityBar => StateView { quality_bar: Some(decoded(rest)), ..st },
            Verb::SetKeyInfo => StateView {
                keyinfo: if rest == "--clear"@ {
                    None
                } else {
                    Some(rest)
                },
                ..st
            },
            Verb::SetTimeout => StateView { timeout_secs: seconds(rest), ..st },
            Verb::SetOption => after_option(st, rest),
            Verb::Reset => st.reset(),
            _ => st,
        }
    }
}

/// What a line is answered before anybody is asked.
pub open spec fn reply_to(
    st: StateView,
    line: Seq<char>,
    pid: nat,
    version: Seq<char>,
) -> Seq<char> {
    let (cmd, rest) = command_parts(line);
    match step_for(line) {
        Step::Nothing => Seq::empty(),
        Step::Ask(_) => Seq::empty(),
        Step::Close => ok_line("closing connection"@),
        Step::Reply => if verb(cmd) == Verb::GetInfo {
            info_reply(st, trim(rest), pid, version)
        } else {
            ok_line(Seq::empty())
        },
    }
}

/// What goes into the log about a line: ward does not refuse what it does not know, so it
/// says so instead.
pub open spec fn complaint_about(line: Seq<char>) -> Option<Seq<char>> {
    let (cmd, rest) = command_parts(line);
    if says_nothing(line) {
        None
    } else {
        match verb(cmd) {
            Verb::SetOption => option_complaint(rest),
            Verb::Unknown => Some("ward: unknown command: "@ + cmd),
            _ => None,
        }
    }
}

/// The greeting. The agent waits for this before sending anything.
pub fn greet(writer: &mut Writer)
    ensures
        final(writer)@ == old(writer)@ + ok_line("Pleased to meet you"@),
{
    writer.ok("Pleased to meet you");
}

/// Takes in one line: changes the state, writes the reply if it can be given at once, and
/// says what is to be done. Also returns what is to be logged.
///
/// The agent grows new verbs across versions and treats some failures as fatal, so an
/// unknown command is answered OK rather than refused: a compatibility yes to something we
/// do not render is harmless, while a no can kill the prompt entirely.
pub fn command(
    st: &mut State,
    writer: &mut Writer,
    line: &str,
    pid: u32,
    version: &str,
) -> (r: (Step, Option<String>))
    ensures
        r.0 == step_for(line@),
        opt(r.1) == complaint_about(line@),
        final(st)@ == after_line(old(st)@, line@),
        final(writer)@ == old(writer)@ + reply_to(old(st)@, line@, pid as nat, version@),
{
    assert(old(writer)@ + Seq::<char>::empty() =~= old(writer)@);
    let v = chars_of(line);
    if v.len() == 0 || v[0] == '#' {
        return (Step::Nothing, None);
    }
    let (cmd, rest) = split_command(line);
    match verb_of(cmd) {
        Verb::SetDesc => {
            st.desc = Some(percent_decode(rest));
        },
        Verb::SetPrompt => {
            st.prompt = Some(percent_decode(rest));
        },
        Verb::SetTitle => {
            st.title = Some(percent_decode(rest));
        },
        Verb::SetError => {
            st.error = Some(percent_decode(rest));
        },
        Verb::SetOk => {
            st.ok = Some(percent_decode(rest));
        },
        Verb::SetCancel => {
            st.cancel = Some(percent_decode(rest));
        },
        Verb::SetNotOk => {
            st.notok = Some(percent_decode(rest));
        },
        Verb::SetRepeat => {
            st.repeat = Some(percent_decode(rest));
        },
        Verb::SetRepeatError => {
            st.repeat_error = Some(percent_decode(rest));
        },
        Verb::SetQualityBar => {
            st.quality_bar = Some(percent_decode(rest));
        },
        Verb::SetKeyInfo => {
            st.keyinfo = if same(rest, "--clear") {
                None
            } else {
                Some(rest.to_string())
            };
        },
        Verb::SetTimeout => {
            st.timeout_secs = match parse_number(trimmed(rest)) {
                Ok(n) => Some(n),
                Err(_) => None,
            };
        },
        Verb::SetOption => {
            let complaint = handle_option(st, rest);
            plain_ok(writer);
            return (Step::Reply, complaint);
        },
        Verb::GetInfo => {
            handle_getinfo(&*st, writer, trimmed(rest), pid, version);
            return (Step::Reply, None);
        },
        Verb::Reset => {
            st.reset_request();
        },
        Verb::Message => return (Step::Ask(Request::Message), None),
        Verb::Confirm => {
            let one_button = has_word(rest, "--one-button");
            return (Step::Ask(Request::Confirm { one_button }), None);
        },
        Verb::GetPin => return (Step::Ask(Request::GetPin), None),
        Verb::Bye => {
            writer.ok("closing connection");
            return (Step::Close, None);
        },
        Verb::Agree => {},
        Verb::Unknown => {
            plain_ok(writer);
            let mut complaint = "ward: unknown command: ".to_string();
            complaint.append(cmd);
            return (Step::Reply, Some(complaint));
        },
    }
    plain_ok(writer);
    (Step::Reply, None)
}

/// Whether `word` is one of the words of `s`.
pub fn has_word(s: &str, word: &str) -> (r: bool)
    ensures
        r == words(s@).contains(word@),
{
    let all = split_words(s);
    let mut i: usize = 0;
    while i < all.len()
        invariant
            views(all@) == words(s@),
            i <= all@.len(),
            forall|j: int| 0 <= j < i ==> views(all@)[j] != word@,
        decreases all@.len() - i,
    {
        if same(all[i].as_str(), word) {
            assert(views(all@)[i as int] == word@);
            return true;
        }
        i += 1;
    }
    false
}

/// How an attempt to ask somebody ended.
pub enum Answer {
    /// No front-end could be had, and why.
    NoFrontend(String),
    /// No memory could be had for the passphrase, and why.
    NoBuffer(String),
    /// The prompt for a passphrase failed on the way, and why.
    PromptFailed(String),
    /// A passphrase was asked for: how that ended, and whether the buffer is empty.
    Pin { outcome: Outcome, empty: bool },
    /// A question was put.
    Confirmed(Outcome),
    /// A message was shown.
    Shown,
}

/// What is to be done about a request next.
pub enum Task {
    /// Memory has to be had for the passphrase, and this front-end put it to the user after.
    Reserve(Kind),
    /// This front-end has to put it to the user.
    Ask(Kind),
    /// The agent has to be told this.
    Tell(Answer),
}

/// What follows from looking for a front-end. Only a passphrase needs memory of its own.
pub fn chosen(request: Request, found: Result<Kind, NoFrontend>) -> (t: Task)
    ensures
        t == match found {
            Ok(kind) => if request == Request::GetPin {
                Task::Reserve(kind)
            } else {
                Task::Ask(kind)
            },
            Err(why) => Task::Tell(Answer::NoFrontend(why.0)),
        },
{
    match found {
        Ok(kind) => {
            if request == Request::GetPin {
                Task::Reserve(kind)
            } else {
                Task::Ask(kind)
            }
        },
        Err(NoFrontend(why)) => Task::Tell(Answer::NoFrontend(why)),
    }
}

/// What follows from asking for memory, where `locked` tells whether it is locked in RAM. Also
/// returns what is to be logged: without the lock the passphrase can reach swap, and a program
/// that claims locked memory it did not get is worse than one that never claimed it.
pub fn mapped(kind: Kind, locked: Result<bool, String>) -> (r: (Task, Option<String>))
    ensures
        r.0 == match locked {
            Ok(_) => Task::Ask(kind),
            Err(why) => Task::Tell(Answer::NoBuffer(why)),
        },
        opt(r.1) == if locked == Ok::<bool, String>(false) {
            Some("ward: the passphrase buffer is NOT locked in RAM"@)
        } else {
            None
        },
{
    match locked {
        Ok(true) => (Task::Ask(kind), None),
        Ok(false) => (
            Task::Ask(kind),
            Some("ward: the passphrase buffer is NOT locked in RAM".to_string()),
        ),
        Err(why) => (Task::Tell(Answer::NoBuffer(why)), None),
    }
}

/// What an answer is told as, on the wire and in the log.
pub struct Told {
    /// What is sent first.
    pub before: String,
    /// Whether the passphrase is sent next.
    pub secret: bool,
    /// What is sent last.
    pub after: String,
    /// What goes into the log.
    pub complaint: Option<String>,
}

/// The command that made a request.
pub open spec fn request_name(r: Request) -> Seq<char> {
    match r {
        Request::GetPin => "GETPIN"@,
        Request::Confirm { .. } => "CONFIRM"@,
        Request::Message => "MESSAGE"@,
    }
}

/// What the agent is told before the passphrase: that the two entries agreed, where it asked
/// for two. Otherwise it asks the user to repeat again itself.
pub open spec fn told_before(st: StateView, a: Answer) -> Seq<char> {
    match a {
        Answer::Pin { outcome, .. } => if outcome == Outcome::Accepted && st.repeat is Some {
            status_line("PIN_REPEATED"@)
        } else {
            Seq::empty()
        },
        _ => Seq::empty(),
    }
}

/// Whether the passphrase is sent. An empty one is an answer, not a failure, and is told as
/// an `OK` with no data: a key with no passphrase is a thing that exists.
pub open spec fn sends_secret(a: Answer) -> bool {
    a matches Answer::Pin { outcome, empty } && outcome == Outcome::Accepted && !empty
}

/// What the agent is told last. "The user declined" and "nobody could be asked" are different
/// answers and get different errors.
pub open spec fn told_after(a: Answer) -> Seq<char> {
    match a {
        Answer::NoFrontend(why) => err_line(ERR_NO_PIN_ENTRY, why@),
        Answer::NoBuffer(_) => err_line(ERR_NO_PIN_ENTRY, "no memory for the passphrase"@),
        Answer::PromptFailed(_) => err_line(ERR_NO_PIN_ENTRY, "the prompt could not be shown"@),
        Answer::Pin { outcome, .. } => match outcome {
            Outcome::Accepted => ok_line(Seq::empty()),
            Outcome::Unavailable => err_line(ERR_NO_PIN_ENTRY, "the display went away"@),
            _ => err_line(ERR_CANCELLED, "Operation cancelled"@),
        },
        Answer::Confirmed(outcome) => match outcome {
            Outcome::Accepted => ok_line(Seq::empty()),
            Outcome::NotOk => err_line(ERR_NOT_CONFIRMED, "not confirmed"@),
            Outcome::Unavailable => err_line(ERR_NO_PIN_ENTRY, "the display went away"@),
            Outcome::Cancelled => err_line(ERR_CANCELLED, "Operation cancelled"@),
        },
        Answer::Shown => ok_line(Seq::empty()),
    }
}

/// What goes into the log.
pub open spec fn told_log(r: Request, a: Answer) -> Option<Seq<char>> {
    match a {
        Answer::NoFrontend(why) => Some("ward: "@ + request_name(r) + ": "@ + why@),
        Answer::NoBuffer(why) => Some("ward: no locked buffer: "@ + why@),
        Answer::PromptFailed(why) => Some("ward: the prompt failed: "@ + why@),
        _ => None,
    }
}

/// Turns an answer into replies.
///
/// The error belongs to the attempt that just happened; the manual has it reset by the next
/// GETPIN or CONFIRM, and leaving it set would repeat a stale complaint over a fresh prompt.
pub fn answered(st: &mut State, request: Request, a: &Answer) -> (t: Told)
    ensures
        final(st)@ == (StateView { error: None, ..old(st)@ }),
        t.before@ == told_before(old(st)@, *a),
        t.secret == sends_secret(*a),
        t.after@ == told_after(*a),
        opt(t.complaint) == told_log(request, *a),
{
    let mut before = Writer::stdout();
    let mut after = Writer::stdout();
    let mut secret = false;
    let mut complaint: Option<String> = None;
    st.error = None;
    match a {
        Answer::NoFrontend(why) => {
            after.err(ERR_NO_PIN_ENTRY, why.as_str());
            let mut c = "ward: ".to_string();
            c.append(
                match request {
                    Request::GetPin => "GETPIN",
                    Request::Confirm { .. } => "CONFIRM",
                    Request::Message => "MESSAGE",
                },
            );
            c.append(": ");
            c.append(why.as_str());
            complaint = Some(c);
        },
        Answer::NoBuffer(why) => {
            after.err(ERR_NO_PIN_ENTRY, "no memory for the passphrase");
            let mut c = "ward: no locked buffer: ".to_string();
            c.append(why.as_str());
            complaint = Some(c);
        },
        Answer::PromptFailed(why) => {
            after.err(ERR_NO_PIN_ENTRY, "the prompt could not be shown");
            let mut c = "ward: the prompt failed: ".to_string();
            c.append(why.as_str());
            complaint = Some(c);
        },
        Answer::Pin { outcome, empty } => match outcome {
            Outcome::Accepted => {
                if st.repeat.is_some() {
                    before.status("PIN_REPEATED");
                }
                secret = !*empty;
                plain_ok(&mut after);
            },
            Outcome::Unavailable => after.err(ERR_NO_PIN_ENTRY, "the display went away"),
            _ => after.err(ERR_CANCELLED, "Operation cancelled"),
        },
        Answer::Confirmed(outcome) => match outcome {
            Outcome::Accepted => plain_ok(&mut after),
            Outcome::NotOk => after.err(ERR_NOT_CONFIRMED, "not confirmed"),
            Outcome::Unavailable => after.err(ERR_NO_PIN_ENTRY, "the display went away"),
            Outcome::Cancelled => after.err(ERR_CANCELLED, "Operation cancelled"),
        },
        Answer::Shown => plain_ok(&mut after),
    }
    assert(before@ =~= told_before(old(st)@, *a));
    assert(after@ =~= told_after(*a));
    Told { before: before.take(), secret, after: after.take(), complaint }
}

/// `RESET` forgets the prompt but not the connection: whatever the agent said about the
/// session — its terminal, its display, its environment, its labels — is still there.
pub proof fn law_reset_keeps_the_connection(st: StateView, line: Seq<char>)
    requires
        !says_nothing(line),
        verb(command_parts(line).0) == Verb::Reset,
    ensures
        ({
            let after = after_line(st, line);
            &&& after.desc is None && after.prompt is None && after.error is None
            &&& after.repeat is None && after.repeat_error is None && after.quality_bar is None
            &&& after.timeout_secs == st.default_timeout_secs
            &&& after.ttyname == st.ttyname && after.ttytype == st.ttytype
            &&& after.display == st.display
            &&& after.lc_ctype == st.lc_ctype && after.lc_messages == st.lc_messages
            &&& after.client_env == st.client_env && after.defaults == st.defaults
            &&& after.owner == st.owner && after.forced_frontend == st.forced_frontend
            &&& after.default_timeout_secs == st.default_timeout_secs
        }),
{
}

/// "Nobody could be asked" never reads like "the user declined", and neither reads like "the
/// user said no", whatever text goes with them.
pub proof fn law_refusals_are_told_apart(a: Seq<char>, b: Seq<char>, c: Seq<char>)
    ensures
        err_line(ERR_NO_PIN_ENTRY, a) != err_line(ERR_CANCELLED, b),
        err_line(ERR_NO_PIN_ENTRY, a) != err_line(ERR_NOT_CONFIRMED, c),
        err_line(ERR_CANCELLED, b) != err_line(ERR_NOT_CONFIRMED, c),
{
    reveal_strlit("ERR ");
    reveal_with_fuel(decimal, 9);
    let x = err_line(ERR_NO_PIN_ENTRY, a);
    let y = err_line(ERR_CANCELLED, b);
    let z = err_line(ERR_NOT_CONFIRMED, c);
    assert(decimal(83_886_147).len() == 8 && decimal(83_886_147)[6] == '4');
    assert(decimal(83_886_179).len() == 8 && decimal(83_886_179)[6] == '7');
    assert(decimal(83_886_194).len() == 8 && decimal(83_886_194)[6] == '9');
    assert(x[10] == '4');
    assert(y[10] == '7');
    assert(z[10] == '9');
}

/// Whatever becomes of a request, the agent is told: the last thing it hears of it is one
/// line, an `OK` or an `ERR` that carries one of the three codes. The passphrase goes out only
/// before an `OK`.
pub proof fn law_every_request_is_answered(a: Answer)
    ensures
        told_after(a) == ok_line(Seq::empty()) || exists|code: u32, text: Seq<char>|
            told_after(a) == #[trigger] err_line(code, text) && (code == ERR_CANCELLED || code
                == ERR_NOT_CONFIRMED || code == ERR_NO_PIN_ENTRY),
        sends_secret(a) ==> told_after(a) == ok_line(Seq::empty()),
        one_line(told_after(a)),
{
    let nothing = Seq::<char>::empty();
    law_replies_are_single_lines(0, nothing);
    match a {
        Answer::NoFrontend(why) => {
            law_replies_are_single_lines(ERR_NO_PIN_ENTRY, why@);
        },
        Answer::NoBuffer(_) => {
            law_replies_are_single_lines(ERR_NO_PIN_ENTRY, "no memory for the passphrase"@);
        },
        Answer::PromptFailed(_) => {
            law_replies_are_single_lines(ERR_NO_PIN_ENTRY, "the prompt could not be shown"@);
        },
        _ => {
            law_replies_are_single_lines(ERR_NO_PIN_ENTRY, "the display went away"@);
            law_replies_are_single_lines(ERR_NOT_CONFIRMED, "not confirmed"@);
            law_replies_are_single_lines(ERR_CANCELLED, "Operation cancelled"@);
        },
    }
}

/// Every line that says something and asks nobody is answered, and the answer ends in an
/// `OK`: nothing the agent can send is refused.
pub proof fn law_every_command_is_accepted(
    st: StateView,
    line: Seq<char>,
    pid: nat,
    version: Seq<char>,
)
    requires
        step_for(line) == Step::Reply,
    ensures
        ({
            let reply = reply_to(st, line, pid, version);
            let ok = ok_line(Seq::empty());
            ok.len() <= reply.len() && reply.skip(reply.len() - ok.len()) == ok
        }),
{
    let reply = reply_to(st, line, pid, version);
    let ok = ok_line(Seq::empty());
    assert(reply.skip(reply.len() - ok.len()) =~= ok);
}

/// The client's session beats ward's own environment, and unsetting a variable there lets
/// ward's own be seen again.
pub proof fn law_the_client_environment_wins(
    st: StateView,
    name: Seq<char>,
    value: Seq<char>,
    own: Option<Seq<char>>,
)
    requires
        forall|i: int| 0 <= i < name.len() ==> #[trigger] name[i] != '=',
    ensures
        ({
            let set = StateView {
                client_env: after_putenv(st.client_env, name + "="@ + value),
                ..st
            };
            let unset = StateView { client_env: after_putenv(set.client_env, name), ..set };
            set.variable(name, own) == Some(value) && unset.variable(name, own) == own
        }),
{
    reveal_strlit("=");
    let setting = name + "="@ + value;
    crate::text::lemma_find_is(setting, '=', name.len() as int);
    crate::text::lemma_find_is(name, '=', name.len() as int);
    assert(setting.take(name.len() as int) =~= name);
    assert(setting.skip(name.len() as int + 1) =~= value);
}

} // verus!
