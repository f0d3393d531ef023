//! What a front-end is, and how one is chosen.
//!
//! The protocol layer knows nothing about drawing and a front-end knows nothing about
//! Assuan. That seam is what makes both testable: the protocol can be driven with a fake
//! front-end and no terminal, and a front-end can be driven with a hand-built `State` and
//! no protocol.
//!
//! A front-end must never write to stdout. That descriptor is the channel gpg-agent is
//! listening on, and a stray character from a drawing routine is a protocol violation that
//! presents as a hang.

use vstd::prelude::*;

use crate::secret::Secret;
use crate::server::{Answer, Request, State, StateView};
use crate::text::{opt, same, split_words, starts_with, views, without_prefix, words};

pub mod entry;
pub mod gui;
pub mod tty;

verus! {

/// How a prompt ended.
#[derive(Debug, Clone, Copy, PartialEq, Eq, Structural)]
pub enum Outcome {
    /// The user answered. For a passphrase, the buffer holds what they typed — possibly
    /// nothing, which the protocol reports as an `OK` with no data rather than as an error.
    Accepted,
    /// The user declined, dismissed the window, or the timeout expired. The manual makes
    /// timeout indistinguishable from cancellation on purpose, so ward does not invent a
    /// distinction the caller could not act on.
    Cancelled,
    /// A three-button `CONFIRM` answered with the middle option.
    NotOk,
    /// The prompt could not be shown at all — the window failed to appear AFTER the probe
    /// had said a display was there. Nobody was asked and nobody declined, so this must not
    /// come back as `Cancelled`: "the user declined" and "nobody could be asked" are
    /// different answers, and the agent acts on the difference.
    Unavailable,
}

/// Somewhere a prompt can be drawn. An error is told in words.
pub trait Frontend {
    /// Asks for a passphrase, appending what is typed into `into`, which is empty: nothing of
    /// one attempt survives into the next.
    ///
    /// The buffer is passed in rather than returned so that it is allocated, locked and
    /// wiped by the caller: a front-end that created its own would be a second place where
    /// the rules about where a passphrase may live have to be got right.
    fn getpin(&mut self, st: &State, into: &mut Secret) -> Result<Outcome, String>
        requires
            old(into).wf(),
            old(into).bytes().len() == 0,
    ;

    /// Puts a question that is answered with yes or no.
    fn confirm(&mut self, st: &State, one_button: bool) -> Result<Outcome, String>;

    /// Shows a message.
    fn message(&mut self, st: &State) -> Result<(), String>;
}

/// The answer to a request for a passphrase, from how the prompt ended and whether the buffer
/// is empty. A prompt that fails on the way is answered too: ending the conversation without
/// a reply would leave the agent waiting on it.
pub fn pin_answer(ended: Result<Outcome, String>, empty: bool) -> (a: Answer)
    ensures
        match ended {
            Ok(outcome) => a == (Answer::Pin { outcome, empty }),
            Err(why) => a == Answer::PromptFailed(why),
        },
{
    match ended {
        Ok(outcome) => Answer::Pin { outcome, empty },
        Err(why) => Answer::PromptFailed(why),
    }
}

/// The answer to a question. The failure of such a prompt ends the conversation.
pub fn confirm_answer(ended: Result<Outcome, String>) -> (r: Result<Answer, String>)
    ensures
        match ended {
            Ok(outcome) => r == Ok::<Answer, String>(Answer::Confirmed(outcome)),
            Err(why) => r == Err::<Answer, String>(why),
        },
{
    match ended {
        Ok(outcome) => Ok(Answer::Confirmed(outcome)),
        Err(why) => Err(why),
    }
}

/// The answer to a message. The failure of such a prompt ends the conversation.
pub fn message_answer(ended: Result<(), String>) -> (r: Result<Answer, String>)
    ensures
        match ended {
            Ok(()) => r == Ok::<Answer, String>(Answer::Shown),
            Err(why) => r == Err::<Answer, String>(why),
        },
{
    match ended {
        Ok(()) => Ok(Answer::Shown),
        Err(why) => Err(why),
    }
}

/// Puts a request to a front-end: a passphrase is asked for by `getpin`, a question put by
/// `confirm` and a message shown by `message`, each with the state and what the request says,
/// and the answer is what that call came to.
pub fn ask<F: Frontend>(
    front: &mut F,
    st: &State,
    request: Request,
    into: &mut Secret,
) -> (r: Result<Answer, String>)
    requires
        old(into).wf(),
        request is GetPin ==> old(into).bytes().len() == 0,
    ensures
        match request {
            Request::GetPin => exists|f: &mut F, i: &mut Secret, ended: Result<Outcome, String>|
                {
                    &&& #[trigger] call_ensures(F::getpin, (f, st, i), ended)
                    &&& *f == *old(front) && *final(f) == *final(front)
                    &&& *i == *old(into) && *final(i) == *final(into)
                    &&& match ended {
                        Ok(outcome) => r == Ok::<Answer, String>(
                            Answer::Pin { outcome, empty: final(into).used() == 0 },
                        ),
                        Err(why) => r == Ok::<Answer, String>(Answer::PromptFailed(why)),
                    }
                },
            Request::Confirm { one_button } => exists|f: &mut F, ended: Result<Outcome, String>|
                {
                    &&& #[trigger] call_ensures(F::confirm, (f, st, one_button), ended)
                    &&& *f == *old(front) && *final(f) == *final(front)
                    &&& match ended {
                        Ok(outcome) => r == Ok::<Answer, String>(Answer::Confirmed(outcome)),
                        Err(why) => r == Err::<Answer, String>(why),
                    }
                },
            Request::Message => exists|f: &mut F, ended: Result<(), String>|
                {
                    &&& #[trigger] call_ensures(F::message, (f, st), ended)
                    &&& *f == *old(front) && *final(f) == *final(front)
                    &&& match ended {
                        Ok(()) => r == Ok::<Answer, String>(Answer::Shown),
                        Err(why) => r == Err::<Answer, String>(why),
                    }
                },
        },
        request is GetPin || *final(into) == *old(into),
{
    match request {
        Request::GetPin => {
            let ended = front.getpin(st, into);
            let empty = into.is_empty();
            Ok(pin_answer(ended, empty))
        },
        Request::Confirm { one_button } => confirm_answer(front.confirm(st, one_button)),
        Request::Message => message_answer(front.message(st)),
    }
}

/// The seconds a prompt may take, where the agent set a limit. Zero is no limit.
pub fn time_allowed(st: &State) -> (r: Option<u64>)
    ensures
        r == match st@.timeout_secs {
            Some(s) => if s > 0 {
                Some(s)
            } else {
                None
            },
            None => None,
        },
{
    match st.timeout_secs {
        Some(s) => {
            if s > 0 {
                Some(s)
            } else {
                None
            }
        },
        None => None,
    }
}

/// Why no front-end could be built. Carried as text because it goes straight into the `ERR`
/// line and into gpg-agent's log, and a caller staring at a failed decryption deserves to
/// read what was missing rather than a number.
pub struct NoFrontend(pub String);

/// Which front-end a prompt is routed to.
#[derive(Debug, Clone, Copy, PartialEq, Eq, Structural)]
pub enum Kind {
    Gui,
    Tty,
}

/// What was asked for: one front-end and no other, or whichever is right.
#[derive(Debug, Clone, Copy, PartialEq, Eq, Structural)]
pub enum Wanted {
    Only(Kind),
    Any,
}

/// What is to be done next to find a front-end.
pub enum Probe {
    /// The window has to be opened.
    OpenGui,
    /// The terminal of this name has to be opened.
    OpenTty(String),
    /// This front-end is in place.
    Draw(Kind),
    /// There is none.
    Fail(NoFrontend),
}

/// What a probe is, as the contracts speak of it.
#[verifier::ext_equal]
pub enum ProbeView {
    OpenGui,
    OpenTty(Seq<char>),
    Draw(Kind),
    Fail(Seq<char>),
}

impl View for Probe {
    type V = ProbeView;

    open spec fn view(&self) -> ProbeView {
        match self {
            Probe::OpenGui => ProbeView::OpenGui,
            Probe::OpenTty(name) => ProbeView::OpenTty(name@),
            Probe::Draw(kind) => ProbeView::Draw(*kind),
            Probe::Fail(why) => ProbeView::Fail(why.0@),
        }
    }
}

/// The request in the user's data: what follows `ward:` in the first word that has it.
pub open spec fn requested(data: Seq<Seq<char>>) -> Option<Seq<char>>
    decreases data.len(),
{
    if data.len() == 0 {
        None
    } else if starts_with(data[0], "ward:"@) {
        Some(data[0].skip("ward:"@.len() as int))
    } else {
        requested(data.drop_first())
    }
}

/// The name of the front-end that was asked for. `user_data` is what `PINENTRY_USER_DATA`
/// is: gpg forwards it per client through the agent, so it can differ from one invocation to
/// the next — something no configuration file can do — and it beats one that can not.
pub open spec fn forced(st: StateView, user_data: Option<Seq<char>>) -> Option<Seq<char>> {
    match user_data {
        Some(v) => match requested(words(v)) {
            Some(f) => Some(f),
            None => st.forced_frontend,
        },
        None => st.forced_frontend,
    }
}

/// What that name asks for. One that names no front-end asks for nothing.
pub open spec fn wanted(st: StateView, user_data: Option<Seq<char>>) -> Wanted {
    match forced(st, user_data) {
        Some(f) => if f == "tty"@ {
            Wanted::Only(Kind::Tty)
        } else if f == "gui"@ {
            Wanted::Only(Kind::Gui)
        } else {
            Wanted::Any
        },
        None => Wanted::Any,
    }
}

/// What is said about a name that names no front-end.
pub open spec fn wanted_complaint(st: StateView, user_data: Option<Seq<char>>) -> Option<Seq<char>> {
    match forced(st, user_data) {
        Some(f) => if f == "tty"@ || f == "gui"@ {
            None
        } else {
            Some("ward: ignoring unknown front-end request: "@ + f)
        },
        None => None,
    }
}

/// Finds out what front-end was asked for. Also returns what is to be logged.
pub fn read_wanted(st: &State, user_data: Option<String>) -> (r: (Wanted, Option<String>))
    ensures
        r.0 == wanted(st@, opt(user_data)),
        opt(r.1) == wanted_complaint(st@, opt(user_data)),
{
    let from_data: Option<String> = match &user_data {
        Some(v) => request_in(v.as_str()),
        None => None,
    };
    let name: Option<String> = match from_data {
        Some(f) => Some(f),
        None => st.forced_frontend.clone(),
    };
    assert(opt(name) == forced(st@, opt(user_data)));
    match name {
        Some(f) => if same(f.as_str(), "tty") {
            (Wanted::Only(Kind::Tty), None)
        } else if same(f.as_str(), "gui") {
            (Wanted::Only(Kind::Gui), None)
        } else {
            let mut c = "ward: ignoring unknown front-end request: ".to_string();
            c.append(f.as_str());
            (Wanted::Any, Some(c))
        },
        None => (Wanted::Any, None),
    }
}

/// Finds the request in the user's data.
fn request_in(data: &str) -> (r: Option<String>)
    ensures
        opt(r) == requested(words(data@)),
{
    let all = split_words(data);
    let mut i: usize = 0;
    assert(views(all@).skip(0) =~= words(data@));
    while i < all.len()
        invariant
            views(all@) == words(data@),
            i <= all@.len(),
            requested(words(data@)) == requested(views(all@).skip(i as int)),
        decreases all@.len() - i,
    {
        let ghost t = views(all@).skip(i as int);
        assert(t[0] == all@[i as int]@);
        assert(t.drop_first() =~= views(all@).skip(i + 1));
        match without_prefix(all[i].as_str(), "ward:") {
            Some(f) => return Some(f.to_string()),
            None => {},
        }
        i += 1;
    }
    None
}

/// What the choice comes to when the window is out of the question: the terminal, if one was
/// named.
pub open spec fn terminal_probe(
    st: StateView,
    wanted: Wanted,
    window_failure: Option<Seq<char>>,
) -> ProbeView {
    match st.ttyname {
        Some(name) => ProbeView::OpenTty(name),
        None => ProbeView::Fail(
            both_failures(wanted, window_failure, "no terminal was named either"@),
        ),
    }
}

/// Why there is no front-end. Where both were tried, both halves of the story, because
/// either one alone sends the reader looking in the wrong place: "no terminal" hides that
/// there was no display either.
pub open spec fn both_failures(
    wanted: Wanted,
    window_failure: Option<Seq<char>>,
    terminal_failure: Seq<char>,
) -> Seq<char> {
    match (wanted, window_failure) {
        (Wanted::Any, Some(w)) => w + "; "@ + terminal_failure,
        _ => terminal_failure,
    }
}

/// Why a terminal could not be opened.
pub open spec fn terminal_failure(name: Seq<char>, why: Seq<char>) -> Seq<char> {
    name + " could not be opened: "@ + why
}

/// The first thing to do for a prompt. The window comes first, and only when it can not be
/// had does the terminal get a turn. The window is opened once: after that it is either in
/// place or known not to be had.
pub open spec fn first_probe(
    st: StateView,
    wanted: Wanted,
    has_window: bool,
    window_failure: Option<Seq<char>>,
) -> ProbeView {
    if wanted == Wanted::Only(Kind::Tty) {
        terminal_probe(st, wanted, window_failure)
    } else if has_window {
        ProbeView::Draw(Kind::Gui)
    } else {
        match window_failure {
            Some(why) => if wanted == Wanted::Only(Kind::Gui) {
                ProbeView::Fail(why)
            } else {
                terminal_probe(st, wanted, window_failure)
            },
            None => ProbeView::OpenGui,
        }
    }
}

/// The front-ends of one connection, and the reason they are kept rather than rebuilt.
///
/// The window is built at most once per PROCESS. winit permits exactly one event loop for
/// the lifetime of a process and answers `EventLoopError::RecreationAttempt` to every later
/// request — and the flag it checks is set before the platform back-end is even tried, so a
/// probe that FAILED poisons the process too. Building a front-end per prompt therefore
/// worked for the first `GETPIN` and quietly stopped working for the second: the retry the
/// agent sends after a wrong passphrase found no window and fell through to whatever
/// terminal `OPTION ttyname` happened to name — a prompt drawn where nobody is looking,
/// which is the exact failure this program exists to prevent.
///
/// The terminal is rebuilt per prompt, on purpose: `OPTION ttyname` can name a different
/// device later in the same connection, and a descriptor held across that change would draw
/// on the previous one.
pub struct Frontends<G, T> {
    gui: Option<G>,
    /// Why the window could not be had, kept from the one attempt that is permitted. Asking
    /// winit again would answer "EventLoop can't be recreated", which describes ward rather
    /// than the user's display and would send the reader looking in the wrong place.
    gui_failure: Option<String>,
    tty: Option<T>,
}

impl<G, T> Frontends<G, T> {
    /// The window, if it is open.
    pub closed spec fn window(&self) -> Option<G> {
        self.gui
    }

    /// Why there is no window, if that is known.
    pub closed spec fn window_failure(&self) -> Option<Seq<char>> {
        opt(self.gui_failure)
    }

    /// The terminal that was opened last.
    pub closed spec fn terminal(&self) -> Option<T> {
        self.tty
    }

    /// Nothing opened yet.
    pub fn new() -> (f: Self)
        ensures
            f.window() is None,
            f.window_failure() is None,
            f.terminal() is None,
    {
        Frontends { gui: None, gui_failure: None, tty: None }
    }

    /// Chooses where to draw.
    ///
    /// The obvious rule — "the agent sent `ttyname`, so use it" — is wrong, and was observed
    /// to be wrong. A graphical application launched from a shell inherits `GPG_TTY`, so the
    /// agent dutifully forwards a terminal nobody is watching; the prompt then appears on a
    /// screen out of view, or worse, over whatever that terminal was showing. A window
    /// appearing when the user expected a terminal is merely surprising. So: a display wins
    /// whenever one can actually be reached, and only then does the terminal get a turn.
    ///
    /// "Reached" means the socket connects, not that the variable is set. A stale
    /// `WAYLAND_DISPLAY` naming a dead socket is exactly how the previous pinentry failed
    /// silently, and trusting the variable would reproduce it.
    pub fn select(&self, st: &State, wanted: Wanted) -> (p: Probe)
        ensures
            p@ == first_probe(st@, wanted, self.window() is Some, self.window_failure()),
    {
        match wanted {
            Wanted::Only(Kind::Tty) => self.open_tty(st, wanted),
            _ => {
                if self.gui.is_some() {
                    return Probe::Draw(Kind::Gui);
                }
                match &self.gui_failure {
                    Some(why) => if wanted == Wanted::Only(Kind::Gui) {
                        Probe::Fail(NoFrontend(why.clone()))
                    } else {
                        self.open_tty(st, wanted)
                    },
                    None => Probe::OpenGui,
                }
            },
        }
    }

    /// The terminal's turn.
    fn open_tty(&self, st: &State, wanted: Wanted) -> (p: Probe)
        ensures
            p@ == terminal_probe(st@, wanted, self.window_failure()),
    {
        match &st.ttyname {
            Some(name) => Probe::OpenTty(name.clone()),
            None => Probe::Fail(NoFrontend(self.told(wanted, "no terminal was named either"))),
        }
    }

    /// Tells the whole story of a failure.
    fn told(&self, wanted: Wanted, terminal: &str) -> (s: String)
        ensures
            s@ == both_failures(wanted, self.window_failure(), terminal@),
    {
        match (wanted, &self.gui_failure) {
            (Wanted::Any, Some(w)) => {
                let mut s = w.clone();
                s.append("; ");
                s.append(terminal);
                s
            },
            _ => terminal.to_string(),
        }
    }

    /// Takes note of how opening the window went, and goes on from there.
    pub fn gui_opened(&mut self, st: &State, wanted: Wanted, result: Result<G, String>) -> (p:
        Probe)
        requires
            wanted != Wanted::Only(Kind::Tty),
        ensures
            match result {
                Ok(f) => {
                    &&& final(self).window() == Some(f)
                    &&& final(self).window_failure() == old(self).window_failure()
                },
                Err(e) => {
                    &&& final(self).window() == old(self).window()
                    &&& final(self).window_failure() == Some(e@)
                },
            },
            final(self).terminal() == old(self).terminal(),
            p@ == first_probe(st@, wanted, final(self).window() is Some, final(self).window_failure()),
    {
        match result {
            Ok(f) => {
                self.gui = Some(f);
            },
            Err(e) => {
                self.gui_failure = Some(e);
            },
        }
        self.select(st, wanted)
    }

    /// Takes note of how opening the terminal `name` went. The previous terminal front-end is
    /// dropped when a new one takes its place, which is what puts its terminal back and closes
    /// its descriptor.
    pub fn tty_opened(&mut self, wanted: Wanted, name: &str, result: Result<T, String>) -> (p:
        Probe)
        ensures
            final(self).window() == old(self).window(),
            final(self).window_failure() == old(self).window_failure(),
            match result {
                Ok(f) => final(self).terminal() == Some(f) && p@ == ProbeView::Draw(Kind::Tty),
                Err(e) => final(self).terminal() == old(self).terminal() && p@ == ProbeView::Fail(
                    both_failures(
                        wanted,
                        old(self).window_failure(),
                        terminal_failure(name@, e@),
                    ),
                ),
            },
    {
        match result {
            Ok(f) => {
                self.tty = Some(f);
                Probe::Draw(Kind::Tty)
            },
            Err(e) => {
                let mut why = name.to_string();
                why.append(" could not be opened: ");
                why.append(e.as_str());
                Probe::Fail(NoFrontend(self.told(wanted, why.as_str())))
            },
        }
    }

    /// The window, if it is open.
    pub fn gui(&mut self) -> (r: Option<&mut G>)
        ensures
            match r {
                Some(g) => old(self).window() == Some(*g) && final(self).window() == Some(*final(g)),
                None => old(self).window() is None && final(self).window() is None,
            },
            final(self).window_failure() == old(self).window_failure(),
            final(self).terminal() == old(self).terminal(),
    {
        self.gui.as_mut()
    }

    /// The terminal that was opened last.
    pub fn tty(&mut self) -> (r: Option<&mut T>)
        ensures
            match r {
                Some(t) => old(self).terminal() == Some(*t) && final(self).terminal() == Some(
                    *final(t),
                ),
                None => old(self).terminal() is None && final(self).terminal() is None,
            },
            final(self).window() == old(self).window(),
            final(self).window_failure() == old(self).window_failure(),
    {
        self.tty.as_mut()
    }
}

impl<G, T> Default for Frontends<G, T> {
    fn default() -> (f: Self)
        ensures
            f.window() is None,
            f.window_failure() is None,
            f.terminal() is None,
    {
        Frontends::new()
    }
}

/// A variable of the client's, if it has it, as something to be set.
pub open spec fn taken_over(
    env: Map<Seq<char>, Seq<char>>,
    name: Seq<char>,
) -> Seq<(Seq<char>, Seq<char>)> {
    if env.contains_key(name) {
        seq![(name, env[name])]
    } else {
        seq![]
    }
}

/// The variables by which a windowing library finds the display the CLIENT has, in the order
/// in which they are set.
pub open spec fn display_settings(st: StateView) -> Seq<(Seq<char>, Seq<char>)> {
    taken_over(st.client_env, "WAYLAND_DISPLAY"@) + taken_over(st.client_env, "DISPLAY"@)
        + taken_over(st.client_env, "XAUTHORITY"@) + taken_over(
        st.client_env,
        "XDG_RUNTIME_DIR"@,
    ) + match st.display {
        Some(d) => seq![("DISPLAY"@, d)],
        None => seq![],
    }
}

/// The pairs of a vector, as character sequences.
pub open spec fn pairs(v: Seq<(String, String)>) -> Seq<(Seq<char>, Seq<char>)> {
    v.map_values(|p: (String, String)| (p.0@, p.1@))
}

/// What to set before the window is opened: the display the CLIENT had, not the one this
/// process inherited. ward is started by gpg-agent, a daemon whose environment was fixed
/// whenever it happened to start — possibly in a session that has since ended.
pub fn display_variables(st: &State) -> (v: Vec<(String, String)>)
    ensures
        pairs(v@) == display_settings(st@),
{
    let mut v: Vec<(String, String)> = Vec::new();
    take_over(&mut v, st, "WAYLAND_DISPLAY");
    take_over(&mut v, st, "DISPLAY");
    take_over(&mut v, st, "XAUTHORITY");
    take_over(&mut v, st, "XDG_RUNTIME_DIR");
    match &st.display {
        Some(d) => {
            let ghost before = v@;
            v.push(("DISPLAY".to_string(), d.clone()));
            assert(pairs(v@) =~= pairs(before).push(("DISPLAY"@, d@)));
        },
        None => {},
    }
    assert(pairs(v@) =~= display_settings(st@));
    v
}

/// Adds one variable of the client's, if it has it.
fn take_over(v: &mut Vec<(String, String)>, st: &State, name: &str)
    ensures
        pairs(final(v)@) == pairs(old(v)@) + taken_over(st@.client_env, name@),
{
    match st.client_env.get(name) {
        Some(value) => {
            v.push((name.to_string(), value.to_string()));
        },
        None => {},
    }
    assert(pairs(v@) =~= pairs(old(v)@) + taken_over(st@.client_env, name@));
}

/// The window is opened at most once: it is asked for only while it has neither been opened
/// nor been found not to be had, and either puts an end to the asking, whatever is wanted and
/// whatever the agent says later.
pub proof fn law_the_window_is_opened_once(
    st: StateView,
    wanted: Wanted,
    has_window: bool,
    window_failure: Option<Seq<char>>,
)
    ensures
        first_probe(st, wanted, has_window, window_failure) == ProbeView::OpenGui ==> !has_window
            && window_failure is None,
{
}

/// Once there is a window, every prompt is drawn in it unless somebody insists on the terminal:
/// the retry after a wrong passphrase never falls through to a terminal nobody is looking at.
pub proof fn law_a_retry_gets_the_same_window(
    st: StateView,
    wanted: Wanted,
    window_failure: Option<Seq<char>>,
)
    requires
        wanted != Wanted::Only(Kind::Tty),
    ensures
        first_probe(st, wanted, true, window_failure) == ProbeView::Draw(Kind::Gui),
{
}

/// A window whenever a display is reachable; the terminal only when none is. Unless somebody
/// insisted on the terminal, it gets its turn only after the window was found not to be had.
pub proof fn law_the_terminal_only_without_a_window(
    st: StateView,
    wanted: Wanted,
    has_window: bool,
    window_failure: Option<Seq<char>>,
)
    requires
        wanted != Wanted::Only(Kind::Tty),
        first_probe(st, wanted, has_window, window_failure) is OpenTty,
    ensures
        wanted == Wanted::Any,
        !has_window,
        window_failure is Some,
{
}

/// An explicit choice beats every heuristic: with the terminal insisted on, the window is
/// never asked for, and with the window insisted on, the terminal is not.
pub proof fn law_an_explicit_choice_wins(
    st: StateView,
    has_window: bool,
    window_failure: Option<Seq<char>>,
)
    ensures
        first_probe(st, Wanted::Only(Kind::Tty), has_window, window_failure) !is OpenGui,
        first_probe(st, Wanted::Only(Kind::Tty), has_window, window_failure) != ProbeView::Draw(
            Kind::Gui,
        ),
        first_probe(st, Wanted::Only(Kind::Gui), has_window, window_failure) !is OpenTty,
{
}

} // verus!
