use ward::assuan::Writer;
use ward::server::{
    answered, chosen, command, greet, handle_option, has_word, mapped, split_command, Answer,
    Request, State, Step, Task,
};
use ward::ui::{Kind, NoFrontend, Outcome};

#[test]
fn splits_a_command_from_its_argument() {
    assert_eq!(split_command("GETPIN"), ("GETPIN", ""));
    assert_eq!(
        split_command("SETDESC hello there"),
        ("SETDESC", "hello there")
    );
    assert_eq!(
        split_command("OPTION  ttyname=/dev/pts/3"),
        ("OPTION", "ttyname=/dev/pts/3")
    );
}

#[test]
fn a_multibyte_space_does_not_split_a_character_in_half() {
    assert_eq!(split_command("GETPIN\u{00A0}x"), ("GETPIN", "x"));
    assert_eq!(split_command("SETDESC\u{2003}text"), ("SETDESC", "text"));
    assert_eq!(split_command("GETPIN\u{00A0}"), ("GETPIN", ""));
}

#[test]
fn putenv_carries_the_clients_session() {
    let mut st = State::default();
    handle_option(&mut st, "putenv=WAYLAND_DISPLAY=wayland-0");
    assert_eq!(st.client_env.get("WAYLAND_DISPLAY").unwrap(), "wayland-0");
}

#[test]
fn putenv_without_a_value_unsets() {
    let mut st = State::default();
    handle_option(&mut st, "putenv=DISPLAY=:0");
    handle_option(&mut st, "putenv=DISPLAY");
    assert!(!st.client_env.contains_key("DISPLAY"));
}

#[test]
fn client_environment_beats_our_own() {
    let mut st = State::default();
    let own = || Some("from-agent-environment".to_string());
    assert_eq!(st.env("WARD_TEST_VAR", own()).unwrap(), "from-agent-environment");
    st.client_env.insert("WARD_TEST_VAR", "from-client");
    assert_eq!(st.env("WARD_TEST_VAR", own()).unwrap(), "from-client");
}

#[test]
fn reset_forgets_the_prompt_but_not_the_connection() {
    let mut st = State::default();
    handle_option(&mut st, "ttyname=/dev/pts/9");
    st.desc = Some("please".into());
    st.error = Some("wrong".into());
    st.reset_request();
    assert!(st.desc.is_none());
    assert!(st.error.is_none());
    assert_eq!(st.ttyname.as_deref(), Some("/dev/pts/9"));
}

/// Says one line and returns the step, what is logged and what is answered.
fn say(st: &mut State, line: &str) -> (Step, Option<String>, String) {
    let mut w = Writer::stdout();
    let (step, complaint) = command(st, &mut w, line, 4711, "0.1.0");
    (step, complaint, w.take())
}

fn ok() -> String {
    "OK\n".to_string()
}

#[test]
fn the_agent_is_greeted() {
    let mut w = Writer::stdout();
    greet(&mut w);
    assert_eq!(w.take(), "OK Pleased to meet you\n");
}

#[test]
fn what_the_agent_sets_is_kept() {
    let mut st = State::default();
    for (line, want) in [
        ("SETDESC one%0Atwo", "one\ntwo"),
        ("setprompt PIN:", "PIN:"),
        ("SETTITLE t", "t"),
        ("SETERROR wrong", "wrong"),
        ("SETOK o", "o"),
        ("SETCANCEL c", "c"),
        ("SETNOTOK n", "n"),
        ("SETREPEAT again", "again"),
        ("SETREPEATERROR differs", "differs"),
        ("SETQUALITYBAR q", "q"),
        ("SETKEYINFO s/ABCD", "s/ABCD"),
    ] {
        assert_eq!(say(&mut st, line), (Step::Reply, None, ok()));
        let got = [
            &st.desc,
            &st.prompt,
            &st.title,
            &st.error,
            &st.ok,
            &st.cancel,
            &st.notok,
            &st.repeat,
            &st.repeat_error,
            &st.quality_bar,
            &st.keyinfo,
        ];
        assert!(got.iter().any(|v| v.as_deref() == Some(want)), "{line}");
    }
    say(&mut st, "SETKEYINFO --clear");
    assert!(st.keyinfo.is_none());
    say(&mut st, "SETTIMEOUT 30");
    assert_eq!(st.timeout_secs, Some(30));
    say(&mut st, "SETTIMEOUT soon");
    assert_eq!(st.timeout_secs, None);
}

#[test]
fn a_reset_brings_the_connections_timeout_back() {
    let mut st = State::default();
    st.default_timeout_secs = Some(9);
    say(&mut st, "SETTIMEOUT 30");
    say(&mut st, "SETTITLE kept");
    assert_eq!(say(&mut st, "RESET"), (Step::Reply, None, ok()));
    assert_eq!(st.timeout_secs, Some(9));
    assert_eq!(st.title.as_deref(), Some("kept"));
}

#[test]
fn options_are_taken_in() {
    let mut st = State::default();
    for line in [
        "OPTION ttytype=xterm",
        "OPTION --display=:1",
        "OPTION lc-ctype=bg_BG.UTF-8",
        "OPTION lc-messages=C",
        "OPTION owner=1000",
        "OPTION no-grab",
        "OPTION allow-external-password-cache",
        "OPTION touch-file=/run/x",
        "OPTION default-ok=_Да",
    ] {
        assert_eq!(say(&mut st, line), (Step::Reply, None, ok()), "{line}");
    }
    assert_eq!(st.ttytype.as_deref(), Some("xterm"));
    assert_eq!(st.display.as_deref(), Some(":1"));
    assert_eq!(st.lc_ctype.as_deref(), Some("bg_BG.UTF-8"));
    assert_eq!(st.lc_messages.as_deref(), Some("C"));
    assert_eq!(st.owner.as_deref(), Some("1000"));
    assert!(st.no_grab);
    assert!(st.external_cache_allowed);
    assert_eq!(st.defaults.get("default-ok"), Some("_Да"));
    say(&mut st, "OPTION grab");
    assert!(!st.no_grab);
}

#[test]
fn what_is_not_known_is_accepted_and_logged() {
    let mut st = State::default();
    assert_eq!(
        say(&mut st, "OPTION frobnicate=1"),
        (Step::Reply, Some("ward: unknown option: frobnicate".to_string()), ok())
    );
    assert_eq!(
        say(&mut st, "Frobnicate it"),
        (Step::Reply, Some("ward: unknown command: Frobnicate".to_string()), ok())
    );
    for line in ["CLEARPASSPHRASE", "SETQUALITYBAR_TT x", "SETGENPIN", "SETGENPIN_TT y", "NOP"] {
        assert_eq!(say(&mut st, line), (Step::Reply, None, ok()));
    }
}

#[test]
fn ward_tells_about_itself() {
    let mut st = State::default();
    assert_eq!(say(&mut st, "GETINFO pid").2, "D 4711\nOK\n");
    assert_eq!(say(&mut st, "GETINFO version").2, "D 0.1.0\nOK\n");
    assert_eq!(say(&mut st, "GETINFO flavor").2, "D ward\nOK\n");
    assert_eq!(say(&mut st, "GETINFO ttyinfo").2, "D - - -\nOK\n");
    st.ttyname = Some("/dev/pts/3".into());
    assert_eq!(say(&mut st, "GETINFO ttyinfo").2, "D /dev/pts/3 - -\nOK\n");
    assert_eq!(say(&mut st, "GETINFO weather").2, "OK\n");
}

#[test]
fn a_prompt_is_asked_for_and_nothing_answered_yet() {
    let mut st = State::default();
    assert_eq!(
        say(&mut st, "GETPIN"),
        (Step::Ask(Request::GetPin), None, String::new())
    );
    assert_eq!(
        say(&mut st, "CONFIRM --one-button").0,
        Step::Ask(Request::Confirm { one_button: true })
    );
    assert_eq!(
        say(&mut st, "CONFIRM").0,
        Step::Ask(Request::Confirm { one_button: false })
    );
    assert_eq!(say(&mut st, "MESSAGE").0, Step::Ask(Request::Message));
}

#[test]
fn nothing_is_said_to_nothing() {
    let mut st = State::default();
    assert_eq!(say(&mut st, ""), (Step::Nothing, None, String::new()));
    assert_eq!(say(&mut st, "# hello"), (Step::Nothing, None, String::new()));
}

#[test]
fn the_conversation_is_closed_politely() {
    let mut st = State::default();
    assert_eq!(
        say(&mut st, "BYE"),
        (Step::Close, None, "OK closing connection\n".to_string())
    );
}

#[test]
fn a_word_is_found_whole() {
    assert!(has_word("a --one-button b", "--one-button"));
    assert!(!has_word("--one-buttons", "--one-button"));
    assert!(!has_word("", "--one-button"));
}

/// Tells an answer and returns what is sent before and after, whether the passphrase goes in
/// between, and what is logged.
fn tell(st: &mut State, request: Request, a: Answer) -> (String, bool, String, Option<String>) {
    let t = answered(st, request, &a);
    (t.before, t.secret, t.after, t.complaint)
}

#[test]
fn refusals_are_told_apart() {
    let mut st = State::default();
    st.error = Some("wrong".into());
    let pin = |outcome| Answer::Pin { outcome, empty: false };
    let cancelled = "ERR 83886179 Operation cancelled\n";
    let gone = "ERR 83886147 the display went away\n";
    assert_eq!(tell(&mut st, Request::GetPin, pin(Outcome::Cancelled)).2, cancelled);
    assert!(st.error.is_none());
    assert_eq!(tell(&mut st, Request::GetPin, pin(Outcome::NotOk)).2, cancelled);
    assert_eq!(tell(&mut st, Request::GetPin, pin(Outcome::Unavailable)).2, gone);
    let ask = Request::Confirm { one_button: false };
    assert_eq!(tell(&mut st, ask, Answer::Confirmed(Outcome::Accepted)).2, "OK\n");
    assert_eq!(
        tell(&mut st, ask, Answer::Confirmed(Outcome::NotOk)).2,
        "ERR 83886194 not confirmed\n"
    );
    assert_eq!(tell(&mut st, ask, Answer::Confirmed(Outcome::Cancelled)).2, cancelled);
    assert_eq!(tell(&mut st, ask, Answer::Confirmed(Outcome::Unavailable)).2, gone);
    assert_eq!(tell(&mut st, Request::Message, Answer::Shown).2, "OK\n");
}

#[test]
fn a_failure_to_ask_is_loud() {
    let mut st = State::default();
    assert_eq!(
        tell(&mut st, Request::Message, Answer::NoFrontend("no display".into())),
        (
            String::new(),
            false,
            "ERR 83886147 no display\n".into(),
            Some("ward: MESSAGE: no display".into())
        )
    );
    assert_eq!(
        tell(&mut st, Request::GetPin, Answer::NoBuffer("ENOMEM".into())),
        (
            String::new(),
            false,
            "ERR 83886147 no memory for the passphrase\n".into(),
            Some("ward: no locked buffer: ENOMEM".into())
        )
    );
    assert_eq!(
        tell(&mut st, Request::GetPin, Answer::PromptFailed("EIO".into())),
        (
            String::new(),
            false,
            "ERR 83886147 the prompt could not be shown\n".into(),
            Some("ward: the prompt failed: EIO".into())
        )
    );
}

#[test]
fn a_passphrase_is_sent_unless_it_is_empty() {
    let mut st = State::default();
    let pin = |empty| Answer::Pin { outcome: Outcome::Accepted, empty };
    assert_eq!(
        tell(&mut st, Request::GetPin, pin(false)),
        (String::new(), true, ok(), None)
    );
    st.repeat = Some("again".into());
    assert_eq!(
        tell(&mut st, Request::GetPin, pin(true)),
        ("S PIN_REPEATED\n".into(), false, ok(), None)
    );
}

#[test]
fn only_a_passphrase_needs_memory() {
    assert!(matches!(chosen(Request::GetPin, Ok(Kind::Tty)), Task::Reserve(Kind::Tty)));
    assert!(matches!(chosen(Request::Message, Ok(Kind::Gui)), Task::Ask(Kind::Gui)));
    let failed = chosen(Request::GetPin, Err(NoFrontend("nowhere".into())));
    assert!(matches!(failed, Task::Tell(Answer::NoFrontend(why)) if why == "nowhere"));
}

#[test]
fn memory_that_is_not_locked_is_owned_up_to() {
    assert!(matches!(mapped(Kind::Gui, Ok(true)), (Task::Ask(Kind::Gui), None)));
    let (task, complaint) = mapped(Kind::Tty, Ok(false));
    assert!(matches!(task, Task::Ask(Kind::Tty)));
    assert_eq!(
        complaint.as_deref(),
        Some("ward: the passphrase buffer is NOT locked in RAM")
    );
    let (task, complaint) = mapped(Kind::Tty, Err("ENOMEM".into()));
    assert!(matches!(task, Task::Tell(Answer::NoBuffer(why)) if why == "ENOMEM"));
    assert!(complaint.is_none());
}
