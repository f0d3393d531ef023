use ward::server::State;
use ward::ui::{
    confirm_answer, display_variables, message_answer, pin_answer, read_wanted, Frontends, Kind,
    NoFrontend, Outcome, Probe, Wanted,
};
use ward::server::Answer;

fn named(tty: &str) -> State {
    let mut st = State::default();
    st.ttyname = Some(tty.to_string());
    st
}

fn failure(p: Probe) -> String {
    match p {
        Probe::Fail(NoFrontend(why)) => why,
        _ => panic!("a front-end was found"),
    }
}

#[test]
fn a_window_comes_first_and_is_kept() {
    let mut f: Frontends<u8, u8> = Frontends::default();
    let st = named("/dev/pts/1");
    assert!(matches!(f.select(&st, Wanted::Any), Probe::OpenGui));
    assert!(matches!(
        f.gui_opened(&st, Wanted::Any, Ok(5)),
        Probe::Draw(Kind::Gui)
    ));
    assert!(matches!(f.select(&st, Wanted::Any), Probe::Draw(Kind::Gui)));
    assert_eq!(f.gui().copied(), Some(5));
    assert_eq!(f.tty(), None);
}

#[test]
fn the_terminal_gets_its_turn_when_there_is_no_window() {
    let mut f: Frontends<u8, u8> = Frontends::new();
    let st = named("/dev/pts/1");
    let p = f.gui_opened(&st, Wanted::Any, Err("no display".into()));
    assert!(matches!(p, Probe::OpenTty(name) if name == "/dev/pts/1"));
    assert!(matches!(
        f.tty_opened(Wanted::Any, "/dev/pts/1", Ok(7)),
        Probe::Draw(Kind::Tty)
    ));
    assert_eq!(f.tty().copied(), Some(7));
    // The window is not tried a second time, and the terminal is opened anew.
    assert!(matches!(f.select(&st, Wanted::Any), Probe::OpenTty(_)));
}

#[test]
fn both_failures_are_told() {
    let mut f: Frontends<u8, u8> = Frontends::new();
    f.gui_opened(&named("/dev/x"), Wanted::Any, Err("no display".into()));
    assert_eq!(
        failure(f.tty_opened(Wanted::Any, "/dev/x", Err("ENOENT".into()))),
        "no display; /dev/x could not be opened: ENOENT"
    );
    assert_eq!(
        failure(f.select(&State::default(), Wanted::Any)),
        "no display; no terminal was named either"
    );
    assert_eq!(
        failure(f.select(&State::default(), Wanted::Only(Kind::Gui))),
        "no display"
    );
    assert_eq!(
        failure(f.select(&State::default(), Wanted::Only(Kind::Tty))),
        "no terminal was named either"
    );
}

#[test]
fn an_explicit_choice_wins() {
    let f: Frontends<u8, u8> = Frontends::new();
    let st = named("/dev/pts/1");
    assert!(matches!(
        f.select(&st, Wanted::Only(Kind::Tty)),
        Probe::OpenTty(_)
    ));
    assert!(matches!(f.select(&st, Wanted::Only(Kind::Gui)), Probe::OpenGui));
}

#[test]
fn the_choice_can_differ_from_one_client_to_the_next() {
    let mut st = State::default();
    assert_eq!(read_wanted(&st, None), (Wanted::Any, None));
    st.forced_frontend = Some("gui".into());
    assert_eq!(read_wanted(&st, None).0, Wanted::Only(Kind::Gui));
    assert_eq!(
        read_wanted(&st, Some("x ward:tty ward:gui".into())).0,
        Wanted::Only(Kind::Tty)
    );
    assert_eq!(
        read_wanted(&st, Some("gtk".into())).0,
        Wanted::Only(Kind::Gui)
    );
    assert_eq!(
        read_wanted(&st, Some("ward:curses".into())),
        (
            Wanted::Any,
            Some("ward: ignoring unknown front-end request: curses".into())
        )
    );
}

#[test]
fn the_display_is_the_clients() {
    let mut st = State::default();
    assert!(display_variables(&st).is_empty());
    st.client_env.insert("DISPLAY", ":0");
    st.client_env.insert("HOME", "/home/u");
    st.client_env.insert("WAYLAND_DISPLAY", "wayland-0");
    st.display = Some(":9".into());
    let want: Vec<(String, String)> = [
        ("WAYLAND_DISPLAY", "wayland-0"),
        ("DISPLAY", ":0"),
        ("DISPLAY", ":9"),
    ]
    .iter()
    .map(|(k, v)| (k.to_string(), v.to_string()))
    .collect();
    assert_eq!(display_variables(&st), want);
}

#[test]
fn an_answer_is_what_the_prompt_came_to() {
    assert!(matches!(
        pin_answer(Ok(Outcome::Accepted), true),
        Answer::Pin { outcome: Outcome::Accepted, empty: true }
    ));
    assert!(matches!(pin_answer(Err("x".into()), true), Answer::PromptFailed(_)));
    assert!(matches!(
        confirm_answer(Ok(Outcome::NotOk)),
        Ok(Answer::Confirmed(Outcome::NotOk))
    ));
    assert!(matches!(confirm_answer(Err("x".into())), Err(why) if why == "x"));
    assert!(matches!(message_answer(Ok(())), Ok(Answer::Shown)));
    assert!(matches!(message_answer(Err("x".into())), Err(why) if why == "x"));
}
