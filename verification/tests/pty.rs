//! Whole conversations, from what the agent says and what is typed to what comes back.
//!
//! The alphabet here is not decoration: a mask that counts bytes passes every test that only
//! ever types ASCII.

use ward::args;
use ward::assuan::{is_sent, Writer, SECRET_LINE};
use ward::secret::Secret;
use ward::server::{self, Answer, Request, State, Step, PASSPHRASE_CAPACITY};
use ward::ui::tty::{Action, ConfirmPrompt, Event, PinPrompt};
use ward::ui::{self, Frontend, Frontends, NoFrontend, Outcome, Probe};

const TTY: &str = "/dev/pts/7";

/// A terminal somebody types into: each chunk arrives at once, and nothing after the last.
struct Typist {
    chunks: Vec<Vec<u8>>,
    screens: Vec<String>,
}

impl Typist {
    fn new(keys: &[&[u8]]) -> Self {
        Typist {
            chunks: keys.iter().map(|k| k.to_vec()).collect(),
            screens: Vec::new(),
        }
    }

    fn byte(&mut self) -> Option<u8> {
        while !self.chunks.is_empty() && self.chunks[0].is_empty() {
            self.chunks.remove(0);
        }
        if self.chunks.is_empty() {
            None
        } else {
            Some(self.chunks[0].remove(0))
        }
    }

    fn event(&mut self, action: Action) -> Event {
        match action {
            Action::Ask => match self.byte() {
                Some(b) => Event::Key(b),
                None => Event::TimedOut,
            },
            Action::Probe => Event::More(!self.chunks.is_empty() && !self.chunks[0].is_empty()),
            Action::Discard => {
                self.byte();
                Event::Discarded
            }
            Action::Finish(_) => unreachable!(),
        }
    }
}

impl Frontend for Typist {
    fn getpin(&mut self, st: &State, into: &mut Secret) -> Result<Outcome, String> {
        let mut region = vec![0u8; Secret::region_size(into.capacity())];
        let confirm = match st.repeat {
            Some(_) => Some(Secret::with_capacity(&mut region, true)),
            None => None,
        };
        let mut p = PinPrompt::new(confirm);
        let mut action = p.action();
        loop {
            if action == Action::Ask {
                self.screens.push(p.screen(st, into, 80));
            }
            if let Action::Finish(o) = action {
                return Ok(o);
            }
            let event = self.event(action);
            action = p.step(st, into, event);
        }
    }

    fn confirm(&mut self, _st: &State, one_button: bool) -> Result<Outcome, String> {
        let mut p = ConfirmPrompt::new(one_button);
        let mut action = p.action();
        loop {
            if let Action::Finish(o) = action {
                return Ok(o);
            }
            let event = self.event(action);
            action = p.step(event);
        }
    }

    fn message(&mut self, st: &State) -> Result<(), String> {
        self.confirm(st, true).map(|_| ())
    }
}

/// Runs one conversation. There is no display; the terminal is the only one there is.
fn run(args: &[&str], script: &str, typist: Typist) -> (String, Vec<String>) {
    let argv: Vec<String> = args.iter().map(|a| a.to_string()).collect();
    let mut st = args::read(&argv).state;
    let mut fronts: Frontends<Typist, Typist> = Frontends::new();
    let mut spare = Some(typist);
    let mut replies = String::new();
    let mut writer = Writer::stdout();
    server::greet(&mut writer);
    for line in script.lines() {
        let (step, _) = server::command(&mut st, &mut writer, line, 1, "0");
        replies.push_str(&writer.take());
        let request = match step {
            Step::Ask(r) => r,
            Step::Close => break,
            _ => continue,
        };
        let (wanted, _) = ui::read_wanted(&st, None);
        let mut probe = fronts.select(&st, wanted);
        loop {
            probe = match probe {
                Probe::OpenGui => {
                    let failure = Err("no display could be opened: none".to_string());
                    fronts.gui_opened(&st, wanted, failure)
                }
                Probe::OpenTty(name) => {
                    let opened = match spare.take() {
                        Some(t) if name == TTY => Ok(t),
                        _ => Err("No such file or directory".to_string()),
                    };
                    fronts.tty_opened(wanted, &name, opened)
                }
                other => {
                    probe = other;
                    break;
                }
            };
        }
        let mut region = vec![0u8; PASSPHRASE_CAPACITY];
        let mut secret = Secret::with_capacity(&mut region, true);
        let answer = match probe {
            Probe::Fail(NoFrontend(why)) => Answer::NoFrontend(why),
            _ => ui::ask(fronts.tty().unwrap(), &st, request, &mut secret).unwrap(),
        };
        let told = server::answered(&mut st, request, &answer);
        replies.push_str(&told.before);
        if told.secret {
            let mut line = [0u8; SECRET_LINE];
            let mut from = 0;
            loop {
                let (n, next) = Writer::data_secret(&secret, from, &mut line);
                replies.push_str(std::str::from_utf8(&line[..n]).unwrap());
                from = next;
                if is_sent(&secret, from) {
                    break;
                }
            }
        }
        replies.push_str(&told.after);
    }
    let screens = match fronts.tty() {
        Some(t) => t.screens.clone(),
        None => Vec::new(),
    };
    (replies, screens)
}

/// Runs one GETPIN conversation: feeds the given keystrokes, returns the protocol replies.
fn getpin_with(keys: &[&[u8]], extra: &str) -> String {
    let script = format!("OPTION ttyname={TTY}\nSETDESC test\n{extra}GETPIN\nBYE\n");
    run(&["--frontend", "tty"], &script, Typist::new(keys)).0
}

/// Runs one conversation with a script of the caller's choosing.
fn converse(args: &[&str], script: &str, keys: &[&[u8]]) -> String {
    let mut argv = vec!["--frontend".to_string(), "tty".to_string()];
    for a in args {
        argv.push(a.replace("{tty}", TTY));
    }
    let argv: Vec<&str> = argv.iter().map(|a| a.as_str()).collect();
    run(&argv, &script.replace("{tty}", TTY), Typist::new(keys)).0
}

#[test]
fn an_arrow_key_is_not_a_refusal_in_confirm_either() {
    let replies = converse(
        &[],
        "OPTION ttyname={tty}\nSETDESC really?\nCONFIRM\nBYE\n",
        &[b"\x1b[D", b"y"],
    );
    assert!(
        replies.contains("OK") && !replies.contains("ERR 83886179"),
        "an arrow key cancelled the confirmation: {replies:?}"
    );
}

#[test]
fn escape_still_cancels_a_confirmation() {
    let replies = converse(
        &[],
        "OPTION ttyname={tty}\nSETDESC really?\nCONFIRM\nBYE\n",
        &[b"\x1b"],
    );
    assert!(
        replies.contains("ERR 83886179"),
        "escape did not cancel the confirmation: {replies:?}"
    );
}

#[test]
fn the_terminal_can_be_named_on_the_command_line() {
    let replies = converse(
        &["--ttyname", "{tty}"],
        "SETDESC test\nGETPIN\nBYE\n",
        &["парола".as_bytes(), b"\r"],
    );
    assert!(
        replies.contains("D парола"),
        "--ttyname did not name the terminal: {replies:?}"
    );
}

#[test]
fn a_cyrillic_passphrase_survives_the_round_trip() {
    // Six characters, twelve bytes. A byte-counting mask would have shown twelve marks;
    // what matters for the protocol is that all twelve bytes come back intact.
    let replies = getpin_with(&["парола".as_bytes(), b"\r"], "");
    assert!(
        replies.contains("D парола"),
        "the passphrase did not come back: {replies:?}"
    );
    assert!(replies.contains("OK closing connection"));
}

#[test]
fn backspace_removes_a_whole_cyrillic_character() {
    let replies = getpin_with(&["парол".as_bytes(), b"\x7f", b"\r"], "");
    assert!(
        replies.contains("D паро"),
        "backspace did not remove one character: {replies:?}"
    );
}

#[test]
fn escape_cancels_and_says_so_distinctly() {
    let replies = getpin_with(&[b"abc", b"\x1b"], "");
    assert!(
        replies.contains("ERR 83886179"),
        "escape did not cancel: {replies:?}"
    );
}

#[test]
fn an_arrow_key_is_not_a_refusal() {
    let replies = getpin_with(&[b"ab", b"\x1b[D", b"cd", b"\r"], "");
    assert!(
        replies.contains("D abcd"),
        "an arrow key cancelled the prompt: {replies:?}"
    );
}

#[test]
fn ctrl_u_clears_the_entry() {
    let replies = getpin_with(&[b"wrong", b"\x15", b"right", b"\r"], "");
    assert!(
        replies.contains("D right"),
        "ctrl-u did not clear: {replies:?}"
    );
}

#[test]
fn an_empty_entry_is_an_answer_not_an_error() {
    let replies = getpin_with(&[b"\r"], "");
    assert!(
        !replies.contains("ERR"),
        "an empty passphrase was reported as a failure: {replies:?}"
    );
}

#[test]
fn a_repeated_entry_must_match_and_is_announced() {
    let replies = getpin_with(
        &["тайна".as_bytes(), b"\r", "тайна".as_bytes(), b"\r"],
        "SETREPEAT Repeat:\n",
    );
    assert!(
        replies.contains("S PIN_REPEATED"),
        "the agreement was not announced: {replies:?}"
    );
    assert!(replies.contains("D тайна"), "{replies:?}");
}

#[test]
fn with_no_display_and_no_terminal_it_refuses_loudly() {
    let s = run(&[], "GETPIN\nBYE\n", Typist::new(&[])).0;
    // Not cancellation: nobody declined, there was nowhere to ask.
    assert!(s.contains("ERR 83886147"), "expected a loud refusal: {s:?}");
    assert!(!s.contains("83886179"), "reported as a cancellation: {s:?}");
}

#[test]
fn the_whole_conversation_is_as_it_should_be() {
    let replies = getpin_with(&["50% и".as_bytes(), b"\r"], "");
    assert_eq!(
        replies,
        "OK Pleased to meet you\nOK\nOK\nD 50%25 и\nOK\nOK closing connection\n"
    );
}

#[test]
fn the_count_goes_up_by_one_for_each_keypress() {
    let script = format!("OPTION ttyname={TTY}\nGETPIN\nBYE\n");
    let (_, screens) = run(&[], &script, Typist::new(&["пар".as_bytes(), b"\r"]));
    // One screen for each byte that was awaited; a letter shows once it has begun.
    let counts: Vec<usize> = screens.iter().map(|s| s.matches('•').count()).collect();
    assert_eq!(counts, vec![0, 1, 1, 2, 2, 3, 3]);
    assert!(screens[6].contains("(3 characters)"));
}

#[test]
fn a_timeout_reads_like_a_cancellation() {
    let replies = getpin_with(&[b"abc"], "SETTIMEOUT 1\n");
    assert!(replies.contains("ERR 83886179 Operation cancelled\n"));
}

#[test]
fn a_message_is_shown_and_acknowledged() {
    let replies = converse(&[], "OPTION ttyname={tty}\nMESSAGE\nBYE\n", &[b"\x1b[A", b" "]);
    assert_eq!(
        replies,
        "OK Pleased to meet you\nOK\nOK\nOK closing connection\n"
    );
}

#[test]
fn what_is_asked_is_what_is_answered() {
    struct Broken;
    impl Frontend for Broken {
        fn getpin(&mut self, _st: &State, into: &mut Secret) -> Result<Outcome, String> {
            into.push(b"half");
            Err("gone".to_string())
        }
        fn confirm(&mut self, _st: &State, _one_button: bool) -> Result<Outcome, String> {
            Err("gone".to_string())
        }
        fn message(&mut self, _st: &State) -> Result<(), String> {
            Err("gone".to_string())
        }
    }
    let mut region = [0u8; 8];
    let mut secret = Secret::with_capacity(&mut region, true);
    let st = State::default();
    let got = ui::ask(&mut Broken, &st, Request::GetPin, &mut secret);
    assert!(matches!(got, Ok(Answer::PromptFailed(why)) if why == "gone"));
    let ask = Request::Confirm { one_button: false };
    assert!(ui::ask(&mut Broken, &st, ask, &mut secret).is_err());
    assert!(ui::ask(&mut Broken, &st, Request::Message, &mut secret).is_err());
}
