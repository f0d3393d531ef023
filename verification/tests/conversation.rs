use ward::assuan::{LineError, Writer};
use ward::conversation::{heard, note, note_greeting, Heard};
use ward::server::{answered, command, greet, Answer, State, Step};
use ward::ui::Outcome;

#[test]
fn the_end_of_the_input_is_a_normal_end() {
    assert!(matches!(heard(Ok(None)), Heard::Over));
    assert!(matches!(heard(Ok(Some("BYE".into()))), Heard::Line(l) if l == "BYE"));
    assert!(matches!(heard(Err(LineError::Incomplete)), Heard::More));
    assert!(matches!(
        heard(Err(LineError::TooLong)),
        Heard::Fail("Assuan line longer than the protocol allows")
    ));
    assert!(matches!(
        heard(Err(LineError::NotText)),
        Heard::Fail("stream did not contain valid UTF-8")
    ));
}

#[test]
fn the_transcript_has_what_the_agent_said() {
    assert_eq!(note_greeting(), "<-- OK Pleased to meet you\n");
    assert_eq!(note("", Step::Nothing), "");
    assert_eq!(note("SETDESC x", Step::Reply), "--> SETDESC x\n");
    assert_eq!(note("BYE", Step::Close), "--> BYE\n<-- OK closing connection\n");
}

/// Runs a conversation in which every prompt is accepted; returns what is sent, the passphrase
/// on one line, and what is written down.
fn converse(lines: &[&str], passphrase: &str) -> (String, String) {
    let mut st = State::default();
    let mut w = Writer::stdout();
    greet(&mut w);
    let mut sent = w.take();
    let mut log = note_greeting();
    for line in lines {
        let (step, _) = command(&mut st, &mut w, line, 1, "0");
        log.push_str(&note(line, step));
        sent.push_str(&w.take());
        match step {
            Step::Ask(request) => {
                let answer = Answer::Pin { outcome: Outcome::Accepted, empty: false };
                let told = answered(&mut st, request, &answer);
                sent.push_str(&told.before);
                if told.secret {
                    sent.push_str(&format!("D {passphrase}\n"));
                }
                sent.push_str(&told.after);
            }
            Step::Close => break,
            _ => {}
        }
    }
    (sent, log)
}

const LINES: [&str; 9] = [
    "", "# hello", "SETREPEAT again", "GETPIN", "GETINFO version", "FROB", "OPTION grab", "BYE", "NOP",
];

#[test]
fn each_line_is_answered_once() {
    let sent = converse(&LINES, "x").0;
    assert_eq!(
        sent,
        "OK Pleased to meet you\nOK\nS PIN_REPEATED\nD x\nOK\nD 0\nOK\nOK\nOK\nOK closing connection\n"
    );
    let answers = sent.lines().filter(|l| l.starts_with("OK") || l.starts_with("ERR"));
    assert_eq!(answers.count(), 7);
}

#[test]
fn the_transcript_does_not_depend_on_the_passphrase() {
    let (one, two) = (converse(&LINES, "hunter2"), converse(&LINES, "correct horse"));
    assert_ne!(one.0, two.0);
    assert_eq!(one.1, two.1);
    assert!(!one.1.contains("hunter2"));
}
