use ward::assuan::{unescape, Writer, SECRET_LINE};
use ward::secret::Secret;
use ward::server::State;
use ward::ui::entry::Entry;
use ward::ui::tty::{
    called, draw, label, mask, poll_timeout, window_width, wrap, Action, Call, ConfirmPrompt, Event,
    PinPrompt,
};
use ward::ui::{time_allowed, Outcome};

#[test]
fn wraps_without_splitting_characters() {
    let lines = wrap("една много дълга фраза за пренасяне на редове", 20);
    for l in &lines {
        assert!(l.chars().count() <= 20, "line too long: {l:?}");
        // A split inside a multi-byte character would not survive being a &str at all,
        // so reaching here at all is part of the assertion.
        assert!(l.is_char_boundary(l.len()));
    }
}

#[test]
fn keeps_explicit_line_breaks() {
    assert_eq!(wrap("one\ntwo", 40), vec!["one", "two"]);
}

#[test]
fn folds_at_the_width_and_never_inside_a_word() {
    assert_eq!(wrap("aaa bbb ccc", 8), vec!["aaa bbb", "ccc"]);
    assert_eq!(wrap("aaa bbb  ccc", 3), vec!["aaa bbb", "ccc"]);
    assert_eq!(wrap("abcdefghijkl m", 8), vec!["abcdefghijkl", "m"]);
    assert_eq!(wrap("a\n\n b ", 8), vec!["a", "", "b"]);
    assert_eq!(wrap("", 8), vec![""]);
}

#[test]
fn no_word_is_lost_to_the_fold() {
    let text = "една много дълга фраза\nза пренасяне на редове";
    let lines = wrap(text, 10);
    let words: Vec<&str> = lines.iter().flat_map(|l| l.split_whitespace()).collect();
    assert_eq!(words, text.split_whitespace().collect::<Vec<_>>());
}

#[test]
fn the_mask_has_a_mark_for_each_character_up_to_its_limit() {
    assert_eq!(mask(0), "");
    assert_eq!(mask(3), "•••");
    assert_eq!(mask(80).chars().count(), 80);
    assert_eq!(mask(81).chars().count(), 80);
}

#[test]
fn a_terminal_that_will_not_say_is_as_wide_as_any() {
    assert_eq!(window_width(true, 132), 132);
    assert_eq!(window_width(true, 0), 80);
    assert_eq!(window_width(false, 132), 80);
}

#[test]
fn an_interrupted_call_is_made_again() {
    assert_eq!(called(7, true), Call::Done(7));
    assert_eq!(called(0, false), Call::Done(0));
    assert_eq!(called(-1, true), Call::Again);
    assert_eq!(called(-1, false), Call::Failed);
}

#[test]
fn a_poll_waits_for_what_is_left() {
    assert_eq!(poll_timeout(None), Some(-1));
    assert_eq!(poll_timeout(Some((0, 0))), None);
    assert_eq!(poll_timeout(Some((0, 999_999))), Some(0));
    assert_eq!(poll_timeout(Some((2, 500_000_000))), Some(2500));
    assert_eq!(poll_timeout(Some((u64::MAX, 0))), Some(i32::MAX));
}

#[test]
fn no_timeout_is_no_limit() {
    let mut st = State::default();
    assert_eq!(time_allowed(&st), None);
    st.timeout_secs = Some(0);
    assert_eq!(time_allowed(&st), None);
    st.timeout_secs = Some(15);
    assert_eq!(time_allowed(&st), Some(15));
}

#[test]
fn the_screen_shows_everything_the_agent_said() {
    let mut st = State::default();
    assert_eq!(
        draw(&st, 80, 0, false, None),
        "\x1b[2J\x1b[H\r\n  Passphrase:   \x1b[2m(0 characters)\x1b[0m\r\n\r\n  \x1b[2menter accept   esc cancel   ctrl-u clear\x1b[0m\r\n"
    );
    st.title = Some("Title".into());
    st.desc = Some("one\ntwo".into());
    st.error = Some("wrong".into());
    st.repeat = Some("Again:".into());
    assert_eq!(
        draw(&st, 80, 2, true, Some("note")),
        "\x1b[2J\x1b[H\r\n  Title\r\n\r\n  one\r\n  two\r\n\r\n  \x1b[31mwrong\x1b[0m\r\n\r\n  \x1b[33mnote\x1b[0m\r\n\r\n  Again: ••  \x1b[2m(2 characters)\x1b[0m\r\n\r\n  \x1b[2menter accept   esc cancel   ctrl-u clear\x1b[0m\r\n"
    );
    assert_eq!(label(&st, false), "Passphrase:");
    st.repeat = None;
    assert_eq!(label(&st, true), "Repeat:");
}

#[test]
fn a_narrow_terminal_still_gets_a_prompt() {
    let mut st = State::default();
    st.desc = Some("aaaaaaaa bbbbbbbb".into());
    assert!(draw(&st, 5, 0, false, None).contains("  aaaaaaaa\r\n  bbbbbbbb\r\n"));
    st.desc = Some("a ".repeat(100));
    let wide = draw(&st, 500, 0, false, None);
    assert!(wide.lines().all(|l| l.chars().count() <= 98));
}

#[test]
fn the_screen_of_a_question_names_its_keys() {
    let mut st = State::default();
    st.desc = Some("really?".into());
    assert_eq!(
        ConfirmPrompt::new(false).screen(&st, 80),
        "\x1b[2J\x1b[H\r\n  really?\r\n\r\n  \x1b[2my accept   n decline   esc cancel\x1b[0m\r\n"
    );
    assert_eq!(
        ConfirmPrompt::new(true).screen(&State::default(), 80),
        "\x1b[2J\x1b[H\r\n\r\n  \x1b[2menter  dismiss\x1b[0m\r\n"
    );
}

fn confirmed(one_button: bool, events: &[Event]) -> Action {
    let mut p = ConfirmPrompt::new(one_button);
    let mut a = p.action();
    for e in events {
        a = p.step(*e);
    }
    a
}

#[test]
fn a_question_is_answered_by_its_keys_alone() {
    for b in *b"yY\r\n" {
        assert_eq!(confirmed(false, &[Event::Key(b)]), Action::Finish(Outcome::Accepted));
    }
    for b in *b"nN" {
        assert_eq!(confirmed(false, &[Event::Key(b)]), Action::Finish(Outcome::NotOk));
    }
    assert_eq!(confirmed(false, &[Event::Key(3)]), Action::Finish(Outcome::Cancelled));
    assert_eq!(confirmed(false, &[Event::Key(b' ')]), Action::Ask);
    assert_eq!(confirmed(false, &[Event::TimedOut]), Action::Finish(Outcome::Cancelled));
    assert_eq!(confirmed(false, &[Event::Closed]), Action::Finish(Outcome::Cancelled));
}

#[test]
fn a_message_is_dismissed_deliberately() {
    for b in *b"\r\n " {
        assert_eq!(confirmed(true, &[Event::Key(b)]), Action::Finish(Outcome::Accepted));
    }
    for b in *b"ynq\x03" {
        assert_eq!(confirmed(true, &[Event::Key(b)]), Action::Ask);
    }
    assert_eq!(
        confirmed(true, &[Event::Key(0x1b), Event::More(false)]),
        Action::Finish(Outcome::Accepted)
    );
    assert_eq!(confirmed(true, &[Event::Key(0x1b), Event::More(true)]), Action::Probe);
}

#[test]
fn an_escape_sequence_is_swallowed_to_its_end() {
    let start = [Event::Key(0x1b), Event::More(true), Event::More(true)];
    assert_eq!(confirmed(false, &start), Action::Discard);
    let rest = [Event::Discarded, Event::More(true), Event::Discarded, Event::More(false)];
    assert_eq!(confirmed(false, &[&start[..], &rest[..]].concat()), Action::Ask);
}

#[test]
fn an_event_nobody_asked_for_changes_nothing() {
    assert_eq!(confirmed(false, &[Event::More(false)]), Action::Ask);
    assert_eq!(confirmed(false, &[Event::Key(0x1b), Event::Key(b'y')]), Action::Probe);
}

#[test]
fn control_characters_are_not_stored() {
    let mut region = [0u8; 16];
    let mut into = Secret::with_capacity(&mut region, true);
    let st = State::default();
    let mut p = PinPrompt::new(None);
    for b in 0u8..0x20 {
        if ![b'\r', b'\n', 0x03, 0x1b].contains(&b) {
            assert_eq!(p.step(&st, &mut into, Event::Key(b)), Action::Ask);
        }
    }
    assert!(into.is_empty());
    assert_eq!(
        p.step(&st, &mut into, Event::Key(3)),
        Action::Finish(Outcome::Cancelled)
    );
}

#[test]
fn a_full_buffer_takes_no_half_letters() {
    let mut region = [0u8; 5];
    let mut into = Secret::with_capacity(&mut region, true);
    let mut e = Entry::new(None);
    for b in "яю".as_bytes() {
        e.push_byte(&mut into, *b);
    }
    // The second letter no longer had room for the longest encoding there is.
    assert_eq!(into.as_bytes(), "я".as_bytes());
    assert_eq!(e.entered(&into), 1);
    e.backspace(&mut into);
    for b in "ю".as_bytes() {
        e.push_byte(&mut into, *b);
    }
    assert_eq!(into.as_bytes(), "ю".as_bytes());
}

#[test]
fn a_buffer_for_many_characters_takes_them_all() {
    let mut region = vec![0u8; 4 * 2048];
    let mut into = Secret::with_capacity(&mut region, true);
    let st = State::default();
    let mut p = PinPrompt::new(None);
    for _ in 0..2048 {
        for b in "😀".as_bytes() {
            p.step(&st, &mut into, Event::Key(*b));
        }
    }
    assert_eq!(into.chars(), 2048);
    assert!(p.screen(&st, &into, 80).contains("(2048 characters)"));
    p.step(&st, &mut into, Event::Key(b'x'));
    assert_eq!(into.chars(), 2048);
}

#[test]
fn entries_that_differ_are_wiped_and_asked_for_again() {
    let (mut a, mut b) = ([0u8; 16], [0u8; 16]);
    let mut st = State::default();
    let mut into = Secret::with_capacity(&mut a, true);
    let mut p = PinPrompt::new(Some(Secret::with_capacity(&mut b, true)));
    let mut type_in = |p: &mut PinPrompt, into: &mut Secret, st: &State, keys: &[u8]| {
        let mut last = Action::Ask;
        for k in keys {
            last = p.step(st, into, Event::Key(*k));
        }
        last
    };
    assert_eq!(type_in(&mut p, &mut into, &st, b"one\rtwo\r"), Action::Ask);
    assert!(into.is_empty());
    assert!(p.screen(&st, &into, 80).contains("the two entries do not match"));
    st.repeat_error = Some("не съвпадат".into());
    assert_eq!(type_in(&mut p, &mut into, &st, b"one\rtwo\r"), Action::Ask);
    assert!(p.screen(&st, &into, 80).contains("не съвпадат"));
    assert_eq!(
        type_in(&mut p, &mut into, &st, b"one\rone\r"),
        Action::Finish(Outcome::Accepted)
    );
    assert_eq!(into.as_bytes(), b"one");
}

#[test]
fn the_agent_gets_what_was_typed() {
    let mut region = vec![0u8; 4 * 700];
    let mut into = Secret::with_capacity(&mut region, true);
    let st = State::default();
    let mut p = PinPrompt::new(None);
    let text: String = "тайна% €😀 z".chars().cycle().take(700).collect();
    for b in text.bytes() {
        p.step(&st, &mut into, Event::Key(b));
    }
    assert_eq!(into.chars(), 700);
    let mut payload = Vec::new();
    let mut line = [0u8; SECRET_LINE];
    let mut from = 0;
    while from < into.len() {
        let (n, next) = Writer::data_secret(&into, from, &mut line);
        payload.extend_from_slice(&line[2..n - 1]);
        from = next;
    }
    assert_eq!(unescape(&payload), text.as_bytes());
}
