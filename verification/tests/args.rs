use ward::args::{opening_note, read, version_report, Invocation, Purpose, USAGE};
use ward::harden::{harden, swap_warning};

fn given(args: &[&str]) -> Invocation {
    read(&args.iter().map(|a| a.to_string()).collect())
}

#[test]
fn with_no_arguments_the_protocol_is_spoken() {
    let inv = given(&[]);
    assert_eq!(inv.purpose, Purpose::Serve);
    assert!(inv.complaints.is_empty());
    assert!(inv.transcript.is_none());
}

#[test]
fn every_flag_reaches_the_state() {
    let inv = given(&[
        "--frontend", "tty", "--display", ":1", "--ttyname", "/dev/pts/1", "--ttytype", "xterm",
        "--lc-ctype", "C", "--lc-messages", "bg", "--timeout", "30", "--transcript", "/tmp/t",
    ]);
    let st = &inv.state;
    assert_eq!(st.forced_frontend.as_deref(), Some("tty"));
    assert_eq!(st.display.as_deref(), Some(":1"));
    assert_eq!(st.ttyname.as_deref(), Some("/dev/pts/1"));
    assert_eq!(st.ttytype.as_deref(), Some("xterm"));
    assert_eq!(st.lc_ctype.as_deref(), Some("C"));
    assert_eq!(st.lc_messages.as_deref(), Some("bg"));
    assert_eq!((st.timeout_secs, st.default_timeout_secs), (Some(30), Some(30)));
    assert_eq!(inv.transcript.as_deref(), Some("/tmp/t"));
    assert!(inv.complaints.is_empty());
}

#[test]
fn a_flag_says_what_the_option_says() {
    let flag = given(&["--ttyname", "/dev/50%"]).state;
    let mut st = ward::server::State::default();
    ward::server::handle_option(&mut st, "ttyname=/dev/50%25");
    assert_eq!(flag.ttyname, st.ttyname);
}

#[test]
fn the_timeout_of_the_command_line_survives_a_reset() {
    let mut st = given(&["--timeout", "30"]).state;
    st.timeout_secs = Some(5);
    st.reset_request();
    assert_eq!(st.timeout_secs, Some(30));
}

#[test]
fn a_bad_timeout_is_complained_about() {
    let complaint = |v: &[&str]| given(v).complaints[0].clone();
    assert_eq!(
        complaint(&["--timeout", ""]),
        "ward: --timeout is not a number of seconds: cannot parse integer from empty string"
    );
    assert_eq!(
        complaint(&["--timeout", "5s"]),
        "ward: --timeout is not a number of seconds: invalid digit found in string"
    );
    assert_eq!(
        complaint(&["--timeout", "18446744073709551616"]),
        "ward: --timeout is not a number of seconds: number too large to fit in target type"
    );
    assert_eq!(
        complaint(&["--timeout"]),
        "ward: --timeout wants a number of seconds"
    );
    assert_eq!(given(&["--timeout", "+7"]).state.timeout_secs, Some(7));
}

#[test]
fn an_unknown_argument_is_not_fatal() {
    let inv = given(&["frob", "--display", ":2", "install"]);
    assert_eq!(inv.purpose, Purpose::Serve);
    assert_eq!(
        inv.complaints,
        vec!["ward: ignoring unknown argument: frob", "ward: ignoring unknown argument: install"]
    );
    assert_eq!(inv.state.display.as_deref(), Some(":2"));
    assert!(given(&["--display", ":2", "--display"]).state.display.is_none());
}

#[test]
fn an_install_can_be_tried_first() {
    assert_eq!(given(&["install"]).purpose, Purpose::Install { dry_run: false });
    assert_eq!(given(&["install", "--dry-run"]).purpose, Purpose::Install { dry_run: true });
    assert_eq!(given(&["install", "x", "--print"]).purpose, Purpose::Install { dry_run: true });
}

#[test]
fn help_and_version_end_the_reading() {
    assert_eq!(given(&["-h", "frob"]).purpose, Purpose::Help);
    assert!(given(&["-h", "frob"]).complaints.is_empty());
    assert_eq!(given(&["--help"]).purpose, Purpose::Help);
    assert_eq!(given(&["frob", "-V"]).purpose, Purpose::Version);
    assert_eq!(given(&["--version"]).purpose, Purpose::Version);
    assert!(USAGE.starts_with("ward — a passphrase prompt for gpg-agent\n\nusage:\n"));
    assert!(USAGE.ends_with("then: gpg-connect-agent RELOADAGENT /bye\n"));
}

#[test]
fn what_took_effect_is_reported_and_nothing_else() {
    assert_eq!(harden(true, true), vec!["core dumps disabled", "ptrace/dump denied"]);
    assert_eq!(harden(false, true), vec!["ptrace/dump denied"]);
    assert!(harden(false, false).is_empty());
}

#[test]
fn swap_is_warned_about_when_it_is_there() {
    assert_eq!(swap_warning(None), None);
    assert_eq!(swap_warning(Some("")), None);
    assert_eq!(swap_warning(Some("Filename Type Size\n")), None);
    assert_eq!(
        swap_warning(Some("Filename Type Size\n/dev/sda2 p 1\n \n/dev/sdb2 p 2\n")).unwrap(),
        "swap is active (2 devices) — unless it is encrypted, memory can reach the disk"
    );
}

#[test]
fn the_version_comes_with_the_hardening() {
    assert_eq!(
        version_report("0.1.0", &harden(true, true), &Some("swap".to_string())),
        "ward 0.1.0\nhardening: core dumps disabled, ptrace/dump denied\nwarning: swap\n"
    );
    assert_eq!(version_report("1", &harden(false, false), &None), "ward 1\nhardening: \n");
    assert_eq!(
        opening_note(&harden(true, false), &Some("swap".to_string())),
        "ward: hardening: core dumps disabled\nward: swap\n"
    );
    assert_eq!(opening_note(&harden(true, false), &None), "ward: hardening: core dumps disabled\n");
}
