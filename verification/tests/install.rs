use ward::install::{
    already_set, conclude, conf_path, existing_text, line_present, plan, rewrite, Found, RELOADING,
};

fn ward() -> &'static str {
    "/usr/local/bin/ward"
}

#[test]
fn replaces_the_line_and_touches_nothing_else() {
    let before = "\
# my agent
default-cache-ttl 300
pinentry-program /usr/bin/pinentry-gtk-2
no-allow-loopback-pinentry
max-cache-ttl 900
";
    let (after, prev) = rewrite(before, &ward());
    assert_eq!(prev.as_deref(), Some("/usr/bin/pinentry-gtk-2"));
    assert!(after.contains("pinentry-program /usr/local/bin/ward"));
    for kept in [
        "# my agent",
        "default-cache-ttl 300",
        "no-allow-loopback-pinentry",
        "max-cache-ttl 900",
    ] {
        assert!(after.contains(kept), "lost a line: {kept}");
    }
    assert!(!after.contains("gtk-2"), "the old program survived");
}

#[test]
fn appends_when_there_was_no_line() {
    let (after, prev) = rewrite("default-cache-ttl 600\n", &ward());
    assert!(prev.is_none());
    assert!(after.contains("default-cache-ttl 600"));
    assert!(after.contains("pinentry-program /usr/local/bin/ward"));
}

#[test]
fn works_on_an_empty_file() {
    let (after, _) = rewrite("", &ward());
    assert_eq!(after, "pinentry-program /usr/local/bin/ward\n");
}

#[test]
fn leaves_a_commented_line_as_a_comment() {
    // Somebody's note about what they used to run. Not ours to tidy, and not ours to
    // mistake for the setting in force.
    let (after, prev) = rewrite("# pinentry-program /usr/bin/pinentry-qt\n", &ward());
    assert!(prev.is_none());
    assert!(after.contains("# pinentry-program /usr/bin/pinentry-qt"));
    assert!(after.contains("pinentry-program /usr/local/bin/ward"));
}

#[test]
fn a_duplicate_is_commented_out_rather_than_left_to_win() {
    // gpg-agent takes the last line it reads, so a survivor further down would silently
    // override the one just written.
    let before = "pinentry-program /usr/bin/a\npinentry-program /usr/bin/b\n";
    let (after, prev) = rewrite(before, &ward());
    assert_eq!(prev.as_deref(), Some("/usr/bin/a"));
    assert!(after.contains("pinentry-program /usr/local/bin/ward"));
    assert!(after.contains("# pinentry-program /usr/bin/b"));
    assert_eq!(
        after
            .lines()
            .filter(|l| l.starts_with("pinentry-program"))
            .count(),
        1
    );
}

#[test]
fn the_whole_file_is_as_it_should_be() {
    assert_eq!(
        rewrite("a\n  pinentry-program   /x \nb\npinentry-program /y\n", "/w").0,
        "a\npinentry-program /w\nb\n# pinentry-program /y    (superseded by ward install)\n"
    );
    assert_eq!(rewrite("a\n", "/w").0, "a\n\npinentry-program /w\n");
    assert_eq!(rewrite("a", "/w").0, "a\n\npinentry-program /w\n");
    assert_eq!(rewrite("a\n \n", "/w").0, "a\n \npinentry-program /w\n");
    assert_eq!(rewrite("pinentry-program /x", "/w").0, "pinentry-program /w\n");
    assert_eq!(
        rewrite("pinentry-program\n", "/w").0,
        "pinentry-program\n\npinentry-program /w\n"
    );
}

#[test]
fn every_other_byte_is_left_alone() {
    let before = "one\r\n\tpinentry-program /x\r\ntwo  \r\n\n\n\n";
    let (after, prev) = rewrite(before, "/w");
    assert_eq!(after, "one\r\npinentry-program /w\r\ntwo  \r\n\n\n\n");
    assert_eq!(prev.as_deref(), Some("/x"));
}

#[test]
fn an_option_that_begins_like_the_directive_is_another_option() {
    assert_eq!(
        rewrite("pinentry-program-backup /usr/bin/x\n", ward()),
        (
            "pinentry-program-backup /usr/bin/x\n\npinentry-program /usr/local/bin/ward\n".to_string(),
            None
        )
    );
    assert_eq!(
        rewrite("pinentry-program\t/x\n", "/w"),
        ("pinentry-program /w\n".to_string(), Some("/x".to_string()))
    );
}

#[test]
fn naming_ward_first_is_not_enough() {
    let before = "pinentry-program /w\npinentry-program /usr/bin/b\n";
    assert!(!already_set(before, "/w"));
    let p = plan(before, "/w", "/c", false);
    let after = p.text.unwrap();
    assert_eq!(
        after,
        "pinentry-program /w\n# pinentry-program /usr/bin/b    (superseded by ward install)\n"
    );
    assert!(!p.report.contains("Nothing to change"));
    assert!(already_set(&after, "/w"));
    assert!(already_set("a\n  pinentry-program   /w \n", "/w"));
    assert!(!already_set("", "/w"));
    // Named twice, ward is what the agent runs: there is nothing to change.
    let twice = "pinentry-program /w\npinentry-program /w\n";
    assert!(already_set(twice, "/w"));
    let p = plan(twice, "/w", "/c", false);
    assert!(p.text.is_none());
    assert_eq!(p.report, "file:    /c\nalready: /w\n\nNothing to change.\n");
    assert!(!already_set("pinentry-program /x\n", "/w"));
}

#[test]
fn a_second_install_is_no_change() {
    for before in ["", "a", "a\r\n\r\n", "pinentry-program /x\npinentry-program /y", "# c\n"] {
        let once = rewrite(before, &ward()).0;
        let (twice, prev) = rewrite(&once, &ward());
        assert_eq!(once, twice);
        assert_eq!(prev.as_deref(), Some(ward()));
        assert!(line_present(&once, &ward()));
    }
}

#[test]
fn the_line_is_found_only_where_it_counts() {
    assert!(line_present("a\n  pinentry-program /w \nb", "/w"));
    assert!(!line_present("# pinentry-program /w\n", "/w"));
    assert!(!line_present("pinentry-program /w2\n", "/w"));
    assert!(!line_present("", "/w"));
}

#[test]
fn the_configuration_is_the_agents() {
    assert_eq!(conf_path(Some("/g"), Some("/home/u")), "/g/gpg-agent.conf");
    assert_eq!(conf_path(Some(""), Some("/home/u")), "/home/u/.gnupg/gpg-agent.conf");
    assert_eq!(conf_path(None, Some("/home/u")), "/home/u/.gnupg/gpg-agent.conf");
    assert_eq!(conf_path(None, None), "gpg-agent.conf");
}

#[test]
fn an_install_says_what_it_does() {
    let p = plan("pinentry-program /x\n", "/w", "/c", false);
    assert_eq!(
        p.report,
        "file:    /c\nwas:     pinentry-program /x\nnow:     pinentry-program /w\n"
    );
    assert_eq!(p.text.as_deref(), Some("pinentry-program /w\n"));
    assert_eq!(p.previous.as_deref(), Some("/x"));
    let p = plan("", "/w", "/c", true);
    assert_eq!(
        p.report,
        "file:    /c\nwas:     nothing (gpg-agent fell back to whatever `pinentry` resolves to)\nnow:     pinentry-program /w\n\n--- the file as it would be written ---\npinentry-program /w\n\n"
    );
    assert!(p.text.is_none());
    let p = plan("pinentry-program /w\n", "/w", "/c", false);
    assert_eq!(p.report, "file:    /c\nalready: /w\n\nNothing to change.\n");
    assert!(p.text.is_none());
}

#[test]
fn an_install_claims_no_more_than_it_knows() {
    let c = conclude("pinentry-program /w\n", "/w", "/c", &Some("/x".to_string()));
    assert_eq!(c.code, 0);
    assert!(c.report.starts_with("\nthe file now names ward, and the agent re-read"));
    assert!(c.report.ends_with(
        "\nto go back:  pinentry-program /x\nin /c, then: gpg-connect-agent RELOADAGENT /bye\n"
    ));
    assert_eq!(c.complaint, "");
    let c = conclude("pinentry-program /w\n", "/w", "/c", &None);
    assert!(c.report.contains("\nto go back:  remove the pinentry-program line\n"));
    let c = conclude("", "/w", "/c", &None);
    assert_eq!(c.code, 1);
    assert_eq!(
        c.complaint,
        "\nthe line is NOT in the file after writing it — stop and look at /c\n"
    );
    assert_eq!(c.report, "");
    assert!(RELOADING.contains("every cached passphrase is dropped"));
}

#[test]
fn a_file_that_cannot_be_read_stops_the_install() {
    assert_eq!(existing_text(Found::Text("a".into())), Ok("a".to_string()));
    assert_eq!(existing_text(Found::Missing), Ok(String::new()));
    assert_eq!(existing_text(Found::Unreadable("EACCES".into())), Err("EACCES".to_string()));
}
