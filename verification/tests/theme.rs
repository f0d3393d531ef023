use ward::theme::{colour, path, Theme};

#[test]
fn parses_colours_with_or_without_a_hash() {
    assert_eq!(colour("#2f383e"), Some(0x2f383e));
    assert_eq!(colour("2f383e"), Some(0x2f383e));
    assert_eq!(colour("#fff"), None);
    assert_eq!(colour("not a colour"), None);
}

#[test]
fn an_absent_theme_is_not_a_failure() {
    // Every machine starts here, and a prompt that refused to appear until somebody had
    // generated a palette would be a prompt that fails for the most ordinary reason.
    let t = Theme::load(None);
    assert_eq!(t.bg, Theme::default().bg);
}

#[test]
fn loads_the_hash_form_the_file_documents() {
    let t = Theme::load_from("bg = #101010\nfg = #ff0000\n");
    assert_eq!(t.bg, 0x101010);
    assert_eq!(t.fg, 0xff0000);
}

#[test]
fn a_whole_line_comment_is_still_a_comment() {
    let t = Theme::load_from("# generated by lvim-colorscheme\nbg = #101010\n");
    assert_eq!(t.bg, 0x101010);
}

#[test]
fn a_trailing_comment_does_not_eat_the_value() {
    let t = Theme::load_from("bg = #101010  # the window\n");
    assert_eq!(t.bg, 0x101010);
}

#[test]
fn unknown_keys_leave_the_rest_alone() {
    let t = Theme::load_from("nonsense = #010101\nbg = 101010\n");
    assert_eq!(t.bg, 0x101010);
    assert_eq!(t.fg, Theme::default().fg);
}

#[test]
fn the_built_in_palette_is_everforest() {
    let t = Theme::default();
    assert_eq!(
        (t.bg, t.fg, t.dim, t.accent, t.error, t.border, t.field),
        (0x2f383e, 0xd3c6aa, 0x859289, 0x7fbbb3, 0xe67e80, 0x4f585e, 0x374247)
    );
}

#[test]
fn every_key_has_its_colour_and_its_other_name() {
    let t = Theme::load_from(
        "Background=#000001\r\nFOREGROUND = 000002\n comment=#000003\nblue=#000004\nred=000005\nborder=000006\nfield=000007",
    );
    assert_eq!(
        (t.bg, t.fg, t.dim, t.accent, t.error, t.border, t.field),
        (1, 2, 3, 4, 5, 6, 7)
    );
    let t = Theme::load_from("dim = 0000aa\naccent = 0000BB\nerror = 0000cc\n");
    assert_eq!((t.dim, t.accent, t.error), (0xaa, 0xbb, 0xcc));
}

#[test]
fn the_last_line_wins_and_a_bad_one_loses() {
    let t = Theme::load_from("bg = 111111\nbg = 222222\nbg = 33333\nbg\n#bg = 444444\n");
    assert_eq!(t.bg, 0x222222);
    assert_eq!(Theme::load(Some("bg = 222222")).bg, 0x222222);
}

#[test]
fn a_colour_is_six_digits() {
    assert_eq!(colour(""), None);
    assert_eq!(colour("#ABCDEF"), Some(0xabcdef));
    assert_eq!(colour("ffffff"), Some(0xffffff));
    assert_eq!(colour("+12345"), None);
    assert_eq!(colour("#+12345"), None);
    assert_eq!(colour("-12345"), None);
    assert_eq!(colour("1234567"), None);
    assert_eq!(colour("12345g"), None);
    assert_eq!(colour("ааа"), None);
}

#[test]
fn the_palette_lies_in_the_users_configuration() {
    assert_eq!(path(Some("/x"), Some("/home/u")), "/x/ward/theme.conf");
    assert_eq!(path(Some("/x/"), None), "/x/ward/theme.conf");
    assert_eq!(path(Some(""), Some("/home/u")), "/home/u/.config/ward/theme.conf");
    assert_eq!(path(None, Some("/home/u")), "/home/u/.config/ward/theme.conf");
    assert_eq!(path(None, Some("")), ".config/ward/theme.conf");
    assert_eq!(path(None, None), ".config/ward/theme.conf");
}
