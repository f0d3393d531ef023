use ward::secret::Secret;
use ward::server::State;
use ward::theme::Theme;
use ward::ui::gui::font::{blend, draw, Glyph};
use ward::ui::gui::{
    clear, count, draw_confirm, draw_pin, face_of, fits, lines, size, strip, ConfirmWindow, Face, Paint, PinWindow,
    Role, Stroke,
};
use ward::ui::Outcome;

fn told() -> State {
    let mut st = State::default();
    st.title = Some("Title".into());
    st.desc = Some("one\r\ntwo".into());
    st.error = Some("wrong".into());
    st
}

#[test]
fn the_lines_come_in_the_order_they_are_read() {
    let got: Vec<(String, Role)> = lines(&told(), Some("note"))
        .into_iter()
        .map(|l| (l.text, l.role))
        .collect();
    let want: Vec<(String, Role)> = [
        ("Title", Role::Title),
        ("one", Role::Body),
        ("two", Role::Body),
        ("wrong", Role::Error),
        ("note", Role::Error),
    ]
    .iter()
    .map(|(t, r)| (t.to_string(), *r))
    .collect();
    assert_eq!(got, want);
    assert!(lines(&State::default(), None).is_empty());
}

#[test]
fn a_window_is_as_large_as_what_it_shows() {
    assert_eq!(size(&lines(&State::default(), None), &vec![], true), (420, 118));
    assert_eq!(size(&lines(&State::default(), None), &vec![], false), (420, 96));
    let ls = lines(&told(), None);
    assert_eq!(size(&ls, &vec![100, 500, 20, 0], true), (540, 208));
    assert_eq!(size(&ls, &vec![100, 5000, 20, 0], false), (760, 158));
    assert!(fits(&ls, true) && fits(&ls, false));
}

fn painted(p: &Paint) -> String {
    match p {
        Paint::Text { text, x, y, face, colour } => format!("{text}@{x},{y} {face:?} {colour:06x}"),
        Paint::Strip { x, y, width, height, colour } => {
            format!("strip@{x},{y} {width}x{height} {colour:06x}")
        }
    }
}

#[test]
fn everything_has_its_place() {
    let mut region = [0u8; 32];
    let mut into = Secret::with_capacity(&mut region, true);
    into.push("яю".as_bytes());
    let w = PinWindow::new(None);
    let t = Theme::default();
    let got: Vec<String> = draw_pin(&told(), &w, &into, 70, 55, 420, 208, &t)
        .iter()
        .map(painted)
        .collect();
    assert_eq!(
        got,
        vec![
            "Title@20,35 Large 7fbbb3",
            "one@20,65 Small d3c6aa",
            "two@20,85 Small d3c6aa",
            "wrong@20,105 Small e67e80",
            "Passphrase:@20,125 Small 859289",
            "strip@102,110 298x22 374247",
            "••@110,125 Small d3c6aa",
            "2 characters@345,144 Tiny 859289",
            "enter  accept        esc  cancel        ctrl-u  clear@20,196 Tiny 859289",
        ]
    );
    assert_eq!(count(0), "0 characters");
}

#[test]
fn a_question_shows_its_keys() {
    let t = Theme::default();
    let st = State::default();
    let hint = |one| painted(&draw_confirm(&st, &ConfirmWindow::new(one), 96, &t)[0]);
    assert_eq!(hint(true), "enter  dismiss@20,84 Tiny 859289");
    assert_eq!(
        hint(false),
        "enter  accept        n  decline        esc  cancel@20,84 Tiny 859289"
    );
    assert_eq!(face_of(Role::Title), Face::Large);
    assert_eq!(face_of(Role::Body), Face::Small);
    assert_eq!(face_of(Role::Error), Face::Small);
}

#[test]
fn a_question_answers_to_the_letters_the_terminal_takes() {
    let answer = |one, s: Stroke| {
        let mut w = ConfirmWindow::new(one);
        w.press(s);
        w.over(false)
    };
    assert_eq!(answer(false, Stroke::Text("y")), Some(Outcome::Accepted));
    assert_eq!(answer(false, Stroke::Text("Y")), Some(Outcome::Accepted));
    assert_eq!(answer(false, Stroke::Text("n")), Some(Outcome::NotOk));
    assert_eq!(answer(false, Stroke::Text("N")), Some(Outcome::NotOk));
    assert_eq!(answer(false, Stroke::Text("x")), None);
    assert_eq!(answer(false, Stroke::Text("")), None);
    assert_eq!(answer(false, Stroke::Text("\x03")), None);
    assert_eq!(answer(false, Stroke::Enter), Some(Outcome::Accepted));
    assert_eq!(answer(false, Stroke::Escape), Some(Outcome::Cancelled));
    assert_eq!(answer(false, Stroke::Close), Some(Outcome::Cancelled));
    assert_eq!(answer(false, Stroke::Backspace), None);
    assert_eq!(answer(true, Stroke::Text("y")), None);
    assert_eq!(answer(true, Stroke::Enter), Some(Outcome::Accepted));
}

#[test]
fn an_outcome_counts_before_the_deadline() {
    let mut w = ConfirmWindow::new(false);
    assert_eq!(w.over(false), None);
    assert_eq!(w.over(true), Some(Outcome::Cancelled));
    w.press(Stroke::Enter);
    assert_eq!(w.over(true), Some(Outcome::Accepted));
    w.unavailable();
    assert_eq!(w.over(false), Some(Outcome::Unavailable));
    let mut w = PinWindow::new(None);
    assert_eq!(w.over(true), Some(Outcome::Cancelled));
    w.unavailable();
    assert_eq!(w.over(true), Some(Outcome::Unavailable));
}

#[test]
fn a_passphrase_is_typed_into_the_window() {
    let (mut a, mut b) = ([0u8; 8], [0u8; 8]);
    let st = State::default();
    let mut into = Secret::with_capacity(&mut a, true);
    let mut w = PinWindow::new(Some(Secret::with_capacity(&mut b, true)));
    let mut press = |w: &mut PinWindow, into: &mut Secret, s: Stroke| w.press(&st, into, s);
    press(&mut w, &mut into, Stroke::Text("я"));
    press(&mut w, &mut into, Stroke::Text("яя"));
    assert_eq!(w.entered(&into), 3);
    // What does not fit is left out whole.
    press(&mut w, &mut into, Stroke::Text("€"));
    assert_eq!(into.as_bytes(), "яяя".as_bytes());
    press(&mut w, &mut into, Stroke::Backspace);
    press(&mut w, &mut into, Stroke::Text("\x07"));
    assert_eq!(w.entered(&into), 2);
    press(&mut w, &mut into, Stroke::Text("\x15"));
    assert!(into.is_empty());
    press(&mut w, &mut into, Stroke::Text("one"));
    assert!(!press(&mut w, &mut into, Stroke::Enter));
    assert!(w.is_repeating());
    press(&mut w, &mut into, Stroke::Text("two"));
    // The note that the two differ is a line more.
    assert!(press(&mut w, &mut into, Stroke::Enter));
    assert_eq!(w.note(), Some("the two entries do not match"));
    assert!(into.is_empty());
    press(&mut w, &mut into, Stroke::Text("one"));
    // And a line less when it goes away.
    assert!(press(&mut w, &mut into, Stroke::Enter));
    press(&mut w, &mut into, Stroke::Text("one"));
    assert!(!press(&mut w, &mut into, Stroke::Enter));
    assert_eq!(w.over(false), Some(Outcome::Accepted));
    assert_eq!(into.as_bytes(), b"one");
}

#[test]
fn closing_the_window_is_a_refusal() {
    for s in [Stroke::Close, Stroke::Escape] {
        let mut region = [0u8; 8];
        let mut into = Secret::with_capacity(&mut region, true);
        let mut w = PinWindow::new(None);
        w.press(&State::default(), &mut into, s);
        assert_eq!(w.over(false), Some(Outcome::Cancelled));
    }
}

#[test]
fn a_glyph_is_mixed_into_what_is_behind_it() {
    assert_eq!(blend(0x102030, 0xa0b0c0, 0), 0x102030);
    assert_eq!(blend(0x102030, 0xa0b0c0, 255), 0xa0b0c0);
    assert_eq!(blend(0x000000, 0xffffff, 128), 0x808080);
    assert_eq!(blend(0x336699, 0x336699, 77), 0x336699);
    assert_eq!(blend(0xff000000, 0, 0), 0);
}

fn dot(advance: i32, bitmap: &[u8]) -> Glyph {
    Glyph { width: 2, height: 1, xmin: 0, ymin: 0, advance, bitmap: bitmap.to_vec() }
}

#[test]
fn glyphs_stand_on_the_baseline_one_after_the_other() {
    let g = dot(2, &[255, 0]);
    assert!(g.is_whole());
    assert!(!dot(2, &[255]).is_whole());
    let mut buf = [0u32; 12];
    let pen = draw(&mut buf, 4, 3, 0, 2, &vec![&g, &g], 0xffffff);
    assert_eq!(pen, 4);
    let mut want = [0u32; 12];
    want[4] = 0xffffff;
    want[6] = 0xffffff;
    assert_eq!(buf, want);
}

#[test]
fn what_falls_outside_is_left_out() {
    let g = dot(2, &[255, 255]);
    let mut buf = [0u32; 6];
    draw(&mut buf, 3, 2, -1, 1, &vec![&g], 1);
    assert_eq!(buf, [1, 0, 0, 0, 0, 0]);
    draw(&mut buf, 3, 2, 2, 2, &vec![&g], 2);
    assert_eq!(buf, [1, 0, 0, 0, 0, 2]);
    draw(&mut buf, 3, 2, 0, 9, &vec![&g], 3);
    assert_eq!(buf, [1, 0, 0, 0, 0, 2]);
}

#[test]
fn an_empty_window_has_a_frame() {
    let mut t = Theme::default();
    t.bg = 0;
    t.border = 1;
    let mut buf = [9u32; 12];
    clear(&mut buf, 4, 3, &t);
    assert_eq!(buf, [1, 1, 1, 1, 1, 0, 0, 1, 1, 1, 1, 1]);
}

#[test]
fn a_strip_is_cut_off_at_the_edge() {
    let mut buf = [0u32; 12];
    strip(&mut buf, 4, 3, 2, -1, 9, 2, 7);
    assert_eq!(buf, [0, 0, 7, 7, 0, 0, 0, 0, 0, 0, 0, 0]);
    strip(&mut buf, 4, 3, 1, 1, -5, 2, 8);
    assert_eq!(buf, [0, 0, 7, 7, 0, 0, 0, 0, 0, 0, 0, 0]);
}
