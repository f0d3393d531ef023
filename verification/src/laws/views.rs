//! Views: the contracts speak of values as they are.

use vstd::prelude::*;

use crate::args::Invocation;
use crate::harden::texts;
use crate::secret::Secret;
use crate::server::State;
use crate::text::{opt, opt_str, views};
use crate::theme::{Slot, Theme};
use crate::ui::entry::Entry;
use crate::ui::gui::{
    picture, spelled, Face, Line, Paint, PaintView, Stroke, StrokeView,
};
use crate::ui::{pairs, Kind, NoFrontend, Probe, ProbeView};

verus! {

/// A text that may be missing is spoken of as it is.
pub open spec fn same_text(view: Option<Seq<char>>, value: Option<String>) -> bool {
    match value {
        Some(s) => view == Some(s@),
        None => view is None,
    }
}

/// A text that may be missing is spoken of as it is, owned or borrowed.
pub proof fn law_an_optional_text_is_spoken_of_as_it_is(a: Option<String>, b: Option<&str>)
    ensures
        same_text(opt(a), a),
        b matches Some(s) ==> opt_str(b) == Some(s@),
        b is None ==> opt_str(b) is None,
{
}

/// The state is spoken of field by field.
pub proof fn law_a_state_is_spoken_of_as_it_is(st: State)
    ensures
        same_text(st@.desc, st.desc),
        same_text(st@.prompt, st.prompt),
        same_text(st@.title, st.title),
        same_text(st@.error, st.error),
        same_text(st@.ok, st.ok),
        same_text(st@.cancel, st.cancel),
        same_text(st@.notok, st.notok),
        same_text(st@.repeat, st.repeat),
        same_text(st@.repeat_error, st.repeat_error),
        same_text(st@.keyinfo, st.keyinfo),
        same_text(st@.quality_bar, st.quality_bar),
        st@.timeout_secs == st.timeout_secs,
        st@.defaults == st.defaults@,
        st@.client_env == st.client_env@,
        same_text(st@.ttyname, st.ttyname),
        same_text(st@.ttytype, st.ttytype),
        same_text(st@.display, st.display),
        same_text(st@.lc_ctype, st.lc_ctype),
        same_text(st@.lc_messages, st.lc_messages),
        same_text(st@.owner, st.owner),
        st@.no_grab == st.no_grab,
        st@.external_cache_allowed == st.external_cache_allowed,
        same_text(st@.forced_frontend, st.forced_frontend),
        st@.default_timeout_secs == st.default_timeout_secs,
{
}

/// The command line is spoken of field by field.
pub proof fn law_an_invocation_is_spoken_of_as_it_is(inv: Invocation)
    ensures
        inv@.purpose == inv.purpose,
        inv@.state == inv.state@,
        same_text(inv@.transcript, inv.transcript),
        inv@.complaints == views(inv.complaints@),
{
}

/// Several values are spoken of one by one, in their order.
pub proof fn law_several_values_are_spoken_of_one_by_one(
    strings: Seq<String>,
    words: Seq<&'static str>,
    settings: Seq<(String, String)>,
    lines: Seq<Line>,
    paints: Seq<Paint>,
    i: int,
)
    ensures
        views(strings).len() == strings.len(),
        0 <= i < strings.len() ==> views(strings)[i] == strings[i]@,
        texts(words).len() == words.len(),
        0 <= i < words.len() ==> texts(words)[i] == words[i]@,
        pairs(settings).len() == settings.len(),
        0 <= i < settings.len() ==> pairs(settings)[i] == (settings[i].0@, settings[i].1@),
        spelled(lines).len() == lines.len(),
        0 <= i < lines.len() ==> spelled(lines)[i] == (lines[i].text@, lines[i].role),
        picture(paints).len() == paints.len(),
        0 <= i < paints.len() ==> picture(paints)[i] == paints[i]@,
{
}

/// What is to be painted is spoken of as it is.
pub proof fn law_paint_is_spoken_of_as_it_is(
    text: String,
    x: i32,
    y: i32,
    width: i32,
    height: i32,
    face: Face,
    colour: u32,
)
    ensures
        (Paint::Text { text, x, y, face, colour })@ == (PaintView::Text {
            text: text@,
            x: x as int,
            y: y as int,
            face,
            colour,
        }),
        (Paint::Strip { x, y, width, height, colour })@ == (PaintView::Strip {
            x: x as int,
            y: y as int,
            width: width as int,
            height: height as int,
            colour,
        }),
{
}

/// A stroke is spoken of as it is.
pub proof fn law_a_stroke_is_spoken_of_as_it_is(t: &str)
    ensures
        Stroke::Close@ == StrokeView::Close,
        Stroke::Enter@ == StrokeView::Enter,
        Stroke::Escape@ == StrokeView::Escape,
        Stroke::Backspace@ == StrokeView::Backspace,
        Stroke::Text(t)@ == StrokeView::Text(t@),
{
}

/// What is to be tried is spoken of as it is.
pub proof fn law_a_probe_is_spoken_of_as_it_is(name: String, why: String, kind: Kind)
    ensures
        Probe::OpenGui@ == ProbeView::OpenGui,
        Probe::OpenTty(name)@ == ProbeView::OpenTty(name@),
        Probe::Draw(kind)@ == ProbeView::Draw(kind),
        Probe::Fail(NoFrontend(why))@ == ProbeView::Fail(why@),
{
}

/// What has been typed is spoken of as it is: the passphrase is what the caller's buffer holds,
/// and its repetition what the entry's own does.
pub proof fn law_typing_is_spoken_of_as_it_is(entry: Entry, into: &Secret)
    ensures
        ({
            let f = entry.fields(into);
            &&& f.first.bytes == into.bytes()
            &&& f.first.cap == into.region().len()
            &&& f.first.locked == into.pinned()
            &&& entry.again() is None ==> f.again is None
            &&& entry.again() matches Some(c) ==> f.again matches Some(h) && h.bytes == c.bytes()
                && h.cap == c.region().len() && h.locked == c.pinned()
            &&& f.on_repeat == entry.repeating()
            &&& f.note == entry.remark()
            &&& f.refused == entry.refusing()
        }),
        into.bytes() == into.region().take(into.used() as int),
{
}

/// A palette has seven colours, each told apart from the others.
pub proof fn law_a_palette_has_seven_colours(t: Theme)
    ensures
        t.of(Slot::Bg) == t.bg,
        t.of(Slot::Fg) == t.fg,
        t.of(Slot::Dim) == t.dim,
        t.of(Slot::Accent) == t.accent,
        t.of(Slot::Error) == t.error,
        t.of(Slot::Border) == t.border,
        t.of(Slot::Field) == t.field,
{
}

} // verus!
