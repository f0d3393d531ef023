//! Choosing a front-end: who decides, what is tried, and what is said when nothing works.

use vstd::prelude::*;

use crate::server::StateView;
use crate::text::{lemma_words_join, lemma_words_of_word, starts_with, words};
use crate::ui::{
    both_failures, display_settings, first_probe, requested, taken_over, terminal_failure, wanted,
    wanted_complaint, Kind, ProbeView, Wanted,
};

verus! {

/// Whether a word asks for a front-end.
pub open spec fn asks(w: Seq<char>) -> bool {
    w.len() >= 5 && w.take(5) == "ward:"@
}

proof fn lemma_asks(w: Seq<char>)
    ensures
        asks(w) == starts_with(w, "ward:"@),
        "ward:"@.len() == 5,
{
    reveal_strlit("ward:");
}

/// The first word that asks for a front-end decides.
proof fn lemma_requested(data: Seq<Seq<char>>, i: int)
    requires
        0 <= i <= data.len(),
        forall|j: int| 0 <= j < i ==> !asks(#[trigger] data[j]),
        i < data.len() ==> asks(data[i]),
    ensures
        requested(data) == if i < data.len() {
            Some(data[i].skip(5))
        } else {
            None
        },
    decreases data.len(),
{
    if data.len() > 0 {
        lemma_asks(data[0]);
        if i > 0 {
            assert(!asks(data[0]));
            let rest = data.drop_first();
            assert forall|j: int| 0 <= j < i - 1 implies !asks(#[trigger] rest[j]) by {
                assert(rest[j] == data[j + 1]);
            }
            lemma_requested(rest, i - 1);
        }
    }
}

/// The user's own request decides, whatever the configuration says: the first word of the
/// user's data that starts with `ward:` names the front-end. `ward:tty` is the terminal and no
/// other, `ward:gui` the window and no other, and any other name is ignored, and said to be.
pub proof fn law_the_user_decides(st: StateView, data: Seq<char>, i: int)
    requires
        0 <= i < words(data).len(),
        forall|j: int| 0 <= j < i ==> !asks(#[trigger] words(data)[j]),
        asks(words(data)[i]),
    ensures
        words(data)[i] == "ward:tty"@ ==> wanted(st, Some(data)) == Wanted::Only(Kind::Tty)
            && wanted_complaint(st, Some(data)) is None,
        words(data)[i] == "ward:gui"@ ==> wanted(st, Some(data)) == Wanted::Only(Kind::Gui)
            && wanted_complaint(st, Some(data)) is None,
        words(data)[i] != "ward:tty"@ && words(data)[i] != "ward:gui"@ ==> wanted(st, Some(data))
            == Wanted::Any && wanted_complaint(st, Some(data)) == Some(
            "ward: ignoring unknown front-end request: "@ + words(data)[i].skip(5),
        ),
{
    let w = words(data)[i];
    lemma_requested(words(data), i);
    reveal_strlit("ward:");
    reveal_strlit("ward:tty");
    reveal_strlit("ward:gui");
    reveal_strlit("tty");
    reveal_strlit("gui");
    assert("ward:tty"@.skip(5) =~= "tty"@);
    assert("ward:gui"@.skip(5) =~= "gui"@);
    assert("tty"@[0] == 't' && "gui"@[0] == 'g');
    assert("ward:"@ + w.skip(5) =~= w) by {
        assert(w =~= w.take(5) + w.skip(5));
    }
    assert("ward:"@ + "tty"@ =~= "ward:tty"@);
    assert("ward:"@ + "gui"@ =~= "ward:gui"@);
}

/// So a request does not depend on the configuration, nor on what else the user's data says
/// after it.
pub proof fn law_the_configuration_does_not_matter_to_a_request(
    st: StateView,
    other: StateView,
    more: Seq<char>,
)
    ensures
        wanted(st, Some("ward:tty"@)) == Wanted::Only(Kind::Tty),
        wanted(st, Some("ward:gui"@)) == Wanted::Only(Kind::Gui),
        wanted(st, Some("ward:tty"@ + seq![' '] + more)) == Wanted::Only(Kind::Tty),
        wanted(st, Some("ward:gui"@ + seq![' '] + more)) == Wanted::Only(Kind::Gui),
        wanted(st, Some("ward:tty"@ + seq![' '] + more)) == wanted(
            other,
            Some("ward:tty"@ + seq![' '] + more),
        ),
{
    reveal_strlit("ward:");
    reveal_strlit("ward:tty");
    reveal_strlit("ward:gui");
    assert("ward:tty"@.take(5) =~= "ward:"@);
    assert("ward:gui"@.take(5) =~= "ward:"@);
    lemma_words_of_word("ward:tty"@);
    lemma_words_of_word("ward:gui"@);
    lemma_words_join("ward:tty"@, ' ', more);
    lemma_words_join("ward:gui"@, ' ', more);
    law_the_user_decides(st, "ward:tty"@, 0);
    law_the_user_decides(st, "ward:gui"@, 0);
    law_the_user_decides(st, "ward:tty"@ + seq![' '] + more, 0);
    law_the_user_decides(st, "ward:gui"@ + seq![' '] + more, 0);
    law_the_user_decides(other, "ward:tty"@ + seq![' '] + more, 0);
}

/// Where the user's data asks for nothing, the configuration alone decides.
pub proof fn law_the_configuration_decides_otherwise(st: StateView, data: Option<Seq<char>>)
    requires
        data matches Some(d) ==> forall|j: int|
            0 <= j < words(d).len() ==> !asks(#[trigger] words(d)[j]),
    ensures
        wanted(st, data) == match st.forced_frontend {
            None => Wanted::Any,
            Some(name) => if name == "tty"@ {
                Wanted::Only(Kind::Tty)
            } else if name == "gui"@ {
                Wanted::Only(Kind::Gui)
            } else {
                Wanted::Any
            },
        },
        st.forced_frontend is None || st.forced_frontend == Some("tty"@) || st.forced_frontend
            == Some("gui"@) ==> wanted_complaint(st, data) is None,
        st.forced_frontend matches Some(name) ==> name == "tty"@ || name == "gui"@
            || wanted_complaint(st, data) == Some(
            "ward: ignoring unknown front-end request: "@ + name,
        ),
{
    if data is Some {
        lemma_requested(words(data->0), words(data->0).len() as int);
    }
    reveal_strlit("tty");
    reveal_strlit("gui");
    assert("tty"@[0] == 't' && "gui"@[0] == 'g');
}

/// What is tried, from what is wanted and what is known of the window. Unless the terminal is
/// wanted and no other, an open window is drawn in and one that was never tried is opened. Only
/// where the window could not be had, and is not the one thing wanted, is the terminal that the
/// agent named opened.
pub proof fn law_what_is_tried(st: StateView, name: Seq<char>, why: Seq<char>)
    requires
        st.ttyname == Some(name),
    ensures
        first_probe(st, Wanted::Any, false, None) == ProbeView::OpenGui,
        first_probe(st, Wanted::Only(Kind::Gui), false, None) == ProbeView::OpenGui,
        first_probe(st, Wanted::Any, true, None) == ProbeView::Draw(Kind::Gui),
        first_probe(st, Wanted::Only(Kind::Gui), true, None) == ProbeView::Draw(Kind::Gui),
        first_probe(st, Wanted::Any, false, Some(why)) == ProbeView::OpenTty(name),
        first_probe(st, Wanted::Only(Kind::Gui), false, Some(why)) == ProbeView::Fail(why),
        first_probe(st, Wanted::Only(Kind::Tty), false, None) == ProbeView::OpenTty(name),
        first_probe(st, Wanted::Only(Kind::Tty), true, None) == ProbeView::OpenTty(name),
        first_probe(st, Wanted::Only(Kind::Tty), false, Some(why)) == ProbeView::OpenTty(name),
{
}

/// Where no terminal was named and the window could not be had, both halves of the story are
/// told; where only the terminal was wanted, its half alone.
pub proof fn law_both_failures_are_told(st: StateView, why: Seq<char>, has_window: bool)
    requires
        st.ttyname is None,
    ensures
        first_probe(st, Wanted::Any, false, Some(why)) == ProbeView::Fail(
            why + "; no terminal was named either"@,
        ),
        first_probe(st, Wanted::Only(Kind::Tty), has_window, Some(why)) == ProbeView::Fail(
            "no terminal was named either"@,
        ),
        first_probe(st, Wanted::Only(Kind::Tty), has_window, None) == ProbeView::Fail(
            "no terminal was named either"@,
        ),
{
    reveal_strlit("; ");
    reveal_strlit("no terminal was named either");
    reveal_strlit("; no terminal was named either");
    assert(why + "; "@ + "no terminal was named either"@ =~= why
        + "; no terminal was named either"@);
}

/// A terminal that could not be opened is named, with the reason, after what was wrong with the
/// window where that was tried first.
pub proof fn law_a_terminal_failure_names_the_terminal(
    name: Seq<char>,
    why: Seq<char>,
    window: Seq<char>,
)
    ensures
        both_failures(Wanted::Only(Kind::Tty), None, terminal_failure(name, why)) == name
            + " could not be opened: "@ + why,
        both_failures(Wanted::Only(Kind::Tty), Some(window), terminal_failure(name, why)) == name
            + " could not be opened: "@ + why,
        both_failures(Wanted::Any, None, terminal_failure(name, why)) == name
            + " could not be opened: "@ + why,
        both_failures(Wanted::Any, Some(window), terminal_failure(name, why)) == window + "; "@ + (
        name + " could not be opened: "@ + why),
{
}

/// What a variable is in the end, where several settings are made one after the other.
pub open spec fn last_set(settings: Seq<(Seq<char>, Seq<char>)>, name: Seq<char>) -> Option<
    Seq<char>,
>
    decreases settings.len(),
{
    if settings.len() == 0 {
        None
    } else if settings.last().0 == name {
        Some(settings.last().1)
    } else {
        last_set(settings.drop_last(), name)
    }
}

proof fn lemma_last_set_join(
    a: Seq<(Seq<char>, Seq<char>)>,
    b: Seq<(Seq<char>, Seq<char>)>,
    name: Seq<char>,
)
    ensures
        last_set(a + b, name) == if last_set(b, name) is Some {
            last_set(b, name)
        } else {
            last_set(a, name)
        },
    decreases b.len(),
{
    if b.len() == 0 {
        assert(a + b =~= a);
    } else {
        assert((a + b).drop_last() =~= a + b.drop_last());
        assert((a + b).last() == b.last());
        lemma_last_set_join(a, b.drop_last(), name);
    }
}

proof fn lemma_taken_over(env: Map<Seq<char>, Seq<char>>, name: Seq<char>, other: Seq<char>)
    ensures
        last_set(taken_over(env, name), other) == if env.contains_key(name) && name == other {
            Some(env[name])
        } else {
            None
        },
{
    reveal_with_fuel(last_set, 2);
    let t = taken_over(env, name);
    if env.contains_key(name) {
        assert(t.last() == (name, env[name]));
        assert(t.drop_last().len() == 0);
    }
}

/// What a variable of the client's is.
pub open spec fn client_variable(st: StateView, name: Seq<char>) -> Option<Seq<char>> {
    if st.client_env.contains_key(name) {
        Some(st.client_env[name])
    } else {
        None
    }
}

/// Before the window is opened, the display is the client's: its four variables are taken over,
/// the display that the agent named beats the one in the client's environment, and no other
/// variable is touched.
pub proof fn law_the_display_is_the_clients(st: StateView, other: Seq<char>)
    requires
        other != "WAYLAND_DISPLAY"@ && other != "DISPLAY"@ && other != "XAUTHORITY"@ && other
            != "XDG_RUNTIME_DIR"@,
    ensures
        last_set(display_settings(st), "WAYLAND_DISPLAY"@) == client_variable(
            st,
            "WAYLAND_DISPLAY"@,
        ),
        last_set(display_settings(st), "XAUTHORITY"@) == client_variable(st, "XAUTHORITY"@),
        last_set(display_settings(st), "XDG_RUNTIME_DIR"@) == client_variable(
            st,
            "XDG_RUNTIME_DIR"@,
        ),
        last_set(display_settings(st), "DISPLAY"@) == if st.display is Some {
            st.display
        } else {
            client_variable(st, "DISPLAY"@)
        },
        last_set(display_settings(st), other) is None,
{
    let w = "WAYLAND_DISPLAY"@;
    let d = "DISPLAY"@;
    let x = "XAUTHORITY"@;
    let r = "XDG_RUNTIME_DIR"@;
    reveal_strlit("WAYLAND_DISPLAY");
    reveal_strlit("DISPLAY");
    reveal_strlit("XAUTHORITY");
    reveal_strlit("XDG_RUNTIME_DIR");
    assert(w.len() == 15 && d.len() == 7 && x.len() == 10 && r.len() == 15);
    assert(w[0] == 'W' && r[0] == 'X');
    lemma_display(st, w);
    lemma_display(st, d);
    lemma_display(st, x);
    lemma_display(st, r);
    lemma_display(st, other);
}

proof fn lemma_display(st: StateView, name: Seq<char>)
    ensures
        last_set(display_settings(st), name) == if st.display is Some && name == "DISPLAY"@ {
            st.display
        } else if name == "XDG_RUNTIME_DIR"@ || name == "XAUTHORITY"@ || name == "DISPLAY"@ || name
            == "WAYLAND_DISPLAY"@ {
            client_variable(st, name)
        } else {
            None
        },
{
    let env = st.client_env;
    let a = taken_over(env, "WAYLAND_DISPLAY"@);
    let b = taken_over(env, "DISPLAY"@);
    let c = taken_over(env, "XAUTHORITY"@);
    let e = taken_over(env, "XDG_RUNTIME_DIR"@);
    let f = match st.display {
        Some(d) => seq![("DISPLAY"@, d)],
        None => seq![],
    };
    lemma_taken_over(env, "WAYLAND_DISPLAY"@, name);
    lemma_taken_over(env, "DISPLAY"@, name);
    lemma_taken_over(env, "XAUTHORITY"@, name);
    lemma_taken_over(env, "XDG_RUNTIME_DIR"@, name);
    lemma_last_set_join(a, b, name);
    lemma_last_set_join(a + b, c, name);
    lemma_last_set_join(a + b + c, e, name);
    lemma_last_set_join(a + b + c + e, f, name);
    reveal_with_fuel(last_set, 2);
    if st.display is Some {
        assert(f.last() == ("DISPLAY"@, st.display->0));
        assert(f.drop_last().len() == 0);
    }
}

} // verus!
