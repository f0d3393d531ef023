//! Making ward the pinentry gpg-agent runs.
//!
//! One line in one file, and the care is entirely in what it does NOT do. This is somebody's
//! gpg configuration: it may hold a cache lifetime they chose, a pinentry timeout, an
//! `no-allow-loopback-pinentry` they set on purpose. A tool that rewrites the file wholesale
//! to change one line will eventually delete something that mattered, and the person will
//! not find out until the thing it deleted was needed.

use vstd::prelude::*;

use crate::paths::{join, joined, named, named_by};
use crate::text::{
    chomp, chomped, ending, find, has_prefix, is_space, lemma_find, lemma_find_is, lemma_runs,
    lemma_space_run_is, lemma_word_run_is, lines, opt, opt_str, raw_lines, same, space, space_run,
    split_lines, split_raw_lines, starts_with, trim, trim_end, trim_start, trimmed, trimmed_start,
    views, without_prefix, word_run, words,
};

verus! {

/// The directory of the agent's configuration, from the values of `GNUPGHOME` and `HOME`.
pub open spec fn agent_conf(gnupghome: Option<Seq<char>>, home: Option<Seq<char>>) -> Seq<char> {
    match named(gnupghome) {
        Some(d) => joined(d, "gpg-agent.conf"@),
        None => match home {
            Some(h) => joined(joined(h, ".gnupg"@), "gpg-agent.conf"@),
            None => "gpg-agent.conf"@,
        },
    }
}

/// The agent's configuration file, from the values of `GNUPGHOME` and `HOME`.
pub fn conf_path(gnupghome: Option<&str>, home: Option<&str>) -> (path: String)
    ensures
        path@ == agent_conf(opt_str(gnupghome), opt_str(home)),
{
    match named_by(gnupghome) {
        Some(d) => join(d, "gpg-agent.conf"),
        None => match home {
            Some(h) => join(join(h, ".gnupg").as_str(), "gpg-agent.conf"),
            None => "gpg-agent.conf".to_string(),
        },
    }
}

/// The directive that names the pinentry.
pub open spec fn key() -> Seq<char> {
    "pinentry-program"@
}

/// The line that makes the agent run `program`.
pub open spec fn directive(program: Seq<char>) -> Seq<char> {
    key() + " "@ + program
}

/// The pinentry that a line names, if it does. A commented-out line names none: it is
/// somebody's note to themselves about what they used to run. Nor does an option whose name
/// only begins like the directive.
pub open spec fn value(line: Seq<char>) -> Option<Seq<char>> {
    let t = trim_start(chomp(line));
    if starts_with(t, key()) && t.len() > key().len() && is_space(t[key().len() as int]) && trim(
        t.skip(key().len() as int),
    ).len() > 0 {
        Some(trim(t.skip(key().len() as int)))
    } else {
        None
    }
}

/// The first pinentry that lines name.
pub open spec fn first_value(ls: Seq<Seq<char>>) -> Option<Seq<char>>
    decreases ls.len(),
{
    if ls.len() == 0 {
        None
    } else if value(ls[0]) is Some {
        value(ls[0])
    } else {
        first_value(ls.drop_first())
    }
}

/// A line that no longer counts. gpg-agent takes the last one it reads, so a duplicate left
/// behind would silently win; it is commented out rather than deleted, and says why.
pub open spec fn superseded(line: Seq<char>) -> Seq<char> {
    "# "@ + chomp(line) + "    (superseded by ward install)"@ + ending(line)
}

/// The lines with `want` in place of the first that names a pinentry, the others that name
/// one superseded, and the rest as they are. `replaced` tells whether the first is behind
/// already.
pub open spec fn rewritten(ls: Seq<Seq<char>>, want: Seq<char>, replaced: bool) -> Seq<Seq<char>>
    decreases ls.len(),
{
    if ls.len() == 0 {
        seq![]
    } else if value(ls[0]) is None {
        seq![ls[0]] + rewritten(ls.drop_first(), want, replaced)
    } else if replaced {
        seq![superseded(ls[0])] + rewritten(ls.drop_first(), want, true)
    } else {
        seq![want + ending(ls[0])] + rewritten(ls.drop_first(), want, true)
    }
}

/// Lines, one after the other.
pub open spec fn flat(ls: Seq<Seq<char>>) -> Seq<char>
    decreases ls.len(),
{
    if ls.len() == 0 {
        seq![]
    } else {
        ls[0] + flat(ls.drop_first())
    }
}

/// A text with a line feed at its end.
pub open spec fn terminated(s: Seq<char>) -> Seq<char> {
    if s.len() > 0 && s.last() == '\n' {
        s
    } else {
        s.push('\n')
    }
}

/// What stands before a line that is added at the end: the text, its last line ended, and a
/// blank line unless there is one already or there is nothing at all.
pub open spec fn before_addition(existing: Seq<char>) -> Seq<char> {
    let ls = raw_lines(existing);
    if ls.len() == 0 {
        seq![]
    } else if trim(chomp(ls.last())).len() > 0 {
        terminated(existing).push('\n')
    } else {
        terminated(existing)
    }
}

/// The configuration that makes the agent run `program`.
pub open spec fn configured(existing: Seq<char>, program: Seq<char>) -> Seq<char> {
    let ls = raw_lines(existing);
    let want = directive(program);
    if first_value(ls) is Some {
        terminated(flat(rewritten(ls, want, false)))
    } else {
        terminated(before_addition(existing) + want)
    }
}

/// The pinentry that a line names, if it does.
fn value_of(line: &str) -> (r: Option<String>)
    ensures
        opt(r) == value(line@),
{
    let t = trimmed_start(chomped(line));
    match without_prefix(t, "pinentry-program") {
        Some(rest) => {
            if rest.unicode_len() == 0 || !space(rest.get_char(0)) {
                return None;
            }
            let rest = trimmed(rest);
            if rest.unicode_len() > 0 {
                Some(rest.to_string())
            } else {
                None
            }
        },
        None => None,
    }
}

/// Whether a text ends in a line feed.
fn is_terminated(s: &str) -> (r: bool)
    ensures
        r == (s@.len() > 0 && s@.last() == '\n'),
{
    let n = s.unicode_len();
    n > 0 && s.get_char(n - 1) == '\n'
}

/// Rewrites the `pinentry-program` line and leaves every other byte alone.
///
/// Returns the new text and whatever the line used to say, so the caller can print the way
/// back. An install that cannot be undone from what it printed is an install nobody should
/// run on the program that unlocks their keys.
pub fn rewrite(existing: &str, program: &str) -> (r: (String, Option<String>))
    ensures
        r.0@ == configured(existing@, program@),
        opt(r.1) == first_value(raw_lines(existing@)),
{
    let mut want = "pinentry-program".to_string();
    want.append(" ");
    want.append(program);
    let raw = split_raw_lines(existing);
    let ghost all = raw_lines(existing@);
    let mut out = String::new();
    let mut previous: Option<String> = None;
    let mut i: usize = 0;
    assert(all.skip(0) =~= all);
    assert(out@ + flat(rewritten(all, want@, false)) =~= flat(rewritten(all, want@, false)));
    while i < raw.len()
        invariant
            views(raw@) == all,
            i <= raw@.len(),
            first_value(all) == match opt(previous) {
                Some(p) => Some(p),
                None => first_value(all.skip(i as int)),
            },
            flat(rewritten(all, want@, false)) == out@ + flat(
                rewritten(all.skip(i as int), want@, previous is Some),
            ),
            previous is None ==> out@ == flat(all.take(i as int)),
        decreases raw@.len() - i,
    {
        let ghost rest = all.skip(i as int);
        let ghost so_far = out@;
        let ghost replaced = previous is Some;
        let ghost next = rewritten(rest, want@, replaced);
        assert(rest.drop_first() =~= all.skip(i + 1));
        assert(rest[0] == raw@[i as int]@) by {
            assert(views(raw@)[i as int] == raw@[i as int]@);
        }
        let line = raw[i].as_str();
        match value_of(line) {
            None => {
                out.append(line);
                proof {
                    lemma_flat_join(all.take(i as int), seq![line@]);
                    assert(all.take(i as int) + seq![line@] =~= all.take(i + 1));
                    lemma_flat_one(line@);
                }
            },
            Some(p) => {
                let end = line_ending(line);
                if previous.is_some() {
                    out.append("# ");
                    out.append(chomped(line));
                    out.append("    (superseded by ward install)");
                } else {
                    out.append(want.as_str());
                    previous = Some(p);
                }
                out.append(end);
            },
        }
        assert(next.drop_first() =~= rewritten(rest.drop_first(), want@, previous is Some));
        assert(out@ =~= so_far + next[0]);
        assert(so_far + flat(next) =~= out@ + flat(next.drop_first()));
        i += 1;
    }
    assert(all.skip(i as int) =~= seq![]);
    assert(out@ + flat(rewritten(all.skip(i as int), want@, previous is Some)) =~= out@);
    if previous.is_none() {
        proof {
            assert(all.take(i as int) =~= all);
            lemma_lines_make_the_text(existing@);
        }
        if raw.len() > 0 {
            if !is_terminated(out.as_str()) {
                out.push('\n');
            }
            assert(raw@.last()@ == all.last()) by {
                assert(views(raw@)[raw@.len() - 1] == raw@[raw@.len() - 1]@);
            }
            let last = raw[raw.len() - 1].as_str();
            if trimmed(chomped(last)).unicode_len() > 0 {
                out.push('\n');
            }
        }
        out.append(want.as_str());
    }
    if !is_terminated(out.as_str()) {
        out.push('\n');
    }
    (out, previous)
}

/// The `\n` or `\r\n` that ends a line.
fn line_ending<'a>(line: &'a str) -> (r: &'a str)
    ensures
        r@ == ending(line@),
{
    let n = chomped(line).unicode_len();
    let r = line.substring_char(n, line.unicode_len());
    assert(r@ =~= ending(line@));
    r
}

proof fn lemma_flat_one(l: Seq<char>)
    ensures
        flat(seq![l]) == l,
{
    let rest = seq![l].drop_first();
    assert(rest.len() == 0);
    assert(flat(rest) =~= seq![]);
    assert(l + flat(rest) =~= l);
}

proof fn lemma_flat_join(a: Seq<Seq<char>>, b: Seq<Seq<char>>)
    ensures
        flat(a + b) == flat(a) + flat(b),
    decreases a.len(),
{
    if a.len() == 0 {
        assert(a + b =~= b);
        assert(flat(a) + flat(b) =~= flat(b));
    } else {
        lemma_flat_join(a.drop_first(), b);
        assert((a + b).drop_first() =~= a.drop_first() + b);
        assert(flat(a + b) =~= flat(a) + flat(b));
    }
}

proof fn lemma_lines_make_the_text(s: Seq<char>)
    ensures
        flat(raw_lines(s)) == s,
    decreases s.len(),
{
    if s.len() > 0 {
        lemma_find(s, '\n');
        let n = find(s, '\n');
        let ls = raw_lines(s);
        if n < s.len() {
            lemma_lines_make_the_text(s.skip(n + 1));
            assert(ls.drop_first() =~= raw_lines(s.skip(n + 1)));
            assert(flat(ls) =~= s);
        } else {
            lemma_flat_one(s);
        }
    }
}

/// A line: no line feed but at its end.
spec fn is_line(l: Seq<char>) -> bool {
    l.len() > 0 && forall|i: int| 0 <= i < l.len() - 1 ==> #[trigger] l[i] != '\n'
}

/// Lines of one text: only the last can be without a line feed.
spec fn proper(ls: Seq<Seq<char>>) -> bool {
    forall|i: int|
        0 <= i < ls.len() ==> is_line(#[trigger] ls[i]) && (i < ls.len() - 1 ==> ls[i].last()
            == '\n')
}

/// Every line with its line feed.
spec fn ended(ls: Seq<Seq<char>>) -> Seq<Seq<char>> {
    ls.map_values(|l: Seq<char>| terminated(l))
}

proof fn lemma_proper_rest(ls: Seq<Seq<char>>)
    requires
        proper(ls),
        ls.len() > 0,
    ensures
        proper(ls.drop_first()),
        is_line(ls[0]),
{
    let r = ls.drop_first();
    assert forall|i: int| 0 <= i < r.len() implies is_line(#[trigger] r[i]) && (i < r.len() - 1
        ==> r[i].last() == '\n') by {
        assert(r[i] == ls[i + 1]);
    }
}

proof fn lemma_raw_lines_are_proper(s: Seq<char>)
    ensures
        proper(raw_lines(s)),
        s.len() > 0 ==> raw_lines(s).len() > 0 && terminated(s) == s.take(
            s.len() - raw_lines(s).last().len(),
        ) + terminated(raw_lines(s).last()),
        s.len() > 0 ==> raw_lines(s).last().len() <= s.len(),
    decreases s.len(),
{
    if s.len() > 0 {
        lemma_find(s, '\n');
        let n = find(s, '\n');
        let ls = raw_lines(s);
        if n < s.len() {
            let t = s.skip(n + 1);
            lemma_raw_lines_are_proper(t);
            let r = raw_lines(t);
            assert(ls =~= seq![s.take(n + 1)] + r);
            assert forall|i: int| 0 <= i < ls.len() implies is_line(#[trigger] ls[i]) && (i
                < ls.len() - 1 ==> ls[i].last() == '\n') by {
                if i > 0 {
                    assert(ls[i] == r[i - 1]);
                }
            }
            if t.len() == 0 {
                assert(s.take(n + 1) =~= s);
                assert(terminated(s) =~= s.take(s.len() - ls.last().len()) + terminated(ls.last()));
            } else {
                assert(ls.last() == r.last());
                assert(terminated(s) =~= s.take(n + 1) + terminated(t));
                assert(terminated(s) =~= s.take(s.len() - ls.last().len()) + terminated(ls.last()));
            }
        } else {
            assert(terminated(s) =~= s.take(s.len() - ls.last().len()) + terminated(ls.last()));
        }
    }
}

/// Proper lines are the lines of the text that they make.
proof fn lemma_lines_of_lines(ls: Seq<Seq<char>>)
    requires
        proper(ls),
    ensures
        raw_lines(flat(ls)) == ls,
    decreases ls.len(),
{
    if ls.len() > 0 {
        lemma_proper_rest(ls);
        let r = ls.drop_first();
        lemma_lines_of_lines(r);
        let l = ls[0];
        let s = flat(ls);
        let n = l.len() - 1;
        if l.last() == '\n' {
            assert forall|i: int| 0 <= i < n implies #[trigger] s[i] != '\n' by {
                assert(s[i] == l[i]);
            }
            assert(s[n] == l[n]);
            lemma_find_is(s, '\n', n);
            assert(s.take(n + 1) =~= l);
            assert(s.skip(n + 1) =~= flat(r));
            assert(raw_lines(s) =~= ls);
        } else {
            assert(ls.len() == 1);
            assert(r =~= seq![]);
            assert(s =~= l);
            lemma_find_is(s, '\n', s.len() as int);
            assert(raw_lines(s) =~= ls);
        }
    }
}

/// Ending the text ends its last line; the others have their line feed already.
proof fn lemma_ended(ls: Seq<Seq<char>>)
    requires
        proper(ls),
        ls.len() > 0,
    ensures
        proper(ended(ls)),
        flat(ended(ls)) == terminated(flat(ls)),
    decreases ls.len(),
{
    let e = ended(ls);
    assert forall|i: int| 0 <= i < e.len() implies is_line(#[trigger] e[i]) && e[i].last()
        == '\n' by {
        assert(e[i] == terminated(ls[i]));
    }
    lemma_proper_rest(ls);
    let r = ls.drop_first();
    assert(e.drop_first() =~= ended(r));
    if r.len() == 0 {
        assert(flat(r) =~= seq![]);
        assert(flat(ended(r)) =~= seq![]);
        assert(flat(ls) =~= ls[0]);
        assert(flat(e) =~= terminated(flat(ls)));
    } else {
        lemma_ended(r);
        assert(is_line(r[0]));
        assert(flat(r).len() > 0);
        assert(terminated(ls[0]) == ls[0]);
        assert(flat(e) =~= terminated(flat(ls)));
    }
}

/// A space at the end is no part of what is left when the ends are trimmed.
proof fn lemma_trim_ignores_the_end(s: Seq<char>, c: char)
    requires
        is_space(c),
    ensures
        trim(s.push(c)) == trim(s),
        trim_start(s.push(c)) == if trim_start(s).len() == 0 {
            Seq::empty()
        } else {
            trim_start(s).push(c)
        },
{
    lemma_runs(s);
    let t = s.push(c);
    let k = space_run(s);
    if k == s.len() {
        assert forall|i: int| 0 <= i < t.len() implies is_space(#[trigger] t[i]) by {
            if i < s.len() {
                assert(t[i] == s[i]);
            }
        }
        lemma_space_run_is(t, t.len() as int);
        assert(trim_start(t) =~= Seq::empty());
        assert(trim_start(s) =~= Seq::empty());
    } else {
        assert forall|i: int| 0 <= i < k implies is_space(#[trigger] t[i]) by {
            assert(t[i] == s[i]);
        }
        assert(t[k] == s[k]);
        lemma_space_run_is(t, k);
        assert(trim_start(t) =~= trim_start(s).push(c));
        assert(trim_start(t).drop_last() =~= trim_start(s));
    }
}

/// A line feed more or less makes no difference to what a line names.
proof fn lemma_value_of_ended(l: Seq<char>)
    requires
        is_line(l),
    ensures
        value(terminated(l)) == value(l),
{
    if l.last() != '\n' {
        let e = terminated(l);
        assert(e.drop_last() =~= l);
        assert(chomp(l) == l);
        if l.last() == '\r' {
            let b = l.drop_last();
            assert(chomp(e) == b);
            assert(b.push('\r') =~= l);
            lemma_trim_ignores_the_end(b, '\r');
            let t = trim_start(b);
            let u = trim_start(l);
            reveal_strlit("pinentry-program");
            let k = key().len() as int;
            if t.len() > 0 {
                assert(u == t.push('\r'));
                if starts_with(u, key()) {
                    assert(key()[k - 1] == 'm');
                    assert(u.take(k)[k - 1] == u[k - 1]);
                    assert(t.len() >= k);
                }
                if t.len() >= k {
                    assert(u.take(k) =~= t.take(k));
                    assert(u.skip(k) =~= t.skip(k).push('\r'));
                    lemma_trim_ignores_the_end(t.skip(k), '\r');
                }
            }
        } else {
            assert(chomp(e) == l);
        }
    }
}

/// A program that a line can name: something, on one line, with no blank at either end.
pub open spec fn nameable(program: Seq<char>) -> bool {
    &&& program.len() > 0
    &&& !is_space(program[0])
    &&& !is_space(program.last())
    &&& !program.contains('\n')
}

/// The directive is on one line where the program is.
proof fn lemma_directive_line(program: Seq<char>)
    requires
        !program.contains('\n'),
    ensures
        !directive(program).contains('\n'),
        directive(program).len() > 0,
{
    reveal_strlit("pinentry-program");
    reveal_strlit(" ");
    let w = directive(program);
    let k = key().len() as int;
    assert forall|i: int| 0 <= i < w.len() implies #[trigger] w[i] != '\n' by {
        if i > k {
            assert(w[i] == program[i - k - 1]);
            assert(program.contains(program[i - k - 1]));
        }
    }
}

/// A blank before a program is no part of it.
proof fn lemma_blank_before(program: Seq<char>)
    requires
        nameable(program),
    ensures
        trim(seq![' '] + program) == program,
{
    let s = seq![' '] + program;
    assert(s[1] == program[0]);
    lemma_space_run_is(s, 1);
    assert(trim_start(s) =~= program);
}

/// The directive taken apart: no blank at either end, the key, and a blank before the program.
proof fn lemma_directive_parts(program: Seq<char>)
    requires
        nameable(program),
    ensures
        ({
            let w = directive(program);
            let k = key().len() as int;
            &&& w.len() > k
            &&& !is_space(w[0])
            &&& !is_space(w.last())
            &&& w.take(k) == key()
            &&& w[k] == ' '
            &&& w.skip(k) == seq![' '] + program
        }),
{
    reveal_strlit("pinentry-program");
    reveal_strlit(" ");
    let w = directive(program);
    let k = key().len() as int;
    assert(w[0] == 'p');
    assert(w.last() == program.last());
    assert(w.take(k) =~= key());
    assert(w.skip(k) =~= seq![' '] + program);
}

/// The directive names the program.
proof fn lemma_directive(program: Seq<char>)
    requires
        nameable(program),
    ensures
        value(directive(program)) == Some(program),
        chomp(directive(program)) == directive(program),
        !is_space(directive(program)[0]),
        !is_space(directive(program).last()),
{
    let w = directive(program);
    lemma_directive_parts(program);
    lemma_blank_before(program);
    lemma_space_run_is(w, 0);
    assert(trim_start(w) =~= w);
}

/// What ends a line is a line feed, a carriage return and one, or nothing.
proof fn lemma_ending(l: Seq<char>)
    requires
        is_line(l),
    ensures
        chomp(l) + ending(l) == l,
        !chomp(l).contains('\n'),
        ending(l) == seq!['\n'] || ending(l) == seq!['\r', '\n'] || ending(l) == Seq::<char>::empty(),
        ending(l).len() == 0 <==> l.last() != '\n',
{
    assert(chomp(l) + ending(l) =~= l);
    assert forall|i: int| 0 <= i < chomp(l).len() implies #[trigger] chomp(l)[i] != '\n' by {
        assert(chomp(l)[i] == l[i]);
    }
    if l.last() == '\n' {
        if ending(l).len() == 1 {
            assert(ending(l) =~= seq!['\n']);
        } else {
            assert(ending(l) =~= seq!['\r', '\n']);
        }
    } else {
        assert(ending(l) =~= Seq::<char>::empty());
    }
}

/// A body on one line and the ending of another line make a line.
proof fn lemma_line_of(body: Seq<char>, l: Seq<char>)
    requires
        is_line(l),
        body.len() > 0,
        !body.contains('\n'),
    ensures
        is_line(body + ending(l)),
        (body + ending(l)).last() == '\n' <==> l.last() == '\n',
{
    lemma_ending(l);
    let e = ending(l);
    let s = body + e;
    assert forall|i: int| 0 <= i < s.len() - 1 implies #[trigger] s[i] != '\n' by {
        if i < body.len() {
            assert(s[i] == body[i]);
            assert(body.contains(body[i]));
        } else {
            assert(s[i] == e[i - body.len()]);
        }
    }
    assert(body.contains(body.last()));
    if e.len() == 0 {
        assert(s =~= body);
    }
}

/// Where the body ends in no blank, the line has that body and that ending.
proof fn lemma_put_together(body: Seq<char>, l: Seq<char>)
    requires
        is_line(l),
        body.len() > 0,
        !body.contains('\n'),
        !is_space(body.last()),
    ensures
        is_line(body + ending(l)),
        chomp(body + ending(l)) == body,
        ending(body + ending(l)) == ending(l),
        (body + ending(l)).last() == '\n' <==> l.last() == '\n',
{
    lemma_line_of(body, l);
    lemma_ending(l);
    let e = ending(l);
    let s = body + e;
    if e.len() == 0 {
        assert(s =~= body);
    } else if e.len() == 1 {
        assert(s.drop_last() =~= body);
    } else {
        assert(s.drop_last().drop_last() =~= body);
        assert(s.drop_last().last() == '\r');
    }
    assert(chomp(s) =~= body);
    assert(ending(s) =~= e);
}

/// A superseded line names nothing.
proof fn lemma_superseded(l: Seq<char>)
    requires
        is_line(l),
    ensures
        is_line(superseded(l)),
        value(superseded(l)) is None,
        superseded(l).last() == '\n' <==> l.last() == '\n',
{
    reveal_strlit("# ");
    reveal_strlit("    (superseded by ward install)");
    reveal_strlit("pinentry-program");
    lemma_ending(l);
    let note = "    (superseded by ward install)"@;
    let body = "# "@ + chomp(l) + note;
    assert forall|i: int| 0 <= i < body.len() implies #[trigger] body[i] != '\n' by {
        if i < 2 {
        } else if i < 2 + chomp(l).len() {
            assert(body[i] == chomp(l)[i - 2]);
            assert(chomp(l).contains(chomp(l)[i - 2]));
        } else {
            assert(body[i] == note[i - 2 - chomp(l).len()]);
        }
    }
    assert(body.last() == ')');
    lemma_put_together(body, l);
    assert(body[0] == '#');
    lemma_space_run_is(body, 0);
    assert(trim_start(body) =~= body);
    assert(starts_with(body, key()) ==> body.take(key().len() as int)[0] == '#');
}

/// Lines as they are left behind: none names a pinentry but the one that holds `want`, and
/// that one does. `replaced` tells whether it is behind already.
spec fn settled(ls: Seq<Seq<char>>, want: Seq<char>, replaced: bool) -> bool
    decreases ls.len(),
{
    if ls.len() == 0 {
        replaced
    } else if value(ls[0]) is None {
        settled(ls.drop_first(), want, replaced)
    } else {
        !replaced && ls[0] == want + ending(ls[0]) && settled(ls.drop_first(), want, true)
    }
}

/// Settled lines are not changed again.
proof fn lemma_settled_stays(ls: Seq<Seq<char>>, want: Seq<char>, replaced: bool)
    requires
        settled(ls, want, replaced),
    ensures
        rewritten(ls, want, replaced) == ls,
        !replaced ==> first_value(ls) is Some,
    decreases ls.len(),
{
    if ls.len() > 0 {
        let r = value(ls[0]) is Some || replaced;
        lemma_settled_stays(ls.drop_first(), want, r);
        assert(rewritten(ls, want, replaced) =~= ls);
    } else {
        assert(rewritten(ls, want, replaced) =~= ls);
    }
}

/// Lines that name nothing before settled ones are settled with them.
proof fn lemma_settled_after(a: Seq<Seq<char>>, b: Seq<Seq<char>>, want: Seq<char>)
    requires
        first_value(a) is None,
        settled(b, want, false),
    ensures
        settled(a + b, want, false),
    decreases a.len(),
{
    if a.len() == 0 {
        assert(a + b =~= b);
    } else {
        lemma_settled_after(a.drop_first(), b, want);
        assert((a + b).drop_first() =~= a.drop_first() + b);
    }
}

/// What the rewritten lines are, line by line.
proof fn lemma_rewritten(ls: Seq<Seq<char>>, program: Seq<char>, replaced: bool)
    requires
        proper(ls),
        !program.contains('\n'),
    ensures
        ({
            let want = directive(program);
            let r = rewritten(ls, want, replaced);
            &&& proper(r)
            &&& r.len() == ls.len()
            &&& forall|i: int| 0 <= i < ls.len() && value(ls[i]) is None ==> #[trigger] r[i] == ls[i]
            &&& nameable(program) && (replaced || first_value(ls) is Some) ==> settled(
                ended(r),
                want,
                replaced,
            )
        }),
    decreases ls.len(),
{
    let want = directive(program);
    let r = rewritten(ls, want, replaced);
    if ls.len() > 0 {
        lemma_proper_rest(ls);
        lemma_directive_line(program);
        let l = ls[0];
        let named = value(l) is Some;
        let rest = ls.drop_first();
        lemma_rewritten(rest, program, replaced || named);
        let s = rewritten(rest, want, replaced || named);
        assert(r =~= seq![r[0]] + s);
        lemma_line_of(want, l);
        lemma_superseded(l);
        assert(is_line(r[0]) && (r[0].last() == '\n' <==> l.last() == '\n'));
        assert forall|i: int| 0 <= i < r.len() implies is_line(#[trigger] r[i]) && (i < r.len() - 1
            ==> r[i].last() == '\n') by {
            if i > 0 {
                assert(r[i] == s[i - 1]);
            } else {
                assert(ls[0].last() == '\n' || ls.len() == 1);
            }
        }
        assert forall|i: int| 0 <= i < ls.len() && value(ls[i]) is None implies #[trigger] r[i]
            == ls[i] by {
            if i > 0 {
                assert(ls[i] == rest[i - 1]);
                assert(r[i] == s[i - 1]);
            }
        }
        let e = ended(r);
        assert(e.drop_first() =~= ended(s));
        assert(e[0] == terminated(r[0]));
        lemma_value_of_ended(r[0]);
        if named && !replaced && nameable(program) {
            lemma_directive(program);
            lemma_put_together(want, l);
            // `want` and an ending stay that when the ending is completed.
            assert(value(r[0]) == value(want));
            assert(e[0] == want + ending(e[0])) by {
                if r[0].last() == '\n' {
                    assert(ending(r[0]) == ending(l));
                } else {
                    lemma_ending(l);
                    assert(r[0] =~= want);
                    assert(is_line(seq!['\n']));
                    assert(seq!['\n'].drop_last() =~= Seq::<char>::empty());
                    assert(ending(seq!['\n']) =~= seq!['\n']);
                    lemma_put_together(want, seq!['\n']);
                    assert(e[0] =~= want + seq!['\n']);
                }
            }
        }
    } else {
        assert(r =~= seq![]);
        assert(ended(r) =~= seq![]);
    }
}

/// The lines of the new configuration, and that they are settled.
proof fn lemma_configured(existing: Seq<char>, program: Seq<char>)
    requires
        !program.contains('\n'),
    ensures
        ({
            let before = raw_lines(existing);
            let after = raw_lines(configured(existing, program));
            &&& after.len() >= before.len()
            &&& forall|i: int|
                0 <= i < before.len() && value(before[i]) is None ==> #[trigger] after[i]
                    == terminated(before[i])
            &&& nameable(program) ==> settled(after, directive(program), false)
            &&& terminated(configured(existing, program)) == configured(existing, program)
        }),
{
    let before = raw_lines(existing);
    let want = directive(program);
    lemma_raw_lines_are_proper(existing);
    lemma_lines_make_the_text(existing);
    lemma_directive_line(program);
    if first_value(before) is Some {
        assert(before.len() > 0);
        let r = rewritten(before, want, false);
        lemma_rewritten(before, program, false);
        lemma_ended(r);
        lemma_lines_of_lines(ended(r));
        assert forall|i: int| 0 <= i < before.len() && value(before[i]) is None implies #[trigger] ended(
            r,
        )[i] == terminated(before[i]) by {
            assert(r[i] == before[i]);
        }
    } else {
        let last = seq![terminated(want)];
        let gap = if before.len() > 0 && trim(chomp(before.last())).len() > 0 {
            seq![seq!['\n']]
        } else {
            seq![]
        };
        let tail = gap + last;
        let all = ended(before) + tail;
        // The lines.
        assert(want.contains(want.last()));
        assert(terminated(want) =~= want + seq!['\n']);
        assert(seq!['\n'].drop_last() =~= Seq::<char>::empty());
        assert(is_line(seq!['\n']));
        assert(ending(seq!['\n']) =~= seq!['\n']);
        lemma_line_of(want, seq!['\n']);
        if before.len() > 0 {
            lemma_ended(before);
        }
        assert forall|i: int| 0 <= i < all.len() implies is_line(#[trigger] all[i]) && all[i].last()
            == '\n' by {
            if i < before.len() {
                assert(all[i] == terminated(before[i]));
                assert(is_line(before[i]));
            } else {
                assert(all[i] == tail[i - before.len()]);
            }
        }
        // Their text.
        lemma_flat_join(ended(before), tail);
        lemma_flat_join(gap, last);
        lemma_flat_one(terminated(want));
        lemma_flat_one(seq!['\n']);
        let n = configured(existing, program);
        if before.len() == 0 {
            assert(existing =~= seq![]);
            assert(flat(ended(before)) =~= seq![]);
        }
        assert(before_addition(existing) =~= flat(ended(before)) + flat(gap));
        assert(n =~= before_addition(existing) + terminated(want)) by {
            assert((before_addition(existing) + want).last() == want.last());
        }
        assert(n =~= flat(all));
        lemma_lines_of_lines(all);
        // They are settled.
        assert(nameable(program) ==> settled(last, want, false)) by {
            if nameable(program) {
                lemma_directive(program);
                lemma_put_together(want, seq!['\n']);
            }
            assert(last[0] == want + seq!['\n']);
            assert(nameable(program) ==> chomp(last[0]) == want);
            assert(nameable(program) ==> ending(last[0]) == seq!['\n']);
            assert(settled(last.drop_first(), want, true));
        }
        assert(first_value(gap) is None) by {
            if gap.len() > 0 {
                reveal_strlit("pinentry-program");
                assert(gap[0] == seq!['\n']);
                assert(chomp(gap[0]) =~= Seq::<char>::empty());
                lemma_runs(Seq::<char>::empty());
                assert(value(gap[0]) is None);
                assert(first_value(gap.drop_first()) is None);
            }
        }
        lemma_ended_values(before);
        if nameable(program) {
            lemma_settled_after(gap, last, want);
            lemma_settled_after(ended(before), tail, want);
        }
        assert forall|i: int| 0 <= i < before.len() && value(before[i]) is None implies #[trigger] all[i]
            == terminated(before[i]) by {}
    }
}

proof fn lemma_ended_values(ls: Seq<Seq<char>>)
    requires
        proper(ls),
    ensures
        first_value(ended(ls)) == first_value(ls),
    decreases ls.len(),
{
    let e = ended(ls);
    if ls.len() > 0 {
        lemma_proper_rest(ls);
        lemma_value_of_ended(ls[0]);
        lemma_ended_values(ls.drop_first());
        assert(e.drop_first() =~= ended(ls.drop_first()));
        assert(e[0] == terminated(ls[0]));
    } else {
        assert(e =~= ls);
    }
}

/// Whether a line is the directive: its first word is, and something follows.
pub open spec fn is_directive(line: Seq<char>) -> bool {
    words(chomp(line)).len() > 1 && words(chomp(line))[0] == key()
}

proof fn lemma_something_left(s: Seq<char>)
    requires
        s.len() > 0,
        !is_space(s[0]),
    ensures
        trim_end(s).len() > 0,
    decreases s.len(),
{
    if is_space(s.last()) {
        lemma_something_left(s.drop_last());
    }
}

/// Only the directive names a pinentry.
proof fn lemma_directives(line: Seq<char>)
    ensures
        value(line) is Some <==> is_directive(line),
{
    let c = chomp(line);
    let t = trim_start(c);
    let k = key().len() as int;
    reveal_strlit("pinentry-program");
    assert(forall|i: int| 0 <= i < k ==> !is_space(#[trigger] key()[i]));
    lemma_runs(c);
    lemma_runs(t);
    if t.len() > 0 {
        let n = word_run(t);
        let rest = t.skip(n);
        assert(words(c) =~= seq![t.take(n)] + words(rest));
        lemma_runs(rest);
        let r = trim_start(rest);
        if r.len() > 0 {
            lemma_something_left(r);
        }
        assert(words(rest).len() > 0 <==> trim(rest).len() > 0);
        if starts_with(t, key()) && t.len() > k && is_space(t[k]) {
            assert forall|i: int| 0 <= i < k implies !is_space(#[trigger] t[i]) by {
                assert(t[i] == t.take(k)[i]);
                assert(!is_space(key()[i]));
            }
            lemma_word_run_is(t, k);
        }
        if is_directive(line) {
            assert(t.take(n) == key());
            assert(n == k);
            assert(t.len() > k) by {
                if t.len() == k {
                    assert(rest.len() == 0);
                    assert(words(rest).len() == 0);
                }
            }
        }
    }
}

/// Every line but the directive is there afterwards, in its place, character for character: a
/// comment, another option, one whose name only begins like the directive. The most that
/// happens to one is that the last is given the line feed it lacked.
pub proof fn law_every_other_line_survives(existing: Seq<char>, program: Seq<char>, i: int)
    requires
        !program.contains('\n'),
        0 <= i < raw_lines(existing).len(),
        !is_directive(raw_lines(existing)[i]),
    ensures
        i < raw_lines(configured(existing, program)).len(),
        raw_lines(configured(existing, program))[i] == terminated(raw_lines(existing)[i]),
{
    lemma_directives(raw_lines(existing)[i]);
    lemma_configured(existing, program);
}

/// The pinentries that lines name, in order.
pub open spec fn values(ls: Seq<Seq<char>>) -> Seq<Seq<char>>
    decreases ls.len(),
{
    if ls.len() == 0 {
        seq![]
    } else {
        match value(ls[0]) {
            Some(v) => seq![v] + values(ls.drop_first()),
            None => values(ls.drop_first()),
        }
    }
}

proof fn lemma_settled_values(ls: Seq<Seq<char>>, program: Seq<char>, replaced: bool)
    requires
        proper(ls),
        nameable(program),
        settled(ls, directive(program), replaced),
    ensures
        values(ls) == if replaced {
            Seq::<Seq<char>>::empty()
        } else {
            seq![program]
        },
    decreases ls.len(),
{
    if ls.len() > 0 {
        lemma_proper_rest(ls);
        let named = value(ls[0]) is Some;
        lemma_settled_values(ls.drop_first(), program, replaced || named);
        if named {
            lemma_directive_line(program);
            lemma_directive(program);
            lemma_put_together(directive(program), ls[0]);
            assert(value(ls[0]) == value(directive(program)));
            assert(values(ls) =~= seq![program]);
        }
    }
}

/// Afterwards the configuration names one pinentry and no other: the one that was asked for.
pub proof fn law_one_pinentry_is_named(existing: Seq<char>, program: Seq<char>)
    requires
        nameable(program),
    ensures
        values(raw_lines(configured(existing, program))) == seq![program],
        first_value(raw_lines(configured(existing, program))) == Some(program),
{
    lemma_configured(existing, program);
    let after = raw_lines(configured(existing, program));
    lemma_raw_lines_are_proper(configured(existing, program));
    lemma_settled_values(after, program, false);
    lemma_first_of_values(after);
}

proof fn lemma_first_of_values(ls: Seq<Seq<char>>)
    ensures
        first_value(ls) == if values(ls).len() == 0 {
            None
        } else {
            Some(values(ls)[0])
        },
    decreases ls.len(),
{
    if ls.len() > 0 {
        lemma_first_of_values(ls.drop_first());
    }
}

/// Installing twice is installing once.
pub proof fn law_a_second_install_changes_nothing(existing: Seq<char>, program: Seq<char>)
    requires
        nameable(program),
    ensures
        configured(configured(existing, program), program) == configured(existing, program),
{
    lemma_configured(existing, program);
    let n = configured(existing, program);
    lemma_lines_make_the_text(n);
    lemma_settled_stays(raw_lines(n), directive(program), false);
}

/// Whether a text says that `program` is the pinentry, in just those words.
pub open spec fn says(text: Seq<char>, program: Seq<char>) -> bool {
    exists|i: int| 0 <= i < lines(text).len() && says_so(#[trigger] lines(text)[i], program)
}

/// Whether a line says that `program` is the pinentry.
pub open spec fn says_so(line: Seq<char>, program: Seq<char>) -> bool {
    !starts_with(trim_start(line), "#"@) && trim(line) == directive(program)
}

/// Whether the file, read back, holds the line that was to be written.
pub fn line_present(written: &str, program: &str) -> (r: bool)
    ensures
        r == says(written@, program@),
{
    let mut want = "pinentry-program".to_string();
    want.append(" ");
    want.append(program);
    let ls = split_lines(written);
    let mut i: usize = 0;
    while i < ls.len()
        invariant
            views(ls@) == lines(written@),
            want@ == directive(program@),
            i <= ls@.len(),
            forall|k: int| 0 <= k < i ==> !says_so(#[trigger] lines(written@)[k], program@),
        decreases ls@.len() - i,
    {
        let l = ls[i].as_str();
        assert(views(ls@)[i as int] == l@);
        if !has_prefix(trimmed_start(l), "#") && same(trimmed(l), want.as_str()) {
            assert(says_so(lines(written@)[i as int], program@));
            return true;
        }
        i += 1;
    }
    false
}

/// What reading the file came to.
pub enum Found {
    /// It says this.
    Text(String),
    /// There is no such file.
    Missing,
    /// It is there and could not be read, and why.
    Unreadable(String),
}

/// What the file says, or why the install has to stop. A file that is not there says nothing.
/// One that cannot be read says something that is not known, and replacing it would lose that.
pub fn existing_text(found: Found) -> (r: Result<String, String>)
    ensures
        match found {
            Found::Text(text) => r == Ok::<String, String>(text),
            Found::Missing => r matches Ok(text) && text@.len() == 0,
            Found::Unreadable(why) => r == Err::<String, String>(why),
        },
{
    match found {
        Found::Text(text) => Ok(text),
        Found::Missing => Ok(String::new()),
        Found::Unreadable(why) => Err(why),
    }
}

/// What an install is about to do.
pub struct Plan {
    /// What the user is told first.
    pub report: String,
    /// What is to be written to the file; nothing where there is nothing to change, or where
    /// the user only wanted to see it.
    pub text: Option<String>,
    /// The pinentry the file named before.
    pub previous: Option<String>,
}

/// What the user is told about the pinentry that was named before.
pub open spec fn was(previous: Option<Seq<char>>) -> Seq<char> {
    match previous {
        Some(p) => "was:     pinentry-program "@ + p + "\n"@,
        None => "was:     nothing (gpg-agent fell back to whatever `pinentry` resolves to)\n"@,
    }
}

/// What the user is told first.
pub open spec fn announcement(
    existing: Seq<char>,
    program: Seq<char>,
    path: Seq<char>,
    dry_run: bool,
) -> Seq<char> {
    let previous = first_value(raw_lines(existing));
    let file = "file:    "@ + path + "\n"@;
    if names_only(existing, program) {
        file + "already: "@ + program + "\n\nNothing to change.\n"@
    } else {
        let change = file + was(previous) + "now:     pinentry-program "@ + program + "\n"@;
        if dry_run {
            change + "\n--- the file as it would be written ---\n"@ + configured(existing, program)
                + "\n"@
        } else {
            change
        }
    }
}

/// Whether a configuration names `program` and no other pinentry. Naming it first is not
/// enough: gpg-agent takes the last one it reads.
pub open spec fn names_only(existing: Seq<char>, program: Seq<char>) -> bool {
    let named = values(raw_lines(existing));
    named.len() > 0 && forall|i: int| 0 <= i < named.len() ==> #[trigger] named[i] == program
}

/// Whether a configuration names `program` and no other pinentry.
pub fn already_set(existing: &str, program: &str) -> (r: bool)
    ensures
        r == names_only(existing@, program@),
{
    let raw = split_raw_lines(existing);
    let ghost all = raw_lines(existing@);
    let ghost mut found: Seq<Seq<char>> = Seq::empty();
    let mut named = false;
    let mut i: usize = 0;
    assert(all.skip(0) =~= all);
    assert(found + values(all) =~= values(all));
    while i < raw.len()
        invariant
            all == raw_lines(existing@),
            views(raw@) == all,
            i <= raw@.len(),
            values(all) == found + values(all.skip(i as int)),
            named == (found.len() > 0),
            forall|k: int| 0 <= k < found.len() ==> #[trigger] found[k] == program@,
        decreases raw@.len() - i,
    {
        let ghost rest = all.skip(i as int);
        assert(rest.drop_first() =~= all.skip(i + 1));
        assert(rest[0] == raw@[i as int]@) by {
            assert(views(raw@)[i as int] == raw@[i as int]@);
        }
        match value_of(raw[i].as_str()) {
            Some(p) => {
                proof {
                    assert(values(rest) == seq![p@] + values(rest.drop_first()));
                    assert(values(all)[found.len() as int] == p@);
                }
                if !same(p.as_str(), program) {
                    return false;
                }
                named = true;
                proof {
                    assert(found + values(rest) =~= found.push(p@) + values(rest.drop_first()));
                    found = found.push(p@);
                }
            },
            None => {},
        }
        i += 1;
    }
    assert(values(all.skip(i as int)) =~= seq![]);
    assert(values(all) =~= found);
    named
}

/// Decides what an install has to do to the file at `path`, which says `existing`.
pub fn plan(existing: &str, program: &str, path: &str, dry_run: bool) -> (p: Plan)
    ensures
        p.report@ == announcement(existing@, program@, path@, dry_run),
        opt(p.text) == if dry_run || names_only(existing@, program@) {
            None
        } else {
            Some(configured(existing@, program@))
        },
        opt(p.previous) == first_value(raw_lines(existing@)),
{
    let (text, previous) = rewrite(existing, program);
    let mut report = "file:    ".to_string();
    report.append(path);
    report.append("\n");
    if already_set(existing, program) {
        report.append("already: ");
        report.append(program);
        report.append("\n\nNothing to change.\n");
        return Plan { report, text: None, previous };
    }
    match &previous {
        Some(p) => {
            let ghost file = report@;
            report.append("was:     pinentry-program ");
            report.append(p.as_str());
            report.append("\n");
            assert(report@ =~= file + was(Some(p@)));
        },
        None => {
            report.append(
                "was:     nothing (gpg-agent fell back to whatever `pinentry` resolves to)\n",
            );
        },
    }
    report.append("now:     pinentry-program ");
    report.append(program);
    report.append("\n");
    if dry_run {
        report.append("\n--- the file as it would be written ---\n");
        report.append(text.as_str());
        report.append("\n");
        return Plan { report, text: None, previous };
    }
    Plan { report, text: Some(text), previous }
}

/// What the user is told before the agent is reloaded: written is not in force, and the agent
/// reads its configuration when it starts or when it is told to.
pub const RELOADING: &'static str =
    "
reloading the agent — every cached passphrase is dropped, so the next
gpg, pass or mail send will ask again. That is the reload, not a fault.
";

/// How an install ended.
pub struct Conclusion {
    /// What the user is told on standard output.
    pub report: String,
    /// What the user is told on standard error.
    pub complaint: String,
    /// The exit code.
    pub code: i32,
}

/// The way back.
pub open spec fn way_back(previous: Option<Seq<char>>) -> Seq<char> {
    match previous {
        Some(p) => "\nto go back:  pinentry-program "@ + p + "\n"@,
        None => "\nto go back:  remove the pinentry-program line\n"@,
    }
}

/// What the user is told when the file holds the line.
///
/// Only what has been established: the file holds the line, and the agent read it again.
/// That the agent will run ward cannot be known without a prompt, so the command that settles
/// it is left to the user.
pub open spec fn established(path: Seq<char>, previous: Option<Seq<char>>) -> Seq<char> {
    "\nthe file now names ward, and the agent re-read its configuration.\n"@
        + "whether it will actually run ward is only provable by asking for a passphrase:\n"@
        + "  gpg-connect-agent 'GETINFO version' /bye   # harmless, does not prompt\n"@
        + "  …then unlock anything (pass show, a signed commit) and watch for ward.\n"@ + way_back(
        previous,
    ) + "in "@ + path + ", then: gpg-connect-agent RELOADAGENT /bye\n"@
}

/// What the user is told when the file does not hold the line.
pub open spec fn missing(path: Seq<char>) -> Seq<char> {
    "\nthe line is NOT in the file after writing it — stop and look at "@ + path + "\n"@
}

/// Concludes an install from what the file says after it was written.
pub fn conclude(written: &str, program: &str, path: &str, previous: &Option<String>) -> (c:
    Conclusion)
    ensures
        says(written@, program@) ==> {
            &&& c.report@ == established(path@, opt(*previous))
            &&& c.complaint@.len() == 0
            &&& c.code == 0
        },
        !says(written@, program@) ==> {
            &&& c.report@.len() == 0
            &&& c.complaint@ == missing(path@)
            &&& c.code == 1
        },
{
    if !line_present(written, program) {
        let mut complaint =
            "\nthe line is NOT in the file after writing it — stop and look at ".to_string();
        complaint.append(path);
        complaint.append("\n");
        return Conclusion { report: String::new(), complaint, code: 1 };
    }
    let mut report =
        "\nthe file now names ward, and the agent re-read its configuration.\n".to_string();
    report.append(
        "whether it will actually run ward is only provable by asking for a passphrase:\n",
    );
    report.append("  gpg-connect-agent 'GETINFO version' /bye   # harmless, does not prompt\n");
    report.append("  …then unlock anything (pass show, a signed commit) and watch for ward.\n");
    let ghost before = report@;
    match previous {
        Some(p) => {
            report.append("\nto go back:  pinentry-program ");
            report.append(p.as_str());
            report.append("\n");
        },
        None => {
            report.append("\nto go back:  remove the pinentry-program line\n");
        },
    }
    assert(report@ =~= before + way_back(opt(*previous)));
    report.append("in ");
    report.append(path);
    report.append(", then: gpg-connect-agent RELOADAGENT /bye\n");
    Conclusion { report, complaint: String::new(), code: 0 }
}

proof fn lemma_settled_holds(ls: Seq<Seq<char>>, want: Seq<char>) -> (j: int)
    requires
        settled(ls, want, false),
    ensures
        0 <= j < ls.len(),
        ls[j] == want + ending(ls[j]),
    decreases ls.len(),
{
    if value(ls[0]) is None {
        let k = lemma_settled_holds(ls.drop_first(), want);
        assert(ls[k + 1] == ls.drop_first()[k]);
        k + 1
    } else {
        0
    }
}

/// A file that holds the new configuration passes the test that concludes an install.
pub proof fn law_the_new_line_is_found(existing: Seq<char>, program: Seq<char>)
    requires
        nameable(program),
    ensures
        says(configured(existing, program), program),
{
    lemma_configured(existing, program);
    let n = configured(existing, program);
    let ls = raw_lines(n);
    let want = directive(program);
    let j = lemma_settled_holds(ls, want);
    lemma_raw_lines_are_proper(n);
    lemma_directive_line(program);
    lemma_directive(program);
    assert(is_line(ls[j]));
    lemma_put_together(want, ls[j]);
    lemma_space_run_is(want, 0);
    assert(trim_start(want) =~= want);
    assert(trim(want) == want);
    assert(lines(n)[j] == want);
    assert(!starts_with(want, "#"@)) by {
        reveal_strlit("pinentry-program");
        reveal_strlit("#");
        assert(want[0] == 'p');
        assert(want.take(1)[0] == 'p');
    }
    assert(says_so(lines(n)[j], program));
}

/// An install that is not only shown leaves a configuration that names the program and no
/// other pinentry, whether it writes the file or finds nothing to change; so gpg-agent, which
/// takes the last one it reads, runs the program.
pub proof fn law_an_install_leaves_one_pinentry(existing: Seq<char>, program: Seq<char>)
    requires
        nameable(program),
    ensures
        ({
            let after = if names_only(existing, program) {
                existing
            } else {
                configured(existing, program)
            };
            &&& names_only(after, program)
            &&& values(raw_lines(after)).last() == program
        }),
{
    law_one_pinentry_is_named(existing, program);
}

/// What becomes of each line where one names a pinentry.
proof fn lemma_rewritten_at(ls: Seq<Seq<char>>, want: Seq<char>, replaced: bool, i: int)
    requires
        0 <= i < ls.len(),
    ensures
        rewritten(ls, want, replaced).len() == ls.len(),
        value(ls[i]) is None ==> rewritten(ls, want, replaced)[i] == ls[i],
        value(ls[i]) is Some && (replaced || exists|k: int|
            0 <= k < i && value(#[trigger] ls[k]) is Some) ==> rewritten(ls, want, replaced)[i]
            == superseded(ls[i]),
        value(ls[i]) is Some && !replaced && (forall|k: int|
            0 <= k < i ==> value(#[trigger] ls[k]) is None) ==> rewritten(ls, want, replaced)[i]
            == want + ending(ls[i]),
    decreases ls.len(),
{
    let rest = ls.drop_first();
    let behind = replaced || value(ls[0]) is Some;
    let r = rewritten(ls, want, replaced);
    let s = rewritten(rest, want, behind);
    assert(r =~= seq![r[0]] + s);
    if i > 0 {
        lemma_rewritten_at(rest, want, behind, i - 1);
        assert(r[i] == s[i - 1]);
        assert(rest[i - 1] == ls[i]);
        if exists|k: int| 0 <= k < i && value(#[trigger] ls[k]) is Some {
            let k = choose|k: int| 0 <= k < i && value(#[trigger] ls[k]) is Some;
            if k > 0 {
                assert(value(rest[k - 1]) is Some);
            }
        }
        if forall|k: int| 0 <= k < i ==> value(#[trigger] ls[k]) is None {
            assert forall|k: int| 0 <= k < i - 1 implies value(#[trigger] rest[k]) is None by {
                assert(rest[k] == ls[k + 1]);
            }
        }
    } else if rest.len() > 0 {
        lemma_rewritten_at(rest, want, behind, 0);
    } else {
        assert(s.len() == 0);
    }
}

proof fn lemma_no_first(ls: Seq<Seq<char>>)
    ensures
        first_value(ls) is None <==> forall|k: int|
            0 <= k < ls.len() ==> value(#[trigger] ls[k]) is None,
    decreases ls.len(),
{
    if ls.len() > 0 {
        let rest = ls.drop_first();
        lemma_no_first(rest);
        if first_value(ls) is None {
            assert forall|k: int| 0 <= k < ls.len() implies value(#[trigger] ls[k]) is None by {
                if k > 0 {
                    assert(ls[k] == rest[k - 1]);
                }
            }
        } else if forall|k: int| 0 <= k < ls.len() ==> value(#[trigger] ls[k]) is None {
            assert forall|k: int| 0 <= k < rest.len() implies value(#[trigger] rest[k]) is None by {
                assert(rest[k] == ls[k + 1]);
            }
            assert(value(ls[0]) is None);
        }
    }
}

/// The first directive is rewritten where it stands, with the ending it had; every later one is
/// commented out where it stands, says why, and still tells what it said; and no line is added
/// or lost.
pub proof fn law_the_directive_is_rewritten_in_place(
    existing: Seq<char>,
    program: Seq<char>,
    i: int,
    j: int,
)
    requires
        !program.contains('\n'),
        0 <= i < raw_lines(existing).len(),
        is_directive(raw_lines(existing)[i]),
        forall|k: int| 0 <= k < i ==> !is_directive(#[trigger] raw_lines(existing)[k]),
    ensures
        ({
            let before = raw_lines(existing);
            let after = raw_lines(configured(existing, program));
            &&& after.len() == before.len()
            &&& after[i] == terminated("pinentry-program "@ + program + ending(before[i]))
            &&& i < j < before.len() && is_directive(before[j]) ==> after[j] == terminated(
                "# "@ + chomp(before[j]) + "    (superseded by ward install)"@ + ending(before[j]),
            )
        }),
{
    let before = raw_lines(existing);
    let want = directive(program);
    assert forall|k: int| 0 <= k <= i || k == j implies (value(#[trigger] before[k]) is Some
        <==> is_directive(before[k])) by {
        lemma_directives(before[k]);
    }
    lemma_directives(before[i]);
    assert(value(before[i]) is Some);
    assert forall|k: int| 0 <= k < i implies value(#[trigger] before[k]) is None by {
        lemma_directives(before[k]);
    }
    lemma_no_first(before);
    let r = rewritten(before, want, false);
    lemma_raw_lines_are_proper(existing);
    lemma_rewritten(before, program, false);
    lemma_ended(r);
    lemma_lines_of_lines(ended(r));
    lemma_rewritten_at(before, want, false, i);
    reveal_strlit("pinentry-program");
    reveal_strlit(" ");
    reveal_strlit("pinentry-program ");
    assert("pinentry-program"@ + " "@ =~= "pinentry-program "@);
    if i < j < before.len() && is_directive(before[j]) {
        lemma_directives(before[j]);
        lemma_rewritten_at(before, want, false, j);
    }
}

/// Where there is no directive, one is added at the end: after a blank line unless the text ends
/// in one or is empty, and everything before it as it was.
pub proof fn law_a_directive_is_added_at_the_end(existing: Seq<char>, program: Seq<char>)
    requires
        nameable(program),
        forall|k: int|
            0 <= k < raw_lines(existing).len() ==> !is_directive(#[trigger] raw_lines(existing)[k]),
    ensures
        existing.len() == 0 ==> configured(existing, program) == "pinentry-program "@ + program
            + "\n"@,
        existing.len() > 0 && trim(chomp(raw_lines(existing).last())).len() > 0 ==> configured(
            existing,
            program,
        ) == terminated(existing) + "\n"@ + "pinentry-program "@ + program + "\n"@,
        existing.len() > 0 && trim(chomp(raw_lines(existing).last())).len() == 0 ==> configured(
            existing,
            program,
        ) == terminated(existing) + "pinentry-program "@ + program + "\n"@,
{
    let before = raw_lines(existing);
    assert forall|k: int| 0 <= k < before.len() implies value(#[trigger] before[k]) is None by {
        lemma_directives(before[k]);
    }
    lemma_no_first(before);
    reveal_strlit("pinentry-program");
    reveal_strlit(" ");
    reveal_strlit("\n");
    reveal_strlit("pinentry-program ");
    assert("pinentry-program"@ + " "@ =~= "pinentry-program "@);
    let want = directive(program);
    assert(want.last() == program.last());
    assert(want.last() != '\n') by {
        assert(program.contains(program[program.len() - 1]));
    }
    let start = before_addition(existing);
    assert((start + want).last() == want.last());
    assert(configured(existing, program) =~= start + want + "\n"@);
    if existing.len() > 0 {
        lemma_raw_lines_are_proper(existing);
        if trim(chomp(before.last())).len() > 0 {
            assert(start =~= terminated(existing) + "\n"@);
        }
    }
    assert(start + want + "\n"@ =~= start + "pinentry-program "@ + program + "\n"@);
    if existing.len() == 0 {
        assert(start + "pinentry-program "@ + program + "\n"@ =~= "pinentry-program "@ + program
            + "\n"@);
    }
}

/// Which pinentry a line names: what follows the word `pinentry-program`, without the blanks
/// around it, wherever the line starts; and a line that is no directive names none.
pub proof fn law_the_pinentry_that_a_line_names(
    a: Seq<char>,
    b: Seq<char>,
    program: Seq<char>,
    c: Seq<char>,
    line: Seq<char>,
)
    requires
        crate::laws::texts::blank(a),
        crate::laws::texts::blank(b),
        crate::laws::texts::blank(c),
        b.len() > 0,
        nameable(program),
        forall|i: int| 0 <= i < a.len() ==> #[trigger] a[i] != '\n',
        forall|i: int| 0 <= i < c.len() ==> #[trigger] c[i] != '\n',
        !is_directive(line),
    ensures
        value(a + "pinentry-program"@ + b + program + c) == Some(program),
        value(a + "pinentry-program"@ + b + program + c + "\n"@) == Some(program),
        value(line) is None,
{
    lemma_directives(line);
    reveal_strlit("pinentry-program");
    let k = key().len() as int;
    let rest = b + program + c;
    let s = a + key() + b + program + c;
    let t = key() + rest;
    if c.len() == 0 {
        assert(s.last() == program.last());
        assert(program.contains(program[program.len() - 1]));
    } else {
        assert(s.last() == c[c.len() - 1]);
    }
    assert(chomp(s) == s);
    assert forall|i: int| 0 <= i < a.len() implies is_space(#[trigger] s[i]) by {
        assert(s[i] == a[i]);
    }
    assert(s[a.len() as int] == 'p');
    lemma_space_run_is(s, a.len() as int);
    assert(trim_start(s) =~= t);
    assert(t.take(k) =~= key());
    assert(t.skip(k) =~= rest);
    assert(t[k] == b[0]);
    crate::laws::texts::law_trimming_takes_off_the_ends(b, program, c);
    reveal_strlit("\n");
    let e = s + "\n"@;
    assert(e.last() == '\n');
    assert(e.drop_last() =~= s);
    if s.last() == '\r' {
        assert(is_space(program.last()) || c.len() > 0);
        let d = c.drop_last();
        assert(chomp(e) =~= a + key() + b + program + d);
        let u = key() + (b + program + d);
        let x = chomp(e);
        assert forall|i: int| 0 <= i < a.len() implies is_space(#[trigger] x[i]) by {
            assert(x[i] == a[i]);
        }
        assert(x[a.len() as int] == 'p');
        lemma_space_run_is(x, a.len() as int);
        assert(trim_start(x) =~= u);
        assert(u.take(k) =~= key());
        assert(u.skip(k) =~= b + program + d);
        assert(u[k] == b[0]);
        crate::laws::texts::law_trimming_takes_off_the_ends(b, program, d);
    } else {
        assert(chomp(e) == s);
    }
}

/// How a line ends: in a line feed, in a carriage return and a line feed, or in nothing.
pub proof fn law_how_a_line_ends(body: Seq<char>)
    requires
        forall|i: int| 0 <= i < body.len() ==> #[trigger] body[i] != '\n' && body[i] != '\r',
    ensures
        chomp(body) == body && ending(body).len() == 0,
        chomp(body + "\n"@) == body && ending(body + "\n"@) == "\n"@,
        chomp(body + "\r\n"@) == body && ending(body + "\r\n"@) == "\r\n"@,
        terminated(body) == body + "\n"@,
        terminated(body + "\n"@) == body + "\n"@,
        terminated(body + "\r\n"@) == body + "\r\n"@,
{
    reveal_strlit("\n");
    reveal_strlit("\r\n");
    let a = body + "\n"@;
    let b = body + "\r\n"@;
    if body.len() > 0 {
        assert(body[body.len() - 1] != '\n');
    }
    assert(a.last() == '\n');
    assert(a.drop_last() =~= body);
    assert(b.last() == '\n');
    assert(b.drop_last().last() == '\r');
    assert(b.drop_last().drop_last() =~= body);
    assert(ending(a) =~= "\n"@);
    assert(ending(b) =~= "\r\n"@);
    assert(terminated(body) =~= body + "\n"@);
}

/// What the user is told before anything is done.
pub proof fn law_what_the_user_is_told_first(
    existing: Seq<char>,
    program: Seq<char>,
    path: Seq<char>,
)
    ensures
        ({
            let file = "file:    "@ + path + "\n"@;
            let was = match first_value(raw_lines(existing)) {
                Some(p) => "was:     pinentry-program "@ + p + "\n"@,
                None => "was:     nothing (gpg-agent fell back to whatever `pinentry` resolves to)\n"@,
            };
            let now = "now:     pinentry-program "@ + program + "\n"@;
            let shown = "\n--- the file as it would be written ---\n"@ + configured(
                existing,
                program,
            ) + "\n"@;
            &&& names_only(existing, program) ==> forall|dry_run: bool| #[trigger]
                announcement(existing, program, path, dry_run) == file + "already: "@ + program
                    + "\n\nNothing to change.\n"@
            &&& !names_only(existing, program) ==> announcement(existing, program, path, false)
                == file + was + now
            &&& !names_only(existing, program) ==> announcement(existing, program, path, true)
                == file + was + now + shown
        }),
{
    let file = "file:    "@ + path + "\n"@;
    let was = was(first_value(raw_lines(existing)));
    let now = "now:     pinentry-program "@ + program + "\n"@;
    let shown = "\n--- the file as it would be written ---\n"@ + configured(existing, program)
        + "\n"@;
    if !names_only(existing, program) {
        assert(announcement(existing, program, path, false) =~= file + was + now);
        assert(announcement(existing, program, path, true) =~= file + was + now + shown);
    }
}

/// The user is told the way back, whatever the file named before: which line to put back, or
/// that the line is to be removed, and in which file.
pub proof fn law_the_user_is_told_the_way_back(path: Seq<char>, p: Seq<char>)
    ensures
        ({
            let done = "\nthe file now names ward, and the agent re-read its configuration.\n"@
                + "whether it will actually run ward is only provable by asking for a passphrase:\n"@
                + "  gpg-connect-agent 'GETINFO version' /bye   # harmless, does not prompt\n"@
                + "  …then unlock anything (pass show, a signed commit) and watch for ward.\n"@;
            let file = "in "@ + path + ", then: gpg-connect-agent RELOADAGENT /bye\n"@;
            &&& established(path, Some(p)) == done + ("\nto go back:  pinentry-program "@ + p
                + "\n"@) + file
            &&& established(path, None) == done
                + "\nto go back:  remove the pinentry-program line\n"@ + file
            &&& missing(path)
                == "\nthe line is NOT in the file after writing it — stop and look at "@ + path
                + "\n"@
        }),
{
    let done = "\nthe file now names ward, and the agent re-read its configuration.\n"@
        + "whether it will actually run ward is only provable by asking for a passphrase:\n"@
        + "  gpg-connect-agent 'GETINFO version' /bye   # harmless, does not prompt\n"@
        + "  …then unlock anything (pass show, a signed commit) and watch for ward.\n"@;
    let file = "in "@ + path + ", then: gpg-connect-agent RELOADAGENT /bye\n"@;
    assert(established(path, Some(p)) =~= done + way_back(Some(p)) + file);
    assert(established(path, None) =~= done + way_back(None) + file);
}

/// Where the agent's configuration lies: under `GNUPGHOME` where that names a directory, else
/// under `.gnupg` in the home directory.
pub proof fn law_where_the_configuration_lies(
    dir: Seq<char>,
    home: Seq<char>,
    other: Option<Seq<char>>,
)
    requires
        dir.len() > 0 && dir.last() != '/',
        home.len() > 0 && home.last() != '/',
    ensures
        agent_conf(Some(dir), other) == dir + "/gpg-agent.conf"@,
        agent_conf(None, Some(home)) == home + "/.gnupg/gpg-agent.conf"@,
        agent_conf(Some(Seq::empty()), Some(home)) == home + "/.gnupg/gpg-agent.conf"@,
        agent_conf(None, None) == "gpg-agent.conf"@,
{
    reveal_strlit("/");
    reveal_strlit(".gnupg");
    reveal_strlit("gpg-agent.conf");
    reveal_strlit("/gpg-agent.conf");
    reveal_strlit("/.gnupg/gpg-agent.conf");
    assert(agent_conf(Some(dir), other) =~= dir + "/gpg-agent.conf"@);
    assert((home + "/"@ + ".gnupg"@).last() == 'g');
    assert(agent_conf(None, Some(home)) =~= home + "/.gnupg/gpg-agent.conf"@);
}

/// The file is found to hold the line exactly where one of its lines is the directive, with
/// nothing but blanks around it.
pub proof fn law_the_line_is_looked_for(text: Seq<char>, program: Seq<char>)
    ensures
        says(text, program) <==> exists|i: int|
            0 <= i < lines(text).len() && trim(#[trigger] lines(text)[i]) == "pinentry-program "@
                + program,
{
    reveal_strlit("pinentry-program");
    reveal_strlit(" ");
    reveal_strlit("#");
    reveal_strlit("pinentry-program ");
    assert("pinentry-program"@ + " "@ =~= "pinentry-program "@);
    let want = directive(program);
    assert(want[0] == 'p');
    if exists|i: int| 0 <= i < lines(text).len() && trim(#[trigger] lines(text)[i]) == want {
        let i = choose|i: int| 0 <= i < lines(text).len() && trim(#[trigger] lines(text)[i]) == want;
        let l = lines(text)[i];
        let t = trim_start(l);
        lemma_starts(t);
        assert(t[0] == 'p');
        assert(t.take(1)[0] == 'p');
        assert("#"@[0] == '#');
        assert(says_so(l, program));
    }
}

proof fn lemma_starts(s: Seq<char>)
    requires
        trim_end(s).len() > 0,
    ensures
        s.len() > 0,
        s[0] == trim_end(s)[0],
    decreases s.len(),
{
    if s.len() > 0 && is_space(s.last()) {
        lemma_starts(s.drop_last());
    }
}

/// The pinentry that was named before is the one that the first directive names, and there was
/// none where there is no directive.
pub proof fn law_the_first_directive_tells_what_was_named(ls: Seq<Seq<char>>, i: int)
    requires
        0 <= i <= ls.len(),
        forall|k: int| 0 <= k < i ==> !is_directive(#[trigger] ls[k]),
        i < ls.len() ==> is_directive(ls[i]),
    ensures
        i < ls.len() ==> first_value(ls) == value(ls[i]) && value(ls[i]) is Some,
        i == ls.len() ==> first_value(ls) is None,
    decreases ls.len(),
{
    if ls.len() > 0 {
        lemma_directives(ls[0]);
        if i > 0 {
            assert(!is_directive(ls[0]));
            let rest = ls.drop_first();
            assert forall|k: int| 0 <= k < i - 1 implies !is_directive(#[trigger] rest[k]) by {
                assert(rest[k] == ls[k + 1]);
            }
            law_the_first_directive_tells_what_was_named(rest, i - 1);
        }
    }
}

} // verus!
