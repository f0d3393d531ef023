//! Text: what whitespace is, and how a text falls into words, lines and halves.

use vstd::prelude::*;

use crate::laws::screens::spaced;
use crate::text::{
    is_space, is_word, lemma_find_is, lemma_space_run_is, lemma_words_join,
    lemma_words_of_word, lines, lower_case, paragraphs, raw_lines, split_once,
    starts_with, trim, trim_end, trim_start, upper_case, words,
};

verus! {

/// What whitespace is: the space, the tab, the line feed and their kin, and the spaces of other
/// scripts.
pub proof fn law_what_whitespace_is(c: char)
    ensures
        is_space(c) <==> {
            ||| c == ' ' || c == '\t' || c == '\n' || c == '\r' || c == '\u{b}' || c == '\u{c}'
            ||| c == '\u{85}' || c == '\u{a0}' || c == '\u{1680}'
            ||| '\u{2000}' <= c <= '\u{200a}'
            ||| c == '\u{2028}' || c == '\u{2029}' || c == '\u{202f}' || c == '\u{205f}'
            ||| c == '\u{3000}'
        },
{
}

/// Whether a text is whitespace and nothing else.
pub open spec fn blank(s: Seq<char>) -> bool {
    forall|i: int| 0 <= i < s.len() ==> is_space(#[trigger] s[i])
}

/// Trimming takes off the whitespace at either end and nothing more.
pub proof fn law_trimming_takes_off_the_ends(a: Seq<char>, s: Seq<char>, b: Seq<char>)
    requires
        blank(a),
        blank(b),
        s.len() > 0 ==> !is_space(s[0]) && !is_space(s.last()),
    ensures
        trim(a + s + b) == s,
{
    let all = a + s + b;
    if s.len() == 0 {
        assert forall|i: int| 0 <= i < all.len() implies is_space(#[trigger] all[i]) by {
            if i < a.len() {
                assert(all[i] == a[i]);
            } else {
                assert(all[i] == b[i - a.len()]);
            }
        }
        lemma_space_run_is(all, all.len() as int);
        assert(trim_start(all) =~= s);
    } else {
        let n = a.len() as int;
        assert forall|i: int| 0 <= i < n implies is_space(#[trigger] all[i]) by {
            assert(all[i] == a[i]);
        }
        assert(all[n] == s[0]);
        lemma_space_run_is(all, n);
        assert(trim_start(all) =~= s + b);
        lemma_trim_end(s, b);
    }
}

proof fn lemma_trim_end(s: Seq<char>, b: Seq<char>)
    requires
        blank(b),
        s.len() > 0,
        !is_space(s.last()),
    ensures
        trim_end(s + b) == s,
    decreases b.len(),
{
    if b.len() == 0 {
        assert(s + b =~= s);
    } else {
        assert((s + b).drop_last() =~= s + b.drop_last());
        assert((s + b).last() == b[b.len() - 1]);
        lemma_trim_end(s, b.drop_last());
    }
}

/// Words that are put together with spaces are told apart again, and whitespace holds none.
pub proof fn law_words_are_told_apart(ws: Seq<Seq<char>>, gap: Seq<char>)
    requires
        forall|i: int| 0 <= i < ws.len() ==> is_word(#[trigger] ws[i]),
        blank(gap),
    ensures
        words(spaced(ws)) == ws,
        words(gap).len() == 0,
    decreases ws.len(),
{
    lemma_space_run_is(gap, gap.len() as int);
    assert(trim_start(gap) =~= Seq::<char>::empty());
    let none = Seq::<char>::empty();
    lemma_space_run_is(none, 0);
    if ws.len() == 0 {
        assert(words(spaced(ws)) =~= ws);
    } else if ws.len() == 1 {
        assert(is_word(ws[0]));
        lemma_words_of_word(ws[0]);
        assert(ws =~= seq![ws[0]]);
    } else {
        let r = ws.drop_last();
        assert forall|i: int| 0 <= i < r.len() implies is_word(#[trigger] r[i]) by {
            assert(r[i] == ws[i]);
        }
        law_words_are_told_apart(r, gap);
        assert(is_word(ws[ws.len() - 1]));
        lemma_words_of_word(ws.last());
        lemma_words_join(spaced(r), ' ', ws.last());
        assert(r + seq![ws.last()] =~= ws);
    }
}

/// A text is split at the first of a character, and not at all where there is none.
pub proof fn law_a_text_is_split_once(a: Seq<char>, c: char, b: Seq<char>)
    requires
        forall|i: int| 0 <= i < a.len() ==> #[trigger] a[i] != c,
    ensures
        split_once(a + seq![c] + b, c) == Some((a, b)),
        split_once(a, c) is None,
{
    let s = a + seq![c] + b;
    let n = a.len() as int;
    assert forall|i: int| 0 <= i < n implies #[trigger] s[i] != c by {
        assert(s[i] == a[i]);
    }
    assert(s[n] == c);
    lemma_find_is(s, c, n);
    lemma_find_is(a, c, n);
    assert(s.take(n) =~= a);
    assert(s.skip(n + 1) =~= b);
}

/// A text starts with what it was made to start with, and with nothing that differs from that.
pub proof fn law_a_text_starts_with_its_start(a: Seq<char>, b: Seq<char>, p: Seq<char>)
    requires
        p.len() == a.len(),
    ensures
        starts_with(a + b, a),
        starts_with(a + b, p) ==> p == a,
        b.len() > 0 ==> !starts_with(a, a + b),
{
    assert((a + b).take(a.len() as int) =~= a);
}

/// What is read of a line: the line without the line feed, or the carriage return and line feed,
/// that ends it.
pub open spec fn unended(line: Seq<char>) -> Seq<char> {
    if line.len() > 0 && line.last() == '\r' {
        line.drop_last()
    } else {
        line
    }
}

/// How a text falls into lines: each ends at a line feed, which does not belong to it, nor does
/// a carriage return before it; what follows the last line feed is a line if it is anything.
pub proof fn law_a_text_falls_into_lines(a: Seq<char>, b: Seq<char>)
    requires
        forall|i: int| 0 <= i < a.len() ==> #[trigger] a[i] != '\n',
    ensures
        lines(a + seq!['\n'] + b) == seq![unended(a)] + lines(b),
        a.len() > 0 ==> lines(a) == seq![a],
        lines(Seq::empty()).len() == 0,
{
    let s = a + seq!['\n'] + b;
    let n = a.len() as int;
    assert forall|i: int| 0 <= i < n implies #[trigger] s[i] != '\n' by {
        assert(s[i] == a[i]);
    }
    assert(s[n] == '\n');
    lemma_find_is(s, '\n', n);
    lemma_find_is(a, '\n', n);
    assert(s.take(n + 1) =~= a.push('\n'));
    assert(s.skip(n + 1) =~= b);
    assert(raw_lines(s) =~= seq![a.push('\n')] + raw_lines(b));
    assert(a.push('\n').drop_last() =~= a);
    assert(lines(s) =~= seq![unended(a)] + lines(b));
    if a.len() > 0 {
        assert(raw_lines(a) =~= seq![a]);
        assert(a[n - 1] != '\n');
        assert(lines(a) =~= seq![a]);
    }
}

/// How a text falls into paragraphs: at each line feed, and nowhere else.
pub proof fn law_a_text_falls_into_paragraphs(a: Seq<char>, b: Seq<char>)
    requires
        forall|i: int| 0 <= i < a.len() ==> #[trigger] a[i] != '\n',
    ensures
        paragraphs(a + seq!['\n'] + b) == seq![a] + paragraphs(b),
        paragraphs(a) == seq![a],
{
    let s = a + seq!['\n'] + b;
    let n = a.len() as int;
    assert forall|i: int| 0 <= i < n implies #[trigger] s[i] != '\n' by {
        assert(s[i] == a[i]);
    }
    assert(s[n] == '\n');
    lemma_find_is(s, '\n', n);
    lemma_find_is(a, '\n', n);
    assert(s.take(n) =~= a);
    assert(s.skip(n + 1) =~= b);
}

/// The letters from A to Z change their case and no other character does.
pub proof fn law_case_is_that_of_ascii_letters(s: Seq<char>, i: int)
    requires
        0 <= i < s.len(),
    ensures
        upper_case(s).len() == s.len(),
        lower_case(s).len() == s.len(),
        'a' <= s[i] <= 'z' ==> upper_case(s)[i] as u32 == s[i] as u32 - 32 && lower_case(s)[i]
            == s[i],
        'A' <= s[i] <= 'Z' ==> lower_case(s)[i] as u32 == s[i] as u32 + 32 && upper_case(s)[i]
            == s[i],
        !('a' <= s[i] <= 'z') && !('A' <= s[i] <= 'Z') ==> upper_case(s)[i] == s[i] && lower_case(
            s,
        )[i] == s[i],
{
}

} // verus!
