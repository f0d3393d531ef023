//! Text, as the protocol and the configuration files use it: whitespace, words, lines,
//! numbers. Strings are modelled as sequences of characters, so nothing here can cut a
//! character in half.

use vstd::prelude::*;
use vstd::utf8::encode_utf8;

verus! {

/// `String::push` of the standard library: the character is appended to the end of the
/// string, and what was there stays.
pub assume_specification[ String::push ](s: &mut String, c: char)
    ensures
        final(s)@ == old(s)@.push(c),
;

/// The characters that Unicode calls `White_Space`.
pub open spec fn is_space(c: char) -> bool {
    let n = c as u32;
    ||| 0x09 <= n <= 0x0d
    ||| n == 0x20
    ||| n == 0x85
    ||| n == 0xa0
    ||| n == 0x1680
    ||| 0x2000 <= n <= 0x200a
    ||| n == 0x2028
    ||| n == 0x2029
    ||| n == 0x202f
    ||| n == 0x205f
    ||| n == 0x3000
}

/// How many whitespace characters `s` starts with.
pub open spec fn space_run(s: Seq<char>) -> int
    decreases s.len(),
{
    if s.len() > 0 && is_space(s[0]) {
        1 + space_run(s.drop_first())
    } else {
        0
    }
}

/// How many characters stand before the first whitespace of `s`.
pub open spec fn word_run(s: Seq<char>) -> int
    decreases s.len(),
{
    if s.len() > 0 && !is_space(s[0]) {
        1 + word_run(s.drop_first())
    } else {
        0
    }
}

/// Where `c` first occurs in `s`, or the length of `s` if it does not.
pub open spec fn find(s: Seq<char>, c: char) -> int
    decreases s.len(),
{
    if s.len() > 0 && s[0] != c {
        1 + find(s.drop_first(), c)
    } else {
        0
    }
}

/// `s` without the whitespace it starts with.
pub open spec fn trim_start(s: Seq<char>) -> Seq<char> {
    s.skip(space_run(s))
}

/// `s` without the whitespace it ends with.
pub open spec fn trim_end(s: Seq<char>) -> Seq<char>
    decreases s.len(),
{
    if s.len() > 0 && is_space(s.last()) {
        trim_end(s.drop_last())
    } else {
        s
    }
}

/// `s` without the whitespace at either end.
pub open spec fn trim(s: Seq<char>) -> Seq<char> {
    trim_end(trim_start(s))
}

/// The pieces of `s` between runs of whitespace.
pub open spec fn words(s: Seq<char>) -> Seq<Seq<char>>
    decreases s.len(),
    via words_decreases
{
    let t = trim_start(s);
    if t.len() == 0 {
        seq![]
    } else {
        seq![t.take(word_run(t))] + words(t.skip(word_run(t)))
    }
}

#[via_fn]
proof fn words_decreases(s: Seq<char>) {
    lemma_runs(s);
    let t = trim_start(s);
    lemma_runs(t);
}

/// The pieces of `s` between line feeds, however many there are: one more than the line
/// feeds.
pub open spec fn paragraphs(s: Seq<char>) -> Seq<Seq<char>>
    decreases s.len(),
    via paragraphs_decreases
{
    if find(s, '\n') < s.len() {
        seq![s.take(find(s, '\n'))] + paragraphs(s.skip(find(s, '\n') + 1))
    } else {
        seq![s]
    }
}

#[via_fn]
proof fn paragraphs_decreases(s: Seq<char>) {
    lemma_find(s, '\n');
}

/// The lines of `s`, each with the line feed that ends it. Only the last can be without.
pub open spec fn raw_lines(s: Seq<char>) -> Seq<Seq<char>>
    decreases s.len(),
    via raw_lines_decreases
{
    if s.len() == 0 {
        seq![]
    } else if find(s, '\n') < s.len() {
        seq![s.take(find(s, '\n') + 1)] + raw_lines(s.skip(find(s, '\n') + 1))
    } else {
        seq![s]
    }
}

#[via_fn]
proof fn raw_lines_decreases(s: Seq<char>) {
    lemma_find(s, '\n');
}

/// What a line says, without the `\n` or `\r\n` that ends it.
pub open spec fn chomp(line: Seq<char>) -> Seq<char> {
    if line.len() > 0 && line.last() == '\n' {
        let body = line.drop_last();
        if body.len() > 0 && body.last() == '\r' {
            body.drop_last()
        } else {
            body
        }
    } else {
        line
    }
}

/// The `\n` or `\r\n` that ends a line, or nothing.
pub open spec fn ending(line: Seq<char>) -> Seq<char> {
    line.skip(chomp(line).len() as int)
}

/// What the lines of `s` say.
pub open spec fn lines(s: Seq<char>) -> Seq<Seq<char>> {
    raw_lines(s).map_values(|l: Seq<char>| chomp(l))
}

/// `s` split at the first `c`, which belongs to neither half.
pub open spec fn split_once(s: Seq<char>, c: char) -> Option<(Seq<char>, Seq<char>)> {
    if find(s, c) < s.len() {
        Some((s.take(find(s, c)), s.skip(find(s, c) + 1)))
    } else {
        None
    }
}

/// Whether `s` starts with `prefix`.
pub open spec fn starts_with(s: Seq<char>, prefix: Seq<char>) -> bool {
    prefix.len() <= s.len() && s.take(prefix.len() as int) == prefix
}

/// The strings of a vector, as character sequences.
pub open spec fn views(v: Seq<String>) -> Seq<Seq<char>> {
    v.map_values(|s: String| s@)
}

/// An optional string, as an optional character sequence.
pub open spec fn opt(s: Option<String>) -> Option<Seq<char>> {
    match s {
        Some(t) => Some(t@),
        None => None,
    }
}

/// An optional string slice, as an optional character sequence.
pub open spec fn opt_str(s: Option<&str>) -> Option<Seq<char>> {
    match s {
        Some(t) => Some(t@),
        None => None,
    }
}

pub proof fn lemma_runs(s: Seq<char>)
    ensures
        0 <= space_run(s) <= s.len(),
        0 <= word_run(s) <= s.len(),
        forall|i: int| 0 <= i < space_run(s) ==> is_space(#[trigger] s[i]),
        forall|i: int| 0 <= i < word_run(s) ==> !is_space(#[trigger] s[i]),
        space_run(s) < s.len() ==> !is_space(s[space_run(s)]),
        word_run(s) < s.len() ==> is_space(s[word_run(s)]),
        s.len() > 0 && !is_space(s[0]) ==> word_run(s) > 0,
    decreases s.len(),
{
    if s.len() > 0 {
        lemma_runs(s.drop_first());
        let r = s.drop_first();
        assert forall|i: int| 0 <= i < space_run(s) implies is_space(#[trigger] s[i]) by {
            if i > 0 {
                assert(s[i] == r[i - 1]);
            }
        }
        assert forall|i: int| 0 <= i < word_run(s) implies !is_space(#[trigger] s[i]) by {
            if i > 0 {
                assert(s[i] == r[i - 1]);
            }
        }
    }
}

pub proof fn lemma_find(s: Seq<char>, c: char)
    ensures
        0 <= find(s, c) <= s.len(),
        forall|i: int| 0 <= i < find(s, c) ==> #[trigger] s[i] != c,
        find(s, c) < s.len() ==> s[find(s, c)] == c,
    decreases s.len(),
{
    if s.len() > 0 && s[0] != c {
        let r = s.drop_first();
        lemma_find(r, c);
        assert forall|i: int| 0 <= i < find(s, c) implies #[trigger] s[i] != c by {
            if i > 0 {
                assert(s[i] == r[i - 1]);
            }
        }
    }
}

/// `find` is the only place that has `c` and no `c` before it.
pub proof fn lemma_find_is(s: Seq<char>, c: char, n: int)
    requires
        0 <= n <= s.len(),
        forall|i: int| 0 <= i < n ==> #[trigger] s[i] != c,
        n < s.len() ==> s[n] == c,
    ensures
        find(s, c) == n,
{
    lemma_find(s, c);
    if find(s, c) < n {
        assert(s[find(s, c)] != c);
    } else if n < find(s, c) {
        assert(s[n] != c);
    }
}

/// `space_run` is the only length of a run of whitespace that no whitespace follows.
pub proof fn lemma_space_run_is(s: Seq<char>, n: int)
    requires
        0 <= n <= s.len(),
        forall|i: int| 0 <= i < n ==> is_space(#[trigger] s[i]),
        n < s.len() ==> !is_space(s[n]),
    ensures
        space_run(s) == n,
{
    lemma_runs(s);
    if space_run(s) < n {
        assert(is_space(s[space_run(s)]));
    } else if n < space_run(s) {
        assert(is_space(s[n]));
    }
}

/// `word_run` is the only length of a run without whitespace that whitespace follows.
pub proof fn lemma_word_run_is(s: Seq<char>, n: int)
    requires
        0 <= n <= s.len(),
        forall|i: int| 0 <= i < n ==> !is_space(#[trigger] s[i]),
        n < s.len() ==> is_space(s[n]),
    ensures
        word_run(s) == n,
{
    lemma_runs(s);
    if word_run(s) < n {
        assert(!is_space(s[word_run(s)]));
    } else if n < word_run(s) {
        assert(!is_space(s[n]));
    }
}

/// Whether a character is whitespace.
pub fn space(c: char) -> (r: bool)
    ensures
        r == is_space(c),
{
    let n: u32 = c as u32;
    (0x09 <= n && n <= 0x0d) || n == 0x20 || n == 0x85 || n == 0xa0 || n == 0x1680 || (0x2000 <= n
        && n <= 0x200a) || n == 0x2028 || n == 0x2029 || n == 0x202f || n == 0x205f || n == 0x3000
}

/// The characters of a string.
pub fn chars_of(s: &str) -> (v: Vec<char>)
    ensures
        v@ == s@,
{
    let mut v: Vec<char> = Vec::new();
    for c in it: s.chars()
        invariant
            v@ == it.seq().take(it.index()),
            it.seq() == s@,
    {
        v.push(c);
    }
    v
}

/// The string that a stretch of characters spells.
pub fn text_of(v: &Vec<char>, from: usize, to: usize) -> (s: String)
    requires
        from <= to <= v@.len(),
    ensures
        s@ == v@.subrange(from as int, to as int),
{
    let mut s = String::new();
    let mut i: usize = from;
    while i < to
        invariant
            from <= i <= to <= v@.len(),
            s@ == v@.subrange(from as int, i as int),
        decreases to - i,
    {
        s.push(v[i]);
        i += 1;
        assert(s@ =~= v@.subrange(from as int, i as int));
    }
    s
}

/// Whether two strings are the same.
pub fn same(a: &str, b: &str) -> (r: bool)
    ensures
        r == (a@ == b@),
{
    let x = a.as_bytes();
    let y = b.as_bytes();
    proof {
        vstd::utf8::encode_utf8_decode_utf8(a@);
        vstd::utf8::encode_utf8_decode_utf8(b@);
    }
    if x.len() != y.len() {
        return false;
    }
    let mut i: usize = 0;
    while i < x.len()
        invariant
            x@ == encode_utf8(a@),
            y@ == encode_utf8(b@),
            x@.len() == y@.len(),
            i <= x@.len(),
            forall|j: int| 0 <= j < i ==> x@[j] == y@[j],
        decreases x@.len() - i,
    {
        if x[i] != y[i] {
            return false;
        }
        i += 1;
    }
    assert(x@ =~= y@);
    true
}

/// The end of the whitespace that stands at `from`.
pub fn skip_spaces(v: &Vec<char>, from: usize) -> (end: usize)
    requires
        from <= v@.len(),
    ensures
        end == from + space_run(v@.skip(from as int)),
        from <= end <= v@.len(),
        end < v@.len() ==> !is_space(v@[end as int]),
{
    let mut i: usize = from;
    while i < v.len() && space(v[i])
        invariant
            from <= i <= v@.len(),
            forall|j: int| from <= j < i ==> is_space(#[trigger] v@[j]),
        decreases v@.len() - i,
    {
        i += 1;
    }
    proof {
        lemma_space_run_is(v@.skip(from as int), i - from);
    }
    i
}

/// The end of the word that stands at `from`.
pub fn skip_word(v: &Vec<char>, from: usize) -> (end: usize)
    requires
        from <= v@.len(),
    ensures
        end == from + word_run(v@.skip(from as int)),
        from <= end <= v@.len(),
{
    let mut i: usize = from;
    while i < v.len() && !space(v[i])
        invariant
            from <= i <= v@.len(),
            forall|j: int| from <= j < i ==> !is_space(#[trigger] v@[j]),
        decreases v@.len() - i,
    {
        i += 1;
    }
    proof {
        lemma_word_run_is(v@.skip(from as int), i - from);
    }
    i
}

/// Where `c` next occurs from `from` on, or the end.
pub fn find_from(v: &Vec<char>, from: usize, c: char) -> (at: usize)
    requires
        from <= v@.len(),
    ensures
        at == from + find(v@.skip(from as int), c),
        from <= at <= v@.len(),
{
    let mut i: usize = from;
    while i < v.len() && v[i] != c
        invariant
            from <= i <= v@.len(),
            forall|j: int| from <= j < i ==> #[trigger] v@[j] != c,
        decreases v@.len() - i,
    {
        i += 1;
    }
    proof {
        lemma_find_is(v@.skip(from as int), c, i - from);
    }
    i
}

/// Cuts the whitespace off the start.
pub fn trimmed_start<'a>(s: &'a str) -> (r: &'a str)
    ensures
        r@ == trim_start(s@),
{
    let v = chars_of(s);
    let n = v.len();
    assert(v@.skip(0) =~= s@);
    let i = skip_spaces(&v, 0);
    let r = s.substring_char(i, n);
    assert(r@ =~= trim_start(s@));
    r
}

/// Cuts the whitespace off both ends.
pub fn trimmed<'a>(s: &'a str) -> (r: &'a str)
    ensures
        r@ == trim(s@),
{
    let v = chars_of(s);
    let n = v.len();
    assert(v@.skip(0) =~= s@);
    let i = skip_spaces(&v, 0);
    let mut j: usize = n;
    let ghost t = trim_start(s@);
    assert(t =~= v@.subrange(i as int, n as int));
    while i < j && space(v[j - 1])
        invariant
            i <= j <= n,
            n == v@.len(),
            trim_end(v@.subrange(i as int, j as int)) == trim_end(t),
        decreases j,
    {
        let ghost u = v@.subrange(i as int, j as int);
        j -= 1;
        assert(u.drop_last() =~= v@.subrange(i as int, j as int));
    }
    let ghost u = v@.subrange(i as int, j as int);
    assert(u.len() > 0 ==> u.last() == v@[j - 1]);
    s.substring_char(i, j)
}

/// Splits at the first `c`.
pub fn halves<'a>(s: &'a str, c: char) -> (r: Option<(&'a str, &'a str)>)
    ensures
        match r {
            Some((a, b)) => split_once(s@, c) == Some((a@, b@)),
            None => split_once(s@, c) is None,
        },
{
    let v = chars_of(s);
    let n = v.len();
    assert(v@.skip(0) =~= s@);
    let i = find_from(&v, 0, c);
    if i < n {
        let a = s.substring_char(0, i);
        let b = s.substring_char(i + 1, n);
        assert(a@ =~= s@.take(i as int));
        assert(b@ =~= s@.skip(i + 1));
        Some((a, b))
    } else {
        None
    }
}

/// Whether `s` starts with `prefix`.
pub fn has_prefix(s: &str, prefix: &str) -> (r: bool)
    ensures
        r == starts_with(s@, prefix@),
{
    let v = chars_of(s);
    let p = chars_of(prefix);
    if p.len() > v.len() {
        return false;
    }
    let mut i: usize = 0;
    while i < p.len()
        invariant
            v@ == s@,
            p@ == prefix@,
            i <= p@.len() <= v@.len(),
            forall|j: int| 0 <= j < i ==> v@[j] == p@[j],
        decreases p@.len() - i,
    {
        if v[i] != p[i] {
            assert(s@.take(prefix@.len() as int)[i as int] != prefix@[i as int]);
            return false;
        }
        i += 1;
    }
    assert(s@.take(prefix@.len() as int) =~= prefix@);
    true
}

/// What follows `prefix` in `s`, if `s` starts with it.
pub fn without_prefix<'a>(s: &'a str, prefix: &str) -> (r: Option<&'a str>)
    ensures
        match r {
            Some(t) => starts_with(s@, prefix@) && t@ == s@.skip(prefix@.len() as int),
            None => !starts_with(s@, prefix@),
        },
{
    if has_prefix(s, prefix) {
        let n = s.unicode_len();
        let k = prefix.unicode_len();
        let t = s.substring_char(k, n);
        assert(t@ =~= s@.skip(prefix@.len() as int));
        Some(t)
    } else {
        None
    }
}

/// The words of `s`.
pub fn split_words(s: &str) -> (out: Vec<String>)
    ensures
        views(out@) == words(s@),
{
    let v = chars_of(s);
    let mut out: Vec<String> = Vec::new();
    let mut i: usize = 0;
    assert(v@.skip(0) =~= s@);
    i = skip_spaces(&v, i);
    proof {
        lemma_words_of_trimmed(s@);
        assert(trim_start(s@) =~= v@.skip(i as int));
        assert(views(out@) + words(v@.skip(i as int)) =~= words(s@));
    }
    while i < v.len()
        invariant
            v@ == s@,
            i <= v@.len(),
            i < v@.len() ==> !is_space(v@[i as int]),
            words(s@) == views(out@) + words(v@.skip(i as int)),
        decreases v@.len() - i,
    {
        let ghost t = v@.skip(i as int);
        let j = skip_word(&v, i);
        let w = text_of(&v, i, j);
        let k = skip_spaces(&v, j);
        proof {
            lemma_runs(t);
            lemma_space_run_is(t, 0);
            assert(trim_start(t) =~= t);
            assert(w@ =~= t.take(word_run(t)));
            let rest = t.skip(word_run(t));
            assert(rest =~= v@.skip(j as int));
            lemma_words_of_trimmed(rest);
            assert(trim_start(rest) =~= v@.skip(k as int));
            assert(words(t) == seq![w@] + words(v@.skip(k as int)));
            lemma_runs(v@.skip(j as int));
        }
        let ghost before = out@;
        out.push(w);
        assert(views(out@) =~= views(before).push(w@));
        assert(views(out@) + words(v@.skip(k as int)) =~= views(before) + words(t));
        i = k;
    }
    proof {
        assert(v@.skip(i as int).len() == 0);
        assert(views(out@) + words(v@.skip(i as int)) =~= views(out@));
    }
    out
}

/// Leading whitespace makes no difference to the words.
pub proof fn lemma_words_of_trimmed(s: Seq<char>)
    ensures
        words(trim_start(s)) == words(s),
{
    lemma_runs(s);
    let t = trim_start(s);
    lemma_space_run_is(t, 0);
    assert(trim_start(t) =~= t);
}

/// The pieces of `s` between line feeds.
pub fn split_paragraphs(s: &str) -> (out: Vec<String>)
    ensures
        views(out@) == paragraphs(s@),
{
    let v = chars_of(s);
    let mut out: Vec<String> = Vec::new();
    let mut i: usize = 0;
    let mut at: usize = find_from(&v, 0, '\n');
    assert(v@.skip(0) =~= s@);
    assert(views(out@) + paragraphs(s@) =~= paragraphs(s@));
    while at < v.len()
        invariant
            v@ == s@,
            i <= at <= v@.len(),
            at == i + find(v@.skip(i as int), '\n'),
            paragraphs(s@) == views(out@) + paragraphs(v@.skip(i as int)),
        decreases v@.len() - i,
    {
        let ghost t = v@.skip(i as int);
        let piece = text_of(&v, i, at);
        proof {
            assert(piece@ =~= t.take(find(t, '\n')));
            assert(t.skip(find(t, '\n') + 1) =~= v@.skip(at + 1));
        }
        let ghost before = out@;
        out.push(piece);
        assert(views(out@) =~= views(before).push(piece@));
        assert(views(out@) + paragraphs(v@.skip(at + 1)) =~= views(before) + paragraphs(t));
        i = at + 1;
        at = find_from(&v, i, '\n');
    }
    let last = text_of(&v, i, v.len());
    assert(last@ =~= v@.skip(i as int));
    let ghost before = out@;
    out.push(last);
    assert(views(out@) =~= views(before) + seq![last@]);
    out
}

/// The lines of `s`, each with its line feed.
pub fn split_raw_lines(s: &str) -> (out: Vec<String>)
    ensures
        views(out@) == raw_lines(s@),
{
    let v = chars_of(s);
    let mut out: Vec<String> = Vec::new();
    let mut i: usize = 0;
    assert(v@.skip(0) =~= s@);
    assert(views(out@) + raw_lines(s@) =~= raw_lines(s@));
    while i < v.len()
        invariant
            v@ == s@,
            i <= v@.len(),
            raw_lines(s@) == views(out@) + raw_lines(v@.skip(i as int)),
        decreases v@.len() - i,
    {
        let ghost t = v@.skip(i as int);
        let at = find_from(&v, i, '\n');
        let end: usize = if at < v.len() {
            at + 1
        } else {
            at
        };
        let line = text_of(&v, i, end);
        proof {
            assert(t.len() > 0);
            if at < v@.len() {
                assert(line@ =~= t.take(find(t, '\n') + 1));
                assert(t.skip(find(t, '\n') + 1) =~= v@.skip(end as int));
            } else {
                assert(line@ =~= t);
                assert(raw_lines(v@.skip(end as int)) =~= seq![]);
            }
            assert(raw_lines(t) =~= seq![line@] + raw_lines(v@.skip(end as int)));
        }
        let ghost before = out@;
        out.push(line);
        assert(views(out@) =~= views(before).push(line@));
        assert(views(out@) + raw_lines(v@.skip(end as int)) =~= views(before) + raw_lines(t));
        i = end;
    }
    assert(views(out@) + raw_lines(v@.skip(i as int)) =~= views(out@));
    out
}

/// What a line says, without its ending.
pub fn chomped<'a>(line: &'a str) -> (r: &'a str)
    ensures
        r@ == chomp(line@),
{
    let v = chars_of(line);
    let n = v.len();
    let mut end: usize = n;
    if n > 0 && v[n - 1] == '\n' {
        end = n - 1;
        if end > 0 && v[end - 1] == '\r' {
            end = end - 1;
        }
    }
    let r = line.substring_char(0, end);
    assert(r@ =~= chomp(line@));
    r
}

/// What the lines of `s` say.
pub fn split_lines(s: &str) -> (out: Vec<String>)
    ensures
        views(out@) == lines(s@),
{
    let raw = split_raw_lines(s);
    let mut out: Vec<String> = Vec::new();
    let mut i: usize = 0;
    while i < raw.len()
        invariant
            views(raw@) == raw_lines(s@),
            i <= raw@.len(),
            views(out@) == lines(s@).take(i as int),
        decreases raw@.len() - i,
    {
        let ghost before = views(out@);
        assert(views(raw@)[i as int] == raw@[i as int]@);
        let line = chomped(raw[i].as_str()).to_string();
        assert(lines(s@)[i as int] == chomp(views(raw@)[i as int]));
        out.push(line);
        assert(views(out@) =~= before.push(line@));
        i += 1;
        assert(views(out@) =~= lines(s@).take(i as int));
    }
    assert(lines(s@).take(i as int) =~= lines(s@));
    out
}

/// The characters `a` to `z` as capitals; every other character as it is.
pub open spec fn upper(c: char) -> char {
    if 'a' <= c <= 'z' {
        (c as u32 - 32) as char
    } else {
        c
    }
}

/// The characters `A` to `Z` as small letters; every other character as it is.
pub open spec fn lower(c: char) -> char {
    if 'A' <= c <= 'Z' {
        (c as u32 + 32) as char
    } else {
        c
    }
}

/// `s` with its ASCII letters as capitals.
pub open spec fn upper_case(s: Seq<char>) -> Seq<char> {
    s.map_values(|c: char| upper(c))
}

/// `s` with its ASCII letters as small letters.
pub open spec fn lower_case(s: Seq<char>) -> Seq<char> {
    s.map_values(|c: char| lower(c))
}

/// Capitalises the ASCII letters.
pub fn uppercase(s: &str) -> (r: String)
    ensures
        r@ == upper_case(s@),
{
    let v = chars_of(s);
    let mut r = String::new();
    let mut i: usize = 0;
    while i < v.len()
        invariant
            v@ == s@,
            i <= v@.len(),
            r@ == upper_case(s@.take(i as int)),
        decreases v@.len() - i,
    {
        let c = v[i];
        if 'a' <= c && c <= 'z' {
            r.push(((c as u8) - 32) as char);
        } else {
            r.push(c);
        }
        assert(r@ =~= upper_case(s@.take(i + 1)));
        i += 1;
    }
    assert(s@.take(i as int) =~= s@);
    r
}

/// Makes the ASCII letters small.
pub fn lowercase(s: &str) -> (r: String)
    ensures
        r@ == lower_case(s@),
{
    let v = chars_of(s);
    let mut r = String::new();
    let mut i: usize = 0;
    while i < v.len()
        invariant
            v@ == s@,
            i <= v@.len(),
            r@ == lower_case(s@.take(i as int)),
        decreases v@.len() - i,
    {
        let c = v[i];
        if 'A' <= c && c <= 'Z' {
            r.push(((c as u8) + 32) as char);
        } else {
            r.push(c);
        }
        assert(r@ =~= lower_case(s@.take(i + 1)));
        i += 1;
    }
    assert(s@.take(i as int) =~= s@);
    r
}

/// The digit for a number below ten.
pub open spec fn digit(d: nat) -> char {
    (48 + d) as char
}

/// A number in decimal, without leading zeros.
pub open spec fn decimal(n: nat) -> Seq<char>
    decreases n,
{
    if n < 10 {
        seq![digit(n)]
    } else {
        decimal(n / 10).push(digit(n % 10))
    }
}

/// Writes a number in decimal.
pub fn decimal_of(n: u64) -> (s: String)
    ensures
        s@ == decimal(n as nat),
    decreases n,
{
    if n < 10 {
        let mut s = String::new();
        s.push((48 + n as u8) as char);
        assert(s@ =~= decimal(n as nat));
        s
    } else {
        let mut s = decimal_of(n / 10);
        s.push((48 + (n % 10) as u8) as char);
        s
    }
}

/// Why a piece of text is not a number.
#[derive(Debug, Clone, Copy, PartialEq, Eq, Structural)]
pub enum NumberError {
    /// There was nothing to read.
    Empty,
    /// A character is not a decimal digit.
    InvalidDigit,
    /// The digits name a number past the largest `u64`.
    TooLarge,
}

/// What the digits `s` add to the number read so far.
pub open spec fn digits_after(so_far: nat, s: Seq<char>) -> Result<nat, NumberError>
    decreases s.len(),
{
    if s.len() == 0 {
        Ok(so_far)
    } else if !('0' <= s[0] <= '9') {
        Err(NumberError::InvalidDigit)
    } else {
        let next = so_far * 10 + (s[0] as nat - 48) as nat;
        if next > u64::MAX {
            Err(NumberError::TooLarge)
        } else {
            digits_after(next, s.drop_first())
        }
    }
}

/// The number that `s` spells: decimal digits, which one `+` may precede.
pub open spec fn number(s: Seq<char>) -> Result<nat, NumberError> {
    if s.len() == 0 {
        Err(NumberError::Empty)
    } else if s[0] == '+' && s.len() > 1 {
        digits_after(0, s.drop_first())
    } else {
        digits_after(0, s)
    }
}

/// Reads a number.
pub fn parse_number(s: &str) -> (r: Result<u64, NumberError>)
    ensures
        match r {
            Ok(n) => number(s@) == Ok::<nat, NumberError>(n as nat),
            Err(e) => number(s@) == Err::<nat, NumberError>(e),
        },
{
    let v = chars_of(s);
    if v.len() == 0 {
        return Err(NumberError::Empty);
    }
    let mut i: usize = if v[0] == '+' && v.len() > 1 {
        1
    } else {
        0
    };
    let mut n: u64 = 0;
    assert(v@.skip(i as int) =~= if i == 0 {
        s@
    } else {
        s@.drop_first()
    });
    while i < v.len()
        invariant
            v@ == s@,
            i <= v@.len(),
            number(s@) == digits_after(n as nat, v@.skip(i as int)),
        decreases v@.len() - i,
    {
        let c = v[i];
        let ghost t = v@.skip(i as int);
        assert(t.drop_first() =~= v@.skip(i + 1));
        if !('0' <= c && c <= '9') {
            return Err(NumberError::InvalidDigit);
        }
        let d: u64 = ((c as u8) - 48) as u64;
        if n > u64::MAX / 10 || n * 10 > u64::MAX - d {
            return Err(NumberError::TooLarge);
        }
        n = n * 10 + d;
        i += 1;
    }
    Ok(n)
}

/// What a hexadecimal digit is worth, in either case.
pub open spec fn hex_digit(c: u8) -> Option<nat> {
    if 0x30 <= c <= 0x39 {
        Some((c - 0x30) as nat)
    } else if 0x41 <= c <= 0x46 {
        Some((c - 0x41 + 10) as nat)
    } else if 0x61 <= c <= 0x66 {
        Some((c - 0x61 + 10) as nat)
    } else {
        None
    }
}

/// Reads one hexadecimal digit.
pub fn hex_value(c: u8) -> (r: Option<u8>)
    ensures
        match r {
            Some(d) => hex_digit(c) == Some(d as nat) && d < 16,
            None => hex_digit(c) is None,
        },
{
    if 0x30 <= c && c <= 0x39 {
        Some(c - 0x30)
    } else if 0x41 <= c && c <= 0x46 {
        Some(c - 0x41 + 10)
    } else if 0x61 <= c && c <= 0x66 {
        Some(c - 0x61 + 10)
    } else {
        None
    }
}

/// A word: something, and no whitespace in it.
pub open spec fn is_word(w: Seq<char>) -> bool {
    w.len() > 0 && forall|i: int| 0 <= i < w.len() ==> !is_space(#[trigger] w[i])
}

/// What a text is split into is words.
pub proof fn lemma_words_are_words(s: Seq<char>)
    ensures
        forall|i: int| 0 <= i < words(s).len() ==> is_word(#[trigger] words(s)[i]),
    decreases s.len(),
{
    lemma_runs(s);
    let t = trim_start(s);
    if t.len() > 0 {
        lemma_runs(t);
        let n = word_run(t);
        let r = t.skip(n);
        lemma_words_are_words(r);
        assert(is_word(t.take(n)));
        assert forall|i: int| 0 <= i < words(s).len() implies is_word(#[trigger] words(s)[i]) by {
            if i > 0 {
                assert(words(s)[i] == words(r)[i - 1]);
            }
        }
    }
}

/// A word is split into itself.
pub proof fn lemma_words_of_word(w: Seq<char>)
    requires
        is_word(w),
    ensures
        words(w) == seq![w],
{
    lemma_space_run_is(w, 0);
    lemma_word_run_is(w, w.len() as int);
    assert(trim_start(w) =~= w);
    assert(w.take(w.len() as int) =~= w);
    let e = w.skip(w.len() as int);
    assert(words(e) =~= seq![]) by {
        lemma_runs(e);
    }
    assert(words(w) =~= seq![w]);
}

/// Whitespace between two texts keeps their words apart.
pub proof fn lemma_words_join(a: Seq<char>, c: char, b: Seq<char>)
    requires
        is_space(c),
    ensures
        words(a + seq![c] + b) == words(a) + words(b),
    decreases a.len(),
{
    let s = a + seq![c] + b;
    lemma_runs(a);
    lemma_runs(b);
    let t = trim_start(a);
    if t.len() == 0 {
        assert forall|i: int| 0 <= i < a.len() + 1 + space_run(b) implies is_space(
            #[trigger] s[i],
        ) by {
            if i < a.len() {
                assert(s[i] == a[i]);
            } else if i > a.len() {
                assert(s[i] == b[i - a.len() - 1]);
            }
        }
        assert(a.len() + 1 + space_run(b) < s.len() ==> s[a.len() + 1 + space_run(b)]
            == b[space_run(b)]);
        lemma_space_run_is(s, a.len() + 1 + space_run(b));
        assert(trim_start(s) =~= trim_start(b));
        lemma_words_of_trimmed(s);
        lemma_words_of_trimmed(b);
        assert(words(a) =~= seq![]);
        assert(words(a) + words(b) =~= words(b));
    } else {
        let k = space_run(a);
        assert forall|i: int| 0 <= i < k implies is_space(#[trigger] s[i]) by {
            assert(s[i] == a[i]);
        }
        assert(s[k] == a[k]);
        lemma_space_run_is(s, k);
        let u = trim_start(s);
        assert(u =~= t + seq![c] + b);
        lemma_runs(t);
        let n = word_run(t);
        assert forall|i: int| 0 <= i < n implies !is_space(#[trigger] u[i]) by {
            assert(u[i] == t[i]);
        }
        assert(u[n] == if n < t.len() {
            t[n]
        } else {
            c
        });
        lemma_word_run_is(u, n);
        assert(u.take(n) =~= t.take(n));
        assert(u.skip(n) =~= t.skip(n) + seq![c] + b);
        lemma_words_join(t.skip(n), c, b);
        assert(words(s) =~= seq![t.take(n)] + (words(t.skip(n)) + words(b)));
        assert(words(s) =~= words(a) + words(b));
    }
}

/// A line feed between two texts keeps their paragraphs apart.
pub proof fn lemma_paragraphs_join(a: Seq<char>, b: Seq<char>)
    ensures
        paragraphs(a + seq!['\n'] + b) == paragraphs(a) + paragraphs(b),
    decreases a.len(),
{
    let s = a + seq!['\n'] + b;
    lemma_find(a, '\n');
    let n = find(a, '\n');
    assert forall|i: int| 0 <= i < n implies #[trigger] s[i] != '\n' by {
        assert(s[i] == a[i]);
    }
    assert(s[n] == '\n');
    lemma_find_is(s, '\n', n);
    assert(s.take(n) =~= a.take(n));
    if n < a.len() {
        assert(s.skip(n + 1) =~= a.skip(n + 1) + seq!['\n'] + b);
        lemma_paragraphs_join(a.skip(n + 1), b);
        assert(paragraphs(s) =~= paragraphs(a) + paragraphs(b));
    } else {
        assert(a.take(n) =~= a);
        assert(s.skip(n + 1) =~= b);
        assert(paragraphs(s) =~= paragraphs(a) + paragraphs(b));
    }
}

} // verus!
