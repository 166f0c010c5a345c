//! Text primitives: conversions between strings and character vectors,
//! comparison, and the searching and trimming that the other modules need.

use vstd::prelude::*;
use vstd::utf8::encode_utf8;

verus! {

broadcast use vstd::utf8::group_utf8_lib;

/// `String::push` appends one character at the end.
pub assume_specification[ String::push ](s: &mut String, c: char)
    ensures
        final(s)@ == old(s)@.push(c),
;

/// The contents of a sequence of strings.
pub open spec fn texts(v: Seq<String>) -> Seq<Seq<char>> {
    v.map_values(|s: String| s@)
}

/// The content of an optional string.
pub open spec fn opt_text(o: Option<String>) -> Option<Seq<char>> {
    match o {
        Some(s) => Some(s@),
        None => None,
    }
}

/// The characters of `s`.
pub fn chars_of(s: &str) -> (r: Vec<char>)
    ensures
        r@ == s@,
{
    let mut out: Vec<char> = Vec::new();
    for c in it: s.chars()
        invariant
            out@ == s@.take(it.index()),
            it.seq() == s@,
    {
        out.push(c);
        assert(s@.take(it.index() + 1) == s@.take(it.index()).push(c));
    }
    assert(s@.take(s@.len() as int) == s@);
    out
}

/// The string made of `chars`.
pub fn string_of(chars: &[char]) -> (r: String)
    ensures
        r@ == chars@,
{
    let mut out = String::new();
    for i in 0..chars.len()
        invariant
            out@ == chars@.take(i as int),
    {
        out.push(chars[i]);
        assert(chars@.take(i + 1) == chars@.take(i as int).push(chars@[i as int]));
    }
    assert(chars@.take(chars@.len() as int) == chars@);
    out
}

/// Two strings with the same UTF-8 encoding are the same string.
pub proof fn lemma_encode_injective(a: Seq<char>, b: Seq<char>)
    requires
        encode_utf8(a) == encode_utf8(b),
    ensures
        a == b,
{
    vstd::utf8::encode_utf8_decode_utf8(a);
    vstd::utf8::encode_utf8_decode_utf8(b);
}

/// Whether two strings hold the same characters.
pub fn str_eq(a: &str, b: &str) -> (r: bool)
    ensures
        r == (a@ == b@),
{
    let x = a.as_bytes();
    let y = b.as_bytes();
    if x.len() != y.len() {
        return false;
    }
    for i in 0..x.len()
        invariant
            x@ == encode_utf8(a@),
            y@ == encode_utf8(b@),
            x@.len() == y@.len(),
            x@.take(i as int) == y@.take(i as int),
    {
        if x[i] != y[i] {
            return false;
        }
        assert(x@.take(i + 1) == x@.take(i as int).push(x@[i as int]));
        assert(y@.take(i + 1) == y@.take(i as int).push(y@[i as int]));
    }
    proof {
        assert(x@.take(x@.len() as int) == x@);
        assert(y@.take(y@.len() as int) == y@);
        lemma_encode_injective(a@, b@);
    }
    true
}

/// `a` followed by `b`.
pub fn concat2(a: &str, b: &str) -> (r: String)
    ensures
        r@ == a@ + b@,
{
    let mut out = a.to_string();
    out.append(b);
    out
}

/// The items of `v`, separated by `sep`.
pub open spec fn joined(v: Seq<Seq<char>>, sep: Seq<char>) -> Seq<char>
    decreases v.len(),
{
    if v.len() == 0 {
        Seq::empty()
    } else if v.len() == 1 {
        v[0]
    } else {
        joined(v.drop_last(), sep) + sep + v.last()
    }
}

/// The items of `v` joined by `sep`.
pub fn join(v: &[String], sep: &str) -> (r: String)
    ensures
        r@ == joined(texts(v@), sep@),
{
    let mut out = String::new();
    for i in 0..v.len()
        invariant
            out@ == joined(texts(v@).take(i as int), sep@),
    {
        if i > 0 {
            out.append(sep);
        }
        out.append(v[i].as_str());
        assert(texts(v@).take(i + 1).drop_last() == texts(v@).take(i as int));
    }
    assert(texts(v@).take(v@.len() as int) == texts(v@));
    out
}

/// Whether `s` ends with `suffix`.
pub open spec fn has_suffix(s: Seq<char>, suffix: Seq<char>) -> bool {
    s.len() >= suffix.len() && s.skip(s.len() - suffix.len()) == suffix
}

/// Whether `s` starts with `prefix`.
pub open spec fn has_prefix(s: Seq<char>, prefix: Seq<char>) -> bool {
    s.len() >= prefix.len() && s.take(prefix.len() as int) == prefix
}

/// Whether `pat` stands in `s` at the position `at`.
pub open spec fn occurs_at(s: Seq<char>, pat: Seq<char>, at: int) -> bool {
    0 <= at && at + pat.len() <= s.len() && s.subrange(at, at + pat.len()) == pat
}

/// Whether `pat` stands in `s` at the position `at`.
pub fn matches_at(s: &[char], pat: &[char], at: usize) -> (r: bool)
    ensures
        r == occurs_at(s@, pat@, at as int),
{
    let n: usize = s.len();
    if at > n || pat.len() > n - at {
        return false;
    }
    for i in 0..pat.len()
        invariant
            n == s@.len(),
            at + pat@.len() <= n,
            forall|j: int| 0 <= j < i ==> s@[at + j] == pat@[j],
    {
        if s[at + i] != pat[i] {
            assert(s@.subrange(at as int, at + pat@.len())[i as int] != pat@[i as int]);
            return false;
        }
    }
    assert(s@.subrange(at as int, at + pat@.len()) == pat@);
    true
}

/// Whether `s` starts with `prefix`.
pub fn starts_with(s: &str, prefix: &str) -> (r: bool)
    ensures
        r == has_prefix(s@, prefix@),
{
    let a = chars_of(s);
    let b = chars_of(prefix);
    assert(s@.len() >= prefix@.len() ==> s@.subrange(0, prefix@.len() as int) == s@.take(
        prefix@.len() as int,
    ));
    matches_at(a.as_slice(), b.as_slice(), 0)
}

/// Whether `s` ends with `suffix`.
pub fn ends_with(s: &str, suffix: &str) -> (r: bool)
    ensures
        r == has_suffix(s@, suffix@),
{
    let a = chars_of(s);
    let b = chars_of(suffix);
    if b.len() > a.len() {
        return false;
    }
    let at: usize = a.len() - b.len();
    assert(s@.subrange(at as int, at + suffix@.len()) == s@.skip(at as int));
    matches_at(a.as_slice(), b.as_slice(), at)
}

/// Whether `pat` stands anywhere in `s`.
pub open spec fn has_text(s: Seq<char>, pat: Seq<char>) -> bool {
    exists|at: int| occurs_at(s, pat, at)
}

/// The first position from `from` on at which `pat` stands in `s`.
pub open spec fn first_from(s: Seq<char>, pat: Seq<char>, from: int) -> Option<int>
    decreases s.len() - from + 1,
{
    if from < 0 || from > s.len() {
        None
    } else if occurs_at(s, pat, from) {
        Some(from)
    } else {
        first_from(s, pat, from + 1)
    }
}

proof fn lemma_first_from(s: Seq<char>, pat: Seq<char>, from: int)
    requires
        0 <= from,
        forall|at: int| 0 <= at < from ==> !occurs_at(s, pat, at),
    ensures
        first_from(s, pat, from) is Some == has_text(s, pat),
    decreases s.len() - from + 1,
{
    if from <= s.len() && !occurs_at(s, pat, from) {
        lemma_first_from(s, pat, from + 1);
    } else if from > s.len() {
        assert forall|at: int| !occurs_at(s, pat, at) by {}
    }
}

/// The first position at which `pat` stands in `s`.
pub fn find_text(s: &str, pat: &str) -> (r: Option<usize>)
    ensures
        match r {
            Some(at) => first_from(s@, pat@, 0) == Some(at as int) && occurs_at(
                s@,
                pat@,
                at as int,
            ),
            None => first_from(s@, pat@, 0) is None,
        },
        r is Some == has_text(s@, pat@),
{
    let a = chars_of(s);
    let b = chars_of(pat);
    let n: usize = a.len();
    proof {
        lemma_first_from(s@, pat@, 0);
    }
    for i in 0..n
        invariant
            a@ == s@,
            b@ == pat@,
            n == s@.len(),
            first_from(s@, pat@, 0) == first_from(s@, pat@, i as int),
            first_from(s@, pat@, 0) is Some == has_text(s@, pat@),
    {
        if matches_at(a.as_slice(), b.as_slice(), i) {
            return Some(i);
        }
    }
    if matches_at(a.as_slice(), b.as_slice(), n) {
        return Some(n);
    }
    assert(first_from(s@, pat@, n + 1) is None);
    None
}

/// Whether `pat` stands anywhere in `s`.
pub fn contains_text(s: &str, pat: &str) -> (r: bool)
    ensures
        r == has_text(s@, pat@),
{
    find_text(s, pat).is_some()
}

/// `s` with the first `from` in it replaced by `to`.
pub open spec fn replaced_first(s: Seq<char>, from: Seq<char>, to: Seq<char>) -> Seq<char> {
    match first_from(s, from, 0) {
        Some(at) => s.take(at) + to + s.skip(at + from.len()),
        None => s,
    }
}

/// `s` with the first `from` in it replaced by `to`.
pub fn replace_first(s: &str, from: &str, to: &str) -> (r: String)
    ensures
        r@ == replaced_first(s@, from@, to@),
{
    match find_text(s, from) {
        None => s.to_string(),
        Some(at) => {
            let chars = chars_of(s);
            let len = chars_of(from).len();
            let n: usize = chars.len();
            assert(at + len <= n);
            let head = string_of(vstd::slice::slice_subrange(chars.as_slice(), 0, at));
            let tail = string_of(
                vstd::slice::slice_subrange(chars.as_slice(), at + len, n),
            );
            let mut out = concat2(head.as_str(), to);
            out.append(tail.as_str());
            assert(head@ == s@.take(at as int));
            assert(tail@ == s@.skip(at + len));
            out
        },
    }
}

/// What stands behind `prefix` in a text that starts with it.
pub fn strip_prefix(s: &str, prefix: &str) -> (r: Option<String>)
    ensures
        match r {
            Some(rest) => has_prefix(s@, prefix@) && rest@ == s@.skip(prefix@.len() as int),
            None => !has_prefix(s@, prefix@),
        },
{
    if !starts_with(s, prefix) {
        return None;
    }
    let chars = chars_of(s);
    let len = chars_of(prefix).len();
    let rest = string_of(vstd::slice::slice_subrange(chars.as_slice(), len, chars.len()));
    assert(rest@ == s@.skip(len as int));
    Some(rest)
}

/// Whether a character is white space.
pub open spec fn is_white(c: char) -> bool {
    ||| '\u{9}' <= c <= '\u{d}'
    ||| c == ' '
    ||| c == '\u{85}'
    ||| c == '\u{a0}'
    ||| c == '\u{1680}'
    ||| '\u{2000}' <= c <= '\u{200a}'
    ||| c == '\u{2028}'
    ||| c == '\u{2029}'
    ||| c == '\u{202f}'
    ||| c == '\u{205f}'
    ||| c == '\u{3000}'
}

/// Whether a character is white space.
fn white(c: char) -> (r: bool)
    ensures
        r == is_white(c),
{
    ('\u{9}' <= c && c <= '\u{d}') || c == ' ' || c == '\u{85}' || c == '\u{a0}' || c == '\u{1680}'
        || ('\u{2000}' <= c && c <= '\u{200a}') || c == '\u{2028}' || c == '\u{2029}' || c
        == '\u{202f}' || c == '\u{205f}' || c == '\u{3000}'
}

/// A text without the white space it starts with.
pub open spec fn trimmed_start(s: Seq<char>) -> Seq<char>
    decreases s.len(),
{
    if s.len() > 0 && is_white(s[0]) {
        trimmed_start(s.skip(1))
    } else {
        s
    }
}

/// A text without the white space it ends with.
pub open spec fn trimmed_end(s: Seq<char>) -> Seq<char>
    decreases s.len(),
{
    if s.len() > 0 && is_white(s.last()) {
        trimmed_end(s.drop_last())
    } else {
        s
    }
}

/// A text without the white space around it.
pub open spec fn trimmed(s: Seq<char>) -> Seq<char> {
    trimmed_end(trimmed_start(s))
}

/// How many white characters a text starts with.
pub fn indent_len(s: &str) -> (r: usize)
    ensures
        r <= s@.len(),
        trimmed_start(s@) == s@.skip(r as int),
{
    let chars = chars_of(s);
    let mut i: usize = 0;
    assert(s@.skip(0) == s@);
    while i < chars.len() && white(chars[i])
        invariant
            chars@ == s@,
            i <= s@.len(),
            trimmed_start(s@) == trimmed_start(s@.skip(i as int)),
        decreases s@.len() - i,
    {
        assert(s@.skip(i as int).skip(1) == s@.skip(i + 1));
        i = i + 1;
    }
    i
}

/// A text without the white space it starts with.
pub fn trim_start(s: &str) -> (r: String)
    ensures
        r@ == trimmed_start(s@),
{
    let chars = chars_of(s);
    let from = indent_len(s);
    let out = string_of(vstd::slice::slice_subrange(chars.as_slice(), from, chars.len()));
    assert(out@ == s@.skip(from as int));
    out
}

/// A text without the white space around it.
pub fn trim(s: &str) -> (r: String)
    ensures
        r@ == trimmed(s@),
{
    let start = trim_start(s);
    let mut chars = chars_of(start.as_str());
    let mut n: usize = chars.len();
    assert(start@.take(n as int) == start@);
    while n > 0 && white(chars[n - 1])
        invariant
            chars@ == start@,
            n <= start@.len(),
            trimmed_end(start@) == trimmed_end(start@.take(n as int)),
        decreases n,
    {
        assert(start@.take(n as int).drop_last() == start@.take(n - 1));
        n = n - 1;
    }
    chars.truncate(n);
    string_of(chars.as_slice())
}

/// The start of a text, up to the first of the given characters.
pub open spec fn head_until(s: Seq<char>, stops: Seq<char>) -> Seq<char>
    decreases s.len(),
{
    if s.len() == 0 || stops.contains(s[0]) {
        Seq::empty()
    } else {
        seq![s[0]] + head_until(s.skip(1), stops)
    }
}

/// The start of a text, up to the first of the given characters.
pub fn head(s: &str, stops: &[char]) -> (r: String)
    ensures
        r@ == head_until(s@, stops@),
{
    let chars = chars_of(s);
    let mut out = String::new();
    let mut i: usize = 0;
    assert(s@.skip(0) == s@);
    assert(out@ + head_until(s@, stops@) == head_until(s@, stops@));
    while i < chars.len() && !char_in(chars[i], stops)
        invariant
            chars@ == s@,
            i <= s@.len(),
            out@ + head_until(s@.skip(i as int), stops@) == head_until(s@, stops@),
        decreases s@.len() - i,
    {
        let ghost before = out@;
        let ghost rest = s@.skip(i as int);
        out.push(chars[i]);
        assert(rest.skip(1) == s@.skip(i + 1));
        assert(before + (seq![rest[0]] + head_until(rest.skip(1), stops@)) == out@ + head_until(
            rest.skip(1),
            stops@,
        ));
        i = i + 1;
    }
    assert(head_until(s@.skip(i as int), stops@) == Seq::<char>::empty());
    assert(out@ + Seq::<char>::empty() == out@);
    out
}

/// Whether a character is one of the given ones.
fn char_in(c: char, set: &[char]) -> (r: bool)
    ensures
        r == set@.contains(c),
{
    for i in 0..set.len()
        invariant
            forall|j: int| 0 <= j < i ==> set@[j] != c,
    {
        if set[i] == c {
            return true;
        }
    }
    false
}

/// Where the first line of a text ends.
pub open spec fn line_end(s: Seq<char>) -> int
    decreases s.len(),
{
    if s.len() == 0 || s[0] == '\n' {
        0
    } else {
        1 + line_end(s.skip(1))
    }
}

/// A line without the carriage return before its end.
pub open spec fn without_cr(s: Seq<char>) -> Seq<char> {
    if s.len() > 0 && s.last() == '\r' {
        s.drop_last()
    } else {
        s
    }
}

pub proof fn lemma_line_end(s: Seq<char>)
    ensures
        0 <= line_end(s) <= s.len(),
        line_end(s) < s.len() ==> s[line_end(s)] == '\n',
        forall|i: int| 0 <= i < line_end(s) ==> s[i] != '\n',
    decreases s.len(),
{
    if s.len() > 0 && s[0] != '\n' {
        lemma_line_end(s.skip(1));
        assert forall|i: int| 0 <= i < line_end(s) implies s[i] != '\n' by {
            if i > 0 {
                assert(s.skip(1)[i - 1] == s[i]);
            }
        }
    }
}

/// The lines of a text. A line ends with a line feed, perhaps behind a carriage
/// return; the last one may do without.
pub open spec fn lines_of(s: Seq<char>) -> Seq<Seq<char>>
    decreases s.len(),
    via lines_of_decreases
{
    if s.len() == 0 {
        Seq::empty()
    } else if line_end(s) >= s.len() {
        seq![s]
    } else {
        seq![without_cr(s.take(line_end(s)))] + lines_of(s.skip(line_end(s) + 1))
    }
}

#[via_fn]
proof fn lines_of_decreases(s: Seq<char>) {
    lemma_line_end(s);
}

proof fn lemma_line_end_is(s: Seq<char>, end: int)
    requires
        0 <= end <= s.len(),
        end < s.len() ==> s[end] == '\n',
        forall|i: int| 0 <= i < end ==> s[i] != '\n',
    ensures
        line_end(s) == end,
{
    lemma_line_end(s);
    if line_end(s) < end {
        assert(s[line_end(s)] != '\n');
    }
}

/// The lines of a text that another one follows on a new line.
pub open spec fn closed_lines(s: Seq<char>) -> Seq<Seq<char>> {
    if s.len() == 0 || s.last() == '\n' {
        lines_of(s).push(Seq::empty())
    } else {
        lines_of(s).drop_last().push(without_cr(lines_of(s).last()))
    }
}

/// The lines of two texts with a line feed between them are the lines of the first
/// and then those of the second. Where the first ends in the middle of a line, a
/// carriage return at its end belongs to the line feed.
pub proof fn law_joined_lines(a: Seq<char>, b: Seq<char>)
    ensures
        lines_of(a + seq!['\n'] + b) == closed_lines(a) + lines_of(b),
        a.len() > 0 ==> lines_of(a).len() > 0,
    decreases a.len(),
{
    let s = a + seq!['\n'] + b;
    lemma_line_end(a);
    let end = line_end(a);
    assert forall|i: int| 0 <= i < end implies s[i] != '\n' by {
        assert(s[i] == a[i]);
    }
    assert(s[end] == '\n');
    lemma_line_end_is(s, end);
    assert(s.take(end) == a.take(end));
    if end >= a.len() {
        assert(s.take(end) == a);
        assert(s.skip(end + 1) == b);
        if a.len() > 0 {
            assert(a[a.len() - 1] != '\n');
            assert(lines_of(a) == seq![a]);
        } else {
            assert(a == Seq::<char>::empty());
        }
        assert(closed_lines(a) == seq![without_cr(a)]);
    } else {
        let rest = a.skip(end + 1);
        assert(s.skip(end + 1) == rest + seq!['\n'] + b);
        law_joined_lines(rest, b);
        assert(rest.len() > 0 ==> rest.last() == a.last());
        assert(rest.len() == 0 ==> a.last() == '\n');
        assert(closed_lines(a) == seq![without_cr(a.take(end))] + closed_lines(rest));
    }
}

/// The lines of a text.
pub fn lines(s: &str) -> (r: Vec<String>)
    ensures
        texts(r@) == lines_of(s@),
{
    let chars = chars_of(s);
    let mut out: Vec<String> = Vec::new();
    let mut start: usize = 0;
    assert(s@.skip(0) == s@);
    assert(texts(out@) + lines_of(s@) == lines_of(s@));
    while start < chars.len()
        invariant
            chars@ == s@,
            start <= s@.len(),
            texts(out@) + lines_of(s@.skip(start as int)) == lines_of(s@),
        decreases s@.len() - start,
    {
        let ghost rest = s@.skip(start as int);
        let mut end: usize = start;
        assert(rest.skip(0) == rest);
        while end < chars.len() && chars[end] != '\n'
            invariant
                chars@ == s@,
                start <= end <= s@.len(),
                rest == s@.skip(start as int),
                line_end(rest) == end - start + line_end(rest.skip(end - start)),
            decreases s@.len() - end,
        {
            let ghost k = end - start;
            assert(rest.skip(k).skip(1) == rest.skip(k + 1));
            assert(rest.skip(k)[0] == s@[end as int]);
            end = end + 1;
        }
        assert(line_end(rest.skip(end - start)) == 0);
        let ghost before = out@;
        let n: usize = chars.len();
        if end >= n {
            let line = string_of(vstd::slice::slice_subrange(chars.as_slice(), start, n));
            assert(line@ == rest);
            out.push(line);
            start = n;
            assert(texts(out@) == texts(before).push(rest));
            assert(s@.skip(n as int).len() == 0);
            assert(texts(before) + seq![rest] == texts(out@) + Seq::<Seq<char>>::empty());
        } else {
            let cut: usize = if end > start && chars[end - 1] == '\r' {
                end - 1
            } else {
                end
            };
            let line = string_of(vstd::slice::slice_subrange(chars.as_slice(), start, cut));
            let ghost text = line@;
            assert(text == without_cr(rest.take(line_end(rest))));
            out.push(line);
            assert(texts(out@) == texts(before).push(text));
            assert(rest.skip(line_end(rest) + 1) == s@.skip(end + 1));
            assert(texts(before) + (seq![text] + lines_of(s@.skip(end + 1))) == texts(out@)
                + lines_of(s@.skip(end + 1)));
            start = end + 1;
        }
    }
    assert(s@.skip(start as int).len() == 0);
    assert(lines_of(s@.skip(start as int)) == Seq::<Seq<char>>::empty());
    assert(texts(out@) + Seq::<Seq<char>>::empty() == texts(out@));
    out
}

} // verus!
