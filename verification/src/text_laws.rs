//! What becomes of texts that are searched, cut and put together.

use vstd::prelude::*;

use crate::text::{
    closed_lines, first_from, has_prefix, has_suffix, has_text, head_until, is_white, joined,
    law_joined_lines, lemma_line_end, line_end, lines_of, occurs_at, replaced_first, trimmed,
    trimmed_end, trimmed_start,
};

verus! {

/// A text starts with another where something, perhaps nothing, follows that one, and
/// ends with it where something goes before.
pub proof fn law_starts_and_ends(s: Seq<char>, part: Seq<char>, other: Seq<char>)
    ensures
        has_prefix(part + other, part),
        has_suffix(other + part, part),
        has_prefix(s, part) ==> s == part + s.skip(part.len() as int),
        has_suffix(s, part) ==> s == s.take(s.len() - part.len()) + part,
{
    assert((part + other).take(part.len() as int) == part);
    assert((other + part).skip(other.len() as int) == part);
    if has_prefix(s, part) {
        assert(s == s.take(part.len() as int) + s.skip(part.len() as int));
    }
    if has_suffix(s, part) {
        let n = s.len() - part.len();
        assert(s == s.take(n) + s.skip(n));
    }
}

/// A text stands in another where that one is made of something, the text, and
/// something again.
pub proof fn law_texts_are_found(before: Seq<char>, pat: Seq<char>, after: Seq<char>, s: Seq<char>)
    ensures
        has_text(before + pat + after, pat),
        has_text(s, pat) ==> exists|a: Seq<char>, b: Seq<char>| s == #[trigger] (a + pat + b),
{
    let whole = before + pat + after;
    assert(whole.subrange(before.len() as int, (before.len() + pat.len()) as int) == pat);
    assert(occurs_at(whole, pat, before.len() as int));
    if has_text(s, pat) {
        let at = choose|at: int| occurs_at(s, pat, at);
        let a = s.take(at);
        let b = s.skip(at + pat.len());
        assert(s == a + pat + b);
    }
}

/// The first place of a text is one where it stands, and it stands nowhere before; where
/// there is none, it stands nowhere.
pub proof fn law_first_place_of_a_text(s: Seq<char>, pat: Seq<char>, from: int, at: int)
    requires
        0 <= from,
    ensures
        first_from(s, pat, from) matches Some(first) ==> {
            &&& from <= first
            &&& first + pat.len() <= s.len()
            &&& s.subrange(first, first + pat.len()) == pat
            &&& from <= at && at + pat.len() <= s.len() && s.subrange(at, at + pat.len()) == pat
                ==> first <= at
        },
        first_from(s, pat, from) is None && from <= at && at + pat.len() <= s.len() ==> s.subrange(
            at,
            at + pat.len(),
        ) != pat,
    decreases s.len() - from + 1,
{
    if from <= s.len() && !occurs_at(s, pat, from) {
        law_first_place_of_a_text(s, pat, from + 1, at);
        if at == from && at + pat.len() <= s.len() {
            assert(!occurs_at(s, pat, at));
        }
    }
}

/// Replacing a text exchanges its first place and leaves everything around it; a text
/// that it does not stand in stays.
pub proof fn law_replacing_a_text(s: Seq<char>, from: Seq<char>, to: Seq<char>)
    ensures
        has_text(s, from) ==> exists|a: Seq<char>, b: Seq<char>|
            {
                &&& s == #[trigger] (a + from + b)
                &&& replaced_first(s, from, to) == a + to + b
                &&& forall|at: int|
                    0 <= at < a.len() ==> #[trigger] s.subrange(at, at + from.len()) != from
            },
        !has_text(s, from) ==> replaced_first(s, from, to) == s,
{
    law_first_place_of_a_text(s, from, 0, 0);
    if has_text(s, from) {
        let there = choose|at: int| occurs_at(s, from, at);
        law_first_place_of_a_text(s, from, 0, there);
        let at = first_from(s, from, 0)->0;
        let a = s.take(at);
        let b = s.skip(at + from.len());
        assert(s == a + from + b);
        assert forall|i: int| 0 <= i < a.len() implies #[trigger] s.subrange(i, i + from.len())
            != from by {
            law_first_place_of_a_text(s, from, 0, i);
        }
        assert(replaced_first(s, from, to) == a + to + b);
    } else if first_from(s, from, 0) is Some {
        assert(occurs_at(s, from, first_from(s, from, 0)->0));
    }
}

/// Of the characters of ASCII, the space and those from the tab to the carriage return
/// are white.
pub proof fn law_white_characters(c: char)
    requires
        (c as int) < 128,
    ensures
        is_white(c) <==> c == ' ' || 9 <= c as int <= 13,
{
}

/// Cutting white space off the start takes off all of it, and nothing else.
pub proof fn law_cut_at_the_start(s: Seq<char>)
    ensures
        ({
            let n = s.len() - trimmed_start(s).len();
            &&& n >= 0
            &&& trimmed_start(s) == s.skip(n)
            &&& forall|i: int| 0 <= i < n ==> is_white(#[trigger] s[i])
            &&& n < s.len() ==> !is_white(s[n])
        }),
    decreases s.len(),
{
    if s.len() > 0 && is_white(s[0]) {
        let rest = s.skip(1);
        law_cut_at_the_start(rest);
        let n = s.len() - trimmed_start(s).len();
        assert(rest.skip(n - 1) == s.skip(n));
        assert forall|i: int| 0 <= i < n implies is_white(#[trigger] s[i]) by {
            if i > 0 {
                assert(rest[i - 1] == s[i]);
            }
        }
    } else {
        assert(s.skip(0) == s);
    }
}

proof fn lemma_cut_at_the_end(s: Seq<char>)
    ensures
        ({
            let n = trimmed_end(s).len() as int;
            &&& n <= s.len()
            &&& trimmed_end(s) == s.take(n)
            &&& forall|i: int| n <= i < s.len() ==> is_white(#[trigger] s[i])
            &&& n > 0 ==> !is_white(s[n - 1])
        }),
    decreases s.len(),
{
    if s.len() > 0 && is_white(s.last()) {
        let rest = s.drop_last();
        lemma_cut_at_the_end(rest);
        let n = trimmed_end(s).len() as int;
        assert(rest.take(n) == s.take(n));
        assert forall|i: int| n <= i < s.len() implies is_white(#[trigger] s[i]) by {
            if i < rest.len() {
                assert(rest[i] == s[i]);
            }
        }
    } else {
        assert(s.take(s.len() as int) == s);
    }
}

/// Cutting white space off both ends leaves a part of the text that neither starts nor
/// ends with any, and around which there is nothing else.
pub proof fn law_cut_at_both_ends(s: Seq<char>)
    ensures
        exists|i: int, j: int|
            {
                &&& 0 <= i <= j <= s.len()
                &&& trimmed(s) == #[trigger] s.subrange(i, j)
                &&& forall|k: int| 0 <= k < i || j <= k < s.len() ==> is_white(#[trigger] s[k])
                &&& i < j ==> !is_white(s[i]) && !is_white(s[j - 1])
            },
{
    law_cut_at_the_start(s);
    let t = trimmed_start(s);
    lemma_cut_at_the_end(t);
    let i = s.len() - t.len();
    let j = i + trimmed_end(t).len();
    assert(trimmed(s) == s.subrange(i, j));
    assert forall|k: int| 0 <= k < i || j <= k < s.len() implies is_white(#[trigger] s[k]) by {
        if j <= k {
            assert(t[k - i] == s[k]);
        }
    }
}

/// The head of a text is its start up to the first of the given characters, or the whole
/// of it where none of them stands in it.
pub proof fn law_head_of_a_text(s: Seq<char>, stops: Seq<char>)
    ensures
        ({
            let n = head_until(s, stops).len() as int;
            &&& n <= s.len()
            &&& head_until(s, stops) == s.take(n)
            &&& forall|i: int| 0 <= i < n ==> !stops.contains(#[trigger] s[i])
            &&& n < s.len() ==> stops.contains(s[n])
        }),
    decreases s.len(),
{
    if s.len() > 0 && !stops.contains(s[0]) {
        let rest = s.skip(1);
        law_head_of_a_text(rest, stops);
        let n = head_until(s, stops).len() as int;
        assert(seq![s[0]] + rest.take(n - 1) == s.take(n));
        assert forall|i: int| 0 <= i < n implies !stops.contains(#[trigger] s[i]) by {
            if i > 0 {
                assert(rest[i - 1] == s[i]);
            }
        }
    } else {
        assert(s.take(0) == Seq::<char>::empty());
    }
}

/// What is put together of two lists is what is put together of each, with the separator
/// between them. One item alone has none.
pub proof fn law_joined_lists(a: Seq<Seq<char>>, b: Seq<Seq<char>>, sep: Seq<char>, one: Seq<char>)
    ensures
        joined(Seq::empty(), sep).len() == 0,
        joined(seq![one], sep) == one,
        a.len() > 0 && b.len() > 0 ==> joined(a + b, sep) == joined(a, sep) + sep + joined(b, sep),
    decreases b.len(),
{
    if a.len() > 0 && b.len() > 0 {
        let all = a + b;
        assert(all.drop_last() == a + b.drop_last());
        assert(all.last() == b.last());
        if b.len() == 1 {
            assert(b.drop_last() == Seq::<Seq<char>>::empty());
            assert(all.drop_last() == a);
        } else {
            law_joined_lists(a, b.drop_last(), sep, one);
            let x = joined(a, sep);
            let y = joined(b.drop_last(), sep);
            assert(x + sep + y + sep + b.last() == x + sep + (y + sep + b.last()));
        }
    }
}

/// A line ends with a line feed, or with a carriage return and a line feed, neither of
/// which belongs to it. What follows are the other lines. The last line may do without.
pub proof fn law_lines_of_a_text(line: Seq<char>, rest: Seq<char>)
    requires
        !line.contains('\n'),
        line.len() > 0 ==> line.last() != '\r',
    ensures
        lines_of(Seq::empty()).len() == 0,
        line.len() > 0 ==> lines_of(line) == seq![line],
        lines_of(line + seq!['\n'] + rest) == seq![line] + lines_of(rest),
        lines_of(line + seq!['\r', '\n'] + rest) == seq![line] + lines_of(rest),
{
    law_joined_lines(line, rest);
    let returned = line.push('\r');
    law_joined_lines(returned, rest);
    assert(returned + seq!['\n'] + rest == line + seq!['\r', '\n'] + rest);
    assert forall|i: int| 0 <= i < line.len() implies line[i] != '\n' by {
        assert(line.contains(line[i]));
    }
    lemma_line_end(line);
    lemma_line_end(returned);
    assert(lines_of(returned) == seq![returned]) by {
        let end = line_end(returned);
        if end < returned.len() {
            assert(returned[end] == '\n');
            assert(end < line.len() ==> line[end] == returned[end]);
        }
    }
    assert(seq![returned].drop_last() == Seq::<Seq<char>>::empty());
    assert(returned.drop_last() == line);
    assert(closed_lines(returned) == seq![line]);
    if line.len() > 0 {
        let end = line_end(line);
        assert(end >= line.len());
        assert(lines_of(line) == seq![line]);
        assert(seq![line].drop_last() == Seq::<Seq<char>>::empty());
        assert(line.last() == line[line.len() - 1]);
        assert(closed_lines(line) == seq![line]);
    } else {
        assert(lines_of(line) == Seq::<Seq<char>>::empty());
        assert(line == Seq::<char>::empty());
        assert(closed_lines(line) == seq![line]);
    }
}

} // verus!
