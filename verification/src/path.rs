//! Slash-separated paths, treated lexically: nothing here looks at the
//! filesystem.
//!
//! The slash is the only separator here, as it is on Unix. On a platform where the
//! backslash separates too, a path is handed over with slashes in its place, which
//! is what [`slashed`] does. Drives and shares are not known here: one at the start
//! of a directory counts as its first name, and a name that starts with one is
//! handed over as an absolute path.

use vstd::prelude::*;

use crate::error::StorageError;
use crate::text::{chars_of, concat2, join, joined, str_eq, texts};

verus! {

/// The pieces between the slashes of `s`.
pub open spec fn slash_pieces(s: Seq<char>) -> Seq<Seq<char>>
    decreases s.len(),
{
    if s.len() == 0 {
        seq![Seq::empty()]
    } else {
        let front = slash_pieces(s.drop_last());
        if s.last() == '/' {
            front.push(Seq::empty())
        } else {
            front.drop_last().push(front.last().push(s.last()))
        }
    }
}

/// Whether a path starts at the root.
pub open spec fn path_is_absolute(s: Seq<char>) -> bool {
    s.len() > 0 && s[0] == '/'
}

/// One step of normalization: `.` and empty pieces vanish, `..` takes back the
/// piece before it where that piece is a name, and stays otherwise.
pub open spec fn resolve_piece(out: Seq<Seq<char>>, piece: Seq<char>) -> Seq<Seq<char>> {
    if piece.len() == 0 || piece == "."@ {
        out
    } else if piece == ".."@ && out.len() > 0 && out.last() != ".."@ {
        out.drop_last()
    } else {
        out.push(piece)
    }
}

/// The pieces that are left of `pieces` after normalization.
pub open spec fn resolved(pieces: Seq<Seq<char>>) -> Seq<Seq<char>>
    decreases pieces.len(),
{
    if pieces.len() == 0 {
        Seq::empty()
    } else {
        resolve_piece(resolved(pieces.drop_last()), pieces.last())
    }
}

/// The names that a path leads through, after normalization.
pub open spec fn path_names(s: Seq<char>) -> Seq<Seq<char>> {
    resolved(slash_pieces(s))
}

/// A path written out from its names.
pub open spec fn path_text(absolute: bool, names: Seq<Seq<char>>) -> Seq<char> {
    if absolute {
        "/"@ + joined(names, "/"@)
    } else {
        joined(names, "/"@)
    }
}

/// The normal form of a path.
pub open spec fn normal_path(s: Seq<char>) -> Seq<char> {
    path_text(path_is_absolute(s), path_names(s))
}

/// `name` looked up in the directory `base`.
pub open spec fn path_join(base: Seq<char>, name: Seq<char>) -> Seq<char> {
    if path_is_absolute(name) {
        name
    } else if base.len() == 0 || base.last() == '/' {
        base + name
    } else {
        base + "/"@ + name
    }
}

/// Whether `sub`, looked up in `base`, is one of the entries of `base` itself.
pub open spec fn is_direct_child(base: Seq<char>, sub: Seq<char>) -> bool {
    let target = path_join(base, sub);
    let names = path_names(target);
    &&& path_is_absolute(target) == path_is_absolute(base)
    &&& names.len() > 0
    &&& names.last() != ".."@
    &&& names.drop_last() == path_names(base)
}

/// What a caller is told about a storage name that leaves its directory.
pub open spec fn bad_subdirectory_text(sub: Seq<char>) -> Seq<char> {
    "Invalid storage name or alias \""@ + sub
        + "\". It must map to a single subdirectory under the storage directory and must not contain path separators, parent directory references (\"..\") or absolute paths."@
}

/// The pieces between the slashes of `path`.
fn split_slashes(path: &str) -> (r: Vec<String>)
    ensures
        texts(r@) == slash_pieces(path@),
{
    let chars = chars_of(path);
    let mut out: Vec<String> = Vec::new();
    let mut piece = String::new();
    for i in 0..chars.len()
        invariant
            chars@ == path@,
            texts(out@).push(piece@) == slash_pieces(path@.take(i as int)),
    {
        let c = chars[i];
        assert(path@.take(i + 1).drop_last() == path@.take(i as int));
        assert(texts(out@).push(piece@).drop_last() == texts(out@));
        if c == '/' {
            let ghost before = out@;
            out.push(piece);
            piece = String::new();
            assert(texts(out@) == texts(before).push(out@.last()@));
        } else {
            piece.push(c);
        }
    }
    let ghost before = out@;
    let ghost last = piece@;
    out.push(piece);
    assert(texts(out@) == texts(before).push(last));
    assert(path@.take(path@.len() as int) == path@);
    out
}

/// The names that a path leads through, after normalization.
fn names_of(path: &str) -> (r: Vec<String>)
    ensures
        texts(r@) == path_names(path@),
{
    let pieces = split_slashes(path);
    let mut out: Vec<String> = Vec::new();
    for i in 0..pieces.len()
        invariant
            texts(pieces@) == slash_pieces(path@),
            texts(out@) == resolved(texts(pieces@).take(i as int)),
    {
        let piece = &pieces[i];
        let ghost before = out@;
        assert(texts(pieces@).take(i + 1).drop_last() == texts(pieces@).take(i as int));
        assert(texts(pieces@).take(i + 1).last() == piece@);
        if piece.as_str().is_empty() || str_eq(piece.as_str(), ".") {
        } else if str_eq(piece.as_str(), "..") && out.len() > 0 && !str_eq(
            out[out.len() - 1].as_str(),
            "..",
        ) {
            out.pop();
            assert(texts(out@) == texts(before).drop_last());
        } else {
            out.push(piece.clone());
            assert(texts(out@) == texts(before).push(piece@));
        }
    }
    assert(texts(pieces@).take(pieces@.len() as int) == texts(pieces@));
    out
}

/// Whether a path starts at the root.
fn is_absolute(path: &str) -> (r: bool)
    ensures
        r == path_is_absolute(path@),
{
    let chars = chars_of(path);
    chars.len() > 0 && chars[0] == '/'
}

/// The path `name` looked up in the directory `base`; an absolute `name`
/// stands for itself.
pub fn join_path(base: &str, name: &str) -> (r: String)
    ensures
        r@ == path_join(base@, name@),
{
    if is_absolute(name) {
        return name.to_string();
    }
    let chars = chars_of(base);
    let mut out = base.to_string();
    if chars.len() > 0 && chars[chars.len() - 1] != '/' {
        out.append("/");
    }
    out.append(name);
    assert(base@ + name@ == out@ || base@ + "/"@ + name@ == out@);
    out
}

/// The normal form of a path: `.` is dropped, and `..` takes back the name
/// before it.
pub fn normalize_lexically(path: &str) -> (r: String)
    ensures
        r@ == normal_path(path@),
{
    let names = names_of(path);
    let text = join(names.as_slice(), "/");
    if is_absolute(path) {
        concat2("/", text.as_str())
    } else {
        text
    }
}

/// Whether two lists of names are the same.
fn same_names(a: &[String], b: &[String]) -> (r: bool)
    ensures
        r == (texts(a@) == texts(b@)),
{
    if a.len() != b.len() {
        assert(texts(a@).len() != texts(b@).len());
        return false;
    }
    for i in 0..a.len()
        invariant
            a@.len() == b@.len(),
            forall|j: int| 0 <= j < i ==> texts(a@)[j] == texts(b@)[j],
    {
        if !str_eq(a[i].as_str(), b[i].as_str()) {
            assert(texts(a@)[i as int] != texts(b@)[i as int]);
            return false;
        }
    }
    assert(texts(a@) == texts(b@));
    true
}

/// A path with slashes for its separators, where the backslash may be one.
pub open spec fn slashed_text(path: Seq<char>, backslash_separates: bool) -> Seq<char> {
    path.map_values(
        |c: char|
            if backslash_separates && c == '\\' {
                '/'
            } else {
                c
            },
    )
}

/// A path of a platform as a slash-separated one. Where the backslash separates on
/// that platform, each becomes a slash; elsewhere it belongs to a name and stays.
pub fn slashed(path: &str, backslash_separates: bool) -> (r: String)
    ensures
        r@ == slashed_text(path@, backslash_separates),
{
    let chars = chars_of(path);
    let mut out = String::new();
    for i in 0..chars.len()
        invariant
            chars@ == path@,
            out@ == slashed_text(path@.take(i as int), backslash_separates),
    {
        let c = chars[i];
        assert(path@.take(i + 1) == path@.take(i as int).push(c));
        if backslash_separates && c == '\\' {
            out.push('/');
        } else {
            out.push(c);
        }
        assert(out@ == slashed_text(path@.take(i + 1), backslash_separates));
    }
    assert(path@.take(path@.len() as int) == path@);
    out
}

/// Resolves a storage name inside the directory `base_dir`. Only an entry of
/// `base_dir` itself is accepted: neither a nested path, nor one that leads out
/// of it.
///
/// Both are slash-separated: a backslash is an ordinary character of a name, so
/// `a\b` is one name and accepted, as it is on Unix. On a platform where the
/// backslash separates, `a\b` is a nested path; there a caller hands over what
/// [`slashed`] makes of it, `a/b`, and it is refused.
pub fn validate_subdirectory(base_dir: &str, subdirectory: &str) -> (r: Result<
    String,
    StorageError,
>)
    ensures
        match r {
            Ok(path) => {
                &&& is_direct_child(base_dir@, subdirectory@)
                &&& path@ == normal_path(path_join(base_dir@, subdirectory@))
            },
            Err(e) => {
                &&& !is_direct_child(base_dir@, subdirectory@)
                &&& e matches StorageError::InvalidArgs(text)
                &&& text@ == bad_subdirectory_text(subdirectory@)
            },
        },
{
    let joined_path = join_path(base_dir, subdirectory);
    let target = joined_path.as_str();
    let names = names_of(target);
    let base = names_of(base_dir);
    let n = names.len();
    let mut ok = false;
    if is_absolute(target) == is_absolute(base_dir) && n > 0 {
        assert(texts(names@).last() == names@[n - 1]@);
        if !str_eq(names[n - 1].as_str(), "..") {
            let parent = vstd::slice::slice_subrange(names.as_slice(), 0, n - 1);
            ok = same_names(parent, base.as_slice());
            assert(texts(parent@) == texts(names@).drop_last());
        }
    }
    if ok {
        Ok(normalize_lexically(target))
    } else {
        let mut text = concat2("Invalid storage name or alias \"", subdirectory);
        text.append("\". It must map to a single subdirectory under the storage directory and must not contain path separators, parent directory references (\"..\") or absolute paths.");
        Err(StorageError::InvalidArgs(text))
    }
}

/// Whether `piece` holds no slash.
pub open spec fn no_slash(piece: Seq<char>) -> bool {
    forall|i: int| 0 <= i < piece.len() ==> piece[i] != '/'
}

/// Whether `name` is an ordinary file name: not empty, no slash in it, and
/// neither `.` nor `..`.
pub open spec fn is_plain_name(name: Seq<char>) -> bool {
    name.len() > 0 && no_slash(name) && name != "."@ && name != ".."@
}

/// Whether every item could stand between two slashes of a normal path.
spec fn normal_names(names: Seq<Seq<char>>) -> bool {
    forall|i: int|
        0 <= i < names.len() ==> (#[trigger] names[i]).len() > 0 && no_slash(names[i]) && names[i]
            != "."@
}

proof fn lemma_pieces_no_slash(s: Seq<char>)
    ensures
        slash_pieces(s).len() > 0,
        forall|i: int| 0 <= i < slash_pieces(s).len() ==> no_slash(#[trigger] slash_pieces(s)[i]),
    decreases s.len(),
{
    if s.len() > 0 {
        lemma_pieces_no_slash(s.drop_last());
        let front = slash_pieces(s.drop_last());
        assert(no_slash(front[front.len() - 1]));
        assert forall|i: int| 0 <= i < slash_pieces(s).len() implies no_slash(
            #[trigger] slash_pieces(s)[i],
        ) by {
            if i < front.len() - 1 {
                assert(no_slash(front[i]));
            }
        }
    }
}

proof fn lemma_pieces_append(s: Seq<char>, t: Seq<char>)
    requires
        no_slash(t),
    ensures
        slash_pieces(s + t) == slash_pieces(s).drop_last().push(slash_pieces(s).last() + t),
    decreases t.len(),
{
    lemma_pieces_no_slash(s);
    let p = slash_pieces(s);
    if t.len() == 0 {
        assert(s + t == s);
        assert(p.last() + t == p.last());
        assert(p == p.drop_last().push(p.last()));
    } else {
        let u = t.drop_last();
        lemma_pieces_append(s, u);
        assert((s + t).drop_last() == s + u);
        assert((s + t).last() == t.last());
        let front = slash_pieces(s + u);
        assert(front.drop_last() == p.drop_last());
        assert((p.last() + u).push(t.last()) == p.last() + t);
    }
}

proof fn lemma_pieces_slash(s: Seq<char>)
    ensures
        slash_pieces(s + "/"@) == slash_pieces(s).push(Seq::empty()),
{
    reveal_strlit("/");
    assert((s + "/"@).drop_last() == s);
    assert((s + "/"@).last() == '/');
}

proof fn lemma_pieces_of_joined(prefix: Seq<char>, names: Seq<Seq<char>>)
    requires
        normal_names(names),
        names.len() > 0,
        slash_pieces(prefix).last() == Seq::<char>::empty(),
    ensures
        slash_pieces(prefix + joined(names, "/"@)) == slash_pieces(prefix).drop_last() + names,
    decreases names.len(),
{
    let p = slash_pieces(prefix);
    lemma_pieces_no_slash(prefix);
    assert(no_slash(names.last()));
    if names.len() == 1 {
        lemma_pieces_append(prefix, names[0]);
        assert(p.last() + names[0] == names[0]);
        assert(p.drop_last().push(names[0]) == p.drop_last() + names);
    } else {
        let front = names.drop_last();
        lemma_pieces_of_joined(prefix, front);
        let j = prefix + joined(front, "/"@);
        lemma_pieces_slash(j);
        lemma_pieces_append(j + "/"@, names.last());
        assert(prefix + joined(names, "/"@) == j + "/"@ + names.last());
        assert(Seq::<char>::empty() + names.last() == names.last());
        assert(slash_pieces(j).push(Seq::empty()).drop_last() == slash_pieces(j));
        assert((p.drop_last() + front).push(names.last()) == p.drop_last() + names);
    }
}

proof fn lemma_resolved_len(pieces: Seq<Seq<char>>)
    ensures
        resolved(pieces).len() <= pieces.len(),
    decreases pieces.len(),
{
    if pieces.len() > 0 {
        lemma_resolved_len(pieces.drop_last());
    }
}

proof fn lemma_resolved_normal(pieces: Seq<Seq<char>>)
    requires
        forall|i: int| 0 <= i < pieces.len() ==> no_slash(#[trigger] pieces[i]),
    ensures
        normal_names(resolved(pieces)),
        resolved(resolved(pieces)) == resolved(pieces),
    decreases pieces.len(),
{
    if pieces.len() > 0 {
        let front = pieces.drop_last();
        let r = resolved(front);
        let piece = pieces.last();
        assert forall|i: int| 0 <= i < front.len() implies no_slash(#[trigger] front[i]) by {
            assert(no_slash(pieces[i]));
        }
        lemma_resolved_normal(front);
        assert(no_slash(pieces[pieces.len() - 1]));
        if piece.len() == 0 || piece == "."@ {
        } else if piece == ".."@ && r.len() > 0 && r.last() != ".."@ {
            let q = r.drop_last();
            lemma_resolved_len(q);
            assert(resolved(r) == resolve_piece(resolved(q), r.last()));
            assert(r.drop_last() == q);
            assert(resolved(q).push(r.last()).drop_last() == resolved(q));
        } else {
            assert(r.push(piece).drop_last() == r);
        }
    }
}

proof fn lemma_resolved_skips_empty(names: Seq<Seq<char>>)
    ensures
        resolved(seq![Seq::<char>::empty()] + names) == resolved(names),
    decreases names.len(),
{
    let all = seq![Seq::<char>::empty()] + names;
    if names.len() == 0 {
        assert(all.drop_last() == Seq::<Seq<char>>::empty());
        assert(resolved(all.drop_last()) == Seq::<Seq<char>>::empty());
    } else {
        lemma_resolved_skips_empty(names.drop_last());
        assert(all.drop_last() == seq![Seq::<char>::empty()] + names.drop_last());
    }
}

proof fn lemma_joined_start(names: Seq<Seq<char>>)
    requires
        normal_names(names),
        names.len() > 0,
    ensures
        joined(names, "/"@).len() > 0,
        joined(names, "/"@)[0] != '/',
    decreases names.len(),
{
    assert(names[0].len() > 0 && no_slash(names[0]));
    if names.len() > 1 {
        lemma_joined_start(names.drop_last());
    }
}

/// Normalizing a path leads through the same names as the path itself, so
/// normalizing twice is the same as normalizing once.
pub proof fn law_normalization_is_idempotent(path: Seq<char>)
    ensures
        path_names(normal_path(path)) == path_names(path),
        path_is_absolute(normal_path(path)) == path_is_absolute(path),
        normal_path(normal_path(path)) == normal_path(path),
{
    lemma_pieces_no_slash(path);
    lemma_resolved_normal(slash_pieces(path));
    let names = path_names(path);
    let empty = Seq::<char>::empty();
    reveal_strlit("/");
    assert(slash_pieces(empty) == seq![empty]);
    lemma_pieces_slash(empty);
    assert(empty + "/"@ == "/"@);
    assert(slash_pieces("/"@) == seq![empty, empty]);
    lemma_resolved_skips_empty(Seq::empty());
    assert(seq![empty] + Seq::<Seq<char>>::empty() == seq![empty]);
    lemma_resolved_skips_empty(seq![empty]);
    assert(seq![empty] + seq![empty] == seq![empty, empty]);
    if names.len() == 0 {
        assert("/"@ + joined(names, "/"@) == "/"@);
        assert(names == Seq::<Seq<char>>::empty());
    } else {
        lemma_joined_start(names);
        lemma_pieces_of_joined("/"@, names);
        lemma_pieces_of_joined(empty, names);
        lemma_resolved_skips_empty(names);
        assert(empty + joined(names, "/"@) == joined(names, "/"@));
        assert(seq![empty].drop_last() + names == names);
        assert(seq![empty, empty].drop_last() == seq![empty]);
    }
}

/// A storage name that is an ordinary file name is always accepted, and leads
/// to the entry of that name in the base directory.
pub proof fn law_plain_names_are_accepted(base: Seq<char>, name: Seq<char>)
    requires
        is_plain_name(name),
    ensures
        is_direct_child(base, name),
        path_names(path_join(base, name)) == path_names(base).push(name),
{
    lemma_pieces_no_slash(base);
    let p = slash_pieces(base);
    let empty = Seq::<char>::empty();
    assert(name[0] != '/');
    reveal_strlit("/");
    assert(empty + name == name);
    if base.len() == 0 || base.last() == '/' {
        lemma_pieces_append(base, name);
        assert(p.last() == empty);
        assert(resolved(p) == resolved(p.drop_last()));
        assert(p.drop_last().push(name).drop_last() == p.drop_last());
    } else {
        lemma_pieces_slash(base);
        lemma_pieces_append(base + "/"@, name);
        assert(p.push(empty).drop_last() == p);
        assert(p.push(name).drop_last() == p);
    }
    assert(path_names(base).push(name).drop_last() == path_names(base));
}

proof fn lemma_nested_pieces(s: Seq<char>, t: Seq<char>)
    requires
        no_slash(t),
    ensures
        slash_pieces(s + "/"@ + t) == slash_pieces(s).push(t),
{
    lemma_pieces_no_slash(s);
    lemma_pieces_slash(s);
    lemma_pieces_append(s + "/"@, t);
    assert(Seq::<char>::empty() + t == t);
    assert(slash_pieces(s).push(Seq::empty()).drop_last() == slash_pieces(s));
}

/// Where the backslash separates, a name in which two ordinary names stand on
/// either side of one is refused as a nested path.
pub proof fn law_separated_names_are_refused(base: Seq<char>, a: Seq<char>, b: Seq<char>)
    requires
        is_plain_name(a),
        is_plain_name(b),
        !a.contains('\\'),
        !b.contains('\\'),
    ensures
        slashed_text(a + seq!['\\'] + b, true) == a + "/"@ + b,
        !is_direct_child(base, slashed_text(a + seq!['\\'] + b, true)),
{
    reveal_strlit("/");
    let sub = a + "/"@ + b;
    let raw = a + seq!['\\'] + b;
    assert(slashed_text(raw, true) == sub) by {
        assert forall|i: int| 0 <= i < sub.len() implies slashed_text(raw, true)[i] == sub[i] by {
            if i < a.len() {
                assert(a.contains(a[i]));
            } else if i > a.len() {
                assert(b.contains(b[i - a.len() - 1]));
            }
        }
    }
    law_plain_names_are_accepted(base, a);
    let first = path_join(base, a);
    assert(a[0] != '/');
    assert(sub[0] == a[0]);
    let target = path_join(base, sub);
    assert(target == first + "/"@ + b);
    lemma_nested_pieces(first, b);
    let pieces = slash_pieces(first);
    assert(pieces.push(b).drop_last() == pieces);
    let names = path_names(first);
    assert(path_names(target) == names.push(b));
    assert(names.push(b).drop_last() == names);
    assert(names.len() == path_names(base).len() + 1);
}

/// Whatever name is accepted, the returned path is one of the entries of the
/// base directory: it leads through the names of the base and one more.
pub proof fn law_accepted_paths_are_children(base: Seq<char>, sub: Seq<char>)
    requires
        is_direct_child(base, sub),
    ensures
        ({
            let path = normal_path(path_join(base, sub));
            &&& path_is_absolute(path) == path_is_absolute(base)
            &&& path_names(path).drop_last() == path_names(base)
            &&& path_names(path).len() == path_names(base).len() + 1
            &&& is_plain_name(path_names(path).last())
        }),
{
    let target = path_join(base, sub);
    law_normalization_is_idempotent(target);
    lemma_pieces_no_slash(target);
    lemma_resolved_normal(slash_pieces(target));
    let names = path_names(target);
    assert(names[names.len() - 1].len() > 0);
}

/// Going one step further from a path: an empty step and `.` lead nowhere, `..` leads
/// back by one name where there is one to go back, and any other step leads to the
/// entry of that name.
pub proof fn law_steps_of_a_path(path: Seq<char>, step: Seq<char>)
    requires
        !step.contains('/'),
    ensures
        ({
            let names = path_names(path);
            path_names(path + "/"@ + step) == if step == ""@ || step == "."@ {
                names
            } else if step == ".."@ && names.len() > 0 && names.last() != ".."@ {
                names.drop_last()
            } else {
                names.push(step)
            }
        }),
{
    reveal_strlit("");
    assert forall|i: int| 0 <= i < step.len() implies step[i] != '/' by {
        assert(step.contains(step[i]));
    }
    lemma_nested_pieces(path, step);
    let pieces = slash_pieces(path);
    assert(pieces.push(step).drop_last() == pieces);
    if step.len() == 0 {
        assert(step == ""@);
    }
}

/// A path that starts nowhere leads through no names, and one step alone through what
/// it leads to.
pub proof fn law_single_steps(step: Seq<char>)
    requires
        !step.contains('/'),
    ensures
        path_names(""@) == Seq::<Seq<char>>::empty(),
        path_names(step) == if step == ""@ || step == "."@ {
            Seq::<Seq<char>>::empty()
        } else {
            seq![step]
        },
        !path_is_absolute(step),
        path_is_absolute("/"@ + step),
{
    reveal_strlit("");
    reveal_strlit("/");
    let empty = Seq::<char>::empty();
    assert(""@ == empty);
    assert(slash_pieces(empty) == seq![empty]);
    assert(seq![empty].drop_last() == Seq::<Seq<char>>::empty());
    assert(resolved(seq![empty].drop_last()) == Seq::<Seq<char>>::empty());
    assert forall|i: int| 0 <= i < step.len() implies step[i] != '/' by {
        assert(step.contains(step[i]));
    }
    lemma_pieces_append(empty, step);
    assert(empty + step == step);
    assert(slash_pieces(step) == seq![step]);
    assert(seq![step].drop_last() == Seq::<Seq<char>>::empty());
    assert(Seq::<Seq<char>>::empty().push(step) == seq![step]);
    if step.len() == 0 {
        assert(step == ""@);
    }
}

/// The normal form of a path starts where the path does and leads through the same
/// names.
pub proof fn law_normal_form_leads_to_the_same_place(path: Seq<char>)
    ensures
        path_names(normal_path(path)) == path_names(path),
        path_is_absolute(normal_path(path)) == path_is_absolute(path),
        !path_is_absolute(path) ==> normal_path(path) == joined(path_names(path), "/"@),
        path_is_absolute(path) ==> normal_path(path) == "/"@ + joined(path_names(path), "/"@),
{
    lemma_pieces_no_slash(path);
    lemma_resolved_normal(slash_pieces(path));
    let names = path_names(path);
    let empty = Seq::<char>::empty();
    reveal_strlit("/");
    assert(slash_pieces(empty) == seq![empty]);
    lemma_pieces_slash(empty);
    assert(empty + "/"@ == "/"@);
    assert(slash_pieces("/"@) == seq![empty, empty]);
    lemma_resolved_skips_empty(Seq::empty());
    assert(seq![empty] + Seq::<Seq<char>>::empty() == seq![empty]);
    lemma_resolved_skips_empty(seq![empty]);
    assert(seq![empty] + seq![empty] == seq![empty, empty]);
    if names.len() == 0 {
        assert("/"@ + joined(names, "/"@) == "/"@);
        assert(names == Seq::<Seq<char>>::empty());
    } else {
        lemma_joined_start(names);
        lemma_pieces_of_joined("/"@, names);
        lemma_pieces_of_joined(empty, names);
        lemma_resolved_skips_empty(names);
        assert(empty + joined(names, "/"@) == joined(names, "/"@));
        assert(seq![empty].drop_last() + names == names);
        assert(seq![empty, empty].drop_last() == seq![empty]);
    }
}

/// A storage name that leads nowhere, back, or to the root from elsewhere is refused.
pub proof fn law_other_names_are_refused(base: Seq<char>, rest: Seq<char>)
    ensures
        !is_direct_child(base, ""@),
        !is_direct_child(base, "."@),
        !is_direct_child(base, ".."@),
        !path_is_absolute(base) ==> !is_direct_child(base, "/"@ + rest),
{
    reveal_strlit("");
    reveal_strlit(".");
    reveal_strlit("..");
    reveal_strlit("/");
    lemma_refused_step(base, ""@);
    lemma_refused_step(base, "."@);
    lemma_refused_step(base, ".."@);
}

proof fn lemma_refused_step(base: Seq<char>, step: Seq<char>)
    requires
        step.len() == 0 || step == "."@ || step == ".."@,
        no_slash(step),
    ensures
        !is_direct_child(base, step),
{
    lemma_pieces_no_slash(base);
    reveal_strlit("/");
    let p = slash_pieces(base);
    let empty = Seq::<char>::empty();
    let names = path_names(base);
    assert(empty + step == step);
    if base.len() == 0 || base.last() == '/' {
        lemma_pieces_append(base, step);
        assert(p.last() == empty);
        assert(resolved(p) == resolved(p.drop_last()));
        assert(p.drop_last().push(step).drop_last() == p.drop_last());
    } else {
        lemma_pieces_slash(base);
        lemma_pieces_append(base + "/"@, step);
        assert(p.push(empty).drop_last() == p);
        assert(p.push(step).drop_last() == p);
    }
    let target = path_names(path_join(base, step));
    assert(target == resolve_piece(names, step));
    if target.len() > 0 && target.drop_last() == names {
        assert(target.len() == names.len() + 1);
        assert(target.last() == step);
    }
}

/// Where the backslash does not separate, a path stays as it is. Where it does, each one
/// becomes a slash, and everything else stays.
pub proof fn law_separators_of_a_path(path: Seq<char>, i: int)
    ensures
        slashed_text(path, false) == path,
        slashed_text(path, true).len() == path.len(),
        0 <= i < path.len() ==> slashed_text(path, true)[i] == if path[i] == '\\' {
            '/'
        } else {
            path[i]
        },
{
}

proof fn lemma_first_step(base: Seq<char>, step: Seq<char>, rest: Seq<char>)
    requires
        step.len() > 0,
        no_slash(step),
    ensures
        path_names(path_join(base, step)) == resolve_piece(path_names(base), step),
        path_join(base, step + "/"@ + rest) == path_join(base, step) + "/"@ + rest,
        path_is_absolute(path_join(base, step + "/"@ + rest)) == path_is_absolute(base),
{
    lemma_pieces_no_slash(base);
    reveal_strlit("/");
    let p = slash_pieces(base);
    let empty = Seq::<char>::empty();
    let sub = step + "/"@ + rest;
    assert(step[0] != '/' && sub[0] == step[0]);
    assert(empty + step == step);
    if base.len() == 0 || base.last() == '/' {
        lemma_pieces_append(base, step);
        assert(p.last() == empty);
        assert(resolved(p) == resolved(p.drop_last()));
        assert(p.drop_last().push(step).drop_last() == p.drop_last());
        assert(base + sub == base + step + "/"@ + rest);
    } else {
        lemma_pieces_slash(base);
        lemma_pieces_append(base + "/"@, step);
        assert(p.push(empty).drop_last() == p);
        assert(p.push(step).drop_last() == p);
        assert(base + "/"@ + sub == base + "/"@ + step + "/"@ + rest);
    }
}

proof fn lemma_further_step(path: Seq<char>, step: Seq<char>)
    requires
        no_slash(step),
    ensures
        path_names(path + "/"@ + step) == resolve_piece(path_names(path), step),
{
    lemma_nested_pieces(path, step);
    assert(slash_pieces(path).push(step).drop_last() == slash_pieces(path));
}

/// A storage name is accepted by where it leads to: a detour through another entry and
/// back, through the directory itself, or a slash at the end make no difference.
pub proof fn law_detours_are_accepted(base: Seq<char>, a: Seq<char>, b: Seq<char>)
    requires
        is_plain_name(a),
        is_plain_name(b),
    ensures
        is_direct_child(base, a + "/"@ + (".."@ + "/"@ + b)),
        is_direct_child(base, "."@ + "/"@ + b),
        is_direct_child(base, b + "/"@ + ""@),
{
    reveal_strlit("/");
    reveal_strlit(".");
    reveal_strlit("..");
    reveal_strlit("");
    let names = path_names(base);
    assert(names.push(b).drop_last() == names);
    assert(names.push(a).drop_last() == names);
    let back = ".."@ + "/"@ + b;
    lemma_first_step(base, a, back);
    let first = path_join(base, a);
    assert(first + "/"@ + back == (first + "/"@ + ".."@) + "/"@ + b);
    lemma_further_step(first, ".."@);
    lemma_further_step(first + "/"@ + ".."@, b);
    assert(names.push(a).last() == a);
    assert(path_names(first + "/"@ + ".."@) == names);
    assert(path_names(first + "/"@ + back) == names.push(b));
    lemma_first_step(base, "."@, b);
    lemma_further_step(path_join(base, "."@), b);
    lemma_first_step(base, b, ""@);
    lemma_further_step(path_join(base, b), ""@);
}

/// An absolute path that leads to an entry of an absolute directory is accepted as a
/// storage name there.
pub proof fn law_absolute_names_are_accepted(base: Seq<char>, name: Seq<char>)
    requires
        path_is_absolute(base),
        is_plain_name(name),
    ensures
        is_direct_child(base, base + "/"@ + name),
{
    reveal_strlit("/");
    let sub = base + "/"@ + name;
    assert(sub[0] == base[0]);
    lemma_further_step(base, name);
    assert(path_names(base).push(name).drop_last() == path_names(base));
}

} // verus!
