//! What completing the type stubs does, line by line.

use vstd::prelude::*;

use crate::stub_gen::{
    added_entries, class_position, constant_names, declarations_text, defined_class,
    defined_classes, dict_names, dict_text, dicts_text, docstring_text, entries_text, fields_text,
    follows_property, gets_async, init_text, injected_text, is_async_method, is_import, list_open,
    module_constants, name_stops, rewritten, rewritten_line, scan_lines, starts_class,
    toplevel_text, with_entries,
};
use crate::text::{has_prefix, has_text, head_until, is_white, replaced_first, trimmed, trimmed_start};
use crate::text_laws::{law_head_of_a_text, law_starts_and_ends};

verus! {

// ---------------------------------------------------------------------------
// Asynchronous methods
// ---------------------------------------------------------------------------

/// Whether a text is nothing but white space.
pub open spec fn is_blank(s: Seq<char>) -> bool {
    forall|i: int| 0 <= i < s.len() ==> is_white(#[trigger] s[i])
}

proof fn lemma_indented(indent: Seq<char>, text: Seq<char>)
    requires
        is_blank(indent),
        text.len() > 0,
        !is_white(text[0]),
    ensures
        trimmed_start(indent + text) == text,
    decreases indent.len(),
{
    let line = indent + text;
    if indent.len() > 0 {
        let rest = indent.skip(1);
        assert forall|i: int| 0 <= i < rest.len() implies is_white(#[trigger] rest[i]) by {
            assert(is_white(indent[i + 1]));
        }
        lemma_indented(rest, text);
        assert(is_white(indent[0]));
        assert(line.skip(1) == rest + text);
    } else {
        assert(line == text);
    }
}

proof fn lemma_name_before(name: Seq<char>, stop: char, rest: Seq<char>, stops: Seq<char>)
    requires
        forall|i: int| 0 <= i < name.len() ==> !stops.contains(#[trigger] name[i]),
        stops.contains(stop),
    ensures
        head_until(name + seq![stop] + rest, stops) == name,
{
    let s = name + seq![stop] + rest;
    law_head_of_a_text(s, stops);
    let n = head_until(s, stops).len() as int;
    if n < name.len() {
        assert(s[n] == name[n]);
        assert(!stops.contains(name[n]));
    }
    if n > name.len() {
        assert(s[name.len() as int] == stop);
        assert(!stops.contains(s[name.len() as int]));
    }
    assert(s.take(n) == name);
}

/// The source of the bindings is read line by line. A line that starts a method, however
/// far it is indented, opens its signature. The signature is that of an asynchronous
/// method where a line of it has the marking return type, and ends there or where the
/// body starts.
pub proof fn law_signatures_are_read_line_by_line(
    lines: Seq<Seq<char>>,
    indent: Seq<char>,
    name: Seq<char>,
    stop: char,
    rest: Seq<char>,
    line: Seq<char>,
)
    requires
        is_blank(indent),
        forall|i: int|
            0 <= i < name.len() ==> #[trigger] name[i] != '(' && name[i] != '<' && name[i] != ' ',
        stop == '(' || stop == '<' || stop == ' ',
        !has_prefix(trimmed_start(line), "fn "@),
    ensures
        scan_lines(Seq::empty()).names == Set::<Seq<char>>::empty(),
        scan_lines(Seq::empty()).open_fn is None,
        ({
            let before = scan_lines(lines);
            let header = indent + ("fn "@ + (name + seq![stop] + rest));
            let after = scan_lines(lines.push(header));
            &&& has_text(header, "-> PyResult<Bound<'py, pyo3::PyAny>>"@) ==> after.open_fn is None
                && after.names == before.names.insert(name)
            &&& !has_text(header, "-> PyResult<Bound<'py, pyo3::PyAny>>"@) && has_text(header, "{"@)
                ==> after.open_fn is None && after.names == before.names
            &&& !has_text(header, "-> PyResult<Bound<'py, pyo3::PyAny>>"@) && !has_text(
                header,
                "{"@,
            ) ==> after.open_fn == Some(name) && after.names == before.names
        }),
        ({
            let before = scan_lines(lines);
            let after = scan_lines(lines.push(line));
            match before.open_fn {
                None => after == before,
                Some(open) => {
                    &&& has_text(line, "-> PyResult<Bound<'py, pyo3::PyAny>>"@) ==> after.open_fn is None
                        && after.names == before.names.insert(open)
                    &&& !has_text(line, "-> PyResult<Bound<'py, pyo3::PyAny>>"@) ==> after.names
                        == before.names && after.open_fn == if has_text(line, "{"@) {
                        None
                    } else {
                        Some(open)
                    }
                },
            }
        }),
{
    reveal_strlit("fn ");
    let tail = name + seq![stop] + rest;
    let text = "fn "@ + tail;
    let header = indent + text;
    assert(text[0] == 'f');
    lemma_indented(indent, text);
    law_starts_and_ends(text, "fn "@, tail);
    assert(text.skip(3) == tail);
    let stops = seq!['(', '<', ' '];
    assert(stops[0] == '(' && stops[1] == '<' && stops[2] == ' ');
    assert(stops.contains('(') && stops.contains('<') && stops.contains(' '));
    assert(stops == name_stops());
    assert forall|i: int| 0 <= i < name.len() implies !stops.contains(#[trigger] name[i]) by {
        assert(name[i] != '(' && name[i] != '<' && name[i] != ' ');
    }
    lemma_name_before(name, stop, rest, stops);
    assert(lines.push(header).drop_last() == lines);
    assert(lines.push(line).drop_last() == lines);
}

/// A property is never asynchronous. Of the methods with two leading underscores, three
/// are; of the others, those that were read off the source.
pub proof fn law_asynchronous_methods(name: Seq<char>, async_methods: Set<Seq<char>>)
    ensures
        !is_async_method(name, true, async_methods),
        is_async_method("__anext__"@, false, async_methods),
        is_async_method("__aenter__"@, false, async_methods),
        is_async_method("__aexit__"@, false, async_methods),
        has_prefix(name, "__"@) && is_async_method(name, false, async_methods) ==> name
            == "__anext__"@ || name == "__aenter__"@ || name == "__aexit__"@,
        !has_prefix(name, "__"@) ==> (is_async_method(name, false, async_methods)
            <==> async_methods.contains(name)),
{
    reveal_strlit("__");
    reveal_strlit("__anext__");
    reveal_strlit("__aenter__");
    reveal_strlit("__aexit__");
    assert("__anext__"@.take(2) == "__"@);
    assert("__aenter__"@.take(2) == "__"@);
    assert("__aexit__"@.take(2) == "__"@);
}

// ---------------------------------------------------------------------------
// What is written of dictionaries and constants
// ---------------------------------------------------------------------------

/// The fields of a dictionary are written one to a line, each with its type, in order.
pub proof fn law_fields_are_written_in_order(
    fields: Seq<(Seq<char>, Seq<char>)>,
    key: Seq<char>,
    py_type: Seq<char>,
    name: Seq<char>,
)
    ensures
        fields_text(Seq::empty()).len() == 0,
        fields_text(fields.push((key, py_type))) == fields_text(fields) + "    "@ + key + ": "@
            + py_type + "\n"@,
        declarations_text(Seq::empty()).len() == 0,
        declarations_text(fields.push((key, py_type))) == declarations_text(fields) + key + ": "@
            + py_type + "\n"@,
        dict_text(name, fields) == "class "@ + name + "(typing.TypedDict):\n"@ + fields_text(
            fields,
        ),
{
    assert(fields.push((key, py_type)).drop_last() == fields);
}

/// Dictionaries are written one after the other, each behind an empty line.
pub proof fn law_dictionaries_are_written_in_order(
    dicts: Seq<(Seq<char>, Seq<(Seq<char>, Seq<char>)>)>,
    name: Seq<char>,
    fields: Seq<(Seq<char>, Seq<char>)>,
)
    ensures
        dicts_text(Seq::empty()).len() == 0,
        dicts_text(dicts.push((name, fields))) == dicts_text(dicts) + "\n"@ + dict_text(
            name,
            fields,
        ),
{
    assert(dicts.push((name, fields)).drop_last() == dicts);
}

/// Names are listed one to a line, in quotes and with a comma, in order.
pub proof fn law_names_are_listed_in_order(names: Seq<Seq<char>>, name: Seq<char>)
    ensures
        entries_text(Seq::empty()).len() == 0,
        entries_text(names.push(name)) == entries_text(names) + "    \""@ + name + "\",\n"@,
        added_entries() == entries_text(dict_names()) + "    \"NONE_CONTENT_TYPE\",\n"@,
        constant_names() == seq!["NONE_CONTENT_TYPE"@],
{
    assert(names.push(name).drop_last() == names);
    let none = Seq::<Seq<char>>::empty();
    assert(constant_names() == seq!["NONE_CONTENT_TYPE"@]);
    assert(constant_names() == none.push("NONE_CONTENT_TYPE"@));
    assert(constant_names().drop_last() == none);
    assert(entries_text(none) == Seq::<char>::empty());
    reveal_strlit("    \"");
    reveal_strlit("NONE_CONTENT_TYPE");
    reveal_strlit("\",\n");
    reveal_strlit("    \"NONE_CONTENT_TYPE\",\n");
    assert(entries_text(constant_names()) == "    \"NONE_CONTENT_TYPE\",\n"@);
}

// ---------------------------------------------------------------------------
// The list of exported names
// ---------------------------------------------------------------------------

/// Whether the list of exported names was opened by the line number `i` and not closed
/// by it or a later one.
pub open spec fn opened_at(lines: Seq<Seq<char>>, i: int) -> bool {
    &&& 0 <= i < lines.len()
    &&& has_text(lines[i], "__all__"@) && has_text(lines[i], "["@)
    &&& forall|j: int|
        i <= j < lines.len() ==> !has_prefix(trimmed_start(#[trigger] lines[j]), "]"@)
}

/// The list of exported names is open after some lines exactly where one of them opened
/// it and none closed it since.
pub proof fn law_when_the_list_is_open(lines: Seq<Seq<char>>)
    ensures
        list_open(lines) <==> exists|i: int| #[trigger] opened_at(lines, i),
    decreases lines.len(),
{
    if lines.len() > 0 {
        let front = lines.drop_last();
        let last = lines.len() - 1;
        law_when_the_list_is_open(front);
        if list_open(lines) {
            if list_open(front) {
                let i = choose|i: int| #[trigger] opened_at(front, i);
                assert forall|j: int| i <= j < lines.len() implies !has_prefix(
                    trimmed_start(#[trigger] lines[j]),
                    "]"@,
                ) by {
                    if j < last {
                        assert(front[j] == lines[j]);
                    }
                }
                assert(front[i] == lines[i]);
                assert(opened_at(lines, i));
            } else {
                assert(opened_at(lines, last));
            }
        }
        if exists|i: int| #[trigger] opened_at(lines, i) {
            let i = choose|i: int| #[trigger] opened_at(lines, i);
            assert(!has_prefix(trimmed_start(lines[last]), "]"@));
            if i < last {
                assert(front[i] == lines[i]);
                assert forall|j: int| i <= j < front.len() implies !has_prefix(
                    trimmed_start(#[trigger] front[j]),
                    "]"@,
                ) by {
                    assert(front[j] == lines[j]);
                }
                assert(opened_at(front, i));
            }
        }
    } else {
        assert forall|i: int| !#[trigger] opened_at(lines, i) by {}
    }
}

/// Every line is written as it is. Before the line that closes the list of exported
/// names, and nowhere else, the names of the dictionaries and of the constant are added.
pub proof fn law_names_are_added_where_the_list_closes(lines: Seq<Seq<char>>, line: Seq<char>)
    ensures
        with_entries(Seq::empty()).len() == 0,
        !has_prefix(trimmed_start(line), "]"@) ==> with_entries(lines.push(line)) == with_entries(
            lines,
        ) + line + "\n"@,
        has_prefix(trimmed_start(line), "]"@) && list_open(lines) ==> with_entries(lines.push(line))
            == with_entries(lines) + entries_text(dict_names()) + "    \"NONE_CONTENT_TYPE\",\n"@
            + line + "\n"@,
        has_prefix(trimmed_start(line), "]"@) && !list_open(lines) && !(has_text(line, "__all__"@)
            && has_text(line, "["@)) ==> with_entries(lines.push(line)) == with_entries(lines)
            + line + "\n"@,
{
    assert(lines.push(line).drop_last() == lines);
    law_names_are_listed_in_order(lines, line);
    let w = with_entries(lines);
    assert(w + Seq::<char>::empty() == w);
    assert(w + (entries_text(dict_names()) + "    \"NONE_CONTENT_TYPE\",\n"@) == w + entries_text(
        dict_names(),
    ) + "    \"NONE_CONTENT_TYPE\",\n"@);
}

// ---------------------------------------------------------------------------
// The lines of a stub
// ---------------------------------------------------------------------------

/// A method follows a property where the nearest line before it that is not blank marks
/// one.
pub proof fn law_marks_of_properties(lines: Seq<Seq<char>>, i: int, j: int)
    requires
        0 <= j < i <= lines.len(),
        trimmed(lines[j]).len() > 0,
        forall|k: int| j < k < i ==> trimmed(#[trigger] lines[k]).len() == 0,
    ensures
        follows_property(lines, i) <==> trimmed(lines[j]) == "@property"@,
    decreases i,
{
    if j < i - 1 {
        assert(trimmed(lines[i - 1]).len() == 0);
        law_marks_of_properties(lines, i - 1, j);
    }
}

/// A line that defines a method which is asynchronous gets the mark behind its
/// indentation. Its name and everything behind it stay.
pub proof fn law_asynchronous_methods_are_marked(
    lines: Seq<Seq<char>>,
    i: int,
    async_methods: Set<Seq<char>>,
    indent: Seq<char>,
    name: Seq<char>,
    rest: Seq<char>,
)
    requires
        0 <= i < lines.len(),
        is_blank(indent),
        !name.contains('('),
        lines[i] == indent + ("def "@ + (name + seq!['('] + rest)),
        is_async_method(name, follows_property(lines, i), async_methods),
    ensures
        rewritten_line(lines, i, async_methods) == indent + "async def "@ + name + seq!['('] + rest
            + "\n"@,
{
    lemma_method_line(lines, i, async_methods, indent, name, rest);
    let tail = name + seq!['('] + rest;
    let line = lines[i];
    reveal_strlit("def ");
    assert(line.take(line.len() - ("def "@ + tail).len()) == indent);
    assert(indent + "async def "@ + tail + "\n"@ == indent + "async def "@ + name + seq!['('] + rest
        + "\n"@);
}

proof fn lemma_method_line(
    lines: Seq<Seq<char>>,
    i: int,
    async_methods: Set<Seq<char>>,
    indent: Seq<char>,
    name: Seq<char>,
    rest: Seq<char>,
)
    requires
        0 <= i < lines.len(),
        is_blank(indent),
        !name.contains('('),
        lines[i] == indent + ("def "@ + (name + seq!['('] + rest)),
    ensures
        trimmed_start(lines[i]) == "def "@ + (name + seq!['('] + rest),
        trimmed_start(lines[i]).skip(4) == name + seq!['('] + rest,
        gets_async(lines, i, async_methods) == is_async_method(
            name,
            follows_property(lines, i),
            async_methods,
        ),
{
    reveal_strlit("def ");
    let tail = name + seq!['('] + rest;
    let text = "def "@ + tail;
    assert(text[0] == 'd');
    lemma_indented(indent, text);
    law_starts_and_ends(text, "def "@, tail);
    assert(text.skip(4) == tail);
    let stops = seq!['('];
    assert(stops[0] == '(');
    assert forall|k: int| 0 <= k < name.len() implies !stops.contains(#[trigger] name[k]) by {
        assert(name.contains(name[k]));
    }
    lemma_name_before(name, '(', rest, stops);
}

/// A line that defines a method which is not asynchronous stays as it is.
pub proof fn law_other_methods_are_left_alone(
    lines: Seq<Seq<char>>,
    i: int,
    async_methods: Set<Seq<char>>,
    indent: Seq<char>,
    name: Seq<char>,
    rest: Seq<char>,
)
    requires
        0 <= i < lines.len(),
        is_blank(indent),
        !name.contains('('),
        lines[i] == indent + ("def "@ + (name + seq!['('] + rest)),
        !is_async_method(name, follows_property(lines, i), async_methods),
        !has_prefix(lines[i], "import "@),
        !has_prefix(lines[i], "from "@),
    ensures
        rewritten_line(lines, i, async_methods) == lines[i] + "\n"@,
{
    lemma_method_line(lines, i, async_methods, indent, name, rest);
}

/// A line that defines no method stays as it is, but that `datetime` is imported behind
/// the last import where no line does so.
pub proof fn law_imports_are_completed(
    lines: Seq<Seq<char>>,
    i: int,
    async_methods: Set<Seq<char>>,
    k: int,
)
    requires
        0 <= i < lines.len(),
        !has_prefix(trimmed_start(lines[i]), "def "@),
    ensures
        !has_prefix(lines[i], "import "@) && !has_prefix(lines[i], "from "@) ==> rewritten_line(
            lines,
            i,
            async_methods,
        ) == lines[i] + "\n"@,
        i < k < lines.len() && (has_prefix(lines[k], "import "@) || has_prefix(lines[k], "from "@))
            ==> rewritten_line(lines, i, async_methods) == lines[i] + "\n"@,
        0 <= k < lines.len() && trimmed(lines[k]) == "import datetime"@ ==> rewritten_line(
            lines,
            i,
            async_methods,
        ) == lines[i] + "\n"@,
        (has_prefix(lines[i], "import "@) || has_prefix(lines[i], "from "@)) && (forall|j: int|
            i < j < lines.len() ==> !has_prefix(#[trigger] lines[j], "import "@) && !has_prefix(
                lines[j],
                "from "@,
            )) && (forall|j: int|
            0 <= j < lines.len() ==> trimmed(#[trigger] lines[j]) != "import datetime"@)
            ==> rewritten_line(lines, i, async_methods) == lines[i] + "\nimport datetime\n"@,
{
    reveal_strlit("\n");
    reveal_strlit("import datetime\n");
    reveal_strlit("\nimport datetime\n");
    assert("\n"@ + "import datetime\n"@ == "\nimport datetime\n"@);
    assert(lines[i] + "\n"@ + "import datetime\n"@ == lines[i] + ("\n"@ + "import datetime\n"@));
    if i < k < lines.len() {
        assert(is_import(lines[k]) <==> has_prefix(lines[k], "import "@) || has_prefix(
            lines[k],
            "from "@,
        ));
    }
    assert forall|j: int| i < j < lines.len() implies (#[trigger] is_import(lines[j])
        <==> has_prefix(lines[j], "import "@) || has_prefix(lines[j], "from "@)) by {}
}

/// The first class is that of the first line which starts one.
pub proof fn law_where_the_first_class_is(lines: Seq<Seq<char>>, i: int)
    ensures
        0 <= class_position(lines) <= lines.len(),
        0 <= i < class_position(lines) ==> !has_prefix(lines[i], "@typing.final"@) && !has_prefix(
            lines[i],
            "class "@,
        ),
        class_position(lines) < lines.len() ==> has_prefix(
            lines[class_position(lines)],
            "@typing.final"@,
        ) || has_prefix(lines[class_position(lines)], "class "@),
    decreases lines.len(),
{
    if lines.len() > 0 && !starts_class(lines[0]) {
        let rest = lines.skip(1);
        law_where_the_first_class_is(rest, i - 1);
        let at = class_position(rest);
        if at < rest.len() {
            assert(rest[at] == lines[at + 1]);
        }
        if i > 0 && i < lines.len() {
            assert(rest[i - 1] == lines[i]);
        }
    }
}

/// The lines of a stub are written in order, each as what it becomes. Before the first
/// class, and nowhere else, the dictionaries and the constant are declared.
pub proof fn law_lines_of_a_stub_stay_in_order(
    lines: Seq<Seq<char>>,
    n: int,
    typed_dicts: Seq<char>,
    async_methods: Set<Seq<char>>,
)
    requires
        0 <= n < lines.len(),
    ensures
        rewritten(lines, 0, typed_dicts, async_methods).len() == 0,
        n != class_position(lines) ==> rewritten(lines, n + 1, typed_dicts, async_methods)
            == rewritten(lines, n, typed_dicts, async_methods) + rewritten_line(
            lines,
            n,
            async_methods,
        ),
        n == class_position(lines) ==> rewritten(lines, n + 1, typed_dicts, async_methods)
            == rewritten(lines, n, typed_dicts, async_methods) + (typed_dicts
            + "\nNONE_CONTENT_TYPE: builtins.str\n\n"@) + rewritten_line(lines, n, async_methods),
{
    let r = rewritten(lines, n, typed_dicts, async_methods);
    assert(r + Seq::<char>::empty() == r);
    lemma_injected(typed_dicts);
}

proof fn lemma_injected(typed_dicts: Seq<char>)
    ensures
        injected_text(typed_dicts) == typed_dicts + "\nNONE_CONTENT_TYPE: builtins.str\n\n"@,
{
    let all = module_constants();
    let none = Seq::<(Seq<char>, Seq<char>)>::empty();
    assert(all == none.push(("NONE_CONTENT_TYPE"@, "builtins.str"@)));
    law_fields_are_written_in_order(none, "NONE_CONTENT_TYPE"@, "builtins.str"@, Seq::empty());
    assert(declarations_text(none) == Seq::<char>::empty());
    reveal_strlit("NONE_CONTENT_TYPE");
    reveal_strlit(": ");
    reveal_strlit("builtins.str");
    reveal_strlit("\n");
    reveal_strlit("\nNONE_CONTENT_TYPE: builtins.str\n\n");
    let text = declarations_text(all);
    assert("\n"@ + text + "\n"@ == "\nNONE_CONTENT_TYPE: builtins.str\n\n"@);
    assert(typed_dicts + "\n"@ + text + "\n"@ == typed_dicts + ("\n"@ + text + "\n"@));
}

// ---------------------------------------------------------------------------
// The top-level module
// ---------------------------------------------------------------------------

/// The top-level module starts with its documentation and keeps its lines. A line that
/// imports the classes of the native module also imports the constant, which is listed
/// where a list closes without it.
pub proof fn law_top_level_module_is_completed(lines: Seq<Seq<char>>, line: Seq<char>)
    ensures
        has_prefix(init_text(lines), docstring_text()),
        has_prefix(line, "from crawlee_storage._native import "@) && !has_text(
            line,
            "NONE_CONTENT_TYPE"@,
        ) ==> init_text(lines.push(line)) == init_text(lines) + replaced_first(
            line,
            "import "@,
            "import NONE_CONTENT_TYPE, "@,
        ) + "\n"@,
        has_prefix(line, "from crawlee_storage._native import "@) && has_text(
            line,
            "NONE_CONTENT_TYPE"@,
        ) && !has_prefix(trimmed_start(line), "]"@) ==> init_text(lines.push(line)) == init_text(
            lines,
        ) + line + "\n"@,
        !has_prefix(line, "from crawlee_storage._native import "@) && !has_prefix(
            trimmed_start(line),
            "]"@,
        ) ==> init_text(lines.push(line)) == init_text(lines) + line + "\n"@,
        !has_prefix(line, "from crawlee_storage._native import "@) && has_prefix(
            trimmed_start(line),
            "]"@,
        ) ==> init_text(lines.push(line)) == init_text(lines) + if has_text(
            init_text(lines),
            "\"NONE_CONTENT_TYPE\""@,
        ) {
            line + "\n"@
        } else {
            "    \"NONE_CONTENT_TYPE\",\n"@ + line + "\n"@
        },
{
    assert(lines.push(line).drop_last() == lines);
    let so_far = init_text(lines);
    assert(so_far + line + "\n"@ == so_far + (line + "\n"@));
    assert(so_far + "    \"NONE_CONTENT_TYPE\",\n"@ + line + "\n"@ == so_far + (
    "    \"NONE_CONTENT_TYPE\",\n"@ + line + "\n"@));
    lemma_starts_with_docs(lines);
}

proof fn lemma_starts_with_docs(lines: Seq<Seq<char>>)
    ensures
        has_prefix(init_text(lines), docstring_text()),
    decreases lines.len(),
{
    let docs = docstring_text();
    if lines.len() == 0 {
        assert(docs.take(docs.len() as int) == docs);
    } else {
        lemma_starts_with_docs(lines.drop_last());
        let so_far = init_text(lines.drop_last());
        let all = init_text(lines);
        assert(all.take(docs.len() as int) == so_far.take(docs.len() as int));
    }
}

/// A line that defines a class at the top level gives its name, unless it is the shape of
/// a dictionary. Other lines give none. The names are listed in the order of the lines.
pub proof fn law_classes_are_read_off_the_stub(
    lines: Seq<Seq<char>>,
    name: Seq<char>,
    stop: char,
    rest: Seq<char>,
    other: Seq<char>,
)
    requires
        name.len() > 0,
        forall|i: int|
            0 <= i < name.len() ==> #[trigger] name[i] != ':' && name[i] != '(' && !is_white(
                name[i],
            ),
        stop == ':' || stop == '(',
        !has_prefix(other, "class "@),
    ensures
        defined_classes(Seq::empty()).len() == 0,
        defined_classes(lines.push(other)) == defined_classes(lines),
        defined_classes(lines.push("class "@ + (name + seq![stop] + rest)))
            == if dict_names().contains(name) {
            defined_classes(lines)
        } else {
            defined_classes(lines).push(name)
        },
{
    reveal_strlit("class ");
    let tail = name + seq![stop] + rest;
    let line = "class "@ + tail;
    law_starts_and_ends(line, "class "@, tail);
    assert(line.skip(6) == tail);
    let stops = seq![':', '('];
    assert(stops[0] == ':' && stops[1] == '(');
    assert forall|i: int| 0 <= i < name.len() implies !stops.contains(#[trigger] name[i]) by {
        assert(name[i] != ':' && name[i] != '(');
    }
    lemma_name_before(name, stop, rest, stops);
    assert(!is_white(name[0]));
    assert(!is_white(name[name.len() - 1]));
    assert(trimmed(name) == name);
    assert(lines.push(line).drop_last() == lines);
    assert(lines.push(other).drop_last() == lines);
    assert(defined_class(other) is None);
}

/// The stub of the top-level module lists the classes, then the constant, then the
/// dictionaries.
pub proof fn law_top_level_stub_lists_all_names(classes: Seq<Seq<char>>)
    ensures
        ({
            let head =
                "# This file is automatically generated by stub_gen\n# ruff: noqa: E501, F401, F403, F405\n\nfrom crawlee_storage._native import *\nfrom crawlee_storage._native import NONE_CONTENT_TYPE as NONE_CONTENT_TYPE\n\n__all__ = [\n"@;
            toplevel_text(classes) == head + entries_text(classes)
                + "    \"NONE_CONTENT_TYPE\",\n"@ + entries_text(dict_names()) + "]\n"@
        }),
{
    let none = Seq::<Seq<char>>::empty();
    assert(constant_names() == none.push("NONE_CONTENT_TYPE"@));
    law_names_are_listed_in_order(none, "NONE_CONTENT_TYPE"@);
    assert(entries_text(none) == Seq::<char>::empty());
    reveal_strlit("    \"");
    reveal_strlit("NONE_CONTENT_TYPE");
    reveal_strlit("\",\n");
    reveal_strlit("    \"NONE_CONTENT_TYPE\",\n");
    assert(entries_text(constant_names()) == "    \"NONE_CONTENT_TYPE\",\n"@);
    reveal_strlit("# This file is automatically generated by stub_gen\n");
    reveal_strlit("# ruff: noqa: E501, F401, F403, F405\n\n");
    reveal_strlit("from crawlee_storage._native import *\n");
    reveal_strlit("from crawlee_storage._native import NONE_CONTENT_TYPE as NONE_CONTENT_TYPE\n\n");
    reveal_strlit("__all__ = [\n");
    reveal_strlit("# This file is automatically generated by stub_gen\n# ruff: noqa: E501, F401, F403, F405\n\nfrom crawlee_storage._native import *\nfrom crawlee_storage._native import NONE_CONTENT_TYPE as NONE_CONTENT_TYPE\n\n__all__ = [\n");
    assert("# This file is automatically generated by stub_gen\n"@
        + "# ruff: noqa: E501, F401, F403, F405\n\n"@ + "from crawlee_storage._native import *\n"@
        + "from crawlee_storage._native import NONE_CONTENT_TYPE as NONE_CONTENT_TYPE\n\n"@
        + "__all__ = [\n"@
        == "# This file is automatically generated by stub_gen\n# ruff: noqa: E501, F401, F403, F405\n\nfrom crawlee_storage._native import *\nfrom crawlee_storage._native import NONE_CONTENT_TYPE as NONE_CONTENT_TYPE\n\n__all__ = [\n"@);
}

} // verus!
