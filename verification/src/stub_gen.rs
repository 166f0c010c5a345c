//! Completing the generated Python type stubs: the shapes of returned
//! dictionaries, module constants and `async` markers.

use vstd::hash_set::StringHashSet;
use vstd::prelude::*;

use crate::text::{
    closed_lines, contains_text, has_prefix, has_text, head, head_until, indent_len, is_white,
    law_joined_lines, lines, lines_of, occurs_at, replace_first, replaced_first, starts_with,
    str_eq, string_of, chars_of, strip_prefix, texts, trim, trim_start, trimmed,
    trimmed_start, without_cr,
};

verus! {

/// The return type that marks a method of the bindings as asynchronous.
pub const ASYNC_RETURN_TYPE: &'static str = "-> PyResult<Bound<'py, pyo3::PyAny>>";

/// The first lines of the top-level module.
pub const TOPLEVEL_DOCSTRING: &'static str =
    "\"\"\"Python bindings for crawlee-storage (Rust-powered filesystem storage clients).\"\"\"";

// ---------------------------------------------------------------------------
// The shapes of returned dictionaries
// ---------------------------------------------------------------------------

/// A field of a dictionary: its key and its Python type.
#[derive(Clone, Copy)]
pub struct TypedDictField {
    pub key: &'static str,
    pub py_type: &'static str,
}

/// A dictionary that the bindings return.
pub struct TypedDictSpec {
    pub name: &'static str,
    pub fields: Vec<TypedDictField>,
}

/// A field as plain text.
pub open spec fn field_view(f: TypedDictField) -> (Seq<char>, Seq<char>) {
    (f.key@, f.py_type@)
}

/// The fields of a dictionary as plain text.
pub open spec fn field_views(v: Seq<TypedDictField>) -> Seq<(Seq<char>, Seq<char>)> {
    v.map_values(|f: TypedDictField| field_view(f))
}

impl View for TypedDictSpec {
    type V = (Seq<char>, Seq<(Seq<char>, Seq<char>)>);

    open spec fn view(&self) -> (Seq<char>, Seq<(Seq<char>, Seq<char>)>) {
        (self.name@, field_views(self.fields@))
    }
}

/// Dictionaries as plain text.
pub open spec fn dict_views(v: Seq<TypedDictSpec>) -> Seq<(Seq<char>, Seq<(Seq<char>, Seq<char>)>)> {
    v.map_values(|d: TypedDictSpec| d@)
}

/// The fields that describe any storage.
pub open spec fn base_fields() -> Seq<(Seq<char>, Seq<char>)> {
    seq![
        ("id"@, "builtins.str"@),
        ("name"@, "builtins.str | None"@),
        ("accessedAt"@, "datetime.datetime"@),
        ("createdAt"@, "datetime.datetime"@),
        ("modifiedAt"@, "datetime.datetime"@),
    ]
}

/// All dictionaries that the bindings return, by name.
pub open spec fn typed_dicts() -> Seq<(Seq<char>, Seq<(Seq<char>, Seq<char>)>)> {
    seq![
        (
            "AddRequestsResponse"@,
            seq![
                ("processedRequests"@, "builtins.list[ProcessedRequest]"@),
                ("unprocessedRequests"@, "builtins.list[UnprocessedRequest]"@),
            ],
        ),
        (
            "DatasetItemsListPage"@,
            seq![
                ("count"@, "builtins.int"@),
                ("offset"@, "builtins.int"@),
                ("limit"@, "builtins.int"@),
                ("total"@, "builtins.int"@),
                ("desc"@, "builtins.bool"@),
                ("items"@, "builtins.list[dict[builtins.str, typing.Any]]"@),
            ],
        ),
        ("DatasetMetadata"@, base_fields().push(("itemCount"@, "builtins.int"@))),
        ("KeyValueStoreMetadata"@, base_fields()),
        (
            "KeyValueStoreRecord"@,
            seq![
                ("key"@, "builtins.str"@),
                ("contentType"@, "builtins.str"@),
                ("size"@, "builtins.int"@),
                ("value"@, "builtins.bytes"@),
            ],
        ),
        (
            "KeyValueStoreRecordMetadata"@,
            seq![
                ("key"@, "builtins.str"@),
                ("contentType"@, "builtins.str"@),
                ("size"@, "builtins.int"@),
            ],
        ),
        (
            "ProcessedRequest"@,
            seq![
                ("requestId"@, "builtins.str"@),
                ("uniqueKey"@, "builtins.str"@),
                ("wasAlreadyPresent"@, "builtins.bool"@),
                ("wasAlreadyHandled"@, "builtins.bool"@),
            ],
        ),
        (
            "RequestQueueMetadata"@,
            base_fields() + seq![
                ("hadMultipleClients"@, "builtins.bool"@),
                ("handledRequestCount"@, "builtins.int"@),
                ("pendingRequestCount"@, "builtins.int"@),
                ("totalRequestCount"@, "builtins.int"@),
            ],
        ),
        (
            "UnprocessedRequest"@,
            seq![
                ("uniqueKey"@, "builtins.str"@),
                ("url"@, "builtins.str"@),
                ("method"@, "builtins.str | None"@),
            ],
        ),
    ]
}

fn field(key: &'static str, py_type: &'static str) -> (r: TypedDictField)
    ensures
        field_view(r) == (key@, py_type@),
{
    TypedDictField { key, py_type }
}

fn base_spec() -> (r: Vec<TypedDictField>)
    ensures
        field_views(r@) == base_fields(),
{
    let out = vec![
        field("id", "builtins.str"),
        field("name", "builtins.str | None"),
        field("accessedAt", "datetime.datetime"),
        field("createdAt", "datetime.datetime"),
        field("modifiedAt", "datetime.datetime"),
    ];
    assert(field_views(out@) =~= base_fields());
    out
}

fn response_spec() -> (r: TypedDictSpec)
    ensures
        r@ == typed_dicts()[0],
{
    let fields = vec![
        field("processedRequests", "builtins.list[ProcessedRequest]"),
        field("unprocessedRequests", "builtins.list[UnprocessedRequest]"),
    ];
    assert(field_views(fields@) =~= typed_dicts()[0].1);
    TypedDictSpec { name: "AddRequestsResponse", fields }
}

fn items_page_spec() -> (r: TypedDictSpec)
    ensures
        r@ == typed_dicts()[1],
{
    let fields = vec![
        field("count", "builtins.int"),
        field("offset", "builtins.int"),
        field("limit", "builtins.int"),
        field("total", "builtins.int"),
        field("desc", "builtins.bool"),
        field("items", "builtins.list[dict[builtins.str, typing.Any]]"),
    ];
    assert(field_views(fields@) =~= typed_dicts()[1].1);
    TypedDictSpec { name: "DatasetItemsListPage", fields }
}

fn dataset_spec() -> (r: TypedDictSpec)
    ensures
        r@ == typed_dicts()[2],
{
    let mut fields = base_spec();
    fields.push(field("itemCount", "builtins.int"));
    assert(field_views(fields@) =~= typed_dicts()[2].1);
    TypedDictSpec { name: "DatasetMetadata", fields }
}

fn record_spec() -> (r: TypedDictSpec)
    ensures
        r@ == typed_dicts()[4],
{
    let fields = vec![
        field("key", "builtins.str"),
        field("contentType", "builtins.str"),
        field("size", "builtins.int"),
        field("value", "builtins.bytes"),
    ];
    assert(field_views(fields@) =~= typed_dicts()[4].1);
    TypedDictSpec { name: "KeyValueStoreRecord", fields }
}

fn record_metadata_spec() -> (r: TypedDictSpec)
    ensures
        r@ == typed_dicts()[5],
{
    let fields = vec![
        field("key", "builtins.str"),
        field("contentType", "builtins.str"),
        field("size", "builtins.int"),
    ];
    assert(field_views(fields@) =~= typed_dicts()[5].1);
    TypedDictSpec { name: "KeyValueStoreRecordMetadata", fields }
}

fn processed_spec() -> (r: TypedDictSpec)
    ensures
        r@ == typed_dicts()[6],
{
    let fields = vec![
        field("requestId", "builtins.str"),
        field("uniqueKey", "builtins.str"),
        field("wasAlreadyPresent", "builtins.bool"),
        field("wasAlreadyHandled", "builtins.bool"),
    ];
    assert(field_views(fields@) =~= typed_dicts()[6].1);
    TypedDictSpec { name: "ProcessedRequest", fields }
}

fn queue_spec() -> (r: TypedDictSpec)
    ensures
        r@ == typed_dicts()[7],
{
    let mut fields = base_spec();
    fields.push(field("hadMultipleClients", "builtins.bool"));
    fields.push(field("handledRequestCount", "builtins.int"));
    fields.push(field("pendingRequestCount", "builtins.int"));
    fields.push(field("totalRequestCount", "builtins.int"));
    assert(field_views(fields@) =~= typed_dicts()[7].1);
    TypedDictSpec { name: "RequestQueueMetadata", fields }
}

fn unprocessed_spec() -> (r: TypedDictSpec)
    ensures
        r@ == typed_dicts()[8],
{
    let fields = vec![
        field("uniqueKey", "builtins.str"),
        field("url", "builtins.str"),
        field("method", "builtins.str | None"),
    ];
    assert(field_views(fields@) =~= typed_dicts()[8].1);
    TypedDictSpec { name: "UnprocessedRequest", fields }
}

/// All dictionaries that the bindings return, by name.
pub fn all_specs() -> (r: Vec<TypedDictSpec>)
    ensures
        dict_views(r@) == typed_dicts(),
{
    let out = vec![
        response_spec(),
        items_page_spec(),
        dataset_spec(),
        TypedDictSpec { name: "KeyValueStoreMetadata", fields: base_spec() },
        record_spec(),
        record_metadata_spec(),
        processed_spec(),
        queue_spec(),
        unprocessed_spec(),
    ];
    assert(dict_views(out@) =~= typed_dicts());
    out
}

/// The lines of the fields of a dictionary.
pub open spec fn fields_text(fields: Seq<(Seq<char>, Seq<char>)>) -> Seq<char>
    decreases fields.len(),
{
    if fields.len() == 0 {
        Seq::empty()
    } else {
        let f = fields.last();
        fields_text(fields.drop_last()) + "    "@ + f.0 + ": "@ + f.1 + "\n"@
    }
}

/// The class that describes a dictionary.
pub open spec fn dict_text(name: Seq<char>, fields: Seq<(Seq<char>, Seq<char>)>) -> Seq<char> {
    "class "@ + name + "(typing.TypedDict):\n"@ + fields_text(fields)
}

/// The classes that describe dictionaries, each behind an empty line.
pub open spec fn dicts_text(dicts: Seq<(Seq<char>, Seq<(Seq<char>, Seq<char>)>)>) -> Seq<char>
    decreases dicts.len(),
{
    if dicts.len() == 0 {
        Seq::empty()
    } else {
        dicts_text(dicts.drop_last()) + "\n"@ + dict_text(dicts.last().0, dicts.last().1)
    }
}

/// The class that describes a dictionary.
pub fn render_typed_dict(name: &str, fields: &[TypedDictField]) -> (r: String)
    ensures
        r@ == dict_text(name@, field_views(fields@)),
{
    let ghost all = field_views(fields@);
    let mut body = String::new();
    for i in 0..fields.len()
        invariant
            all == field_views(fields@),
            body@ == fields_text(all.take(i as int)),
    {
        assert(all.take(i + 1).drop_last() == all.take(i as int));
        body.append("    ");
        body.append(fields[i].key);
        body.append(": ");
        body.append(fields[i].py_type);
        body.append("\n");
    }
    assert(all.take(all.len() as int) == all);
    let mut out = "class ".to_string();
    out.append(name);
    out.append("(typing.TypedDict):\n");
    out.append(body.as_str());
    out
}

/// The classes that describe all dictionaries that the bindings return.
pub fn generate_typed_dicts() -> (r: String)
    ensures
        r@ == dicts_text(typed_dicts()),
{
    let specs = all_specs();
    let ghost all = dict_views(specs@);
    let mut out = String::new();
    for i in 0..specs.len()
        invariant
            all == dict_views(specs@),
            out@ == dicts_text(all.take(i as int)),
    {
        assert(all.take(i + 1).drop_last() == all.take(i as int));
        assert(all[i as int] == specs@[i as int]@);
        let text = render_typed_dict(specs[i].name, specs[i].fields.as_slice());
        out.append("\n");
        out.append(text.as_str());
    }
    assert(all.take(all.len() as int) == all);
    out
}

/// The names of all dictionaries that the bindings return.
pub open spec fn dict_names() -> Seq<Seq<char>> {
    typed_dicts().map_values(|d: (Seq<char>, Seq<(Seq<char>, Seq<char>)>)| d.0)
}

/// The names of all dictionaries that the bindings return.
pub fn typed_dict_names() -> (r: Vec<String>)
    ensures
        texts(r@) == dict_names(),
{
    let specs = all_specs();
    let ghost names = dict_names();
    let mut out: Vec<String> = Vec::new();
    for i in 0..specs.len()
        invariant
            dict_views(specs@) == typed_dicts(),
            names == dict_names(),
            texts(out@) == names.take(i as int),
    {
        let ghost before = out@;
        assert(dict_views(specs@)[i as int] == specs@[i as int]@);
        out.push(specs[i].name.to_string());
        assert(texts(out@) == texts(before).push(names[i as int]));
        assert(names.take(i + 1) == names.take(i as int).push(names[i as int]));
    }
    assert(dict_views(specs@).len() == specs@.len());
    assert(names.take(names.len() as int) == names);
    out
}

// ---------------------------------------------------------------------------
// Asynchronous methods
// ---------------------------------------------------------------------------

/// What is known while the lines of the bindings are read: the method whose
/// signature is open, and the asynchronous methods so far.
pub ghost struct SignatureScan {
    pub open_fn: Option<Seq<char>>,
    pub names: Set<Seq<char>>,
}

/// The characters that end the name of a method.
pub open spec fn name_stops() -> Seq<char> {
    seq!['(', '<', ' ']
}

/// The method that is open after a line.
pub open spec fn opened(open_fn: Option<Seq<char>>, line: Seq<char>) -> Option<Seq<char>> {
    let t = trimmed_start(line);
    if has_prefix(t, "fn "@) {
        Some(head_until(t.skip(3), name_stops()))
    } else {
        open_fn
    }
}

/// What is known after a line: a signature that has the marking return type is
/// asynchronous, and one whose body starts is not.
pub open spec fn scan_line(st: SignatureScan, line: Seq<char>) -> SignatureScan {
    match opened(st.open_fn, line) {
        Some(name) => if has_text(line, ASYNC_RETURN_TYPE@) {
            SignatureScan { open_fn: None, names: st.names.insert(name) }
        } else if has_text(line, "{"@) {
            SignatureScan { open_fn: None, ..st }
        } else {
            SignatureScan { open_fn: Some(name), ..st }
        },
        None => SignatureScan { open_fn: None, ..st },
    }
}

/// What is known after several lines.
pub open spec fn scan_lines(lines: Seq<Seq<char>>) -> SignatureScan
    decreases lines.len(),
{
    if lines.len() == 0 {
        SignatureScan { open_fn: None, names: Set::empty() }
    } else {
        scan_line(scan_lines(lines.drop_last()), lines.last())
    }
}

/// The names of the asynchronous methods, read off the source of the bindings.
pub fn async_method_names(lib_rs: &str) -> (r: StringHashSet)
    ensures
        r@ == scan_lines(lines_of(lib_rs@)).names,
{
    let all_lines = lines(lib_rs);
    let ghost all = texts(all_lines@);
    let mut names = StringHashSet::new();
    let mut pending: Option<String> = None;
    for i in 0..all_lines.len()
        invariant
            all == texts(all_lines@),
            names@ == scan_lines(all.take(i as int)).names,
            crate::text::opt_text(pending) == scan_lines(all.take(i as int)).open_fn,
    {
        let line = all_lines[i].as_str();
        assert(all.take(i + 1).drop_last() == all.take(i as int));
        assert(all.take(i + 1).last() == line@);
        let t = trim_start(line);
        proof {
            reveal_strlit("fn ");
        }
        if let Some(after) = strip_prefix(t.as_str(), "fn ") {
            let stops = vec!['(', '<', ' '];
            assert(stops@ == name_stops());
            pending = Some(head(after.as_str(), stops.as_slice()));
        }
        let mut close = false;
        if let Some(name) = &pending {
            if contains_text(line, ASYNC_RETURN_TYPE) {
                let _ = names.insert(name.clone());
                close = true;
            } else if contains_text(line, "{") {
                close = true;
            }
        }
        if close {
            pending = None;
        }
    }
    assert(all.take(all.len() as int) == all);
    names
}

proof fn lemma_has_text_without_last(s: Seq<char>, pat: Seq<char>)
    requires
        s.len() > 0,
        pat.len() > 0,
        s.last() != pat.last(),
    ensures
        has_text(s.drop_last(), pat) == has_text(s, pat),
{
    let front = s.drop_last();
    if has_text(s, pat) {
        let at = choose|at: int| occurs_at(s, pat, at);
        assert(s[at + pat.len() - 1] == s.subrange(at, at + pat.len())[pat.len() - 1]);
        assert(front.subrange(at, at + pat.len()) == s.subrange(at, at + pat.len()));
        assert(occurs_at(front, pat, at));
    }
    if has_text(front, pat) {
        let at = choose|at: int| occurs_at(front, pat, at);
        assert(front.subrange(at, at + pat.len()) == s.subrange(at, at + pat.len()));
        assert(occurs_at(s, pat, at));
    }
}

proof fn lemma_head_without_last(s: Seq<char>, stops: Seq<char>, at: int)
    requires
        0 <= at < s.len() - 1,
        stops.contains(s[at]),
    ensures
        head_until(s.drop_last(), stops) == head_until(s, stops),
    decreases s.len(),
{
    if !stops.contains(s[0]) {
        assert(s.drop_last().skip(1) == s.skip(1).drop_last());
        lemma_head_without_last(s.skip(1), stops, at - 1);
    }
}

proof fn lemma_trimmed_start_without_last(s: Seq<char>)
    requires
        s.len() > 0,
        s.last() == '\r',
    ensures
        ({
            let t = trimmed_start(s);
            let u = trimmed_start(s.drop_last());
            &&& t.len() <= s.len()
            &&& t == s.skip(s.len() - t.len())
            &&& forall|i: int| 0 <= i < s.len() - t.len() ==> is_white(s[i])
            &&& if t.len() == 0 {
                u.len() == 0
            } else {
                u == t.drop_last()
            }
        }),
    decreases s.len(),
{
    if is_white(s[0]) {
        let rest = s.skip(1);
        if rest.len() == 0 {
            assert(s.drop_last() == rest);
            assert(trimmed_start(rest) == rest);
            assert(s.skip(1) == rest);
        } else {
            assert(rest.drop_last() == s.drop_last().skip(1));
            lemma_trimmed_start_without_last(rest);
            let t = trimmed_start(s);
            assert(t == s.skip(s.len() - t.len()));
            assert forall|i: int| 0 <= i < s.len() - t.len() implies is_white(s[i]) by {
                if i > 0 {
                    assert(rest[i - 1] == s[i]);
                }
            }
        }
    } else {
        assert(s.skip(0) == s);
    }
}

proof fn lemma_scan_without_cr(st: SignatureScan, line: Seq<char>)
    requires
        scan_line(st, line).open_fn is None,
    ensures
        scan_line(st, without_cr(line)) == scan_line(st, line),
{
    if line.len() > 0 && line.last() == '\r' {
        let cut = line.drop_last();
        reveal_strlit("fn ");
        reveal_strlit("{");
        reveal_strlit("-> PyResult<Bound<'py, pyo3::PyAny>>");
        lemma_has_text_without_last(line, ASYNC_RETURN_TYPE@);
        lemma_has_text_without_last(line, "{"@);
        lemma_trimmed_start_without_last(line);
        let t = trimmed_start(line);
        let u = trimmed_start(cut);
        if has_prefix(t, "fn "@) {
            assert(t[2] == t.take(3)[2]);
            assert(t.last() == '\r');
            assert(u.take(3) == t.take(3));
            assert(u.skip(3) == t.skip(3).drop_last());
            if has_text(line, ASYNC_RETURN_TYPE@) {
                let pat = ASYNC_RETURN_TYPE@;
                let at = choose|at: int| occurs_at(line, pat, at);
                let blank = line.len() - t.len();
                assert(line[at] == line.subrange(at, at + pat.len())[0]);
                assert(line[at + 2] == line.subrange(at, at + pat.len())[2]);
                assert(at >= blank);
                assert(t[at - blank] == line[at]);
                assert(t[0] == t.take(3)[0] && t[1] == t.take(3)[1]);
                assert(at - blank >= 3);
                let stop = at + 2 - blank - 3;
                assert(t.skip(3)[stop] == line[at + 2]);
                assert(name_stops()[2] == ' ');
                lemma_head_without_last(t.skip(3), name_stops(), stop);
            }
        } else if has_prefix(u, "fn "@) {
            assert(u.take(3) == t.take(3));
        }
    }
}

proof fn lemma_scan_lines_of_two(first: Seq<Seq<char>>, second: Seq<Seq<char>>)
    requires
        scan_lines(first).open_fn is None,
    ensures
        scan_lines(first + second).open_fn == scan_lines(second).open_fn,
        scan_lines(first + second).names == scan_lines(first).names.union(
            scan_lines(second).names,
        ),
    decreases second.len(),
{
    if second.len() == 0 {
        assert(first + second == first);
    } else {
        assert((first + second).drop_last() == first + second.drop_last());
        lemma_scan_lines_of_two(first, second.drop_last());
    }
}

/// The asynchronous methods of two sources that stand one after the other are those
/// of each, unless the first ends inside of a signature.
pub proof fn law_names_of_joined_sources(a: Seq<char>, b: Seq<char>)
    requires
        scan_lines(lines_of(a)).open_fn is None,
    ensures
        scan_lines(lines_of(a + seq!['\n'] + b)).names == scan_lines(lines_of(a)).names.union(
            scan_lines(lines_of(b)).names,
        ),
{
    law_joined_lines(a, b);
    let before = lines_of(a);
    let closed = closed_lines(a);
    assert(scan_lines(closed) == scan_lines(before)) by {
        if a.len() == 0 || a.last() == '\n' {
            assert(closed.drop_last() == before);
            reveal_strlit("fn ");
            assert(trimmed_start(closed.last()).len() == 0);
        } else {
            assert(closed.drop_last() == before.drop_last());
            lemma_scan_without_cr(scan_lines(before.drop_last()), before.last());
        }
    }
    lemma_scan_lines_of_two(closed, lines_of(b));
}

/// Whether a method whose name has two leading underscores is asynchronous.
pub open spec fn is_async_dunder(name: Seq<char>) -> bool {
    name == "__anext__"@ || name == "__aenter__"@ || name == "__aexit__"@
}

/// Whether a method is marked as asynchronous.
pub open spec fn is_async_method(
    name: Seq<char>,
    is_property: bool,
    async_methods: Set<Seq<char>>,
) -> bool {
    if is_property {
        false
    } else if has_prefix(name, "__"@) {
        is_async_dunder(name)
    } else {
        async_methods.contains(name)
    }
}

/// Whether a method is marked as asynchronous.
pub fn classify_method(
    method_name: &str,
    is_property: bool,
    async_methods: &StringHashSet,
) -> (r: bool)
    ensures
        r == is_async_method(method_name@, is_property, async_methods@),
{
    if is_property {
        return false;
    }
    if starts_with(method_name, "__") {
        return str_eq(method_name, "__anext__") || str_eq(method_name, "__aenter__") || str_eq(
            method_name,
            "__aexit__",
        );
    }
    async_methods.contains(method_name)
}

// ---------------------------------------------------------------------------
// The native stub
// ---------------------------------------------------------------------------

/// The constants of the module, with their types.
pub open spec fn module_constants() -> Seq<(Seq<char>, Seq<char>)> {
    seq![("NONE_CONTENT_TYPE"@, "builtins.str"@)]
}

/// The constants of the module, with their types.
fn constants() -> (r: Vec<TypedDictField>)
    ensures
        field_views(r@) == module_constants(),
{
    let out = vec![field("NONE_CONTENT_TYPE", "builtins.str")];
    assert(field_views(out@) =~= module_constants());
    out
}

/// The names of the constants of the module.
pub open spec fn constant_names() -> Seq<Seq<char>> {
    module_constants().map_values(|c: (Seq<char>, Seq<char>)| c.0)
}

/// Entries of a list of names, one to a line.
pub open spec fn entries_text(names: Seq<Seq<char>>) -> Seq<char>
    decreases names.len(),
{
    if names.len() == 0 {
        Seq::empty()
    } else {
        entries_text(names.drop_last()) + "    \""@ + names.last() + "\",\n"@
    }
}

/// Entries of a list of names, one to a line.
fn render_entries(names: &[String]) -> (r: String)
    ensures
        r@ == entries_text(texts(names@)),
{
    let ghost all = texts(names@);
    let mut out = String::new();
    for i in 0..names.len()
        invariant
            all == texts(names@),
            out@ == entries_text(all.take(i as int)),
    {
        assert(all.take(i + 1).drop_last() == all.take(i as int));
        out.append("    \"");
        out.append(names[i].as_str());
        out.append("\",\n");
    }
    assert(all.take(all.len() as int) == all);
    out
}

/// The names of the constants of the module.
fn names_of_constants() -> (r: Vec<String>)
    ensures
        texts(r@) == constant_names(),
{
    let all = constants();
    let ghost names = constant_names();
    let mut out: Vec<String> = Vec::new();
    for i in 0..all.len()
        invariant
            field_views(all@) == module_constants(),
            names == constant_names(),
            texts(out@) == names.take(i as int),
    {
        let ghost before = out@;
        assert(field_views(all@)[i as int] == field_view(all@[i as int]));
        out.push(all[i].key.to_string());
        assert(texts(out@) == texts(before).push(names[i as int]));
        assert(names.take(i + 1) == names.take(i as int).push(names[i as int]));
    }
    assert(field_views(all@).len() == all@.len());
    assert(names.take(names.len() as int) == names);
    out
}

/// The names that are added to the list of exported names.
pub open spec fn added_entries() -> Seq<char> {
    entries_text(dict_names()) + entries_text(constant_names())
}

/// Whether a line opens the list of exported names.
pub open spec fn opens_list(line: Seq<char>) -> bool {
    has_text(line, "__all__"@) && has_text(line, "["@)
}

/// Whether a line closes a list.
pub open spec fn closes_list(line: Seq<char>) -> bool {
    has_prefix(trimmed_start(line), "]"@)
}

/// Whether the list of exported names is open after some lines.
pub open spec fn list_open(lines: Seq<Seq<char>>) -> bool
    decreases lines.len(),
{
    if lines.len() == 0 {
        false
    } else {
        (list_open(lines.drop_last()) || opens_list(lines.last())) && !closes_list(lines.last())
    }
}

/// The text of some lines, with the added names at the end of each list of
/// exported names.
pub open spec fn with_entries(lines: Seq<Seq<char>>) -> Seq<char>
    decreases lines.len(),
{
    if lines.len() == 0 {
        Seq::empty()
    } else {
        let front = lines.drop_last();
        let line = lines.last();
        let added = if (list_open(front) || opens_list(line)) && closes_list(line) {
            added_entries()
        } else {
            Seq::empty()
        };
        with_entries(front) + added + line + "\n"@
    }
}

/// Writes some lines, with the names of dictionaries and constants added to the
/// list of exported names.
pub fn append_to_all_block(lines: &[String], output: &mut String)
    ensures
        final(output)@ == old(output)@ + with_entries(texts(lines@)),
{
    let ghost all = texts(lines@);
    let dicts = typed_dict_names();
    let consts = names_of_constants();
    let dict_entries = render_entries(dicts.as_slice());
    let constant_entries = render_entries(consts.as_slice());
    let mut in_list = false;
    let mut text = String::new();
    for i in 0..lines.len()
        invariant
            all == texts(lines@),
            dict_entries@ + constant_entries@ == added_entries(),
            in_list == list_open(all.take(i as int)),
            text@ == with_entries(all.take(i as int)),
    {
        let line = lines[i].as_str();
        assert(all.take(i + 1).drop_last() == all.take(i as int));
        assert(all.take(i + 1).last() == line@);
        let ghost before = text@;
        if contains_text(line, "__all__") && contains_text(line, "[") {
            in_list = true;
        }
        let t = trim_start(line);
        if starts_with(t.as_str(), "]") {
            if in_list {
                text.append(dict_entries.as_str());
                text.append(constant_entries.as_str());
                assert(text@ == before + added_entries());
            } else {
                assert(before + Seq::<char>::empty() == before);
            }
            in_list = false;
        } else {
            assert(before + Seq::<char>::empty() == before);
        }
        text.append(line);
        text.append("\n");
    }
    assert(all.take(all.len() as int) == all);
    output.append(text.as_str());
}

/// Whether a line imports something.
pub open spec fn is_import(line: Seq<char>) -> bool {
    has_prefix(line, "import "@) || has_prefix(line, "from "@)
}

/// Whether a line starts the first class.
pub open spec fn starts_class(line: Seq<char>) -> bool {
    has_prefix(line, "@typing.final"@) || has_prefix(line, "class "@)
}

/// Whether `datetime` is imported.
pub open spec fn imports_datetime(lines: Seq<Seq<char>>) -> bool {
    exists|i: int| 0 <= i < lines.len() && trimmed(#[trigger] lines[i]) == "import datetime"@
}

/// The position of the first class, or the end.
pub open spec fn class_position(lines: Seq<Seq<char>>) -> int
    decreases lines.len(),
{
    if lines.len() == 0 || starts_class(lines[0]) {
        0
    } else {
        1 + class_position(lines.skip(1))
    }
}

/// Whether the line number `i` is the last that imports something.
pub open spec fn is_last_import(lines: Seq<Seq<char>>, i: int) -> bool {
    &&& 0 <= i < lines.len()
    &&& is_import(lines[i])
    &&& forall|j: int| i < j < lines.len() ==> !is_import(#[trigger] lines[j])
}

/// Whether the nearest line before the line number `i` that is not blank marks a
/// property.
pub open spec fn follows_property(lines: Seq<Seq<char>>, i: int) -> bool
    decreases i,
{
    if i <= 0 {
        false
    } else if trimmed(lines[i - 1]).len() == 0 {
        follows_property(lines, i - 1)
    } else {
        trimmed(lines[i - 1]) == "@property"@
    }
}

/// The declarations of the constants of the module.
pub open spec fn declarations_text(constants: Seq<(Seq<char>, Seq<char>)>) -> Seq<char>
    decreases constants.len(),
{
    if constants.len() == 0 {
        Seq::empty()
    } else {
        let c = constants.last();
        declarations_text(constants.drop_last()) + c.0 + ": "@ + c.1 + "\n"@
    }
}

/// What is written before the first class.
pub open spec fn injected_text(typed_dicts: Seq<char>) -> Seq<char> {
    typed_dicts + "\n"@ + declarations_text(module_constants()) + "\n"@
}

/// Whether the line number `i` defines a method that is marked as asynchronous.
pub open spec fn gets_async(
    lines: Seq<Seq<char>>,
    i: int,
    async_methods: Set<Seq<char>>,
) -> bool {
    let t = trimmed_start(lines[i]);
    has_prefix(t, "def "@) && is_async_method(
        head_until(t.skip(4), seq!['(']),
        follows_property(lines, i),
        async_methods,
    )
}

/// What the line number `i` becomes.
pub open spec fn rewritten_line(
    lines: Seq<Seq<char>>,
    i: int,
    async_methods: Set<Seq<char>>,
) -> Seq<char> {
    let line = lines[i];
    let t = trimmed_start(line);
    if gets_async(lines, i, async_methods) {
        line.take(line.len() - t.len()) + "async def "@ + t.skip(4) + "\n"@
    } else if !imports_datetime(lines) && is_last_import(lines, i) {
        line + "\n"@ + "import datetime\n"@
    } else {
        line + "\n"@
    }
}

/// The first `n` lines of a stub, rewritten.
pub open spec fn rewritten(
    lines: Seq<Seq<char>>,
    n: int,
    typed_dicts: Seq<char>,
    async_methods: Set<Seq<char>>,
) -> Seq<char>
    decreases n,
{
    if n <= 0 {
        Seq::empty()
    } else {
        let i = n - 1;
        let injected = if i == class_position(lines) {
            injected_text(typed_dicts)
        } else {
            Seq::empty()
        };
        rewritten(lines, i, typed_dicts, async_methods) + injected + rewritten_line(
            lines,
            i,
            async_methods,
        )
    }
}

/// A stub with dictionaries and constants declared before the first class and
/// listed among the exported names, asynchronous methods marked, and `datetime`
/// imported.
pub open spec fn fixed_stub(
    content: Seq<char>,
    typed_dicts: Seq<char>,
    async_methods: Set<Seq<char>>,
) -> Seq<char> {
    let lines = lines_of(content);
    with_entries(lines_of(rewritten(lines, lines.len() as int, typed_dicts, async_methods)))
}

fn find_class(lines: &[String]) -> (r: usize)
    ensures
        r == class_position(texts(lines@)),
        r <= lines@.len(),
{
    let ghost all = texts(lines@);
    let mut i: usize = 0;
    assert(all.skip(0) == all);
    while i < lines.len() && !(starts_with(lines[i].as_str(), "@typing.final") || starts_with(
        lines[i].as_str(),
        "class ",
    ))
        invariant
            all == texts(lines@),
            i <= lines@.len(),
            class_position(all) == i + class_position(all.skip(i as int)),
        decreases lines@.len() - i,
    {
        assert(all.skip(i as int).skip(1) == all.skip(i + 1));
        i = i + 1;
    }
    i
}

fn find_last_import(lines: &[String]) -> (r: Option<usize>)
    ensures
        match r {
            Some(i) => is_last_import(texts(lines@), i as int),
            None => forall|i: int| !is_last_import(texts(lines@), i),
        },
{
    let ghost all = texts(lines@);
    let mut n: usize = lines.len();
    while n > 0
        invariant
            all == texts(lines@),
            n <= lines@.len(),
            forall|j: int| n <= j < lines@.len() ==> !is_import(#[trigger] all[j]),
        decreases n,
    {
        let line = lines[n - 1].as_str();
        if starts_with(line, "import ") || starts_with(line, "from ") {
            assert(is_import(all[n - 1]));
            return Some(n - 1);
        }
        n = n - 1;
    }
    None
}

fn has_datetime_import(lines: &[String]) -> (r: bool)
    ensures
        r == imports_datetime(texts(lines@)),
{
    let ghost all = texts(lines@);
    for i in 0..lines.len()
        invariant
            all == texts(lines@),
            forall|j: int| 0 <= j < i ==> trimmed(#[trigger] all[j]) != "import datetime"@,
    {
        let t = trim(lines[i].as_str());
        if str_eq(t.as_str(), "import datetime") {
            assert(trimmed(all[i as int]) == "import datetime"@);
            return true;
        }
    }
    false
}

fn is_after_property(lines: &[String], i: usize) -> (r: bool)
    requires
        i <= lines@.len(),
    ensures
        r == follows_property(texts(lines@), i as int),
{
    let ghost all = texts(lines@);
    let mut n: usize = i;
    while n > 0
        invariant
            all == texts(lines@),
            n <= i <= lines@.len(),
            follows_property(all, i as int) == follows_property(all, n as int),
        decreases n,
    {
        let t = trim(lines[n - 1].as_str());
        assert(all[n - 1] == lines@[n - 1]@);
        if !t.as_str().is_empty() {
            return str_eq(t.as_str(), "@property");
        }
        n = n - 1;
    }
    false
}

fn render_injected(typed_dicts: &str) -> (r: String)
    ensures
        r@ == injected_text(typed_dicts@),
{
    let all = constants();
    let ghost views = field_views(all@);
    let mut body = String::new();
    for i in 0..all.len()
        invariant
            views == field_views(all@),
            body@ == declarations_text(views.take(i as int)),
    {
        assert(views.take(i + 1).drop_last() == views.take(i as int));
        assert(views[i as int] == field_view(all@[i as int]));
        body.append(all[i].key);
        body.append(": ");
        body.append(all[i].py_type);
        body.append("\n");
    }
    assert(views.take(views.len() as int) == views);
    let mut out = typed_dicts.to_string();
    out.append("\n");
    out.append(body.as_str());
    out.append("\n");
    out
}

/// Rewrites the line number `i` of a stub.
fn rewrite_line(
    lines: &[String],
    i: usize,
    async_methods: &StringHashSet,
    add_import: bool,
) -> (r: String)
    requires
        i < lines@.len(),
        add_import == (!imports_datetime(texts(lines@)) && is_last_import(texts(lines@), i as int)),
    ensures
        r@ == rewritten_line(texts(lines@), i as int, async_methods@),
{
    let ghost all = texts(lines@);
    let line = lines[i].as_str();
    assert(all[i as int] == line@);
    let t = trim_start(line);
    proof {
        reveal_strlit("def ");
    }
    if let Some(after) = strip_prefix(t.as_str(), "def ") {
        let stops = vec!['('];
        assert(stops@ == seq!['(']);
        let name = head(after.as_str(), stops.as_slice());
        let is_property = is_after_property(lines, i);
        if classify_method(name.as_str(), is_property, async_methods) {
            let indent = indent_len(line);
            let chars = chars_of(line);
            let mut out = string_of(vstd::slice::slice_subrange(chars.as_slice(), 0, indent));
            assert(out@ == line@.take(line@.len() - t@.len()));
            out.append("async def ");
            out.append(after.as_str());
            out.append("\n");
            return out;
        }
    }
    let mut out = line.to_string();
    out.append("\n");
    if add_import {
        out.append("import datetime\n");
    }
    out
}

/// Completes the stub of the native module.
pub fn fixup_stubs(content: &str, typed_dicts: &str, async_methods: &StringHashSet) -> (r: String)
    ensures
        r@ == fixed_stub(content@, typed_dicts@, async_methods@),
{
    let all_lines = lines(content);
    let ghost all = texts(all_lines@);
    let has_datetime = has_datetime_import(all_lines.as_slice());
    let insert_before = find_class(all_lines.as_slice());
    let last_import = find_last_import(all_lines.as_slice());
    let injected = render_injected(typed_dicts);
    let mut first = String::new();
    for i in 0..all_lines.len()
        invariant
            all == texts(all_lines@),
            has_datetime == imports_datetime(all),
            insert_before == class_position(all),
            match last_import {
                Some(k) => is_last_import(all, k as int),
                None => forall|k: int| !is_last_import(all, k),
            },
            injected@ == injected_text(typed_dicts@),
            first@ == rewritten(all, i as int, typed_dicts@, async_methods@),
    {
        let ghost before = first@;
        if i == insert_before {
            first.append(injected.as_str());
        } else {
            assert(before + Seq::<char>::empty() == before);
        }
        let is_last = match last_import {
            Some(k) => k == i,
            None => false,
        };
        assert(is_last == is_last_import(all, i as int)) by {
            if last_import is Some && is_last_import(all, i as int) {
                let k = last_import->0 as int;
                if k < i {
                    assert(!is_import(all[i as int]));
                }
                if k > i {
                    assert(!is_import(all[k]));
                }
            }
        }
        let line = rewrite_line(all_lines.as_slice(), i, async_methods, !has_datetime && is_last);
        first.append(line.as_str());
    }
    let first_lines = lines(first.as_str());
    let mut output = String::new();
    append_to_all_block(first_lines.as_slice(), &mut output);
    assert(Seq::<char>::empty() + with_entries(texts(first_lines@)) == with_entries(
        texts(first_lines@),
    ));
    output
}

// ---------------------------------------------------------------------------
// The top-level module
// ---------------------------------------------------------------------------

/// Whether a line imports the classes of the native module but not its constant.
pub open spec fn misses_constant(line: Seq<char>) -> bool {
    has_prefix(line, "from crawlee_storage._native import "@) && !has_text(
        line,
        "NONE_CONTENT_TYPE"@,
    )
}

/// The start of the top-level module.
pub open spec fn docstring_text() -> Seq<char> {
    TOPLEVEL_DOCSTRING@ + "\n\n"@
}

/// The text of the top-level module after some lines: the constant is imported
/// with the classes, and listed before the first list that ends without it.
pub open spec fn init_text(lines: Seq<Seq<char>>) -> Seq<char>
    decreases lines.len(),
{
    if lines.len() == 0 {
        docstring_text()
    } else {
        let so_far = init_text(lines.drop_last());
        let line = lines.last();
        if misses_constant(line) {
            so_far + replaced_first(line, "import "@, "import NONE_CONTENT_TYPE, "@) + "\n"@
        } else if closes_list(line) && !has_text(so_far, "\"NONE_CONTENT_TYPE\""@) {
            so_far + "    \"NONE_CONTENT_TYPE\",\n"@ + line + "\n"@
        } else {
            so_far + line + "\n"@
        }
    }
}

/// Completes the top-level module: its documentation and its constant.
pub fn fixup_init_py(content: &str) -> (r: String)
    ensures
        r@ == init_text(lines_of(content@)),
{
    let all_lines = lines(content);
    let ghost all = texts(all_lines@);
    let mut output = TOPLEVEL_DOCSTRING.to_string();
    output.append("\n\n");
    for i in 0..all_lines.len()
        invariant
            all == texts(all_lines@),
            output@ == init_text(all.take(i as int)),
    {
        let line = all_lines[i].as_str();
        assert(all.take(i + 1).drop_last() == all.take(i as int));
        assert(all.take(i + 1).last() == line@);
        if starts_with(line, "from crawlee_storage._native import ") && !contains_text(
            line,
            "NONE_CONTENT_TYPE",
        ) {
            let replaced = replace_first(line, "import ", "import NONE_CONTENT_TYPE, ");
            output.append(replaced.as_str());
            output.append("\n");
        } else {
            let t = trim_start(line);
            if starts_with(t.as_str(), "]") && !contains_text(
                output.as_str(),
                "\"NONE_CONTENT_TYPE\"",
            ) {
                output.append("    \"NONE_CONTENT_TYPE\",\n");
            }
            output.append(line);
            output.append("\n");
        }
    }
    assert(all.take(all.len() as int) == all);
    output
}

/// The class that a line of a stub defines at the top level, where it defines
/// one that is not the shape of a dictionary.
pub open spec fn defined_class(line: Seq<char>) -> Option<Seq<char>> {
    if has_prefix(line, "class "@) {
        let name = trimmed(head_until(line.skip(6), seq![':', '(']));
        if name.len() > 0 && !dict_names().contains(name) {
            Some(name)
        } else {
            None
        }
    } else {
        None
    }
}

/// The classes that some lines of a stub define.
pub open spec fn defined_classes(lines: Seq<Seq<char>>) -> Seq<Seq<char>>
    decreases lines.len(),
{
    if lines.len() == 0 {
        Seq::empty()
    } else {
        let front = defined_classes(lines.drop_last());
        match defined_class(lines.last()) {
            Some(name) => front.push(name),
            None => front,
        }
    }
}

fn name_in(name: &str, names: &[String]) -> (r: bool)
    ensures
        r == texts(names@).contains(name@),
{
    let ghost all = texts(names@);
    for i in 0..names.len()
        invariant
            all == texts(names@),
            forall|j: int| 0 <= j < i ==> all[j] != name@,
    {
        if str_eq(names[i].as_str(), name) {
            assert(all[i as int] == name@);
            return true;
        }
    }
    false
}

/// The classes of the native module, read off its stub.
pub fn pyclass_names(native_stub: &str) -> (r: Vec<String>)
    ensures
        texts(r@) == defined_classes(lines_of(native_stub@)),
{
    let all_lines = lines(native_stub);
    let ghost all = texts(all_lines@);
    let dicts = typed_dict_names();
    let mut out: Vec<String> = Vec::new();
    assert(texts(out@) == defined_classes(all.take(0)));
    for i in 0..all_lines.len()
        invariant
            all == texts(all_lines@),
            texts(dicts@) == dict_names(),
            texts(out@) == defined_classes(all.take(i as int)),
    {
        let line = all_lines[i].as_str();
        assert(all.take(i + 1).drop_last() == all.take(i as int));
        assert(all.take(i + 1).last() == line@);
        proof {
            reveal_strlit("class ");
        }
        if let Some(rest) = strip_prefix(line, "class ") {
            let stops = vec![':', '('];
            assert(stops@ == seq![':', '(']);
            let start = head(rest.as_str(), stops.as_slice());
            let name = trim(start.as_str());
            if !name.as_str().is_empty() && !name_in(name.as_str(), dicts.as_slice()) {
                let ghost before = out@;
                let ghost text = name@;
                out.push(name);
                assert(texts(out@) == texts(before).push(text));
            }
        }
    }
    assert(all.take(all.len() as int) == all);
    out
}

/// The stub of the top-level module, for a native module with the given classes.
pub open spec fn toplevel_text(classes: Seq<Seq<char>>) -> Seq<char> {
    "# This file is automatically generated by stub_gen\n"@
        + "# ruff: noqa: E501, F401, F403, F405\n\n"@ + "from crawlee_storage._native import *\n"@
        + "from crawlee_storage._native import NONE_CONTENT_TYPE as NONE_CONTENT_TYPE\n\n"@
        + "__all__ = [\n"@ + entries_text(classes) + entries_text(constant_names())
        + entries_text(dict_names()) + "]\n"@
}

/// The stub of the top-level module: it exports what the native module has.
pub fn toplevel_pyi(native_stub: &str) -> (r: String)
    ensures
        r@ == toplevel_text(defined_classes(lines_of(native_stub@))),
{
    let mut out = "# This file is automatically generated by stub_gen\n".to_string();
    out.append("# ruff: noqa: E501, F401, F403, F405\n\n");
    out.append("from crawlee_storage._native import *\n");
    out.append("from crawlee_storage._native import NONE_CONTENT_TYPE as NONE_CONTENT_TYPE\n\n");
    out.append("__all__ = [\n");
    let classes = pyclass_names(native_stub);
    let class_entries = render_entries(classes.as_slice());
    out.append(class_entries.as_str());
    let consts = names_of_constants();
    let constant_entries = render_entries(consts.as_slice());
    out.append(constant_entries.as_str());
    let dicts = typed_dict_names();
    let dict_entries = render_entries(dicts.as_slice());
    out.append(dict_entries.as_str());
    out.append("]\n");
    out
}

} // verus!
