use crawlee_storage::stub_gen::{
    all_specs, append_to_all_block, async_method_names, classify_method, fixup_init_py,
    fixup_stubs, generate_typed_dicts, pyclass_names, render_typed_dict, toplevel_pyi,
    typed_dict_names, TypedDictField,
};
use crawlee_storage::text::{lines, trim, trim_start};

const SOURCE: &str = "\
impl Client {
    fn open<'py>(
        py: Python<'py>,
    ) -> PyResult<Bound<'py, pyo3::PyAny>> {
        body()
    }

    fn path(&self) -> PathBuf {
        x
    }

    fn purge<'py>(&self, py: Python<'py>) -> PyResult<Bound<'py, pyo3::PyAny>> {
    }
}
";

#[test]
fn lines_as_std_has_them() {
    for text in ["", "a", "a\n", "a\nb", "a\r\nb\r\n", "a\n\nb\n\n", "a\r", "\r\n", "\n", "a\rb\n"] {
        assert_eq!(lines(text), text.lines().collect::<Vec<_>>(), "{text:?}");
    }
    for text in ["", "  a b ", "\t\u{a0}x\u{3000}\n", "   ", "\u{200b}x"] {
        assert_eq!(trim(text), text.trim());
        assert_eq!(trim_start(text), text.trim_start());
    }
}

#[test]
fn async_methods_are_read_off_the_source() {
    let names = async_method_names(SOURCE);
    assert!(names.contains("open"));
    assert!(names.contains("purge"));
    assert!(!names.contains("path"));
    assert_eq!(names.len(), 2);
}

#[test]
fn names_of_joined_sources_add_up() {
    let other = "    fn close(&self) -> PyResult<Bound<'py, pyo3::PyAny>> {\n";
    let bare = "fn one() -> PyResult<Bound<'py, pyo3::PyAny>>";
    for first in ["", "\n", "\r", "fn x() {\r", SOURCE, other, bare, &format!("{bare}\r")] {
        for second in ["", SOURCE, other] {
            let joined = async_method_names(&format!("{first}\n{second}"));
            let (a, b) = (async_method_names(first), async_method_names(second));
            for name in ["open", "path", "purge", "close", "one", "one\r", "x"] {
                assert_eq!(joined.contains(name), a.contains(name) || b.contains(name));
            }
        }
    }
    let open_end = "fn half(";
    let joined = async_method_names(&format!("{open_end}\n) -> PyResult<Bound<'py, pyo3::PyAny>> {{"));
    assert!(joined.contains("half"));
}

#[test]
fn methods_are_classified() {
    let names = async_method_names(SOURCE);
    assert!(classify_method("open", false, &names));
    assert!(!classify_method("open", true, &names));
    assert!(!classify_method("path", false, &names));
    assert!(classify_method("__anext__", false, &names));
    assert!(classify_method("__aexit__", false, &names));
    assert!(!classify_method("__init__", false, &names));
}

#[test]
fn dictionaries_are_rendered() {
    let fields = [
        TypedDictField { key: "id", py_type: "builtins.str" },
        TypedDictField { key: "n", py_type: "builtins.int" },
    ];
    assert_eq!(
        render_typed_dict("D", &fields),
        "class D(typing.TypedDict):\n    id: builtins.str\n    n: builtins.int\n"
    );
    let names = typed_dict_names();
    let mut sorted = names.clone();
    sorted.sort();
    assert_eq!(names, sorted);
    assert_eq!(names.len(), 9);
    assert_eq!(all_specs().len(), 9);
    let all = generate_typed_dicts();
    assert!(all.starts_with("\nclass AddRequestsResponse(typing.TypedDict):\n    processedRequests: "));
    assert!(all.contains("\nclass DatasetMetadata(typing.TypedDict):\n    id: builtins.str\n    name: builtins.str | None\n    accessedAt: datetime.datetime\n    createdAt: datetime.datetime\n    modifiedAt: datetime.datetime\n    itemCount: builtins.int\n"));
}

#[test]
fn names_are_added_to_the_exported_ones() {
    let input: Vec<String> =
        ["x = [", "]", "__all__ = [", "    \"A\",", "]", "]"].iter().map(|s| s.to_string()).collect();
    let mut output = "start\n".to_string();
    append_to_all_block(&input, &mut output);
    let added: String = typed_dict_names().iter().map(|n| format!("    \"{n}\",\n")).collect();
    assert_eq!(
        output,
        format!("start\nx = [\n]\n__all__ = [\n    \"A\",\n{added}    \"NONE_CONTENT_TYPE\",\n]\n]\n")
    );
}

const STUB: &str = "\
import builtins
import typing

__all__ = [
    \"Client\",
]

@typing.final
class Client:
    @property

    def open(self) -> str: ...
    def purge(self) -> None: ...
    def path(self) -> str: ...
    def __anext__(self): ...
";

#[test]
fn stubs_are_completed() {
    let fixed = fixup_stubs(STUB, "DICTS\n", &async_method_names(SOURCE));
    let added: String = typed_dict_names().iter().map(|n| format!("    \"{n}\",\n")).collect();
    let expected = format!(
        "import builtins\nimport typing\nimport datetime\n\n__all__ = [\n    \"Client\",\n{added}    \
         \"NONE_CONTENT_TYPE\",\n]\n\nDICTS\n\nNONE_CONTENT_TYPE: builtins.str\n\n@typing.final\n\
         class Client:\n    @property\n\n    def open(self) -> str: ...\n    async def purge(self) -> \
         None: ...\n    def path(self) -> str: ...\n    async def __anext__(self): ...\n"
    );
    assert_eq!(fixed, expected);
    let again = fixup_stubs("import datetime\nclass A: ...\n", "", &async_method_names(""));
    assert_eq!(
        again,
        "import datetime\n\nNONE_CONTENT_TYPE: builtins.str\n\nclass A: ...\n"
    );
}

#[test]
fn top_level_module_is_completed() {
    let init = "from crawlee_storage._native import A, B\n\n__all__ = [\n    \"A\",\n]\n";
    assert_eq!(
        fixup_init_py(init),
        "\"\"\"Python bindings for crawlee-storage (Rust-powered filesystem storage clients).\"\"\"\n\n\
         from crawlee_storage._native import NONE_CONTENT_TYPE, A, B\n\n__all__ = [\n    \"A\",\n    \
         \"NONE_CONTENT_TYPE\",\n]\n"
    );
    assert_eq!(fixup_init_py(&fixup_init_py(init)).matches("NONE_CONTENT_TYPE").count(), 2);
}

#[test]
fn classes_are_exported() {
    let stub = "class A:\n    class Inner: ...\nclass B(Base):\nclass DatasetMetadata(typing.TypedDict):\nclass :\n";
    assert_eq!(pyclass_names(stub), ["A", "B"]);
    let text = toplevel_pyi(stub);
    assert!(text.contains("__all__ = [\n    \"A\",\n    \"B\",\n    \"NONE_CONTENT_TYPE\",\n    \"AddRequestsResponse\",\n"));
    assert!(text.ends_with("    \"UnprocessedRequest\",\n]\n"));
}
