//! Python values as JSON documents.

use vstd::prelude::*;

use crate::json::{JsonNumber, JsonValue};

verus! {

/// What can be found out about a Python object: which of the readings that a
/// JSON document knows it offers.
#[derive(Debug)]
pub struct PyObjectView {
    /// Whether it is `None`.
    pub is_none: bool,
    /// Its truth value, where it is a `bool`.
    pub as_bool: Option<bool>,
    /// Its value as an integer of 64 bits.
    pub as_int: Option<i64>,
    /// The bits of its value as a double.
    pub as_float: Option<u64>,
    /// Its text.
    pub as_text: Option<String>,
    /// Its items, where it is a list, a tuple or a set.
    pub items: Option<Vec<PyObjectView>>,
    /// Its entries, where it is a dictionary.
    pub fields: Option<Vec<(String, PyObjectView)>>,
    /// What `str` makes of it.
    pub printed: String,
}

/// A JSON document as plain values.
pub ghost enum JsonView {
    Null,
    Bool(bool),
    Number(JsonNumber),
    Str(Seq<char>),
    Array(Seq<JsonView>),
    Object(Seq<(Seq<char>, JsonView)>),
}

/// A JSON document as plain values.
pub open spec fn json_view(v: JsonValue) -> JsonView
    decreases v,
{
    match v {
        JsonValue::Null => JsonView::Null,
        JsonValue::Bool(b) => JsonView::Bool(b),
        JsonValue::Number(n) => JsonView::Number(n),
        JsonValue::Str(s) => JsonView::Str(s@),
        JsonValue::Array(items) => JsonView::Array(json_views(items@)),
        JsonValue::Object(fields) => JsonView::Object(json_fields(fields@)),
    }
}

/// JSON documents as plain values.
pub open spec fn json_views(items: Seq<JsonValue>) -> Seq<JsonView>
    decreases items,
{
    if items.len() == 0 {
        Seq::empty()
    } else {
        json_views(items.drop_last()).push(json_view(items[items.len() - 1]))
    }
}

/// The fields of a JSON document as plain values.
pub open spec fn json_fields(fields: Seq<(String, JsonValue)>) -> Seq<(Seq<char>, JsonView)>
    decreases fields,
{
    if fields.len() == 0 {
        Seq::empty()
    } else {
        let last = fields[fields.len() - 1];
        json_fields(fields.drop_last()).push((last.0@, json_view(last.1)))
    }
}

/// Whether the bits are those of a double that is a number: neither infinite nor
/// the one that is no number.
pub open spec fn is_finite(bits: u64) -> bool {
    bits as int / 0x10_0000_0000_0000 % 0x800 != 0x7ff
}

/// An integer as a JSON number.
pub open spec fn integer_number(n: i64) -> JsonNumber {
    if n >= 0 {
        JsonNumber::PosInt(n as u64)
    } else {
        JsonNumber::NegInt(n)
    }
}

/// The JSON document that a Python object stands for: the first reading that it
/// offers, in the order of none, truth value, integer, double, text, items and
/// entries, or else its printed form. A double that is not a number is null.
pub open spec fn document_of(p: PyObjectView) -> JsonView
    decreases p,
{
    if p.is_none {
        JsonView::Null
    } else if p.as_bool is Some {
        JsonView::Bool(p.as_bool->0)
    } else if p.as_int is Some {
        JsonView::Number(integer_number(p.as_int->0))
    } else if p.as_float is Some {
        if is_finite(p.as_float->0) {
            JsonView::Number(JsonNumber::Float(p.as_float->0))
        } else {
            JsonView::Null
        }
    } else if p.as_text is Some {
        JsonView::Str(p.as_text->0@)
    } else {
        match p.items {
            Some(items) => JsonView::Array(documents_of(items@)),
            None => match p.fields {
                Some(fields) => JsonView::Object(entries_of(fields@)),
                None => JsonView::Str(p.printed@),
            },
        }
    }
}

/// The JSON documents that Python objects stand for.
pub open spec fn documents_of(items: Seq<PyObjectView>) -> Seq<JsonView>
    decreases items,
{
    if items.len() == 0 {
        Seq::empty()
    } else {
        documents_of(items.drop_last()).push(document_of(items[items.len() - 1]))
    }
}

/// The JSON fields that the entries of a dictionary stand for.
pub open spec fn entries_of(fields: Seq<(String, PyObjectView)>) -> Seq<(Seq<char>, JsonView)>
    decreases fields,
{
    if fields.len() == 0 {
        Seq::empty()
    } else {
        let last = fields[fields.len() - 1];
        entries_of(fields.drop_last()).push((last.0@, document_of(last.1)))
    }
}

/// The JSON document that a Python object stands for.
pub fn py_to_value(p: &PyObjectView) -> (r: JsonValue)
    ensures
        json_view(r) == document_of(*p),
    decreases p,
{
    if p.is_none {
        return JsonValue::Null;
    }
    if let Some(b) = p.as_bool {
        return JsonValue::Bool(b);
    }
    if let Some(n) = p.as_int {
        let number = if n >= 0 {
            JsonNumber::PosInt(n as u64)
        } else {
            JsonNumber::NegInt(n)
        };
        return JsonValue::Number(number);
    }
    if let Some(bits) = p.as_float {
        if bits / 0x10_0000_0000_0000 % 0x800 != 0x7ff {
            return JsonValue::Number(JsonNumber::Float(bits));
        }
        return JsonValue::Null;
    }
    if let Some(s) = &p.as_text {
        return JsonValue::Str(s.clone());
    }
    if let Some(items) = &p.items {
        let mut out: Vec<JsonValue> = Vec::new();
        for i in 0..items.len()
            invariant
                p.items == Some(*items),
                json_views(out@) == documents_of(items@.take(i as int)),
        {
            let ghost before = out@;
            assert(decreases_to!(*p => p.items->0@));
            assert(decreases_to!(items@ => items@[i as int]));
            let item = py_to_value(&items[i]);
            out.push(item);
            assert(out@.drop_last() == before);
            assert(items@.take(i + 1).drop_last() == items@.take(i as int));
        }
        assert(items@.take(items@.len() as int) == items@);
        return JsonValue::Array(out);
    }
    if let Some(fields) = &p.fields {
        let mut out: Vec<(String, JsonValue)> = Vec::new();
        for i in 0..fields.len()
            invariant
                p.fields == Some(*fields),
                json_fields(out@) == entries_of(fields@.take(i as int)),
        {
            let ghost before = out@;
            assert(decreases_to!(*p => p.fields->0@));
            assert(decreases_to!(fields@ => fields@[i as int]));
            assert(decreases_to!(fields@[i as int] => fields@[i as int].1));
            let value = py_to_value(&fields[i].1);
            out.push((fields[i].0.clone(), value));
            assert(out@.drop_last() == before);
            assert(fields@.take(i + 1).drop_last() == fields@.take(i as int));
        }
        assert(fields@.take(fields@.len() as int) == fields@);
        return JsonValue::Object(out);
    }
    JsonValue::Str(p.printed.clone())
}

} // verus!
