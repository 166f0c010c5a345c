//! JSON documents as plain values.

use vstd::prelude::*;

use crate::text::str_eq;

verus! {

/// A JSON number.
#[derive(Debug, Clone, Copy, PartialEq, Eq, Structural)]
pub enum JsonNumber {
    /// An integer that is not negative.
    PosInt(u64),
    /// A negative integer.
    NegInt(i64),
    /// Any other number, by the bits of its IEEE 754 double.
    Float(u64),
}

/// A JSON document.
#[derive(Debug, PartialEq)]
pub enum JsonValue {
    Null,
    Bool(bool),
    Number(JsonNumber),
    Str(String),
    Array(Vec<JsonValue>),
    Object(Vec<(String, JsonValue)>),
}

/// The fields of an object, by their names.
pub open spec fn named_fields(fields: Seq<(String, JsonValue)>) -> Seq<(Seq<char>, JsonValue)> {
    fields.map_values(|f: (String, JsonValue)| (f.0@, f.1))
}

/// The first field called `name`.
pub open spec fn lookup(fields: Seq<(Seq<char>, JsonValue)>, name: Seq<char>) -> Option<JsonValue>
    decreases fields.len(),
{
    if fields.len() == 0 {
        None
    } else if fields[0].0 == name {
        Some(fields[0].1)
    } else {
        lookup(fields.skip(1), name)
    }
}

/// The fields with the first one called `name` set to `value`, or with a new one
/// at the end where there is none.
pub open spec fn with_field(
    fields: Seq<(Seq<char>, JsonValue)>,
    name: Seq<char>,
    value: JsonValue,
) -> Seq<(Seq<char>, JsonValue)>
    decreases fields.len(),
{
    if fields.len() == 0 {
        seq![(name, value)]
    } else if fields[0].0 == name {
        seq![(name, value)] + fields.skip(1)
    } else {
        seq![fields[0]] + with_field(fields.skip(1), name, value)
    }
}

/// What the field `name` of a document holds, where it is an object that has one.
pub open spec fn field_of(v: JsonValue, name: Seq<char>) -> Option<JsonValue> {
    match v {
        JsonValue::Object(fields) => lookup(named_fields(fields@), name),
        _ => None,
    }
}

/// The text of a document that is a string.
pub open spec fn text_of(v: JsonValue) -> Option<Seq<char>> {
    match v {
        JsonValue::Str(s) => Some(s@),
        _ => None,
    }
}

/// The integer that a document is, where it is one that fits in 64 bits with a
/// sign.
pub open spec fn integer_of(v: JsonValue) -> Option<i64> {
    match v {
        JsonValue::Number(JsonNumber::PosInt(n)) => if n <= i64::MAX {
            Some(n as i64)
        } else {
            None
        },
        JsonValue::Number(JsonNumber::NegInt(n)) => Some(n),
        _ => None,
    }
}

/// A field that was set reads back as what it was set to, and every other field
/// as before.
pub proof fn law_set_field_reads_back(
    fields: Seq<(Seq<char>, JsonValue)>,
    name: Seq<char>,
    value: JsonValue,
    other: Seq<char>,
)
    ensures
        lookup(with_field(fields, name, value), name) == Some(value),
        other != name ==> lookup(with_field(fields, name, value), other) == lookup(fields, other),
    decreases fields.len(),
{
    let after = with_field(fields, name, value);
    if fields.len() == 0 {
        assert(after.skip(1) == Seq::<(Seq<char>, JsonValue)>::empty());
        assert(lookup(after.skip(1), other) is None);
    } else if fields[0].0 == name {
        assert(after.skip(1) == fields.skip(1));
    } else {
        law_set_field_reads_back(fields.skip(1), name, value, other);
        assert(after.skip(1) == with_field(fields.skip(1), name, value));
    }
}

impl JsonValue {
    /// What the field `name` holds, where this is an object that has one.
    pub fn get(&self, name: &str) -> (r: Option<&JsonValue>)
        ensures
            match r {
                Some(v) => field_of(*self, name@) == Some(*v),
                None => field_of(*self, name@) is None,
            },
    {
        if let JsonValue::Object(fields) = self {
            let ghost all = named_fields(fields@);
            assert(all.skip(0) == all);
            for i in 0..fields.len()
                invariant
                    all == named_fields(fields@),
                    *self == JsonValue::Object(*fields),
                    lookup(all, name@) == lookup(all.skip(i as int), name@),
            {
                assert(all.skip(i as int).skip(1) == all.skip(i + 1));
                if str_eq(fields[i].0.as_str(), name) {
                    return Some(&fields[i].1);
                }
            }
            None
        } else {
            None
        }
    }

    /// The text, where this is a string.
    pub fn as_str(&self) -> (r: Option<&str>)
        ensures
            match r {
                Some(s) => text_of(*self) == Some(s@),
                None => text_of(*self) is None,
            },
    {
        if let JsonValue::Str(s) = self {
            Some(s.as_str())
        } else {
            None
        }
    }

    /// The integer, where this is one that fits.
    pub fn as_i64(&self) -> (r: Option<i64>)
        ensures
            r == integer_of(*self),
    {
        match self {
            JsonValue::Number(JsonNumber::PosInt(n)) => {
                if *n <= i64::MAX as u64 {
                    Some(*n as i64)
                } else {
                    None
                }
            },
            JsonValue::Number(JsonNumber::NegInt(n)) => Some(*n),
            _ => None,
        }
    }

    /// Whether this is null.
    pub fn is_null(&self) -> (r: bool)
        ensures
            r == (*self is Null),
    {
        if let JsonValue::Null = self {
            true
        } else {
            false
        }
    }

    /// Sets the field `name`, where this is an object; leaves anything else as it
    /// is.
    pub fn set_field(&mut self, name: &str, value: JsonValue)
        ensures
            match *old(self) {
                JsonValue::Object(before) => {
                    &&& *final(self) matches JsonValue::Object(after)
                    &&& named_fields(after@) == with_field(named_fields(before@), name@, value)
                },
                _ => *final(self) == *old(self),
            },
    {
        if let JsonValue::Object(fields) = self {
            set_in(fields, name, value);
        }
    }
}

proof fn lemma_with_field_at(
    fields: Seq<(Seq<char>, JsonValue)>,
    name: Seq<char>,
    value: JsonValue,
    i: int,
)
    requires
        0 <= i <= fields.len(),
        forall|j: int| 0 <= j < i ==> (#[trigger] fields[j]).0 != name,
        i < fields.len() ==> fields[i].0 == name,
    ensures
        with_field(fields, name, value) == if i < fields.len() {
            fields.update(i, (name, value))
        } else {
            fields.push((name, value))
        },
    decreases i,
{
    if i == 0 {
        if fields.len() > 0 {
            assert(fields.update(0, (name, value)) == seq![(name, value)] + fields.skip(1));
        } else {
            assert(fields.push((name, value)) == seq![(name, value)]);
        }
    } else {
        let rest = fields.skip(1);
        assert forall|j: int| 0 <= j < i - 1 implies (#[trigger] rest[j]).0 != name by {
            assert(fields[j + 1].0 != name);
        }
        lemma_with_field_at(rest, name, value, i - 1);
        assert(fields[0].0 != name);
        if i < fields.len() {
            assert(seq![fields[0]] + rest.update(i - 1, (name, value)) == fields.update(
                i,
                (name, value),
            ));
        } else {
            assert(seq![fields[0]] + rest.push((name, value)) == fields.push((name, value)));
        }
    }
}

fn set_in(fields: &mut Vec<(String, JsonValue)>, name: &str, value: JsonValue)
    ensures
        named_fields(final(fields)@) == with_field(named_fields(old(fields)@), name@, value),
{
    let ghost before = named_fields(fields@);
    let n: usize = fields.len();
    let mut i: usize = 0;
    while i < n && !str_eq(fields[i].0.as_str(), name)
        invariant
            i <= n == fields@.len(),
            before == named_fields(fields@),
            forall|j: int| 0 <= j < i ==> (#[trigger] before[j]).0 != name@,
        decreases n - i,
    {
        i = i + 1;
    }
    proof {
        lemma_with_field_at(before, name@, value, i as int);
    }
    if i < n {
        fields.set(i, (name.to_string(), value));
        assert(named_fields(fields@) == before.update(i as int, (name@, value)));
    } else {
        fields.push((name.to_string(), value));
        assert(named_fields(fields@) == before.push((name@, value)));
    }
}

} // verus!
