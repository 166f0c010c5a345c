//! What is read where: moments in texts, documents in values of other languages, and
//! items in pages.

use vstd::prelude::*;

use crate::bindings::asked_access;
use crate::clock::{
    datetime_of_text, datetime_text, formatted_time, moved_by, parsed_naive_time,
    parsed_offset_time, parsed_rfc3339, Timestamp,
};
use crate::json::{integer_of, lookup, with_field, JsonNumber, JsonValue};
use crate::pagination::{
    after_page, first_of_page, fresh_cursor, law_cursor_yields_the_stream, nth_item, stream_items,
    CursorState, Page,
};
use crate::python::{
    document_of, documents_of, entries_of, integer_number, is_finite, json_fields, json_view,
    json_views, JsonView, PyObjectView,
};

verus! {

// ---------------------------------------------------------------------------
// Moments
// ---------------------------------------------------------------------------

/// Milliseconds are counted in full: the moment lies within the millisecond that starts
/// then.
pub proof fn law_milliseconds_are_rounded_down(t: Timestamp)
    ensures
        t.millis() * 1_000_000 <= t.instant() < (t.millis() + 1) * 1_000_000,
{
}

/// Leaving out what is shorter than a microsecond moves a moment back, by less than one
/// microsecond, to a whole one.
pub proof fn law_microseconds_are_rounded_down(t: Timestamp)
    ensures
        t.to_micros().secs == t.secs,
        t.to_micros().nanos as int % 1000 == 0,
        t.to_micros().nanos <= t.nanos < t.to_micros().nanos + 1000,
{
    assert(t.nanos / 1000 * 1000 <= t.nanos);
}

/// Moving a moment by nothing leaves it where it is, moving it twice is moving it by the
/// sum, and there is one moment only that it can be moved to.
pub proof fn law_moved_moments(
    t: Timestamp,
    a: int,
    u: Timestamp,
    b: int,
    r: Option<Timestamp>,
    s: Option<Timestamp>,
)
    ensures
        t.ordinary() ==> moved_by(t, 0, Some(t)),
        moved_by(t, a, Some(u)) && moved_by(u, b, r) ==> moved_by(t, a + b, r),
        moved_by(t, a, r) && moved_by(t, a, s) ==> r == s,
        moved_by(t, a, Some(u)) ==> u.secs * 1_000_000_000 + u.nanos == t.secs * 1_000_000_000
            + t.nanos + a * 1_000_000,
{
    assert((a + b) * 1_000_000 == a * 1_000_000 + b * 1_000_000) by (nonlinear_arith);
}

/// A moment is written with six digits of its second, and as UTC.
pub proof fn law_text_of_a_moment(t: Timestamp)
    ensures
        datetime_text(t) == formatted_time(t.secs, t.nanos, "%Y-%m-%dT%H:%M:%S%.6f"@) + "+00:00"@,
{
}

/// The text of a moment is read with its offset where it has one, failing that as RFC
/// 3339 has it, and failing both without an offset.
pub proof fn law_readings_of_a_moment(s: Seq<char>)
    ensures
        parsed_offset_time(s, "%Y-%m-%dT%H:%M:%S%.f%:z"@) matches Some(p) ==> datetime_of_text(s)
            == Some(Timestamp { secs: p.0, nanos: p.1 }),
        parsed_offset_time(s, "%Y-%m-%dT%H:%M:%S%.f%:z"@) is None ==> (parsed_rfc3339(
            s,
        ) matches Some(p) ==> datetime_of_text(s) == Some(Timestamp { secs: p.0, nanos: p.1 })),
        parsed_offset_time(s, "%Y-%m-%dT%H:%M:%S%.f%:z"@) is None && parsed_rfc3339(s) is None
            ==> match parsed_naive_time(s, "%Y-%m-%dT%H:%M:%S%.f"@) {
            Ok(p) => datetime_of_text(s) == Some(Timestamp { secs: p.0, nanos: p.1 }),
            Err(_) => datetime_of_text(s) is None,
        },
{
}

// ---------------------------------------------------------------------------
// Documents
// ---------------------------------------------------------------------------

/// An integer of 64 bits with a sign reads back from the number that stands for it, and
/// a number that is not negative is written as such.
pub proof fn law_integers_read_back(n: i64)
    ensures
        integer_of(JsonValue::Number(integer_number(n))) == Some(n),
        integer_number(n) is PosInt <==> n >= 0,
{
}

/// A document is an integer where it is a whole number that fits in 64 bits with a sign,
/// and nowhere else.
pub proof fn law_integers_of_documents(v: JsonValue, n: i64)
    ensures
        integer_of(v) == Some(n) <==> {
            ||| v matches JsonValue::Number(JsonNumber::PosInt(m)) && m == n
            ||| v matches JsonValue::Number(JsonNumber::NegInt(m)) && m == n
        },
{
}

/// Setting a field changes the first one of that name where it stands, or puts a new one
/// behind all others where there is none.
pub proof fn law_fields_stay_in_place(
    fields: Seq<(Seq<char>, JsonValue)>,
    name: Seq<char>,
    value: JsonValue,
    at: int,
)
    ensures
        (0 <= at < fields.len() && fields[at].0 == name && forall|i: int|
            0 <= i < at ==> (#[trigger] fields[i]).0 != name) ==> with_field(fields, name, value)
            == fields.update(at, (name, value)) && lookup(fields, name) == Some(fields[at].1),
        (forall|i: int| 0 <= i < fields.len() ==> (#[trigger] fields[i]).0 != name) ==> with_field(
            fields,
            name,
            value,
        ) == fields.push((name, value)) && lookup(fields, name) is None,
    decreases fields.len(),
{
    let after = with_field(fields, name, value);
    if fields.len() == 0 {
        assert(after == fields.push((name, value)));
    } else {
        let rest = fields.skip(1);
        law_fields_stay_in_place(rest, name, value, at - 1);
        assert(forall|i: int| 0 <= i < rest.len() ==> #[trigger] rest[i] == fields[i + 1]);
        if fields[0].0 == name {
            assert(after == fields.update(0, (name, value)));
            assert(fields[0].0 == name);
        } else {
            if 0 <= at < fields.len() && fields[at].0 == name && (forall|i: int|
                0 <= i < at ==> (#[trigger] fields[i]).0 != name) {
                assert(rest[at - 1].0 == name);
                assert(forall|i: int| 0 <= i < at - 1 ==> (#[trigger] rest[i]).0 != name);
                assert(after == fields.update(at, (name, value)));
            }
            if forall|i: int| 0 <= i < fields.len() ==> (#[trigger] fields[i]).0 != name {
                assert(forall|i: int| 0 <= i < rest.len() ==> (#[trigger] rest[i]).0 != name);
                assert(after == fields.push((name, value)));
            }
        }
    }
}

proof fn lemma_documents(items: Seq<PyObjectView>, i: int)
    requires
        0 <= i < items.len(),
    ensures
        documents_of(items).len() == items.len(),
        documents_of(items)[i] == document_of(items[i]),
    decreases items.len(),
{
    let front = items.drop_last();
    lemma_documents_len(front);
    if i < front.len() {
        lemma_documents(front, i);
    }
}

proof fn lemma_documents_len(items: Seq<PyObjectView>)
    ensures
        documents_of(items).len() == items.len(),
    decreases items.len(),
{
    if items.len() > 0 {
        lemma_documents_len(items.drop_last());
    }
}

proof fn lemma_entries(fields: Seq<(String, PyObjectView)>, i: int)
    ensures
        entries_of(fields).len() == fields.len(),
        0 <= i < fields.len() ==> entries_of(fields)[i] == (fields[i].0@, document_of(fields[i].1)),
    decreases fields.len(),
{
    if fields.len() > 0 {
        lemma_entries(fields.drop_last(), i);
    }
}

/// A plain value of Python stands for the document of the first of its readings: none, a
/// truth value, an integer, a double and a text, in this order. A double that is
/// infinite or no number, of which all bits of the exponent are set, stands for null.
pub proof fn law_documents_of_plain_values(p: PyObjectView)
    ensures
        p.is_none ==> document_of(p) == JsonView::Null,
        !p.is_none ==> match (p.as_bool, p.as_int, p.as_float, p.as_text) {
            (Some(b), _, _, _) => document_of(p) == JsonView::Bool(b),
            (None, Some(n), _, _) => document_of(p) == JsonView::Number(
                if n >= 0 {
                    JsonNumber::PosInt(n as u64)
                } else {
                    JsonNumber::NegInt(n)
                },
            ),
            (None, None, Some(bits), _) => document_of(p) == if bits & 0x7ff0_0000_0000_0000
                == 0x7ff0_0000_0000_0000 {
                JsonView::Null
            } else {
                JsonView::Number(JsonNumber::Float(bits))
            },
            (None, None, None, Some(s)) => document_of(p) == JsonView::Str(s@),
            (None, None, None, None) => true,
        },
{
    if let Some(bits) = p.as_float {
        assert((bits & 0x7ff0_0000_0000_0000 == 0x7ff0_0000_0000_0000) <==> (bits
            / 0x10_0000_0000_0000 % 0x800 == 0x7ff)) by (bit_vector);
        assert(is_finite(bits) <==> bits / 0x10_0000_0000_0000 % 0x800 != 0x7ff);
    }
}

/// Whether none of the plain readings is offered.
pub open spec fn is_no_plain_value(p: PyObjectView) -> bool {
    !p.is_none && p.as_bool is None && p.as_int is None && p.as_float is None && p.as_text is None
}

/// A value of Python with items stands for the array of their documents, one with
/// entries for the object of theirs, and any other for what it is printed as.
pub proof fn law_documents_of_containers(p: PyObjectView, i: int)
    requires
        is_no_plain_value(p),
    ensures
        match (p.items, p.fields) {
            (Some(items), _) => {
                &&& document_of(p) matches JsonView::Array(docs)
                &&& docs.len() == items@.len()
                &&& 0 <= i < items@.len() ==> docs[i] == document_of(items@[i])
            },
            (None, Some(fields)) => {
                &&& document_of(p) matches JsonView::Object(docs)
                &&& docs.len() == fields@.len()
                &&& 0 <= i < fields@.len() ==> docs[i].0 == fields@[i].0@ && docs[i].1
                    == document_of(fields@[i].1)
            },
            (None, None) => document_of(p) == JsonView::Str(p.printed@),
        },
{
    if let Some(items) = p.items {
        lemma_documents_len(items@);
        if 0 <= i < items@.len() {
            lemma_documents(items@, i);
        }
    } else if let Some(fields) = p.fields {
        lemma_entries(fields@, i);
    }
}

proof fn lemma_views(items: Seq<JsonValue>, i: int)
    ensures
        json_views(items).len() == items.len(),
        0 <= i < items.len() ==> json_views(items)[i] == json_view(items[i]),
    decreases items.len(),
{
    if items.len() > 0 {
        lemma_views(items.drop_last(), i);
    }
}

proof fn lemma_fields(fields: Seq<(String, JsonValue)>, i: int)
    ensures
        json_fields(fields).len() == fields.len(),
        0 <= i < fields.len() ==> json_fields(fields)[i] == (fields[i].0@, json_view(fields[i].1)),
    decreases fields.len(),
{
    if fields.len() > 0 {
        lemma_fields(fields.drop_last(), i);
    }
}

/// A document as plain values has the same kind, the same value and the same parts in
/// the same order.
pub proof fn law_documents_as_plain_values(v: JsonValue, i: int)
    ensures
        match v {
            JsonValue::Null => json_view(v) == JsonView::Null,
            JsonValue::Bool(b) => json_view(v) == JsonView::Bool(b),
            JsonValue::Number(n) => json_view(v) == JsonView::Number(n),
            JsonValue::Str(s) => json_view(v) == JsonView::Str(s@),
            JsonValue::Array(items) => {
                &&& json_view(v) matches JsonView::Array(parts)
                &&& parts.len() == items@.len()
                &&& 0 <= i < items@.len() ==> parts[i] == json_view(items@[i])
            },
            JsonValue::Object(fields) => {
                &&& json_view(v) matches JsonView::Object(parts)
                &&& parts.len() == fields@.len()
                &&& 0 <= i < fields@.len() ==> parts[i].0 == fields@[i].0@ && parts[i].1
                    == json_view(fields@[i].1)
            },
        },
{
    match v {
        JsonValue::Array(items) => lemma_views(items@, i),
        JsonValue::Object(fields) => lemma_fields(fields@, i),
        _ => {},
    }
}

/// A queue is accessed as the caller says, and by a single client where they say
/// nothing.
pub proof fn law_access_to_a_queue(value: Option<String>)
    ensures
        value matches Some(v) ==> asked_access(value) == v@,
        value is None ==> asked_access(value) == "single"@,
{
}

// ---------------------------------------------------------------------------
// Items
// ---------------------------------------------------------------------------

/// The items of all pages, one page after the other.
pub open spec fn all_items<T>(pages: Seq<Page<T>>) -> Seq<T>
    decreases pages.len(),
{
    if pages.len() == 0 {
        Seq::empty()
    } else {
        pages[0].items + all_items(pages.skip(1))
    }
}

/// Whether a page says that more follow, and has items itself.
pub open spec fn goes_on<T>(page: Page<T>) -> bool {
    page.has_more && page.items.len() > 0
}

proof fn lemma_stream<T>(pages: Seq<Page<T>>, last: int)
    requires
        0 <= last < pages.len(),
        !goes_on(pages[last]),
        forall|i: int| 0 <= i < last ==> goes_on(#[trigger] pages[i]),
    ensures
        stream_items(pages) == all_items(pages.take(last + 1)),
    decreases pages.len(),
{
    let shown = pages.take(last + 1);
    assert(shown[0] == pages[0]);
    if last == 0 {
        assert(shown.skip(1) == Seq::<Page<T>>::empty());
        assert(all_items(shown.skip(1)) == Seq::<T>::empty());
        assert(pages[0].items + Seq::<T>::empty() == pages[0].items);
        assert(all_items(shown) == shown[0].items + all_items(shown.skip(1)));
    } else {
        let rest = pages.skip(1);
        assert(goes_on(pages[0]));
        assert forall|i: int| 0 <= i < last - 1 implies goes_on(#[trigger] rest[i]) by {
            assert(goes_on(pages[i + 1]));
        }
        lemma_stream(rest, last - 1);
        assert(shown.skip(1) == rest.take(last - 1 + 1));
        assert(all_items(shown) == shown[0].items + all_items(shown.skip(1)));
    }
}

/// A cursor hands out the items of the pages up to the first one that has no items or
/// says that none follow, in order, and not more than its limit. After that it hands
/// out nothing.
pub proof fn law_cursor_stops_at_the_last_page<T>(
    limit: Option<usize>,
    pages: Seq<Page<T>>,
    last: int,
    n: nat,
)
    requires
        0 <= last < pages.len(),
        !goes_on(pages[last]),
        forall|i: int| 0 <= i < last ==> goes_on(#[trigger] pages[i]),
    ensures
        ({
            let items = all_items(pages.take(last + 1));
            nth_item(fresh_cursor::<T>(limit), pages, n) == if n < items.len() && (
            limit matches Some(most) ==> n < most) {
                Some(items[n as int])
            } else {
                None
            }
        }),
{
    lemma_stream(pages, last);
    law_cursor_yields_the_stream(limit, pages, n);
}

/// A cursor takes in of a page what is still wanted, hands out the first item, keeps the
/// others, and wants that much less. It takes in no further page where the page says
/// that none follow, or held more than was wanted.
pub proof fn law_page_is_taken_in<T>(st: CursorState<T>, items: Seq<T>, has_more: bool)
    requires
        items.len() > 0,
    ensures
        st.remaining is None ==> {
            &&& first_of_page(st, items) == Some(items[0])
            &&& after_page(st, items, has_more).pending == items.skip(1)
            &&& after_page(st, items, has_more).remaining is None
            &&& after_page(st, items, has_more).done == !has_more
        },
        st.remaining matches Some(k) ==> {
            let taken = if items.len() <= k {
                items
            } else {
                items.take(k as int)
            };
            let after = after_page(st, items, has_more);
            &&& k > 0 ==> first_of_page(st, items) == Some(items[0])
            &&& k > 0 ==> after.pending == taken.skip(1)
            &&& k > 0 ==> after.remaining == Some((k - taken.len()) as usize)
            &&& k > 0 ==> after.done == (!has_more || items.len() > k)
            &&& k == 0 ==> first_of_page(st, items) is None && after.done && after.pending
                == st.pending
        },
{
}

/// A page without items ends the stream, whatever it says of others.
pub proof fn law_empty_page_ends_the_stream<T>(st: CursorState<T>, has_more: bool)
    ensures
        first_of_page(st, Seq::<T>::empty()) is None,
        after_page(st, Seq::<T>::empty(), has_more).done,
        after_page(st, Seq::<T>::empty(), has_more).pending == st.pending,
        after_page(st, Seq::<T>::empty(), has_more).remaining == st.remaining,
{
}

} // verus!
