//! What a request document says: its key, and whether it was handled, read off its
//! fields themselves.

use vstd::prelude::*;

use crate::clock::{datetime_text, Timestamp};
use crate::json::{field_of, law_set_field_reads_back, lookup, named_fields, with_field, JsonValue};
use crate::request_queue::{
    after_discoveries, after_discovery, handled_fields, is_handled_form, unique_key_of, QueueView,
};

verus! {

/// Whether the field number `i` is the first one called `name`.
pub open spec fn first_field(fields: Seq<(String, JsonValue)>, i: int, name: Seq<char>) -> bool {
    &&& 0 <= i < fields.len()
    &&& fields[i].0@ == name
    &&& forall|j: int| 0 <= j < i ==> (#[trigger] fields[j]).0@ != name
}

/// Whether no field is called `name`.
pub open spec fn no_field(fields: Seq<(String, JsonValue)>, name: Seq<char>) -> bool {
    forall|j: int| 0 <= j < fields.len() ==> (#[trigger] fields[j]).0@ != name
}

proof fn lemma_lookup_first(fields: Seq<(Seq<char>, JsonValue)>, i: int, name: Seq<char>)
    requires
        0 <= i < fields.len(),
        fields[i].0 == name,
        forall|j: int| 0 <= j < i ==> (#[trigger] fields[j]).0 != name,
    ensures
        lookup(fields, name) == Some(fields[i].1),
    decreases i,
{
    if i > 0 {
        assert(fields[0].0 != name);
        let rest = fields.skip(1);
        assert forall|j: int| 0 <= j < i - 1 implies (#[trigger] rest[j]).0 != name by {
            assert(rest[j] == fields[j + 1]);
        }
        lemma_lookup_first(rest, i - 1, name);
    }
}

proof fn lemma_lookup_none(fields: Seq<(Seq<char>, JsonValue)>, name: Seq<char>)
    requires
        forall|j: int| 0 <= j < fields.len() ==> (#[trigger] fields[j]).0 != name,
    ensures
        lookup(fields, name) is None,
    decreases fields.len(),
{
    if fields.len() > 0 {
        assert(fields[0].0 != name);
        let rest = fields.skip(1);
        assert forall|j: int| 0 <= j < rest.len() implies (#[trigger] rest[j]).0 != name by {
            assert(rest[j] == fields[j + 1]);
        }
        lemma_lookup_none(rest, name);
    }
}

/// A field of an object is the first one of its name, and an object has none where
/// no field is called so. No other document has fields.
pub proof fn law_first_field_counts(v: JsonValue, name: Seq<char>, i: int)
    ensures
        v matches JsonValue::Object(fields) ==> {
            &&& first_field(fields@, i, name) ==> field_of(v, name) == Some(fields@[i].1)
            &&& no_field(fields@, name) ==> field_of(v, name) is None
        },
        !(v is Object) ==> field_of(v, name) is None,
{
    if let JsonValue::Object(fields) = v {
        let named = named_fields(fields@);
        if first_field(fields@, i, name) {
            assert forall|j: int| 0 <= j < i implies (#[trigger] named[j]).0 != name by {
                assert(fields@[j].0@ != name);
            }
            lemma_lookup_first(named, i, name);
        }
        if no_field(fields@, name) {
            assert forall|j: int| 0 <= j < named.len() implies (#[trigger] named[j]).0 != name by {
                assert(fields@[j].0@ != name);
            }
            lemma_lookup_none(named, name);
        }
    }
}

/// The key of a request is the text of its field `uniqueKey`, or, where it has no
/// such field, of `unique_key`. A field that holds no text gives no key, and
/// neither does a document without either field.
pub proof fn law_key_in_either_spelling(fields: Vec<(String, JsonValue)>, i: int)
    ensures
        ({
            let request = JsonValue::Object(fields);
            let camel = first_field(fields@, i, "uniqueKey"@);
            let snake = no_field(fields@, "uniqueKey"@) && first_field(
                fields@,
                i,
                "unique_key"@,
            );
            &&& camel || snake ==> match fields@[i].1 {
                JsonValue::Str(s) => unique_key_of(request) == Some(s@),
                _ => unique_key_of(request) is None,
            }
            &&& no_field(fields@, "uniqueKey"@) && no_field(fields@, "unique_key"@)
                ==> unique_key_of(request) is None
        }),
        forall|v: JsonValue| !(v is Object) ==> #[trigger] unique_key_of(v) is None,
{
    let request = JsonValue::Object(fields);
    law_first_field_counts(request, "uniqueKey"@, i);
    law_first_field_counts(request, "unique_key"@, i);
    assert forall|v: JsonValue| !(v is Object) implies #[trigger] unique_key_of(v) is None by {
        law_first_field_counts(v, "uniqueKey"@, 0);
        law_first_field_counts(v, "unique_key"@, 0);
    }
}

/// Whether a queue has a request anywhere.
pub open spec fn has_request(q: QueueView, key: Seq<char>) -> bool {
    ||| q.regular.dom().contains(key)
    ||| q.forefront.dom().contains(key)
    ||| q.in_progress.contains(key)
    ||| q.handled.contains(key)
}

/// Whether the field number `i` is the one that tells when a request was handled:
/// `handledAt`, or, where there is none, `handled_at`.
pub open spec fn tells_handled(fields: Seq<(String, JsonValue)>, i: int) -> bool {
    ||| first_field(fields, i, "handledAt"@)
    ||| no_field(fields, "handledAt"@) && first_field(fields, i, "handled_at"@)
}

/// A document with a time of handling, under either spelling, whose key the queue
/// does not have, is taken in as handled, and does not wait.
pub proof fn law_handled_document_is_taken_in_as_handled(
    q: QueueView,
    fields: Vec<(String, JsonValue)>,
    key: Seq<char>,
    i: int,
)
    requires
        unique_key_of(JsonValue::Object(fields)) == Some(key),
        !has_request(q, key),
        tells_handled(fields@, i),
        fields@[i].1 != JsonValue::Null,
    ensures
        ({
            let a = after_discovery(q, JsonValue::Object(fields));
            &&& a.handled == q.handled.push(key)
            &&& a.regular == q.regular
            &&& a.forefront == q.forefront
            &&& a.in_progress == q.in_progress
            &&& a.sequence == q.sequence
            &&& a.forefront_sequence == q.forefront_sequence
            &&& a.metadata == q.metadata
            &&& a.cache == q.cache
            &&& a.needs_refresh == q.needs_refresh
        }),
{
    let request = JsonValue::Object(fields);
    law_first_field_counts(request, "handledAt"@, i);
    law_first_field_counts(request, "handled_at"@, i);
}

/// A document without a time of handling, or with null in its place, whose key the
/// queue does not have, is taken in as waiting, behind all that wait.
pub proof fn law_other_document_is_taken_in_as_waiting(
    q: QueueView,
    fields: Vec<(String, JsonValue)>,
    key: Seq<char>,
    i: int,
)
    requires
        unique_key_of(JsonValue::Object(fields)) == Some(key),
        !has_request(q, key),
        q.sequence < i64::MAX,
        ({
            ||| tells_handled(fields@, i) && fields@[i].1 == JsonValue::Null
            ||| no_field(fields@, "handledAt"@) && no_field(fields@, "handled_at"@)
        }),
    ensures
        ({
            let a = after_discovery(q, JsonValue::Object(fields));
            &&& a.regular == q.regular.insert(key, Some((q.sequence + 1) as i64))
            &&& a.sequence == q.sequence + 1
            &&& a.handled == q.handled
            &&& a.forefront == q.forefront
            &&& a.in_progress == q.in_progress
            &&& a.forefront_sequence == q.forefront_sequence
            &&& a.metadata == q.metadata
            &&& a.cache == q.cache
            &&& a.needs_refresh == q.needs_refresh
        }),
{
    let request = JsonValue::Object(fields);
    law_first_field_counts(request, "handledAt"@, i);
    law_first_field_counts(request, "handled_at"@, i);
}

/// A document whose key the queue has already, or that has none, changes nothing.
pub proof fn law_known_document_changes_nothing(q: QueueView, request: JsonValue)
    requires
        unique_key_of(request) matches Some(k) ==> has_request(q, k),
    ensures
        after_discovery(q, request) == q,
{
}

proof fn lemma_discovery_keeps(q: QueueView, request: JsonValue, key: Seq<char>)
    ensures
        ({
            let a = after_discovery(q, request);
            &&& has_request(q, key) ==> has_request(a, key)
            &&& q.handled.contains(key) ==> a.handled.contains(key)
            &&& unique_key_of(request) != Some(key) ==> has_request(a, key) == has_request(q, key)
            &&& unique_key_of(request) == Some(key) ==> has_request(a, key)
        }),
{
    let a = after_discovery(q, request);
    if a.handled.len() > q.handled.len() {
        let k = unique_key_of(request)->0;
        if q.handled.contains(key) {
            let i = choose|i: int| 0 <= i < q.handled.len() && q.handled[i] == key;
            assert(a.handled[i] == key);
        }
        if a.handled.contains(key) && key != k {
            let i = choose|i: int| 0 <= i < a.handled.len() && a.handled[i] == key;
            assert(q.handled[i] == key);
        }
        assert(a.handled[q.handled.len() as int] == k);
    }
}

/// After documents were found on disk, a queue has what it had and the key of each
/// of them, and nothing else.
pub proof fn law_discovery_takes_in_every_document(
    q: QueueView,
    requests: Seq<JsonValue>,
    key: Seq<char>,
)
    ensures
        has_request(after_discoveries(q, requests), key) <==> has_request(q, key) || exists|i: int|
            0 <= i < requests.len() && unique_key_of(#[trigger] requests[i]) == Some(key),
    decreases requests.len(),
{
    if requests.len() > 0 {
        let front = requests.drop_last();
        law_discovery_takes_in_every_document(q, front, key);
        lemma_discovery_keeps(after_discoveries(q, front), requests.last(), key);
        assert(requests[requests.len() - 1] == requests.last());
        if exists|i: int| 0 <= i < front.len() && unique_key_of(#[trigger] front[i]) == Some(key) {
            let i = choose|i: int|
                0 <= i < front.len() && unique_key_of(#[trigger] front[i]) == Some(key);
            assert(requests[i] == front[i]);
        }
        if exists|i: int|
            0 <= i < requests.len() && unique_key_of(#[trigger] requests[i]) == Some(key) {
            let i = choose|i: int|
                0 <= i < requests.len() && unique_key_of(#[trigger] requests[i]) == Some(key);
            if i < front.len() {
                assert(front[i] == requests[i]);
            }
        }
    }
}

/// A request that was marked as handled at `now` keeps its key and every field but
/// the two that tell when it was handled, which both hold the text of that moment.
/// So a queue that does not have it and finds it on disk takes it in as handled.
pub proof fn law_handled_request_is_recognised(
    before: JsonValue,
    after: JsonValue,
    now: Timestamp,
    name: Seq<char>,
    q: QueueView,
)
    requires
        is_handled_form(before, after, now),
        unique_key_of(before) is Some,
    ensures
        unique_key_of(after) == unique_key_of(before),
        name != "handledAt"@ && name != "handled_at"@ ==> field_of(after, name) == field_of(
            before,
            name,
        ),
        field_of(after, "handledAt"@) matches Some(JsonValue::Str(s)) && s@ == datetime_text(now),
        field_of(after, "handled_at"@) matches Some(JsonValue::Str(s)) && s@ == datetime_text(now),
        !has_request(q, unique_key_of(before)->0) ==> after_discovery(q, after).handled
            == q.handled.push(unique_key_of(before)->0),
{
    reveal_strlit("handledAt");
    reveal_strlit("handled_at");
    reveal_strlit("uniqueKey");
    reveal_strlit("unique_key");
    assert("handledAt"@.len() != "handled_at"@.len());
    assert("uniqueKey"@.len() == 9 && "unique_key"@.len() == 10);
    assert("handledAt"@[0] != "uniqueKey"@[0] && "handled_at"@[0] != "unique_key"@[0]);
    law_first_field_counts(before, "uniqueKey"@, 0);
    law_first_field_counts(before, "unique_key"@, 0);
    assert(before is Object);
    let fields = before->Object_0;
    let stamped = after->Object_0;
    let (a, b) = choose|a: JsonValue, b: JsonValue|
        {
            &&& crate::json::text_of(a) == Some(datetime_text(now))
            &&& crate::json::text_of(b) == Some(datetime_text(now))
            &&& named_fields(stamped@) == #[trigger] with_field(
                #[trigger] with_field(named_fields(fields@), "handledAt"@, a),
                "handled_at"@,
                b,
            )
        };
    let first = with_field(named_fields(fields@), "handledAt"@, a);
    law_set_field_reads_back(named_fields(fields@), "handledAt"@, a, "uniqueKey"@);
    law_set_field_reads_back(named_fields(fields@), "handledAt"@, a, "unique_key"@);
    law_set_field_reads_back(named_fields(fields@), "handledAt"@, a, name);
    law_set_field_reads_back(first, "handled_at"@, b, "uniqueKey"@);
    law_set_field_reads_back(first, "handled_at"@, b, "unique_key"@);
    law_set_field_reads_back(first, "handled_at"@, b, "handledAt"@);
    law_set_field_reads_back(first, "handled_at"@, b, name);
    assert(handled_fields(fields@, stamped@, now));
}

} // verus!
