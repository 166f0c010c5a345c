//! What names come to: those of keys on disk, of requests, of random identifiers and
//! of the directories of storages.

use vstd::prelude::*;
use vstd::utf8::{encode_utf8, is_ascii_chars};

use crate::dataset::is_item_name;
use crate::json::{field_of, JsonValue};
use crate::path::{is_plain_name, law_plain_names_are_accepted, no_slash, path_join, path_names};
use crate::request_laws::{first_field, law_first_field_counts, no_field};
use crate::request_queue::request_file_of;
use crate::storage::{asked_name, has_id, named_location, STORAGE_ID_LENGTH, TEMP_PREFIX};
use crate::text::has_suffix;
use crate::utils::{
    base64_text, digest_request_id, encoded_byte, encoded_bytes, encoded_key, given_count,
    hex_value, is_alphanumeric, kept_in_id, lower_hex, lower_hex_digit, metadata_name,
    object_id_charset, percent_decoded, request_id, sha256, sha256_prefix_text, spelled_id,
    upper_hex_digit,
};

verus! {

// ---------------------------------------------------------------------------
// Keys
// ---------------------------------------------------------------------------

/// Whether a character stands for itself in the name of a key's file: a letter or a
/// digit of ASCII, or one of `_`, `.`, `-` and `~`.
pub open spec fn stays_in_a_name(c: char) -> bool {
    ||| '0' <= c <= '9'
    ||| 'A' <= c <= 'Z'
    ||| 'a' <= c <= 'z'
    ||| c == '_' || c == '.' || c == '-' || c == '~'
}

proof fn lemma_encode_utf8_sum(a: Seq<char>, b: Seq<char>)
    ensures
        encode_utf8(a + b) == encode_utf8(a) + encode_utf8(b),
    decreases a.len(),
{
    if a.len() == 0 {
        assert(a + b == b);
        assert(encode_utf8(a) + encode_utf8(b) == encode_utf8(b));
    } else {
        lemma_encode_utf8_sum(a.drop_first(), b);
        assert((a + b).drop_first() == a.drop_first() + b);
        assert((a + b)[0] == a[0]);
    }
}

proof fn lemma_encoded_bytes_sum(a: Seq<u8>, b: Seq<u8>)
    ensures
        encoded_bytes(a + b) == encoded_bytes(a) + encoded_bytes(b),
    decreases a.len(),
{
    if a.len() == 0 {
        assert(a + b == b);
        assert(encoded_bytes(a) + encoded_bytes(b) == encoded_bytes(b));
    } else {
        lemma_encoded_bytes_sum(a.skip(1), b);
        assert((a + b).skip(1) == a.skip(1) + b);
        assert((a + b)[0] == a[0]);
        assert(encoded_byte(a[0]) + (encoded_bytes(a.skip(1)) + encoded_bytes(b)) == (encoded_byte(
            a[0],
        ) + encoded_bytes(a.skip(1))) + encoded_bytes(b));
    }
}

/// The name of a key's file is that of its parts, one after the other.
pub proof fn law_keys_are_named_part_by_part(a: Seq<char>, b: Seq<char>)
    ensures
        encoded_key(a + b) == encoded_key(a) + encoded_key(b),
{
    lemma_encode_utf8_sum(a, b);
    lemma_encoded_bytes_sum(encode_utf8(a), encode_utf8(b));
}

proof fn lemma_one_ascii(c: char)
    requires
        (c as int) < 128,
    ensures
        encode_utf8(seq![c]) == seq![c as u8],
        encoded_key(seq![c]) == encoded_byte(c as u8),
{
    let s = seq![c];
    assert(is_ascii_chars(s));
    vstd::utf8::is_ascii_chars_encode_utf8(s);
    let bytes = encode_utf8(s);
    assert(bytes == seq![c as u8]) by {
        assert(s[0] as u8 == bytes[0]);
    }
    assert(bytes.skip(1) == Seq::<u8>::empty());
    assert(encoded_bytes(bytes.skip(1)) == Seq::<char>::empty());
    assert(encoded_byte(c as u8) + Seq::<char>::empty() == encoded_byte(c as u8));
}

/// A character that may stand in a name stands for itself there; any other one of
/// ASCII is written as a percent sign and the two digits of its code, in upper case.
pub proof fn law_characters_of_a_name(c: char)
    requires
        (c as int) < 128,
    ensures
        encoded_key(seq![c]) == if stays_in_a_name(c) {
            seq![c]
        } else {
            seq![
                '%',
                "0123456789ABCDEF"@[c as int / 16],
                "0123456789ABCDEF"@[c as int % 16],
            ]
        },
{
    lemma_one_ascii(c);
    reveal_strlit("0123456789ABCDEF");
    let b = c as u8;
    assert(b as char == c);
    let hi = c as int / 16;
    let lo = c as int % 16;
    lemma_hex_digits(hi);
    lemma_hex_digits(lo);
}

proof fn lemma_hex_digits(d: int)
    requires
        0 <= d < 16,
    ensures
        upper_hex_digit(d) == "0123456789ABCDEF"@[d],
        lower_hex_digit(d) == "0123456789abcdef"@[d],
{
    reveal_strlit("0123456789ABCDEF");
    reveal_strlit("0123456789abcdef");
}

proof fn lemma_plain_bytes(s: Seq<char>)
    requires
        forall|i: int| 0 <= i < s.len() ==> stays_in_a_name(#[trigger] s[i]),
    ensures
        encoded_key(s) == s,
    decreases s.len(),
{
    if s.len() == 0 {
        assert(encode_utf8(s).len() == 0);
        assert(encoded_key(s) == s);
    } else {
        let front = s.drop_last();
        assert forall|i: int| 0 <= i < front.len() implies stays_in_a_name(#[trigger] front[i]) by {
            assert(stays_in_a_name(s[i]));
        }
        lemma_plain_bytes(front);
        assert(stays_in_a_name(s[s.len() - 1]));
        assert(s == front + seq![s.last()]);
        law_keys_are_named_part_by_part(front, seq![s.last()]);
        law_characters_of_a_name(s.last());
    }
}

/// The name of a key's file is that of the bytes of the key, one after the other. Each
/// byte stands for itself where it is a character that may stand in a name, and is
/// written as a percent sign and two digits in upper case otherwise.
pub proof fn law_keys_are_named_byte_by_byte(key: Seq<char>, a: Seq<u8>, b: u8)
    ensures
        encoded_key(key) == encoded_bytes(encode_utf8(key)),
        encoded_bytes(Seq::empty()).len() == 0,
        encoded_bytes(a.push(b)) == encoded_bytes(a) + if b < 128 && stays_in_a_name(b as char) {
            seq![b as char]
        } else {
            seq![
                '%',
                "0123456789ABCDEF"@[b as int / 16],
                "0123456789ABCDEF"@[b as int % 16],
            ]
        },
{
    let one = seq![b];
    assert(a.push(b) == a + one);
    lemma_encoded_bytes_sum(a, one);
    assert(one.skip(1) == Seq::<u8>::empty());
    assert(encoded_bytes(one.skip(1)) == Seq::<char>::empty());
    assert(encoded_byte(b) + Seq::<char>::empty() == encoded_byte(b));
    lemma_hex_digits(b as int / 16);
    lemma_hex_digits(b as int % 16);
    if b < 128 {
        assert((b as char) as u8 == b);
    }
}

/// Whether a byte is the digit `d`, in either case.
pub open spec fn is_hex_digit_of(b: u8, d: int) -> bool {
    &&& 0 <= d < 16
    &&& b as int == "0123456789ABCDEF"@[d] as int || b as int == "0123456789abcdef"@[d] as int
}

/// A percent sign with two digits behind it, in either case, reads as the byte that they
/// name. Any other byte reads as itself.
pub proof fn law_escapes_are_read(b: Seq<u8>, high: u8, low: u8, h: int, l: int, byte: u8)
    ensures
        percent_decoded(Seq::empty()).len() == 0,
        is_hex_digit_of(high, h) && is_hex_digit_of(low, l) ==> percent_decoded(
            seq![0x25u8, high, low] + b,
        ) == seq![(h * 16 + l) as u8] + percent_decoded(b),
        byte != 0x25 ==> percent_decoded(seq![byte] + b) == seq![byte] + percent_decoded(b),
{
    reveal_strlit("0123456789ABCDEF");
    reveal_strlit("0123456789abcdef");
    assert((seq![byte] + b).skip(1) == b);
    if is_hex_digit_of(high, h) && is_hex_digit_of(low, l) {
        let whole = seq![0x25u8, high, low] + b;
        assert(whole[0] == 0x25 && whole[1] == high && whole[2] == low);
        assert(whole.skip(3) == b);
        lemma_digit_reads(high, h);
        lemma_digit_reads(low, l);
    }
}

proof fn lemma_digit_reads(b: u8, d: int)
    requires
        is_hex_digit_of(b, d),
    ensures
        hex_value(b) == Some(d),
{
    reveal_strlit("0123456789ABCDEF");
    reveal_strlit("0123456789abcdef");
    lemma_hex_digits(d);
}

/// A key made of characters that may stand in a name is the name of its own file.
pub proof fn law_plain_keys_name_their_own_file(key: Seq<char>)
    requires
        forall|i: int| 0 <= i < key.len() ==> stays_in_a_name(#[trigger] key[i]),
    ensures
        encoded_key(key) == key,
{
    lemma_plain_bytes(key);
}

/// The name of a key's file is made of characters that may stand in a name and of
/// percent signs, whatever the key.
pub proof fn law_names_of_keys_are_plain(key: Seq<char>)
    ensures
        forall|i: int|
            0 <= i < encoded_key(key).len() ==> stays_in_a_name(#[trigger] encoded_key(key)[i])
                || encoded_key(key)[i] == '%',
{
    lemma_encoded_bytes_plain(encode_utf8(key));
}

proof fn lemma_encoded_bytes_plain(bytes: Seq<u8>)
    ensures
        forall|i: int|
            0 <= i < encoded_bytes(bytes).len() ==> stays_in_a_name(
                #[trigger] encoded_bytes(bytes)[i],
            ) || encoded_bytes(bytes)[i] == '%',
    decreases bytes.len(),
{
    if bytes.len() > 0 {
        let one = encoded_byte(bytes[0]);
        let rest = encoded_bytes(bytes.skip(1));
        lemma_encoded_bytes_plain(bytes.skip(1));
        assert forall|i: int| 0 <= i < encoded_bytes(bytes).len() implies stays_in_a_name(
            #[trigger] encoded_bytes(bytes)[i],
        ) || encoded_bytes(bytes)[i] == '%' by {
            if i < one.len() {
                assert(encoded_bytes(bytes)[i] == one[i]);
            } else {
                assert(encoded_bytes(bytes)[i] == rest[i - one.len()]);
            }
        }
    }
}

// ---------------------------------------------------------------------------
// Requests
// ---------------------------------------------------------------------------

/// A digest is spelled by two digits in lower case for each of its bytes.
pub proof fn law_digits_of_a_digest(bytes: Seq<u8>, i: int)
    requires
        0 <= i < bytes.len(),
    ensures
        lower_hex(bytes).len() == 2 * bytes.len(),
        lower_hex(bytes)[2 * i] == "0123456789abcdef"@[bytes[i] as int / 16],
        lower_hex(bytes)[2 * i + 1] == "0123456789abcdef"@[bytes[i] as int % 16],
{
    lemma_hex_digits(bytes[i] as int / 16);
    lemma_hex_digits(bytes[i] as int % 16);
    assert((2 * i) / 2 == i && (2 * i) % 2 == 0);
    assert((2 * i + 1) / 2 == i && (2 * i + 1) % 2 == 1);
}

/// The file of a request has the first fifteen digits of the digest of its key for a
/// name, and is recognised as the file of a request.
pub proof fn law_files_of_requests(unique_key: Seq<char>)
    ensures
        sha256(encode_utf8(unique_key)).len() == 32 ==> {
            &&& request_file_of(unique_key) == lower_hex(sha256(encode_utf8(unique_key))).take(15)
                + ".json"@
            &&& request_file_of(unique_key).len() == 20
            &&& is_item_name(request_file_of(unique_key))
        },
{
    if sha256(encode_utf8(unique_key)).len() == 32 {
        reveal_strlit(".json");
        reveal_strlit("__metadata__.json");
        let name = request_file_of(unique_key);
        assert(name.skip(name.len() - 5) == ".json"@);
        assert("__metadata__.json"@.len() == 17);
    }
}

/// A prefix of the digits of a digest is that long, unless the digest is shorter.
pub proof fn law_prefixes_of_digests(input: Seq<char>, len: nat)
    ensures
        sha256(encode_utf8(input)).len() == 32 ==> sha256_prefix_text(input, len).len() == if len
            < 64 {
            len
        } else {
            64
        },
        sha256(encode_utf8(input)).len() == 32 ==> forall|i: int|
            0 <= i < sha256_prefix_text(input, len).len() ==> #[trigger] sha256_prefix_text(
                input,
                len,
            )[i] == lower_hex(sha256(encode_utf8(input)))[i],
{
}

proof fn lemma_filter_starts_with(text: Seq<char>, n: int)
    requires
        0 <= n <= text.len(),
        forall|i: int| 0 <= i < n ==> kept_in_id(#[trigger] text[i]),
    ensures
        ({
            let kept = text.filter(|c: char| kept_in_id(c));
            kept.len() >= n && kept.take(n) == text.take(n)
        }),
{
    let keep = |c: char| kept_in_id(c);
    let head = text.take(n);
    let tail = text.skip(n);
    assert(text == head + tail);
    Seq::filter_distributes_over_add(head, tail, keep);
    lemma_filter_keeps_all(head);
    assert(text.filter(keep).take(n) == head);
}

proof fn lemma_filter_keeps_all(text: Seq<char>)
    requires
        forall|i: int| 0 <= i < text.len() ==> kept_in_id(#[trigger] text[i]),
    ensures
        text.filter(|c: char| kept_in_id(c)) == text,
    decreases text.len(),
{
    reveal(Seq::filter);
    if text.len() > 0 {
        assert(kept_in_id(text[text.len() - 1]));
        lemma_filter_keeps_all(text.drop_last());
        assert(text.drop_last().push(text.last()) == text);
    }
}

/// The identifier of a request follows the base64 text of its digest: as long as that
/// has letters and digits only, the identifier has the same, up to fifteen of them. It
/// is never longer.
pub proof fn law_request_ids_follow_the_digest(digest: Seq<u8>, n: int)
    ensures
        forall|key: Seq<char>|
            sha256(encode_utf8(key)) == digest ==> #[trigger] request_id(key) == digest_request_id(
                digest,
            ),
        digest_request_id(digest).len() <= 15,
        starts_alphanumeric(base64_text(digest), n) && n <= 15 ==> digest_request_id(digest).len()
            >= n && digest_request_id(digest).take(n) == base64_text(digest).take(n),
        starts_alphanumeric(base64_text(digest), n) && n > 15 ==> digest_request_id(digest)
            == base64_text(digest).take(15),
{
    let text = base64_text(digest);
    if starts_alphanumeric(text, n) {
        lemma_request_id_follows(digest, n);
    }
}

/// Whether the first `n` characters of a text are letters and digits of ASCII.
pub open spec fn starts_alphanumeric(text: Seq<char>, n: int) -> bool {
    &&& 0 <= n <= text.len()
    &&& forall|i: int|
        0 <= i < n ==> {
            ||| '0' <= #[trigger] text[i] <= '9'
            ||| 'A' <= text[i] <= 'Z'
            ||| 'a' <= text[i] <= 'z'
        }
}

proof fn lemma_request_id_follows(digest: Seq<u8>, n: int)
    requires
        starts_alphanumeric(base64_text(digest), n),
    ensures
        n <= 15 ==> digest_request_id(digest).len() >= n && digest_request_id(digest).take(n)
            == base64_text(digest).take(n),
        n > 15 ==> digest_request_id(digest) == base64_text(digest).take(15),
{
    let text = base64_text(digest);
    assert forall|i: int| 0 <= i < n implies kept_in_id(#[trigger] text[i]) by {
        assert('0' <= text[i] <= '9' || 'A' <= text[i] <= 'Z' || 'a' <= text[i] <= 'z');
    }
    lemma_filter_starts_with(text, n);
    let kept = text.filter(|c: char| kept_in_id(c));
    if n <= 15 {
        assert(digest_request_id(digest).take(n) == kept.take(n));
    } else {
        assert(kept.take(n).take(15) == text.take(n).take(15));
        assert(kept.take(15) == kept.take(n).take(15));
        assert(text.take(15) == text.take(n).take(15));
        assert(kept.take(kept.len() as int) == kept);
    }
}

// ---------------------------------------------------------------------------
// Storages
// ---------------------------------------------------------------------------

/// A random identifier has a letter or digit for each index, and the same one for the
/// same index. A storage gets seventeen of them.
pub proof fn law_random_ids_are_alphanumeric(indices: Seq<usize>, i: int)
    requires
        0 <= i < indices.len(),
        indices[i] < 62,
    ensures
        object_id_charset().len() == 62,
        object_id_charset().no_duplicates(),
        spelled_id(indices).len() == indices.len(),
        ({
            let c = spelled_id(indices)[i];
            '0' <= c <= '9' || 'A' <= c <= 'Z' || 'a' <= c <= 'z'
        }),
        STORAGE_ID_LENGTH == 17,
{
    reveal_strlit("abcdefghijklmnopqrstuvwxyzABCEDFGHIJKLMNOPQRSTUVWXYZ0123456789");
    let all = object_id_charset();
    assert forall|k: int| 0 <= k < 62 implies is_alphanumeric(#[trigger] all[k]) by {}
}

/// Naming a storage in more than one way is refused, in one way or none it is not.
pub proof fn law_one_way_of_naming_a_storage(
    id: Option<String>,
    name: Option<String>,
    alias: Option<String>,
)
    ensures
        given_count(id, name, alias) > 1 <==> {
            ||| id is Some && name is Some
            ||| id is Some && alias is Some
            ||| name is Some && alias is Some
        },
{
}

/// A storage lies in the directory of its kind, under its name; failing that under its
/// alias, and failing both under a fixed name.
pub proof fn law_storages_lie_in_the_directory_of_their_kind(
    storage_dir: Seq<char>,
    subdir: Seq<char>,
    name: Option<String>,
    alias: Option<String>,
)
    requires
        is_plain_name(subdir),
        name matches Some(n) ==> is_plain_name(n@),
        name is None ==> (alias matches Some(a) ==> is_plain_name(a@)),
    ensures
        path_names(named_location(storage_dir, subdir, asked_name(name, alias))) == path_names(
            storage_dir,
        ).push(subdir).push(
            match name {
                Some(n) => n@,
                None => match alias {
                    Some(a) => a@,
                    None => "default"@,
                },
            },
        ),
{
    reveal_strlit("default");
    reveal_strlit(".");
    reveal_strlit("..");
    let base = path_join(storage_dir, subdir);
    law_plain_names_are_accepted(storage_dir, subdir);
    let dir_name = match asked_name(name, alias) {
        Some(n) => n,
        None => "default"@,
    };
    if name is None && alias is None {
        assert("default"@.len() == 7 && "."@.len() == 1 && ".."@.len() == 2);
        assert(no_slash("default"@));
    }
    assert(is_plain_name(dir_name));
    law_plain_names_are_accepted(base, dir_name);
}

/// The name of an unfinished file is that of no item, no request and no description,
/// whatever random letters and digits it ends with.
pub proof fn law_unfinished_files_are_told_apart(random: Seq<char>)
    requires
        random.len() == 12,
        forall|i: int|
            0 <= i < random.len() ==> {
                ||| '0' <= #[trigger] random[i] <= '9'
                ||| 'A' <= random[i] <= 'Z'
                ||| 'a' <= random[i] <= 'z'
            },
    ensures
        TEMP_PREFIX@ == ".tmp."@,
        !is_item_name(TEMP_PREFIX@ + random),
        !metadata_name(TEMP_PREFIX@ + random),
        (TEMP_PREFIX@ + random)[0] == '.',
{
    reveal_strlit(".tmp.");
    reveal_strlit(".json");
    reveal_strlit(".");
    reveal_strlit("__metadata__.json");
    let name = TEMP_PREFIX@ + random;
    assert(name.len() == 17);
    assert(name[0] == '.' && "__metadata__.json"@[0] == '_');
    if has_suffix(name, ".json"@) {
        assert(name.skip(12)[0] == name[12]);
        assert(name[12] == random[7]);
    }
    assert(("."@ + "__metadata__.json"@).len() == 18);
}

/// A description of a storage carries an identifier exactly where its first field `id`
/// is that text.
pub proof fn law_identifiers_of_storages(fields: Vec<(String, JsonValue)>, i: int, id: Seq<char>)
    ensures
        first_field(fields@, i, "id"@) ==> (has_id(JsonValue::Object(fields), id) <==> (
        fields@[i].1 matches JsonValue::Str(s) && s@ == id)),
        no_field(fields@, "id"@) ==> !has_id(JsonValue::Object(fields), id),
        forall|v: JsonValue| !(v is Object) ==> !#[trigger] has_id(v, id),
{
    law_first_field_counts(JsonValue::Object(fields), "id"@, i);
    assert forall|v: JsonValue| !(v is Object) implies !#[trigger] has_id(v, id) by {
        law_first_field_counts(v, "id"@, 0);
        assert(field_of(v, "id"@) is None);
    }
}

} // verus!
