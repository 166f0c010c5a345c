//! Names on disk: how keys, requests and storages are turned into identifiers
//! and file names.

use base64::Engine;
use rand::Rng;
use sha2::Digest;
use vstd::prelude::*;
use vstd::utf8::{decode_utf8, encode_utf8, is_ascii_chars, valid_utf8};

use crate::error::StorageError;
use crate::path::{is_plain_name, no_slash};
use crate::text::{chars_of, concat2, ends_with, has_suffix, str_eq, string_of};

verus! {

/// The file that describes a storage as a whole.
pub const METADATA_FILENAME: &'static str = "__metadata__.json";

/// The content type of a value that is none at all; such a value is stored as an
/// empty file.
pub const NONE_CONTENT_TYPE: &'static str = "application/x-none";

/// How many characters a request identifier has at most.
pub const REQUEST_ID_LENGTH: usize = 15;

// ---------------------------------------------------------------------------
// Random identifiers
// ---------------------------------------------------------------------------

/// The characters of a random identifier.
pub open spec fn object_id_charset() -> Seq<char> {
    "abcdefghijklmnopqrstuvwxyzABCEDFGHIJKLMNOPQRSTUVWXYZ0123456789"@
}

/// `rand::Rng::random_range` on the thread's generator: some index below
/// `bound`, which must not be zero. Which one is left to chance.
#[verifier::external_body]
fn random_index(bound: usize) -> (r: usize)
    requires
        bound > 0,
    ensures
        r < bound,
{
    rand::rng().random_range(0..bound)
}

/// Whether `k` is an index below `bound` that was drawn at random.
pub closed spec fn is_draw(bound: usize, k: usize) -> bool {
    call_ensures(random_index, (bound,), k)
}

/// How many characters there are to draw from.
pub const OBJECT_ID_CHARSET_LENGTH: usize = 62;

/// Whether every index was drawn at random from the characters of an identifier.
pub open spec fn all_drawn(indices: Seq<usize>) -> bool {
    forall|i: int|
        0 <= i < indices.len() ==> is_draw(OBJECT_ID_CHARSET_LENGTH, #[trigger] indices[i])
}

/// The identifier that a run of indices spells.
pub open spec fn spelled_id(indices: Seq<usize>) -> Seq<char> {
    indices.map_values(|k: usize| object_id_charset()[k as int])
}

/// Whether `id` is an identifier of `length` characters, each drawn at random.
pub open spec fn is_drawn_id(id: Seq<char>, length: usize) -> bool {
    exists|indices: Seq<usize>|
        all_drawn(indices) && indices.len() == length && id == #[trigger] spelled_id(indices)
}

/// The identifier that a run of random indices spells.
pub fn object_id_from_indices(indices: &[usize]) -> (r: String)
    requires
        forall|i: int| 0 <= i < indices@.len() ==> indices@[i] < object_id_charset().len(),
    ensures
        r@ == spelled_id(indices@),
{
    let charset = chars_of("abcdefghijklmnopqrstuvwxyzABCEDFGHIJKLMNOPQRSTUVWXYZ0123456789");
    let ghost picked = spelled_id(indices@);
    let mut out = String::new();
    for i in 0..indices.len()
        invariant
            charset@ == object_id_charset(),
            forall|i: int| 0 <= i < indices@.len() ==> indices@[i] < object_id_charset().len(),
            picked == spelled_id(indices@),
            out@ == picked.take(i as int),
    {
        out.push(charset[indices[i]]);
        assert(picked.take(i + 1) == picked.take(i as int).push(picked[i as int]));
    }
    assert(picked.take(indices@.len() as int) == picked);
    out
}

/// A random identifier of `length` letters and digits, each drawn for itself.
pub fn crypto_random_object_id(length: usize) -> (r: String)
    ensures
        is_drawn_id(r@, length),
        r@.len() == length,
        forall|i: int| 0 <= i < length ==> object_id_charset().contains(#[trigger] r@[i]),
{
    let mut indices: Vec<usize> = Vec::new();
    proof {
        reveal_strlit("abcdefghijklmnopqrstuvwxyzABCEDFGHIJKLMNOPQRSTUVWXYZ0123456789");
    }
    for n in 0..length
        invariant
            indices@.len() == n,
            object_id_charset().len() == OBJECT_ID_CHARSET_LENGTH,
            forall|i: int| 0 <= i < indices@.len() ==> indices@[i] < object_id_charset().len(),
            all_drawn(indices@),
    {
        let k = random_index(OBJECT_ID_CHARSET_LENGTH);
        assert(is_draw(OBJECT_ID_CHARSET_LENGTH, k));
        indices.push(k);
    }
    object_id_from_indices(indices.as_slice())
}

// ---------------------------------------------------------------------------
// Keys as file names
// ---------------------------------------------------------------------------

/// Whether a byte stands for itself in an encoded key: the ASCII letters and
/// digits, and `_`, `.`, `-` and `~`.
pub open spec fn is_unreserved(b: u8) -> bool {
    ||| 0x30 <= b <= 0x39
    ||| 0x41 <= b <= 0x5a
    ||| 0x61 <= b <= 0x7a
    ||| b == 0x5f || b == 0x2e || b == 0x2d || b == 0x7e
}

/// The upper-case hexadecimal digit of `d`.
pub open spec fn upper_hex_digit(d: int) -> char {
    if d < 10 {
        (0x30 + d) as char
    } else {
        (0x37 + d) as char
    }
}

/// `%` and the two hexadecimal digits of `b`.
pub open spec fn percent_escape(b: u8) -> Seq<char> {
    seq!['%', upper_hex_digit(b as int / 16), upper_hex_digit(b as int % 16)]
}

/// One byte of an encoded key.
pub open spec fn encoded_byte(b: u8) -> Seq<char> {
    if is_unreserved(b) {
        seq![b as char]
    } else {
        percent_escape(b)
    }
}

/// A run of bytes, each encoded.
pub open spec fn encoded_bytes(bytes: Seq<u8>) -> Seq<char>
    decreases bytes.len(),
{
    if bytes.len() == 0 {
        Seq::empty()
    } else {
        encoded_byte(bytes[0]) + encoded_bytes(bytes.skip(1))
    }
}

/// The file name that stands for `key`.
pub open spec fn encoded_key(key: Seq<char>) -> Seq<char> {
    encoded_bytes(encode_utf8(key))
}

/// The value of a hexadecimal digit in either case, if `b` is one.
pub open spec fn hex_value(b: u8) -> Option<int> {
    if 0x30 <= b <= 0x39 {
        Some(b - 0x30)
    } else if 0x41 <= b <= 0x46 {
        Some(b - 0x37)
    } else if 0x61 <= b <= 0x66 {
        Some(b - 0x57)
    } else {
        None
    }
}

/// The bytes that are left when each `%` that is followed by two hexadecimal
/// digits is replaced, with them, by the byte that they name.
pub open spec fn percent_decoded(bytes: Seq<u8>) -> Seq<u8>
    decreases bytes.len(),
{
    if bytes.len() == 0 {
        Seq::empty()
    } else if bytes[0] == 0x25 && bytes.len() >= 3 && hex_value(bytes[1]) is Some && hex_value(
        bytes[2],
    ) is Some {
        seq![(hex_value(bytes[1])->0 * 16 + hex_value(bytes[2])->0) as u8] + percent_decoded(
            bytes.skip(3),
        )
    } else {
        seq![bytes[0]] + percent_decoded(bytes.skip(1))
    }
}

/// What `String::from_utf8_lossy` makes of bytes that are not UTF-8.
pub uninterp spec fn utf8_lossy(bytes: Seq<u8>) -> Seq<char>;

/// The key that a file name stands for.
pub open spec fn decoded_key(name: Seq<char>) -> Seq<char> {
    let bytes = percent_decoded(encode_utf8(name));
    if valid_utf8(bytes) {
        decode_utf8(bytes)
    } else {
        utf8_lossy(bytes)
    }
}

/// `percent_encoding::percent_encode_byte`: the escape of any byte, with
/// upper-case digits.
#[verifier::external_body]
fn percent_encode_byte(b: u8) -> (r: &'static str)
    ensures
        r@ == percent_escape(b),
{
    percent_encoding::percent_encode_byte(b)
}

/// `percent_encoding::percent_decode_str` and `decode_utf8_lossy`: undoes the
/// escapes in the bytes of `name` and reads the outcome as UTF-8. Bytes that are
/// not UTF-8 are replaced in a way that is named, not spelled out.
#[verifier::external_body]
fn percent_decode_lossy(name: &str) -> (r: String)
    ensures
        valid_utf8(percent_decoded(encode_utf8(name@))) ==> r@ == decode_utf8(
            percent_decoded(encode_utf8(name@)),
        ),
        !valid_utf8(percent_decoded(encode_utf8(name@))) ==> r@ == utf8_lossy(
            percent_decoded(encode_utf8(name@)),
        ),
{
    percent_encoding::percent_decode_str(name).decode_utf8_lossy().to_string()
}

/// Whether a byte stands for itself in an encoded key.
fn unreserved(b: u8) -> (r: bool)
    ensures
        r == is_unreserved(b),
{
    (0x30 <= b && b <= 0x39) || (0x41 <= b && b <= 0x5a) || (0x61 <= b && b <= 0x7a) || b == 0x5f
        || b == 0x2e || b == 0x2d || b == 0x7e
}

/// The file name that stands for `key`: unreserved characters stay, every other
/// byte is escaped.
pub fn encode_key(key: &str) -> (r: String)
    ensures
        r@ == encoded_key(key@),
{
    let bytes = key.as_bytes();
    let mut out = String::new();
    assert(bytes@.skip(0) == bytes@);
    for i in 0..bytes.len()
        invariant
            bytes@ == encode_utf8(key@),
            out@ + encoded_bytes(bytes@.skip(i as int)) == encoded_key(key@),
    {
        let b = bytes[i];
        let ghost rest = bytes@.skip(i as int);
        assert(rest.skip(1) == bytes@.skip(i + 1));
        let ghost before = out@;
        if unreserved(b) {
            out.push(b as char);
            assert(out@ == before + encoded_byte(b));
        } else {
            out.append(percent_encode_byte(b));
        }
        assert(before + (encoded_byte(b) + encoded_bytes(bytes@.skip(i + 1))) == (before
            + encoded_byte(b)) + encoded_bytes(bytes@.skip(i + 1)));
    }
    assert(encoded_bytes(bytes@.skip(bytes@.len() as int)) == Seq::<char>::empty());
    assert(out@ + Seq::<char>::empty() == out@);
    out
}

/// The key that a file name stands for.
pub fn decode_key(encoded_key: &str) -> (r: String)
    ensures
        r@ == decoded_key(encoded_key@),
{
    percent_decode_lossy(encoded_key)
}

proof fn lemma_encoded_byte_ascii(b: u8)
    ensures
        is_ascii_chars(encoded_byte(b)),
        no_slash(encoded_byte(b)),
        encoded_byte(b).len() > 0,
{
}

proof fn lemma_encoded_bytes_ascii(bytes: Seq<u8>)
    ensures
        is_ascii_chars(encoded_bytes(bytes)),
        no_slash(encoded_bytes(bytes)),
        bytes.len() > 0 ==> encoded_bytes(bytes).len() > 0,
    decreases bytes.len(),
{
    if bytes.len() > 0 {
        lemma_encoded_byte_ascii(bytes[0]);
        lemma_encoded_bytes_ascii(bytes.skip(1));
    }
}

/// The bytes of ASCII text.
spec fn ascii_bytes(s: Seq<char>) -> Seq<u8> {
    s.map_values(|c: char| c as u8)
}

proof fn lemma_percent_round_trip(bytes: Seq<u8>)
    ensures
        percent_decoded(ascii_bytes(encoded_bytes(bytes))) == bytes,
    decreases bytes.len(),
{
    if bytes.len() > 0 {
        let b = bytes[0];
        let rest = bytes.skip(1);
        lemma_percent_round_trip(rest);
        let text = ascii_bytes(encoded_bytes(bytes));
        let tail = ascii_bytes(encoded_bytes(rest));
        assert(text == ascii_bytes(encoded_byte(b)) + tail);
        if is_unreserved(b) {
            assert(text[0] == b);
            assert(text.skip(1) == tail);
        } else {
            assert(text.skip(3) == tail);
            assert(text[0] == 0x25);
            assert(hex_value(text[1]) == Some(b as int / 16));
            assert(hex_value(text[2]) == Some(b as int % 16));
        }
        assert(seq![b] + rest == bytes);
    }
}

/// Decoding the file name of a key gives the key back.
pub proof fn law_decode_undoes_encode(key: Seq<char>)
    ensures
        decoded_key(encoded_key(key)) == key,
{
    let bytes = encode_utf8(key);
    let name = encoded_key(key);
    lemma_encoded_bytes_ascii(bytes);
    vstd::utf8::is_ascii_chars_encode_utf8(name);
    assert(encode_utf8(name) == ascii_bytes(name));
    lemma_percent_round_trip(bytes);
    vstd::utf8::encode_utf8_valid_utf8(key);
    vstd::utf8::encode_utf8_decode_utf8(key);
}

/// Different keys have different file names, and the name of a key that is not
/// empty is not empty and holds no slash.
pub proof fn law_encoded_keys_are_distinct_names(a: Seq<char>, b: Seq<char>)
    ensures
        encoded_key(a) == encoded_key(b) ==> a == b,
        no_slash(encoded_key(a)),
        a.len() > 0 ==> encoded_key(a).len() > 0,
{
    law_decode_undoes_encode(a);
    law_decode_undoes_encode(b);
    lemma_encoded_bytes_ascii(encode_utf8(a));
    if a.len() > 0 && encode_utf8(a).len() == 0 {
        vstd::utf8::encode_utf8_decode_utf8(a);
    }
}

// ---------------------------------------------------------------------------
// Digests as file names and request identifiers
// ---------------------------------------------------------------------------

/// The SHA-256 digest of some bytes.
pub uninterp spec fn sha256(bytes: Seq<u8>) -> Seq<u8>;

/// `sha2::Sha256`: the digest of the bytes of `input`, which has 32 bytes.
#[verifier::external_body]
fn sha256_digest(input: &str) -> (r: Vec<u8>)
    ensures
        r@ == sha256(encode_utf8(input@)),
        r@.len() == 32,
{
    let mut hasher = sha2::Sha256::new();
    hasher.update(input.as_bytes());
    hasher.finalize().to_vec()
}

/// The character that base64 writes for the six bits `d`.
pub open spec fn base64_char(d: int) -> char {
    if d < 26 {
        (0x41 + d) as char
    } else if d < 52 {
        (0x47 + d) as char
    } else if d < 62 {
        (d - 4) as char
    } else if d == 62 {
        '+'
    } else {
        '/'
    }
}

/// Standard base64 with padding: each three bytes give four characters.
pub open spec fn base64_text(b: Seq<u8>) -> Seq<char>
    decreases b.len(),
{
    if b.len() == 0 {
        Seq::empty()
    } else if b.len() == 1 {
        seq![base64_char(b[0] as int / 4), base64_char(b[0] as int % 4 * 16), '=', '=']
    } else if b.len() == 2 {
        seq![
            base64_char(b[0] as int / 4),
            base64_char(b[0] as int % 4 * 16 + b[1] as int / 16),
            base64_char(b[1] as int % 16 * 4),
            '=',
        ]
    } else {
        seq![
            base64_char(b[0] as int / 4),
            base64_char(b[0] as int % 4 * 16 + b[1] as int / 16),
            base64_char(b[1] as int % 16 * 4 + b[2] as int / 64),
            base64_char(b[2] as int % 64),
        ] + base64_text(b.skip(3))
    }
}

/// `base64::engine::general_purpose::STANDARD.encode`: the padded base64 text of
/// some bytes. Its length must fit in `usize`.
#[verifier::external_body]
fn base64_encode(bytes: &[u8]) -> (r: String)
    requires
        bytes@.len() / 3 * 4 + 4 <= usize::MAX,
    ensures
        r@ == base64_text(bytes@),
{
    base64::engine::general_purpose::STANDARD.encode(bytes)
}

/// The lower-case hexadecimal digit of `d`.
pub open spec fn lower_hex_digit(d: int) -> char {
    if d < 10 {
        (0x30 + d) as char
    } else {
        (0x57 + d) as char
    }
}

/// Two lower-case hexadecimal digits for each byte.
pub open spec fn lower_hex(bytes: Seq<u8>) -> Seq<char> {
    Seq::new(
        2 * bytes.len(),
        |i: int|
            lower_hex_digit(
                if i % 2 == 0 {
                    bytes[i / 2] as int / 16
                } else {
                    bytes[i / 2] as int % 16
                },
            ),
    )
}

/// The first `len` hexadecimal digits of the SHA-256 digest of `input`, or all
/// 64 where `len` is larger.
pub open spec fn sha256_prefix_text(input: Seq<char>, len: nat) -> Seq<char> {
    lower_hex(sha256(encode_utf8(input))).take(
        if len < 64 {
            len as int
        } else {
            64
        },
    )
}

/// The lower-case hexadecimal digit of `d`.
fn hex_digit(d: u8) -> (r: char)
    requires
        d < 16,
    ensures
        r == lower_hex_digit(d as int),
{
    if d < 10 {
        (0x30 + d) as char
    } else {
        (0x57 + d) as char
    }
}

/// The first `len` hexadecimal digits that spell `digest`.
pub fn hex_prefix(digest: &[u8], len: usize) -> (r: String)
    ensures
        r@ == lower_hex(digest@).take(
            if len < 2 * digest@.len() {
                len as int
            } else {
                2 * digest@.len() as int
            },
        ),
{
    let ghost text = lower_hex(digest@);
    let mut out = String::new();
    let mut i: usize = 0;
    while i < len && i / 2 < digest.len()
        invariant
            text == lower_hex(digest@),
            i <= len,
            i <= 2 * digest@.len(),
            out@ == text.take(i as int),
        decreases len - i,
    {
        let byte = digest[i / 2];
        if i % 2 == 0 {
            out.push(hex_digit(byte / 16));
        } else {
            out.push(hex_digit(byte % 16));
        }
        assert(text.take(i + 1) == text.take(i as int).push(text[i as int]));
        i = i + 1;
    }
    out
}

/// The first `len` hexadecimal digits of the SHA-256 digest of `input`.
pub fn sha256_prefix(input: &str, len: usize) -> (r: String)
    ensures
        r@ == sha256_prefix_text(input@, len as nat),
{
    let digest = sha256_digest(input);
    hex_prefix(digest.as_slice(), len)
}

/// Whether a character is kept in a request identifier.
pub open spec fn kept_in_id(c: char) -> bool {
    c != '+' && c != '/' && c != '='
}

/// The first letters and digits of the base64 text of `digest`.
pub open spec fn digest_request_id(digest: Seq<u8>) -> Seq<char> {
    let cleaned = base64_text(digest).filter(|c: char| kept_in_id(c));
    if cleaned.len() > REQUEST_ID_LENGTH {
        cleaned.take(REQUEST_ID_LENGTH as int)
    } else {
        cleaned
    }
}

/// The identifier of the request with the given unique key.
pub open spec fn request_id(unique_key: Seq<char>) -> Seq<char> {
    digest_request_id(sha256(encode_utf8(unique_key)))
}

/// The request identifier that a digest of the unique key gives: its base64
/// text without `+`, `/` and `=`, cut after fifteen characters.
pub fn request_id_from_digest(digest: &[u8]) -> (r: String)
    requires
        digest@.len() / 3 * 4 + 4 <= usize::MAX,
    ensures
        r@ == digest_request_id(digest@),
{
    let encoded = base64_encode(digest);
    let chars = chars_of(encoded.as_str());
    let ghost keep = |c: char| kept_in_id(c);
    let mut cleaned: Vec<char> = Vec::new();
    for i in 0..chars.len()
        invariant
            keep == (|c: char| kept_in_id(c)),
            cleaned@ == chars@.take(i as int).filter(keep),
    {
        let c = chars[i];
        proof {
            assert(chars@.take(i + 1) == chars@.take(i as int).push(c));
            chars@.take(i as int).lemma_filter_push(c, keep);
        }
        if c != '+' && c != '/' && c != '=' {
            cleaned.push(c);
        }
    }
    assert(chars@.take(chars@.len() as int) == chars@);
    if cleaned.len() > REQUEST_ID_LENGTH {
        cleaned.truncate(REQUEST_ID_LENGTH);
    }
    string_of(cleaned.as_slice())
}

/// The identifier of the request with the given unique key.
pub fn unique_key_to_request_id(unique_key: &str) -> (r: String)
    ensures
        r@ == request_id(unique_key@),
{
    let digest = sha256_digest(unique_key);
    request_id_from_digest(digest.as_slice())
}

/// Whether a character is an ASCII letter or digit.
pub open spec fn is_alphanumeric(c: char) -> bool {
    ||| '0' <= c <= '9'
    ||| 'A' <= c <= 'Z'
    ||| 'a' <= c <= 'z'
}

proof fn lemma_base64_chars(b: Seq<u8>)
    ensures
        forall|i: int|
            0 <= i < base64_text(b).len() ==> is_alphanumeric(#[trigger] base64_text(b)[i])
                || !kept_in_id(base64_text(b)[i]),
    decreases b.len(),
{
    assert forall|d: int| 0 <= d < 64 implies is_alphanumeric(#[trigger] base64_char(d))
        || !kept_in_id(base64_char(d)) by {}
    if b.len() >= 3 {
        let tail = base64_text(b.skip(3));
        lemma_base64_chars(b.skip(3));
        assert forall|i: int| 0 <= i < base64_text(b).len() implies is_alphanumeric(
            #[trigger] base64_text(b)[i],
        ) || !kept_in_id(base64_text(b)[i]) by {
            if i >= 4 {
                assert(base64_text(b)[i] == tail[i - 4]);
            }
        }
    }
}

/// A request identifier is made of letters and digits, at most fifteen of them.
pub proof fn law_request_ids_are_short_and_alphanumeric(unique_key: Seq<char>)
    ensures
        request_id(unique_key).len() <= REQUEST_ID_LENGTH,
        forall|i: int|
            0 <= i < request_id(unique_key).len() ==> is_alphanumeric(
                #[trigger] request_id(unique_key)[i],
            ),
{
    let text = base64_text(sha256(encode_utf8(unique_key)));
    let keep = |c: char| kept_in_id(c);
    let cleaned = text.filter(keep);
    lemma_base64_chars(sha256(encode_utf8(unique_key)));
    assert forall|i: int| 0 <= i < cleaned.len() implies is_alphanumeric(#[trigger] cleaned[i]) by {
        text.lemma_filter_contains_rev(keep, cleaned[i]);
        text.lemma_filter_pred(keep, i);
    }
}

// ---------------------------------------------------------------------------
// Argument checks
// ---------------------------------------------------------------------------

/// How many of the three options are given.
pub open spec fn given_count(
    id: Option<String>,
    name: Option<String>,
    alias: Option<String>,
) -> int {
    (if id is Some { 1int } else { 0 }) + (if name is Some { 1int } else { 0 })
        + (if alias is Some { 1int } else { 0 })
}

/// Fails where more than one way of naming a storage is given.
pub fn validate_exclusive_args(
    id: &Option<String>,
    name: &Option<String>,
    alias: &Option<String>,
) -> (r: Result<(), StorageError>)
    ensures
        match r {
            Ok(()) => given_count(*id, *name, *alias) <= 1,
            Err(e) => {
                &&& given_count(*id, *name, *alias) > 1
                &&& e matches StorageError::InvalidArgs(text)
                &&& text@ == "At most one of 'id', 'name', or 'alias' may be specified"@
            },
        },
{
    let mut count: u8 = 0;
    if id.is_some() {
        count = count + 1;
    }
    if name.is_some() {
        count = count + 1;
    }
    if alias.is_some() {
        count = count + 1;
    }
    if count > 1 {
        return Err(
            StorageError::InvalidArgs(
                "At most one of 'id', 'name', or 'alias' may be specified".to_string(),
            ),
        );
    }
    Ok(())
}

/// Whether a file describes a storage or one of its records, rather than
/// holding a value.
pub open spec fn metadata_name(name: Seq<char>) -> bool {
    name == METADATA_FILENAME@ || has_suffix(name, "."@ + METADATA_FILENAME@)
}

/// Whether a file describes a storage or one of its records.
pub fn is_metadata_filename(name: &str) -> (r: bool)
    ensures
        r == metadata_name(name@),
{
    let suffix = concat2(".", METADATA_FILENAME);
    str_eq(name, METADATA_FILENAME) || ends_with(name, suffix.as_str())
}

/// Whether a name can be the file of a record's value: one entry of the store's
/// directory that is not taken by metadata.
pub open spec fn valid_value_name(name: Seq<char>) -> bool {
    is_plain_name(name) && !metadata_name(name)
}

/// What a caller is told about a file name that cannot hold a value.
pub open spec fn bad_filename_text(name: Seq<char>) -> Seq<char> {
    "Invalid file name \""@ + name
        + "\". It must be a plain name inside the store directory and must not be a metadata file."@
}

/// Checks that `filename` can be the file of a record's value, and hands it
/// back. As in [`crate::path`], the slash is the only separator.
pub fn validate_filename(filename: &str) -> (r: Result<&str, StorageError>)
    ensures
        match r {
            Ok(name) => valid_value_name(filename@) && name@ == filename@,
            Err(e) => {
                &&& !valid_value_name(filename@)
                &&& e matches StorageError::InvalidArgs(text)
                &&& text@ == bad_filename_text(filename@)
            },
        },
{
    let chars = chars_of(filename);
    let mut slash = false;
    for i in 0..chars.len()
        invariant
            chars@ == filename@,
            slash == !no_slash(filename@.take(i as int)),
    {
        assert(filename@.take(i + 1) == filename@.take(i as int).push(chars@[i as int]));
        if chars[i] == '/' {
            slash = true;
            assert(filename@.take(i + 1)[i as int] == '/');
        } else {
            assert(no_slash(filename@.take(i + 1)) == no_slash(filename@.take(i as int))) by {
                assert forall|j: int| 0 <= j < i implies filename@.take(i + 1)[j]
                    == filename@.take(i as int)[j] by {}
            }
        }
    }
    assert(filename@.take(filename@.len() as int) == filename@);
    if chars.len() == 0 || slash || str_eq(filename, ".") || str_eq(filename, "..")
        || is_metadata_filename(filename) {
        let mut text = concat2("Invalid file name \"", filename);
        text.append("\". It must be a plain name inside the store directory and must not be a metadata file.");
        Err(StorageError::InvalidArgs(text))
    } else {
        Ok(filename)
    }
}

} // verus!
