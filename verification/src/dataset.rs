//! The rules of a dataset: how items become numbered files, and how pages are
//! cut out of them.

use vstd::prelude::*;

use crate::clock::Timestamp;
use crate::json::JsonValue;
use crate::key_listing::{page_fetch_limit, page_length};
use crate::models::{DatasetItemsListPage, DatasetItemsPage, DatasetMetadata, StorageMetadata};
use crate::order::{arrange, arranged, sorts, stable_order};
use crate::text::{chars_of, concat2, ends_with, has_suffix, str_eq, string_of, texts};
use crate::utils::METADATA_FILENAME;

verus! {

/// The directory of all datasets.
pub const STORAGE_SUBDIR: &'static str = "datasets";

/// The kind of storage, as it is called in messages.
pub const STORAGE_KIND: &'static str = "Dataset";

/// How many digits the name of an item has at least.
pub const ITEM_FILENAME_DIGITS: usize = 9;

// ---------------------------------------------------------------------------
// File names
// ---------------------------------------------------------------------------

/// The decimal digit of `d`.
pub open spec fn decimal_digit(d: nat) -> char {
    (0x30 + d) as char
}

/// The decimal digits of `n`, without leading zeros.
pub open spec fn decimal(n: nat) -> Seq<char>
    decreases n,
{
    if n < 10 {
        seq![decimal_digit(n)]
    } else {
        decimal(n / 10).push(decimal_digit(n % 10))
    }
}

/// The decimal digits of `n`, filled up with zeros to the given width.
pub open spec fn padded(n: nat, width: nat) -> Seq<char> {
    let digits = decimal(n);
    if digits.len() < width {
        Seq::new((width - digits.len()) as nat, |i: int| '0') + digits
    } else {
        digits
    }
}

/// The name of the file of the item number `id`.
pub open spec fn item_name(id: nat) -> Seq<char> {
    padded(id, ITEM_FILENAME_DIGITS as nat) + ".json"@
}

/// Whether a file holds an item.
pub open spec fn is_item_name(name: Seq<char>) -> bool {
    has_suffix(name, ".json"@) && name != METADATA_FILENAME@
}

/// Whether a character is a decimal digit.
pub open spec fn is_digit(c: char) -> bool {
    '0' <= c <= '9'
}

/// The number that a run of digits stands for.
pub open spec fn digits_value(s: Seq<char>) -> nat
    decreases s.len(),
{
    if s.len() == 0 {
        0
    } else {
        (digits_value(s.drop_last()) * 10 + (s.last() as nat - 0x30)) as nat
    }
}

/// Whether a text is made of digits.
pub open spec fn all_digits(s: Seq<char>) -> bool {
    forall|i: int| 0 <= i < s.len() ==> is_digit(#[trigger] s[i])
}

/// What is left of a number without its plus sign.
pub open spec fn without_plus(s: Seq<char>) -> Seq<char> {
    if s.len() > 0 && s[0] == '+' {
        s.skip(1)
    } else {
        s
    }
}

/// The number that a text stands for: digits, perhaps behind a plus sign, and no
/// more than 64 bits hold.
pub open spec fn parsed_number(s: Seq<char>) -> Option<u64> {
    let digits = without_plus(s);
    if digits.len() > 0 && all_digits(digits) && digits_value(digits) <= u64::MAX {
        Some(digits_value(digits) as u64)
    } else {
        None
    }
}

/// The name of an item's file without its extension. A name that is nothing but
/// an extension has none to take away.
pub open spec fn item_stem(name: Seq<char>) -> Seq<char> {
    if name.len() <= 5 {
        name
    } else {
        name.take(name.len() - 5)
    }
}

/// The number by which the file of an item is sorted: its stem, or zero where
/// that is not a number.
pub open spec fn item_number(name: Seq<char>) -> u64 {
    match parsed_number(item_stem(name)) {
        Some(n) => n,
        None => 0,
    }
}

/// The decimal digits of `n`, filled up with zeros to the given width.
fn format_padded(n: usize, width: usize) -> (r: Vec<char>)
    ensures
        r@ == padded(n as nat, width as nat),
{
    let digits = format_decimal(n);
    let mut out: Vec<char> = Vec::new();
    let ghost total = padded(n as nat, width as nat);
    let mut missing: usize = if digits.len() < width {
        width - digits.len()
    } else {
        0
    };
    let ghost zeros = missing as nat;
    while missing > 0
        invariant
            out@ == Seq::new((zeros - missing) as nat, |i: int| '0'),
            missing <= zeros,
        decreases missing,
    {
        out.push('0');
        missing = missing - 1;
        assert(out@ == Seq::new((zeros - missing) as nat, |i: int| '0'));
    }
    let mut tail = digits;
    out.append(&mut tail);
    assert(out@ == total);
    out
}

/// The decimal digits of `n`.
fn format_decimal(n: usize) -> (r: Vec<char>)
    ensures
        r@ == decimal(n as nat),
    decreases n,
{
    let digit: u8 = (n % 10) as u8;
    let c: char = (48 + digit) as char;
    if n < 10 {
        let mut out: Vec<char> = Vec::new();
        out.push(c);
        assert(out@ == decimal(n as nat));
        out
    } else {
        let mut out = format_decimal(n / 10);
        out.push(c);
        out
    }
}

/// The name of the file of the item number `id`.
pub fn item_filename(id: usize) -> (r: String)
    ensures
        r@ == item_name(id as nat),
{
    let digits = format_padded(id, ITEM_FILENAME_DIGITS);
    let stem = string_of(digits.as_slice());
    concat2(stem.as_str(), ".json")
}

/// Whether a file holds an item.
pub fn is_item_file(name: &str) -> (r: bool)
    ensures
        r == is_item_name(name@),
{
    ends_with(name, ".json") && !str_eq(name, METADATA_FILENAME)
}

/// The number that a text stands for, where it is one.
fn parse_number(s: &[char]) -> (r: Option<u64>)
    ensures
        r == parsed_number(s@),
{
    let begin: usize = if s.len() > 0 && s[0] == '+' {
        1
    } else {
        0
    };
    let ghost digits = without_plus(s@);
    assert(s@.skip(0) == s@);
    assert(digits == s@.skip(begin as int));
    let n: usize = s.len();
    if n == begin {
        return None;
    }
    let mut value: u64 = 0;
    let mut overflow = false;
    let mut i: usize = begin;
    while i < n
        invariant
            begin <= i <= n == s@.len(),
            digits == s@.skip(begin as int),
            digits == without_plus(s@),
            forall|j: int| 0 <= j < i - begin ==> is_digit(#[trigger] digits[j]),
            !overflow ==> value == digits_value(digits.take(i - begin)),
            overflow ==> digits_value(digits.take(i - begin)) > u64::MAX,
        decreases n - i,
    {
        let c = s[i];
        let ghost k = i - begin;
        assert(digits[k] == c);
        assert(digits.take(k + 1).drop_last() == digits.take(k));
        if c < '0' || c > '9' {
            assert(!is_digit(digits[k]));
            return None;
        }
        let d: u64 = (c as u32 - '0' as u32) as u64;
        if !overflow {
            match value.checked_mul(10) {
                None => {
                    overflow = true;
                },
                Some(m) => match m.checked_add(d) {
                    None => {
                        overflow = true;
                    },
                    Some(v) => {
                        value = v;
                    },
                },
            }
        }
        i = i + 1;
    }
    assert(digits.take(digits.len() as int) == digits);
    if overflow {
        None
    } else {
        Some(value)
    }
}

/// The number by which the file of an item is sorted.
fn number_of(name: &str) -> (r: u64)
    ensures
        r == item_number(name@),
{
    let mut chars = chars_of(name);
    if chars.len() > 5 {
        let keep: usize = chars.len() - 5;
        chars.truncate(keep);
    }
    match parse_number(chars.as_slice()) {
        Some(n) => n,
        None => 0,
    }
}

/// The files of items in a directory.
pub open spec fn item_files(entries: Seq<Seq<char>>) -> Seq<Seq<char>> {
    entries.filter(|name: Seq<char>| is_item_name(name))
}

/// The numbers by which files are sorted.
pub open spec fn item_numbers(names: Seq<Seq<char>>) -> Seq<u64> {
    names.map_values(|name: Seq<char>| item_number(name))
}

/// Whether `sorted` holds the files in the order of their numbers, equal ones in
/// the order they had.
pub open spec fn in_item_order(names: Seq<Seq<char>>, sorted: Seq<Seq<char>>) -> bool {
    exists|order: Seq<usize>|
        sorts(item_numbers(names), order) && sorted == #[trigger] arranged(names, order)
}

/// The files of items in a directory, in the order of their numbers.
pub fn sorted_data_files(entries: Vec<String>) -> (r: Vec<String>)
    ensures
        in_item_order(item_files(texts(entries@)), texts(r@)),
{
    let ghost all = texts(entries@);
    let ghost keep = |name: Seq<char>| is_item_name(name);
    let mut files: Vec<String> = Vec::new();
    let mut numbers: Vec<u64> = Vec::new();
    proof {
        reveal(Seq::filter);
        assert(texts(files@) == item_files(all.take(0)));
        assert(numbers@ == item_numbers(texts(files@)));
    }
    for i in 0..entries.len()
        invariant
            all == texts(entries@),
            keep == (|name: Seq<char>| is_item_name(name)),
            texts(files@) == item_files(all.take(i as int)),
            numbers@ == item_numbers(texts(files@)),
    {
        let name = &entries[i];
        let ghost before = files@;
        proof {
            assert(all.take(i + 1) == all.take(i as int).push(name@));
            all.take(i as int).lemma_filter_push(name@, keep);
        }
        if is_item_file(name.as_str()) {
            numbers.push(number_of(name.as_str()));
            files.push(name.clone());
            assert(texts(files@) == texts(before).push(name@));
            assert(item_numbers(texts(files@)) == item_numbers(texts(before)).push(
                item_number(name@),
            ));
        }
    }
    assert(all.take(all.len() as int) == all);
    let order = stable_order(numbers.as_slice());
    let ghost placed = files@;
    proof {
        crate::order::lemma_order_distinct(numbers@, order@);
        assert(texts(files@).len() == files@.len());
    }
    let sorted = arrange(files, order.as_slice());
    assert(texts(sorted@) == arranged(texts(placed), order@)) by {
        assert forall|i: int| 0 <= i < order@.len() implies texts(sorted@)[i] == arranged(
            texts(placed),
            order@,
        )[i] by {
            assert(sorted@[i] == placed[order@[i] as int]);
        }
    }
    sorted
}

// ---------------------------------------------------------------------------
// Adding and removing items
// ---------------------------------------------------------------------------

/// The items that pushing `data` adds: those of an array, or the one value.
pub open spec fn pushed_items(data: JsonValue) -> Seq<JsonValue> {
    match data {
        JsonValue::Array(items) => items@,
        other => seq![other],
    }
}

/// The items that pushing `data` adds.
pub fn split_items(data: JsonValue) -> (r: Vec<JsonValue>)
    ensures
        r@ == pushed_items(data),
{
    match data {
        JsonValue::Array(items) => items,
        other => {
            let mut out: Vec<JsonValue> = Vec::new();
            out.push(other);
            assert(out@ == seq![other]);
            out
        },
    }
}

impl DatasetMetadata {
    /// The file that the next item goes to.
    pub fn next_item_file(&self) -> (r: String)
        requires
            self.item_count < usize::MAX,
        ensures
            r@ == item_name(self.item_count as nat + 1),
    {
        item_filename(self.item_count + 1)
    }

    /// Counts the item that was just written.
    pub fn count_item(&mut self)
        requires
            old(self).item_count < usize::MAX,
        ensures
            final(self).item_count == old(self).item_count + 1,
            final(self).base == old(self).base,
    {
        self.item_count = self.item_count + 1;
    }

    /// Records that all items were removed at `now`.
    pub fn purged(&mut self, now: Timestamp)
        ensures
            final(self).item_count == 0,
            final(self).base == (StorageMetadata {
                accessed_at: now,
                modified_at: now,
                ..old(self).base
            }),
    {
        self.item_count = 0;
        self.base.touch(now);
    }
}

// ---------------------------------------------------------------------------
// Pages
// ---------------------------------------------------------------------------

/// Whether a value is an object without fields.
pub open spec fn is_empty_object(v: JsonValue) -> bool {
    v matches JsonValue::Object(fields) && fields@.len() == 0
}

/// The items that a listing takes into account.
pub open spec fn kept_items(items: Seq<JsonValue>, skip_empty: bool) -> Seq<JsonValue> {
    items.filter(|v: JsonValue| !(skip_empty && is_empty_object(v)))
}

/// The items of a listing, in its direction.
pub open spec fn listing(items: Seq<JsonValue>, desc: bool, skip_empty: bool) -> Seq<JsonValue> {
    if desc {
        kept_items(items, skip_empty).reverse()
    } else {
        kept_items(items, skip_empty)
    }
}

/// The smaller of two numbers.
pub open spec fn min_int(a: int, b: int) -> int {
    if a < b {
        a
    } else {
        b
    }
}

/// The part of a listing from `offset` on, at most `limit` items.
pub open spec fn slice_of<T>(all: Seq<T>, offset: int, limit: int) -> Seq<T> {
    all.subrange(min_int(offset, all.len() as int), min_int(offset + limit, all.len() as int))
}

/// The items in the opposite order.
fn reversed<T>(items: Vec<T>) -> (r: Vec<T>)
    ensures
        r@ == items@.reverse(),
{
    let mut rest = items;
    let mut out: Vec<T> = Vec::new();
    while rest.len() > 0
        invariant
            rest@ == items@.take(rest@.len() as int),
            rest@.len() + out@.len() == items@.len(),
            forall|i: int| 0 <= i < out@.len() ==> out@[i] == items@[items@.len() - 1 - i],
        decreases rest@.len(),
    {
        if let Some(item) = rest.pop() {
            out.push(item);
        }
    }
    assert(out@ == items@.reverse());
    out
}

/// The items that a listing takes into account, last first.
fn kept_reversed(items: Vec<JsonValue>, skip_empty: bool) -> (r: Vec<JsonValue>)
    ensures
        r@ == kept_items(items@, skip_empty).reverse(),
{
    let ghost all = items@;
    let ghost keep = |v: JsonValue| !(skip_empty && is_empty_object(v));
    let mut rest = items;
    let mut out: Vec<JsonValue> = Vec::new();
    proof {
        reveal(Seq::filter);
        assert(all.skip(all.len() as int).filter(keep) == Seq::<JsonValue>::empty());
        assert(out@ == all.skip(all.len() as int).filter(keep).reverse());
    }
    while rest.len() > 0
        invariant
            keep == (|v: JsonValue| !(skip_empty && is_empty_object(v))),
            rest@ == all.take(rest@.len() as int),
            rest@.len() <= all.len(),
            out@ == all.skip(rest@.len() as int).filter(keep).reverse(),
        decreases rest@.len(),
    {
        let ghost n = rest@.len() as int;
        if let Some(item) = rest.pop() {
            proof {
                let tail = all.skip(n);
                assert(all.skip(n - 1) == seq![item] + tail);
                Seq::filter_distributes_over_add(seq![item], tail, keep);
                reveal(Seq::filter);
                assert(seq![item].drop_last() == Seq::<JsonValue>::empty());
                assert(seq![item].drop_last().filter(keep) == Seq::<JsonValue>::empty());
                let one = seq![item].filter(keep);
                assert(one == if keep(item) {
                    seq![item]
                } else {
                    Seq::<JsonValue>::empty()
                });
                assert((one + tail.filter(keep)).reverse() == tail.filter(keep).reverse() + one);
            }
            let skip = skip_empty && match &item {
                JsonValue::Object(fields) => fields.len() == 0,
                _ => false,
            };
            let ghost before = out@;
            if !skip {
                out.push(item);
                assert(before + seq![item] == out@);
            } else {
                assert(before + Seq::<JsonValue>::empty() == before);
            }
        }
    }
    assert(all.skip(0) == all);
    out
}

/// Cuts a page out of the items of a dataset. The items come in the order of
/// their numbers.
pub fn get_data(
    items: Vec<JsonValue>,
    offset: usize,
    limit: usize,
    desc: bool,
    skip_empty: bool,
) -> (r: DatasetItemsListPage)
    requires
        offset + limit <= usize::MAX,
    ensures
        ({
            let all = listing(items@, desc, skip_empty);
            &&& r.items@ == slice_of(all, offset as int, limit as int)
            &&& r.count == r.items@.len()
            &&& r.offset == offset
            &&& r.limit == limit
            &&& r.total == all.len()
            &&& r.desc == desc
        }),
        skip_empty ==> forall|i: int|
            0 <= i < r.items@.len() ==> !(#[trigger] r.items@[i] matches JsonValue::Object(fields)
                && fields@.len() == 0),
{
    let ghost kept = kept_items(items@, skip_empty);
    let backwards = kept_reversed(items, skip_empty);
    let mut all = if desc {
        backwards
    } else {
        reversed(backwards)
    };
    assert(kept.reverse().reverse() == kept);
    let ghost listed = listing(items@, desc, skip_empty);
    assert(all@ == listed);
    let total: usize = all.len();
    let start: usize = if offset < total {
        offset
    } else {
        total
    };
    let end: usize = if offset + limit < total {
        offset + limit
    } else {
        total
    };
    all.truncate(end);
    let page = all.split_off(start);
    assert(page@ == slice_of(listed, offset as int, limit as int));
    proof {
        if skip_empty {
            let keep = |v: JsonValue| !(skip_empty && is_empty_object(v));
            assert forall|i: int| 0 <= i < page@.len() implies !is_empty_object(
                #[trigger] page@[i],
            ) by {
                let at = start + i;
                items@.lemma_filter_pred(
                    keep,
                    if desc {
                        kept.len() - 1 - at
                    } else {
                        at
                    },
                );
                assert(page@[i] == listed[at]);
            }
        }
    }
    DatasetItemsListPage { count: page.len(), offset, limit, total, desc, items: page }
}

/// The page of items from `offset` on. `limit` is how many are wanted overall.
pub fn iterate_items_page(
    items: Vec<JsonValue>,
    offset: usize,
    limit: Option<usize>,
    page_size: usize,
    desc: bool,
    skip_empty: bool,
) -> (r: DatasetItemsPage)
    requires
        offset + page_length(limit, page_size) <= usize::MAX,
    ensures
        ({
            let all = listing(items@, desc, skip_empty);
            &&& r.items@ == slice_of(all, offset as int, page_length(limit, page_size) as int)
            &&& r.has_more == items_follow(all.len(), offset, r.items@.len(), limit)
        }),
{
    let fetch_limit = page_fetch_limit(limit, page_size);
    let page = get_data(items, offset, fetch_limit, desc, skip_empty);
    items_page(page, limit)
}

/// Whether items that are wanted follow a page.
pub open spec fn items_follow(
    total: nat,
    offset: usize,
    returned: nat,
    limit: Option<usize>,
) -> bool {
    offset + returned < total && (limit matches Some(remaining) ==> returned < remaining)
}

/// Reduces a page to its items and whether more follow.
pub fn items_page(page: DatasetItemsListPage, limit: Option<usize>) -> (r: DatasetItemsPage)
    requires
        page.offset + page.items@.len() <= usize::MAX,
    ensures
        r.items == page.items,
        r.has_more == items_follow(page.total as nat, page.offset, page.items@.len(), limit),
{
    let returned: usize = page.items.len();
    let wanted = match limit {
        Some(remaining) => returned < remaining,
        None => true,
    };
    DatasetItemsPage {
        items: page.items,
        has_more: page.offset + returned < page.total && wanted,
    }
}

} // verus!
