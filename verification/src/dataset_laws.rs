//! What the rules of a dataset add up to: items come back in the order in which
//! they were pushed, and page by page none is lost or repeated.

use vstd::prelude::*;

use crate::clock::Timestamp;
use crate::dataset::{
    all_digits, decimal, digits_value, in_item_order, is_digit, is_empty_object, is_item_name,
    item_files,
    item_name, item_number, item_numbers, item_stem, items_follow, listing, min_int, padded,
    pushed_items, slice_of, without_plus, ITEM_FILENAME_DIGITS,
};
use crate::json::JsonValue;
use crate::key_listing::page_length;
use crate::models::{DatasetMetadata, StorageMetadata};
use crate::order::{arranged, goes_before, sorts};
use crate::utils::METADATA_FILENAME;

verus! {

proof fn lemma_decimal(n: nat)
    ensures
        decimal(n).len() > 0,
        all_digits(decimal(n)),
        digits_value(decimal(n)) == n,
    decreases n,
{
    if n < 10 {
        let d = decimal(n);
        assert(d.drop_last() == Seq::<char>::empty());
        assert(digits_value(d.drop_last()) == 0);
        assert(d.last() as nat == 0x30 + n);
    } else {
        lemma_decimal(n / 10);
        let d = decimal(n);
        assert(d.drop_last() == decimal(n / 10));
        assert forall|i: int| 0 <= i < d.len() implies is_digit(#[trigger] d[i]) by {
            if i < d.len() - 1 {
                assert(is_digit(decimal(n / 10)[i]));
            }
        }
        assert(d.last() as nat == 0x30 + n % 10);
    }
}

proof fn lemma_leading_zeros(k: nat, s: Seq<char>)
    requires
        all_digits(s),
    ensures
        digits_value(Seq::new(k, |i: int| '0') + s) == digits_value(s),
        all_digits(Seq::new(k, |i: int| '0') + s),
    decreases k + s.len(),
{
    let zeros = Seq::new(k, |i: int| '0');
    let all = zeros + s;
    assert forall|i: int| 0 <= i < all.len() implies is_digit(#[trigger] all[i]) by {
        if i >= k {
            assert(is_digit(s[i - k]));
        }
    }
    if s.len() > 0 {
        let front = s.drop_last();
        assert forall|i: int| 0 <= i < front.len() implies is_digit(#[trigger] front[i]) by {
            assert(is_digit(s[i]));
        }
        lemma_leading_zeros(k, front);
        assert(all.drop_last() == zeros + front);
    } else if k > 0 {
        let fewer = Seq::new((k - 1) as nat, |i: int| '0');
        lemma_leading_zeros((k - 1) as nat, s);
        assert(all.drop_last() == fewer + s);
    } else {
        assert(all == s);
    }
}

/// The file of an item is recognised as one, and its number is read back from
/// its name. So different items have different files.
pub proof fn law_item_names_carry_their_number(id: nat)
    requires
        id <= u64::MAX,
    ensures
        is_item_name(item_name(id)),
        item_number(item_name(id)) == id,
{
    reveal_strlit(".json");
    reveal_strlit("__metadata__.json");
    let width = ITEM_FILENAME_DIGITS as nat;
    let digits = decimal(id);
    let stem = padded(id, width);
    let name = item_name(id);
    lemma_decimal(id);
    if digits.len() < width {
        lemma_leading_zeros((width - digits.len()) as nat, digits);
    }
    assert(name.skip(name.len() - 5) == ".json"@);
    assert(is_digit(stem[0]));
    assert(name[0] == stem[0]);
    assert(METADATA_FILENAME@[0] == '_');
    assert(item_stem(name) == stem);
    assert(without_plus(stem) == stem);
}

proof fn lemma_ascending_run(a: Seq<int>, n: int)
    requires
        n >= 0,
        forall|i: int, j: int| 0 <= i < j < a.len() ==> #[trigger] a[i] < #[trigger] a[j],
        forall|i: int| 0 <= i < a.len() ==> 1 <= #[trigger] a[i] <= n,
        forall|k: int| 1 <= k <= n ==> #[trigger] a.contains(k),
    ensures
        a.len() == n,
        forall|i: int| 0 <= i < n ==> #[trigger] a[i] == i + 1,
    decreases n,
{
    if n == 0 {
        if a.len() > 0 {
            assert(1 <= a[0] <= n);
        }
    } else {
        assert(a.contains(n));
        let p = choose|p: int| 0 <= p < a.len() && a[p] == n;
        if p < a.len() - 1 {
            assert(a[p] < a[a.len() - 1]);
        }
        let front = a.drop_last();
        assert forall|i: int| 0 <= i < front.len() implies 1 <= #[trigger] front[i] <= n - 1 by {
            assert(a[i] < a[a.len() - 1]);
        }
        assert forall|k: int| 1 <= k <= n - 1 implies #[trigger] front.contains(k) by {
            assert(a.contains(k));
            let q = choose|q: int| 0 <= q < a.len() && a[q] == k;
            assert(front[q] == k);
        }
        lemma_ascending_run(front, n - 1);
        assert forall|i: int| 0 <= i < n implies #[trigger] a[i] == i + 1 by {
            if i < n - 1 {
                assert(front[i] == i + 1);
            }
        }
    }
}

/// Whatever order a directory is read in, the files of the items 1 to `n` are
/// listed from the first to the last.
pub proof fn law_items_are_listed_in_push_order(
    entries: Seq<Seq<char>>,
    sorted: Seq<Seq<char>>,
    n: nat,
)
    requires
        in_item_order(item_files(entries), sorted),
        n <= u64::MAX,
        item_files(entries).len() <= usize::MAX,
        item_files(entries).no_duplicates(),
        forall|k: int|
            1 <= k <= n ==> item_files(entries).contains(#[trigger] item_name(k as nat)),
        forall|i: int|
            0 <= i < item_files(entries).len() ==> exists|k: int|
                1 <= k <= n && #[trigger] item_files(entries)[i] == #[trigger] item_name(k as nat),
    ensures
        sorted == Seq::new(n, |i: int| item_name((i + 1) as nat)),
{
    let files = item_files(entries);
    let numbers = item_numbers(files);
    let order = choose|order: Seq<usize>|
        sorts(numbers, order) && sorted == #[trigger] arranged(files, order);
    let a = Seq::new(sorted.len(), |i: int| item_number(sorted[i]) as int);
    assert forall|i: int| 0 <= i < files.len() implies files[i] == item_name(
        #[trigger] numbers[i] as nat,
    ) && 1 <= numbers[i] <= n by {
        let k = choose|k: int|
            1 <= k <= n && #[trigger] files[i] == #[trigger] item_name(k as nat);
        law_item_names_carry_their_number(k as nat);
    }
    assert forall|i: int| 0 <= i < a.len() implies 1 <= #[trigger] a[i] <= n && sorted[i]
        == item_name(a[i] as nat) by {
        assert(order[i] < files.len());
        assert(sorted[i] == files[order[i] as int]);
        assert(numbers[order[i] as int] == item_number(files[order[i] as int]));
    }
    assert forall|i: int, j: int| 0 <= i < j < a.len() implies #[trigger] a[i]
        < #[trigger] a[j] by {
        assert(goes_before(numbers, order[i] as int, order[j] as int));
        let p = order[i] as int;
        let q = order[j] as int;
        assert(sorted[i] == files[p] && sorted[j] == files[q]);
        assert(a[i] == numbers[p] && a[j] == numbers[q]);
        if numbers[p] == numbers[q] {
            assert(files[p] == files[q]);
        }
    }
    assert forall|k: int| 1 <= k <= n implies #[trigger] a.contains(k) by {
        assert(files.contains(item_name(k as nat)));
        let p = choose|p: int| 0 <= p < files.len() && files[p] == item_name(k as nat);
        law_item_names_carry_their_number(k as nat);
        assert(order.contains(p as usize));
        let i = choose|i: int| 0 <= i < order.len() && order[i] == p as usize;
        assert(sorted[i] == files[p]);
        assert(a[i] == k);
    }
    lemma_ascending_run(a, n as int);
    assert forall|i: int| 0 <= i < n implies sorted[i] == item_name((i + 1) as nat) by {
        assert(a[i] == i + 1);
    }
}

/// The page from `offset` on holds the items that come next, as many as fit, and
/// says that more follow exactly where there are more.
pub proof fn law_item_page_continues_at_offset<T>(all: Seq<T>, offset: usize, page_size: usize)
    requires
        offset <= all.len(),
        page_size > 0,
    ensures
        ({
            let end = min_int(offset + page_size, all.len() as int);
            let page = slice_of(all, offset as int, page_size as int);
            &&& page == all.subrange(offset as int, end)
            &&& items_follow(all.len(), offset, page.len(), None) == (offset + page_size
                < all.len())
        }),
{
}

/// What a caller collects who asks for page after page, each time behind the
/// items so far, until no more is promised.
pub open spec fn walk_items<T>(all: Seq<T>, offset: usize, page_size: usize, fuel: nat) -> Option<
    Seq<T>,
>
    decreases fuel,
{
    let page = slice_of(all, offset as int, page_size as int);
    if !items_follow(all.len(), offset, page.len(), None) {
        Some(page)
    } else if fuel == 0 || offset + page.len() > usize::MAX {
        None
    } else {
        match walk_items(all, (offset + page.len()) as usize, page_size, (fuel - 1) as nat) {
            Some(rest) => Some(page + rest),
            None => None,
        }
    }
}

/// Walking through the pages gives every item, in order and each once, whatever
/// the size of a page.
pub proof fn law_walk_visits_every_item_once<T>(all: Seq<T>, page_size: usize)
    requires
        page_size > 0,
        all.len() <= usize::MAX,
    ensures
        walk_items(all, 0, page_size, all.len()) == Some(all),
{
    lemma_walk_items(all, 0, page_size, all.len());
    assert(all.skip(0) == all);
}

proof fn lemma_walk_items<T>(all: Seq<T>, offset: usize, page_size: usize, fuel: nat)
    requires
        page_size > 0,
        offset <= all.len() <= usize::MAX,
        fuel >= all.len() - offset,
    ensures
        walk_items(all, offset, page_size, fuel) == Some(all.skip(offset as int)),
    decreases fuel,
{
    let page = slice_of(all, offset as int, page_size as int);
    law_item_page_continues_at_offset(all, offset, page_size);
    if offset + page_size < all.len() {
        let next = (offset + page_size) as usize;
        lemma_walk_items(all, next, page_size, (fuel - 1) as nat);
        assert(page + all.skip(next as int) == all.skip(offset as int));
    } else {
        assert(page == all.skip(offset as int));
    }
}

// ---------------------------------------------------------------------------
// Pushing and reading
// ---------------------------------------------------------------------------

/// A dataset: its files by name, each with the document in it where it can be
/// read, and its description.
#[verifier::ext_equal]
pub ghost struct DatasetView {
    pub files: Map<Seq<char>, Option<JsonValue>>,
    pub metadata: DatasetMetadata,
}

/// The dataset after one item was written to the next file and counted.
pub open spec fn push_one(d: DatasetView, item: JsonValue) -> DatasetView {
    let next = d.metadata.item_count as nat + 1;
    DatasetView {
        files: d.files.insert(item_name(next), Some(item)),
        metadata: DatasetMetadata { item_count: next as usize, ..d.metadata },
    }
}

/// The dataset after several items were written, one after the other.
pub open spec fn push_all(d: DatasetView, items: Seq<JsonValue>) -> DatasetView
    decreases items.len(),
{
    if items.len() == 0 {
        d
    } else {
        push_one(push_all(d, items.drop_last()), items.last())
    }
}

/// The dataset after `data` was pushed at `now`.
pub open spec fn after_push(d: DatasetView, data: JsonValue, now: Timestamp) -> DatasetView {
    let pushed = push_all(d, pushed_items(data));
    DatasetView {
        metadata: DatasetMetadata {
            base: StorageMetadata { accessed_at: now, modified_at: now, ..pushed.metadata.base },
            ..pushed.metadata
        },
        ..pushed
    }
}

/// Whether the files of items have numbers of their own, none beyond the count.
pub open spec fn numbered(d: DatasetView) -> bool {
    &&& forall|name: Seq<char>| #[trigger]
        d.files.dom().contains(name) && is_item_name(name) ==> item_number(name)
            <= d.metadata.item_count
    &&& forall|a: Seq<char>, b: Seq<char>|
        #![trigger d.files.dom().contains(a), d.files.dom().contains(b)]
        d.files.dom().contains(a) && d.files.dom().contains(b) && is_item_name(a) && is_item_name(b)
            && item_number(a) == item_number(b) ==> a == b
}

/// Whether `sorted` are the files of items in the order in which they are read,
/// `entries` being the files of the dataset as the directory lists them.
pub open spec fn reads_files(
    d: DatasetView,
    entries: Seq<Seq<char>>,
    sorted: Seq<Seq<char>>,
) -> bool {
    &&& entries.no_duplicates()
    &&& entries.len() <= usize::MAX
    &&& forall|name: Seq<char>| #[trigger]
        entries.contains(name) <==> d.files.dom().contains(name)
    &&& in_item_order(item_files(entries), sorted)
}

/// The documents in the given files that can be read.
pub open spec fn documents(
    files: Map<Seq<char>, Option<JsonValue>>,
    names: Seq<Seq<char>>,
) -> Seq<JsonValue>
    decreases names.len(),
{
    if names.len() == 0 {
        Seq::empty()
    } else {
        let front = documents(files, names.drop_last());
        match files[names.last()] {
            Some(item) => front.push(item),
            None => front,
        }
    }
}

/// Whether the numbers of files ascend strictly.
spec fn ascending_names(names: Seq<Seq<char>>) -> bool {
    forall|i: int, j: int|
        0 <= i < j < names.len() ==> item_number(#[trigger] names[i]) < item_number(
            #[trigger] names[j],
        )
}

proof fn lemma_same_names(a: Seq<Seq<char>>, b: Seq<Seq<char>>)
    requires
        ascending_names(a),
        ascending_names(b),
        forall|x: Seq<char>| #[trigger] a.contains(x) <==> b.contains(x),
    ensures
        a == b,
    decreases a.len(),
{
    if a.len() == 0 {
        if b.len() > 0 {
            assert(b.contains(b[0]));
            assert(a.contains(b[0]));
        }
    } else {
        let last = a.last();
        assert(a.contains(a[a.len() - 1]));
        assert(b.contains(last));
        let p = choose|p: int| 0 <= p < b.len() && b[p] == last;
        assert(b.contains(b[b.len() - 1]));
        assert(a.contains(b[b.len() - 1]));
        let q = choose|q: int| 0 <= q < a.len() && a[q] == b[b.len() - 1];
        if p < b.len() - 1 {
            assert(item_number(b[p]) < item_number(b[b.len() - 1]));
            if q < a.len() - 1 {
                assert(item_number(a[q]) < item_number(a[a.len() - 1]));
            }
        }
        let x = a.drop_last();
        let y = b.drop_last();
        assert forall|n: Seq<char>| #[trigger] x.contains(n) <==> y.contains(n) by {
            if x.contains(n) {
                let i = choose|i: int| 0 <= i < x.len() && x[i] == n;
                assert(item_number(a[i]) < item_number(a[a.len() - 1]));
                assert(a.contains(a[i]));
                let j = choose|j: int| 0 <= j < b.len() && b[j] == n;
                assert(y[j] == n);
            }
            if y.contains(n) {
                let i = choose|i: int| 0 <= i < y.len() && y[i] == n;
                assert(item_number(b[i]) < item_number(b[b.len() - 1]));
                assert(b.contains(b[i]));
                assert(a.contains(n));
                let j = choose|j: int| 0 <= j < a.len() && a[j] == n;
                assert(x[j] == n);
            }
        }
        assert(ascending_names(x)) by {
            assert forall|i: int, j: int| 0 <= i < j < x.len() implies item_number(
                #[trigger] x[i],
            ) < item_number(#[trigger] x[j]) by {
                assert(item_number(a[i]) < item_number(a[j]));
            }
        }
        assert(ascending_names(y)) by {
            assert forall|i: int, j: int| 0 <= i < j < y.len() implies item_number(
                #[trigger] y[i],
            ) < item_number(#[trigger] y[j]) by {
                assert(item_number(b[i]) < item_number(b[j]));
            }
        }
        lemma_same_names(x, y);
        assert(a == x.push(last));
        assert(b == y.push(last));
    }
}

proof fn lemma_filter_members(entries: Seq<Seq<char>>)
    ensures
        forall|name: Seq<char>| #[trigger]
            item_files(entries).contains(name) <==> entries.contains(name) && is_item_name(name),
{
    let keep = |name: Seq<char>| is_item_name(name);
    assert forall|name: Seq<char>| #[trigger]
        item_files(entries).contains(name) <==> entries.contains(name) && is_item_name(name) by {
        if item_files(entries).contains(name) {
            let i = choose|i: int|
                0 <= i < item_files(entries).len() && item_files(entries)[i] == name;
            entries.lemma_filter_pred(keep, i);
            entries.lemma_filter_contains_rev(keep, name);
        }
        if entries.contains(name) && is_item_name(name) {
            let i = choose|i: int| 0 <= i < entries.len() && entries[i] == name;
            entries.lemma_filter_contains(keep, i);
        }
    }
}

proof fn lemma_filter_distinct(entries: Seq<Seq<char>>)
    requires
        entries.no_duplicates(),
    ensures
        item_files(entries).no_duplicates(),
    decreases entries.len(),
{
    reveal(Seq::filter);
    if entries.len() > 0 {
        let front = entries.drop_last();
        lemma_filter_distinct(front);
        lemma_filter_members(front);
        let last = entries.last();
        assert(!front.contains(last)) by {
            if front.contains(last) {
                let i = choose|i: int| 0 <= i < front.len() && front[i] == last;
                assert(entries[i] == entries[entries.len() - 1]);
            }
        }
        let kept = item_files(front);
        if is_item_name(last) {
            assert(item_files(entries) == kept.push(last));
            assert forall|i: int, j: int| 0 <= i < j < kept.push(last).len() implies kept.push(
                last,
            )[i] != kept.push(last)[j] by {
                if j == kept.len() {
                    assert(kept.contains(kept[i]));
                }
            }
        } else {
            assert(item_files(entries) == kept);
        }
    }
}

/// The files that are read are those of the items, with ascending numbers.
proof fn lemma_read_files(d: DatasetView, entries: Seq<Seq<char>>, sorted: Seq<Seq<char>>)
    requires
        numbered(d),
        reads_files(d, entries, sorted),
    ensures
        ascending_names(sorted),
        forall|name: Seq<char>| #[trigger]
            sorted.contains(name) <==> d.files.dom().contains(name) && is_item_name(name),
{
    let files = item_files(entries);
    let numbers = item_numbers(files);
    let order = choose|order: Seq<usize>|
        sorts(numbers, order) && sorted == #[trigger] arranged(files, order);
    lemma_filter_members(entries);
    lemma_filter_distinct(entries);
    entries.lemma_filter_len(|name: Seq<char>| is_item_name(name));
    crate::order::lemma_order_distinct(numbers, order);
    assert forall|i: int, j: int| 0 <= i < j < sorted.len() implies item_number(
        #[trigger] sorted[i],
    ) < item_number(#[trigger] sorted[j]) by {
        let p = order[i] as int;
        let q = order[j] as int;
        assert(goes_before(numbers, p, q));
        assert(order[i] < numbers.len() && order[j] < numbers.len());
        assert(sorted[i] == files[p] && sorted[j] == files[q]);
        assert(numbers[p] == item_number(files[p]) && numbers[q] == item_number(files[q]));
        assert(files.contains(files[p]) && files.contains(files[q]));
        assert(entries.contains(files[p]) && entries.contains(files[q]));
        if numbers[p] == numbers[q] {
            assert(d.files.dom().contains(files[p]) && d.files.dom().contains(files[q]));
            assert(files[p] == files[q]);
            assert(p == q);
        }
    }
    assert forall|name: Seq<char>| #[trigger]
        sorted.contains(name) <==> d.files.dom().contains(name) && is_item_name(name) by {
        if sorted.contains(name) {
            let i = choose|i: int| 0 <= i < sorted.len() && sorted[i] == name;
            assert(order[i] < numbers.len());
            assert(files.contains(files[order[i] as int]));
            assert(entries.contains(name));
        }
        if d.files.dom().contains(name) && is_item_name(name) {
            assert(entries.contains(name));
            assert(files.contains(name));
            let p = choose|p: int| 0 <= p < files.len() && files[p] == name;
            assert(order.contains(p as usize));
            let i = choose|i: int| 0 <= i < order.len() && order[i] == p as usize;
            assert(sorted[i] == files[p]);
        }
    }
}

proof fn lemma_push_one(d: DatasetView, item: JsonValue)
    requires
        numbered(d),
        d.metadata.item_count < usize::MAX,
    ensures
        numbered(push_one(d, item)),
        ({
            let name = item_name(d.metadata.item_count as nat + 1);
            &&& is_item_name(name)
            &&& item_number(name) == d.metadata.item_count + 1
            &&& !d.files.dom().contains(name)
        }),
{
    let next = d.metadata.item_count as nat + 1;
    let name = item_name(next);
    law_item_names_carry_their_number(next);
    let a = push_one(d, item);
    if d.files.dom().contains(name) {
        assert(item_number(name) <= d.metadata.item_count);
    }
    assert forall|x: Seq<char>| #[trigger]
        a.files.dom().contains(x) && is_item_name(x) implies item_number(x)
        <= a.metadata.item_count by {
        if x != name {
            assert(d.files.dom().contains(x));
        }
    }
    assert forall|x: Seq<char>, y: Seq<char>|
        #![trigger a.files.dom().contains(x), a.files.dom().contains(y)]
        a.files.dom().contains(x) && a.files.dom().contains(y) && is_item_name(x) && is_item_name(y)
            && item_number(x) == item_number(y) implies x == y by {
        if x != name {
            assert(d.files.dom().contains(x));
        }
        if y != name {
            assert(d.files.dom().contains(y));
        }
    }
}

proof fn lemma_documents_same(
    a: Map<Seq<char>, Option<JsonValue>>,
    b: Map<Seq<char>, Option<JsonValue>>,
    names: Seq<Seq<char>>,
)
    requires
        forall|i: int| 0 <= i < names.len() ==> a[#[trigger] names[i]] == b[names[i]],
    ensures
        documents(a, names) == documents(b, names),
    decreases names.len(),
{
    if names.len() > 0 {
        let front = names.drop_last();
        assert forall|i: int| 0 <= i < front.len() implies a[#[trigger] front[i]] == b[front[i]] by {
            assert(front[i] == names[i]);
        }
        lemma_documents_same(a, b, front);
        assert(names[names.len() - 1] == names.last());
    }
}

/// What is read after items were pushed, given what the files of the items were.
proof fn lemma_push_all(d: DatasetView, items: Seq<JsonValue>, names: Seq<Seq<char>>)
    requires
        numbered(d),
        d.metadata.item_count + items.len() <= usize::MAX,
        ascending_names(names),
        forall|x: Seq<char>| #[trigger]
            names.contains(x) <==> d.files.dom().contains(x) && is_item_name(x),
    ensures
        ({
            let a = push_all(d, items);
            let added = Seq::new(
                items.len(),
                |i: int| item_name((d.metadata.item_count + i + 1) as nat),
            );
            &&& numbered(a)
            &&& a.metadata.item_count == d.metadata.item_count + items.len()
            &&& a.metadata.base == d.metadata.base
            &&& ascending_names(names + added)
            &&& forall|x: Seq<char>| #[trigger]
                (names + added).contains(x) <==> a.files.dom().contains(x) && is_item_name(x)
            &&& documents(a.files, names + added) == documents(d.files, names) + items
        }),
    decreases items.len(),
{
    let count = d.metadata.item_count;
    let added = Seq::new(items.len(), |i: int| item_name((count + i + 1) as nat));
    if items.len() == 0 {
        assert(names + added == names);
        assert(documents(d.files, names) + items == documents(d.files, names));
    } else {
        let front = items.drop_last();
        let fewer = Seq::new(front.len(), |i: int| item_name((count + i + 1) as nat));
        lemma_push_all(d, front, names);
        let b = push_all(d, front);
        let a = push_all(d, items);
        lemma_push_one(b, items.last());
        let name = item_name(b.metadata.item_count as nat + 1);
        assert(b.metadata.item_count as nat + 1 == (count + front.len() + 1) as nat);
        let before = names + fewer;
        let after = names + added;
        assert(after == before.push(name)) by {
            assert(added == fewer.push(name));
        }
        assert forall|i: int, j: int| 0 <= i < j < after.len() implies item_number(
            #[trigger] after[i],
        ) < item_number(#[trigger] after[j]) by {
            assert(after[i] == before[i]);
            assert(before.contains(before[i]));
            if j < before.len() {
                assert(after[j] == before[j]);
            } else {
                assert(b.files.dom().contains(before[i]));
            }
        }
        assert forall|x: Seq<char>| #[trigger]
            after.contains(x) <==> a.files.dom().contains(x) && is_item_name(x) by {
            if after.contains(x) {
                let i = choose|i: int| 0 <= i < after.len() && after[i] == x;
                if i < before.len() {
                    assert(before[i] == x);
                    assert(before.contains(x));
                }
            }
            if a.files.dom().contains(x) && is_item_name(x) {
                if x == name {
                    assert(after[before.len() as int] == x);
                } else {
                    assert(b.files.dom().contains(x));
                    assert(before.contains(x));
                    let i = choose|i: int| 0 <= i < before.len() && before[i] == x;
                    assert(after[i] == x);
                }
            }
        }
        assert(after.drop_last() == before);
        assert forall|i: int| 0 <= i < before.len() implies a.files[#[trigger] before[i]]
            == b.files[before[i]] by {
            assert(before.contains(before[i]));
            assert(b.files.dom().contains(before[i]));
        }
        lemma_documents_same(a.files, b.files, before);
        assert((documents(d.files, names) + front).push(items.last()) == documents(d.files, names)
            + items);
    }
}

proof fn lemma_listing_is_all(items: Seq<JsonValue>)
    ensures
        listing(items, false, false) == items,
    decreases items.len(),
{
    reveal(Seq::filter);
    if items.len() > 0 {
        lemma_listing_is_all(items.drop_last());
        assert(items.drop_last().push(items.last()) == items);
    }
}

/// Reading a dataset after a push gives what it held before, followed by the new
/// items, and the count grows by their number; all else that the dataset records
/// about itself stays, but for the times of access and change. This holds as long
/// as the files of items have numbers of their own, none beyond the count, which
/// a push keeps so.
pub proof fn law_reading_after_push(
    d: DatasetView,
    data: JsonValue,
    now: Timestamp,
    entries_before: Seq<Seq<char>>,
    sorted_before: Seq<Seq<char>>,
    entries_after: Seq<Seq<char>>,
    sorted_after: Seq<Seq<char>>,
)
    requires
        numbered(d),
        d.metadata.item_count + pushed_items(data).len() <= usize::MAX,
        reads_files(d, entries_before, sorted_before),
        reads_files(after_push(d, data, now), entries_after, sorted_after),
    ensures
        ({
            let a = after_push(d, data, now);
            &&& listing(documents(a.files, sorted_after), false, false) == listing(
                documents(d.files, sorted_before),
                false,
                false,
            ) + pushed_items(data)
            &&& a.metadata.item_count == d.metadata.item_count + pushed_items(data).len()
            &&& a.metadata.base == (StorageMetadata {
                accessed_at: now,
                modified_at: now,
                ..d.metadata.base
            })
            &&& numbered(a)
        }),
{
    let items = pushed_items(data);
    let a = after_push(d, data, now);
    let p = push_all(d, items);
    lemma_read_files(d, entries_before, sorted_before);
    lemma_push_all(d, items, sorted_before);
    assert(numbered(a)) by {
        assert(a.files == p.files);
    }
    lemma_read_files(a, entries_after, sorted_after);
    let added = Seq::new(
        items.len(),
        |i: int| item_name((d.metadata.item_count + i + 1) as nat),
    );
    assert forall|x: Seq<char>| #[trigger]
        sorted_after.contains(x) <==> (sorted_before + added).contains(x) by {
        assert((sorted_before + added).contains(x) <==> p.files.dom().contains(x)
            && is_item_name(x));
    }
    lemma_same_names(sorted_after, sorted_before + added);
    lemma_listing_is_all(documents(a.files, sorted_after));
    lemma_listing_is_all(documents(d.files, sorted_before));
}

/// Pushing a list at once leaves the same files and the same count as pushing its
/// parts one after the other.
pub proof fn law_pushes_add_up(d: DatasetView, first: Seq<JsonValue>, second: Seq<JsonValue>)
    ensures
        push_all(push_all(d, first), second) == push_all(d, first + second),
    decreases second.len(),
{
    if second.len() == 0 {
        assert(first + second == first);
    } else {
        law_pushes_add_up(d, first, second.drop_last());
        assert((first + second).drop_last() == first + second.drop_last());
        assert((first + second).last() == second.last());
    }
}

/// A dataset without item files, such as a new or a purged one, has numbers as a
/// push needs them, and nothing is read from it.
pub proof fn law_empty_dataset(
    d: DatasetView,
    entries: Seq<Seq<char>>,
    sorted: Seq<Seq<char>>,
)
    requires
        forall|name: Seq<char>| #[trigger] d.files.dom().contains(name) ==> !is_item_name(name),
        reads_files(d, entries, sorted),
    ensures
        numbered(d),
        listing(documents(d.files, sorted), false, false).len() == 0,
{
    lemma_read_files(d, entries, sorted);
    if sorted.len() > 0 {
        assert(sorted.contains(sorted[0]));
    }
    lemma_listing_is_all(documents(d.files, sorted));
}

// ---------------------------------------------------------------------------
// Listings and pages
// ---------------------------------------------------------------------------

/// A descending listing is the ascending one with the same choice of items in reverse
/// order.
pub proof fn law_descending_is_ascending_reversed(items: Seq<JsonValue>, skip_empty: bool)
    ensures
        listing(items, true, skip_empty) == listing(items, false, skip_empty).reverse(),
{
}

/// Every item is listed, but for objects without fields where these are skipped. The
/// listing of a run of items is that of its parts, one after the other.
pub proof fn law_listing_takes_items_one_by_one(
    first: Seq<JsonValue>,
    second: Seq<JsonValue>,
    item: JsonValue,
    skip_empty: bool,
)
    ensures
        listing(first + second, false, skip_empty) == listing(first, false, skip_empty) + listing(
            second,
            false,
            skip_empty,
        ),
        listing(seq![item], false, skip_empty) == if skip_empty && (item matches JsonValue::Object(
            fields,
        ) && fields@.len() == 0) {
            Seq::empty()
        } else {
            seq![item]
        },
        listing(first, false, false) == first,
{
    let keep = |v: JsonValue| !(skip_empty && is_empty_object(v));
    Seq::filter_distributes_over_add(first, second, keep);
    reveal(Seq::filter);
    let one = seq![item];
    assert(one.drop_last() == Seq::<JsonValue>::empty());
    assert(one.drop_last().filter(keep) == Seq::<JsonValue>::empty());
    assert(Seq::<JsonValue>::empty().push(item) == one);
    lemma_listing_is_all(first);
}

/// No listing that skips objects without fields holds one, in either direction, and
/// each of its items is one of the dataset's.
pub proof fn law_skipped_objects_are_not_listed(items: Seq<JsonValue>, desc: bool, i: int)
    requires
        0 <= i < listing(items, desc, true).len(),
    ensures
        !(listing(items, desc, true)[i] matches JsonValue::Object(fields) && fields@.len() == 0),
        items.contains(listing(items, desc, true)[i]),
{
    let skip_empty = true;
    let keep = |v: JsonValue| !(skip_empty && is_empty_object(v));
    let kept = items.filter(keep);
    assert(kept == listing(items, false, skip_empty));
    let k = if desc {
        kept.len() - 1 - i
    } else {
        i
    };
    items.lemma_filter_pred(keep, k);
    items.lemma_filter_contains_rev(keep, kept[k]);
}

/// A page holds the items from its offset on, as many as it asks for and there are,
/// each at its place. Pages that follow each other make up one long page.
pub proof fn law_pages_are_cut_at_their_offset<T>(
    all: Seq<T>,
    offset: nat,
    first: nat,
    second: nat,
)
    ensures
        ({
            let page = slice_of(all, offset as int, first as int);
            &&& page.len() <= first
            &&& page.len() < first ==> offset + page.len() >= all.len()
            &&& offset + page.len() <= all.len() || page.len() == 0
            &&& forall|i: int| 0 <= i < page.len() ==> #[trigger] page[i] == all[offset + i]
        }),
        slice_of(all, offset as int, first as int) + slice_of(
            all,
            (offset + first) as int,
            second as int,
        ) == slice_of(all, offset as int, (first + second) as int),
{
}

/// What a caller collects who wants `remaining` items and asks for page after page,
/// each time behind the items so far and for what is still wanted, until no more is
/// promised.
pub open spec fn walk_items_limited<T>(
    all: Seq<T>,
    offset: usize,
    page_size: usize,
    remaining: usize,
    fuel: nat,
) -> Option<Seq<T>>
    decreases fuel,
{
    let page = slice_of(
        all,
        offset as int,
        page_length(Some(remaining), page_size) as int,
    );
    if !items_follow(all.len(), offset, page.len(), Some(remaining)) {
        Some(page)
    } else if fuel == 0 || offset + page.len() > usize::MAX || page.len() > remaining {
        None
    } else {
        match walk_items_limited(
            all,
            (offset + page.len()) as usize,
            page_size,
            (remaining - page.len()) as usize,
            (fuel - 1) as nat,
        ) {
            Some(rest) => Some(page + rest),
            None => None,
        }
    }
}

/// Walking through the pages for `wanted` items gives the first that many, in order
/// and each once, whatever the size of a page.
pub proof fn law_limited_walk_visits_the_first_items<T>(
    all: Seq<T>,
    page_size: usize,
    wanted: usize,
)
    requires
        page_size > 0,
        all.len() <= usize::MAX,
    ensures
        walk_items_limited(all, 0, page_size, wanted, all.len()) == Some(
            all.take(min_int(wanted as int, all.len() as int)),
        ),
{
    lemma_limited_walk(all, 0, page_size, wanted, all.len());
    assert(all.skip(0) == all);
}

proof fn lemma_limited_walk<T>(
    all: Seq<T>,
    offset: usize,
    page_size: usize,
    remaining: usize,
    fuel: nat,
)
    requires
        page_size > 0,
        offset <= all.len() <= usize::MAX,
        fuel >= all.len() - offset,
    ensures
        walk_items_limited(all, offset, page_size, remaining, fuel) == Some(
            all.skip(offset as int).take(min_int(remaining as int, all.len() - offset)),
        ),
    decreases fuel,
{
    let rest = all.skip(offset as int);
    let length = page_length(Some(remaining), page_size);
    let page = slice_of(all, offset as int, length as int);
    if offset + page_size < all.len() && page_size < remaining {
        let next = (offset + page_size) as usize;
        lemma_limited_walk(
            all,
            next,
            page_size,
            (remaining - page_size) as usize,
            (fuel - 1) as nat,
        );
        assert(page == rest.take(page_size as int));
        assert(page + all.skip(next as int).take(
            min_int(remaining - page_size, all.len() - next),
        ) == rest.take(min_int(remaining as int, all.len() - offset)));
    } else {
        assert(page == rest.take(min_int(remaining as int, all.len() - offset)));
    }
}

/// More items follow a page exactly where the dataset has some behind it and the
/// caller wants more than the page held.
pub proof fn law_more_items_follow(
    total: nat,
    offset: usize,
    returned: nat,
    limit: Option<usize>,
)
    ensures
        items_follow(total, offset, returned, limit) <==> total > offset + returned && match limit {
            Some(n) => n > returned,
            None => true,
        },
{
}

// ---------------------------------------------------------------------------
// Items and their files
// ---------------------------------------------------------------------------

/// A list is pushed as its elements, any other document as the one item that it is. A
/// list inside of a list stays an item.
pub proof fn law_lists_are_pushed_as_their_elements(elements: Vec<JsonValue>, data: JsonValue)
    ensures
        pushed_items(JsonValue::Array(elements)) == elements@,
        !(data is Array) ==> pushed_items(data) == seq![data],
{
}

proof fn lemma_decimal_length(n: nat, width: nat, bound: nat)
    requires
        n < bound,
        width > 0,
        bound == pow10(width),
    ensures
        decimal(n).len() <= width,
    decreases width,
{
    if n >= 10 {
        if width == 1 {
            assert(pow10(1) == 10 * pow10(0));
        } else {
            let less = (width - 1) as nat;
            assert(pow10(width) == 10 * pow10(less));
            assert(n / 10 < pow10(less));
            lemma_decimal_length(n / 10, less, pow10(less));
        }
    }
}

/// Ten to the power of `n`.
pub open spec fn pow10(n: nat) -> nat
    decreases n,
{
    if n == 0 {
        1
    } else {
        10 * pow10((n - 1) as nat)
    }
}

/// The name of an item is its number in decimal digits, nine of them as long as that
/// many hold it and more after that, with a fixed end.
pub proof fn law_item_names_have_nine_digits(id: nat)
    ensures
        ({
            let name = item_name(id);
            let stem = name.take(name.len() - 5);
            &&& name.skip(name.len() - 5) == ".json"@
            &&& stem.len() >= 9
            &&& id < 1_000_000_000 ==> stem.len() == 9
            &&& forall|i: int| 0 <= i < stem.len() ==> '0' <= #[trigger] stem[i] <= '9'
            &&& digits_value(stem) == id
        }),
{
    reveal_strlit(".json");
    let width = ITEM_FILENAME_DIGITS as nat;
    let name = item_name(id);
    let stem = padded(id, width);
    lemma_decimal(id);
    if decimal(id).len() < width {
        lemma_leading_zeros((width - decimal(id).len()) as nat, decimal(id));
    }
    assert(name.take(name.len() - 5) == stem);
    assert(name.skip(name.len() - 5) == ".json"@);
    assert forall|i: int| 0 <= i < stem.len() implies '0' <= #[trigger] stem[i] <= '9' by {
        assert(is_digit(stem[i]));
    }
    if id < 1_000_000_000 {
        reveal_with_fuel(pow10, 10);
        assert(pow10(9) == 1_000_000_000);
        lemma_decimal_length(id, 9, 1_000_000_000);
    }
}

/// A file is an item exactly where its name has the end of one and is not that of the
/// dataset's own description.
pub proof fn law_files_of_items(entries: Seq<Seq<char>>, name: Seq<char>)
    ensures
        item_files(entries).contains(name) <==> {
            &&& entries.contains(name)
            &&& exists|stem: Seq<char>| name == #[trigger] (stem + ".json"@)
            &&& name != "__metadata__.json"@
        },
{
    reveal_strlit(".json");
    let keep = |name: Seq<char>| is_item_name(name);
    let kept = entries.filter(keep);
    let end = ".json"@;
    if is_item_name(name) {
        let stem = name.take(name.len() - 5);
        assert(name == stem + end);
    }
    if exists|stem: Seq<char>| name == #[trigger] (stem + end) {
        let stem = choose|stem: Seq<char>| name == #[trigger] (stem + end);
        assert(name.skip(name.len() - end.len()) == end);
    }
    if kept.contains(name) {
        let i = choose|i: int| 0 <= i < kept.len() && kept[i] == name;
        entries.lemma_filter_pred(keep, i);
        entries.lemma_filter_contains_rev(keep, name);
    }
    if entries.contains(name) && is_item_name(name) {
        let i = choose|i: int| 0 <= i < entries.len() && entries[i] == name;
        entries.lemma_filter_contains(keep, i);
    }
}

/// Files are read in the order of their numbers, each once.
pub proof fn law_files_are_read_by_number(names: Seq<Seq<char>>, sorted: Seq<Seq<char>>)
    requires
        in_item_order(names, sorted),
        names.len() <= usize::MAX,
    ensures
        sorted.len() == names.len(),
        forall|i: int| 0 <= i < names.len() ==> sorted.contains(#[trigger] names[i]),
        forall|i: int| 0 <= i < sorted.len() ==> names.contains(#[trigger] sorted[i]),
        forall|i: int, j: int|
            0 <= i < j < sorted.len() ==> item_number(#[trigger] sorted[i]) <= item_number(
                #[trigger] sorted[j],
            ),
{
    let numbers = item_numbers(names);
    let order = choose|order: Seq<usize>|
        sorts(numbers, order) && sorted == #[trigger] arranged(names, order);
    assert forall|i: int| 0 <= i < names.len() implies sorted.contains(#[trigger] names[i]) by {
        assert(order.contains(i as usize));
        let k = choose|k: int| 0 <= k < order.len() && order[k] == i as usize;
        assert(sorted[k] == names[i]);
    }
    assert forall|i: int| 0 <= i < sorted.len() implies names.contains(#[trigger] sorted[i])
        && sorted[i] == names[order[i] as int] && order[i] < names.len() by {
        assert(order[i] < numbers.len());
        assert(sorted[i] == names[order[i] as int]);
    }
    assert forall|i: int, j: int| 0 <= i < j < sorted.len() implies item_number(
        #[trigger] sorted[i],
    ) <= item_number(#[trigger] sorted[j]) by {
        let p = order[i] as int;
        let q = order[j] as int;
        assert(goes_before(numbers, p, q));
        assert(sorted[i] == names[p] && sorted[j] == names[q]);
        assert(numbers[p] == item_number(names[p]) && numbers[q] == item_number(names[q]));
    }
}

/// The number of a file is what the digits before its end stand for, whatever zeros or
/// plus sign stand before them, as long as 64 bits hold it. A file whose name is no such
/// number has the number zero.
pub proof fn law_numbers_of_files(zeros: nat, n: nat, stem: Seq<char>)
    ensures
        item_number(Seq::new(zeros, |i: int| '0') + decimal(n) + ".json"@) == if n <= u64::MAX {
            n
        } else {
            0
        },
        item_number(seq!['+'] + decimal(n) + ".json"@) == if n <= u64::MAX {
            n
        } else {
            0
        },
        item_number(".json"@) == 0,
        item_number(seq!['+'] + ".json"@) == 0,
        stem.len() > 0 && !('0' <= stem[0] <= '9') && stem[0] != '+' ==> item_number(
            stem + ".json"@,
        ) == 0,
        (exists|i: int| 1 <= i < stem.len() && !('0' <= #[trigger] stem[i] <= '9')) ==> item_number(
            stem + ".json"@,
        ) == 0,
{
    lemma_number_of_digits(zeros, n);
    lemma_number_of_others(stem);
}

proof fn lemma_stem_of(stem: Seq<char>)
    requires
        stem.len() > 0,
    ensures
        item_stem(stem + ".json"@) == stem,
{
    reveal_strlit(".json");
    let name = stem + ".json"@;
    assert(name.take(name.len() - 5) == stem);
}

proof fn lemma_number_of_digits(zeros: nat, n: nat)
    ensures
        item_number(Seq::new(zeros, |i: int| '0') + decimal(n) + ".json"@) == if n <= u64::MAX {
            n
        } else {
            0
        },
        item_number(seq!['+'] + decimal(n) + ".json"@) == if n <= u64::MAX {
            n
        } else {
            0
        },
{
    lemma_decimal(n);
    lemma_leading_zeros(zeros, decimal(n));
    let padded_digits = Seq::new(zeros, |i: int| '0') + decimal(n);
    let signed = seq!['+'] + decimal(n);
    lemma_stem_of(padded_digits);
    lemma_stem_of(signed);
    assert(is_digit(padded_digits[0]));
    assert(without_plus(padded_digits) == padded_digits);
    assert(without_plus(signed) == decimal(n));
}

proof fn lemma_number_of_others(stem: Seq<char>)
    ensures
        item_number(".json"@) == 0,
        item_number(seq!['+'] + ".json"@) == 0,
        stem.len() > 0 && !('0' <= stem[0] <= '9') && stem[0] != '+' ==> item_number(
            stem + ".json"@,
        ) == 0,
        (exists|i: int| 1 <= i < stem.len() && !('0' <= #[trigger] stem[i] <= '9')) ==> item_number(
            stem + ".json"@,
        ) == 0,
{
    assert(item_number(".json"@) == 0) by {
        reveal_strlit(".json");
        assert(item_stem(".json"@) == ".json"@);
        assert(without_plus(".json"@) == ".json"@);
        assert(!is_digit(".json"@[0]));
    }
    assert(item_number(seq!['+'] + ".json"@) == 0) by {
        let sign = seq!['+'];
        lemma_stem_of(sign);
        assert(without_plus(sign) == Seq::<char>::empty());
    }
    if stem.len() > 0 {
        lemma_stem_of(stem);
        let digits = without_plus(stem);
        if !('0' <= stem[0] <= '9') && stem[0] != '+' {
            assert(!is_digit(digits[0]));
        }
        if exists|i: int| 1 <= i < stem.len() && !('0' <= #[trigger] stem[i] <= '9') {
            let i = choose|i: int| 1 <= i < stem.len() && !('0' <= #[trigger] stem[i] <= '9');
            if stem[0] == '+' {
                assert(digits[i - 1] == stem[i]);
                assert(!is_digit(digits[i - 1]));
            } else {
                assert(!is_digit(digits[i]));
            }
        }
    }
}

/// The files of items are found one by one, in the order of the directory: a name that
/// ends as those of items do, and is not that of the description, adds itself, and any
/// other adds nothing.
pub proof fn law_files_of_items_are_found_one_by_one(entries: Seq<Seq<char>>, name: Seq<char>)
    ensures
        item_files(Seq::empty()).len() == 0,
        item_files(entries.push(name)) == if name != "__metadata__.json"@ && (
        exists|stem: Seq<char>| name == #[trigger] (stem + ".json"@)) {
            item_files(entries).push(name)
        } else {
            item_files(entries)
        },
{
    let keep = |name: Seq<char>| is_item_name(name);
    let none = Seq::<Seq<char>>::empty();
    assert(none.filter(keep) == none) by {
        reveal(Seq::filter);
    }
    entries.lemma_filter_push(name, keep);
    reveal_strlit(".json");
    let end = ".json"@;
    if is_item_name(name) {
        let stem = name.take(name.len() - 5);
        assert(name == stem + end);
    }
    if exists|stem: Seq<char>| name == #[trigger] (stem + end) {
        let stem = choose|stem: Seq<char>| name == #[trigger] (stem + end);
        assert(name.skip(name.len() - end.len()) == end);
    }
}

} // verus!
