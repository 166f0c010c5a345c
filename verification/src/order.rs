//! Orders on sort keys, and a stable sort by them.

use vstd::prelude::*;

use crate::text::chars_of;

verus! {

/// Whether `a` comes before `b` in the order of code points, which is also the
/// order of their UTF-8 bytes.
pub open spec fn text_lt(a: Seq<char>, b: Seq<char>) -> bool
    decreases a.len(),
{
    if b.len() == 0 {
        false
    } else if a.len() == 0 {
        true
    } else if a[0] == b[0] {
        text_lt(a.skip(1), b.skip(1))
    } else {
        a[0] < b[0]
    }
}

pub proof fn lemma_text_lt_irreflexive(a: Seq<char>)
    ensures
        !text_lt(a, a),
    decreases a.len(),
{
    if a.len() > 0 {
        lemma_text_lt_irreflexive(a.skip(1));
    }
}

pub proof fn lemma_text_lt_transitive(a: Seq<char>, b: Seq<char>, c: Seq<char>)
    requires
        text_lt(a, b),
        text_lt(b, c),
    ensures
        text_lt(a, c),
    decreases a.len(),
{
    if a.len() > 0 && a[0] == b[0] && b[0] == c[0] {
        lemma_text_lt_transitive(a.skip(1), b.skip(1), c.skip(1));
    }
}

pub proof fn lemma_text_lt_total(a: Seq<char>, b: Seq<char>)
    ensures
        text_lt(a, b) || text_lt(b, a) || a == b,
    decreases a.len(),
{
    if a.len() > 0 && b.len() > 0 && a[0] == b[0] {
        lemma_text_lt_total(a.skip(1), b.skip(1));
        if a.skip(1) == b.skip(1) {
            assert(a == seq![a[0]] + a.skip(1));
            assert(b == seq![b[0]] + b.skip(1));
        }
    } else if a.len() == 0 && b.len() == 0 {
        assert(a == b);
    }
}

/// Whether `a` comes before `b`.
pub fn str_lt(a: &str, b: &str) -> (r: bool)
    ensures
        r == text_lt(a@, b@),
{
    let x = chars_of(a);
    let y = chars_of(b);
    let mut i: usize = 0;
    assert(x@.skip(0) == x@);
    assert(y@.skip(0) == y@);
    while i < x.len() && i < y.len() && x[i] == y[i]
        invariant
            i <= x@.len(),
            i <= y@.len(),
            text_lt(x@, y@) == text_lt(x@.skip(i as int), y@.skip(i as int)),
        decreases x@.len() - i,
    {
        assert(x@.skip(i as int).skip(1) == x@.skip(i + 1));
        assert(y@.skip(i as int).skip(1) == y@.skip(i + 1));
        i = i + 1;
    }
    if i >= y.len() {
        false
    } else if i >= x.len() {
        true
    } else {
        x[i] < y[i]
    }
}

/// A strict order on sort keys in which any two keys that are not equal in rank
/// can be compared.
pub trait SortKey: Sized {
    /// Whether `self` ranks before `other`.
    spec fn ranks_before(self, other: Self) -> bool;

    /// Whether `self` ranks before `other`.
    fn before(&self, other: &Self) -> (r: bool)
        ensures
            r == self.ranks_before(*other),
    ;

    /// Nothing ranks both before and after another key.
    proof fn lemma_asymmetric(a: Self, b: Self)
        ensures
            a.ranks_before(b) ==> !b.ranks_before(a),
    ;

    /// What ranks before a key ranks before all that do not rank before that key.
    proof fn lemma_chain(a: Self, b: Self, c: Self)
        ensures
            a.ranks_before(b) && !c.ranks_before(b) ==> a.ranks_before(c),
            !b.ranks_before(a) && b.ranks_before(c) ==> a.ranks_before(c),
    ;
}

impl SortKey for String {
    open spec fn ranks_before(self, other: Self) -> bool {
        text_lt(self@, other@)
    }

    fn before(&self, other: &Self) -> (r: bool) {
        str_lt(self.as_str(), other.as_str())
    }

    proof fn lemma_asymmetric(a: Self, b: Self) {
        lemma_text_lt_irreflexive(a@);
        if text_lt(a@, b@) && text_lt(b@, a@) {
            lemma_text_lt_transitive(a@, b@, a@);
        }
    }

    proof fn lemma_chain(a: Self, b: Self, c: Self) {
        lemma_text_lt_total(b@, c@);
        lemma_text_lt_total(a@, b@);
        if text_lt(a@, b@) && text_lt(b@, c@) {
            lemma_text_lt_transitive(a@, b@, c@);
        }
    }
}

impl SortKey for u64 {
    open spec fn ranks_before(self, other: Self) -> bool {
        self < other
    }

    fn before(&self, other: &Self) -> (r: bool) {
        *self < *other
    }

    proof fn lemma_asymmetric(a: Self, b: Self) {
    }

    proof fn lemma_chain(a: Self, b: Self, c: Self) {
    }
}

impl SortKey for i64 {
    open spec fn ranks_before(self, other: Self) -> bool {
        self < other
    }

    fn before(&self, other: &Self) -> (r: bool) {
        *self < *other
    }

    proof fn lemma_asymmetric(a: Self, b: Self) {
    }

    proof fn lemma_chain(a: Self, b: Self, c: Self) {
    }
}

/// A number of which the largest ranks first.
pub struct Descending(pub i64);

impl SortKey for Descending {
    open spec fn ranks_before(self, other: Self) -> bool {
        self.0 > other.0
    }

    fn before(&self, other: &Self) -> (r: bool) {
        self.0 > other.0
    }

    proof fn lemma_asymmetric(a: Self, b: Self) {
    }

    proof fn lemma_chain(a: Self, b: Self, c: Self) {
    }
}

/// Whether position `i` of the input goes before position `j` in a stable sort:
/// by rank first, and in the order of the input among equals.
pub open spec fn goes_before<K: SortKey>(keys: Seq<K>, i: int, j: int) -> bool {
    keys[i].ranks_before(keys[j]) || (!keys[j].ranks_before(keys[i]) && i < j)
}

/// Whether `order` lists the positions of `keys` in the order of a stable sort:
/// each position once. There is exactly one such list.
pub open spec fn sorts<K: SortKey>(keys: Seq<K>, order: Seq<usize>) -> bool {
    &&& order.len() == keys.len()
    &&& forall|i: int| 0 <= i < order.len() ==> (#[trigger] order[i]) < keys.len()
    &&& forall|a: int, b: int|
        0 <= a < b < order.len() ==> goes_before(
            keys,
            #[trigger] order[a] as int,
            #[trigger] order[b] as int,
        )
    &&& forall|k: usize| k < keys.len() ==> #[trigger] order.contains(k)
}

proof fn lemma_goes_before_transitive<K: SortKey>(keys: Seq<K>, i: int, j: int, k: int)
    requires
        goes_before(keys, i, j),
        goes_before(keys, j, k),
    ensures
        goes_before(keys, i, k),
{
    K::lemma_chain(keys[i], keys[j], keys[k]);
    K::lemma_chain(keys[k], keys[j], keys[i]);
    K::lemma_chain(keys[j], keys[k], keys[i]);
    K::lemma_chain(keys[k], keys[i], keys[j]);
    K::lemma_asymmetric(keys[i], keys[j]);
    K::lemma_asymmetric(keys[j], keys[k]);
    K::lemma_asymmetric(keys[i], keys[k]);
}

proof fn lemma_goes_before_asymmetric<K: SortKey>(keys: Seq<K>, i: int, j: int)
    requires
        goes_before(keys, i, j),
    ensures
        !goes_before(keys, j, i),
{
    K::lemma_asymmetric(keys[i], keys[j]);
    K::lemma_asymmetric(keys[j], keys[i]);
}

/// There is only one stable order of a list.
pub proof fn law_stable_order_is_unique<K: SortKey>(
    keys: Seq<K>,
    x: Seq<usize>,
    y: Seq<usize>,
)
    requires
        sorts(keys, x),
        sorts(keys, y),
    ensures
        x == y,
{
    assert forall|n: int| 0 <= n <= x.len() implies x.take(n) == y.take(n) by {
        lemma_common_prefix(keys, x, y, n);
    }
    assert(x.take(x.len() as int) == x);
    assert(y.take(x.len() as int) == y);
}

proof fn lemma_common_prefix<K: SortKey>(keys: Seq<K>, x: Seq<usize>, y: Seq<usize>, n: int)
    requires
        sorts(keys, x),
        sorts(keys, y),
        0 <= n <= x.len(),
    ensures
        x.take(n) == y.take(n),
    decreases n,
{
    if n > 0 {
        lemma_common_prefix(keys, x, y, n - 1);
        let m = n - 1;
        assert(x.take(m) == y.take(m));
        lemma_next_not_later(keys, x, y, m);
        lemma_next_not_later(keys, y, x, m);
        if x[m] != y[m] {
            lemma_goes_before_asymmetric(keys, x[m] as int, y[m] as int);
        }
        assert(x.take(n) == x.take(m).push(x[m]));
        assert(y.take(n) == y.take(m).push(y[m]));
    }
}

proof fn lemma_next_not_later<K: SortKey>(keys: Seq<K>, x: Seq<usize>, y: Seq<usize>, m: int)
    requires
        sorts(keys, x),
        sorts(keys, y),
        0 <= m < x.len(),
        x.take(m) == y.take(m),
    ensures
        x[m] == y[m] || goes_before(keys, x[m] as int, y[m] as int),
{
    assert(x.contains(y[m]));
    let p = choose|p: int| 0 <= p < x.len() && x[p] == y[m];
    if p < m {
        assert(x.take(m)[p] == x[p]);
        assert(y.take(m)[p] == y[p]);
        assert(y[p] == y[m]);
        assert(goes_before(keys, y[p] as int, y[m] as int));
        lemma_goes_before_asymmetric(keys, y[p] as int, y[m] as int);
    }
}

/// A stable order names no position twice.
pub proof fn lemma_order_distinct<K: SortKey>(keys: Seq<K>, order: Seq<usize>)
    requires
        sorts(keys, order),
    ensures
        forall|a: int, b: int|
            0 <= a < b < order.len() ==> #[trigger] order[a] != #[trigger] order[b],
{
    assert forall|a: int, b: int| 0 <= a < b < order.len() implies #[trigger] order[a]
        != #[trigger] order[b] by {
        lemma_goes_before_asymmetric(keys, order[a] as int, order[b] as int);
    }
}

/// Whether `order` lists the positions from `lo` to `hi` of `keys` in the order
/// of a stable sort.
spec fn sorts_range<K: SortKey>(keys: Seq<K>, lo: int, hi: int, order: Seq<usize>) -> bool {
    &&& order.len() == hi - lo
    &&& forall|i: int| 0 <= i < order.len() ==> lo <= (#[trigger] order[i]) < hi
    &&& forall|a: int, b: int|
        0 <= a < b < order.len() ==> goes_before(
            keys,
            #[trigger] order[a] as int,
            #[trigger] order[b] as int,
        )
    &&& forall|k: usize| lo <= k < hi ==> #[trigger] order.contains(k)
}

fn position_before<K: SortKey>(keys: &[K], i: usize, j: usize) -> (r: bool)
    requires
        i < keys@.len(),
        j < keys@.len(),
    ensures
        r == goes_before(keys@, i as int, j as int),
{
    keys[i].before(&keys[j]) || (!keys[j].before(&keys[i]) && i < j)
}

fn merge<K: SortKey>(
    keys: &[K],
    Ghost(lo): Ghost<int>,
    Ghost(mid): Ghost<int>,
    Ghost(hi): Ghost<int>,
    left: &Vec<usize>,
    right: &Vec<usize>,
) -> (r: Vec<usize>)
    requires
        0 <= lo <= mid <= hi <= keys@.len(),
        sorts_range(keys@, lo, mid, left@),
        sorts_range(keys@, mid, hi, right@),
    ensures
        sorts_range(keys@, lo, hi, r@),
{
    let mut out: Vec<usize> = Vec::new();
    let mut i: usize = 0;
    let mut j: usize = 0;
    while i < left.len() || j < right.len()
        invariant
            0 <= lo <= mid <= hi <= keys@.len(),
            sorts_range(keys@, lo, mid, left@),
            sorts_range(keys@, mid, hi, right@),
            i <= left@.len(),
            j <= right@.len(),
            out@.len() == i + j,
            forall|k: int| 0 <= k < out@.len() ==> lo <= (#[trigger] out@[k]) < hi,
            forall|a: int, b: int|
                0 <= a < b < out@.len() ==> goes_before(
                    keys@,
                    #[trigger] out@[a] as int,
                    #[trigger] out@[b] as int,
                ),
            forall|a: int, b: int|
                0 <= a < out@.len() && i <= b < left@.len() ==> goes_before(
                    keys@,
                    #[trigger] out@[a] as int,
                    #[trigger] left@[b] as int,
                ),
            forall|a: int, b: int|
                0 <= a < out@.len() && j <= b < right@.len() ==> goes_before(
                    keys@,
                    #[trigger] out@[a] as int,
                    #[trigger] right@[b] as int,
                ),
            forall|k: int| 0 <= k < i ==> out@.contains(#[trigger] left@[k]),
            forall|k: int| 0 <= k < j ==> out@.contains(#[trigger] right@[k]),
        decreases left@.len() - i + right@.len() - j,
    {
        let ghost before = out@;
        let take_left = if i >= left.len() {
            false
        } else if j >= right.len() {
            true
        } else {
            position_before(keys, left[i], right[j])
        };
        let next = if take_left {
            left[i]
        } else {
            right[j]
        };
        proof {
            if take_left && j < right@.len() {
                assert forall|b: int| j <= b < right@.len() implies goes_before(
                    keys@,
                    next as int,
                    #[trigger] right@[b] as int,
                ) by {
                    if b > j {
                        assert(goes_before(keys@, right@[j as int] as int, right@[b] as int));
                        lemma_goes_before_transitive(
                            keys@,
                            next as int,
                            right@[j as int] as int,
                            right@[b] as int,
                        );
                    }
                }
            }
            if !take_left && i < left@.len() {
                let l = left@[i as int];
                K::lemma_asymmetric(keys@[l as int], keys@[next as int]);
                K::lemma_asymmetric(keys@[next as int], keys@[l as int]);
                assert(goes_before(keys@, next as int, l as int));
                assert forall|b: int| i <= b < left@.len() implies goes_before(
                    keys@,
                    next as int,
                    #[trigger] left@[b] as int,
                ) by {
                    if b > i {
                        assert(goes_before(keys@, l as int, left@[b] as int));
                        lemma_goes_before_transitive(
                            keys@,
                            next as int,
                            l as int,
                            left@[b] as int,
                        );
                    }
                }
            }
        }
        out.push(next);
        proof {
            assert(out@ == before.push(next));
            assert(out@[before.len() as int] == next);
            assert forall|x: usize| before.contains(x) implies out@.contains(x) by {
                let p = choose|p: int| 0 <= p < before.len() && before[p] == x;
                assert(out@[p] == x);
            }
        }
        if take_left {
            i = i + 1;
        } else {
            j = j + 1;
        }
    }
    proof {
        assert forall|k: usize| lo <= k < hi implies #[trigger] out@.contains(k) by {
            if k < mid {
                assert(left@.contains(k));
                let p = choose|p: int| 0 <= p < left@.len() && left@[p] == k;
                assert(out@.contains(left@[p]));
            } else {
                assert(right@.contains(k));
                let p = choose|p: int| 0 <= p < right@.len() && right@[p] == k;
                assert(out@.contains(right@[p]));
            }
        }
    }
    out
}

fn sort_range<K: SortKey>(keys: &[K], lo: usize, hi: usize) -> (r: Vec<usize>)
    requires
        lo <= hi <= keys@.len(),
    ensures
        sorts_range(keys@, lo as int, hi as int, r@),
    decreases hi - lo,
{
    if hi - lo <= 1 {
        let mut out: Vec<usize> = Vec::new();
        if lo < hi {
            out.push(lo);
            assert(out@[0] == lo);
        }
        return out;
    }
    let mid: usize = lo + (hi - lo) / 2;
    let left = sort_range(keys, lo, mid);
    let right = sort_range(keys, mid, hi);
    merge(keys, Ghost(lo as int), Ghost(mid as int), Ghost(hi as int), &left, &right)
}

/// The positions of `keys` in the order of a stable sort.
pub fn stable_order<K: SortKey>(keys: &[K]) -> (r: Vec<usize>)
    ensures
        sorts(keys@, r@),
{
    sort_range(keys, 0, keys.len())
}

/// The items at the listed positions.
pub open spec fn arranged<T>(items: Seq<T>, order: Seq<usize>) -> Seq<T> {
    order.map_values(|i: usize| items[i as int])
}

/// Brings the items into the listed order.
pub fn arrange<T>(items: Vec<T>, order: &[usize]) -> (r: Vec<T>)
    requires
        forall|i: int| 0 <= i < order@.len() ==> (#[trigger] order@[i]) < items@.len(),
        forall|a: int, b: int|
            0 <= a < b < order@.len() ==> #[trigger] order@[a] != #[trigger] order@[b],
    ensures
        r@ == arranged(items@, order@),
{
    let ghost all = items@;
    let mut slots: Vec<Option<T>> = Vec::new();
    let mut rest = items;
    let n: usize = rest.len();
    while rest.len() > 0
        invariant
            n == all.len(),
            rest@ == all.take(rest@.len() as int),
            rest@.len() <= n,
            slots@.len() == n - rest@.len(),
            forall|k: int| 0 <= k < slots@.len() ==> slots@[k] == Some(all[n - 1 - k]),
        decreases rest@.len(),
    {
        if let Some(item) = rest.pop() {
            slots.push(Some(item));
        }
    }
    let mut out: Vec<T> = Vec::new();
    let ghost want = arranged(all, order@);
    for p in 0..order.len()
        invariant
            n == all.len() == slots@.len(),
            want == arranged(all, order@),
            forall|i: int| 0 <= i < order@.len() ==> (#[trigger] order@[i]) < n,
            forall|a: int, b: int|
                0 <= a < b < order@.len() ==> #[trigger] order@[a] != #[trigger] order@[b],
            out@ == want.take(p as int),
            forall|q: int|
                p <= q < order@.len() ==> slots@[n - 1 - (#[trigger] order@[q])] == Some(
                    all[order@[q] as int],
                ),
    {
        assert(order@[p as int] < n);
        let at: usize = n - 1 - order[p];
        let mut slot: Option<T> = None;
        slots.set_and_swap(at, &mut slot);
        if let Some(item) = slot {
            out.push(item);
        }
        assert(want.take(p + 1) == want.take(p as int).push(want[p as int]));
    }
    assert(want.take(order@.len() as int) == want);
    out
}

/// A sorted list has every position once. What comes later does not rank before what
/// comes earlier, and where neither ranks before the other they come in the order that
/// they had.
pub proof fn law_sorting_is_stable<K: SortKey>(keys: Seq<K>, order: Seq<usize>, a: int, b: int)
    requires
        sorts(keys, order),
        0 <= a < b < order.len(),
    ensures
        order.len() == keys.len(),
        order[a] != order[b],
        order[a] < keys.len(),
        !keys[order[b] as int].ranks_before(keys[order[a] as int]),
        !keys[order[a] as int].ranks_before(keys[order[b] as int]) ==> order[a] < order[b],
{
    let x = order[a] as int;
    let y = order[b] as int;
    assert(goes_before(keys, x, y));
    K::lemma_asymmetric(keys[x], keys[y]);
}

/// Numbers rank by their size, the smallest first, or the largest first where they
/// descend. Texts rank as they are ordered.
pub proof fn law_ranks_of_keys(a: u64, b: u64, c: i64, d: i64, x: String, y: String)
    ensures
        a.ranks_before(b) <==> a < b,
        c.ranks_before(d) <==> c < d,
        Descending(c).ranks_before(Descending(d)) <==> c > d,
        x.ranks_before(y) <==> text_lt(x@, y@),
{
}

} // verus!
