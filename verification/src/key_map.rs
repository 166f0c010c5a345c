//! A map from text to sequence numbers whose entries can also be listed.

use vstd::hash_map::StringHashMap;
use vstd::hash_set::StringHashSet;
use vstd::prelude::*;

use crate::text::texts;

verus! {

/// A map from keys to sequence numbers. A key may be present without a number.
pub struct KeyMap {
    index: StringHashMap<Option<i64>>,
    /// Every key that is present, and perhaps some that no longer are.
    order: Vec<String>,
}

impl View for KeyMap {
    type V = Map<Seq<char>, Option<i64>>;

    closed spec fn view(&self) -> Map<Seq<char>, Option<i64>> {
        self.index@
    }
}

/// The entries of a list.
pub open spec fn entry_views(v: Seq<(String, Option<i64>)>) -> Seq<(Seq<char>, Option<i64>)> {
    v.map_values(|e: (String, Option<i64>)| (e.0@, e.1))
}

/// The map that a list of entries stands for: the last entry of a key counts.
pub open spec fn map_of(entries: Seq<(Seq<char>, Option<i64>)>) -> Map<Seq<char>, Option<i64>>
    decreases entries.len(),
{
    if entries.len() == 0 {
        Map::empty()
    } else {
        map_of(entries.drop_last()).insert(entries.last().0, entries.last().1)
    }
}

impl KeyMap {
    /// Whether every key can be found by walking the list of keys.
    pub closed spec fn wf(&self) -> bool {
        forall|k: Seq<char>| #[trigger]
            self.index@.dom().contains(k) ==> texts(self.order@).contains(k)
    }

    /// A map without entries.
    pub fn new() -> (r: Self)
        ensures
            r.wf(),
            r@ == Map::<Seq<char>, Option<i64>>::empty(),
    {
        KeyMap { index: StringHashMap::new(), order: Vec::new() }
    }

    /// The map that a list of entries stands for.
    pub fn from_entries(entries: &[(String, Option<i64>)]) -> (r: Self)
        ensures
            r.wf(),
            r@ == map_of(entry_views(entries@)),
    {
        let ghost all = entry_views(entries@);
        let mut out = KeyMap::new();
        for i in 0..entries.len()
            invariant
                all == entry_views(entries@),
                out.wf(),
                out@ == map_of(all.take(i as int)),
        {
            assert(all.take(i + 1).drop_last() == all.take(i as int));
            out.insert(entries[i].0.clone(), entries[i].1);
        }
        assert(all.take(all.len() as int) == all);
        out
    }

    /// Whether a key is present.
    pub fn contains(&self, key: &str) -> (r: bool)
        ensures
            r == self@.dom().contains(key@),
    {
        self.index.contains_key(key)
    }

    /// The number of a key, where it is present with one.
    pub fn number(&self, key: &str) -> (r: Option<i64>)
        ensures
            r == if self@.dom().contains(key@) {
                self@[key@]
            } else {
                None
            },
    {
        match self.index.get(key) {
            Some(n) => *n,
            None => None,
        }
    }

    /// Sets the number of a key.
    pub fn insert(&mut self, key: String, number: Option<i64>)
        requires
            old(self).wf(),
        ensures
            final(self).wf(),
            final(self)@ == old(self)@.insert(key@, number),
    {
        let ghost before = texts(self.order@);
        self.order.push(key.clone());
        self.index.insert(key, number);
        proof {
            let after = texts(self.order@);
            assert(after == before.push(key@));
            assert(after[before.len() as int] == key@);
            assert forall|k: Seq<char>| #[trigger] self.index@.dom().contains(k) implies
                after.contains(k) by {
                if before.contains(k) {
                    let i = choose|i: int| 0 <= i < before.len() && before[i] == k;
                    assert(after[i] == k);
                }
            }
        }
    }

    /// Removes a key.
    pub fn remove(&mut self, key: &str)
        requires
            old(self).wf(),
        ensures
            final(self).wf(),
            final(self)@ == old(self)@.remove(key@),
    {
        self.index.remove(key);
    }

    /// Whether a key is present that is not in `known`.
    pub fn has_key_outside(&self, known: &StringHashSet) -> (r: bool)
        requires
            self.wf(),
        ensures
            r == exists|k: Seq<char>| #[trigger]
                self@.dom().contains(k) && !known@.contains(k),
    {
        for i in 0..self.order.len()
            invariant
                self.wf(),
                forall|j: int|
                    0 <= j < i ==> !(self@.dom().contains(#[trigger] texts(self.order@)[j])
                        && !known@.contains(texts(self.order@)[j])),
        {
            let key = self.order[i].as_str();
            if self.index.contains_key(key) && !known.contains(key) {
                assert(self@.dom().contains(key@) && !known@.contains(key@));
                return true;
            }
        }
        assert forall|k: Seq<char>| #[trigger] self@.dom().contains(k) implies known@.contains(
            k,
        ) by {
            assert(texts(self.order@).contains(k));
            let j = choose|j: int| 0 <= j < texts(self.order@).len() && texts(self.order@)[j] == k;
            assert(self@.dom().contains(texts(self.order@)[j]));
        }
        false
    }

    /// Lists the entries, each key once.
    pub fn entries(&self) -> (r: Vec<(String, Option<i64>)>)
        requires
            self.wf(),
        ensures
            map_of(entry_views(r@)) == self@,
            forall|i: int, j: int|
                0 <= i < j < r@.len() ==> (#[trigger] r@[i]).0@ != (#[trigger] r@[j]).0@,
    {
        let mut seen = StringHashSet::new();
        let mut out: Vec<(String, Option<i64>)> = Vec::new();
        let ghost keys = texts(self.order@);
        for i in 0..self.order.len()
            invariant
                self.wf(),
                keys == texts(self.order@),
                map_of(entry_views(out@)) == self@.restrict(seen@),
                forall|j: int| 0 <= j < out@.len() ==> seen@.contains((#[trigger] out@[j]).0@),
                forall|k: int|
                    0 <= k < i && self@.dom().contains(#[trigger] keys[k]) ==> seen@.contains(
                        keys[k],
                    ),
                forall|a: int, b: int|
                    0 <= a < b < out@.len() ==> (#[trigger] out@[a]).0@ != (#[trigger] out@[b]).0@,
        {
            let key = &self.order[i];
            let ghost before = out@;
            let ghost seen_before = seen@;
            if let Some(number) = self.index.get(key.as_str()) {
                if seen.insert(key.clone()) {
                    out.push((key.clone(), *number));
                    proof {
                        let view = (key@, *number);
                        assert(entry_views(out@) == entry_views(before).push(view));
                        assert(entry_views(out@).drop_last() == entry_views(before));
                        assert(self@.restrict(seen@) == self@.restrict(seen_before).insert(
                            key@,
                            *number,
                        ));
                    }
                }
            }
        }
        proof {
            assert forall|k: Seq<char>| self@.dom().contains(k) implies seen@.contains(k) by {
                assert(keys.contains(k));
                let j = choose|j: int| 0 <= j < keys.len() && keys[j] == k;
                assert(self@.dom().contains(keys[j]));
            }
            assert(self@.restrict(seen@) == self@);
        }
        out
    }
}

} // verus!
