//! Ordered maps and sets keyed by raw identifiers.
use vstd::prelude::*;

verus! {

/// A map from raw identifiers, kept in ascending order of the keys.
#[derive(Debug)]
pub struct IdMap<V> {
    entries: Vec<(u128, V)>,
}

spec fn ascending<V>(entries: Seq<(u128, V)>) -> bool {
    forall|i: int, j: int| 0 <= i < j < entries.len() ==> (#[trigger] entries[i]).0 < (
    #[trigger] entries[j]).0
}

spec fn holds_key<V>(entries: Seq<(u128, V)>, key: u128) -> bool {
    exists|i: int| 0 <= i < entries.len() && (#[trigger] entries[i]).0 == key
}

spec fn key_index<V>(entries: Seq<(u128, V)>, key: u128) -> int {
    choose|i: int| 0 <= i < entries.len() && (#[trigger] entries[i]).0 == key
}

spec fn contents<V>(entries: Seq<(u128, V)>) -> Map<u128, V> {
    Map::new(|key: u128| holds_key(entries, key), |key: u128| entries[key_index(entries, key)].1)
}

proof fn lemma_entry<V>(entries: Seq<(u128, V)>, i: int)
    requires
        ascending(entries),
        0 <= i < entries.len(),
    ensures
        contents(entries).contains_key(entries[i].0),
        contents(entries)[entries[i].0] == entries[i].1,
{
    let key = entries[i].0;
    assert(holds_key(entries, key));
    let j = key_index(entries, key);
    assert(0 <= j < entries.len() && entries[j].0 == key);
    if j < i {
        assert(entries[j].0 < entries[i].0);
    } else if i < j {
        assert(entries[i].0 < entries[j].0);
    }
}

/// Whether `keys` walks the whole of `map`, each key once, in ascending order.
pub open spec fn is_walk<V>(keys: Seq<u128>, map: Map<u128, V>) -> bool {
    &&& forall|i: int, j: int| 0 <= i < j < keys.len() ==> #[trigger] keys[i] < #[trigger] keys[j]
    &&& forall|i: int| 0 <= i < keys.len() ==> map.contains_key(#[trigger] keys[i])
    &&& forall|key: u128| #[trigger] map.contains_key(key) ==> keys.contains(key)
}

impl<V> View for IdMap<V> {
    type V = Map<u128, V>;

    closed spec fn view(&self) -> Map<u128, V> {
        contents(self.entries@)
    }
}

impl<V> IdMap<V> {
    #[verifier::type_invariant]
    spec fn wf(&self) -> bool {
        ascending(self.entries@)
    }

    /// The keys in the order in which they are walked.
    pub closed spec fn keys(&self) -> Seq<u128> {
        self.entries@.map_values(|entry: (u128, V)| entry.0)
    }

    /// A map has no more entries than a list can hold.
    pub proof fn lemma_countable(&self)
        ensures
            self.keys().len() <= usize::MAX,
    {
        assert(self.entries@.len() == self.entries.len());
    }

    pub fn new() -> (map: IdMap<V>)
        ensures
            map@ == Map::<u128, V>::empty(),
            map.keys() == Seq::<u128>::empty(),
    {
        let map = IdMap { entries: Vec::new() };
        assert(map@ =~= Map::<u128, V>::empty());
        assert(map.keys() =~= Seq::<u128>::empty());
        map
    }

    pub fn len(&self) -> (len: usize)
        ensures
            len == self.keys().len(),
            is_walk(self.keys(), self@),
    {
        proof {
            use_type_invariant(self);
            assert forall|i: int| 0 <= i < self.keys().len() implies self@.contains_key(
                #[trigger] self.keys()[i],
            ) by {
                lemma_entry(self.entries@, i);
            }
            assert forall|key: u128| #[trigger] self@.contains_key(key) implies self.keys().contains(
                key,
            ) by {
                let i = key_index(self.entries@, key);
                assert(self.keys()[i] == key);
            }
        }
        self.entries.len()
    }

    pub fn is_empty(&self) -> (empty: bool)
        ensures
            empty == (self.keys().len() == 0),
            empty == (self@ == Map::<u128, V>::empty()),
    {
        let empty = self.entries.len() == 0;
        proof {
            use_type_invariant(self);
            if empty {
                assert(self@ =~= Map::<u128, V>::empty());
            } else {
                lemma_entry(self.entries@, 0);
            }
        }
        empty
    }

    /// The entry at a place of the walk.
    pub fn entry_at(&self, index: usize) -> (entry: (u128, &V))
        requires
            index < self.keys().len(),
        ensures
            entry.0 == self.keys()[index as int],
            self@.contains_key(entry.0),
            *entry.1 == self@[entry.0],
    {
        proof {
            use_type_invariant(self);
            lemma_entry(self.entries@, index as int);
        }
        let entry = &self.entries[index];
        (entry.0, &entry.1)
    }

    fn lower_bound(&self, key: u128) -> (index: usize)
        ensures
            index <= self.entries@.len(),
            forall|i: int| 0 <= i < index ==> (#[trigger] self.entries@[i]).0 < key,
            forall|i: int| index <= i < self.entries@.len() ==> (#[trigger] self.entries@[i]).0
                >= key,
    {
        proof {
            use_type_invariant(self);
        }
        let mut low: usize = 0;
        let mut high: usize = self.entries.len();
        while low < high
            invariant
                low <= high <= self.entries@.len(),
                ascending(self.entries@),
                forall|i: int| 0 <= i < low ==> (#[trigger] self.entries@[i]).0 < key,
                forall|i: int| high <= i < self.entries@.len() ==> (#[trigger] self.entries@[i]).0
                    >= key,
            decreases high - low,
        {
            let middle: usize = low + (high - low) / 2;
            if self.entries[middle].0 < key {
                low = middle + 1;
            } else {
                high = middle;
            }
        }
        low
    }

    pub fn contains_key(&self, key: u128) -> (found: bool)
        ensures
            found == self@.contains_key(key),
    {
        self.get(key).is_some()
    }

    pub fn get(&self, key: u128) -> (found: Option<&V>)
        ensures
            found is Some <==> self@.contains_key(key),
            found matches Some(value) ==> *value == self@[key],
    {
        let index: usize = self.lower_bound(key);
        if index < self.entries.len() && self.entries[index].0 == key {
            proof {
                use_type_invariant(self);
                lemma_entry(self.entries@, index as int);
            }
            Some(&self.entries[index].1)
        } else {
            proof {
                use_type_invariant(self);
                assert(!holds_key(self.entries@, key));
            }
            None
        }
    }

    /// Puts `value` under `key` and hands back what stood there.
    pub fn insert(&mut self, key: u128, value: V) -> (previous: Option<V>)
        ensures
            final(self)@ == old(self)@.insert(key, value),
            previous is Some <==> old(self)@.contains_key(key),
            final(self).keys().len() == old(self).keys().len() + if old(self)@.contains_key(key) {
                0int
            } else {
                1int
            },
            previous matches Some(before) ==> before == old(self)@[key],
    {
        proof {
            use_type_invariant(&*self);
        }
        let ghost before = self.entries@;
        let index: usize = self.lower_bound(key);
        let found = index < self.entries.len() && self.entries[index].0 == key;
        let mut entries: Vec<(u128, V)> = Vec::new();
        core::mem::swap(&mut self.entries, &mut entries);
        if found {
            proof {
                lemma_entry(before, index as int);
            }
            let (_, previous) = entries.remove(index);
            entries.insert(index, (key, value));
            proof {
                let after = entries@;
                assert(after =~= before.update(index as int, (key, value)));
                lemma_replaced(before, after, index as int, key, value);
            }
            *self = IdMap { entries };
            Some(previous)
        } else {
            entries.insert(index, (key, value));
            proof {
                let after = entries@;
                assert(after =~= before.insert(index as int, (key, value)));
                lemma_inserted(before, after, index as int, key, value);
            }
            *self = IdMap { entries };
            None
        }
    }

    /// Takes out what stands under `key`.
    pub fn remove(&mut self, key: u128) -> (removed: Option<V>)
        ensures
            final(self)@ == old(self)@.remove(key),
            removed is Some <==> old(self)@.contains_key(key),
            removed matches Some(before) ==> before == old(self)@[key],
    {
        proof {
            use_type_invariant(&*self);
        }
        let ghost before = self.entries@;
        let index: usize = self.lower_bound(key);
        let found = index < self.entries.len() && self.entries[index].0 == key;
        let mut entries: Vec<(u128, V)> = Vec::new();
        core::mem::swap(&mut self.entries, &mut entries);
        if found {
            proof {
                lemma_entry(before, index as int);
            }
            let (_, removed) = entries.remove(index);
            proof {
                lemma_removed(before, entries@, index as int);
            }
            *self = IdMap { entries };
            Some(removed)
        } else {
            proof {
                assert(!holds_key(before, key));
                assert(contents(before).remove(key) =~= contents(before));
            }
            *self = IdMap { entries };
            None
        }
    }

    /// The largest key.
    pub fn max_key(&self) -> (key: Option<u128>)
        ensures
            key is None <==> self@ == Map::<u128, V>::empty(),
            key matches Some(max) ==> self@.contains_key(max) && forall|other: u128| #[trigger]
                self@.contains_key(other) ==> other <= max,
    {
        proof {
            use_type_invariant(self);
        }
        let count: usize = self.len();
        if self.is_empty() {
            None
        } else {
            let (key, _) = self.entry_at(count - 1);
            proof {
                let keys = self.keys();
                assert forall|other: u128| #[trigger] self@.contains_key(other) implies other
                    <= key by {
                    let i = keys.index_of(other);
                    assert(keys.contains(other));
                    assert(keys[i] == other);
                }
            }
            Some(key)
        }
    }

    /// Takes out every entry whose key is not in a set.
    pub fn retain_keys(&mut self, keep: &IdMap<()>)
        ensures
            forall|key: u128| #[trigger]
                final(self)@.contains_key(key) <==> old(self)@.contains_key(key)
                    && keep@.contains_key(key),
            forall|key: u128| #[trigger]
                final(self)@.contains_key(key) ==> final(self)@[key] == old(self)@[key],
    {
        let mut dropped: Vec<u128> = Vec::new();
        let count: usize = self.len();
        let ghost keys = self.keys();
        let mut next: usize = 0;
        while next < count
            invariant
                next <= count,
                count == keys.len(),
                *self == *old(self),
                keys == self.keys(),
                is_walk(keys, self@),
                forall|key: u128|
                    dropped@.contains(key) <==> exists|i: int|
                        0 <= i < next && #[trigger] keys[i] == key && !keep@.contains_key(key),
            decreases count - next,
        {
            let (key, _) = self.entry_at(next);
            let ghost then = dropped@;
            if !keep.contains_key(key) {
                dropped.push(key);
            }
            proof {
                assert forall|k: u128|
                    dropped@.contains(k) <==> exists|i: int|
                        0 <= i < next + 1 && #[trigger] keys[i] == k && !keep@.contains_key(
                            k,
                        ) by {
                    if dropped@.contains(k) {
                        let at = dropped@.index_of(k);
                        if at < then.len() {
                            assert(then[at] == k);
                            assert(then.contains(k));
                            let i = choose|i: int|
                                0 <= i < next && #[trigger] keys[i] == k && !keep@.contains_key(k);
                            assert(keys[i] == k);
                        } else {
                            assert(keys[next as int] == k);
                        }
                    }
                    if exists|i: int|
                        0 <= i < next + 1 && #[trigger] keys[i] == k && !keep@.contains_key(k) {
                        let i = choose|i: int|
                            0 <= i < next + 1 && #[trigger] keys[i] == k && !keep@.contains_key(
                                k,
                            );
                        if i < next {
                            assert(then.contains(k));
                            let at = then.index_of(k);
                            assert(dropped@[at] == k);
                        } else {
                            assert(dropped@[dropped@.len() - 1] == k);
                        }
                    }
                }
            }
            next = next + 1;
        }
        let mut gone: usize = 0;
        while gone < dropped.len()
            invariant
                gone <= dropped@.len(),
                forall|key: u128| #[trigger]
                    self@.contains_key(key) <==> old(self)@.contains_key(key)
                        && !dropped@.take(gone as int).contains(key),
                forall|key: u128| #[trigger]
                    self@.contains_key(key) ==> self@[key] == old(self)@[key],
            decreases dropped@.len() - gone,
        {
            self.remove(dropped[gone]);
            proof {
                let more = dropped@.take(gone + 1);
                assert(more =~= dropped@.take(gone as int).push(dropped@[gone as int]));
                assert forall|key: u128| more.contains(key) <==> dropped@.take(
                    gone as int,
                ).contains(key) || key == dropped@[gone as int] by {
                    if dropped@.take(gone as int).contains(key) {
                        let at = dropped@.take(gone as int).index_of(key);
                        assert(more[at] == key);
                    }
                    if key == dropped@[gone as int] {
                        assert(more[gone as int] == key);
                    }
                }
            }
            gone = gone + 1;
        }
        proof {
            assert(dropped@.take(gone as int) =~= dropped@);
            assert forall|key: u128| #[trigger]
                self@.contains_key(key) <==> old(self)@.contains_key(key) && keep@.contains_key(
                    key,
                ) by {
                if old(self)@.contains_key(key) && !keep@.contains_key(key) {
                    assert(keys.contains(key));
                    let i = keys.index_of(key);
                    assert(keys[i] == key);
                    assert(dropped@.contains(key));
                }
                if dropped@.contains(key) {
                    assert(!keep@.contains_key(key));
                }
            }
        }
    }
}

proof fn lemma_replaced<V>(
    before: Seq<(u128, V)>,
    after: Seq<(u128, V)>,
    index: int,
    key: u128,
    value: V,
)
    requires
        ascending(before),
        0 <= index < before.len(),
        before[index].0 == key,
        after == before.update(index, (key, value)),
    ensures
        ascending(after),
        contents(after) == contents(before).insert(key, value),
{
    assert forall|k: u128| holds_key(after, k) == holds_key(before, k) by {
        if holds_key(before, k) {
            let i = key_index(before, k);
            assert(after[i].0 == k);
        }
        if holds_key(after, k) {
            let i = key_index(after, k);
            assert(before[i].0 == k);
        }
    }
    lemma_entry(before, index);
    assert forall|k: u128| holds_key(after, k) implies contents(after)[k] == contents(before).insert(
        key,
        value,
    )[k] by {
        let i = key_index(after, k);
        lemma_entry(after, i);
        lemma_entry(before, i);
        lemma_entry(after, index);
    }
    assert(contents(after) =~= contents(before).insert(key, value));
}

proof fn lemma_inserted<V>(
    before: Seq<(u128, V)>,
    after: Seq<(u128, V)>,
    index: int,
    key: u128,
    value: V,
)
    requires
        ascending(before),
        0 <= index <= before.len(),
        forall|i: int| 0 <= i < index ==> (#[trigger] before[i]).0 < key,
        forall|i: int| index <= i < before.len() ==> (#[trigger] before[i]).0 > key,
        after == before.insert(index, (key, value)),
    ensures
        ascending(after),
        !contents(before).contains_key(key),
        contents(after) == contents(before).insert(key, value),
{
    assert forall|i: int, j: int| 0 <= i < j < after.len() implies (#[trigger] after[i]).0 < (
    #[trigger] after[j]).0 by {
        let bi = if i < index { i } else { i - 1 };
        let bj = if j < index { j } else { j - 1 };
        if i != index && j != index {
            assert(before[bi].0 < before[bj].0);
        }
    }
    assert forall|k: u128| holds_key(after, k) == (k == key || holds_key(before, k)) by {
        assert(after[index].0 == key);
        if holds_key(before, k) {
            let i = key_index(before, k);
            assert(after[if i < index { i } else { i + 1 }].0 == k);
        }
        if holds_key(after, k) && k != key {
            let i = key_index(after, k);
            assert(before[if i < index { i } else { i - 1 }].0 == k);
        }
    }
    assert forall|k: u128| holds_key(after, k) implies contents(after)[k] == contents(before).insert(
        key,
        value,
    )[k] by {
        let i = key_index(after, k);
        lemma_entry(after, i);
        if i != index {
            lemma_entry(before, if i < index { i } else { i - 1 });
            assert(after[i].0 != key) by {
                if i < index {
                    assert(before[i].0 < key);
                } else {
                    assert(before[i - 1].0 > key);
                }
            }
        }
    }
    assert(contents(after) =~= contents(before).insert(key, value));
}

proof fn lemma_removed<V>(before: Seq<(u128, V)>, after: Seq<(u128, V)>, index: int)
    requires
        ascending(before),
        0 <= index < before.len(),
        after == before.remove(index),
    ensures
        ascending(after),
        contents(after) == contents(before).remove(before[index].0),
{
    let key = before[index].0;
    assert forall|i: int, j: int| 0 <= i < j < after.len() implies (#[trigger] after[i]).0 < (
    #[trigger] after[j]).0 by {
        let bi = if i < index { i } else { i + 1 };
        let bj = if j < index { j } else { j + 1 };
        assert(before[bi].0 < before[bj].0);
    }
    assert forall|k: u128| holds_key(after, k) == (k != key && holds_key(before, k)) by {
        if holds_key(after, k) {
            let i = key_index(after, k);
            let bi = if i < index { i } else { i + 1 };
            assert(before[bi].0 == k);
            if bi < index {
                assert(before[bi].0 < before[index].0);
            } else {
                assert(before[index].0 < before[bi].0);
            }
        }
        if holds_key(before, k) && k != key {
            let i = key_index(before, k);
            assert(after[if i < index { i } else { i - 1 }].0 == k);
        }
    }
    assert forall|k: u128| holds_key(after, k) implies contents(after)[k] == contents(before)[k] by {
        let i = key_index(after, k);
        lemma_entry(after, i);
        lemma_entry(before, if i < index { i } else { i + 1 });
    }
    assert(contents(after) =~= contents(before).remove(key));
}

} // verus!
