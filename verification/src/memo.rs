//! The table behind a process-wide memoized call site.
//!
//! Each entry pairs a key with its slot: a load that is still running, which
//! later callers with the same key join instead of starting their own, or the
//! value it produced, which later callers receive as it is. Keys are compared
//! with their `==`; what the table promises about lookups holds for key types
//! whose `==` is equality.
use vstd::prelude::*;

verus! {

/// What one entry of a memo table holds.
#[derive(Debug, Clone)]
pub enum MemoSlot<V, S> {
    /// A load is running; callers share it.
    Loading(S),
    /// The load completed with this value.
    Ready(V),
}

/// One entry: a key and its slot.
pub type MemoEntry<K, V, S> = (K, MemoSlot<V, S>);

/// The index of the first entry with `key`, or -1 when there is none.
pub open spec fn key_index<K, V, S>(e: Seq<MemoEntry<K, V, S>>, key: K) -> int
    decreases e.len(),
{
    if e.len() == 0 {
        -1
    } else {
        let j = key_index(e.drop_last(), key);
        if j >= 0 {
            j
        } else if e.last().0 == key {
            e.len() - 1
        } else {
            -1
        }
    }
}

/// The slot a lookup of `key` finds.
pub open spec fn lookup_spec<K, V, S>(e: Seq<MemoEntry<K, V, S>>, key: K) -> Option<MemoSlot<V, S>> {
    let i = key_index(e, key);
    if i >= 0 {
        Some(e[i].1)
    } else {
        None
    }
}

/// The table after a load for `key` starts.
pub open spec fn start_spec<K, V, S>(e: Seq<MemoEntry<K, V, S>>, key: K, load: S) -> Seq<
    MemoEntry<K, V, S>,
> {
    e.push((key, MemoSlot::Loading(load)))
}

/// The table after the load for `key` completes with `value`: the entry of
/// `key` becomes ready; without one, nothing changes.
pub open spec fn finish_spec<K, V, S>(e: Seq<MemoEntry<K, V, S>>, key: K, value: V) -> Seq<
    MemoEntry<K, V, S>,
> {
    let i = key_index(e, key);
    if i >= 0 {
        e.update(i, (e[i].0, MemoSlot::Ready(value)))
    } else {
        e
    }
}

/// `key_index` finds the first entry whose key is `key`.
pub proof fn lemma_key_index<K, V, S>(e: Seq<MemoEntry<K, V, S>>, key: K)
    ensures
        -1 <= key_index(e, key) < e.len(),
        key_index(e, key) >= 0 ==> e[key_index(e, key)].0 == key,
        forall|j: int| 0 <= j < e.len() && j < key_index(e, key) ==> #[trigger] e[j].0 != key,
        key_index(e, key) == -1 ==> forall|j: int| 0 <= j < e.len() ==> #[trigger] e[j].0 != key,
    decreases e.len(),
{
    if e.len() > 0 {
        let d = e.drop_last();
        lemma_key_index(d, key);
        assert forall|j: int| 0 <= j < d.len() implies d[j] == #[trigger] e[j] by {}
    }
}

/// An index whose key is `key`, with no earlier one, is `key_index`.
proof fn lemma_key_index_at<K, V, S>(e: Seq<MemoEntry<K, V, S>>, key: K, i: int)
    requires
        0 <= i < e.len(),
        e[i].0 == key,
        forall|j: int| 0 <= j < i ==> #[trigger] e[j].0 != key,
    ensures
        key_index(e, key) == i,
{
    lemma_key_index(e, key);
    let k = key_index(e, key);
    if k == -1 {
        assert(e[i].0 != key);
    } else if k < i {
        assert(e[k].0 != key);
    } else if k > i {
        assert(e[i].0 != key);
    }
}

/// What a call with a key found in a memo table.
#[derive(Debug, Clone, Copy, PartialEq, Eq)]
pub enum MemoClaim {
    /// The entry at this index holds the value.
    Cached(usize),
    /// The entry at this index holds a running load to join.
    Join(usize),
    /// No entry had the key; the call's own load was recorded.
    Started,
}

/// A table of memoized loads.
pub struct MemoTable<K, V, S> {
    entries: Vec<MemoEntry<K, V, S>>,
}

impl<K, V, S> View for MemoTable<K, V, S> {
    type V = Seq<MemoEntry<K, V, S>>;

    closed spec fn view(&self) -> Seq<MemoEntry<K, V, S>> {
        self.entries@
    }
}

impl<K, V, S> MemoTable<K, V, S> {
    /// An empty table.
    pub fn new() -> (t: Self)
        ensures
            t@ == Seq::<MemoEntry<K, V, S>>::empty(),
    {
        MemoTable { entries: Vec::new() }
    }

    /// The number of entries.
    pub fn len(&self) -> (r: usize)
        ensures
            r == self@.len(),
    {
        self.entries.len()
    }

    /// The index of the first entry whose key equals `key`.
    pub fn find(&self, key: &K) -> (r: Option<usize>) where K: PartialEq
        ensures
            vstd::laws_eq::obeys_concrete_eq::<K>() ==> match r {
                Some(i) => i == key_index(self@, *key),
                None => key_index(self@, *key) == -1,
            },
            match r {
                Some(i) => i < self@.len(),
                None => true,
            },
    {
        let mut i: usize = 0;
        while i < self.entries.len()
            invariant
                i <= self.entries@.len(),
                vstd::laws_eq::obeys_concrete_eq::<K>() ==> forall|j: int|
                    0 <= j < i ==> #[trigger] self.entries@[j].0 != *key,
            decreases self.entries@.len() - i,
        {
            let same = self.entries[i].0 == *key;
            proof {
                if vstd::laws_eq::obeys_concrete_eq::<K>() {
                    reveal(vstd::laws_eq::obeys_concrete_eq);
                    assert(same == (self.entries@[i as int].0 == *key));
                }
            }
            if same {
                proof {
                    if vstd::laws_eq::obeys_concrete_eq::<K>() {
                        lemma_key_index_at(self@, *key, i as int);
                    }
                }
                return Some(i);
            }
            i = i + 1;
        }
        proof {
            lemma_key_index(self@, *key);
            if vstd::laws_eq::obeys_concrete_eq::<K>() && key_index(self@, *key) >= 0 {
                let k = key_index(self@, *key);
                assert(self.entries@[k].0 != *key);
            }
        }
        None
    }

    /// The slot of the entry at `i`.
    pub fn slot(&self, i: usize) -> (r: &MemoSlot<V, S>)
        requires
            i < self@.len(),
        ensures
            *r == self@[i as int].1,
    {
        &self.entries[i].1
    }

    /// The slot a lookup of `key` finds: the first entry with that key.
    pub fn lookup(&self, key: &K) -> (r: Option<&MemoSlot<V, S>>) where K: PartialEq
        ensures
            vstd::laws_eq::obeys_concrete_eq::<K>() ==> match r {
                Some(slot) => lookup_spec(self@, *key) == Some(*slot),
                None => lookup_spec(self@, *key) is None,
            },
    {
        match self.find(key) {
            Some(i) => Some(self.slot(i)),
            None => None,
        }
    }

    /// Records that a load for `key` has started, unless the table already
    /// holds an entry for `key`; says whether it was recorded.
    pub fn start(&mut self, key: K, load: S) -> (started: bool) where K: PartialEq
        ensures
            vstd::laws_eq::obeys_concrete_eq::<K>() ==> started == (key_index(old(self)@, key) == -1),
            started ==> final(self)@ == start_spec(old(self)@, key, load),
            !started ==> final(self)@ == old(self)@,
    {
        match self.find(&key) {
            Some(_) => false,
            None => {
                self.entries.push((key, MemoSlot::Loading(load)));
                true
            },
        }
    }

    /// What a call with `key` does, recorded in one step: with a value for
    /// `key`, take it (`Cached`); with a load running, join it (`Join`);
    /// otherwise start `load` (`Started`). Cached and joined calls leave the
    /// table as it is; the index is that of the entry they found.
    pub fn claim(&mut self, key: K, load: S) -> (r: MemoClaim) where K: PartialEq
        ensures
            match r {
                MemoClaim::Cached(i) => {
                    &&& i < old(self)@.len()
                    &&& old(self)@[i as int].1 is Ready
                    &&& final(self)@ == old(self)@
                    &&& vstd::laws_eq::obeys_concrete_eq::<K>() ==> i == key_index(old(self)@, key)
                },
                MemoClaim::Join(i) => {
                    &&& i < old(self)@.len()
                    &&& old(self)@[i as int].1 is Loading
                    &&& final(self)@ == old(self)@
                    &&& vstd::laws_eq::obeys_concrete_eq::<K>() ==> i == key_index(old(self)@, key)
                },
                MemoClaim::Started => {
                    &&& final(self)@ == start_spec(old(self)@, key, load)
                    &&& vstd::laws_eq::obeys_concrete_eq::<K>() ==> key_index(old(self)@, key) == -1
                },
            },
    {
        match self.find(&key) {
            Some(i) => match &self.entries[i].1 {
                MemoSlot::Ready(_) => MemoClaim::Cached(i),
                MemoSlot::Loading(_) => MemoClaim::Join(i),
            },
            None => {
                self.entries.push((key, MemoSlot::Loading(load)));
                MemoClaim::Started
            },
        }
    }

    /// Records that the load for `key` completed with `value`; says whether
    /// the table held an entry for `key`.
    pub fn finish(&mut self, key: &K, value: V) -> (found: bool) where K: PartialEq
        ensures
            vstd::laws_eq::obeys_concrete_eq::<K>() ==> {
                &&& found == (key_index(old(self)@, *key) >= 0)
                &&& final(self)@ == finish_spec(old(self)@, *key, value)
            },
            !found ==> final(self)@ == old(self)@,
            final(self)@.len() == old(self)@.len(),
    {
        match self.find(key) {
            Some(i) => {
                let mut slot = MemoSlot::Ready(value);
                std::mem::swap(&mut self.entries[i].1, &mut slot);
                true
            },
            None => false,
        }
    }
}

/// A lookup after a load completes finds its value: a completed load is
/// cached for every later call with the same key.
pub proof fn law_finished_load_is_cached<K, V, S>(e: Seq<MemoEntry<K, V, S>>, key: K, value: V)
    requires
        lookup_spec(e, key) is Some,
    ensures
        lookup_spec(finish_spec(e, key, value), key) == Some(MemoSlot::<V, S>::Ready(value)),
{
    lemma_key_index(e, key);
    let i = key_index(e, key);
    let f = finish_spec(e, key, value);
    assert forall|j: int| 0 <= j < i implies #[trigger] f[j].0 != key by {
        assert(f[j] == e[j]);
    }
    lemma_key_index_at(f, key, i);
}

/// A lookup after a load starts for a key with no entry finds that load: a
/// second caller joins it instead of starting another.
pub proof fn law_started_load_is_shared<K, V, S>(e: Seq<MemoEntry<K, V, S>>, key: K, load: S)
    requires
        lookup_spec(e, key) is None,
    ensures
        lookup_spec(start_spec(e, key, load), key) == Some(MemoSlot::<V, S>::Loading(load)),
{
    let s = start_spec(e, key, load);
    assert(s.drop_last() =~= e);
}

/// Starting or completing the load of one key leaves what every other key
/// finds unchanged.
pub proof fn law_keys_are_independent<K, V, S>(
    e: Seq<MemoEntry<K, V, S>>,
    key: K,
    other: K,
    load: S,
    value: V,
)
    requires
        key != other,
    ensures
        lookup_spec(start_spec(e, key, load), other) == lookup_spec(e, other),
        lookup_spec(finish_spec(e, key, value), other) == lookup_spec(e, other),
{
    let s = start_spec(e, key, load);
    assert(s.drop_last() =~= e);
    lemma_key_index(e, key);
    lemma_key_index(e, other);
    let f = finish_spec(e, key, value);
    lemma_key_index(f, other);
    assert forall|j: int| 0 <= j < f.len() implies (#[trigger] f[j]).0 == e[j].0 && (j != key_index(
        e,
        key,
    ) ==> f[j] == e[j]) by {}
    let a = key_index(e, other);
    let b = key_index(f, other);
    if a >= 0 {
        assert(a != key_index(e, key) || key_index(e, key) < 0);
        assert forall|j: int| 0 <= j < a implies #[trigger] f[j].0 != other by {
            assert(e[j].0 != other);
        }
        lemma_key_index_at(f, other, a);
    } else {
        if b >= 0 {
            assert(e[b].0 == other);
        }
    }
}


/// No key occurs in two entries.
pub open spec fn keys_distinct<K, V, S>(e: Seq<MemoEntry<K, V, S>>) -> bool {
    forall|i: int, j: int| 0 <= i < j < e.len() ==> (#[trigger] e[i]).0 != (#[trigger] e[j]).0
}

/// Starting a load only for a key without an entry, and completing loads,
/// keep every key in at most one entry: callers never hold two loads or two
/// values for one key.
pub proof fn law_keys_stay_distinct<K, V, S>(e: Seq<MemoEntry<K, V, S>>, key: K, load: S, value: V)
    requires
        keys_distinct(e),
    ensures
        key_index(e, key) == -1 ==> keys_distinct(start_spec(e, key, load)),
        keys_distinct(finish_spec(e, key, value)),
{
    lemma_key_index(e, key);
    let s = start_spec(e, key, load);
    if key_index(e, key) == -1 {
        assert forall|i: int, j: int| 0 <= i < j < s.len() implies (#[trigger] s[i]).0 != (#[trigger] s[j]).0 by {
            assert(s[i] == e[i]);
            if j < e.len() {
                assert(s[j] == e[j]);
            }
        }
    }
    let f = finish_spec(e, key, value);
    assert forall|i: int, j: int| 0 <= i < j < f.len() implies (#[trigger] f[i]).0 != (#[trigger] f[j]).0 by {
        assert(f[i].0 == e[i].0 && f[j].0 == e[j].0);
    }
}

} // verus!
