//! The key-value substrate as the game sees it: a map from four-word keys to
//! vectors of words, where a key that was never written reads as empty.

use vstd::prelude::*;

verus! {

/// A key as a tuple of its four words.
pub type Key = (u64, u64, u64, u64);

/// The four words of a key as a tuple.
pub open spec fn key_of(key: [u64; 4]) -> Key {
    (key[0], key[1], key[2], key[3])
}

/// What `store` holds under `key`: the words last written there, or none.
pub open spec fn read(store: Map<Key, Seq<u64>>, key: Key) -> Seq<u64> {
    if store.dom().contains(key) {
        store[key]
    } else {
        Seq::empty()
    }
}

/// The words written under one key.
#[derive(Clone, Debug, PartialEq, Eq)]
pub struct Entry {
    pub key: [u64; 4],
    pub data: Vec<u64>,
}

/// Index of the first of `entries` with key `key`, searching from `from`.
pub open spec fn entry_from(entries: Seq<Entry>, key: Key, from: int) -> Option<int>
    decreases entries.len() - from,
{
    if from < 0 || from >= entries.len() {
        None
    } else if key_of(entries[from].key) == key {
        Some(from)
    } else {
        entry_from(entries, key, from + 1)
    }
}

proof fn lemma_entry_found(entries: Seq<Entry>, key: Key, from: int)
    requires
        0 <= from,
    ensures
        entry_from(entries, key, from) matches Some(i) ==> from <= i < entries.len() && key_of(
            entries[i].key,
        ) == key,
    decreases entries.len() - from,
{
    if from < entries.len() && key_of(entries[from].key) != key {
        lemma_entry_found(entries, key, from + 1);
    }
}

proof fn lemma_entry_update(entries: Seq<Entry>, at: int, entry: Entry, key: Key, from: int)
    requires
        0 <= at < entries.len(),
        0 <= from,
        key_of(entry.key) == key_of(entries[at].key),
    ensures
        entry_from(entries.update(at, entry), key, from) == entry_from(entries, key, from),
    decreases entries.len() - from,
{
    if from < entries.len() && key_of(entries[from].key) != key {
        lemma_entry_update(entries, at, entry, key, from + 1);
    }
}

proof fn lemma_entry_push(entries: Seq<Entry>, entry: Entry, key: Key, from: int)
    requires
        0 <= from <= entries.len(),
    ensures
        entry_from(entries.push(entry), key, from) == match entry_from(entries, key, from) {
            Some(i) => Some(i),
            None => if key_of(entry.key) == key {
                Some(entries.len() as int)
            } else {
                None
            },
        },
    decreases entries.len() - from,
{
    if from < entries.len() {
        if key_of(entries[from].key) != key {
            lemma_entry_push(entries, entry, key, from + 1);
        }
    } else {
        assert(entry_from(entries.push(entry), key, from + 1) is None);
    }
}

/// An in-memory key-value store.
#[derive(Clone, Debug, PartialEq, Eq)]
pub struct Storage {
    pub entries: Vec<Entry>,
}

impl View for Storage {
    type V = Map<Key, Seq<u64>>;

    /// Each key that occurs maps to the words of its first entry.
    open spec fn view(&self) -> Map<Key, Seq<u64>> {
        Map::new(
            |key: Key| entry_from(self.entries@, key, 0) is Some,
            |key: Key| self.entries@[entry_from(self.entries@, key, 0).unwrap()].data@,
        )
    }
}

impl Storage {
    /// A store in which nothing was written.
    pub fn new() -> (storage: Self)
        ensures
            storage@ == Map::<Key, Seq<u64>>::empty(),
    {
        let storage = Storage { entries: Vec::new() };
        assert(storage@ =~= Map::<Key, Seq<u64>>::empty());
        storage
    }

    fn find(&self, key: &[u64; 4]) -> (found: Option<usize>)
        ensures
            found matches Some(i) ==> entry_from(self.entries@, key_of(*key), 0) == Some(i as int)
                && i < self.entries@.len() && key_of(self.entries@[i as int].key) == key_of(*key),
            found is None ==> entry_from(self.entries@, key_of(*key), 0) is None,
    {
        let mut i: usize = 0;
        while i < self.entries.len()
            invariant
                i <= self.entries@.len(),
                entry_from(self.entries@, key_of(*key), 0) == entry_from(
                    self.entries@,
                    key_of(*key),
                    i as int,
                ),
            decreases self.entries@.len() - i,
        {
            let k = &self.entries[i].key;
            if k[0] == key[0] && k[1] == key[1] && k[2] == key[2] && k[3] == key[3] {
                return Some(i);
            }
            i += 1;
        }
        None
    }

    /// The words under `key`; none where the key was never written.
    pub fn get(&self, key: &[u64; 4]) -> (data: Vec<u64>)
        ensures
            data@ == read(self@, key_of(*key)),
    {
        match self.find(key) {
            Some(i) => {
                let stored = &self.entries[i].data;
                let mut data: Vec<u64> = Vec::new();
                let mut j: usize = 0;
                while j < stored.len()
                    invariant
                        j <= stored@.len(),
                        data@ == stored@.subrange(0, j as int),
                    decreases stored@.len() - j,
                {
                    data.push(stored[j]);
                    assert(data@ =~= stored@.subrange(0, j + 1));
                    j += 1;
                }
                assert(data@ =~= stored@);
                data
            },
            None => Vec::new(),
        }
    }

    /// Writes `data` under `key`, in place of what was there.
    pub fn set(&mut self, key: &[u64; 4], data: Vec<u64>)
        ensures
            final(self)@ == old(self)@.insert(key_of(*key), data@),
    {
        let ghost before = self.entries@;
        match self.find(key) {
            Some(i) => {
                self.entries[i].data = data;
                proof {
                    let after = self.entries@;
                    assert(after =~= before.update(i as int, after[i as int]));
                    assert forall|k: Key| #[trigger]
                        entry_from(after, k, 0) == entry_from(before, k, 0) by {
                        lemma_entry_update(before, i as int, after[i as int], k, 0);
                    }
                    assert forall|k: Key| entry_from(before, k, 0) is Some implies 0
                        <= entry_from(before, k, 0).unwrap() < before.len() && key_of(
                        before[entry_from(before, k, 0).unwrap()].key,
                    ) == k by {
                        lemma_entry_found(before, k, 0);
                    }
                    assert(self@ =~= old(self)@.insert(key_of(*key), data@));
                }
            },
            None => {
                self.entries.push(Entry { key: *key, data });
                proof {
                    let after = self.entries@;
                    assert(after =~= before.push(after[before.len() as int]));
                    assert forall|k: Key| #[trigger]
                        entry_from(after, k, 0) == (match entry_from(before, k, 0) {
                            Some(i) => Some(i),
                            None => if key_of(*key) == k {
                                Some(before.len() as int)
                            } else {
                                None
                            },
                        }) by {
                        lemma_entry_push(before, after[before.len() as int], k, 0);
                    }
                    assert forall|k: Key| entry_from(before, k, 0) is Some implies 0
                        <= entry_from(before, k, 0).unwrap() < before.len() by {
                        lemma_entry_found(before, k, 0);
                    }
                    assert(self@ =~= old(self)@.insert(key_of(*key), data@));
                }
            },
        }
    }
}

} // verus!
