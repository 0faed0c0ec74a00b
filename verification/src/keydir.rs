//! The key directory: for each live key, the place of its latest record.

use vstd::hash_map::StringHashMap;
use vstd::prelude::*;

verus! {

/// Where the latest record of a key stands: the generation of its file, the byte
/// offset of the record's first character in that file, and the record's length in
/// bytes.
#[derive(Clone, Copy, Debug, PartialEq, Eq, Structural)]
pub struct KeyDirEntry {
    pub file_id: u64,
    pub offset: u64,
    pub record_length: u64,
}

/// A key with its entry.
pub struct Slot {
    key: String,
    entry: KeyDirEntry,
}

/// A map from keys to entries that can also be walked by position.
///
/// The entries are kept in a vector; a hash map gives each key's position in it.
pub struct KeyDir {
    index: StringHashMap<usize>,
    slots: Vec<Slot>,
}

impl View for KeyDir {
    type V = Map<Seq<char>, KeyDirEntry>;

    closed spec fn view(&self) -> Map<Seq<char>, KeyDirEntry> {
        Map::new(
            |k: Seq<char>| self.index@.contains_key(k),
            |k: Seq<char>| self.slots@[self.index@[k] as int].entry,
        )
    }
}

impl KeyDir {
    /// The hash map and the vector describe the same entries.
    pub closed spec fn wf(&self) -> bool {
        &&& forall|i: int|
            0 <= i < self.slots@.len() ==> self.index@.contains_key(
                (#[trigger] self.slots@[i]).key@,
            ) && self.index@[self.slots@[i].key@] == i
        &&& forall|k: Seq<char>| #[trigger]
            self.index@.contains_key(k) ==> self.index@[k] < self.slots@.len()
                && self.slots@[self.index@[k] as int].key@ == k
    }

    /// The keys in the order in which they are walked.
    pub closed spec fn keys(&self) -> Seq<Seq<char>> {
        Seq::new(self.slots@.len(), |i: int| self.slots@[i].key@)
    }

    /// The walk visits every key of the map once, and nothing else.
    pub proof fn lemma_keys(&self)
        requires
            self.wf(),
        ensures
            forall|i: int|
                0 <= i < self.keys().len() ==> self@.contains_key(#[trigger] self.keys()[i]),
            forall|k: Seq<char>|
                self@.contains_key(k) ==> exists|i: int|
                    0 <= i < self.keys().len() && #[trigger] self.keys()[i] == k,
            forall|i: int, j: int|
                0 <= i < self.keys().len() && 0 <= j < self.keys().len() && i != j
                    ==> #[trigger] self.keys()[i] != #[trigger] self.keys()[j],
    {
        assert forall|i: int| 0 <= i < self.keys().len() implies self@.contains_key(
            #[trigger] self.keys()[i],
        ) by {
            assert(self.index@.contains_key(self.slots@[i].key@));
        }
        assert forall|k: Seq<char>| self@.contains_key(k) implies exists|i: int|
            0 <= i < self.keys().len() && #[trigger] self.keys()[i] == k by {
            assert(self.index@.contains_key(k));
            assert(self.keys()[self.index@[k] as int] == k);
        }
        assert forall|i: int, j: int|
            0 <= i < self.keys().len() && 0 <= j < self.keys().len() && i != j implies #[trigger] self.keys()[i]
            != #[trigger] self.keys()[j] by {
            assert(self.index@[self.slots@[i].key@] == i);
            assert(self.index@[self.slots@[j].key@] == j);
        }
    }

    /// A key directory without entries.
    pub fn new() -> (dir: KeyDir)
        ensures
            dir.wf(),
            dir@ == Map::<Seq<char>, KeyDirEntry>::empty(),
            dir.keys().len() == 0,
    {
        let dir = KeyDir { index: StringHashMap::new(), slots: Vec::new() };
        assert(dir@ =~= Map::<Seq<char>, KeyDirEntry>::empty());
        dir
    }

    /// The number of keys.
    pub fn len(&self) -> (n: usize)
        requires
            self.wf(),
        ensures
            n == self.keys().len(),
    {
        self.slots.len()
    }

    /// The key at position `i` of the walk.
    pub fn key_at(&self, i: usize) -> (key: &String)
        requires
            self.wf(),
            i < self.keys().len(),
        ensures
            key@ == self.keys()[i as int],
    {
        &self.slots[i].key
    }

    /// The entry of the key at position `i` of the walk.
    pub fn entry_at(&self, i: usize) -> (entry: KeyDirEntry)
        requires
            self.wf(),
            i < self.keys().len(),
        ensures
            self@.contains_key(self.keys()[i as int]),
            entry == self@[self.keys()[i as int]],
    {
        assert(self.index@.contains_key(self.slots@[i as int].key@));
        self.slots[i].entry
    }

    /// The entry of a key, if it has one.
    pub fn get(&self, key: &String) -> (found: Option<KeyDirEntry>)
        requires
            self.wf(),
        ensures
            match found {
                Some(entry) => self@.contains_key(key@) && entry == self@[key@],
                None => !self@.contains_key(key@),
            },
    {
        match self.index.get(key.as_str()) {
            Some(at) => Some(self.slots[*at].entry),
            None => None,
        }
    }

    /// Gives the key the entry, in place of the one it had if it had one, which is
    /// returned.
    pub fn insert(&mut self, key: String, entry: KeyDirEntry) -> (prior: Option<KeyDirEntry>)
        requires
            old(self).wf(),
        ensures
            final(self).wf(),
            final(self)@ == old(self)@.insert(key@, entry),
            match prior {
                Some(e) => old(self)@.contains_key(key@) && e == old(self)@[key@],
                None => !old(self)@.contains_key(key@),
            },
            old(self)@.contains_key(key@) ==> final(self).keys() == old(self).keys(),
            !old(self)@.contains_key(key@) ==> final(self).keys() == old(self).keys().push(key@),
    {
        let ghost before = *self;
        let found = match self.index.get(key.as_str()) {
            Some(at) => Some(*at),
            None => None,
        };
        match found {
            Some(at) => {
                let prior = self.slots[at].entry;
                let ghost k = key@;
                self.slots.set(at, Slot { key, entry });
                assert(self.keys() =~= before.keys());
                assert(self@ =~= before@.insert(k, entry));
                Some(prior)
            },
            None => {
                let at = self.slots.len();
                self.index.insert(key.clone(), at);
                let ghost k = key@;
                self.slots.push(Slot { key, entry });
                assert(self.keys() =~= before.keys().push(k));
                assert(self@ =~= before@.insert(k, entry));
                None
            },
        }
    }

    /// Takes the key's entry away, and returns it, if the key had one.
    pub fn remove(&mut self, key: &String) -> (prior: Option<KeyDirEntry>)
        requires
            old(self).wf(),
        ensures
            final(self).wf(),
            final(self)@ == old(self)@.remove(key@),
            match prior {
                Some(e) => old(self)@.contains_key(key@) && e == old(self)@[key@],
                None => !old(self)@.contains_key(key@),
            },
    {
        let ghost before = *self;
        let found = match self.index.get(key.as_str()) {
            Some(at) => Some(*at),
            None => None,
        };
        match found {
            Some(at) => {
                let prior = self.slots[at].entry;
                let last = self.slots.len() - 1;
                if at != last {
                    let moved = self.slots[last].key.clone();
                    assert(before.index@.contains_key(before.slots@[last as int].key@));
                    self.index.insert(moved, at);
                }
                self.index.remove(key.as_str());
                self.slots.swap_remove(at);
                assert(self@ =~= before@.remove(key@));
                Some(prior)
            },
            None => {
                assert(self@ =~= before@.remove(key@));
                None
            },
        }
    }
}

} // verus!
