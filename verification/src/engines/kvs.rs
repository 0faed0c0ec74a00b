//! The log-structured store.
//!
//! `KvStoreShared` is the store's memory: the key directory, the place where the
//! next record goes, and the volume of dead records. It decides; it touches no file.
//! `KvStore` joins it to a directory held in memory and is the store as a whole.

use crate::command::{Command, CommandView};
use crate::engines::index::{
    copied, empty_index, entries_read, entry_at_end, entry_reads, extended,
    lemma_compacted_mapping, lemma_copy_step, lemma_put_extends, lemma_replay_files_none,
    lemma_replay_reads, lemma_rm_extends, live_bytes, mapping_of, put_into, record_line,
    replay_all, replay_files, replay_from, rm_from, saturating, state_of, value_at, IndexState,
};
use crate::error::KvsError;
use crate::json::same_window;
use crate::keydir::{KeyDir, KeyDirEntry};
use crate::logdir::{append_bytes, content_of, LogDir, LogFileView};
use crate::record::{
    decode, encodable, encode_put, encode_rm, lemma_record_at_bounds, lemma_record_at_window,
    lemma_skip_space_bounds, record_at, record_text, skip_space, skip_spaces, NEWLINE,
};
use vstd::prelude::*;

verus! {

/// The volume of dead records above which the store compacts, by default: 1 MiB.
pub const COMPACTION_THRESHOLD: u64 = 1048576;

/// The file that new records go to: its generation, and the offset at which the
/// next record will start.
#[derive(Clone, Copy, Debug, PartialEq, Eq, Structural)]
pub struct ActiveFile {
    pub gen: u64,
    pub position: u64,
}

/// The store's memory.
pub struct KvStoreShared {
    keydir: KeyDir,
    active_file: ActiveFile,
    uncompacted: u64,
    threshold: u64,
}

/// What a window of a file says of a key's value: `Some(Some(v))` where it starts
/// with a record that sets a value `v`, `Some(None)` where it starts with a record
/// that retires a key or holds no record at all, `None` where it holds something
/// that is no record.
pub open spec fn window_value(w: Seq<u8>) -> Option<Option<Seq<char>>> {
    if skip_space(w, 0) >= w.len() {
        Some(None)
    } else {
        match record_at(w, 0) {
            Some(p) => match p.command {
                CommandView::Put(_, v) => Some(Some(v)),
                CommandView::Rm(_) => Some(None),
            },
            None => None,
        }
    }
}

/// `a + b`, or `u64::MAX` if that is less.
pub fn saturating_sum(a: u64, b: u64) -> (sum: u64)
    ensures
        sum == saturating(a + b),
{
    if b > u64::MAX - a {
        u64::MAX
    } else {
        a + b
    }
}

impl KvStoreShared {
    /// The key directory is in order.
    pub closed spec fn wf(&self) -> bool {
        self.keydir.wf()
    }

    /// The key directory and the dead volume.
    pub closed spec fn index(&self) -> IndexState {
        IndexState { keydir: self.keydir@, dead: self.uncompacted as int }
    }

    /// The active file.
    pub closed spec fn active(&self) -> ActiveFile {
        self.active_file
    }

    /// The dead volume above which compaction is due.
    pub closed spec fn limit(&self) -> u64 {
        self.threshold
    }

    /// The live keys, in the order in which they are walked.
    pub closed spec fn keys(&self) -> Seq<Seq<char>> {
        self.keydir.keys()
    }

    /// The walk visits every live key once, and nothing else.
    pub proof fn lemma_keys(&self)
        requires
            self.wf(),
        ensures
            forall|i: int|
                0 <= i < self.keys().len() ==> self.index().keydir.contains_key(
                    #[trigger] self.keys()[i],
                ),
            forall|k: Seq<char>|
                self.index().keydir.contains_key(k) ==> exists|i: int|
                    0 <= i < self.keys().len() && #[trigger] self.keys()[i] == k,
            forall|i: int, j: int|
                0 <= i < self.keys().len() && 0 <= j < self.keys().len() && i != j
                    ==> #[trigger] self.keys()[i] != #[trigger] self.keys()[j],
    {
        self.keydir.lemma_keys();
    }

    /// The memory of a store without records, whose active file has generation 0.
    pub fn new(threshold: u64) -> (shared: KvStoreShared)
        ensures
            shared.wf(),
            shared.index() == empty_index(),
            shared.active() == (ActiveFile { gen: 0, position: 0 }),
            shared.limit() == threshold,
            shared.keys().len() == 0,
    {
        KvStoreShared {
            keydir: KeyDir::new(),
            active_file: ActiveFile { gen: 0, position: 0 },
            uncompacted: 0,
            threshold,
        }
    }

    /// Makes the empty file of a generation the active one.
    pub fn start_file(&mut self, gen: u64)
        ensures
            final(self).wf() == old(self).wf(),
            final(self).index() == old(self).index(),
            final(self).keys() == old(self).keys(),
            final(self).limit() == old(self).limit(),
            final(self).active() == (ActiveFile { gen, position: 0 }),
    {
        self.active_file = ActiveFile { gen, position: 0 };
    }

    /// The generation of the active file.
    pub fn current_gen(&self) -> (gen: u64)
        ensures
            gen == self.active().gen,
    {
        self.active_file.gen
    }

    /// The offset at which the next record will start.
    pub fn position(&self) -> (position: u64)
        ensures
            position == self.active().position,
    {
        self.active_file.position
    }

    /// The volume of dead records.
    pub fn uncompacted(&self) -> (bytes: u64)
        ensures
            bytes == self.index().dead,
    {
        self.uncompacted
    }

    /// The dead volume above which compaction is due.
    pub fn threshold(&self) -> (bytes: u64)
        ensures
            bytes == self.limit(),
    {
        self.threshold
    }

    /// Whether the dead volume is above the threshold.
    pub fn compaction_due(&self) -> (due: bool)
        ensures
            due == (self.index().dead > self.limit()),
    {
        self.uncompacted > self.threshold
    }

    /// The generation that a compaction writes to: two above the active one, so that
    /// the one between stays free. `None` where `u64` has no such generation.
    pub fn compaction_target(&self) -> (r: Option<u64>)
        ensures
            match r {
                Some(gen) => gen == self.active().gen + 2,
                None => self.active().gen + 2 > u64::MAX,
            },
    {
        if self.active_file.gen > u64::MAX - 2 {
            None
        } else {
            Some(self.active_file.gen + 2)
        }
    }

    /// The number of live keys.
    pub fn len(&self) -> (n: usize)
        requires
            self.wf(),
        ensures
            n == self.keys().len(),
    {
        self.keydir.len()
    }

    /// The live key at position `i` of the walk.
    pub fn key_at(&self, i: usize) -> (key: &String)
        requires
            self.wf(),
            i < self.keys().len(),
        ensures
            key@ == self.keys()[i as int],
    {
        self.keydir.key_at(i)
    }

    /// The entry of the live key at position `i` of the walk.
    pub fn entry_at(&self, i: usize) -> (entry: KeyDirEntry)
        requires
            self.wf(),
            i < self.keys().len(),
        ensures
            self.index().keydir.contains_key(self.keys()[i as int]),
            entry == self.index().keydir[self.keys()[i as int]],
    {
        self.keydir.entry_at(i)
    }

    /// Where the latest record of a key stands, if the key is live.
    pub fn locate(&self, key: &String) -> (found: Option<KeyDirEntry>)
        requires
            self.wf(),
        ensures
            match found {
                Some(entry) => self.index().keydir.contains_key(key@) && entry
                    == self.index().keydir[key@],
                None => !self.index().keydir.contains_key(key@),
            },
    {
        self.keydir.get(key)
    }

    /// Reads the value out of the bytes that an entry points to.
    pub fn value_of(window: &[u8]) -> (r: Result<Option<String>, KvsError>)
        ensures
            match r {
                Ok(Some(v)) => window_value(window@) == Some(Some(v@)),
                Ok(None) => window_value(window@) == Some(None::<Seq<char>>),
                Err(e) => e is Serialization && window_value(window@) is None,
            },
    {
        if skip_spaces(window, 0) >= window.len() {
            return Ok(None);
        }
        match decode(window, 0) {
            Some(d) => match d.command {
                Command::Put(_, v) => Ok(Some(v)),
                Command::Rm(_) => Ok(None),
            },
            None => Err(KvsError::Serialization),
        }
    }

    /// Whether the bytes that an entry points to are, from first to last, a record
    /// that sets `key`: what a compaction may carry over as they are.
    pub fn holds_record_of(window: &[u8], key: &String) -> (r: bool)
        ensures
            r == match record_at(window@, 0) {
                Some(p) => p.command is Put && p.command->Put_0 == key@ && p.start == 0 && p.end
                    == window@.len(),
                None => false,
            },
    {
        match decode(window, 0) {
            Some(d) => match d.command {
                Command::Put(k, _) => k == *key && d.start == 0 && d.end == window.len(),
                Command::Rm(_) => false,
            },
            None => false,
        }
    }

    /// The bytes to add to the active file for mapping `key` to `value`.
    pub fn encode_put(key: &String, value: &String) -> (r: Result<Vec<u8>, KvsError>)
        ensures
            match r {
                Ok(line) => encodable(CommandView::Put(key@, value@)) && line@ == record_line(
                    CommandView::Put(key@, value@),
                ),
                Err(e) => e is Serialization && !encodable(CommandView::Put(key@, value@)),
            },
    {
        match encode_put(key, value) {
            Some(mut line) => {
                line.push(NEWLINE);
                Ok(line)
            },
            None => Err(KvsError::Serialization),
        }
    }

    /// The bytes to add to the active file for retiring `key`; `KeyNotFound` where
    /// the key is not live.
    pub fn encode_rm(&self, key: &String) -> (r: Result<Vec<u8>, KvsError>)
        requires
            self.wf(),
        ensures
            match r {
                Ok(line) => self.index().keydir.contains_key(key@) && encodable(
                    CommandView::Rm(key@),
                ) && line@ == record_line(CommandView::Rm(key@)),
                Err(e) => if self.index().keydir.contains_key(key@) {
                    e is Serialization && !encodable(CommandView::Rm(key@))
                } else {
                    e is KeyNotFound
                },
            },
    {
        if self.keydir.get(key).is_none() {
            return Err(KvsError::KeyNotFound);
        }
        match encode_rm(key) {
            Some(mut line) => {
                line.push(NEWLINE);
                Ok(line)
            },
            None => Err(KvsError::Serialization),
        }
    }

    /// Takes note that a record of `length` bytes that sets `key`, and a line feed,
    /// were added to the active file. Returns whether compaction is due.
    pub fn record_put(&mut self, key: String, length: u64) -> (due: bool)
        requires
            old(self).wf(),
            old(self).active().position + length + 1 <= u64::MAX,
        ensures
            final(self).wf(),
            final(self).index() == put_into(
                old(self).index(),
                key@,
                KeyDirEntry {
                    file_id: old(self).active().gen,
                    offset: old(self).active().position,
                    record_length: length,
                },
            ),
            final(self).active() == (ActiveFile {
                gen: old(self).active().gen,
                position: (old(self).active().position + length + 1) as u64,
            }),
            final(self).limit() == old(self).limit(),
            due == (final(self).index().dead > final(self).limit()),
            old(self).index().keydir.contains_key(key@) ==> final(self).keys() == old(
                self,
            ).keys(),
            !old(self).index().keydir.contains_key(key@) ==> final(self).keys() == old(
                self,
            ).keys().push(key@),
    {
        let entry = KeyDirEntry {
            file_id: self.active_file.gen,
            offset: self.active_file.position,
            record_length: length,
        };
        let prior = match self.keydir.insert(key, entry) {
            Some(e) => e.record_length,
            None => 0,
        };
        self.uncompacted = saturating_sum(self.uncompacted, prior);
        self.active_file.position = self.active_file.position + length + 1;
        self.uncompacted > self.threshold
    }

    /// Takes note that a record of `length` bytes that retires `key`, and a line
    /// feed, were added to the active file.
    pub fn record_rm(&mut self, key: &String, length: u64)
        requires
            old(self).wf(),
            old(self).active().position + length + 1 <= u64::MAX,
        ensures
            final(self).wf(),
            final(self).index() == rm_from(old(self).index(), key@, length as int),
            final(self).active() == (ActiveFile {
                gen: old(self).active().gen,
                position: (old(self).active().position + length + 1) as u64,
            }),
            final(self).limit() == old(self).limit(),
    {
        let prior = match self.keydir.remove(key) {
            Some(e) => e.record_length,
            None => 0,
        };
        self.uncompacted = saturating_sum(saturating_sum(self.uncompacted, prior), length);
        self.active_file.position = self.active_file.position + length + 1;
    }

    /// Replays the records of the file of a generation, which becomes the active
    /// file. Fails where the file holds something that is no record.
    pub fn replay(&mut self, gen: u64, bytes: &[u8]) -> (r: Result<(), KvsError>)
        requires
            old(self).wf(),
        ensures
            final(self).wf(),
            final(self).limit() == old(self).limit(),
            match r {
                Ok(()) => replay_from(bytes@, 0, gen, old(self).index()) == Some(
                    final(self).index(),
                ) && final(self).active() == (ActiveFile { gen, position: bytes.len() as u64 }),
                Err(e) => e is Serialization && replay_from(bytes@, 0, gen, old(self).index())
                    is None,
            },
    {
        let mut at: usize = 0;
        loop
            invariant
                self.wf(),
                self.limit() == old(self).limit(),
                at <= bytes.len(),
                replay_from(bytes@, 0, gen, old(self).index()) == replay_from(
                    bytes@,
                    at as int,
                    gen,
                    self.index(),
                ),
            ensures
                replay_from(bytes@, 0, gen, old(self).index()) == Some(self.index()),
            decreases bytes.len() - at,
        {
            if skip_spaces(bytes, at) >= bytes.len() {
                break ;
            }
            proof {
                lemma_skip_space_bounds(bytes@, at as int);
                lemma_record_at_bounds(bytes@, at as int);
            }
            let d = match decode(bytes, at) {
                Some(d) => d,
                None => {
                    return Err(KvsError::Serialization);
                },
            };
            let length = (d.end - d.start) as u64;
            match d.command {
                Command::Put(key, _) => {
                    let entry = KeyDirEntry {
                        file_id: gen,
                        offset: d.start as u64,
                        record_length: length,
                    };
                    let prior = match self.keydir.insert(key, entry) {
                        Some(e) => e.record_length,
                        None => 0,
                    };
                    self.uncompacted = saturating_sum(self.uncompacted, prior);
                },
                Command::Rm(key) => {
                    let prior = match self.keydir.remove(&key) {
                        Some(e) => e.record_length,
                        None => 0,
                    };
                    let dead = saturating_sum(self.uncompacted, prior);
                    self.uncompacted = saturating_sum(dead, length);
                },
            }
            at = d.end;
        }
        self.active_file = ActiveFile { gen, position: bytes.len() as u64 };
        Ok(())
    }
}

/// The store over a data directory held in memory.
pub struct KvStore {
    shared: KvStoreShared,
    dir: LogDir,
}

impl View for KvStore {
    type V = Map<Seq<char>, Seq<char>>;

    /// The mapping from live keys to their values.
    closed spec fn view(&self) -> Map<Seq<char>, Seq<char>> {
        mapping_of(self.dir@, self.shared.index().keydir)
    }
}

/// The directory that a store works on after opening `files`: the files themselves,
/// or one empty file of generation 0 where there are none.
pub open spec fn opened(files: Seq<LogFileView>) -> Seq<LogFileView> {
    if files.len() == 0 {
        seq![LogFileView { gen: 0, bytes: Seq::empty() }]
    } else {
        files
    }
}

impl KvStore {
    /// The memory says what the directory says, and the active file is the newest.
    pub closed spec fn wf(&self) -> bool {
        &&& self.dir.wf()
        &&& self.dir@.len() > 0
        &&& self.shared.wf()
        &&& replay_all(self.dir@) == Some(self.shared.index())
        &&& self.shared.active().gen == self.dir@.last().gen
        &&& self.shared.active().position == self.dir@.last().bytes.len()
    }

    /// The files of the directory, oldest first.
    pub closed spec fn files(&self) -> Seq<LogFileView> {
        self.dir@
    }

    /// The key directory and the dead volume.
    pub closed spec fn index(&self) -> IndexState {
        self.shared.index()
    }

    /// The dead volume above which the store compacts.
    pub closed spec fn limit(&self) -> u64 {
        self.shared.limit()
    }

    /// The live keys, in the order in which a compaction carries them over.
    pub closed spec fn keys(&self) -> Seq<Seq<char>> {
        self.shared.keys()
    }

    /// What a store holds is what its directory says: opening the directory again
    /// gives a store with the same mapping.
    pub proof fn lemma_reopen(&self)
        requires
            self.wf(),
        ensures
            replay_all(self.files()) == Some(self.index()),
            state_of(self.files()) == self@,
            opened(self.files()) == self.files(),
    {
    }

    /// Opens the store on a directory, with the default compaction threshold.
    pub fn open(dir: LogDir) -> (r: Result<KvStore, KvsError>)
        requires
            dir.wf(),
        ensures
            match r {
                Ok(store) => store.wf() && replay_all(dir@) == Some(store.index()) && store@
                    == state_of(dir@)
                    && store.files() == opened(dir@) && store.limit() == COMPACTION_THRESHOLD,
                Err(e) => e is Serialization && replay_all(dir@) is None,
            },
    {
        KvStore::open_with_threshold(dir, COMPACTION_THRESHOLD)
    }

    /// Opens the store on a directory: replays its files, oldest first, and takes
    /// the newest as the active file; an empty directory gets a file of generation 0.
    /// Fails where a file holds something that is no record. That holds of a record
    /// cut short at the end of the newest file too: nothing is dropped or mended.
    pub fn open_with_threshold(dir: LogDir, threshold: u64) -> (r: Result<KvStore, KvsError>)
        requires
            dir.wf(),
        ensures
            match r {
                Ok(store) => store.wf() && replay_all(dir@) == Some(store.index()) && store@
                    == state_of(dir@)
                    && store.files() == opened(dir@) && store.limit() == threshold,
                Err(e) => e is Serialization && replay_all(dir@) is None,
            },
    {
        let mut shared = KvStoreShared::new(threshold);
        let n = dir.len();
        let mut i: usize = 0;
        while i < n
            invariant
                i <= n == dir@.len(),
                shared.wf(),
                shared.limit() == threshold,
                replay_files(dir@, i as nat) == Some(shared.index()),
                i > 0 ==> shared.active().gen == dir@[i - 1].gen && shared.active().position
                    == dir@[i - 1].bytes.len(),
            decreases n - i,
        {
            let f = dir.file(i);
            match shared.replay(f.gen, f.bytes.as_slice()) {
                Ok(()) => {},
                Err(_) => {
                    proof {
                        assert(replay_files(dir@, (i + 1) as nat) is None);
                        lemma_replay_files_none(dir@, (i + 1) as nat, dir@.len());
                    }
                    return Err(KvsError::Serialization);
                },
            }
            assert(replay_files(dir@, (i + 1) as nat) == Some(shared.index()));
            i = i + 1;
        }
        let mut store = KvStore { shared, dir };
        if n == 0 {
            store.dir.create(0);
            store.shared.start_file(0);
            assert(replay_files(store.dir@, 0) == Some(empty_index()));
            assert(replay_all(store.dir@) == Some(store.shared.index()));
            assert(mapping_of(store.dir@, store.shared.index().keydir) =~= state_of(dir@));
        }
        Ok(store)
    }

    /// Closes the store and hands back its directory, which says what the store
    /// held: a store opened on it holds the same mapping.
    pub fn into_dir(self) -> (dir: LogDir)
        requires
            self.wf(),
        ensures
            dir.wf(),
            dir@ == self.files(),
            dir@.len() > 0,
            replay_all(dir@) == Some(self.index()),
            state_of(dir@) == self@,
    {
        self.dir
    }

    /// The directory that the store works on.
    pub fn dir(&self) -> (dir: &LogDir)
        ensures
            dir@ == self.files(),
    {
        &self.dir
    }

    /// The store's memory.
    pub fn shared(&self) -> (shared: &KvStoreShared)
        ensures
            shared.index() == self.index(),
            shared.limit() == self.limit(),
    {
        &self.shared
    }

    /// The value of a key, `None` if the key is not live.
    pub fn get(&self, key: String) -> (r: Result<Option<String>, KvsError>)
        requires
            self.wf(),
        ensures
            match r {
                Ok(Some(v)) => self@.contains_key(key@) && self@[key@] == v@,
                Ok(None) => !self@.contains_key(key@),
                Err(_) => false,
            },
    {
        let entry = match self.shared.locate(&key) {
            Some(entry) => entry,
            None => {
                return Ok(None);
            },
        };
        proof {
            self.dir.lemma_sized();
            lemma_replay_reads(self.dir@);
            assert(entry_reads(self.dir@, key@, entry));
            let b = content_of(self.dir@, entry.file_id)->0;
            let w = b.subrange(entry.offset as int, entry.offset + entry.record_length);
            lemma_record_at_bounds(b, entry.offset as int);
            assert(same_window(b, entry.offset as int, w, 0, entry.record_length as int)) by {
                assert(w.subrange(0, entry.record_length as int) =~= w);
            }
            lemma_record_at_window(
                b,
                entry.offset as int,
                w,
                0,
                entry.record_length as int,
                entry.offset as int,
            );
            lemma_record_at_bounds(w, 0);
        }
        let window = match self.dir.read(entry.file_id, entry.offset, entry.record_length) {
            Some(window) => window,
            None => {
                return Err(KvsError::Unspecified);
            },
        };
        match KvStoreShared::value_of(window) {
            Ok(Some(v)) => Ok(Some(v)),
            _ => Err(KvsError::Unspecified),
        }
    }
    /// The directory after a compaction that wrote `bytes` to the file of `gen`.
    pub open spec fn compacted(gen: u64, bytes: Seq<u8>) -> Seq<LogFileView> {
        seq![LogFileView { gen, bytes }]
    }

    /// `after` is `before`: the same files, the same key directory and dead volume.
    pub open spec fn unchanged(before: KvStore, after: KvStore) -> bool {
        &&& after@ == before@
        &&& after.files() == before.files()
        &&& after.index() == before.index()
    }

    /// `after` is `before` with the line of a record that sets `k` to `v` added to the
    /// active file: `k` points to that record, and the record that it pointed to
    /// before, if any, counts as dead.
    pub open spec fn appended_put(
        before: KvStore,
        after: KvStore,
        k: Seq<char>,
        v: Seq<char>,
    ) -> bool {
        &&& after.files() == extended(before.files(), record_line(CommandView::Put(k, v)))
        &&& after.index() == put_into(
            before.index(),
            k,
            entry_at_end(before.files(), record_text(CommandView::Put(k, v)).len() as int),
        )
    }

    /// `after` is `before` with the line of a record that retires `k` added to the
    /// active file: `k` has no entry, and both the record that it pointed to and the
    /// new record count as dead.
    pub open spec fn appended_rm(before: KvStore, after: KvStore, k: Seq<char>) -> bool {
        &&& after.files() == extended(before.files(), record_line(CommandView::Rm(k)))
        &&& after.index() == rm_from(
            before.index(),
            k,
            record_text(CommandView::Rm(k)).len() as int,
        )
    }

    /// `after` is what a compaction leaves: one file, two generations above the file
    /// that was active in `before`, and nothing dead.
    pub open spec fn compacted_from(before: KvStore, after: KvStore) -> bool {
        &&& after.files().len() == 1
        &&& after.files()[0].gen == before.files().last().gen + 2
        &&& after.index().dead == 0
    }

    /// Whether mapping `k` to `v` in the store is followed by a compaction: the dead
    /// volume is then above the threshold, and there is a generation to compact to.
    pub open spec fn compacts_after_put(before: KvStore, k: Seq<char>, v: Seq<char>) -> bool {
        &&& put_into(
            before.index(),
            k,
            entry_at_end(before.files(), record_text(CommandView::Put(k, v)).len() as int),
        ).dead > before.limit()
        &&& before.files().last().gen + 2 <= u64::MAX
    }

    /// Carries the live records over to a fresh file, two generations above the active
    /// one, which becomes the active file, and deletes all other files. Returns
    /// whether it did: it does nothing where `u64` has no such generation.
    pub fn compact(&mut self) -> (done: bool)
        requires
            old(self).wf(),
        ensures
            final(self).wf(),
            final(self)@ == old(self)@,
            final(self).limit() == old(self).limit(),
            done == (old(self).files().last().gen + 2 <= u64::MAX),
            done ==> KvStore::compacted_from(*old(self), *final(self)),
            done ==> final(self).files()[0].bytes.len() == live_bytes(
                old(self).keys(),
                old(self).index().keydir,
            ),
            !done ==> KvStore::unchanged(*old(self), *final(self)),
    {
        let new_gen = match self.shared.compaction_target() {
            Some(gen) => gen,
            None => {
                return false;
            },
        };
        let ghost files = self.dir@;
        let ghost keydir = self.shared.index().keydir;
        let ghost keys = self.shared.keys();
        let n = self.shared.len();
        let mut target = KvStoreShared::new(self.shared.threshold());
        target.start_file(new_gen);
        let mut bytes: Vec<u8> = Vec::new();
        proof {
            self.dir.lemma_sized();
            lemma_replay_reads(files);
            self.shared.lemma_keys();
        }
        let mut i: usize = 0;
        while i < n
            invariant
                i <= n == keys.len(),
                self.wf(),
                self.dir@ == files,
                self.shared.index().keydir == keydir,
                self.shared.keys() == keys,
                entries_read(files, keydir),
                forall|j: int| 0 <= j < keys.len() ==> keydir.contains_key(#[trigger] keys[j]),
                forall|a: int, b: int|
                    0 <= a < keys.len() && 0 <= b < keys.len() && a != b ==> #[trigger] keys[a]
                        != #[trigger] keys[b],
                target.wf(),
                target.limit() == self.shared.limit(),
                target.active().gen == new_gen,
                target.active().position == bytes@.len(),
                replay_from(bytes@, 0, new_gen, empty_index()) == Some(target.index()),
                target.index().dead == 0,
                target.keys() == keys.subrange(0, i as int),
                bytes@.len() == live_bytes(keys.subrange(0, i as int), keydir),
                forall|j: int|
                    0 <= j < i ==> target.index().keydir.contains_key(#[trigger] keys[j])
                        && copied(
                        bytes@,
                        new_gen,
                        keys[j],
                        target.index().keydir[keys[j]],
                        value_at(files, keydir[keys[j]]),
                    ),
            decreases n - i,
        {
            let key = self.shared.key_at(i);
            let entry = self.shared.entry_at(i);
            let ghost k = keys[i as int];
            let ghost v = value_at(files, entry);
            let ghost before = bytes@;
            let ghost st = target.index();
            proof {
                assert(entry_reads(files, k, entry));
                let b = content_of(files, entry.file_id)->0;
                let w = b.subrange(entry.offset as int, entry.offset + entry.record_length);
                lemma_record_at_bounds(b, entry.offset as int);
                assert(same_window(b, entry.offset as int, w, 0, entry.record_length as int))
                    by {
                    assert(w.subrange(0, entry.record_length as int) =~= w);
                }
                lemma_record_at_window(
                    b,
                    entry.offset as int,
                    w,
                    0,
                    entry.record_length as int,
                    entry.offset as int,
                );
                target.lemma_keys();
                assert(!st.keydir.contains_key(k)) by {
                    if st.keydir.contains_key(k) {
                        let j = choose|j: int|
                            0 <= j < target.keys().len() && #[trigger] target.keys()[j] == k;
                        assert(keys[j] == keys[i as int]);
                    }
                }
            }
            let window = match self.dir.read(entry.file_id, entry.offset, entry.record_length) {
                Some(window) => window,
                None => {
                    assert(false);
                    return false;
                },
            };
            append_bytes(&mut bytes, window);
            bytes.push(NEWLINE);
            let total = bytes.len();
            proof {
                assert(bytes@ =~= before + window@ + seq![NEWLINE]);
                lemma_copy_step(before, new_gen, st, window@, k, v);
                assert(keys.subrange(0, i + 1).drop_last() =~= keys.subrange(0, i as int));
                assert(keys.subrange(0, i + 1).last() == k);
            }
            target.record_put(key.clone(), entry.record_length);
            proof {
                assert(target.keys() =~= keys.subrange(0, i + 1));
                assert forall|j: int| 0 <= j < i + 1 implies target.index().keydir.contains_key(
                    #[trigger] keys[j],
                ) && copied(
                    bytes@,
                    new_gen,
                    keys[j],
                    target.index().keydir[keys[j]],
                    value_at(files, keydir[keys[j]]),
                ) by {
                    if j < i {
                        assert(keys[j] != keys[i as int]);
                        assert(copied(
                            before,
                            new_gen,
                            keys[j],
                            st.keydir[keys[j]],
                            value_at(files, keydir[keys[j]]),
                        ));
                    }
                }
            }
            i = i + 1;
        }
        proof {
            target.lemma_keys();
            assert forall|k: Seq<char>| keydir.contains_key(k) <==> target.index().keydir.contains_key(
                k,
            ) by {
                if keydir.contains_key(k) {
                    let j = choose|j: int| 0 <= j < keys.len() && #[trigger] keys[j] == k;
                    assert(target.index().keydir.contains_key(keys[j]));
                }
                if target.index().keydir.contains_key(k) {
                    let j = choose|j: int|
                        0 <= j < target.keys().len() && #[trigger] target.keys()[j] == k;
                    assert(keydir.contains_key(keys[j]));
                }
            }
            assert forall|k: Seq<char>| #[trigger] keydir.contains_key(k) implies copied(
                bytes@,
                new_gen,
                k,
                target.index().keydir[k],
                value_at(files, keydir[k]),
            ) by {
                let j = choose|j: int| 0 <= j < keys.len() && #[trigger] keys[j] == k;
                assert(target.index().keydir.contains_key(keys[j]));
            }
            lemma_compacted_mapping(files, keydir, bytes@, new_gen, target.index().keydir);
            assert(keys.subrange(0, n as int) =~= keys);
        }
        self.dir.create(new_gen);
        self.dir.append(bytes.as_slice());
        self.dir.retain_newest();
        self.shared = target;
        proof {
            assert(self.dir@ =~= KvStore::compacted(new_gen, bytes@)) by {
                assert(Seq::<u8>::empty() + bytes@ =~= bytes@);
            }
            assert(replay_files(self.dir@, 0) == Some(empty_index()));
            assert(replay_all(self.dir@) == Some(self.shared.index()));
        }
        true
    }

    /// Maps `key` to `value`: adds a record to the active file and points the key to
    /// it; then compacts if the dead volume is above the threshold. Fails, and
    /// changes nothing, where the record cannot be written so that it reads back.
    pub fn set(&mut self, key: String, value: String) -> (r: Result<(), KvsError>)
        requires
            old(self).wf(),
        ensures
            final(self).wf(),
            final(self).limit() == old(self).limit(),
            r is Ok <==> encodable(CommandView::Put(key@, value@)),
            r is Ok ==> final(self)@ == old(self)@.insert(key@, value@),
            r is Ok ==> if KvStore::compacts_after_put(*old(self), key@, value@) {
                KvStore::compacted_from(*old(self), *final(self))
            } else {
                KvStore::appended_put(*old(self), *final(self), key@, value@)
            },
            r matches Err(e) ==> e is Serialization && KvStore::unchanged(
                *old(self),
                *final(self),
            ),
    {
        let line = match KvStoreShared::encode_put(&key, &value) {
            Ok(line) => line,
            Err(e) => {
                return Err(e);
            },
        };
        let length = (line.len() - 1) as u64;
        proof {
            self.dir.lemma_sized();
        }
        self.dir.append(line.as_slice());
        proof {
            self.dir.lemma_sized();
            assert(self.dir@[self.dir@.len() - 1].bytes.len() <= u64::MAX);
            lemma_put_extends(old(self).dir@, key@, value@);
        }
        let due = self.shared.record_put(key, length);
        if due {
            self.compact();
        }
        Ok(())
    }

    /// Retires `key`: adds a record to the active file and takes the key's entry
    /// away. Fails with `KeyNotFound`, and changes nothing, where the key is not live.
    pub fn remove(&mut self, key: String) -> (r: Result<(), KvsError>)
        requires
            old(self).wf(),
        ensures
            final(self).wf(),
            final(self).limit() == old(self).limit(),
            r is Ok <==> old(self)@.contains_key(key@) && encodable(CommandView::Rm(key@)),
            r is Ok ==> final(self)@ == old(self)@.remove(key@) && KvStore::appended_rm(
                *old(self),
                *final(self),
                key@,
            ),
            r matches Err(e) ==> KvStore::unchanged(*old(self), *final(self)) && (e is KeyNotFound
                <==> !old(self)@.contains_key(key@)) && (e is Serialization <==> old(
                self,
            )@.contains_key(key@)),
    {
        let line = match self.shared.encode_rm(&key) {
            Ok(line) => line,
            Err(e) => {
                return Err(e);
            },
        };
        let length = (line.len() - 1) as u64;
        proof {
            self.dir.lemma_sized();
        }
        self.dir.append(line.as_slice());
        proof {
            self.dir.lemma_sized();
            assert(self.dir@[self.dir@.len() - 1].bytes.len() <= u64::MAX);
            lemma_rm_extends(old(self).dir@, key@);
        }
        self.shared.record_rm(&key, length);
        Ok(())
    }
}

} // verus!
