//! What a log says: the key directory that replaying its records builds, and the
//! volume of the records that later ones supersede.

use crate::command::CommandView;
use crate::keydir::KeyDirEntry;
use crate::logdir::{ascending, content_of, sized, LogFileView};
use crate::record::{
    encodable, is_space, lemma_record_at_bounds, lemma_record_at_window,
    lemma_record_reads_back, lemma_record_text_reads_back, lemma_skip_space_bounds,
    lemma_skip_space_window, record_at, record_text, skip_space, Parsed, NEWLINE,
};
use crate::json::same_window;
use vstd::prelude::*;

verus! {

/// The state that replaying records builds: the key directory, and the bytes of
/// the records that are no longer the live ones (at most `u64::MAX`).
pub struct IndexState {
    pub keydir: Map<Seq<char>, KeyDirEntry>,
    pub dead: int,
}

/// A byte count as the store keeps it: it stops at `u64::MAX`.
pub open spec fn saturating(n: int) -> int {
    if n > u64::MAX {
        u64::MAX as int
    } else {
        n
    }
}

/// The length of the record that the key's entry points to, 0 if it has none.
pub open spec fn size_of_key(keydir: Map<Seq<char>, KeyDirEntry>, k: Seq<char>) -> int {
    if keydir.contains_key(k) {
        keydir[k].record_length as int
    } else {
        0
    }
}

/// The entry for a record found in the file of a generation.
pub open spec fn entry_for(gen: u64, p: Parsed) -> KeyDirEntry {
    KeyDirEntry {
        file_id: gen,
        offset: p.start as u64,
        record_length: (p.end - p.start) as u64,
    }
}

/// The state before any record.
pub open spec fn empty_index() -> IndexState {
    IndexState { keydir: Map::empty(), dead: 0 }
}

/// The state after a record that sets the key: the key has the entry, and the
/// record that it pointed to before, if any, is dead.
pub open spec fn put_into(st: IndexState, k: Seq<char>, e: KeyDirEntry) -> IndexState {
    IndexState {
        keydir: st.keydir.insert(k, e),
        dead: saturating(st.dead + size_of_key(st.keydir, k)),
    }
}

/// The state after a record of `length` bytes that retires the key: the key has no
/// entry, and both the record that it pointed to, if any, and the new record are dead.
pub open spec fn rm_from(st: IndexState, k: Seq<char>, length: int) -> IndexState {
    IndexState {
        keydir: st.keydir.remove(k),
        dead: saturating(st.dead + size_of_key(st.keydir, k) + length),
    }
}

/// The state after one more record, found in the file of a generation.
pub open spec fn apply(st: IndexState, gen: u64, p: Parsed) -> IndexState {
    match p.command {
        CommandView::Put(k, _) => put_into(st, k, entry_for(gen, p)),
        CommandView::Rm(k) => rm_from(st, k, p.end - p.start),
    }
}

/// The state after the records that a file holds from `i` on; `None` if something
/// there is no record.
pub open spec fn replay_from(s: Seq<u8>, i: int, gen: u64, st: IndexState) -> Option<
    IndexState,
>
    decreases s.len() - i,
{
    if i >= s.len() || skip_space(s, i) >= s.len() {
        Some(st)
    } else {
        match record_at(s, i) {
            Some(p) => if i < p.end {
                replay_from(s, p.end, gen, apply(st, gen, p))
            } else {
                None
            },
            None => None,
        }
    }
}

/// The state after the first `n` files, each replayed from its start; `None` if one
/// of them holds something that is no record.
pub open spec fn replay_files(files: Seq<LogFileView>, n: nat) -> Option<IndexState>
    decreases n,
{
    if n == 0 {
        Some(empty_index())
    } else {
        match replay_files(files, (n - 1) as nat) {
            Some(st) => replay_from(files[n - 1].bytes, 0, files[n - 1].gen, st),
            None => None,
        }
    }
}

/// What a directory says: the state after all its files.
pub open spec fn replay_all(files: Seq<LogFileView>) -> Option<IndexState> {
    replay_files(files, files.len())
}

/// The entry points to a record in the directory that sets this key.
pub open spec fn entry_reads(files: Seq<LogFileView>, k: Seq<char>, e: KeyDirEntry) -> bool {
    match content_of(files, e.file_id) {
        Some(b) => match record_at(b, e.offset as int) {
            Some(p) => p.command is Put && p.command->Put_0 == k && p.start == e.offset && p.end
                == e.offset + e.record_length && p.end <= b.len(),
            None => false,
        },
        None => false,
    }
}

/// Every entry points to a record that sets its key.
pub open spec fn entries_read(
    files: Seq<LogFileView>,
    keydir: Map<Seq<char>, KeyDirEntry>,
) -> bool {
    forall|k: Seq<char>| #[trigger] keydir.contains_key(k) ==> entry_reads(files, k, keydir[k])
}

/// The value in the record that an entry points to.
pub open spec fn value_at(files: Seq<LogFileView>, e: KeyDirEntry) -> Seq<char> {
    match content_of(files, e.file_id) {
        Some(b) => match record_at(b, e.offset as int) {
            Some(p) => match p.command {
                CommandView::Put(_, v) => v,
                CommandView::Rm(_) => Seq::empty(),
            },
            None => Seq::empty(),
        },
        None => Seq::empty(),
    }
}

/// The mapping from keys to values that a key directory stands for.
pub open spec fn mapping_of(
    files: Seq<LogFileView>,
    keydir: Map<Seq<char>, KeyDirEntry>,
) -> Map<Seq<char>, Seq<char>> {
    Map::new(|k: Seq<char>| keydir.contains_key(k), |k: Seq<char>| value_at(files, keydir[k]))
}

/// Skipping from `i` stops at `m` if only white space stands between them and none
/// at `m`.
pub proof fn lemma_skip_space_run(s: Seq<u8>, i: int, m: int)
    requires
        0 <= i <= m <= s.len(),
        forall|k: int| i <= k < m ==> is_space(#[trigger] s[k]),
        m == s.len() || !is_space(s[m]),
    ensures
        skip_space(s, i) == m,
    decreases m - i,
{
    if i < m {
        lemma_skip_space_run(s, i + 1, m);
    }
}

/// Replaying a file to which one more record and a line feed were added gives what
/// replaying the file gave, with that record applied.
pub proof fn lemma_replay_append(
    s: Seq<u8>,
    i: int,
    gen: u64,
    st: IndexState,
    w: Seq<u8>,
    c: CommandView,
)
    requires
        0 <= i <= s.len(),
        replay_from(s, i, gen, st) is Some,
        record_at(w, 0) == Some(Parsed { command: c, start: 0, end: w.len() as int }),
    ensures
        replay_from(s + w + seq![NEWLINE], i, gen, st) == Some(
            apply(
                replay_from(s, i, gen, st)->0,
                gen,
                Parsed { command: c, start: s.len() as int, end: (s.len() + w.len()) as int },
            ),
        ),
    decreases s.len() - i,
{
    let s2 = s + w + seq![NEWLINE];
    let j = skip_space(s, i);
    let n = s.len() as int;
    lemma_skip_space_bounds(s, i);
    lemma_record_at_bounds(w, 0);
    if i >= s.len() || j >= s.len() {
        // Only white space is left in the old file: the new record is the next one.
        assert forall|k: int| i <= k < n implies is_space(#[trigger] s2[k]) by {
            assert(s2[k] == s[k]);
        }
        assert(s2[n] == w[0]);
        lemma_skip_space_run(s2, i, n);
        lemma_skip_space_run(s2, n, n);
        assert(same_window(w, 0, s2, n, w.len() as int)) by {
            assert(w.subrange(0, w.len() as int) =~= s2.subrange(n, n + w.len()));
        }
        lemma_record_at_window(w, 0, s2, n, w.len() as int, 0);
        let p = Parsed { command: c, start: n, end: n + w.len() };
        assert(record_at(s2, n) == Some(p));
        assert(record_at(s2, i) == Some(p));
        assert(s2[n + w.len()] == NEWLINE);
        lemma_skip_space_run(s2, n + w.len(), n + w.len() + 1);
        assert(replay_from(s2, p.end, gen, apply(st, gen, p)) == Some(apply(st, gen, p)));
    } else {
        let p = record_at(s, i)->0;
        lemma_record_at_bounds(s, i);
        assert(same_window(s, i, s2, i, p.end - i)) by {
            assert(s.subrange(i, p.end) =~= s2.subrange(i, p.end));
        }
        lemma_skip_space_window(s, i, s2, i, p.end - i, i);
        lemma_record_at_window(s, i, s2, i, p.end - i, i);
        assert(record_at(s2, i) == Some(p));
        lemma_replay_append(s, p.end, gen, apply(st, gen, p), w, c);
    }
}

/// Replaying the first files of a directory does not depend on the files after them.
pub proof fn lemma_replay_files_prefix(a: Seq<LogFileView>, b: Seq<LogFileView>, n: nat)
    requires
        n <= a.len(),
        n <= b.len(),
        forall|i: int| 0 <= i < n ==> a[i] == b[i],
    ensures
        replay_files(a, n) == replay_files(b, n),
    decreases n,
{
    if n > 0 {
        lemma_replay_files_prefix(a, b, (n - 1) as nat);
    }
}

/// The entry points to a record in this file, of this generation, that sets the key.
pub open spec fn points_into(s: Seq<u8>, gen: u64, k: Seq<char>, e: KeyDirEntry) -> bool {
    &&& e.file_id == gen
    &&& match record_at(s, e.offset as int) {
        Some(p) => p.command is Put && p.command->Put_0 == k && p.start == e.offset && p.end
            == e.offset + e.record_length && p.end <= s.len(),
        None => false,
    }
}

/// A record is found again at its own start.
pub proof fn lemma_record_at_start(s: Seq<u8>, i: int)
    requires
        record_at(s, i) is Some,
    ensures
        record_at(s, record_at(s, i)->0.start) == record_at(s, i),
{
    lemma_record_at_bounds(s, i);
    let p = record_at(s, i)->0;
    assert(skip_space(s, p.start) == p.start);
}

/// After replaying a file, each entry is one that was there before, or points to a
/// record in the file.
pub proof fn lemma_replay_from_entries(s: Seq<u8>, i: int, gen: u64, st: IndexState)
    requires
        0 <= i,
        s.len() <= u64::MAX,
        replay_from(s, i, gen, st) is Some,
    ensures
        forall|k: Seq<char>| #[trigger]
            replay_from(s, i, gen, st)->0.keydir.contains_key(k) ==> (st.keydir.contains_key(k)
                && replay_from(s, i, gen, st)->0.keydir[k] == st.keydir[k]) || points_into(
                s,
                gen,
                k,
                replay_from(s, i, gen, st)->0.keydir[k],
            ),
    decreases s.len() - i,
{
    if i >= s.len() || skip_space(s, i) >= s.len() {
    } else {
        let p = record_at(s, i)->0;
        let st1 = apply(st, gen, p);
        let out = replay_from(s, i, gen, st)->0;
        lemma_record_at_bounds(s, i);
        lemma_record_at_start(s, i);
        lemma_replay_from_entries(s, p.end, gen, st1);
        assert forall|k: Seq<char>| #[trigger] out.keydir.contains_key(k) implies (
        st.keydir.contains_key(k) && out.keydir[k] == st.keydir[k]) || points_into(
            s,
            gen,
            k,
            out.keydir[k],
        ) by {
            if st1.keydir.contains_key(k) && out.keydir[k] == st1.keydir[k] {
                if p.command is Put && p.command->Put_0 == k {
                    assert(st1.keydir[k] == entry_for(gen, p));
                    assert(points_into(s, gen, k, entry_for(gen, p)));
                }
            }
        }
    }
}

/// After replaying the first `n` files, each entry points to a record in one of them.
pub proof fn lemma_replay_files_entries(files: Seq<LogFileView>, n: nat)
    requires
        n <= files.len(),
        sized(files),
        replay_files(files, n) is Some,
    ensures
        forall|k: Seq<char>| #[trigger]
            replay_files(files, n)->0.keydir.contains_key(k) ==> exists|i: int|
                0 <= i < n && points_into(
                    (#[trigger] files[i]).bytes,
                    files[i].gen,
                    k,
                    replay_files(files, n)->0.keydir[k],
                ),
    decreases n,
{
    if n > 0 {
        let st = replay_files(files, (n - 1) as nat)->0;
        let f = files[n - 1];
        let out = replay_files(files, n)->0;
        lemma_replay_files_entries(files, (n - 1) as nat);
        lemma_replay_from_entries(f.bytes, 0, f.gen, st);
        assert forall|k: Seq<char>| #[trigger] out.keydir.contains_key(k) implies exists|i: int|
            0 <= i < n && points_into((#[trigger] files[i]).bytes, files[i].gen, k, out.keydir[k]) by {
            if st.keydir.contains_key(k) && out.keydir[k] == st.keydir[k] {
                let i = choose|i: int|
                    0 <= i < n - 1 && points_into(
                        (#[trigger] files[i]).bytes,
                        files[i].gen,
                        k,
                        st.keydir[k],
                    );
                assert(points_into(files[i].bytes, files[i].gen, k, out.keydir[k]));
            } else {
                assert(points_into(files[n - 1].bytes, files[n - 1].gen, k, out.keydir[k]));
            }
        }
    }
}

/// What replaying a directory builds points, for each key, to a record in the
/// directory that sets the key.
pub proof fn lemma_replay_reads(files: Seq<LogFileView>)
    requires
        ascending(files),
        sized(files),
        replay_all(files) is Some,
    ensures
        entries_read(files, replay_all(files)->0.keydir),
{
    let out = replay_all(files)->0;
    lemma_replay_files_entries(files, files.len());
    assert forall|k: Seq<char>| #[trigger] out.keydir.contains_key(k) implies entry_reads(
        files,
        k,
        out.keydir[k],
    ) by {
        let i = choose|i: int|
            0 <= i < files.len() && points_into(
                (#[trigger] files[i]).bytes,
                files[i].gen,
                k,
                out.keydir[k],
            );
        crate::logdir::lemma_content_of_file(files, i);
    }
}

/// The mapping from keys to values that a directory says.
pub open spec fn state_of(files: Seq<LogFileView>) -> Map<Seq<char>, Seq<char>> {
    mapping_of(files, replay_all(files)->0.keydir)
}

/// The directory with `more` added at the end of its newest file.
pub open spec fn extended(files: Seq<LogFileView>, more: Seq<u8>) -> Seq<LogFileView> {
    files.update(
        files.len() - 1,
        LogFileView { gen: files.last().gen, bytes: files.last().bytes + more },
    )
}

/// Once a file holds something that is no record, replaying further files does not
/// mend it.
pub proof fn lemma_replay_files_none(files: Seq<LogFileView>, n: nat, m: nat)
    requires
        n <= m,
        replay_files(files, n) is None,
    ensures
        replay_files(files, m) is None,
    decreases m,
{
    if n < m {
        lemma_replay_files_none(files, n, (m - 1) as nat);
    }
}

/// Adding bytes at the end of the newest file leaves every entry pointing to the
/// record it pointed to.
pub proof fn lemma_extended_keeps(
    files: Seq<LogFileView>,
    more: Seq<u8>,
    k: Seq<char>,
    e: KeyDirEntry,
)
    requires
        files.len() > 0,
        entry_reads(files, k, e),
    ensures
        entry_reads(extended(files, more), k, e),
        value_at(extended(files, more), e) == value_at(files, e),
{
    let files2 = extended(files, more);
    let last = files.last();
    assert(files2.drop_last() =~= files.drop_last());
    if e.file_id == last.gen {
        let b = last.bytes;
        let p = record_at(b, e.offset as int)->0;
        lemma_record_at_bounds(b, e.offset as int);
        assert(same_window(b, e.offset as int, b + more, e.offset as int, p.end - e.offset))
            by {
            assert(b.subrange(e.offset as int, p.end) =~= (b + more).subrange(
                e.offset as int,
                p.end,
            ));
        }
        lemma_record_at_window(
            b,
            e.offset as int,
            b + more,
            e.offset as int,
            p.end - e.offset,
            e.offset as int,
        );
    }
}

/// Replaying a directory after a record and a line feed were added at the end of
/// its newest file gives what replaying it before gave, with that record applied.
pub proof fn lemma_replay_extended(files: Seq<LogFileView>, w: Seq<u8>, c: CommandView)
    requires
        files.len() > 0,
        replay_all(files) is Some,
        record_at(w, 0) == Some(Parsed { command: c, start: 0, end: w.len() as int }),
    ensures
        replay_all(extended(files, w + seq![NEWLINE])) == Some(
            apply(
                replay_all(files)->0,
                files.last().gen,
                Parsed {
                    command: c,
                    start: files.last().bytes.len() as int,
                    end: (files.last().bytes.len() + w.len()) as int,
                },
            ),
        ),
{
    let files2 = extended(files, w + seq![NEWLINE]);
    let n = files.len();
    let last = files.last();
    lemma_replay_files_prefix(files, files2, (n - 1) as nat);
    let st = replay_files(files, (n - 1) as nat)->0;
    lemma_replay_append(last.bytes, 0, last.gen, st, w, c);
    assert(last.bytes + w + seq![NEWLINE] =~= last.bytes + (w + seq![NEWLINE]));
}

/// The bytes that a record takes in a file: its text and a line feed.
pub open spec fn record_line(c: CommandView) -> Seq<u8> {
    record_text(c) + seq![NEWLINE]
}

/// The entry of a record of `length` bytes added at the end of the newest file.
pub open spec fn entry_at_end(files: Seq<LogFileView>, length: int) -> KeyDirEntry {
    KeyDirEntry {
        file_id: files.last().gen,
        offset: files.last().bytes.len() as u64,
        record_length: length as u64,
    }
}

/// After the line of a record that sets `k` to `v` was added to the newest file, the
/// directory says what it said before, with `k` pointing to the new record, and so
/// mapped to `v`.
pub proof fn lemma_put_extends(files: Seq<LogFileView>, k: Seq<char>, v: Seq<char>)
    requires
        ascending(files),
        sized(files),
        files.len() > 0,
        replay_all(files) is Some,
        encodable(CommandView::Put(k, v)),
        files.last().bytes.len() + record_line(CommandView::Put(k, v)).len() <= u64::MAX,
    ensures
        replay_all(extended(files, record_line(CommandView::Put(k, v)))) == Some(
            put_into(
                replay_all(files)->0,
                k,
                entry_at_end(files, record_text(CommandView::Put(k, v)).len() as int),
            ),
        ),
        state_of(extended(files, record_line(CommandView::Put(k, v)))) == state_of(files).insert(
            k,
            v,
        ),
{
    let c = CommandView::Put(k, v);
    let t = record_text(c);
    let st = replay_all(files)->0;
    let files2 = extended(files, record_line(c));
    let old_bytes = files.last().bytes;
    let e = entry_at_end(files, t.len() as int);
    lemma_record_text_reads_back(c);
    lemma_replay_extended(files, t, c);
    lemma_replay_reads(files);
    assert((old_bytes + record_line(c)).subrange(
        old_bytes.len() as int,
        (old_bytes.len() + t.len()) as int,
    ) =~= t);
    lemma_record_reads_back(c, old_bytes + record_line(c), old_bytes.len() as int);
    assert(value_at(files2, e) == v);
    assert forall|k2: Seq<char>| #[trigger] st.keydir.contains_key(k2) implies value_at(
        files2,
        st.keydir[k2],
    ) == value_at(files, st.keydir[k2]) by {
        lemma_extended_keeps(files, record_line(c), k2, st.keydir[k2]);
    }
    assert(state_of(files2) =~= state_of(files).insert(k, v));
}

/// After the line of a record that retires `k` was added to the newest file, the
/// directory says what it said before, without `k`.
pub proof fn lemma_rm_extends(files: Seq<LogFileView>, k: Seq<char>)
    requires
        ascending(files),
        sized(files),
        files.len() > 0,
        replay_all(files) is Some,
        encodable(CommandView::Rm(k)),
    ensures
        replay_all(extended(files, record_line(CommandView::Rm(k)))) == Some(
            rm_from(replay_all(files)->0, k, record_text(CommandView::Rm(k)).len() as int),
        ),
        state_of(extended(files, record_line(CommandView::Rm(k)))) == state_of(files).remove(k),
{
    let c = CommandView::Rm(k);
    let t = record_text(c);
    let st = replay_all(files)->0;
    let files2 = extended(files, record_line(c));
    lemma_record_text_reads_back(c);
    lemma_replay_extended(files, t, c);
    lemma_replay_reads(files);
    assert forall|k2: Seq<char>| #[trigger] st.keydir.contains_key(k2) implies value_at(
        files2,
        st.keydir[k2],
    ) == value_at(files, st.keydir[k2]) by {
        lemma_extended_keeps(files, record_line(c), k2, st.keydir[k2]);
    }
    assert(state_of(files2) =~= state_of(files).remove(k));
}

/// In the bytes `s` of a file of generation `gen`, the entry points to a record that
/// sets `k` to `v`.
pub open spec fn copied(s: Seq<u8>, gen: u64, k: Seq<char>, e: KeyDirEntry, v: Seq<char>) -> bool {
    &&& e.file_id == gen
    &&& e.offset + e.record_length <= s.len()
    &&& record_at(s, e.offset as int) == Some(
        Parsed {
            command: CommandView::Put(k, v),
            start: e.offset as int,
            end: e.offset + e.record_length,
        },
    )
}

/// One step of a compaction: a record that sets a key not yet carried over, and a
/// line feed, are added to the target file. The target then says what it said, with
/// that key, and nothing in it is dead.
pub proof fn lemma_copy_step(
    s: Seq<u8>,
    gen: u64,
    st: IndexState,
    w: Seq<u8>,
    k: Seq<char>,
    v: Seq<char>,
)
    requires
        replay_from(s, 0, gen, empty_index()) == Some(st),
        st.dead == 0,
        !st.keydir.contains_key(k),
        record_at(w, 0) == Some(
            Parsed { command: CommandView::Put(k, v), start: 0, end: w.len() as int },
        ),
        s.len() + w.len() + 1 <= u64::MAX,
    ensures
        replay_from(s + w + seq![NEWLINE], 0, gen, empty_index()) == Some(
            put_into(
                st,
                k,
                KeyDirEntry {
                    file_id: gen,
                    offset: s.len() as u64,
                    record_length: w.len() as u64,
                },
            ),
        ),
        copied(
            s + w + seq![NEWLINE],
            gen,
            k,
            KeyDirEntry { file_id: gen, offset: s.len() as u64, record_length: w.len() as u64 },
            v,
        ),
        forall|k2: Seq<char>, e2: KeyDirEntry, v2: Seq<char>| #[trigger]
            copied(s, gen, k2, e2, v2) ==> copied(s + w + seq![NEWLINE], gen, k2, e2, v2),
{
    let s2 = s + w + seq![NEWLINE];
    lemma_replay_append(s, 0, gen, empty_index(), w, CommandView::Put(k, v));
    lemma_record_at_bounds(w, 0);
    assert(same_window(w, 0, s2, s.len() as int, w.len() as int)) by {
        assert(w.subrange(0, w.len() as int) =~= s2.subrange(
            s.len() as int,
            (s.len() + w.len()) as int,
        ));
    }
    lemma_record_at_window(w, 0, s2, s.len() as int, w.len() as int, 0);
    assert forall|k2: Seq<char>, e2: KeyDirEntry, v2: Seq<char>| #[trigger]
        copied(s, gen, k2, e2, v2) implies copied(s2, gen, k2, e2, v2) by {
        lemma_record_at_bounds(s, e2.offset as int);
        assert(same_window(s, e2.offset as int, s2, e2.offset as int, e2.record_length as int))
            by {
            assert(s.subrange(e2.offset as int, e2.offset + e2.record_length) =~= s2.subrange(
                e2.offset as int,
                e2.offset + e2.record_length,
            ));
        }
        lemma_record_at_window(
            s,
            e2.offset as int,
            s2,
            e2.offset as int,
            e2.record_length as int,
            e2.offset as int,
        );
    }
}

/// A file to which every live record was carried over says, alone, what the
/// directory said.
pub proof fn lemma_compacted_mapping(
    files: Seq<LogFileView>,
    keydir: Map<Seq<char>, KeyDirEntry>,
    s: Seq<u8>,
    gen: u64,
    target: Map<Seq<char>, KeyDirEntry>,
)
    requires
        forall|k: Seq<char>| keydir.contains_key(k) <==> target.contains_key(k),
        forall|k: Seq<char>| #[trigger]
            keydir.contains_key(k) ==> copied(s, gen, k, target[k], value_at(files, keydir[k])),
    ensures
        mapping_of(seq![LogFileView { gen, bytes: s }], target) == mapping_of(files, keydir),
{
    let one = seq![LogFileView { gen, bytes: s }];
    assert(content_of(one, gen) == Some(s));
    assert forall|k: Seq<char>| #[trigger] keydir.contains_key(k) implies value_at(
        one,
        target[k],
    ) == value_at(files, keydir[k]) by {
        assert(copied(s, gen, k, target[k], value_at(files, keydir[k])));
    }
    assert(mapping_of(one, target) =~= mapping_of(files, keydir));
}

/// The bytes that the records of the keys take in a file, each with its line feed.
pub open spec fn live_bytes(keys: Seq<Seq<char>>, keydir: Map<Seq<char>, KeyDirEntry>) -> nat
    decreases keys.len(),
{
    if keys.len() == 0 {
        0
    } else {
        live_bytes(keys.drop_last(), keydir) + keydir[keys.last()].record_length as nat + 1
    }
}

} // verus!
