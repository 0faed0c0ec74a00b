//! A data directory held in memory: its log files, each with its generation and
//! its bytes, in ascending order of generation.

use vstd::prelude::*;

verus! {

/// One log file: its generation and its content.
#[derive(Debug)]
pub struct LogFile {
    pub gen: u64,
    pub bytes: Vec<u8>,
}

/// A log file as a mathematical value.
pub struct LogFileView {
    pub gen: u64,
    pub bytes: Seq<u8>,
}

impl View for LogFile {
    type V = LogFileView;

    open spec fn view(&self) -> LogFileView {
        LogFileView { gen: self.gen, bytes: self.bytes@ }
    }
}

/// The log files of a data directory, oldest first.
#[derive(Debug)]
pub struct LogDir {
    files: Vec<LogFile>,
}

impl View for LogDir {
    type V = Seq<LogFileView>;

    closed spec fn view(&self) -> Seq<LogFileView> {
        Seq::new(self.files@.len(), |i: int| self.files@[i]@)
    }
}

/// The generations ascend strictly: one file per generation, the newest last.
pub open spec fn ascending(files: Seq<LogFileView>) -> bool {
    forall|i: int, j: int| 0 <= i < j < files.len() ==> files[i].gen < files[j].gen
}

/// No file is longer than `u64` can count.
pub open spec fn sized(files: Seq<LogFileView>) -> bool {
    forall|i: int| 0 <= i < files.len() ==> (#[trigger] files[i]).bytes.len() <= u64::MAX
}

/// The content of the file of a generation, if the directory holds one.
pub open spec fn content_of(files: Seq<LogFileView>, gen: u64) -> Option<Seq<u8>>
    decreases files.len(),
{
    if files.len() == 0 {
        None
    } else if files.last().gen == gen {
        Some(files.last().bytes)
    } else {
        content_of(files.drop_last(), gen)
    }
}

/// The sum of the files' lengths.
pub open spec fn total_len(files: Seq<LogFileView>) -> nat
    decreases files.len(),
{
    if files.len() == 0 {
        0
    } else {
        total_len(files.drop_last()) + files.last().bytes.len()
    }
}

/// Among files whose generations ascend, a file is the content of its generation.
pub proof fn lemma_content_of_file(files: Seq<LogFileView>, i: int)
    requires
        ascending(files),
        0 <= i < files.len(),
    ensures
        content_of(files, files[i].gen) == Some(files[i].bytes),
    decreases files.len(),
{
    if i < files.len() - 1 {
        lemma_content_of_file(files.drop_last(), i);
    }
}

/// Adds the bytes of `more` at the end of `out`.
pub fn append_bytes(out: &mut Vec<u8>, more: &[u8])
    ensures
        final(out)@ == old(out)@ + more@,
{
    let mut i: usize = 0;
    while i < more.len()
        invariant
            i <= more.len(),
            out@ == old(out)@ + more@.subrange(0, i as int),
        decreases more.len() - i,
    {
        out.push(more[i]);
        i = i + 1;
        assert(out@ =~= old(out)@ + more@.subrange(0, i as int));
    }
    assert(more@.subrange(0, i as int) =~= more@);
}

impl LogDir {
    /// The files are in ascending order of generation.
    pub open spec fn wf(&self) -> bool {
        ascending(self@)
    }

    /// The files of a directory in memory are no longer than `u64` can count.
    pub proof fn lemma_sized(&self)
        ensures
            sized(self@),
    {
        assert forall|i: int| 0 <= i < self@.len() implies (#[trigger] self@[i]).bytes.len()
            <= u64::MAX by {
            assert(self.files@[i].bytes.len() <= usize::MAX);
        }
    }

    /// A directory without files.
    pub fn new() -> (dir: LogDir)
        ensures
            dir.wf(),
            dir@.len() == 0,
    {
        LogDir { files: Vec::new() }
    }

    /// The directory that holds the given files, which must come in ascending order
    /// of generation, one per generation. `None` where they do not.
    pub fn from_files(files: Vec<LogFile>) -> (r: Option<LogDir>)
        ensures
            match r {
                Some(dir) => dir.wf() && dir@ == Seq::new(files@.len(), |i: int| files@[i]@),
                None => !ascending(Seq::new(files@.len(), |i: int| files@[i]@)),
            },
    {
        let ghost views = Seq::new(files@.len(), |i: int| files@[i]@);
        let mut i: usize = 1;
        while i < files.len()
            invariant
                1 <= i,
                views == Seq::new(files@.len(), |i: int| files@[i]@),
                forall|a: int, b: int| 0 <= a < b < i && b < views.len() ==> views[a].gen < views[b].gen,
            decreases files.len() - i,
        {
            if files[i - 1].gen >= files[i].gen {
                assert(!(views[i - 1].gen < views[i as int].gen));
                return None;
            }
            assert forall|a: int, b: int| 0 <= a < b < i + 1 && b < views.len() implies views[a].gen
                < views[b].gen by {
                if b == i && a < i - 1 {
                    assert(views[a].gen < views[i - 1].gen);
                }
            }
            i = i + 1;
        }
        Some(LogDir { files })
    }

    /// The number of files.
    pub fn len(&self) -> (n: usize)
        ensures
            n == self@.len(),
    {
        self.files.len()
    }

    /// The file at position `i`, counted from the oldest.
    pub fn file(&self, i: usize) -> (f: &LogFile)
        requires
            i < self@.len(),
        ensures
            f@ == self@[i as int],
    {
        &self.files[i]
    }

    /// The generation of the newest file, if there is a file.
    pub fn newest(&self) -> (r: Option<u64>)
        ensures
            match r {
                Some(gen) => self@.len() > 0 && gen == self@.last().gen,
                None => self@.len() == 0,
            },
    {
        if self.files.len() == 0 {
            None
        } else {
            Some(self.files[self.files.len() - 1].gen)
        }
    }

    /// Adds an empty file of a generation above all that are there. Returns whether
    /// it did: it does not where a file of that or a later generation exists.
    pub fn create(&mut self, gen: u64) -> (done: bool)
        requires
            old(self).wf(),
        ensures
            final(self).wf(),
            done == (old(self)@.len() == 0 || old(self)@.last().gen < gen),
            done ==> final(self)@ == old(self)@.push(LogFileView { gen, bytes: Seq::empty() }),
            !done ==> final(self)@ == old(self)@,
    {
        let n = self.files.len();
        if n > 0 && self.files[n - 1].gen >= gen {
            assert(self@ =~= old(self)@);
            return false;
        }
        self.files.push(LogFile { gen, bytes: Vec::new() });
        assert(self@ =~= old(self)@.push(LogFileView { gen, bytes: Seq::empty() }));
        assert forall|i: int, j: int| 0 <= i < j < self@.len() implies self@[i].gen
            < self@[j].gen by {
            if j < n {
                assert(old(self)@[i].gen < old(self)@[j].gen);
            } else if n > 0 {
                if i < n - 1 {
                    assert(old(self)@[i].gen < old(self)@[n - 1].gen);
                }
            }
        }
        true
    }

    /// Adds bytes at the end of the newest file.
    pub fn append(&mut self, more: &[u8])
        requires
            old(self).wf(),
            old(self)@.len() > 0,
        ensures
            final(self).wf(),
            final(self)@ == old(self)@.update(
                old(self)@.len() - 1,
                LogFileView {
                    gen: old(self)@.last().gen,
                    bytes: old(self)@.last().bytes + more@,
                },
            ),
    {
        let n = self.files.len();
        let mut last = self.files.pop().unwrap();
        append_bytes(&mut last.bytes, more);
        self.files.push(last);
        assert(self@ =~= old(self)@.update(
            old(self)@.len() - 1,
            LogFileView { gen: old(self)@.last().gen, bytes: old(self)@.last().bytes + more@ },
        ));
        assert forall|i: int, j: int| 0 <= i < j < self@.len() implies self@[i].gen
            < self@[j].gen by {
            assert(old(self)@[i].gen < old(self)@[j].gen);
        }
    }

    /// The bytes that the file of a generation holds from `offset` on, `length` of
    /// them. `None` where there is no such file or it holds no such range.
    pub fn read(&self, gen: u64, offset: u64, length: u64) -> (r: Option<&[u8]>)
        ensures
            match r {
                Some(window) => content_of(self@, gen) matches Some(b) && offset + length
                    <= b.len() && window@ == b.subrange(offset as int, offset + length),
                None => match content_of(self@, gen) {
                    Some(b) => offset + length > b.len(),
                    None => true,
                },
            },
    {
        let mut n = self.files.len();
        assert(self@.subrange(0, n as int) =~= self@);
        while n > 0
            invariant
                n <= self.files@.len(),
                content_of(self@, gen) == content_of(self@.subrange(0, n as int), gen),
            decreases n,
        {
            let f = &self.files[n - 1];
            assert(self@.subrange(0, n as int).last() == self@[n - 1]);
            assert(self@.subrange(0, n as int).drop_last() =~= self@.subrange(0, n - 1));
            if f.gen == gen {
                let len = f.bytes.len();
                if offset > len as u64 || length > len as u64 - offset {
                    return None;
                }
                let from = offset as usize;
                let to = from + length as usize;
                return Some(vstd::slice::slice_subrange(f.bytes.as_slice(), from, to));
            }
            n = n - 1;
        }
        assert(self@.subrange(0, 0).len() == 0);
        None
    }

    /// Deletes every file but the newest.
    pub fn retain_newest(&mut self)
        requires
            old(self).wf(),
            old(self)@.len() > 0,
        ensures
            final(self).wf(),
            final(self)@ == seq![old(self)@.last()],
    {
        let last = self.files.pop().unwrap();
        self.files.clear();
        self.files.push(last);
        assert(self@ =~= seq![old(self)@.last()]);
    }

    /// The number of bytes that the files hold together (`u64::MAX` if that is less).
    pub fn total_bytes(&self) -> (n: u64)
        ensures
            n == if total_len(self@) > u64::MAX {
                u64::MAX as int
            } else {
                total_len(self@) as int
            },
    {
        let mut sum: u64 = 0;
        let mut i: usize = 0;
        while i < self.files.len()
            invariant
                i <= self.files@.len(),
                sum == if total_len(self@.subrange(0, i as int)) > u64::MAX {
                    u64::MAX as int
                } else {
                    total_len(self@.subrange(0, i as int)) as int
                },
            decreases self.files@.len() - i,
        {
            let len = self.files[i].bytes.len() as u64;
            assert(self@.subrange(0, i + 1).last() == self@[i as int]);
            assert(self@.subrange(0, i + 1).drop_last() =~= self@.subrange(0, i as int));
            sum = if len > u64::MAX - sum {
                u64::MAX
            } else {
                sum + len
            };
            i = i + 1;
        }
        assert(self@.subrange(0, i as int) =~= self@);
        sum
    }
}

} // verus!
