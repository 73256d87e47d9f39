//! The indexing pass's decisions. For each walked file the driver learns
//! whether it is binary, its content hash (if it could be read) and the
//! hash stored for its path (if any); `plan_file` says what to do and
//! `IndexResult::record` counts what was done.

use vstd::prelude::*;
use crate::text::str_eq;
use crate::records::IndexStats;

verus! {

/// Counts of one indexing pass.
pub struct IndexResult {
    pub files_scanned: usize,
    pub files_indexed: usize,
    pub files_skipped: usize,
    pub files_unchanged: usize,
    pub chunks_created: usize,
}

/// What to do with one file.
#[derive(Clone, Copy, Debug, PartialEq, Eq, Structural)]
pub enum FilePlan {
    /// Binary or unreadable: count it as skipped.
    Skip,
    /// Stored with the same hash: nothing to read or parse.
    Unchanged,
    /// New or changed: (re)chunk it; `replace` when a record exists whose
    /// chunks must go first.
    Index { replace: bool },
}

/// What came of one file.
#[derive(Clone, Copy, Debug, PartialEq, Eq, Structural)]
pub enum FileOutcome {
    Skipped,
    Unchanged,
    Indexed { chunks: usize },
}

pub open spec fn plan_spec(binary: bool, hash: Option<Seq<char>>, stored: Option<Seq<char>>) -> FilePlan {
    if binary || hash is None {
        FilePlan::Skip
    } else if stored is Some && stored->0 == hash->0 {
        FilePlan::Unchanged
    } else {
        FilePlan::Index { replace: stored is Some }
    }
}

pub open spec fn opt_str(o: Option<&str>) -> Option<Seq<char>> {
    match o {
        Some(s) => Some(s@),
        None => None,
    }
}

/// The decision for one file: skip binary or unhashable files, leave files
/// whose stored hash matches, index the rest.
pub fn plan_file(binary: bool, hash: Option<&str>, stored: Option<&str>) -> (r: FilePlan)
    ensures
        r == plan_spec(binary, opt_str(hash), opt_str(stored)),
{
    if binary {
        return FilePlan::Skip;
    }
    match hash {
        None => FilePlan::Skip,
        Some(h) => match stored {
            Some(s) => {
                if str_eq(s, h) {
                    FilePlan::Unchanged
                } else {
                    FilePlan::Index { replace: true }
                }
            },
            None => FilePlan::Index { replace: false },
        },
    }
}

/// What came of a file planned for indexing, once it was read: its chunk
/// count when it could be read as text, else skipped.
pub fn read_outcome(chunks_if_read: Option<usize>) -> (r: FileOutcome)
    ensures
        match chunks_if_read {
            Some(n) => r == FileOutcome::Indexed { chunks: n },
            None => r == FileOutcome::Skipped,
        },
{
    match chunks_if_read {
        Some(n) => FileOutcome::Indexed { chunks: n },
        None => FileOutcome::Skipped,
    }
}

/// The open transaction after a file's outcome: a written file adds one to
/// the batch, and the batch is committed (and starts again from zero) once
/// it reaches `batch_size`; other outcomes leave it as it is.
pub fn batch_step(in_batch: usize, batch_size: usize, outcome: FileOutcome) -> (r: (usize, bool))
    requires
        in_batch < usize::MAX,
    ensures
        !(outcome is Indexed) ==> r == (in_batch, false),
        outcome is Indexed ==> r.1 == (in_batch + 1 >= batch_size) && r.0 == (if r.1 { 0 } else { in_batch + 1 }),
{
    if !matches!(outcome, FileOutcome::Indexed { .. }) {
        return (in_batch, false);
    }
    let n = in_batch + 1;
    if n >= batch_size {
        (0, true)
    } else {
        (n, false)
    }
}

impl IndexResult {
    /// A pass over `scanned` walked files, nothing done yet.
    pub fn start(scanned: usize) -> (r: Self)
        ensures
            r.files_scanned == scanned,
            r.files_indexed == 0,
            r.files_skipped == 0,
            r.files_unchanged == 0,
            r.chunks_created == 0,
    {
        IndexResult {
            files_scanned: scanned,
            files_indexed: 0,
            files_skipped: 0,
            files_unchanged: 0,
            chunks_created: 0,
        }
    }

    pub open spec fn done(&self) -> int {
        self.files_indexed + self.files_skipped + self.files_unchanged
    }

    /// Count the outcome of one more file.
    pub fn record(&mut self, outcome: FileOutcome)
        requires
            old(self).done() < old(self).files_scanned,
            outcome matches FileOutcome::Indexed { chunks } ==> old(self).chunks_created + chunks
                <= usize::MAX,
        ensures
            final(self).files_scanned == old(self).files_scanned,
            final(self).done() == old(self).done() + 1,
            final(self).files_indexed == old(self).files_indexed + (if outcome is Indexed { 1int } else { 0 }),
            final(self).files_skipped == old(self).files_skipped + (if outcome is Skipped { 1int } else { 0 }),
            final(self).files_unchanged == old(self).files_unchanged + (if outcome is Unchanged { 1int } else { 0 }),
            final(self).chunks_created == old(self).chunks_created + match outcome {
                FileOutcome::Indexed { chunks } => chunks as int,
                _ => 0,
            },
    {
        match outcome {
            FileOutcome::Skipped => self.files_skipped = self.files_skipped + 1,
            FileOutcome::Unchanged => self.files_unchanged = self.files_unchanged + 1,
            FileOutcome::Indexed { chunks } => {
                self.files_indexed = self.files_indexed + 1;
                self.chunks_created = self.chunks_created + chunks;
            },
        }
    }
}

/// The statistics of a project's index: those read from its store, or
/// those of an empty index when it has none.
pub fn index_status(stored: Option<IndexStats>) -> (r: IndexStats)
    ensures
        stored is Some ==> r == stored->0,
        stored is None ==> r.file_count == 0 && r.chunk_count == 0 && r.total_size_bytes == 0
            && r.db_size_bytes == 0 && r.languages@.len() == 0,
{
    match stored {
        Some(s) => s,
        None => IndexStats::empty(),
    }
}

/// What the driver learns of one walked file.
pub struct FileSeen {
    pub path: Seq<char>,
    pub binary: bool,
    pub hash: Option<Seq<char>>,
    /// Whether reading it as text succeeds, when it comes to that.
    pub readable: bool,
}

/// Counts of a modelled pass: indexed, unchanged, skipped.
pub struct PassCounts {
    pub indexed: nat,
    pub unchanged: nat,
    pub skipped: nat,
}

/// A pass over `files` against a store that maps paths to hashes: the
/// store afterwards, and the counts.
pub open spec fn run_pass(store: Map<Seq<char>, Seq<char>>, files: Seq<FileSeen>) -> (Map<Seq<char>, Seq<char>>, PassCounts)
    decreases files.len(),
{
    if files.len() == 0 {
        (store, PassCounts { indexed: 0, unchanged: 0, skipped: 0 })
    } else {
        let (s, c) = run_pass(store, files.drop_last());
        let f = files.last();
        let stored = if s.contains_key(f.path) { Some(s[f.path]) } else { None };
        match plan_spec(f.binary, f.hash, stored) {
            FilePlan::Skip => (s, PassCounts { skipped: c.skipped + 1, ..c }),
            FilePlan::Unchanged => (s, PassCounts { unchanged: c.unchanged + 1, ..c }),
            FilePlan::Index { .. } => if f.readable {
                (s.insert(f.path, f.hash->0), PassCounts { indexed: c.indexed + 1, ..c })
            } else {
                (s, PassCounts { skipped: c.skipped + 1, ..c })
            },
        }
    }
}

/// Files that a pass can read: not binary, hashed, readable.
pub open spec fn readable_count(files: Seq<FileSeen>) -> nat
    decreases files.len(),
{
    if files.len() == 0 {
        0
    } else {
        readable_count(files.drop_last()) + (if !files.last().binary && files.last().hash is Some
            && files.last().readable {
            1nat
        } else {
            0nat
        })
    }
}

pub open spec fn distinct_paths(files: Seq<FileSeen>) -> bool {
    forall|i: int, j: int| 0 <= i < j < files.len() ==> #[trigger] files[i].path != #[trigger] files[j].path
}

proof fn lemma_pass_records(store: Map<Seq<char>, Seq<char>>, files: Seq<FileSeen>)
    requires
        distinct_paths(files),
    ensures
        forall|j: int|
            0 <= j < files.len() && !files[j].binary && files[j].hash is Some && files[j].readable ==> run_pass(store, files).0.contains_key(#[trigger] files[j].path)
                && run_pass(store, files).0[files[j].path] == files[j].hash->0,
        forall|k: Seq<char>| #[trigger] run_pass(store, files).0.contains_key(k) && (forall|j: int| 0 <= j < files.len() ==> files[j].path != k)
            ==> store.contains_key(k) && run_pass(store, files).0[k] == store[k],
        forall|k: Seq<char>| store.contains_key(k) ==> #[trigger] run_pass(store, files).0.contains_key(k),
    decreases files.len(),
{
    if files.len() > 0 {
        let prev = files.drop_last();
        assert forall|i: int, j: int| 0 <= i < j < prev.len() implies #[trigger] prev[i].path != #[trigger] prev[j].path by {
            assert(files[i].path != files[j].path);
        }
        lemma_pass_records(store, prev);
        let n = files.len() - 1;
        let s0 = run_pass(store, prev).0;
        let f = files[n];
        assert(prev =~= files.drop_last());
        assert(run_pass(store, files).0 == s0 || run_pass(store, files).0 == s0.insert(f.path, f.hash->0));
        assert(!f.binary && f.hash is Some && f.readable ==> run_pass(store, files).0.contains_key(f.path) && run_pass(store, files).0[f.path] == f.hash->0);
        assert forall|j: int| 0 <= j < n implies files[j].path != files[n].path by {
            assert(files[j].path != files[n].path);
        }
        assert forall|j: int|
            0 <= j < files.len() && !files[j].binary && files[j].hash is Some && files[j].readable implies run_pass(store, files).0.contains_key(#[trigger] files[j].path)
                && run_pass(store, files).0[files[j].path] == files[j].hash->0 by {
            if j < n {
                assert(prev[j] == files[j]);
                assert(files[j].path != f.path);
            }
        }
        assert forall|k: Seq<char>| #[trigger] run_pass(store, files).0.contains_key(k) && (forall|j: int| 0 <= j < files.len() ==> files[j].path != k)
            implies store.contains_key(k) && run_pass(store, files).0[k] == store[k] by {
            assert(files[n].path != k);
            assert forall|j: int| 0 <= j < prev.len() implies prev[j].path != k by {
                assert(files[j].path != k);
            }
            assert(s0.contains_key(k));
        }
    }
}

proof fn lemma_second_pass(store: Map<Seq<char>, Seq<char>>, files: Seq<FileSeen>, k: int)
    requires
        distinct_paths(files),
        all_readable(files),
        0 <= k <= files.len(),
        forall|j: int|
            0 <= j < files.len() && !files[j].binary && files[j].hash is Some && files[j].readable ==> store.contains_key(#[trigger] files[j].path)
                && store[files[j].path] == files[j].hash->0,
    ensures
        run_pass(store, files.take(k)).0 == store,
        run_pass(store, files.take(k)).1.indexed == 0,
        run_pass(store, files.take(k)).1.unchanged == readable_count(files.take(k)),
    decreases k,
{
    if k > 0 {
        lemma_second_pass(store, files, k - 1);
        let t = files.take(k);
        assert(t.drop_last() =~= files.take(k - 1));
        assert(t.last() == files[k - 1]);
    }
}

/// Every file that hashes can also be read.
pub open spec fn all_readable(files: Seq<FileSeen>) -> bool {
    forall|i: int| 0 <= i < files.len() && (#[trigger] files[i]).hash is Some ==> files[i].readable
}

/// Indexing is incremental: a second pass over the same readable files,
/// against the store the first pass left, indexes nothing, finds every
/// non-binary file unchanged, and leaves the store as it was.
pub proof fn lemma_second_pass_unchanged(store: Map<Seq<char>, Seq<char>>, files: Seq<FileSeen>)
    requires
        distinct_paths(files),
        all_readable(files),
    ensures
        ({
            let first = run_pass(store, files).0;
            let second = run_pass(first, files);
            &&& second.0 == first
            &&& second.1.indexed == 0
            &&& second.1.unchanged == readable_count(files)
        }),
{
    lemma_pass_records(store, files);
    let first = run_pass(store, files).0;
    lemma_second_pass(first, files, files.len() as int);
    assert(files.take(files.len() as int) =~= files);
}

} // verus!
