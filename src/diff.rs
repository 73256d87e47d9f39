//! Structural diff of two versions of a file: chunks are keyed by kind,
//! name and the how-manieth chunk with that kind and name they are, so that
//! two `new` methods in different `impl` blocks stay apart.

use vstd::prelude::*;
use crate::chunker::{ChunkModel, models, opt_view};
use crate::records::ChunkInsert;
use crate::text::{chars_of, str_eq, string_of};
use crate::syntax::{trim, trim_vec};

verus! {

/// A symbol that a diff reports.
pub struct SymbolChange {
    pub kind: String,
    pub name: String,
    pub start_line: u32,
    pub end_line: u32,
}

pub struct ChangeModel {
    pub kind: Seq<char>,
    pub name: Seq<char>,
    pub start_line: u32,
    pub end_line: u32,
}

impl View for SymbolChange {
    type V = ChangeModel;

    open spec fn view(&self) -> ChangeModel {
        ChangeModel {
            kind: self.kind@,
            name: self.name@,
            start_line: self.start_line,
            end_line: self.end_line,
        }
    }
}

pub open spec fn change_models(v: Seq<SymbolChange>) -> Seq<ChangeModel> {
    v.map_values(|c: SymbolChange| c@)
}

pub open spec fn name_or_empty(n: Option<Seq<char>>) -> Seq<char> {
    match n {
        Some(s) => s,
        None => Seq::empty(),
    }
}

/// Raw chunks take no part in a diff.
pub open spec fn counted(c: ChunkModel) -> bool {
    c.kind != "raw"@
}

pub open spec fn same_symbol(a: ChunkModel, b: ChunkModel) -> bool {
    a.kind == b.kind && name_or_empty(a.name) == name_or_empty(b.name)
}

/// How many counted chunks before position `i` share `c`'s kind and name.
pub open spec fn rank_before(s: Seq<ChunkModel>, c: ChunkModel, i: int) -> nat
    decreases i,
{
    if i <= 0 || i > s.len() {
        0
    } else {
        rank_before(s, c, i - 1) + (if counted(s[i - 1]) && same_symbol(s[i - 1], c) {
            1nat
        } else {
            0nat
        })
    }
}

/// The key of the chunk at `i`: kind, name, and its rank among equals.
pub open spec fn key_at(s: Seq<ChunkModel>, i: int) -> (Seq<char>, Seq<char>, nat) {
    (s[i].kind, name_or_empty(s[i].name), rank_before(s, s[i], i))
}

pub open spec fn has_key(s: Seq<ChunkModel>, k: (Seq<char>, Seq<char>, nat)) -> bool {
    exists|j: int| 0 <= j < s.len() && counted(s[j]) && #[trigger] key_at(s, j) == k
}

pub open spec fn change_of(c: ChunkModel) -> ChangeModel {
    ChangeModel {
        kind: c.kind,
        name: name_or_empty(c.name),
        start_line: c.start_line,
        end_line: c.end_line,
    }
}

/// The counted chunks of `src` (among its first `i`) whose key `other` lacks.
pub open spec fn missing_upto(src: Seq<ChunkModel>, other: Seq<ChunkModel>, i: int) -> Seq<
    ChangeModel,
>
    decreases i,
{
    if i <= 0 || i > src.len() {
        Seq::empty()
    } else {
        missing_upto(src, other, i - 1) + (if counted(src[i - 1]) && !has_key(
            other,
            key_at(src, i - 1),
        ) {
            seq![change_of(src[i - 1])]
        } else {
            Seq::empty()
        })
    }
}

pub open spec fn missing_from(src: Seq<ChunkModel>, other: Seq<ChunkModel>) -> Seq<ChangeModel> {
    missing_upto(src, other, src.len() as int)
}

/// Whether `base` holds the key of `head[i]` with other content.
pub open spec fn content_differs(base: Seq<ChunkModel>, head: Seq<ChunkModel>, i: int) -> bool {
    exists|j: int|
        0 <= j < base.len() && counted(base[j]) && #[trigger] key_at(base, j) == key_at(head, i)
            && base[j].content != head[i].content
}

pub open spec fn modified_upto(base: Seq<ChunkModel>, head: Seq<ChunkModel>, i: int) -> Seq<
    ChangeModel,
>
    decreases i,
{
    if i <= 0 || i > head.len() {
        Seq::empty()
    } else {
        modified_upto(base, head, i - 1) + (if counted(head[i - 1]) && content_differs(
            base,
            head,
            i - 1,
        ) {
            seq![change_of(head[i - 1])]
        } else {
            Seq::empty()
        })
    }
}

/// Symbols of `head` absent from `base`.
pub open spec fn added_spec(base: Seq<ChunkModel>, head: Seq<ChunkModel>) -> Seq<ChangeModel> {
    missing_from(head, base)
}

/// Symbols of `base` absent from `head`.
pub open spec fn removed_spec(base: Seq<ChunkModel>, head: Seq<ChunkModel>) -> Seq<ChangeModel> {
    missing_from(base, head)
}

/// Symbols of `head` whose content differs from the same key in `base`.
pub open spec fn modified_spec(base: Seq<ChunkModel>, head: Seq<ChunkModel>) -> Seq<ChangeModel> {
    modified_upto(base, head, head.len() as int)
}

/// The keys that both versions hold with different content.
pub open spec fn modified_keys(a: Seq<ChunkModel>, b: Seq<ChunkModel>) -> Set<
    (Seq<char>, Seq<char>, nat),
> {
    Set::new(
        |k: (Seq<char>, Seq<char>, nat)|
            exists|i: int, j: int|
                0 <= i < a.len() && 0 <= j < b.len() && counted(a[i]) && counted(b[j])
                    && #[trigger] key_at(a, i) == k && #[trigger] key_at(b, j) == k && a[i].content
                    != b[j].content,
    )
}

/// Diffing is symmetric: what `diff(a, b)` adds, `diff(b, a)` removes, and
/// the other way round; and both directions find the same keys modified.
pub proof fn lemma_diff_symmetric(a: Seq<ChunkModel>, b: Seq<ChunkModel>)
    ensures
        added_spec(a, b) == removed_spec(b, a),
        removed_spec(a, b) == added_spec(b, a),
        modified_keys(a, b) == modified_keys(b, a),
{
    assert(modified_keys(a, b) =~= modified_keys(b, a)) by {
        assert forall|k| modified_keys(a, b).contains(k) implies modified_keys(b, a).contains(k) by {
            let (i, j) = choose|i: int, j: int|
                0 <= i < a.len() && 0 <= j < b.len() && counted(a[i]) && counted(b[j])
                    && #[trigger] key_at(a, i) == k && #[trigger] key_at(b, j) == k && a[i].content
                    != b[j].content;
            assert(key_at(b, j) == k && key_at(a, i) == k);
        }
        assert forall|k| modified_keys(b, a).contains(k) implies modified_keys(a, b).contains(k) by {
            let (i, j) = choose|i: int, j: int|
                0 <= i < b.len() && 0 <= j < a.len() && counted(b[i]) && counted(a[j])
                    && #[trigger] key_at(b, i) == k && #[trigger] key_at(a, j) == k && b[i].content
                    != a[j].content;
            assert(key_at(a, j) == k && key_at(b, i) == k);
        }
    }
}

fn is_counted(c: &ChunkInsert) -> (r: bool)
    ensures
        r == counted(c@),
{
    !str_eq(c.kind.as_str(), "raw")
}

fn name_text(c: &ChunkInsert) -> (r: &str)
    ensures
        r@ == name_or_empty(opt_view(c.name)),
{
    match &c.name {
        Some(n) => n.as_str(),
        None => {
            proof { reveal_strlit(""); }
            ""
        },
    }
}

fn same_symbol_exec(a: &ChunkInsert, b: &ChunkInsert) -> (r: bool)
    ensures
        r == same_symbol(a@, b@),
{
    str_eq(a.kind.as_str(), b.kind.as_str()) && str_eq(name_text(a), name_text(b))
}

/// The rank of each chunk among earlier counted chunks of its kind and name.
fn ranks(chunks: &Vec<ChunkInsert>) -> (r: Vec<usize>)
    ensures
        r@.len() == chunks@.len(),
        forall|i: int| 0 <= i < r@.len() ==> r@[i] == rank_before(models(chunks@), chunks@[i]@, i),
{
    let ghost s = models(chunks@);
    let mut out: Vec<usize> = Vec::new();
    let mut i: usize = 0;
    while i < chunks.len()
        invariant
            i <= chunks.len(),
            s == models(chunks@),
            out@.len() == i,
            forall|k: int| 0 <= k < i ==> out@[k] == rank_before(s, chunks@[k]@, k),
        decreases chunks.len() - i,
    {
        let mut n: usize = 0;
        let mut j: usize = 0;
        while j < i
            invariant
                j <= i < chunks.len(),
                s == models(chunks@),
                n == rank_before(s, chunks@[i as int]@, j as int),
                n <= j,
            decreases i - j,
        {
            if is_counted(&chunks[j]) && same_symbol_exec(&chunks[j], &chunks[i]) {
                n = n + 1;
            }
            j = j + 1;
        }
        out.push(n);
        i = i + 1;
    }
    out
}

fn change_exec(c: &ChunkInsert) -> (r: SymbolChange)
    ensures
        r@ == change_of(c@),
{
    SymbolChange {
        kind: c.kind.clone(),
        name: name_text(c).to_owned(),
        start_line: c.start_line,
        end_line: c.end_line,
    }
}

/// Where `other` holds the key of `src[i]`: its index, if any.
fn find_key(
    src: &Vec<ChunkInsert>,
    src_ranks: &Vec<usize>,
    i: usize,
    other: &Vec<ChunkInsert>,
    other_ranks: &Vec<usize>,
) -> (r: Option<usize>)
    requires
        i < src@.len(),
        src_ranks@.len() == src@.len(),
        other_ranks@.len() == other@.len(),
        forall|k: int| 0 <= k < src@.len() ==> src_ranks@[k] == rank_before(models(src@), src@[k]@, k),
        forall|k: int|
            0 <= k < other@.len() ==> other_ranks@[k] == rank_before(models(other@), other@[k]@, k),
    ensures
        match r {
            Some(j) => j < other@.len() && counted(other@[j as int]@) && key_at(models(other@), j as int)
                == key_at(models(src@), i as int),
            None => !has_key(models(other@), key_at(models(src@), i as int)),
        },
{
    let ghost so = models(src@);
    let ghost oo = models(other@);
    let mut j: usize = 0;
    while j < other.len()
        invariant
            j <= other@.len(),
            i < src@.len(),
            so == models(src@),
            oo == models(other@),
            src_ranks@.len() == src@.len(),
            other_ranks@.len() == other@.len(),
            src_ranks@[i as int] == rank_before(so, src@[i as int]@, i as int),
            forall|k: int| 0 <= k < other@.len() ==> other_ranks@[k] == rank_before(oo, other@[k]@, k),
            forall|k: int| 0 <= k < j ==> !(counted(oo[k]) && #[trigger] key_at(oo, k) == key_at(so, i as int)),
        decreases other@.len() - j,
    {
        if is_counted(&other[j]) && same_symbol_exec(&other[j], &src[i]) && other_ranks[j] == src_ranks[i] {
            return Some(j);
        }
        j = j + 1;
    }
    None
}

fn missing_exec(
    src: &Vec<ChunkInsert>,
    src_ranks: &Vec<usize>,
    other: &Vec<ChunkInsert>,
    other_ranks: &Vec<usize>,
) -> (r: Vec<SymbolChange>)
    requires
        src_ranks@.len() == src@.len(),
        other_ranks@.len() == other@.len(),
        forall|k: int| 0 <= k < src@.len() ==> src_ranks@[k] == rank_before(models(src@), src@[k]@, k),
        forall|k: int|
            0 <= k < other@.len() ==> other_ranks@[k] == rank_before(models(other@), other@[k]@, k),
    ensures
        change_models(r@) == missing_from(models(src@), models(other@)),
{
    let mut out: Vec<SymbolChange> = Vec::new();
    let mut i: usize = 0;
    while i < src.len()
        invariant
            i <= src@.len(),
            src_ranks@.len() == src@.len(),
            other_ranks@.len() == other@.len(),
            forall|k: int| 0 <= k < src@.len() ==> src_ranks@[k] == rank_before(models(src@), src@[k]@, k),
            forall|k: int|
                0 <= k < other@.len() ==> other_ranks@[k] == rank_before(models(other@), other@[k]@, k),
            change_models(out@) == missing_upto(models(src@), models(other@), i as int),
        decreases src@.len() - i,
    {
        let ghost before = out@;
        if is_counted(&src[i]) && find_key(src, src_ranks, i, other, other_ranks).is_none() {
            out.push(change_exec(&src[i]));
            assert(change_models(out@) =~= change_models(before) + seq![change_of(src@[i as int]@)]);
        } else {
            proof {
                if counted(src@[i as int]@) {
                    let j = choose|j: int| 0 <= j < other@.len() && counted(models(other@)[j]) && #[trigger] key_at(models(other@), j) == key_at(models(src@), i as int);
                }
            }
            assert(change_models(out@) =~= change_models(before) + Seq::<ChangeModel>::empty());
        }
        i = i + 1;
    }
    out
}

fn modified_exec(
    base: &Vec<ChunkInsert>,
    base_ranks: &Vec<usize>,
    head: &Vec<ChunkInsert>,
    head_ranks: &Vec<usize>,
) -> (r: Vec<SymbolChange>)
    requires
        base_ranks@.len() == base@.len(),
        head_ranks@.len() == head@.len(),
        forall|k: int| 0 <= k < base@.len() ==> base_ranks@[k] == rank_before(models(base@), base@[k]@, k),
        forall|k: int| 0 <= k < head@.len() ==> head_ranks@[k] == rank_before(models(head@), head@[k]@, k),
    ensures
        change_models(r@) == modified_spec(models(base@), models(head@)),
{
    let mut out: Vec<SymbolChange> = Vec::new();
    let mut i: usize = 0;
    while i < head.len()
        invariant
            i <= head@.len(),
            base_ranks@.len() == base@.len(),
            head_ranks@.len() == head@.len(),
            forall|k: int| 0 <= k < base@.len() ==> base_ranks@[k] == rank_before(models(base@), base@[k]@, k),
            forall|k: int| 0 <= k < head@.len() ==> head_ranks@[k] == rank_before(models(head@), head@[k]@, k),
            change_models(out@) == modified_upto(models(base@), models(head@), i as int),
        decreases head@.len() - i,
    {
        let ghost before = out@;
        let ghost bo = models(base@);
        let ghost ho = models(head@);
        let mut differs = false;
        if is_counted(&head[i]) {
            match find_key(head, head_ranks, i, base, base_ranks) {
                Some(j) => {
                    differs = !str_eq(base[j].content.as_str(), head[i].content.as_str());
                    proof {
                        if !differs {
                            assert forall|j2: int| 0 <= j2 < bo.len() && counted(bo[j2]) && #[trigger] key_at(bo, j2) == key_at(ho, i as int)
                                implies bo[j2].content == ho[i as int].content by {
                                lemma_key_unique(bo, j as int, j2);
                            }
                        }
                    }
                },
                None => {},
            }
        }
        assert(differs == (counted(ho[i as int]) && content_differs(bo, ho, i as int)));
        if differs {
            out.push(change_exec(&head[i]));
            assert(change_models(out@) =~= change_models(before) + seq![change_of(head@[i as int]@)]);
        } else {
            assert(change_models(out@) =~= change_models(before) + Seq::<ChangeModel>::empty());
        }
        i = i + 1;
    }
    out
}

proof fn lemma_rank_grows(s: Seq<ChunkModel>, c: ChunkModel, i: int, j: int)
    requires
        0 <= i < j <= s.len(),
        counted(s[i]),
        same_symbol(s[i], c),
    ensures
        rank_before(s, c, i) < rank_before(s, c, j),
    decreases j - i,
{
    if j > i + 1 {
        lemma_rank_grows(s, c, i, j - 1);
    }
}

proof fn lemma_rank_congruent(s: Seq<ChunkModel>, c: ChunkModel, d: ChunkModel, i: int)
    requires
        same_symbol(c, d),
    ensures
        rank_before(s, c, i) == rank_before(s, d, i),
    decreases i,
{
    if 0 < i <= s.len() {
        lemma_rank_congruent(s, c, d, i - 1);
    }
}

/// No two counted chunks of one version share a key.
proof fn lemma_key_unique(s: Seq<ChunkModel>, a: int, b: int)
    requires
        0 <= a < s.len(),
        0 <= b < s.len(),
        counted(s[a]),
        counted(s[b]),
        key_at(s, a) == key_at(s, b),
    ensures
        a == b,
{
    if a < b {
        assert(same_symbol(s[a], s[b]));
        lemma_rank_congruent(s, s[a], s[b], a);
        lemma_rank_grows(s, s[b], a, b);
    } else if b < a {
        assert(same_symbol(s[b], s[a]));
        lemma_rank_congruent(s, s[b], s[a], b);
        lemma_rank_grows(s, s[a], b, a);
    }
}

/// The symbols that `head` adds to, removes from and modifies in `base`.
pub fn diff_chunks(base: &Vec<ChunkInsert>, head: &Vec<ChunkInsert>) -> (r: (
    Vec<SymbolChange>,
    Vec<SymbolChange>,
    Vec<SymbolChange>,
))
    ensures
        change_models(r.0@) == added_spec(models(base@), models(head@)),
        change_models(r.1@) == removed_spec(models(base@), models(head@)),
        change_models(r.2@) == modified_spec(models(base@), models(head@)),
{
    let base_ranks = ranks(base);
    let head_ranks = ranks(head);
    let added = missing_exec(head, &head_ranks, base, &base_ranks);
    let removed = missing_exec(base, &base_ranks, head, &head_ranks);
    let modified = modified_exec(base, &base_ranks, head, &head_ranks);
    (added, removed, modified)
}

/// How a file changed between two versions.
#[derive(Clone, Copy, Debug, PartialEq, Eq, Structural)]
pub enum FileStatus {
    Added,
    Modified,
    Deleted,
}

/// The status named by a letter of a name-status listing: `A` added, `D`
/// deleted, anything else modified.
pub fn status_of(c: char) -> (r: FileStatus)
    ensures
        r == (if c == 'A' {
            FileStatus::Added
        } else if c == 'D' {
            FileStatus::Deleted
        } else {
            FileStatus::Modified
        }),
{
    if c == 'A' {
        FileStatus::Added
    } else if c == 'D' {
        FileStatus::Deleted
    } else {
        FileStatus::Modified
    }
}

/// The symbol changes of one file.
pub struct FileDiff {
    pub path: String,
    pub status: FileStatus,
    pub added: Vec<SymbolChange>,
    pub removed: Vec<SymbolChange>,
    pub modified: Vec<SymbolChange>,
}

/// Totals over the files of a diff.
pub struct DiffSummary {
    pub files_added: usize,
    pub files_modified: usize,
    pub files_deleted: usize,
    pub symbols_added: usize,
    pub symbols_modified: usize,
    pub symbols_removed: usize,
}

/// A structural diff against a base version.
pub struct BranchDiff {
    pub base_ref: String,
    pub files: Vec<FileDiff>,
    pub summary: DiffSummary,
}

/// The diff of one file between its base and head chunks.
pub fn file_diff(path: String, status: FileStatus, base: &Vec<ChunkInsert>, head: &Vec<ChunkInsert>) -> (r: FileDiff)
    ensures
        r.path == path,
        r.status == status,
        change_models(r.added@) == added_spec(models(base@), models(head@)),
        change_models(r.removed@) == removed_spec(models(base@), models(head@)),
        change_models(r.modified@) == modified_spec(models(base@), models(head@)),
{
    let (added, removed, modified) = diff_chunks(base, head);
    FileDiff { path, status, added, removed, modified }
}

pub open spec fn count_status(files: Seq<FileDiff>, st: FileStatus) -> nat
    decreases files.len(),
{
    if files.len() == 0 {
        0
    } else {
        count_status(files.drop_last(), st) + (if files.last().status == st { 1nat } else { 0nat })
    }
}

pub open spec fn sum_added(files: Seq<FileDiff>) -> nat
    decreases files.len(),
{
    if files.len() == 0 { 0 } else { sum_added(files.drop_last()) + files.last().added@.len() }
}

pub open spec fn sum_removed(files: Seq<FileDiff>) -> nat
    decreases files.len(),
{
    if files.len() == 0 { 0 } else { sum_removed(files.drop_last()) + files.last().removed@.len() }
}

pub open spec fn sum_modified(files: Seq<FileDiff>) -> nat
    decreases files.len(),
{
    if files.len() == 0 { 0 } else { sum_modified(files.drop_last()) + files.last().modified@.len() }
}

proof fn lemma_count_le(files: Seq<FileDiff>, st: FileStatus)
    ensures
        count_status(files, st) <= files.len(),
    decreases files.len(),
{
    if files.len() > 0 {
        lemma_count_le(files.drop_last(), st);
    }
}

/// A diff against `base_ref` made of `files`, with its totals.
pub fn assemble_diff(base_ref: &str, files: Vec<FileDiff>) -> (r: BranchDiff)
    requires
        sum_added(files@) <= usize::MAX,
        sum_removed(files@) <= usize::MAX,
        sum_modified(files@) <= usize::MAX,
    ensures
        r.base_ref@ == base_ref@,
        r.files@ == files@,
        r.summary.files_added == count_status(files@, FileStatus::Added),
        r.summary.files_modified == count_status(files@, FileStatus::Modified),
        r.summary.files_deleted == count_status(files@, FileStatus::Deleted),
        r.summary.symbols_added == sum_added(files@),
        r.summary.symbols_removed == sum_removed(files@),
        r.summary.symbols_modified == sum_modified(files@),
{
    let mut s = DiffSummary {
        files_added: 0,
        files_modified: 0,
        files_deleted: 0,
        symbols_added: 0,
        symbols_modified: 0,
        symbols_removed: 0,
    };
    let mut i: usize = 0;
    while i < files.len()
        invariant
            i <= files@.len(),
            sum_added(files@) <= usize::MAX,
            sum_removed(files@) <= usize::MAX,
            sum_modified(files@) <= usize::MAX,
            s.files_added == count_status(files@.take(i as int), FileStatus::Added),
            s.files_modified == count_status(files@.take(i as int), FileStatus::Modified),
            s.files_deleted == count_status(files@.take(i as int), FileStatus::Deleted),
            s.symbols_added == sum_added(files@.take(i as int)),
            s.symbols_removed == sum_removed(files@.take(i as int)),
            s.symbols_modified == sum_modified(files@.take(i as int)),
        decreases files@.len() - i,
    {
        let ghost t = files@.take(i + 1);
        proof {
            assert(t.drop_last() =~= files@.take(i as int));
            lemma_count_le(t, FileStatus::Added);
            lemma_count_le(t, FileStatus::Modified);
            lemma_count_le(t, FileStatus::Deleted);
            lemma_sums_prefix(files@, i + 1);
        }
        let f = &files[i];
        match f.status {
            FileStatus::Added => s.files_added = s.files_added + 1,
            FileStatus::Modified => s.files_modified = s.files_modified + 1,
            FileStatus::Deleted => s.files_deleted = s.files_deleted + 1,
        }
        s.symbols_added = s.symbols_added + f.added.len();
        s.symbols_removed = s.symbols_removed + f.removed.len();
        s.symbols_modified = s.symbols_modified + f.modified.len();
        i = i + 1;
    }
    assert(files@.take(files@.len() as int) =~= files@);
    BranchDiff { base_ref: base_ref.to_owned(), files, summary: s }
}

proof fn lemma_sums_prefix(files: Seq<FileDiff>, k: int)
    requires
        0 <= k <= files.len(),
    ensures
        sum_added(files.take(k)) <= sum_added(files),
        sum_removed(files.take(k)) <= sum_removed(files),
        sum_modified(files.take(k)) <= sum_modified(files),
    decreases files.len() - k,
{
    if k < files.len() {
        lemma_sums_prefix(files, k + 1);
        assert(files.take(k + 1).drop_last() =~= files.take(k));
    } else {
        assert(files.take(k) =~= files);
    }
}

/// Index of the first NUL at or after `i`, or the end.
pub open spec fn nul_end(t: Seq<char>, i: int) -> int
    decreases t.len() - i,
{
    if i < 0 || i >= t.len() {
        t.len() as int
    } else if t[i] == '\0' {
        i
    } else {
        nul_end(t, i + 1)
    }
}

/// `t` split at each NUL, as `str::split('\0')` gives it.
pub open spec fn split_nul(t: Seq<char>) -> Seq<Seq<char>>
    decreases t.len(),
{
    let e = nul_end(t, 0);
    if 0 <= e < t.len() {
        seq![t.take(e)] + split_nul(t.skip(e + 1))
    } else {
        seq![t]
    }
}

/// The (status, path) pairs of a name-status listing, from piece `i` on:
/// a status piece (blank pieces skipped) is followed by its path piece, and
/// pairs with an empty path are dropped.
pub open spec fn status_pairs(parts: Seq<Seq<char>>, i: int) -> Seq<(char, Seq<char>)>
    decreases parts.len() - i,
{
    if i < 0 || i >= parts.len() {
        Seq::empty()
    } else if trim(parts[i]).len() == 0 {
        status_pairs(parts, i + 1)
    } else if i + 1 < parts.len() {
        (if parts[i + 1].len() > 0 {
            seq![(trim(parts[i])[0], parts[i + 1])]
        } else {
            Seq::empty()
        }) + status_pairs(parts, i + 2)
    } else {
        Seq::empty()
    }
}

proof fn lemma_nul_end(t: Seq<char>, i: int)
    requires
        0 <= i <= t.len(),
    ensures
        i <= nul_end(t, i) <= t.len(),
        nul_end(t, i) < t.len() ==> t[nul_end(t, i)] == '\0',
    decreases t.len() - i,
{
    if i < t.len() && t[i] != '\0' {
        lemma_nul_end(t, i + 1);
    }
}

proof fn lemma_nul_end_shift(t: Seq<char>, p: int, i: int)
    requires
        0 <= p <= i <= t.len(),
    ensures
        nul_end(t.skip(p), i - p) == nul_end(t, i) - p,
    decreases t.len() - i,
{
    if i < t.len() && t[i] != '\0' {
        lemma_nul_end_shift(t, p, i + 1);
    }
}

fn split_nul_exec(t: &Vec<char>) -> (r: Vec<Vec<char>>)
    ensures
        r@.len() == split_nul(t@).len(),
        forall|k: int| 0 <= k < r@.len() ==> #[trigger] r@[k]@ == split_nul(t@)[k],
{
    let mut out: Vec<Vec<char>> = Vec::new();
    let mut p: usize = 0;
    let n = t.len();
    assert(t@.skip(0) =~= t@);
    loop
        invariant
            p <= n == t@.len(),
            forall|k: int| 0 <= k < out@.len() ==> #[trigger] out@[k]@ == split_nul(t@)[k],
            split_nul(t@) =~= out@.map_values(|v: Vec<char>| v@) + split_nul(t@.skip(p as int)),
        decreases n - p,
    {
        let mut e = p;
        proof {
            lemma_nul_end(t@, p as int);
            lemma_nul_end_shift(t@, p as int, p as int);
        }
        while e < n && t[e] != '\0'
            invariant
                p <= e <= n == t@.len(),
                nul_end(t@, e as int) == nul_end(t@, p as int),
            decreases n - e,
        {
            e = e + 1;
        }
        let mut piece: Vec<char> = Vec::new();
        let mut k = p;
        while k < e
            invariant
                p <= k <= e <= n == t@.len(),
                piece@ == t@.subrange(p as int, k as int),
            decreases e - k,
        {
            piece.push(t[k]);
            assert(t@.subrange(p as int, k + 1) =~= t@.subrange(p as int, k as int).push(t@[k as int]));
            k = k + 1;
        }
        let ghost rest = t@.skip(p as int);
        let ghost before = out@;
        proof {
            assert(rest.take(e - p) =~= piece@);
        }
        out.push(piece);
        if e < n {
            proof {
                assert(rest.skip(e - p + 1) =~= t@.skip(e + 1));
                assert(split_nul(rest) =~= seq![rest.take(e - p)] + split_nul(t@.skip(e + 1)));
                assert(out@.map_values(|v: Vec<char>| v@) =~= before.map_values(|v: Vec<char>| v@).push(rest.take(e - p)));
            }
            p = e + 1;
        } else {
            proof {
                assert(rest =~= piece@);
                assert(split_nul(rest) =~= seq![rest]);
                assert(out@.map_values(|v: Vec<char>| v@) =~= before.map_values(|v: Vec<char>| v@).push(rest));
                assert(split_nul(t@) =~= out@.map_values(|v: Vec<char>| v@));
                assert forall|k: int| 0 <= k < out@.len() implies #[trigger] out@[k]@ == split_nul(t@)[k] by {
                    assert(out@.map_values(|v: Vec<char>| v@)[k] == out@[k]@);
                }
            }
            return out;
        }
    }
}

/// The (status letter, path) pairs of a NUL-separated name-status listing.
pub fn parse_name_status_nul(text: &str) -> (r: Vec<(char, String)>)
    ensures
        r@.len() == status_pairs(split_nul(text@), 0).len(),
        forall|k: int| 0 <= k < r@.len() ==> (#[trigger] r@[k]).0 == status_pairs(split_nul(text@), 0)[k].0
            && r@[k].1@ == status_pairs(split_nul(text@), 0)[k].1,
{
    let parts = split_nul_exec(&chars_of(text));
    let ghost ps = split_nul(text@);
    let mut out: Vec<(char, String)> = Vec::new();
    let mut i: usize = 0;
    while i < parts.len()
        invariant
            i <= parts@.len() + 1,
            parts@.len() == ps.len(),
            forall|k: int| 0 <= k < parts@.len() ==> #[trigger] parts@[k]@ == ps[k],
            out@.map_values(|x: (char, String)| (x.0, x.1@)) + status_pairs(ps, i as int) == status_pairs(ps, 0),
        decreases parts@.len() + 1 - i,
    {
        let ghost before = out@;
        let st = trim_vec(&parts[i]);
        if st.len() == 0 {
            i = i + 1;
        } else if i + 1 < parts.len() {
            if parts[i + 1].len() > 0 {
                out.push((st[0], string_of(&parts[i + 1])));
                proof {
                    assert(out@.map_values(|x: (char, String)| (x.0, x.1@)) =~= before.map_values(|x: (char, String)| (x.0, x.1@)).push((trim(ps[i as int])[0], ps[i + 1]))); 
                }
            }
            i = i + 2;
        } else {
            i = parts.len();
        }
    }
    proof {
        let m = out@.map_values(|x: (char, String)| (x.0, x.1@));
        assert(m =~= status_pairs(ps, 0));
        assert forall|k: int| 0 <= k < out@.len() implies (#[trigger] out@[k]).0 == status_pairs(ps, 0)[k].0
            && out@[k].1@ == status_pairs(ps, 0)[k].1 by {
            assert(m[k] == (out@[k].0, out@[k].1@));
        }
    }
    out
}

/// The paths of a NUL-separated name-status listing, in order.
pub fn changed_files(name_status: &str) -> (r: Vec<String>)
    ensures
        r@.len() == status_pairs(split_nul(name_status@), 0).len(),
        forall|k: int| 0 <= k < r@.len() ==> (#[trigger] r@[k])@ == status_pairs(split_nul(name_status@), 0)[k].1,
{
    let pairs = parse_name_status_nul(name_status);
    let mut out: Vec<String> = Vec::new();
    let mut i: usize = 0;
    while i < pairs.len()
        invariant
            i <= pairs@.len(),
            out@.len() == i,
            forall|k: int| 0 <= k < i ==> (#[trigger] out@[k])@ == pairs@[k].1@,
        decreases pairs@.len() - i,
    {
        out.push(pairs[i].1.clone());
        i = i + 1;
    }
    out
}

/// Keys of the modified chunks of `head`, among its first `i`, in order.
pub open spec fn modified_keys_upto(base: Seq<ChunkModel>, head: Seq<ChunkModel>, i: int) -> Seq<(Seq<char>, Seq<char>, nat)>
    decreases i,
{
    if i <= 0 || i > head.len() {
        Seq::empty()
    } else {
        modified_keys_upto(base, head, i - 1) + (if counted(head[i - 1]) && content_differs(base, head, i - 1) {
            seq![key_at(head, i - 1)]
        } else {
            Seq::empty()
        })
    }
}

pub open spec fn symbol_of_change(c: ChangeModel) -> (Seq<char>, Seq<char>) {
    (c.kind, c.name)
}

pub open spec fn symbol_of_key(k: (Seq<char>, Seq<char>, nat)) -> (Seq<char>, Seq<char>) {
    (k.0, k.1)
}

proof fn lemma_modified_symbols(base: Seq<ChunkModel>, head: Seq<ChunkModel>, i: int)
    requires
        0 <= i <= head.len(),
    ensures
        modified_upto(base, head, i).map_values(|c: ChangeModel| symbol_of_change(c))
            == modified_keys_upto(base, head, i).map_values(|k: (Seq<char>, Seq<char>, nat)| symbol_of_key(k)),
    decreases i,
{
    if i > 0 {
        lemma_modified_symbols(base, head, i - 1);
        let m0 = modified_upto(base, head, i - 1);
        let k0 = modified_keys_upto(base, head, i - 1);
        let f = |c: ChangeModel| symbol_of_change(c);
        let g = |k: (Seq<char>, Seq<char>, nat)| symbol_of_key(k);
        assert(m0.map_values(f) == k0.map_values(g));
        assert(m0.len() == k0.len()) by {
            assert(m0.map_values(f).len() == k0.map_values(g).len());
        }
        let lm = modified_upto(base, head, i).map_values(f);
        let lk = modified_keys_upto(base, head, i).map_values(g);
        if counted(head[i - 1]) && content_differs(base, head, i - 1) {
            assert(modified_upto(base, head, i) == m0.push(change_of(head[i - 1])));
            assert(modified_keys_upto(base, head, i) == k0.push(key_at(head, i - 1)));
            assert forall|j: int| 0 <= j < lm.len() implies lm[j] == lk[j] by {
                if j < m0.len() {
                    assert(lm[j] == m0.map_values(f)[j]);
                    assert(lk[j] == k0.map_values(g)[j]);
                }
            }
        } else {
            assert(modified_upto(base, head, i) =~= m0);
            assert(modified_keys_upto(base, head, i) =~= k0);
        }
        assert(lm =~= lk);
    }
}

proof fn lemma_modified_keys_members(base: Seq<ChunkModel>, head: Seq<ChunkModel>, i: int)
    requires
        0 <= i <= head.len(),
    ensures
        forall|k| #[trigger] modified_keys_upto(base, head, i).contains(k) <==> exists|h: int|
            0 <= h < i && counted(head[h]) && key_at(head, h) == k && content_differs(base, head, h),
        modified_keys_upto(base, head, i).no_duplicates(),
    decreases i,
{
    if i > 0 {
        lemma_modified_keys_members(base, head, i - 1);
        let prev = modified_keys_upto(base, head, i - 1);
        let cur = modified_keys_upto(base, head, i);
        assert forall|k| #[trigger] cur.contains(k) <==> exists|h: int|
            0 <= h < i && counted(head[h]) && key_at(head, h) == k && content_differs(base, head, h) by {
            if cur.contains(k) {
                let q = choose|q: int| 0 <= q < cur.len() && cur[q] == k;
                if q < prev.len() {
                    assert(prev[q] == k);
                    assert(prev.contains(k));
                }
            }
            if exists|h: int| 0 <= h < i && counted(head[h]) && key_at(head, h) == k && content_differs(base, head, h) {
                let h = choose|h: int| 0 <= h < i && counted(head[h]) && key_at(head, h) == k && content_differs(base, head, h);
                if h < i - 1 {
                    assert(prev.contains(k));
                    let q = choose|q: int| 0 <= q < prev.len() && prev[q] == k;
                    assert(cur[q] == k);
                } else {
                    assert(cur[cur.len() - 1] == k);
                }
            }
        }
        if counted(head[i - 1]) && content_differs(base, head, i - 1) {
            let k = key_at(head, i - 1);
            assert(!prev.contains(k)) by {
                if prev.contains(k) {
                    let h = choose|h: int| 0 <= h < i - 1 && counted(head[h]) && key_at(head, h) == k && content_differs(base, head, h);
                    lemma_key_unique(head, h, i - 1);
                }
            }
            assert forall|a: int, b: int| 0 <= a < cur.len() && 0 <= b < cur.len() && a != b implies cur[a] != cur[b] by {
                if a < prev.len() && b < prev.len() {
                } else if a < prev.len() {
                    assert(cur[a] == prev[a]);
                } else {
                    assert(cur[b] == prev[b]);
                }
            }
        } else {
            assert(cur =~= prev);
        }
    }
}

/// Keys that both hold, with different content, seen from either side.
proof fn lemma_differs_symmetric(a: Seq<ChunkModel>, b: Seq<ChunkModel>, k: (Seq<char>, Seq<char>, nat))
    ensures
        (exists|h: int| 0 <= h < b.len() && counted(b[h]) && key_at(b, h) == k && content_differs(a, b, h))
            ==> (exists|h: int| 0 <= h < a.len() && counted(a[h]) && key_at(a, h) == k && content_differs(b, a, h)),
{
    if exists|h: int| 0 <= h < b.len() && counted(b[h]) && key_at(b, h) == k && content_differs(a, b, h) {
        let h = choose|h: int| 0 <= h < b.len() && counted(b[h]) && key_at(b, h) == k && content_differs(a, b, h);
        let j = choose|j: int| 0 <= j < a.len() && counted(a[j]) && #[trigger] key_at(a, j) == key_at(b, h)
            && a[j].content != b[h].content;
        assert(content_differs(b, a, j));
    }
}

proof fn lemma_same_members_multiset<T>(s: Seq<T>, t: Seq<T>)
    requires
        s.no_duplicates(),
        t.no_duplicates(),
        forall|x: T| s.contains(x) <==> t.contains(x),
    ensures
        s.to_multiset() == t.to_multiset(),
{
    broadcast use vstd::seq_lib::to_multiset_contains;

    s.lemma_multiset_has_no_duplicates();
    t.lemma_multiset_has_no_duplicates();
    assert forall|x: T| s.to_multiset().count(x) == t.to_multiset().count(x) by {
        if s.contains(x) {
            assert(s.to_multiset().contains(x));
            assert(t.to_multiset().contains(x));
        } else {
            assert(!s.to_multiset().contains(x));
            assert(!t.to_multiset().contains(x));
        }
    }
    assert(s.to_multiset() =~= t.to_multiset());
}

proof fn lemma_map_multiset<T, U>(s: Seq<T>, t: Seq<T>, f: spec_fn(T) -> U)
    requires
        s.to_multiset() == t.to_multiset(),
    ensures
        s.map_values(f).to_multiset() == t.map_values(f).to_multiset(),
    decreases s.len(),
{
    broadcast use vstd::seq_lib::to_multiset_contains, vstd::seq_lib::to_multiset_remove,
        vstd::seq_lib::to_multiset_insert, vstd::seq_lib::to_multiset_build, vstd::seq_lib::to_multiset_len;

    if s.len() == 0 {
        assert(t.to_multiset().len() == 0);
        assert(t.len() == 0);
        assert(s.map_values(f) =~= t.map_values(f));
    } else {
        let x = s.last();
        assert(s =~= s.drop_last().push(x));
        assert(s.to_multiset().contains(x));
        assert(t.contains(x));
        let j = choose|j: int| 0 <= j < t.len() && t[j] == x;
        let t2 = t.remove(j);
        assert(t2.to_multiset() == t.to_multiset().remove(x));
        assert(s.drop_last().to_multiset() == s.to_multiset().remove(x));
        lemma_map_multiset(s.drop_last(), t2, f);
        assert(t =~= t2.insert(j, x));
        assert(t.map_values(f) =~= t2.map_values(f).insert(j, f(x)));
        assert(s.map_values(f) =~= s.drop_last().map_values(f).push(f(x)));
    }
}

/// Modification is symmetric by symbol: `diff(a, b)` and `diff(b, a)`
/// report the same (kind, name) pairs as modified, counted with multiplicity.
pub proof fn lemma_modified_symmetric(a: Seq<ChunkModel>, b: Seq<ChunkModel>)
    ensures
        modified_spec(a, b).map_values(|c: ChangeModel| symbol_of_change(c)).to_multiset()
            == modified_spec(b, a).map_values(|c: ChangeModel| symbol_of_change(c)).to_multiset(),
{
    let ka = modified_keys_upto(a, b, b.len() as int);
    let kb = modified_keys_upto(b, a, a.len() as int);
    lemma_modified_keys_members(a, b, b.len() as int);
    lemma_modified_keys_members(b, a, a.len() as int);
    assert forall|k| ka.contains(k) <==> kb.contains(k) by {
        lemma_differs_symmetric(a, b, k);
        lemma_differs_symmetric(b, a, k);
    }
    lemma_same_members_multiset(ka, kb);
    lemma_map_multiset(ka, kb, |k: (Seq<char>, Seq<char>, nat)| symbol_of_key(k));
    lemma_modified_symbols(a, b, b.len() as int);
    lemma_modified_symbols(b, a, a.len() as int);
}

} // verus!
