//! Keyword-search queries and the re-ranking applied to what the index
//! returns: a static adjustment by chunk kind and size, a bias from the
//! session's focus, visited paths and annotations, then a stable sort.

use vstd::prelude::*;
use crate::records::{SearchResult, RANK_SCALE};
use crate::text::{has_prefix, starts_with, str_eq};

verus! {

/// A keyword search request.
pub struct SearchQuery {
    pub text: String,
    pub language: Option<String>,
    pub path_prefix: Option<String>,
    pub kind: Option<String>,
    pub max_results: usize,
    pub session_id: Option<String>,
}

impl SearchQuery {
    /// A query for `text` with no filters, no session and room for 20 results.
    pub fn new(text: &str) -> (r: Self)
        ensures
            r.text@ == text@,
            r.language is None,
            r.path_prefix is None,
            r.kind is None,
            r.max_results == 20,
            r.session_id is None,
    {
        SearchQuery {
            text: text.to_owned(),
            language: None,
            path_prefix: None,
            kind: None,
            max_results: 20,
            session_id: None,
        }
    }
}

/// A semantic search request.
pub struct SemanticQuery {
    pub text: String,
    pub max_results: usize,
    pub path_prefix: Option<String>,
    pub language: Option<String>,
}

impl SemanticQuery {
    /// A query for `text` with no filters and room for 20 results.
    pub fn new(text: &str) -> (r: Self)
        ensures
            r.text@ == text@,
            r.max_results == 20,
            r.path_prefix is None,
            r.language is None,
    {
        SemanticQuery { text: text.to_owned(), max_results: 20, path_prefix: None, language: None }
    }
}

/// Totals of an embedding run.
pub struct EmbedStats {
    pub total_chunks: i64,
    pub embedded: i64,
    pub newly_embedded: usize,
}

/// Why a search found nothing. `index_found`: an index exists;
/// `has_chunks`: whether it holds chunks under the prefix (`None` when that
/// could not be read).
pub fn explain_empty_search(index_found: bool, has_chunks: Option<bool>, path_prefix: Option<&str>) -> (r: String)
    ensures
        !index_found ==> r@ == "No index found. Run 'index' first."@,
        index_found && has_chunks == Some(false) && path_prefix is Some ==> r@ == "Path prefix has no indexed files."@,
        index_found && has_chunks == Some(false) && path_prefix is None ==> r@ == "No indexed files. Run 'index' first."@,
        index_found && has_chunks != Some(false) ==> r@ == "No matches."@,
{
    if !index_found {
        "No index found. Run 'index' first.".to_owned()
    } else {
        match has_chunks {
            Some(false) => {
                if path_prefix.is_some() {
                    "Path prefix has no indexed files.".to_owned()
                } else {
                    "No indexed files. Run 'index' first.".to_owned()
                }
            },
            _ => "No matches.".to_owned(),
        }
    }
}

/// Ranks handed to the re-ranker stay this far from the ends of `i64`.
pub const RANK_BOUND: i64 = 0x1000_0000_0000_0000;

pub open spec fn line_count(r: SearchResult) -> int {
    r.end_line - r.start_line + 1
}

pub open spec fn well_formed(r: SearchResult) -> bool {
    &&& 0 <= r.start_line <= r.end_line <= u32::MAX
    &&& -RANK_BOUND <= r.rank <= RANK_BOUND
}

pub open spec fn total_lines(s: Seq<SearchResult>) -> int
    decreases s.len(),
{
    if s.len() == 0 {
        0
    } else {
        total_lines(s.drop_last()) + line_count(s.last())
    }
}

/// Structural chunks are preferred over free text.
pub open spec fn is_code_kind(k: Seq<char>) -> bool {
    k != "raw"@ && k != "module"@
}

/// The static adjustment, in millionths: `+3` for a structural chunk, and
/// for a chunk over twice the average length (`total / n` lines) a penalty
/// of half its ratio to the average, capped at `4`.
pub open spec fn static_boost(r: SearchResult, n: int, total: int) -> int {
    let lines = line_count(r);
    (if is_code_kind(r.chunk_kind@) { 3 * RANK_SCALE } else { 0 }) - (if total > 0 && lines * n > 2
        * total {
        let ratio = lines * n * RANK_SCALE / (2 * total);
        if ratio < 4 * RANK_SCALE {
            ratio
        } else {
            4 * RANK_SCALE
        }
    } else {
        0
    })
}

pub open spec fn under_any(path: Seq<char>, prefixes: Seq<String>) -> bool {
    exists|i: int| 0 <= i < prefixes.len() && has_prefix(path, #[trigger] prefixes[i]@)
}

pub open spec fn targets_result(r: SearchResult, t: Seq<char>) -> bool {
    r.file_path@ == t || (r.chunk_name is Some && r.chunk_name->0@ == t)
}

pub open spec fn annotated(r: SearchResult, targets: Seq<String>) -> bool {
    exists|i: int| 0 <= i < targets.len() && targets_result(r, #[trigger] targets[i]@)
}

/// The session bias, in millionths: `+5` under a focus path, `-3` under a
/// visited path, `+2` when an annotation targets the file or the chunk's name.
pub open spec fn context_boost(
    r: SearchResult,
    focus: Seq<String>,
    visited: Seq<String>,
    targets: Seq<String>,
) -> int {
    (if under_any(r.file_path@, focus) { 5 * RANK_SCALE } else { 0 }) - (if under_any(
        r.file_path@,
        visited,
    ) {
        3 * RANK_SCALE
    } else {
        0
    }) + (if annotated(r, targets) { 2 * RANK_SCALE } else { 0 })
}

pub open spec fn with_rank(r: SearchResult, rank: int) -> SearchResult {
    SearchResult {
        file_path: r.file_path,
        language: r.language,
        chunk_kind: r.chunk_kind,
        chunk_name: r.chunk_name,
        signature: r.signature,
        start_line: r.start_line,
        end_line: r.end_line,
        content: r.content,
        rank: rank as i64,
    }
}

/// The final sort key: the index's rank minus both adjustments.
pub open spec fn adjusted_rank(
    r: SearchResult,
    n: int,
    total: int,
    focus: Seq<String>,
    visited: Seq<String>,
    targets: Seq<String>,
) -> int {
    r.rank - static_boost(r, n, total) - context_boost(r, focus, visited, targets)
}

pub open spec fn reranked(
    s: Seq<SearchResult>,
    focus: Seq<String>,
    visited: Seq<String>,
    targets: Seq<String>,
) -> Seq<SearchResult> {
    s.map_values(
        |r: SearchResult|
            with_rank(r, adjusted_rank(r, s.len() as int, total_lines(s), focus, visited, targets)),
    )
}

/// Index of the first entry from `i` on whose rank exceeds `key`.
pub open spec fn first_greater(s: Seq<SearchResult>, key: int, i: int) -> int
    decreases s.len() - i,
{
    if i < 0 || i >= s.len() {
        s.len() as int
    } else if s[i].rank > key {
        i
    } else {
        first_greater(s, key, i + 1)
    }
}

/// `x` placed after every entry whose rank is at most its own.
pub open spec fn insert_by_rank(s: Seq<SearchResult>, x: SearchResult) -> Seq<SearchResult> {
    let p = first_greater(s, x.rank as int, 0);
    s.take(p) + seq![x] + s.skip(p)
}

/// The stable sort by ascending rank.
pub open spec fn sort_by_rank(s: Seq<SearchResult>) -> Seq<SearchResult>
    decreases s.len(),
{
    if s.len() == 0 {
        s
    } else {
        insert_by_rank(sort_by_rank(s.drop_last()), s.last())
    }
}

pub open spec fn sorted_by_rank(s: Seq<SearchResult>) -> bool {
    forall|i: int, j: int| 0 <= i < j < s.len() ==> s[i].rank <= s[j].rank
}

pub open spec fn truncated<T>(s: Seq<T>, m: int) -> Seq<T> {
    if s.len() <= m {
        s
    } else {
        s.take(m)
    }
}

proof fn lemma_first_greater(s: Seq<SearchResult>, key: int, i: int)
    requires
        0 <= i <= s.len(),
    ensures
        i <= first_greater(s, key, i) <= s.len(),
        forall|k: int| i <= k < first_greater(s, key, i) ==> s[k].rank <= key,
        first_greater(s, key, i) < s.len() ==> s[first_greater(s, key, i)].rank > key,
    decreases s.len() - i,
{
    if i < s.len() && s[i].rank <= key {
        lemma_first_greater(s, key, i + 1);
    }
}

proof fn lemma_insert_sorted(s: Seq<SearchResult>, x: SearchResult)
    requires
        sorted_by_rank(s),
    ensures
        sorted_by_rank(insert_by_rank(s, x)),
        insert_by_rank(s, x).len() == s.len() + 1,
{
    lemma_first_greater(s, x.rank as int, 0);
    let p = first_greater(s, x.rank as int, 0);
    let r = insert_by_rank(s, x);
    assert forall|i: int, j: int| 0 <= i < j < r.len() implies r[i].rank <= r[j].rank by {
        if j < p {
        } else if j == p {
        } else if i < p {
            assert(r[i] == s[i]);
            assert(r[j] == s[j - 1]);
        } else if i == p {
            assert(r[j] == s[j - 1]);
            assert(s[p].rank > x.rank);
        } else {
        }
    }
}

proof fn lemma_sort_sorted(s: Seq<SearchResult>)
    ensures
        sorted_by_rank(sort_by_rank(s)),
        sort_by_rank(s).len() == s.len(),
    decreases s.len(),
{
    if s.len() > 0 {
        lemma_sort_sorted(s.drop_last());
        lemma_insert_sorted(sort_by_rank(s.drop_last()), s.last());
    }
}

proof fn lemma_total_lines_bounds(s: Seq<SearchResult>)
    requires
        forall|i: int| 0 <= i < s.len() ==> well_formed(#[trigger] s[i]),
    ensures
        s.len() <= total_lines(s) <= s.len() * 0x1_0000_0000,
    decreases s.len(),
{
    if s.len() > 0 {
        let t = s.drop_last();
        assert forall|i: int| 0 <= i < t.len() implies well_formed(#[trigger] t[i]) by {
            assert(t[i] == s[i]);
        }
        lemma_total_lines_bounds(t);
        assert(well_formed(s[s.len() - 1]));
    }
}

/// Focus breaks ties: of two results that the index ranked equally, that
/// get the same static adjustment and agree on visited paths and
/// annotations, the one under a focus path comes strictly before the one
/// that is not, wherever the stable sort puts them.
pub proof fn lemma_focus_orders_first(
    s: Seq<SearchResult>,
    focus: Seq<String>,
    visited: Seq<String>,
    targets: Seq<String>,
    a: int,
    b: int,
)
    requires
        0 <= a < s.len(),
        0 <= b < s.len(),
        well_formed(s[a]),
        well_formed(s[b]),
        s[a].rank == s[b].rank,
        static_boost(s[a], s.len() as int, total_lines(s)) == static_boost(
            s[b],
            s.len() as int,
            total_lines(s),
        ),
        under_any(s[a].file_path@, visited) == under_any(s[b].file_path@, visited),
        annotated(s[a], targets) == annotated(s[b], targets),
        under_any(s[a].file_path@, focus),
        !under_any(s[b].file_path@, focus),
    ensures
        ({
            let rr = reranked(s, focus, visited, targets);
            let out = sort_by_rank(rr);
            &&& rr[a].rank < rr[b].rank
            &&& forall|i: int, j: int|
                0 <= i < out.len() && 0 <= j < out.len() && out[i] == rr[a] && out[j] == rr[b]
                    ==> i < j
        }),
{
    let rr = reranked(s, focus, visited, targets);
    let out = sort_by_rank(rr);
    let n = s.len() as int;
    let t = total_lines(s);
    let sb = static_boost(s[a], n, t);
    assert(-4 * RANK_SCALE <= sb <= 3 * RANK_SCALE);
    assert(rr[a].rank < rr[b].rank);
    lemma_sort_sorted(rr);
    assert forall|i: int, j: int|
        0 <= i < out.len() && 0 <= j < out.len() && out[i] == rr[a] && out[j] == rr[b] implies i
        < j by {
        if j < i {
            assert(out[j].rank <= out[i].rank);
        }
    }
}

/// Visited paths sink: of two results that the index ranked equally, that
/// get the same static adjustment and agree on focus paths and
/// annotations, the one under a visited path comes strictly after the one
/// that is not, wherever the stable sort puts them.
pub proof fn lemma_visited_orders_last(
    s: Seq<SearchResult>,
    focus: Seq<String>,
    visited: Seq<String>,
    targets: Seq<String>,
    a: int,
    b: int,
)
    requires
        0 <= a < s.len(),
        0 <= b < s.len(),
        well_formed(s[a]),
        well_formed(s[b]),
        s[a].rank == s[b].rank,
        static_boost(s[a], s.len() as int, total_lines(s)) == static_boost(
            s[b],
            s.len() as int,
            total_lines(s),
        ),
        under_any(s[a].file_path@, focus) == under_any(s[b].file_path@, focus),
        annotated(s[a], targets) == annotated(s[b], targets),
        !under_any(s[a].file_path@, visited),
        under_any(s[b].file_path@, visited),
    ensures
        ({
            let rr = reranked(s, focus, visited, targets);
            let out = sort_by_rank(rr);
            &&& rr[a].rank < rr[b].rank
            &&& forall|i: int, j: int|
                0 <= i < out.len() && 0 <= j < out.len() && out[i] == rr[a] && out[j] == rr[b]
                    ==> i < j
        }),
{
    let rr = reranked(s, focus, visited, targets);
    let out = sort_by_rank(rr);
    let sb = static_boost(s[a], s.len() as int, total_lines(s));
    assert(-4 * RANK_SCALE <= sb <= 3 * RANK_SCALE);
    assert(rr[a].rank < rr[b].rank);
    lemma_sort_sorted(rr);
    assert forall|i: int, j: int|
        0 <= i < out.len() && 0 <= j < out.len() && out[i] == rr[a] && out[j] == rr[b] implies i
        < j by {
        if j < i {
            assert(out[j].rank <= out[i].rank);
        }
    }
}

/// An annotation on a result's file or name lowers its final rank by
/// exactly two units against the same search without annotations.
pub proof fn lemma_annotation_lowers_rank(
    s: Seq<SearchResult>,
    focus: Seq<String>,
    visited: Seq<String>,
    targets: Seq<String>,
    i: int,
)
    requires
        0 <= i < s.len(),
        well_formed(s[i]),
        annotated(s[i], targets),
    ensures
        reranked(s, focus, visited, Seq::empty())[i].rank - reranked(s, focus, visited, targets)[i].rank
            == 2 * RANK_SCALE,
{
    let sb = static_boost(s[i], s.len() as int, total_lines(s));
    assert(-4 * RANK_SCALE <= sb <= 3 * RANK_SCALE);
    assert(!annotated(s[i], Seq::<String>::empty()));
}

fn is_code_kind_exec(kind: &String) -> (r: bool)
    ensures
        r == is_code_kind(kind@),
{
    !str_eq(kind.as_str(), "raw") && !str_eq(kind.as_str(), "module")
}

fn static_boost_exec(r: &SearchResult, n: usize, total: u128) -> (b: i64)
    requires
        well_formed(*r),
        total <= n * 0x1_0000_0000,
    ensures
        b == static_boost(*r, n as int, total as int),
        -4 * RANK_SCALE <= b <= 3 * RANK_SCALE,
{
    let lines: u128 = (r.end_line - r.start_line + 1) as u128;
    let mut b: i64 = if is_code_kind_exec(&r.chunk_kind) { 3_000_000 } else { 0 };
    assert(lines <= 0x1_0000_0000);
    assert(lines * (n as u128) <= 0x1_0000_0000 * 0x1_0000_0000_0000_0000) by (nonlinear_arith)
        requires lines <= 0x1_0000_0000, n <= 0xffff_ffff_ffff_ffff;
    if total > 0 && lines * (n as u128) > 2 * total {
        assert(lines * (n as u128) * 1_000_000 <= 0x1_0000_0000 * 0x1_0000_0000_0000_0000 * 1_000_000) by (nonlinear_arith)
            requires lines * (n as u128) <= 0x1_0000_0000 * 0x1_0000_0000_0000_0000;
        let ratio: u128 = lines * (n as u128) * 1_000_000 / (2 * total);
        let pen: i64 = if ratio < 4_000_000 { ratio as i64 } else { 4_000_000 };
        b = b - pen;
    }
    b
}

fn under_any_exec(path: &String, prefixes: &Vec<String>) -> (r: bool)
    ensures
        r == under_any(path@, prefixes@),
{
    let mut i: usize = 0;
    while i < prefixes.len()
        invariant
            i <= prefixes.len(),
            forall|k: int| 0 <= k < i ==> !has_prefix(path@, #[trigger] prefixes@[k]@),
        decreases prefixes.len() - i,
    {
        if starts_with(path.as_str(), prefixes[i].as_str()) {
            return true;
        }
        i = i + 1;
    }
    false
}

fn annotated_exec(r: &SearchResult, targets: &Vec<String>) -> (b: bool)
    ensures
        b == annotated(*r, targets@),
{
    let mut i: usize = 0;
    while i < targets.len()
        invariant
            i <= targets.len(),
            forall|k: int| 0 <= k < i ==> !targets_result(*r, #[trigger] targets@[k]@),
        decreases targets.len() - i,
    {
        let t = targets[i].as_str();
        let hit = str_eq(r.file_path.as_str(), t) || match &r.chunk_name {
            Some(name) => str_eq(name.as_str(), t),
            None => false,
        };
        if hit {
            return true;
        }
        i = i + 1;
    }
    false
}

fn context_boost_exec(
    r: &SearchResult,
    focus: &Vec<String>,
    visited: &Vec<String>,
    targets: &Vec<String>,
) -> (b: i64)
    ensures
        b == context_boost(*r, focus@, visited@, targets@),
        -3 * RANK_SCALE <= b <= 7 * RANK_SCALE,
{
    let mut b: i64 = 0;
    if under_any_exec(&r.file_path, focus) {
        b = b + 5_000_000;
    }
    if under_any_exec(&r.file_path, visited) {
        b = b - 3_000_000;
    }
    if annotated_exec(r, targets) {
        b = b + 2_000_000;
    }
    b
}

/// Re-rank what the index returned for a query and keep the best
/// `max_results`: each rank is lowered by the static and the session
/// adjustments, then the list is sorted by ascending rank, stably.
pub fn rerank(
    results: Vec<SearchResult>,
    focus: &Vec<String>,
    visited: &Vec<String>,
    targets: &Vec<String>,
    max_results: usize,
) -> (r: Vec<SearchResult>)
    requires
        forall|i: int| 0 <= i < results@.len() ==> well_formed(#[trigger] results@[i]),
    ensures
        r@ == truncated(
            sort_by_rank(reranked(results@, focus@, visited@, targets@)),
            max_results as int,
        ),
        sorted_by_rank(r@),
{
    let ghost orig = results@;
    let ghost rr = reranked(orig, focus@, visited@, targets@);
    let n = results.len();
    let mut total: u128 = 0;
    let mut i: usize = 0;
    proof { lemma_total_lines_bounds(orig); }
    while i < n
        invariant
            n == orig.len(),
            results@ == orig,
            i <= n,
            forall|k: int| 0 <= k < orig.len() ==> well_formed(#[trigger] orig[k]),
            total == total_lines(orig.take(i as int)),
            total <= i * 0x1_0000_0000,
        decreases n - i,
    {
        assert(orig.take(i + 1).drop_last() =~= orig.take(i as int));
        assert(well_formed(orig[i as int]));
        total = total + (results[i].end_line - results[i].start_line + 1) as u128;
        i = i + 1;
    }
    assert(orig.take(n as int) =~= orig);
    let mut input = results;
    let mut out: Vec<SearchResult> = Vec::new();
    let mut k: usize = 0;
    while input.len() > 0
        invariant
            n == orig.len(),
            k <= n,
            input@ == orig.skip(k as int),
            forall|j: int| 0 <= j < orig.len() ==> well_formed(#[trigger] orig[j]),
            total == total_lines(orig),
            total <= n * 0x1_0000_0000,
            rr == reranked(orig, focus@, visited@, targets@),
            out@ == sort_by_rank(rr.take(k as int)),
        decreases input.len(),
    {
        let mut x = input.remove(0);
        assert(x == orig[k as int]);
        let sb = static_boost_exec(&x, n, total);
        let cb = context_boost_exec(&x, focus, visited, targets);
        x.rank = x.rank - sb - cb;
        assert(x == rr[k as int]);
        let mut p: usize = 0;
        proof { lemma_first_greater(out@, x.rank as int, 0); }
        while p < out.len() && out[p].rank <= x.rank
            invariant
                p <= out.len(),
                first_greater(out@, x.rank as int, p as int) == first_greater(out@, x.rank as int, 0),
            decreases out.len() - p,
        {
            p = p + 1;
        }
        let ghost before = out@;
        out.insert(p, x);
        proof {
            assert(rr.take(k + 1).drop_last() =~= rr.take(k as int));
            assert(out@ =~= insert_by_rank(before, rr[k as int]));
            assert(orig.skip(k as int).skip(1) =~= orig.skip(k + 1));
        }
        k = k + 1;
    }
    proof {
        assert(rr.take(k as int) =~= rr);
        lemma_sort_sorted(rr);
    }
    if out.len() > max_results {
        out.truncate(max_results);
    }
    out
}

/// Index of the first candidate from `i` on whose similarity is below `key`.
pub open spec fn first_below(s: Seq<(i64, i64)>, key: int, i: int) -> int
    decreases s.len() - i,
{
    if i < 0 || i >= s.len() {
        s.len() as int
    } else if s[i].1 < key {
        i
    } else {
        first_below(s, key, i + 1)
    }
}

/// The stable sort of (chunk id, similarity) pairs by descending similarity.
pub open spec fn by_similarity(s: Seq<(i64, i64)>) -> Seq<(i64, i64)>
    decreases s.len(),
{
    if s.len() == 0 {
        s
    } else {
        let t = by_similarity(s.drop_last());
        let p = first_below(t, s.last().1 as int, 0);
        t.take(p) + seq![s.last()] + t.skip(p)
    }
}

proof fn lemma_first_below(s: Seq<(i64, i64)>, key: int, i: int)
    requires
        0 <= i <= s.len(),
    ensures
        i <= first_below(s, key, i) <= s.len(),
    decreases s.len() - i,
{
    if i < s.len() && s[i].1 >= key {
        lemma_first_below(s, key, i + 1);
    }
}

proof fn lemma_by_similarity_len(s: Seq<(i64, i64)>)
    ensures
        by_similarity(s).len() == s.len(),
    decreases s.len(),
{
    if s.len() > 0 {
        lemma_by_similarity_len(s.drop_last());
        lemma_first_below(by_similarity(s.drop_last()), s.last().1 as int, 0);
    }
}

/// Semantic candidates, best first: the pairs of chunk id and similarity
/// (in millionths) sorted by descending similarity, ties in their given
/// order, and the first `3 * max_results` kept.
pub fn top_candidates(scored: Vec<(i64, i64)>, max_results: usize) -> (r: Vec<(i64, i64)>)
    ensures
        r@ == truncated(by_similarity(scored@), 3 * max_results),
{
    let ghost orig = scored@;
    let mut input = scored;
    let n = input.len();
    let mut out: Vec<(i64, i64)> = Vec::new();
    let mut k: usize = 0;
    while input.len() > 0
        invariant
            n == orig.len(),
            k <= orig.len(),
            input@ == orig.skip(k as int),
            out@ == by_similarity(orig.take(k as int)),
        decreases input.len(),
    {
        let x = input.remove(0);
        assert(x == orig[k as int]);
        let mut p: usize = 0;
        proof { lemma_first_below(out@, x.1 as int, 0); }
        while p < out.len() && out[p].1 >= x.1
            invariant
                p <= out.len(),
                first_below(out@, x.1 as int, p as int) == first_below(out@, x.1 as int, 0),
            decreases out.len() - p,
        {
            p = p + 1;
        }
        let ghost before = out@;
        out.insert(p, x);
        proof {
            assert(orig.take(k + 1).drop_last() =~= orig.take(k as int));
            assert(orig.take(k + 1).last() == x);
            assert(out@ =~= before.take(p as int) + seq![x] + before.skip(p as int));
            assert(orig.skip(k as int).skip(1) =~= orig.skip(k + 1));
        }
        k = k + 1;
    }
    assert(orig.take(k as int) =~= orig);
    let keep: u128 = 3 * (max_results as u128);
    if (out.len() as u128) > keep {
        out.truncate(keep as usize);
    }
    out
}

/// Whether a resolved semantic hit passes the query's language and path
/// filters.
pub fn semantic_accepts(r: &SearchResult, query: &SemanticQuery) -> (b: bool)
    ensures
        b == ((query.language is None || (r.language is Some && r.language->0@ == query.language->0@))
            && (query.path_prefix is None || has_prefix(r.file_path@, query.path_prefix->0@))),
{
    let lang_ok = match &query.language {
        None => true,
        Some(l) => match &r.language {
            Some(rl) => str_eq(rl.as_str(), l.as_str()),
            None => false,
        },
    };
    let prefix_ok = match &query.path_prefix {
        None => true,
        Some(p) => starts_with(r.file_path.as_str(), p.as_str()),
    };
    lang_ok && prefix_ok
}

/// How many hits each of `projects` projects is asked for: twice the total
/// wanted, shared out, and at least five.
pub fn per_project_limit(max_results: usize, projects: usize) -> (r: usize)
    requires
        projects > 0,
        max_results * 2 <= usize::MAX,
    ensures
        r as int == ({
            let share = (max_results * 2) as int / (projects as int);
            if share < 5 { 5 } else { share }
        }),
{
    let share = max_results * 2 / projects;
    if share < 5 { 5 } else { share }
}

/// The hits of each project in turn, each tagged with its project.
pub open spec fn tagged(batches: Seq<(String, Vec<SearchResult>)>) -> Seq<(String, SearchResult)>
    decreases batches.len(),
{
    if batches.len() == 0 {
        Seq::empty()
    } else {
        tagged(batches.drop_last()) + batches.last().1@.map_values(|r: SearchResult| (batches.last().0, r))
    }
}

pub open spec fn first_ranked_above(s: Seq<(String, SearchResult)>, key: int, i: int) -> int
    decreases s.len() - i,
{
    if i < 0 || i >= s.len() {
        s.len() as int
    } else if s[i].1.rank > key {
        i
    } else {
        first_ranked_above(s, key, i + 1)
    }
}

/// The stable sort of tagged hits by ascending rank.
pub open spec fn tagged_by_rank(s: Seq<(String, SearchResult)>) -> Seq<(String, SearchResult)>
    decreases s.len(),
{
    if s.len() == 0 {
        s
    } else {
        let t = tagged_by_rank(s.drop_last());
        let p = first_ranked_above(t, s.last().1.rank as int, 0);
        t.take(p) + seq![s.last()] + t.skip(p)
    }
}

proof fn lemma_first_ranked_above(s: Seq<(String, SearchResult)>, key: int, i: int)
    requires
        0 <= i <= s.len(),
    ensures
        i <= first_ranked_above(s, key, i) <= s.len(),
    decreases s.len() - i,
{
    if i < s.len() && s[i].1.rank <= key {
        lemma_first_ranked_above(s, key, i + 1);
    }
}

/// The hits of several projects merged: tagged with their project, sorted
/// by ascending rank (ties in project order), the best `max_results` kept.
pub fn merge_projects(batches: Vec<(String, Vec<SearchResult>)>, max_results: usize) -> (r: Vec<(String, SearchResult)>)
    ensures
        r@ == truncated(tagged_by_rank(tagged(batches@)), max_results as int),
{
    let ghost bs = batches@;
    let mut all: Vec<(String, SearchResult)> = Vec::new();
    let mut rest = batches;
    let mut b: usize = 0;
    let bn = rest.len();
    while rest.len() > 0
        invariant
            bn == bs.len(),
            b <= bn,
            rest@ == bs.skip(b as int),
            all@ == tagged(bs.take(b as int)),
        decreases rest.len(),
    {
        let (name, results) = rest.remove(0);
        assert((name, results) == bs[b as int]);
        let ghost start = all@;
        let mut hits = results;
        let ghost hs = hits@;
        let mut j: usize = 0;
        let hn = hits.len();
        while hits.len() > 0
            invariant
                hn == hs.len(),
                j <= hn,
                hits@ == hs.skip(j as int),
                all@ == start + hs.take(j as int).map_values(|r: SearchResult| (name, r)),
            decreases hits.len(),
        {
            let h = hits.remove(0);
            assert(h == hs[j as int]);
            let ghost before = all@;
            all.push((name.clone(), h));
            proof {
                assert(hs.take(j + 1).map_values(|r: SearchResult| (name, r)) =~= hs.take(j as int).map_values(|r: SearchResult| (name, r)).push((name, h)));
                assert(hs.skip(j as int).skip(1) =~= hs.skip(j + 1));
            }
            j = j + 1;
        }
        proof {
            assert(hs.take(j as int) =~= hs);
            assert(bs.take(b + 1).drop_last() =~= bs.take(b as int));
            assert(bs.take(b + 1).last() == bs[b as int]);
            assert(bs.skip(b as int).skip(1) =~= bs.skip(b + 1));
        }
        b = b + 1;
    }
    assert(bs.take(b as int) =~= bs);
    let ghost orig = all@;
    let mut input = all;
    let n = input.len();
    let mut out: Vec<(String, SearchResult)> = Vec::new();
    let mut k: usize = 0;
    while input.len() > 0
        invariant
            n == orig.len(),
            k <= n,
            input@ == orig.skip(k as int),
            out@ == tagged_by_rank(orig.take(k as int)),
        decreases input.len(),
    {
        let x = input.remove(0);
        assert(x == orig[k as int]);
        let mut p: usize = 0;
        proof { lemma_first_ranked_above(out@, x.1.rank as int, 0); }
        while p < out.len() && out[p].1.rank <= x.1.rank
            invariant
                p <= out@.len(),
                first_ranked_above(out@, x.1.rank as int, p as int) == first_ranked_above(out@, x.1.rank as int, 0),
            decreases out@.len() - p,
        {
            p = p + 1;
        }
        let ghost before = out@;
        out.insert(p, x);
        proof {
            assert(orig.take(k + 1).drop_last() =~= orig.take(k as int));
            assert(orig.take(k + 1).last() == orig[k as int]);
            assert(out@ =~= before.take(p as int) + seq![orig[k as int]] + before.skip(p as int));
            assert(orig.skip(k as int).skip(1) =~= orig.skip(k + 1));
        }
        k = k + 1;
    }
    assert(orig.take(k as int) =~= orig);
    if out.len() > max_results {
        out.truncate(max_results);
    }
    out
}

} // verus!
