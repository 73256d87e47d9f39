//! Hybrid search: keyword and semantic hits merged by file and start line,
//! each list's scores normalised to its own range and blended by a weight
//! `alpha` (in thousandths) on the keyword side.

use vstd::prelude::*;
use crate::records::{SearchResult, RANK_SCALE};
use crate::search::{with_rank, RANK_BOUND};
use crate::text::str_eq;

verus! {

pub open spec fn bounded(s: Seq<SearchResult>) -> bool {
    forall|i: int| 0 <= i < s.len() ==> -RANK_BOUND <= #[trigger] s[i].rank <= RANK_BOUND
}

pub open spec fn min_rank(s: Seq<SearchResult>) -> int
    decreases s.len(),
{
    if s.len() == 0 {
        0
    } else if s.len() == 1 || s.last().rank < min_rank(s.drop_last()) {
        s.last().rank as int
    } else {
        min_rank(s.drop_last())
    }
}

pub open spec fn max_rank(s: Seq<SearchResult>) -> int
    decreases s.len(),
{
    if s.len() == 0 {
        0
    } else if s.len() == 1 || s.last().rank > max_rank(s.drop_last()) {
        s.last().rank as int
    } else {
        max_rank(s.drop_last())
    }
}

/// A rank mapped into `(0, RANK_SCALE]`: the best (lowest) rank of the
/// list scores highest, the worst scores above zero.
pub open spec fn rank_score(rank: int, best: int, worst: int) -> int {
    (worst - rank + 1) * RANK_SCALE / (worst - best + 1)
}

pub open spec fn same_place(a: SearchResult, b: SearchResult) -> bool {
    a.file_path@ == b.file_path@ && a.start_line == b.start_line
}

/// Index of the first entry of `m` at the place of `r`, from `i` on, or -1.
pub open spec fn place_of(m: Seq<(SearchResult, int)>, r: SearchResult, i: int) -> int
    decreases m.len() - i,
{
    if i < 0 || i >= m.len() {
        -1
    } else if same_place(m[i].0, r) {
        i
    } else {
        place_of(m, r, i + 1)
    }
}

/// Keyword hits with their weighted scores; a repeated place keeps the best.
pub open spec fn merge_keyword(kw: Seq<SearchResult>, alpha: int, best: int, worst: int) -> Seq<(SearchResult, int)>
    decreases kw.len(),
{
    if kw.len() == 0 {
        Seq::empty()
    } else {
        let m = merge_keyword(kw.drop_last(), alpha, best, worst);
        let r = kw.last();
        let s = alpha * rank_score(r.rank as int, best, worst);
        let p = place_of(m, r, 0);
        if p >= 0 {
            m.update(p, (m[p].0, if m[p].1 < s { s } else { m[p].1 }))
        } else {
            m.push((r, s))
        }
    }
}

/// Semantic hits added to `base`: a place already there gains the weighted
/// score, a new place joins with it.
pub open spec fn merge_semantic(base: Seq<(SearchResult, int)>, sem: Seq<SearchResult>, weight: int, best: int, worst: int) -> Seq<(SearchResult, int)>
    decreases sem.len(),
{
    if sem.len() == 0 {
        base
    } else {
        let m = merge_semantic(base, sem.drop_last(), weight, best, worst);
        let r = sem.last();
        let s = weight * rank_score(r.rank as int, best, worst);
        let p = place_of(m, r, 0);
        if p >= 0 {
            m.update(p, (m[p].0, m[p].1 + s))
        } else {
            m.push((r, s))
        }
    }
}

pub open spec fn first_lower(s: Seq<(SearchResult, int)>, key: int, i: int) -> int
    decreases s.len() - i,
{
    if i < 0 || i >= s.len() {
        s.len() as int
    } else if s[i].1 < key {
        i
    } else {
        first_lower(s, key, i + 1)
    }
}

/// The stable sort by descending score.
pub open spec fn by_score(s: Seq<(SearchResult, int)>) -> Seq<(SearchResult, int)>
    decreases s.len(),
{
    if s.len() == 0 {
        s
    } else {
        let t = by_score(s.drop_last());
        let p = first_lower(t, s.last().1, 0);
        t.take(p) + seq![s.last()] + t.skip(p)
    }
}

/// The blended list: merged, sorted by descending score, the first
/// `max_results` kept, each ranked by its negated score.
pub open spec fn blended(kw: Seq<SearchResult>, sem: Seq<SearchResult>, alpha: int, max_results: int) -> Seq<SearchResult> {
    let merged = merge_semantic(
        merge_keyword(kw, alpha, min_rank(kw), max_rank(kw)),
        sem,
        1000 - alpha,
        min_rank(sem),
        max_rank(sem),
    );
    let sorted = by_score(merged);
    let kept = if sorted.len() <= max_results { sorted } else { sorted.take(max_results) };
    kept.map_values(|e: (SearchResult, int)| with_rank(e.0, -clamp_score(e.1)))
}

/// Scores past `RANK_BOUND` are held there, so that every rank fits.
pub open spec fn clamp_score(s: int) -> int {
    if s > RANK_BOUND { RANK_BOUND as int } else { s }
}

proof fn lemma_min_max(s: Seq<SearchResult>)
    requires
        bounded(s),
    ensures
        s.len() > 0 ==> forall|i: int| 0 <= i < s.len() ==> min_rank(s) <= #[trigger] s[i].rank <= max_rank(s),
        -RANK_BOUND <= min_rank(s) <= max_rank(s) <= RANK_BOUND,
    decreases s.len(),
{
    if s.len() > 1 {
        let t = s.drop_last();
        assert(bounded(t)) by {
            assert forall|i: int| 0 <= i < t.len() implies -RANK_BOUND <= #[trigger] t[i].rank <= RANK_BOUND by {
                assert(t[i] == s[i]);
            }
        }
        lemma_min_max(t);
        assert forall|i: int| 0 <= i < s.len() implies min_rank(s) <= #[trigger] s[i].rank <= max_rank(s) by {
            if i < t.len() {
                assert(t[i] == s[i]);
            }
        }
    } else if s.len() == 1 {
        assert(-RANK_BOUND <= s[0].rank <= RANK_BOUND);
    }
}

fn min_max(s: &Vec<SearchResult>) -> (r: (i64, i64))
    requires
        bounded(s@),
    ensures
        r.0 == min_rank(s@),
        r.1 == max_rank(s@),
{
    proof { lemma_min_max(s@); }
    let mut lo: i64 = 0;
    let mut hi: i64 = 0;
    let mut i: usize = 0;
    while i < s.len()
        invariant
            i <= s@.len(),
            bounded(s@),
            lo == min_rank(s@.take(i as int)),
            hi == max_rank(s@.take(i as int)),
        decreases s@.len() - i,
    {
        let x = s[i].rank;
        proof {
            let t = s@.take(i + 1);
            assert(t.drop_last() =~= s@.take(i as int));
            assert(t.last() == s@[i as int]);
        }
        if i == 0 || x < lo {
            lo = x;
        }
        if i == 0 || x > hi {
            hi = x;
        }
        i = i + 1;
    }
    assert(s@.take(s@.len() as int) =~= s@);
    (lo, hi)
}

fn rank_score_exec(rank: i64, best: i64, worst: i64) -> (r: i128)
    requires
        -RANK_BOUND <= best <= rank <= worst <= RANK_BOUND,
    ensures
        r == rank_score(rank as int, best as int, worst as int),
        0 <= r <= RANK_SCALE,
{
    let num: i128 = (worst as i128 - rank as i128 + 1) * 1_000_000;
    let den: i128 = worst as i128 - best as i128 + 1;
    assert(0 < num) by (nonlinear_arith)
        requires num == (worst as i128 - rank as i128 + 1) * 1_000_000, rank <= worst;
    assert(num <= den * 1_000_000) by (nonlinear_arith)
        requires num == (worst as i128 - rank as i128 + 1) * 1_000_000, den == worst as i128 - best as i128 + 1, best <= rank;
    let r = num / den;
    assert(r <= 1_000_000) by (nonlinear_arith)
        requires r == num / den, num <= den * 1_000_000, den > 0, num > 0;
    assert(r >= 0) by (nonlinear_arith)
        requires r == num / den, den > 0, num > 0;
    r
}

fn place_exec(m: &Vec<(SearchResult, i128)>, r: &SearchResult) -> (p: Option<usize>)
    ensures
        match p {
            Some(i) => i < m@.len() && place_of(scored(m@), *r, 0) == i as int,
            None => place_of(scored(m@), *r, 0) == -1,
        },
{
    let mut i: usize = 0;
    while i < m.len()
        invariant
            i <= m@.len(),
            place_of(scored(m@), *r, i as int) == place_of(scored(m@), *r, 0),
        decreases m@.len() - i,
    {
        if str_eq(m[i].0.file_path.as_str(), r.file_path.as_str()) && m[i].0.start_line == r.start_line {
            return Some(i);
        }
        i = i + 1;
    }
    None
}

pub open spec fn scored(v: Seq<(SearchResult, i128)>) -> Seq<(SearchResult, int)> {
    v.map_values(|e: (SearchResult, i128)| (e.0, e.1 as int))
}

/// Blend keyword hits (`keyword`, ranked as the re-ranker leaves them) and
/// semantic hits (`semantic`, ranked by negated similarity) with keyword
/// weight `alpha` thousandths, keeping `max_results`.
pub fn blend(keyword: Vec<SearchResult>, semantic: Vec<SearchResult>, alpha: u32, max_results: usize) -> (r: Vec<SearchResult>)
    requires
        alpha <= 1000,
        bounded(keyword@),
        bounded(semantic@),
    ensures
        r@ == blended(keyword@, semantic@, alpha as int, max_results as int),
{
    let (kbest, kworst) = min_max(&keyword);
    let (sbest, sworst) = min_max(&semantic);
    proof {
        lemma_min_max(keyword@);
        lemma_min_max(semantic@);
    }
    let ghost kw = keyword@;
    let ghost sem = semantic@;
    let mut merged: Vec<(SearchResult, i128)> = Vec::new();
    let mut input = keyword;
    let kn = input.len();
    let mut k: usize = 0;
    while input.len() > 0
        invariant
            kn == kw.len(),
            k <= kn,
            input@ == kw.skip(k as int),
            bounded(kw),
            kbest == min_rank(kw),
            kworst == max_rank(kw),
            -RANK_BOUND <= kbest <= kworst <= RANK_BOUND,
            kw.len() > 0 ==> forall|i: int| 0 <= i < kw.len() ==> kbest <= #[trigger] kw[i].rank <= kworst,
            alpha <= 1000,
            scored(merged@) == merge_keyword(kw.take(k as int), alpha as int, kbest as int, kworst as int),
            forall|i: int| 0 <= i < merged@.len() ==> 0 <= #[trigger] merged@[i].1 <= 1000 * RANK_SCALE,
        decreases input.len(),
    {
        let x = input.remove(0);
        assert(x == kw[k as int]);
        let rs = rank_score_exec(x.rank, kbest, kworst);
        assert((alpha as i128) * rs <= 1000 * 1_000_000) by (nonlinear_arith)
            requires alpha <= 1000, 0 <= rs <= 1_000_000;
        assert((alpha as i128) * rs >= 0) by (nonlinear_arith)
            requires alpha >= 0, 0 <= rs;
        let s: i128 = (alpha as i128) * rs;
        assert(0 <= s <= 1000 * RANK_SCALE) by (nonlinear_arith)
            requires s == (alpha as i128) * rank_score(x.rank as int, kbest as int, kworst as int), alpha <= 1000,
                0 <= rank_score(x.rank as int, kbest as int, kworst as int) <= RANK_SCALE;
        let ghost before = scored(merged@);
        match place_exec(&merged, &x) {
            Some(p) => {
                let (old_r, old_s) = merged.remove(p);
                let keep = if old_s < s { s } else { old_s };
                merged.insert(p, (old_r, keep));
                assert(scored(merged@) =~= before.update(p as int, (before[p as int].0, if before[p as int].1 < s { s as int } else { before[p as int].1 })));
            },
            None => {
                merged.push((x, s));
                assert(scored(merged@) =~= before.push((kw[k as int], s as int)));
            },
        }
        proof {
            assert(kw.take(k + 1).drop_last() =~= kw.take(k as int));
            assert(kw.take(k + 1).last() == kw[k as int]);
            assert(kw.skip(k as int).skip(1) =~= kw.skip(k + 1));
        }
        k = k + 1;
    }
    assert(kw.take(k as int) =~= kw);
    let ghost base = scored(merged@);
    let weight: u32 = 1000 - alpha;
    let mut input = semantic;
    let sn = input.len();
    let mut k: usize = 0;
    while input.len() > 0
        invariant
            sn == sem.len(),
            k <= sn,
            input@ == sem.skip(k as int),
            bounded(sem),
            sbest == min_rank(sem),
            sworst == max_rank(sem),
            -RANK_BOUND <= sbest <= sworst <= RANK_BOUND,
            sem.len() > 0 ==> forall|i: int| 0 <= i < sem.len() ==> sbest <= #[trigger] sem[i].rank <= sworst,
            weight <= 1000,
            scored(merged@) == merge_semantic(base, sem.take(k as int), weight as int, sbest as int, sworst as int),
            forall|i: int| 0 <= i < merged@.len() ==> 0 <= #[trigger] merged@[i].1 <= 1000 * RANK_SCALE * (k + 1),
        decreases input.len(),
    {
        let x = input.remove(0);
        assert(x == sem[k as int]);
        let rs = rank_score_exec(x.rank, sbest, sworst);
        assert((weight as i128) * rs <= 1000 * 1_000_000) by (nonlinear_arith)
            requires weight <= 1000, 0 <= rs <= 1_000_000;
        assert((weight as i128) * rs >= 0) by (nonlinear_arith)
            requires weight >= 0, 0 <= rs;
        let s: i128 = (weight as i128) * rs;
        assert(0 <= s <= 1000 * RANK_SCALE) by (nonlinear_arith)
            requires s == (weight as i128) * rank_score(x.rank as int, sbest as int, sworst as int), weight <= 1000,
                0 <= rank_score(x.rank as int, sbest as int, sworst as int) <= RANK_SCALE;
        let ghost before = scored(merged@);
        match place_exec(&merged, &x) {
            Some(p) => {
                let (old_r, old_s) = merged.remove(p);
                assert(old_s <= 1000 * RANK_SCALE * (k + 1));
                assert(1000 * RANK_SCALE * (k + 1) <= 1000 * RANK_SCALE * 0x1_0000_0000_0000_0000) by (nonlinear_arith)
                    requires k < 0x1_0000_0000_0000_0000;
                merged.insert(p, (old_r, old_s + s));
                assert(old_s + s <= 1000 * RANK_SCALE * (k + 2)) by (nonlinear_arith)
                    requires old_s <= 1000 * RANK_SCALE * (k + 1), s <= 1000 * RANK_SCALE;
                assert(scored(merged@) =~= before.update(p as int, (before[p as int].0, before[p as int].1 + s)));
            },
            None => {
                merged.push((x, s));
                assert(scored(merged@) =~= before.push((sem[k as int], s as int)));
            },
        }
        proof {
            assert forall|i: int| 0 <= i < merged@.len() implies 0 <= #[trigger] merged@[i].1 <= 1000 * RANK_SCALE * (k + 2) by {
                assert(1000 * RANK_SCALE * (k + 1) <= 1000 * RANK_SCALE * (k + 2)) by (nonlinear_arith);
            }
            assert(sem.take(k + 1).drop_last() =~= sem.take(k as int));
            assert(sem.take(k + 1).last() == sem[k as int]);
            assert(sem.skip(k as int).skip(1) =~= sem.skip(k + 1));
        }
        k = k + 1;
    }
    assert(sem.take(k as int) =~= sem);
    sort_and_keep(merged, max_results)
}

proof fn lemma_first_lower(s: Seq<(SearchResult, int)>, key: int, i: int)
    requires
        0 <= i <= s.len(),
    ensures
        i <= first_lower(s, key, i) <= s.len(),
    decreases s.len() - i,
{
    if i < s.len() && s[i].1 >= key {
        lemma_first_lower(s, key, i + 1);
    }
}

fn sort_and_keep(merged: Vec<(SearchResult, i128)>, max_results: usize) -> (r: Vec<SearchResult>)
    requires
        forall|i: int| 0 <= i < merged@.len() ==> 0 <= #[trigger] merged@[i].1,
    ensures
        ({
            let sorted = by_score(scored(merged@));
            let kept = if sorted.len() <= max_results { sorted } else { sorted.take(max_results as int) };
            r@ == kept.map_values(|e: (SearchResult, int)| with_rank(e.0, -clamp_score(e.1)))
        }),
{
    let ghost orig = scored(merged@);
    let mut input = merged;
    let n = input.len();
    let mut out: Vec<(SearchResult, i128)> = Vec::new();
    let mut k: usize = 0;
    while input.len() > 0
        invariant
            n == orig.len(),
            k <= n,
            scored(input@) == orig.skip(k as int),
            scored(out@) == by_score(orig.take(k as int)),
            forall|i: int| 0 <= i < input@.len() ==> 0 <= #[trigger] input@[i].1,
            forall|i: int| 0 <= i < out@.len() ==> 0 <= #[trigger] out@[i].1,
        decreases input.len(),
    {
        let ghost in_before = input@;
        assert(scored(in_before).len() == in_before.len());
        let x = input.remove(0);
        assert(in_before[0] == x);
        assert(scored(in_before)[0] == (x.0, x.1 as int));
        assert(orig.skip(k as int)[0] == orig[k as int]);
        assert(orig[k as int] == (x.0, x.1 as int));
        let mut p: usize = 0;
        proof { lemma_first_lower(scored(out@), x.1 as int, 0); }
        while p < out.len() && out[p].1 >= x.1
            invariant
                p <= out@.len(),
                first_lower(scored(out@), x.1 as int, p as int) == first_lower(scored(out@), x.1 as int, 0),
            decreases out@.len() - p,
        {
            p = p + 1;
        }
        let ghost before = scored(out@);
        out.insert(p, x);
        proof {
            assert(orig.take(k + 1).drop_last() =~= orig.take(k as int));
            assert(orig.take(k + 1).last() == orig[k as int]);
            assert(scored(out@) =~= before.take(p as int) + seq![(x.0, x.1 as int)] + before.skip(p as int));
            assert(input@ =~= in_before.skip(1));
            assert(scored(input@) =~= scored(in_before).skip(1));
            assert(orig.skip(k as int).skip(1) =~= orig.skip(k + 1));
        }
        k = k + 1;
    }
    assert(orig.take(k as int) =~= orig);
    let ghost sorted = scored(out@);
    let keep: usize = if out.len() <= max_results { out.len() } else { max_results };
    let mut r: Vec<SearchResult> = Vec::new();
    let mut rest = out;
    let mut i: usize = 0;
    while i < keep
        invariant
            i <= keep <= sorted.len(),
            keep as int == (if sorted.len() <= max_results { sorted.len() as int } else { max_results as int }),
            scored(rest@) == sorted.skip(i as int),
            forall|j: int| 0 <= j < rest@.len() ==> 0 <= #[trigger] rest@[j].1,
            r@ == sorted.take(i as int).map_values(|e: (SearchResult, int)| with_rank(e.0, -clamp_score(e.1))),
        decreases keep - i,
    {
        let ghost rb = rest@;
        assert(scored(rb).len() == rb.len());
        assert(rb.len() > 0);
        let (mut res, score) = rest.remove(0);
        assert(sorted[i as int] == (res, score as int)) by {
            assert(rb[0] == (res, score));
            assert(scored(rb)[0] == sorted.skip(i as int)[0]);
            assert(sorted.skip(i as int)[0] == sorted[i as int]);
        }
        let clamped: i128 = if score > 0x1000_0000_0000_0000 { 0x1000_0000_0000_0000 } else { score };
        res.rank = (0 - clamped) as i64;
        let ghost rr = r@;
        r.push(res);
        proof {
            assert(r@ =~= sorted.take(i + 1).map_values(|e: (SearchResult, int)| with_rank(e.0, -clamp_score(e.1))));
            assert(rest@ =~= rb.skip(1));
            assert(scored(rest@) =~= scored(rb).skip(1));
            assert(sorted.skip(i as int).skip(1) =~= sorted.skip(i + 1));
            assert(scored(rest@) =~= sorted.skip(i + 1));
        }
        i = i + 1;
    }
    proof {
        let kept = if sorted.len() <= max_results { sorted } else { sorted.take(max_results as int) };
        assert(sorted.take(keep as int) =~= kept);
    }
    r
}

pub open spec fn ascending(s: Seq<SearchResult>) -> bool {
    forall|i: int, j: int| 0 <= i < j < s.len() ==> s[i].rank <= s[j].rank
}

pub open spec fn distinct_places(s: Seq<SearchResult>) -> bool {
    forall|i: int, j: int| 0 <= i < j < s.len() ==> !same_place(#[trigger] s[i], #[trigger] s[j])
}

pub open spec fn non_increasing(s: Seq<(SearchResult, int)>) -> bool {
    forall|i: int, j: int| 0 <= i < j < s.len() ==> s[i].1 >= s[j].1
}

proof fn lemma_place_absent(m: Seq<(SearchResult, int)>, r: SearchResult, i: int)
    requires
        0 <= i,
        forall|k: int| i <= k < m.len() ==> !same_place(#[trigger] m[k].0, r),
    ensures
        place_of(m, r, i) == -1,
    decreases m.len() - i,
{
    if i < m.len() {
        lemma_place_absent(m, r, i + 1);
    }
}

proof fn lemma_rank_score_monotone(r1: int, r2: int, best: int, worst: int)
    requires
        best <= r1 <= r2 <= worst,
    ensures
        rank_score(r1, best, worst) >= rank_score(r2, best, worst) >= 0,
{
    let d = worst - best + 1;
    assert((worst - r2 + 1) * RANK_SCALE <= (worst - r1 + 1) * RANK_SCALE) by (nonlinear_arith)
        requires r1 <= r2;
    assert((worst - r2 + 1) * RANK_SCALE >= 0) by (nonlinear_arith)
        requires r2 <= worst;
    vstd::arithmetic::div_mod::lemma_div_is_ordered((worst - r2 + 1) * RANK_SCALE, (worst - r1 + 1) * RANK_SCALE, d);
    vstd::arithmetic::div_mod::lemma_div_is_ordered(0, (worst - r2 + 1) * RANK_SCALE, d);
}

/// With distinct places, merging the keyword side scores each hit in place.
proof fn lemma_merge_keyword_distinct(kw: Seq<SearchResult>, alpha: int, best: int, worst: int)
    requires
        distinct_places(kw),
    ensures
        merge_keyword(kw, alpha, best, worst) == kw.map_values(|r: SearchResult| (r, alpha * rank_score(r.rank as int, best, worst))),
    decreases kw.len(),
{
    if kw.len() > 0 {
        let t = kw.drop_last();
        assert(distinct_places(t)) by {
            assert forall|i: int, j: int| 0 <= i < j < t.len() implies !same_place(#[trigger] t[i], #[trigger] t[j]) by {
                assert(t[i] == kw[i] && t[j] == kw[j]);
            }
        }
        lemma_merge_keyword_distinct(t, alpha, best, worst);
        let m = merge_keyword(t, alpha, best, worst);
        let r = kw.last();
        assert forall|k: int| 0 <= k < m.len() implies !same_place(#[trigger] m[k].0, r) by {
            assert(m[k].0 == kw[k]);
            assert(!same_place(kw[k], kw[kw.len() - 1]));
        }
        lemma_place_absent(m, r, 0);
        assert(merge_keyword(kw, alpha, best, worst) =~= kw.map_values(|r: SearchResult| (r, alpha * rank_score(r.rank as int, best, worst))));
    }
}

/// With no weight on the semantic side, merging it keeps the base entries
/// as they are and appends entries scored zero.
proof fn lemma_merge_semantic_unweighted(base: Seq<(SearchResult, int)>, sem: Seq<SearchResult>, best: int, worst: int)
    ensures
        merge_semantic(base, sem, 0, best, worst).len() >= base.len(),
        merge_semantic(base, sem, 0, best, worst).take(base.len() as int) == base,
        forall|j: int| base.len() <= j < merge_semantic(base, sem, 0, best, worst).len() ==> #[trigger] merge_semantic(base, sem, 0, best, worst)[j].1 == 0,
    decreases sem.len(),
{
    if sem.len() > 0 {
        lemma_merge_semantic_unweighted(base, sem.drop_last(), best, worst);
        let m = merge_semantic(base, sem.drop_last(), 0, best, worst);
        let r = sem.last();
        let p = place_of(m, r, 0);
        let m2 = merge_semantic(base, sem, 0, best, worst);
        if p >= 0 {
            lemma_place_bounds(m, r, 0);
            assert(m2 =~= m);
        } else {
            assert(m2 =~= m.push((r, 0)));
            assert(m2.take(base.len() as int) =~= m.take(base.len() as int));
        }
    }
}

proof fn lemma_place_bounds(m: Seq<(SearchResult, int)>, r: SearchResult, i: int)
    requires
        0 <= i,
    ensures
        place_of(m, r, i) == -1 || (i <= place_of(m, r, i) < m.len()),
    decreases m.len() - i,
{
    if i < m.len() && !same_place(m[i].0, r) {
        lemma_place_bounds(m, r, i + 1);
    }
}

proof fn lemma_first_lower_end(s: Seq<(SearchResult, int)>, key: int, i: int)
    requires
        0 <= i <= s.len(),
        forall|k: int| i <= k < s.len() ==> #[trigger] s[k].1 >= key,
    ensures
        first_lower(s, key, i) == s.len(),
    decreases s.len() - i,
{
    if i < s.len() {
        lemma_first_lower_end(s, key, i + 1);
    }
}

/// Sorting what is already in descending order changes nothing.
proof fn lemma_by_score_sorted(s: Seq<(SearchResult, int)>)
    requires
        non_increasing(s),
    ensures
        by_score(s) == s,
    decreases s.len(),
{
    if s.len() > 0 {
        let t = s.drop_last();
        assert(non_increasing(t)) by {
            assert forall|i: int, j: int| 0 <= i < j < t.len() implies t[i].1 >= t[j].1 by {
                assert(t[i] == s[i] && t[j] == s[j]);
            }
        }
        lemma_by_score_sorted(t);
        assert forall|k: int| 0 <= k < t.len() implies #[trigger] t[k].1 >= s.last().1 by {
            assert(t[k] == s[k]);
        }
        lemma_first_lower_end(t, s.last().1, 0);
        assert(t.take(t.len() as int) + seq![s.last()] + t.skip(t.len() as int) =~= s);
    }
}

/// All weight on the keyword side keeps the keyword order: when the keyword
/// hits are in ascending rank at distinct places, the blend begins with
/// them, in that order, whatever the semantic side holds.
pub proof fn lemma_keyword_weight_keeps_order(kw: Seq<SearchResult>, sem: Seq<SearchResult>, max_results: int)
    requires
        bounded(kw),
        bounded(sem),
        ascending(kw),
        distinct_places(kw),
        max_results >= 0,
    ensures
        ({
            let out = blended(kw, sem, 1000, max_results);
            forall|i: int| 0 <= i < kw.len() && i < max_results ==> (#[trigger] out[i]).file_path == kw[i].file_path
                && out[i].start_line == kw[i].start_line && out[i].chunk_kind == kw[i].chunk_kind
                && out[i].content == kw[i].content
        }),
{
    let best = min_rank(kw);
    let worst = max_rank(kw);
    lemma_min_max(kw);
    lemma_merge_keyword_distinct(kw, 1000, best, worst);
    let base = merge_keyword(kw, 1000, best, worst);
    lemma_merge_semantic_unweighted(base, sem, min_rank(sem), max_rank(sem));
    let merged = merge_semantic(base, sem, 0, min_rank(sem), max_rank(sem));
    assert(merged.take(base.len() as int) == base);
    assert forall|i: int, j: int| 0 <= i < j < merged.len() implies merged[i].1 >= merged[j].1 by {
        if j < base.len() {
            assert(merged[i] == base[i] && merged[j] == base[j]) by {
                assert(merged.take(base.len() as int)[i] == merged[i]);
                assert(merged.take(base.len() as int)[j] == merged[j]);
            }
            lemma_rank_score_monotone(kw[i].rank as int, kw[j].rank as int, best, worst);
            assert(1000 * rank_score(kw[i].rank as int, best, worst) >= 1000 * rank_score(kw[j].rank as int, best, worst)) by (nonlinear_arith)
                requires rank_score(kw[i].rank as int, best, worst) >= rank_score(kw[j].rank as int, best, worst);
        } else if i < base.len() {
            assert(merged[i] == base[i]) by {
                assert(merged.take(base.len() as int)[i] == merged[i]);
            }
            lemma_rank_score_monotone(kw[i].rank as int, kw[i].rank as int, best, worst);
        } else {
        }
    }
    lemma_by_score_sorted(merged);
    let out = blended(kw, sem, 1000, max_results);
    assert forall|i: int| 0 <= i < kw.len() && i < max_results implies (#[trigger] out[i]).file_path == kw[i].file_path
        && out[i].start_line == kw[i].start_line && out[i].chunk_kind == kw[i].chunk_kind
        && out[i].content == kw[i].content by {
        assert(merged[i] == base[i]) by {
            assert(merged.take(base.len() as int)[i] == merged[i]);
        }
    }
}

} // verus!
