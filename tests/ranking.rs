use booger::records::SearchResult;
use booger::hybrid::blend;
use booger::search::{merge_projects, per_project_limit, rerank, SearchQuery};

fn hit(path: &str, kind: &str, name: Option<&str>, start: i64, end: i64, rank: i64) -> SearchResult {
    SearchResult {
        file_path: path.to_string(),
        language: Some("rust".to_string()),
        chunk_kind: kind.to_string(),
        chunk_name: name.map(|n| n.to_string()),
        signature: None,
        start_line: start,
        end_line: end,
        content: String::new(),
        rank,
    }
}

#[test]
fn query_defaults() {
    let q = SearchQuery::new("foo");
    assert_eq!(q.text, "foo");
    assert_eq!(q.max_results, 20);
    assert!(q.language.is_none() && q.path_prefix.is_none() && q.kind.is_none() && q.session_id.is_none());
}

#[test]
fn structural_chunks_gain_three() {
    let out = rerank(vec![hit("a.rs", "raw", None, 1, 1, -1_000_000), hit("b.rs", "function", None, 1, 1, -1_000_000)], &vec![], &vec![], &vec![], 10);
    assert_eq!(out[0].file_path, "b.rs");
    assert_eq!(out[0].rank, -4_000_000);
    assert_eq!(out[1].rank, -1_000_000);
}

#[test]
fn oversized_chunks_are_penalised() {
    // lines 1, 1, 10: average 4; the 10-line chunk is over twice the average,
    // ratio 2.5, penalty 1.25.
    let out = rerank(vec![hit("a.rs", "raw", None, 1, 1, 0), hit("b.rs", "raw", None, 1, 1, 0), hit("c.rs", "raw", None, 1, 10, 0)], &vec![], &vec![], &vec![], 10);
    assert_eq!(out[2].file_path, "c.rs");
    assert_eq!(out[2].rank, 1_250_000);
    assert_eq!(out[0].file_path, "a.rs");
    assert_eq!(out[1].file_path, "b.rs");
}

#[test]
fn penalty_is_capped_at_four() {
    let mut v = Vec::new();
    for _ in 0..20 {
        v.push(hit("s.rs", "raw", None, 1, 1, 0));
    }
    v.push(hit("big.rs", "raw", None, 1, 1000, 0));
    let out = rerank(v, &vec![], &vec![], &vec![], 30);
    assert_eq!(out.last().unwrap().rank, 4_000_000);
}

#[test]
fn focus_orders_first_among_equals() {
    let focus = vec!["tests/".to_string()];
    let out = rerank(vec![hit("src/util.rs", "function", None, 1, 1, -2_000_000), hit("tests/util.rs", "function", None, 1, 1, -2_000_000)], &focus, &vec![], &vec![], 10);
    assert_eq!(out[0].file_path, "tests/util.rs");
    assert_eq!(out[0].rank, -10_000_000);
    assert_eq!(out[1].rank, -5_000_000);
}

#[test]
fn focus_and_visit_reorder_results() {
    let focus = vec!["tests/".to_string()];
    let visited = vec!["vendor/".to_string()];
    let out = rerank(vec![hit("vendor/util.rs", "function", None, 1, 1, -1_000_000), hit("src/util.rs", "function", None, 1, 1, -1_000_000), hit("tests/util.rs", "function", None, 1, 1, -1_000_000)], &focus, &visited, &vec![], 10);
    let order: Vec<&str> = out.iter().map(|r| r.file_path.as_str()).collect();
    assert_eq!(order, vec!["tests/util.rs", "src/util.rs", "vendor/util.rs"]);
    assert_eq!(out[2].rank, -1_000_000);
}

#[test]
fn annotation_improves_rank_by_two() {
    let plain = rerank(vec![hit("a.rs", "function", Some("foo"), 1, 1, -1_000_000)], &vec![], &vec![], &vec![], 10);
    let noted = rerank(vec![hit("a.rs", "function", Some("foo"), 1, 1, -1_000_000)], &vec![], &vec![], &vec!["a.rs".to_string()], 10);
    assert_eq!(plain[0].rank - noted[0].rank, 2_000_000);
    let by_name = rerank(vec![hit("a.rs", "function", Some("foo"), 1, 1, -1_000_000)], &vec![], &vec![], &vec!["foo".to_string()], 10);
    assert_eq!(by_name[0].rank, noted[0].rank);
}

#[test]
fn results_are_truncated_and_stable() {
    let out = rerank(vec![hit("a.rs", "function", None, 1, 1, 0), hit("b.rs", "function", None, 1, 1, 0), hit("c.rs", "function", None, 1, 1, 0)], &vec![], &vec![], &vec![], 2);
    let order: Vec<&str> = out.iter().map(|r| r.file_path.as_str()).collect();
    assert_eq!(order, vec!["a.rs", "b.rs"]);
    assert!(rerank(Vec::new(), &vec![], &vec![], &vec![], 5).is_empty());
}

#[test]
fn blend_weights_the_two_lists() {
    let keyword = vec![hit("a.rs", "function", None, 1, 1, -5_000_000), hit("b.rs", "function", None, 1, 1, -1_000_000)];
    let semantic = vec![hit("c.rs", "function", None, 1, 1, -900_000), hit("b.rs", "function", None, 1, 1, -800_000)];
    let kw_only = blend(keyword_clone(&keyword), keyword_clone(&semantic), 1000, 10);
    let order: Vec<&str> = kw_only.iter().map(|r| r.file_path.as_str()).collect();
    assert_eq!(order, vec!["a.rs", "b.rs", "c.rs"]);
    let sem_only = blend(keyword_clone(&keyword), keyword_clone(&semantic), 0, 10);
    let order: Vec<&str> = sem_only.iter().map(|r| r.file_path.as_str()).collect();
    assert_eq!(order, vec!["c.rs", "b.rs", "a.rs"]);
    let mixed = blend(keyword_clone(&keyword), keyword_clone(&semantic), 700, 2);
    assert_eq!(mixed.len(), 2);
    assert_eq!(mixed[0].file_path, "a.rs");
    assert_eq!(mixed[0].rank, -700_000_000);
}

fn keyword_clone(v: &Vec<SearchResult>) -> Vec<SearchResult> {
    v.iter().map(|r| hit(&r.file_path, &r.chunk_kind, r.chunk_name.as_deref(), r.start_line, r.end_line, r.rank)).collect()
}

#[test]
fn projects_merge_by_rank() {
    let a = vec![hit("x.rs", "function", None, 1, 1, -3), hit("y.rs", "function", None, 1, 1, 5)];
    let b = vec![hit("z.rs", "function", None, 1, 1, -3), hit("w.rs", "function", None, 1, 1, -9)];
    let merged = merge_projects(vec![("a".to_string(), a), ("b".to_string(), b)], 3);
    let got: Vec<(&str, &str)> = merged.iter().map(|(n, r)| (n.as_str(), r.file_path.as_str())).collect();
    assert_eq!(got, vec![("b", "w.rs"), ("a", "x.rs"), ("b", "z.rs")]);
    assert_eq!(per_project_limit(20, 3), 13);
    assert_eq!(per_project_limit(2, 4), 5);
}
