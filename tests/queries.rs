use booger::config::{Config, ProjectRegistry};
use booger::diff::{changed_files, parse_name_status_nul, status_of, FileStatus};
use booger::embed::{prompt_text, OllamaEmbedder};
use booger::fts::or_fallback_query;
use booger::hasher::hash_bytes;
use booger::index::{batch_step, index_status, plan_file, read_outcome, FileOutcome, FilePlan, IndexResult};
use booger::context::{paths_of, visible_annotations, visible_workset};
use booger::present::{format_results, FormatOpts};
use booger::records::{Annotation, IndexStats, SearchResult, WorksetEntry};
use booger::search::{explain_empty_search, semantic_accepts, top_candidates, SemanticQuery};
use booger::views::{classify_reference, distinct_files, grep_chunks, matching_notes, page_bounds, references, sort_references, Pattern};

fn chunk(path: &str, kind: &str, name: Option<&str>, start: i64, content: &str) -> SearchResult {
    SearchResult {
        file_path: path.to_string(),
        language: None,
        chunk_kind: kind.to_string(),
        chunk_name: name.map(|n| n.to_string()),
        signature: None,
        start_line: start,
        end_line: start + content.lines().count() as i64,
        content: content.to_string(),
        rank: 0,
    }
}

#[test]
fn or_fallback_needs_two_words() {
    assert_eq!(or_fallback_query("tree sitter  parser").as_deref(), Some("tree OR sitter OR parser"));
    assert_eq!(or_fallback_query("  single "), None);
    assert_eq!(or_fallback_query(""), None);
}

#[test]
fn storage_dir_defaults_inside_project() {
    let mut c = Config::defaults_for(8);
    assert_eq!(c.storage_dir("/p"), "/p/.booger");
    assert_eq!(c.storage_dir("/p/"), "/p/.booger");
    assert_eq!(c.resources.max_threads, 4);
    assert_eq!(c.resources.batch_size, 500);
    assert_eq!(c.effective_threads(1), 4);
    c.resources.max_threads = 0;
    assert_eq!(c.effective_threads(1), 1);
    assert_eq!(c.effective_threads(16), 8);
    c.storage.path = Some("/elsewhere".to_string());
    assert_eq!(c.storage_dir("/p"), "/elsewhere");
}

#[test]
fn registry_add_remove_resolve() {
    let mut r = ProjectRegistry::new();
    r.add("web".to_string(), "/src/web".to_string());
    r.add("api".to_string(), "/src/api".to_string());
    r.add("web".to_string(), "/src/web2".to_string());
    assert_eq!(r.projects.len(), 2);
    assert_eq!(r.resolve("web", false).as_deref(), Some("/src/web2"));
    assert_eq!(r.resolve("/tmp", true).as_deref(), Some("/tmp"));
    assert_eq!(r.resolve("nothing", false), None);
    assert!(r.remove("api"));
    assert!(!r.remove("api"));
    assert_eq!(r.resolve("api", false), None);
}

#[test]
fn name_status_listing() {
    let pairs = parse_name_status_nul("M\0src/a.rs\0A\0new.rs\0D\0gone.rs\0");
    assert_eq!(pairs, vec![('M', "src/a.rs".to_string()), ('A', "new.rs".to_string()), ('D', "gone.rs".to_string())]);
    assert_eq!(changed_files("M\0x\0"), vec!["x".to_string()]);
    assert!(parse_name_status_nul("").is_empty());
    assert_eq!(status_of('A'), FileStatus::Added);
    assert_eq!(status_of('D'), FileStatus::Deleted);
    assert_eq!(status_of('R'), FileStatus::Modified);
}

#[test]
fn plan_per_file() {
    assert_eq!(plan_file(true, Some("h"), None), FilePlan::Skip);
    assert_eq!(plan_file(false, None, Some("h")), FilePlan::Skip);
    assert_eq!(plan_file(false, Some("h"), Some("h")), FilePlan::Unchanged);
    assert_eq!(plan_file(false, Some("h2"), Some("h")), FilePlan::Index { replace: true });
    assert_eq!(plan_file(false, Some("h"), None), FilePlan::Index { replace: false });
}

#[test]
fn second_pass_is_unchanged() {
    // a pass over one file: first indexed, then unchanged
    let mut first = IndexResult::start(1);
    match plan_file(false, Some("abc"), None) {
        FilePlan::Index { .. } => first.record(FileOutcome::Indexed { chunks: 2 }),
        _ => panic!("expected indexing"),
    }
    assert_eq!((first.files_scanned, first.files_indexed, first.chunks_created), (1, 1, 2));
    let mut second = IndexResult::start(1);
    assert_eq!(plan_file(false, Some("abc"), Some("abc")), FilePlan::Unchanged);
    second.record(FileOutcome::Unchanged);
    assert_eq!((second.files_indexed, second.files_unchanged), (0, 1));
}

#[test]
fn status_of_missing_index_is_empty() {
    let s = index_status(None);
    assert_eq!((s.file_count, s.chunk_count), (0, 0));
    let e = IndexStats::empty();
    assert!(e.languages.is_empty());
}

#[test]
fn empty_search_explanations() {
    assert_eq!(explain_empty_search(false, None, None), "No index found. Run 'index' first.");
    assert_eq!(explain_empty_search(true, Some(false), Some("src/")), "Path prefix has no indexed files.");
    assert_eq!(explain_empty_search(true, Some(false), None), "No indexed files. Run 'index' first.");
    assert_eq!(explain_empty_search(true, Some(true), None), "No matches.");
    assert_eq!(explain_empty_search(true, None, None), "No matches.");
    let q = SemanticQuery::new("q");
    assert_eq!(q.max_results, 20);
}

#[test]
fn embedder_rules() {
    let e = OllamaEmbedder::new("http://host:1/", "m");
    assert_eq!(e.base_url, "http://host:1");
    assert_eq!(e.endpoint(), "http://host:1/api/embeddings");
    let d = OllamaEmbedder::default();
    assert_eq!(d.base_url, "http://localhost:11434");
    assert_eq!(d.model, "nomic-embed-text");
    assert_eq!(prompt_text(""), " ");
    assert_eq!(prompt_text("abc"), "abc");
    let long: String = std::iter::repeat('é').take(9000).collect();
    assert_eq!(prompt_text(&long).chars().count(), 8192);
}

#[test]
fn content_hash_is_blake3_hex() {
    let h = hash_bytes(b"hello");
    assert_eq!(h, "ea8f163db38682925e4491c5e58d4bb3506ef8c14eb78a86e908c5624a67200f");
    assert_ne!(hash_bytes(b""), hash_bytes(b"hello"));
    assert_eq!(hash_bytes(b"").len(), 64);
}

#[test]
fn reference_kinds() {
    assert_eq!(classify_reference("import", "use foo;", "foo"), "import");
    assert_eq!(classify_reference("function", "let x = foo(1);", "foo"), "call");
    assert_eq!(classify_reference("function", "foo!(x)", "foo"), "call");
    assert_eq!(classify_reference("function", "let v: Vec<foo> = x;", "foo"), "type");
    assert_eq!(classify_reference("function", "fn g() -> foo", "foo"), "type");
    assert_eq!(classify_reference("function", "// foo here", "foo"), "reference");
}

#[test]
fn references_find_definitions_and_uses() {
    let chunks = vec![
        chunk("a.rs", "function", Some("foo"), 1, "fn foo() {}"),
        chunk("b.rs", "function", Some("bar"), 10, "fn bar() {\n    foo();\n    food();\n}"),
    ];
    let (defs, uses) = references(&chunks, "foo").unwrap();
    assert_eq!(defs.len(), 1);
    assert_eq!(defs[0].line, "fn foo() {}");
    assert_eq!(defs[0].ref_kind, "definition");
    assert_eq!(uses.len(), 1);
    assert_eq!(uses[0].line_no, 11);
    assert_eq!(uses[0].line, "foo();");
    assert_eq!(uses[0].ref_kind, "call");
}

#[test]
fn grep_with_context_and_limit() {
    let chunks = vec![chunk("a.rs", "function", None, 5, "one\ntwo\nthree\nfour")];
    let re = Pattern::new("t[wh]").unwrap();
    let m = grep_chunks(&chunks, &re, 10, 1);
    assert_eq!(m.len(), 2);
    let lines: Vec<(usize, &str, bool)> = m[0].context.iter().map(|l| (l.line_no, l.text.as_str(), l.is_match)).collect();
    assert_eq!(lines, vec![(5, "one", false), (6, "two", true), (7, "three", false)]);
    assert_eq!(grep_chunks(&chunks, &re, 1, 0).len(), 1);
    assert_eq!(grep_chunks(&chunks, &re, 0, 0).len(), 1);
    assert!(Pattern::new("(").is_err());
}

#[test]
fn semantic_candidates_best_first() {
    let out = top_candidates(vec![(1, 100), (2, 900), (3, 500), (4, 900)], 1);
    assert_eq!(out, vec![(2, 900), (4, 900), (3, 500)]);
    let all = top_candidates(vec![(1, -5), (2, 0)], 10);
    assert_eq!(all, vec![(2, 0), (1, -5)]);
    let mut q = SemanticQuery::new("x");
    let r = chunk("src/a.rs", "function", None, 1, "x");
    assert!(semantic_accepts(&r, &q));
    q.path_prefix = Some("tests/".to_string());
    assert!(!semantic_accepts(&r, &q));
    q.path_prefix = Some("src/".to_string());
    q.language = Some("rust".to_string());
    assert!(!semantic_accepts(&r, &q));
}

#[test]
fn notes_match_files_names_and_lines() {
    let ann = |t: &str, n: &str| Annotation { id: 0, target: t.to_string(), note: n.to_string(), session_id: None, created_at: String::new(), expires_at: None };
    let r = chunk("src/lib.rs", "function", Some("run"), 10, "a\nb\nc");
    let anns = vec![ann("lib.rs", "by suffix"), ann("run", "by name"), ann("src/lib.rs:11", "by line"), ann("src/lib.rs:99", "out of range"), ann("x.rs", "other"), ann("src/lib.rs:+12", "signed")];
    assert_eq!(matching_notes(&r, &anns), vec!["by suffix", "by name", "by line", "signed"]);
}

#[test]
fn result_presentation_modes() {
    let rs = vec![chunk("src/a.rs", "function", Some("foo"), 3, "fn foo() {\n    1\n}"), chunk("src/b.rs", "raw", None, 1, "text")];
    let opts = |mode: &str, offset: usize, head: Option<usize>, max: Option<usize>| FormatOpts {
        output_mode: mode.to_string(),
        offset,
        head_limit: head,
        max_lines: max,
        annotations: vec![Annotation { id: 1, target: "foo".to_string(), note: "look".to_string(), session_id: None, created_at: String::new(), expires_at: None }],
    };
    assert_eq!(format_results(&rs, &opts("count", 0, None, None)), "2 result(s)");
    assert_eq!(format_results(&rs, &opts("files_with_matches", 0, None, None)), "2 result(s)\nsrc/a.rs:3:6 [function] foo\nsrc/b.rs:1:2 [raw] \n");
    assert_eq!(format_results(&rs, &opts("signatures", 1, Some(5), None)), "2 result(s) (showing 2-2)\nsrc/b.rs:1 [raw] text\n");
    assert_eq!(
        format_results(&rs, &opts("content", 0, Some(1), Some(2))),
        "2 result(s) (showing 1-1)\n\n\u{2500}\u{2500} [0] src/a.rs:3-6 [function (foo)] \u{2500}\u{2500}\n  [note] look\n     3|fn foo() {\n     4|    1\n  ... (1 more lines)\n"
    );
}

#[test]
fn reference_symbols_are_matched_literally() {
    let chunks = vec![chunk("m.rs", "function", Some("run"), 1, "let v = a.b;\nlet w = axb;")];
    let (defs, uses) = references(&chunks, "a.b").unwrap();
    assert!(defs.is_empty());
    assert_eq!(uses.len(), 1);
    assert_eq!(uses[0].line, "let v = a.b;");
    assert_eq!(uses[0].ref_kind, "reference");
}

#[test]
fn context_visibility() {
    let ann = |t: &str, s: Option<&str>, exp: Option<&str>| Annotation { id: 0, target: t.to_string(), note: String::new(), session_id: s.map(|x| x.to_string()), created_at: String::new(), expires_at: exp.map(|x| x.to_string()) };
    let now = "2025-06-01T00:00:00+00:00";
    let all = vec![
        ann("a.rs", Some("s1"), None),
        ann("b.rs", None, Some("2099-01-01T00:00:00+00:00")),
        ann("c.rs", Some("s2"), None),
        ann("a.rs", None, Some("2020-01-01T00:00:00+00:00")),
    ];
    let copy = |v: &Vec<Annotation>| v.iter().map(|a| ann(&a.target, a.session_id.as_deref(), a.expires_at.as_deref())).collect::<Vec<_>>();
    let seen: Vec<String> = visible_annotations(copy(&all), None, Some("s1"), now).into_iter().map(|a| a.target).collect();
    assert_eq!(seen, vec!["a.rs", "b.rs"]);
    let all_sessions: Vec<String> = visible_annotations(copy(&all), None, None, now).into_iter().map(|a| a.target).collect();
    assert_eq!(all_sessions, vec!["a.rs", "b.rs", "c.rs"]);
    let on_a = visible_annotations(copy(&all), Some("a.rs"), Some("s2"), now);
    assert!(on_a.is_empty());

    let entry = |p: &str, k: &str, s: Option<&str>| WorksetEntry { id: 0, path: p.to_string(), kind: k.to_string(), session_id: s.map(|x| x.to_string()), created_at: String::new() };
    let ws = vec![entry("tests/", "focus", None), entry("vendor/", "visited", Some("s1")), entry("src/", "focus", Some("s2"))];
    assert_eq!(paths_of(visible_workset(ws, Some("focus"), Some("s1"))), vec!["tests/".to_string()]);
}

#[test]
fn references_sorted_by_file_and_line() {
    let chunks = vec![
        chunk("b.rs", "function", Some("g"), 20, "foo();"),
        chunk("a.rs", "function", Some("h"), 30, "x\nfoo();"),
        chunk("b.rs", "function", Some("foo"), 5, "fn foo() {}"),
        chunk("a.rs", "function", Some("k"), 2, "let v: foo = 1;"),
    ];
    let (defs, uses) = references(&chunks, "foo").unwrap();
    let files = distinct_files(&uses);
    assert_eq!(files, vec!["b.rs".to_string(), "a.rs".to_string()]);
    let all = sort_references(defs, uses);
    let got: Vec<(&str, usize, &str)> = all.iter().map(|r| (r.file_path.as_str(), r.line_no, r.ref_kind.as_str())).collect();
    assert_eq!(got, vec![("a.rs", 2, "type"), ("a.rs", 31, "call"), ("b.rs", 5, "definition"), ("b.rs", 20, "call")]);
    assert_eq!(page_bounds(4, 1, Some(2)), (1, 3));
    assert_eq!(page_bounds(4, 9, None), (4, 4));
    assert_eq!(page_bounds(4, 0, Some(10)), (0, 4));
}

#[test]
fn registry_lists_names_in_order() {
    let mut r = ProjectRegistry::new();
    r.add("web".to_string(), "/w".to_string());
    r.add("api".to_string(), "/a".to_string());
    r.add("cli".to_string(), "/c".to_string());
    let names: Vec<&str> = r.projects.iter().map(|(n, _)| n.as_str()).collect();
    assert_eq!(names, vec!["api", "cli", "web"]);
}

#[test]
fn read_and_batch_decisions() {
    use_outcomes();
}

fn use_outcomes() {
    assert_eq!(read_outcome(Some(3)), FileOutcome::Indexed { chunks: 3 });
    assert_eq!(read_outcome(None), FileOutcome::Skipped);
    assert_eq!(batch_step(0, 2, FileOutcome::Indexed { chunks: 1 }), (1, false));
    assert_eq!(batch_step(1, 2, FileOutcome::Indexed { chunks: 1 }), (0, true));
    assert_eq!(batch_step(1, 2, FileOutcome::Skipped), (1, false));
    assert_eq!(batch_step(1, 2, FileOutcome::Unchanged), (1, false));
}
