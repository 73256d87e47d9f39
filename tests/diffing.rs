use booger::chunker::chunk_file;
use booger::diff::diff_chunks;
use booger::records::ChunkInsert;

fn chunk(kind: &str, name: &str, content: &str, line: u32) -> ChunkInsert {
    ChunkInsert {
        kind: kind.to_string(),
        name: Some(name.to_string()),
        content: content.to_string(),
        signature: None,
        start_line: line,
        end_line: line,
        start_byte: 0,
        end_byte: 0,
    }
}

#[test]
fn branch_replaces_bar_with_baz() {
    let base = chunk_file("fn foo() { 1 }\nfn bar() { 2 }\n", Some("rust"));
    let head = chunk_file("fn foo() { 1 }\nfn baz() { 3 }\n", Some("rust"));
    let (added, removed, modified) = diff_chunks(&base, &head);
    assert_eq!(added.len(), 1);
    assert_eq!((added[0].kind.as_str(), added[0].name.as_str()), ("function", "baz"));
    assert_eq!(removed.len(), 1);
    assert_eq!((removed[0].kind.as_str(), removed[0].name.as_str()), ("function", "bar"));
    assert!(modified.is_empty());
}

#[test]
fn changed_body_is_modified() {
    let base = chunk_file("fn foo() { 1 }\nfn bar() { 2 }\n", Some("rust"));
    let head = chunk_file("fn foo() { 2 }\nfn bar() { 2 }\n", Some("rust"));
    let (added, removed, modified) = diff_chunks(&base, &head);
    assert!(added.is_empty() && removed.is_empty());
    assert_eq!(modified.len(), 1);
    assert_eq!(modified[0].name, "foo");
}

#[test]
fn diff_is_symmetric() {
    let a = vec![chunk("function", "x", "1", 1), chunk("function", "y", "2", 2)];
    let b = vec![chunk("function", "y", "3", 1), chunk("struct", "z", "4", 2)];
    let (ab_added, ab_removed, ab_modified) = diff_chunks(&a, &b);
    let (ba_added, ba_removed, ba_modified) = diff_chunks(&b, &a);
    let names = |v: &Vec<booger::diff::SymbolChange>| v.iter().map(|c| c.name.clone()).collect::<Vec<_>>();
    assert_eq!(names(&ab_added), names(&ba_removed));
    assert_eq!(names(&ab_removed), names(&ba_added));
    assert_eq!(names(&ab_modified), names(&ba_modified));
    assert_eq!(names(&ab_added), vec!["z"]);
    assert_eq!(names(&ab_modified), vec!["y"]);
}

#[test]
fn repeated_names_are_told_apart() {
    let base = vec![chunk("function", "new", "a", 1), chunk("function", "new", "b", 5)];
    let head = vec![chunk("function", "new", "a", 1), chunk("function", "new", "c", 5), chunk("function", "new", "d", 9)];
    let (added, removed, modified) = diff_chunks(&base, &head);
    assert_eq!(added.len(), 1);
    assert_eq!(added[0].start_line, 9);
    assert!(removed.is_empty());
    assert_eq!(modified.len(), 1);
    assert_eq!(modified[0].start_line, 5);
}

#[test]
fn raw_chunks_are_ignored() {
    let base = vec![chunk("raw", "", "x", 1)];
    let head = vec![chunk("raw", "", "y", 1)];
    let (added, removed, modified) = diff_chunks(&base, &head);
    assert!(added.is_empty() && removed.is_empty() && modified.is_empty());
}
