use booger::chunker::chunk_file;
use booger::diff::{assemble_diff, file_diff, BranchDiff, FileDiff, FileStatus, SymbolChange};
use booger::format::{changelog, draft_commit_message};

fn sym(kind: &str, name: &str) -> SymbolChange {
    SymbolChange { kind: kind.to_string(), name: name.to_string(), start_line: 1, end_line: 1 }
}

fn fd(path: &str, status: FileStatus, added: Vec<SymbolChange>, removed: Vec<SymbolChange>, modified: Vec<SymbolChange>) -> FileDiff {
    FileDiff { path: path.to_string(), status, added, removed, modified }
}

#[test]
fn empty_diff_messages() {
    let d = assemble_diff("main", Vec::new());
    assert_eq!(draft_commit_message(&d), "No changes to commit");
    assert_eq!(changelog(&d), "No structural changes vs `main`.\n");
}

#[test]
fn commit_message_names_added_symbols_and_scope() {
    let files = vec![
        fd("src/a.rs", FileStatus::Modified, vec![sym("function", "baz"), sym("import", "use x")], vec![sym("function", "bar")], vec![]),
        fd("src/b.rs", FileStatus::Added, vec![sym("struct", "S")], vec![], vec![]),
    ];
    let d = assemble_diff("main", files);
    assert_eq!(d.summary.files_added, 1);
    assert_eq!(d.summary.files_modified, 1);
    assert_eq!(d.summary.symbols_added, 3);
    assert_eq!(d.summary.symbols_removed, 1);
    let msg = draft_commit_message(&d);
    assert_eq!(
        msg,
        "Add baz, S in src\n\n[~] src/a.rs\n  + function baz\n  + import use x\n  - function bar\n[+] src/b.rs\n  + struct S"
    );
}

#[test]
fn commit_message_counts_files_without_names() {
    let files = vec![
        fd("a/x.rs", FileStatus::Deleted, vec![], vec![], vec![]),
        fd("b/y.rs", FileStatus::Deleted, vec![], vec![], vec![]),
    ];
    let d = assemble_diff("main", files);
    assert_eq!(draft_commit_message(&d), "Remove 2 file(s)");
    let one = assemble_diff("main", vec![fd("a/x.rs", FileStatus::Modified, vec![], vec![], vec![sym("function", "f")])]);
    assert_eq!(draft_commit_message(&one), "Update f in a/x.rs\n\n[~] a/x.rs\n  ~ function f");
}

#[test]
fn changelog_sections() {
    let files = vec![
        fd("src/a.rs", FileStatus::Modified, vec![sym("function", "baz"), sym("import", "use y")], vec![sym("function", "bar")], vec![sym("struct", "T")]),
        fd("src/new.rs", FileStatus::Added, vec![], vec![], vec![]),
    ];
    let d = assemble_diff("main", files);
    let text = changelog(&d);
    assert_eq!(
        text,
        "## Changes vs `main`\n\n**2** file(s) changed \u{2014} **+2** symbols added, **~1** modified, **-1** removed\n\n\
### Added\n\n- `baz` function in `src/a.rs`\n\n\
### Modified\n\n- `T` struct in `src/a.rs`\n\n\
### Removed\n\n- `bar` function in `src/a.rs`\n\n\
### Dependency changes\n\n- `use y` in `src/a.rs`\n\n\
### New files\n\n- `src/new.rs`\n\n"
    );
}

#[test]
fn branch_diff_scenario() {
    let base = chunk_file("fn foo() { 1 }\nfn bar() { 2 }\n", Some("rust"));
    let head = chunk_file("fn foo() { 1 }\nfn baz() { 2 }\n", Some("rust"));
    let d: BranchDiff = assemble_diff("main", vec![file_diff("a.rs".to_string(), FileStatus::Modified, &base, &head)]);
    assert_eq!(d.files[0].added.len(), 1);
    assert_eq!(d.files[0].added[0].name, "baz");
    assert_eq!(d.files[0].removed[0].name, "bar");
    assert!(d.files[0].modified.is_empty());
    assert_eq!(d.summary.symbols_added, 1);
    assert_eq!(d.summary.symbols_removed, 1);
}
