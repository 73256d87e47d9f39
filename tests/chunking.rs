use booger::chunker::{chunk_file, raw_chunk};

#[test]
fn two_functions_give_two_chunks() {
    let src = "fn foo() { 1 }\nfn bar() { 2 }\n";
    let chunks = chunk_file(src, Some("rust"));
    assert_eq!(chunks.len(), 2);
    assert_eq!(chunks[0].kind, "function");
    assert_eq!(chunks[0].name.as_deref(), Some("foo"));
    assert_eq!(chunks[0].start_line, 1);
    assert_eq!(chunks[0].end_line, 1);
    assert_eq!(chunks[0].content, "fn foo() { 1 }");
    assert_eq!(chunks[0].signature.as_deref(), Some("fn foo()"));
    assert_eq!(chunks[0].start_byte, 0);
    assert_eq!(chunks[0].end_byte, 14);
    assert_eq!(chunks[1].name.as_deref(), Some("bar"));
    assert_eq!(chunks[1].start_line, 2);
}

#[test]
fn container_keeps_its_head_and_its_members() {
    let src = "impl C {\n    fn f() {\n        1\n    }\n    fn g() {\n        2\n    }\n}\n";
    let chunks = chunk_file(src, Some("rust"));
    assert_eq!(chunks.len(), 3);
    assert_eq!(chunks[0].kind, "impl");
    assert_eq!(chunks[0].name.as_deref(), Some("C"));
    assert!(chunks[0].content.lines().count() <= 3);
    assert_eq!(chunks[0].content, "impl C {\n    fn f() {\n        1");
    assert_eq!(chunks[0].start_line, 1);
    assert_eq!(chunks[0].end_line, 3);
    assert_eq!(chunks[1].kind, "function");
    assert_eq!(chunks[1].name.as_deref(), Some("f"));
    assert_eq!(chunks[2].name.as_deref(), Some("g"));
    assert_eq!(chunks[2].start_line, 5);
    assert_eq!(chunks[2].end_line, 7);
}

#[test]
fn chunking_is_deterministic() {
    let src = "struct S { a: u32 }\nenum E { A, B }\nuse std::fmt;\nconst K: u8 = 1;\n";
    let a = chunk_file(src, Some("rust"));
    let b = chunk_file(src, Some("rust"));
    assert_eq!(a.len(), b.len());
    for (x, y) in a.iter().zip(b.iter()) {
        assert_eq!(x.kind, y.kind);
        assert_eq!(x.name, y.name);
        assert_eq!(x.content, y.content);
        assert_eq!(x.signature, y.signature);
        assert_eq!((x.start_line, x.end_line, x.start_byte, x.end_byte), (y.start_line, y.end_line, y.start_byte, y.end_byte));
    }
    let kinds: Vec<&str> = a.iter().map(|c| c.kind.as_str()).collect();
    assert_eq!(kinds, vec!["struct", "enum", "import", "constant"]);
    assert_eq!(a[2].name.as_deref(), Some("use std::fmt"));
    assert_eq!(a[0].signature.as_deref(), Some("struct S"));
}

#[test]
fn unknown_language_is_one_raw_chunk() {
    let chunks = chunk_file("line one\nline two\n", Some("markdown"));
    assert_eq!(chunks.len(), 1);
    assert_eq!(chunks[0].kind, "raw");
    assert_eq!(chunks[0].name, None);
    assert_eq!(chunks[0].start_line, 1);
    assert_eq!(chunks[0].end_line, 2);
    assert_eq!(chunks[0].end_byte, 18);
    let none = chunk_file("x", None);
    assert_eq!(none[0].kind, "raw");
    assert_eq!(none[0].end_line, 1);
}

#[test]
fn empty_content_has_no_chunks() {
    assert!(chunk_file("", Some("rust")).is_empty());
    assert!(chunk_file("", None).is_empty());
}

#[test]
fn raw_chunk_of_empty_lines() {
    let c = raw_chunk("");
    assert_eq!(c[0].end_line, 1);
    assert_eq!(c[0].end_byte, 0);
}

#[test]
fn code_without_symbols_falls_back_to_raw() {
    let chunks = chunk_file("// just a comment\n", Some("rust"));
    assert_eq!(chunks.len(), 1);
    assert_eq!(chunks[0].kind, "raw");
}

#[test]
fn python_and_script_tables() {
    let py = chunk_file("import os\n\n@dec\ndef f(x):\n    return x\n\nclass K:\n    def m(self):\n        pass\n", Some("python"));
    let kinds: Vec<(&str, Option<&str>)> = py.iter().map(|c| (c.kind.as_str(), c.name.as_deref())).collect();
    assert_eq!(kinds, vec![("import", Some("import os")), ("function", Some("f")), ("class", Some("K")), ("function", Some("m"))]);
    let js = chunk_file("const a = require('x');\nexport function g() {}\nconst h = () => 1;\n", Some("javascript"));
    let kinds: Vec<(&str, Option<&str>)> = js.iter().map(|c| (c.kind.as_str(), c.name.as_deref())).collect();
    assert_eq!(kinds, vec![("import", Some("const a = require('x');")), ("function", Some("g")), ("function", Some("h"))]);
}

#[test]
fn go_and_c_tables() {
    let go = chunk_file("package main\n\nimport \"fmt\"\n\ntype T struct{}\n\nfunc (t T) M() {}\n\nfunc F() {}\n", Some("go"));
    let kinds: Vec<(&str, Option<&str>)> = go.iter().map(|c| (c.kind.as_str(), c.name.as_deref())).collect();
    assert_eq!(kinds, vec![("import", Some("import \"fmt\"")), ("type", Some("T struct{}")), ("method", Some("M")), ("function", Some("F"))]);
    let c = chunk_file("#include <stdio.h>\nint main(void) { return 0; }\n", Some("c"));
    let kinds: Vec<(&str, Option<&str>)> = c.iter().map(|c| (c.kind.as_str(), c.name.as_deref())).collect();
    assert_eq!(kinds, vec![("import", Some("#include <stdio.h>")), ("function", Some("main"))]);
}

#[test]
fn carriage_returns_follow_str_lines() {
    let c = raw_chunk("a\r\nb\r");
    assert_eq!(c[0].end_line, 2);
    let head = chunk_file("impl C {\r\n    fn f() {}\r\n}\r\n", Some("rust"));
    assert_eq!(head[0].content, "impl C {\n    fn f() {}\n}");
}
