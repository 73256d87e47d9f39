use booger::fts::sanitize_fts_query;

#[test]
fn sanitize_plain_query() {
    assert_eq!(sanitize_fts_query("hello world"), "hello world");
}

#[test]
fn sanitize_hyphenated_query() {
    assert_eq!(sanitize_fts_query("tree-sitter"), "\"tree-sitter\"");
}

#[test]
fn sanitize_quoted_phrase() {
    assert_eq!(sanitize_fts_query("\"exact match\""), "\"exact match\"");
}

#[test]
fn sanitize_mixed_query() {
    assert_eq!(sanitize_fts_query("hello tree-sitter world"), "hello \"tree-sitter\" world");
}

#[test]
fn sanitize_path_query() {
    assert_eq!(sanitize_fts_query("src/main.rs"), "\"src/main.rs\"");
}

#[test]
fn sanitize_empty() {
    assert_eq!(sanitize_fts_query(""), "");
}

#[test]
fn sanitize_listed_examples() {
    assert_eq!(sanitize_fts_query("\"a b\""), "\"a b\"");
    assert_eq!(sanitize_fts_query("hello tree-sitter"), "hello \"tree-sitter\"");
}

#[test]
fn sanitize_hyphenated_phrase_query() {
    assert_eq!(sanitize_fts_query("tree-sitter parser"), "\"tree-sitter\" parser");
}

#[test]
fn sanitize_operator_characters() {
    assert_eq!(sanitize_fts_query("a:b c*d e^f g.h"), "\"a:b\" \"c*d\" \"e^f\" \"g.h\"");
    assert_eq!(sanitize_fts_query("  plain\tquery "), "  plain\tquery ");
    assert_eq!(sanitize_fts_query("\"unterminated phrase"), "\"unterminated phrase");
    assert_eq!(sanitize_fts_query("x-y\"q r\"z"), "\"x-y\"\"q r\"z");
}
