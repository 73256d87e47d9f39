use booger::walker::{detect_language, is_binary, language_for_extension, path_extension, WalkConfig};

#[test]
fn languages_by_extension() {
    assert_eq!(detect_language("src/main.rs"), Some("rust"));
    assert_eq!(detect_language("a/b/c.PY"), Some("python"));
    assert_eq!(detect_language("x.tsx"), Some("tsx"));
    assert_eq!(detect_language("lib.hpp"), Some("cpp"));
    assert_eq!(detect_language("README"), None);
    assert_eq!(detect_language("notes.unknown"), None);
    assert_eq!(detect_language(".bashrc"), None);
    assert_eq!(language_for_extension("yml"), Some("yaml"));
    assert_eq!(language_for_extension("YML"), None);
}

#[test]
fn binary_by_extension() {
    assert!(is_binary("img/logo.PNG"));
    assert!(is_binary("a.tar.gz"));
    assert!(!is_binary("main.rs"));
    assert!(!is_binary("Makefile"));
    assert!(!is_binary("dir.png/file"));
}

#[test]
fn extensions_follow_the_last_dot() {
    assert_eq!(path_extension("a/b.c/d.tar.gz").as_deref(), Some("gz"));
    assert_eq!(path_extension("a/.hidden"), None);
    assert_eq!(path_extension("..x").as_deref(), Some("x"));
    assert_eq!(path_extension(".."), None);
    assert_eq!(path_extension("trailing."), Some(String::new()));
}

#[test]
fn walk_defaults() {
    let c = WalkConfig::default();
    assert_eq!(c.max_threads, 2);
    assert_eq!(c.max_file_size, 1024 * 1024);
}
