//! Rules the directory walk applies to each path: which files are binary
//! and which language a file is written in, both by extension.

use vstd::prelude::*;
use crate::text::{chars_of, str_eq, string_of};

verus! {

/// Limits of a directory walk.
pub struct WalkConfig {
    pub max_threads: usize,
    /// Files larger than this many bytes are left out.
    pub max_file_size: u64,
}

impl WalkConfig {
    /// Two threads and a one-megabyte size limit.
    pub fn default() -> (r: Self)
        ensures
            r.max_threads == 2,
            r.max_file_size == 1024 * 1024,
    {
        WalkConfig { max_threads: 2, max_file_size: 1024 * 1024 }
    }
}

/// The lower-case form of a string, as `str::to_lowercase` gives it.
pub uninterp spec fn lower_of(s: Seq<char>) -> Seq<char>;

/// Relies on `str::to_lowercase`: the result depends on the characters alone.
#[verifier::external_body]
fn lowercase(s: &str) -> (r: String)
    ensures
        r@ == lower_of(s@),
{
    s.to_lowercase()
}

/// Index just past the last `c` in `s` before position `i`, or 0.
pub open spec fn after_last(s: Seq<char>, c: char, i: int) -> int
    decreases i,
{
    if i <= 0 || i > s.len() {
        0
    } else if s[i - 1] == c {
        i
    } else {
        after_last(s, c, i - 1)
    }
}

/// The last component of a `/`-separated path.
pub open spec fn file_name(p: Seq<char>) -> Seq<char> {
    p.skip(after_last(p, '/', p.len() as int))
}

/// A file name's extension, as `Path::extension` gives it: what follows the
/// last dot, unless there is no dot, the only dot leads the name, or the
/// name is `..`.
pub open spec fn extension(p: Seq<char>) -> Option<Seq<char>> {
    let name = file_name(p);
    let k = after_last(name, '.', name.len() as int);
    if name == ".."@ || k <= 1 {
        None
    } else {
        Some(name.skip(k))
    }
}

proof fn lemma_after_last(s: Seq<char>, c: char, i: int)
    requires
        0 <= i <= s.len(),
    ensures
        0 <= after_last(s, c, i) <= i,
    decreases i,
{
    if i > 0 && s[i - 1] != c {
        lemma_after_last(s, c, i - 1);
    }
}

fn after_last_exec(s: &Vec<char>, c: char) -> (r: usize)
    ensures
        r == after_last(s@, c, s@.len() as int),
        r <= s@.len(),
{
    let mut i = s.len();
    proof { lemma_after_last(s@, c, i as int); }
    while i > 0 && s[i - 1] != c
        invariant
            i <= s@.len(),
            after_last(s@, c, i as int) == after_last(s@, c, s@.len() as int),
        decreases i,
    {
        i = i - 1;
    }
    i
}

fn skip_chars(s: &Vec<char>, from: usize) -> (r: Vec<char>)
    requires
        from <= s@.len(),
    ensures
        r@ == s@.skip(from as int),
{
    let mut out: Vec<char> = Vec::new();
    let mut i = from;
    while i < s.len()
        invariant
            from <= i <= s@.len(),
            out@ == s@.subrange(from as int, i as int),
        decreases s@.len() - i,
    {
        out.push(s[i]);
        assert(s@.subrange(from as int, i + 1) =~= s@.subrange(from as int, i as int).push(s@[i as int]));
        i = i + 1;
    }
    out
}

/// The extension of a path, if it has one.
pub fn path_extension(path: &str) -> (r: Option<String>)
    ensures
        opt_chars(r) == extension(path@),
{
    let p = chars_of(path);
    let cut = after_last_exec(&p, '/');
    let name = skip_chars(&p, cut);
    let k = after_last_exec(&name, '.');
    if str_eq(string_of(&name).as_str(), "..") || k <= 1 {
        None
    } else {
        Some(string_of(&skip_chars(&name, k)))
    }
}

pub open spec fn opt_chars(o: Option<String>) -> Option<Seq<char>> {
    match o {
        Some(s) => Some(s@),
        None => None,
    }
}

/// Extensions of files that are never read as text.
pub open spec fn is_binary_extension(e: Seq<char>) -> bool {
    e == "png"@ || e == "jpg"@ || e == "jpeg"@ || e == "gif"@ || e == "bmp"@ || e == "ico"@ || e
        == "webp"@ || e == "svg"@ || e == "mp3"@ || e == "mp4"@ || e == "wav"@ || e == "avi"@
        || e == "mov"@ || e == "mkv"@ || e == "flac"@ || e == "zip"@ || e == "tar"@ || e == "gz"@
        || e == "bz2"@ || e == "xz"@ || e == "7z"@ || e == "rar"@ || e == "pdf"@ || e == "doc"@
        || e == "docx"@ || e == "xls"@ || e == "xlsx"@ || e == "ppt"@ || e == "pptx"@ || e
        == "exe"@ || e == "dll"@ || e == "so"@ || e == "dylib"@ || e == "o"@ || e == "a"@ || e
        == "lib"@ || e == "wasm"@ || e == "pyc"@ || e == "class"@ || e == "jar"@ || e == "ttf"@
        || e == "otf"@ || e == "woff"@ || e == "woff2"@ || e == "eot"@ || e == "sqlite"@ || e
        == "db"@ || e == "db3"@ || e == "DS_Store"@
}

/// Whether a lower-cased extension is one of the binary extensions.
pub fn binary_extension(e: &str) -> (r: bool)
    ensures
        r == is_binary_extension(e@),
{
    str_eq(e, "png") || str_eq(e, "jpg") || str_eq(e, "jpeg") || str_eq(e, "gif") || str_eq(e, "bmp")
        || str_eq(e, "ico") || str_eq(e, "webp") || str_eq(e, "svg") || str_eq(e, "mp3")
        || str_eq(e, "mp4") || str_eq(e, "wav") || str_eq(e, "avi") || str_eq(e, "mov")
        || str_eq(e, "mkv") || str_eq(e, "flac") || str_eq(e, "zip") || str_eq(e, "tar")
        || str_eq(e, "gz") || str_eq(e, "bz2") || str_eq(e, "xz") || str_eq(e, "7z")
        || str_eq(e, "rar") || str_eq(e, "pdf") || str_eq(e, "doc") || str_eq(e, "docx")
        || str_eq(e, "xls") || str_eq(e, "xlsx") || str_eq(e, "ppt") || str_eq(e, "pptx")
        || str_eq(e, "exe") || str_eq(e, "dll") || str_eq(e, "so") || str_eq(e, "dylib")
        || str_eq(e, "o") || str_eq(e, "a") || str_eq(e, "lib") || str_eq(e, "wasm")
        || str_eq(e, "pyc") || str_eq(e, "class") || str_eq(e, "jar") || str_eq(e, "ttf")
        || str_eq(e, "otf") || str_eq(e, "woff") || str_eq(e, "woff2") || str_eq(e, "eot")
        || str_eq(e, "sqlite") || str_eq(e, "db") || str_eq(e, "db3") || str_eq(e, "DS_Store")
}

/// Whether a path names a binary file, judged by its extension alone,
/// compared without regard to case.
pub fn is_binary(path: &str) -> (r: bool)
    ensures
        r == (extension(path@) is Some && is_binary_extension(lower_of(extension(path@)->0))),
{
    match path_extension(path) {
        Some(e) => binary_extension(lowercase(e.as_str()).as_str()),
        None => false,
    }
}

/// The language tag of a lower-cased extension.
pub open spec fn language_of_extension(e: Seq<char>) -> Option<Seq<char>> {
    if e == "rs"@ {
        Some("rust"@)
    } else if e == "py"@ {
        Some("python"@)
    } else if e == "js"@ || e == "mjs"@ || e == "cjs"@ {
        Some("javascript"@)
    } else if e == "ts"@ || e == "mts"@ || e == "cts"@ {
        Some("typescript"@)
    } else if e == "tsx"@ {
        Some("tsx"@)
    } else if e == "jsx"@ {
        Some("jsx"@)
    } else if e == "go"@ {
        Some("go"@)
    } else if e == "c"@ || e == "h"@ {
        Some("c"@)
    } else if e == "cpp"@ || e == "cc"@ || e == "cxx"@ || e == "hpp"@ || e == "hxx"@ {
        Some("cpp"@)
    } else if e == "java"@ {
        Some("java"@)
    } else if e == "rb"@ {
        Some("ruby"@)
    } else if e == "php"@ {
        Some("php"@)
    } else if e == "swift"@ {
        Some("swift"@)
    } else if e == "kt"@ || e == "kts"@ {
        Some("kotlin"@)
    } else if e == "scala"@ {
        Some("scala"@)
    } else if e == "zig"@ {
        Some("zig"@)
    } else if e == "lua"@ {
        Some("lua"@)
    } else if e == "sh"@ || e == "bash"@ || e == "zsh"@ {
        Some("shell"@)
    } else if e == "sql"@ {
        Some("sql"@)
    } else if e == "html"@ || e == "htm"@ {
        Some("html"@)
    } else if e == "css"@ {
        Some("css"@)
    } else if e == "scss"@ || e == "sass"@ {
        Some("scss"@)
    } else if e == "json"@ {
        Some("json"@)
    } else if e == "yaml"@ || e == "yml"@ {
        Some("yaml"@)
    } else if e == "toml"@ {
        Some("toml"@)
    } else if e == "xml"@ {
        Some("xml"@)
    } else if e == "md"@ || e == "markdown"@ {
        Some("markdown"@)
    } else if e == "txt"@ {
        Some("text"@)
    } else if e == "proto"@ {
        Some("protobuf"@)
    } else if e == "graphql"@ || e == "gql"@ {
        Some("graphql"@)
    } else if e == "dockerfile"@ {
        Some("dockerfile"@)
    } else if e == "makefile"@ {
        Some("makefile"@)
    } else if e == "cmake"@ {
        Some("cmake"@)
    } else if e == "nix"@ {
        Some("nix"@)
    } else if e == "tf"@ || e == "hcl"@ {
        Some("hcl"@)
    } else if e == "el"@ || e == "lisp"@ || e == "cl"@ {
        Some("lisp"@)
    } else if e == "clj"@ || e == "cljs"@ || e == "cljc"@ {
        Some("clojure"@)
    } else if e == "ex"@ || e == "exs"@ {
        Some("elixir"@)
    } else if e == "erl"@ || e == "hrl"@ {
        Some("erlang"@)
    } else if e == "hs"@ {
        Some("haskell"@)
    } else if e == "ml"@ || e == "mli"@ {
        Some("ocaml"@)
    } else if e == "r"@ {
        Some("r"@)
    } else if e == "dart"@ {
        Some("dart"@)
    } else if e == "vue"@ {
        Some("vue"@)
    } else if e == "svelte"@ {
        Some("svelte"@)
    } else {
        None
    }
}

/// The language tag of a lower-cased extension, if it has one.
pub fn language_for_extension(e: &str) -> (r: Option<&'static str>)
    ensures
        match r {
            Some(t) => language_of_extension(e@) == Some(t@),
            None => language_of_extension(e@) is None,
        },
{
    if str_eq(e, "rs") {
        Some("rust")
    } else if str_eq(e, "py") {
        Some("python")
    } else if str_eq(e, "js") || str_eq(e, "mjs") || str_eq(e, "cjs") {
        Some("javascript")
    } else if str_eq(e, "ts") || str_eq(e, "mts") || str_eq(e, "cts") {
        Some("typescript")
    } else if str_eq(e, "tsx") {
        Some("tsx")
    } else if str_eq(e, "jsx") {
        Some("jsx")
    } else if str_eq(e, "go") {
        Some("go")
    } else if str_eq(e, "c") || str_eq(e, "h") {
        Some("c")
    } else if str_eq(e, "cpp") || str_eq(e, "cc") || str_eq(e, "cxx") || str_eq(e, "hpp") || str_eq(e, "hxx") {
        Some("cpp")
    } else if str_eq(e, "java") {
        Some("java")
    } else if str_eq(e, "rb") {
        Some("ruby")
    } else if str_eq(e, "php") {
        Some("php")
    } else if str_eq(e, "swift") {
        Some("swift")
    } else if str_eq(e, "kt") || str_eq(e, "kts") {
        Some("kotlin")
    } else if str_eq(e, "scala") {
        Some("scala")
    } else if str_eq(e, "zig") {
        Some("zig")
    } else if str_eq(e, "lua") {
        Some("lua")
    } else if str_eq(e, "sh") || str_eq(e, "bash") || str_eq(e, "zsh") {
        Some("shell")
    } else if str_eq(e, "sql") {
        Some("sql")
    } else if str_eq(e, "html") || str_eq(e, "htm") {
        Some("html")
    } else if str_eq(e, "css") {
        Some("css")
    } else if str_eq(e, "scss") || str_eq(e, "sass") {
        Some("scss")
    } else if str_eq(e, "json") {
        Some("json")
    } else if str_eq(e, "yaml") || str_eq(e, "yml") {
        Some("yaml")
    } else if str_eq(e, "toml") {
        Some("toml")
    } else if str_eq(e, "xml") {
        Some("xml")
    } else if str_eq(e, "md") || str_eq(e, "markdown") {
        Some("markdown")
    } else if str_eq(e, "txt") {
        Some("text")
    } else if str_eq(e, "proto") {
        Some("protobuf")
    } else if str_eq(e, "graphql") || str_eq(e, "gql") {
        Some("graphql")
    } else if str_eq(e, "dockerfile") {
        Some("dockerfile")
    } else if str_eq(e, "makefile") {
        Some("makefile")
    } else if str_eq(e, "cmake") {
        Some("cmake")
    } else if str_eq(e, "nix") {
        Some("nix")
    } else if str_eq(e, "tf") || str_eq(e, "hcl") {
        Some("hcl")
    } else if str_eq(e, "el") || str_eq(e, "lisp") || str_eq(e, "cl") {
        Some("lisp")
    } else if str_eq(e, "clj") || str_eq(e, "cljs") || str_eq(e, "cljc") {
        Some("clojure")
    } else if str_eq(e, "ex") || str_eq(e, "exs") {
        Some("elixir")
    } else if str_eq(e, "erl") || str_eq(e, "hrl") {
        Some("erlang")
    } else if str_eq(e, "hs") {
        Some("haskell")
    } else if str_eq(e, "ml") || str_eq(e, "mli") {
        Some("ocaml")
    } else if str_eq(e, "r") {
        Some("r")
    } else if str_eq(e, "dart") {
        Some("dart")
    } else if str_eq(e, "vue") {
        Some("vue")
    } else if str_eq(e, "svelte") {
        Some("svelte")
    } else {
        None
    }
}

/// The language of a file, judged by its extension compared without
/// regard to case; `None` for extensions outside the table.
pub fn detect_language(path: &str) -> (r: Option<&'static str>)
    ensures
        match r {
            Some(t) => extension(path@) is Some && language_of_extension(
                lower_of(extension(path@)->0),
            ) == Some(t@),
            None => extension(path@) is None || language_of_extension(
                lower_of(extension(path@)->0),
            ) is None,
        },
{
    match path_extension(path) {
        Some(e) => language_for_extension(lowercase(e.as_str()).as_str()),
        None => None,
    }
}

} // verus!
