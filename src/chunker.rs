//! Structural chunking: a file's syntax tree is walked in pre-order and each
//! node that a language's table recognises becomes a chunk. Containers
//! (impl, class, trait, module, interface) keep only their head and are
//! walked into; other recognised nodes are not. A file that yields no chunk
//! becomes one `raw` chunk.

use vstd::prelude::*;
use vstd::string::StringSliceAdditionalSpecFns;
use crate::records::ChunkInsert;
use crate::syntax::{
    Grammar, GrammarHandle, NodeModel, SyntaxNode, parses, parsed_nodes, c_grammar, node_model, node_models, first_line, flatten, go_grammar, head_lines, javascript_grammar,
    join_lines, line_end, lines_of, parse_source, python_grammar, rust_grammar, slice_chars,
    slice_text, trim, trim_end, trim_end_char, trim_end_char_vec, trim_end_vec, trim_vec,
    lemma_join_newlines, lemma_lines_bound, newlines,
    tsx_grammar, typescript_grammar, lemma_line_end_bounds,
};
use crate::text::{
    chars_contain, chars_of, contains, has_infix, has_prefix, str_eq, string_of, starts_with,
};

verus! {

/// What a chunk holds, over plain values.
pub struct ChunkModel {
    pub kind: Seq<char>,
    pub name: Option<Seq<char>>,
    pub content: Seq<char>,
    pub signature: Option<Seq<char>>,
    pub start_line: u32,
    pub end_line: u32,
    pub start_byte: u32,
    pub end_byte: u32,
}

pub open spec fn opt_view(o: Option<String>) -> Option<Seq<char>> {
    match o {
        Some(s) => Some(s@),
        None => None,
    }
}

impl View for ChunkInsert {
    type V = ChunkModel;

    open spec fn view(&self) -> ChunkModel {
        ChunkModel {
            kind: self.kind@,
            name: opt_view(self.name),
            content: self.content@,
            signature: opt_view(self.signature),
            start_line: self.start_line,
            end_line: self.end_line,
            start_byte: self.start_byte,
            end_byte: self.end_byte,
        }
    }
}

pub open spec fn models(v: Seq<ChunkInsert>) -> Seq<ChunkModel> {
    v.map_values(|c: ChunkInsert| c@)
}

/// Language families that share a classification table.
pub const RUST: u8 = 1;
pub const PYTHON: u8 = 2;
pub const SCRIPT: u8 = 3;
pub const GO: u8 = 4;
pub const C: u8 = 5;

pub open spec fn family_of(lang: Seq<char>) -> u8 {
    if lang == "rust"@ {
        RUST
    } else if lang == "python"@ {
        PYTHON
    } else if lang == "javascript"@ || lang == "jsx"@ || lang == "typescript"@ || lang == "tsx"@ {
        SCRIPT
    } else if lang == "go"@ {
        GO
    } else if lang == "c"@ {
        C
    } else {
        0
    }
}

pub open spec fn text_of(src: Seq<u8>, n: NodeModel) -> Seq<char> {
    slice_chars(src, n.start_byte as int, n.end_byte as int)
}

/// First index from `j` on whose depth is at most `d`, or the end.
pub open spec fn scan_end(nodes: Seq<NodeModel>, d: int, j: int) -> int
    decreases nodes.len() - j,
{
    if j < 0 || j >= nodes.len() {
        nodes.len() as int
    } else if nodes[j].depth <= d {
        j
    } else {
        scan_end(nodes, d, j + 1)
    }
}

/// One past the last descendant of node `i`.
pub open spec fn subtree_end(nodes: Seq<NodeModel>, i: int) -> int {
    scan_end(nodes, nodes[i].depth as int, i + 1)
}

pub open spec fn is_child(nodes: Seq<NodeModel>, i: int, j: int) -> bool {
    i < j < subtree_end(nodes, i) && j < nodes.len() && nodes[j].depth == nodes[i].depth + 1
}

/// The first child of `i` at or after `j` held under field `f`, or -1.
pub open spec fn field_child_from(nodes: Seq<NodeModel>, i: int, f: Seq<char>, j: int) -> int
    decreases nodes.len() - j,
{
    if j <= i || j >= subtree_end(nodes, i) || j >= nodes.len() {
        -1
    } else if is_child(nodes, i, j) && nodes[j].field == Some(f) {
        j
    } else {
        field_child_from(nodes, i, f, j + 1)
    }
}

pub open spec fn field_child(nodes: Seq<NodeModel>, i: int, f: Seq<char>) -> int {
    field_child_from(nodes, i, f, i + 1)
}

/// The `k`-th child of `i` counting from `j`, or -1.
pub open spec fn nth_child_from(nodes: Seq<NodeModel>, i: int, k: int, j: int) -> int
    decreases nodes.len() - j,
{
    if j <= i || j >= subtree_end(nodes, i) || j >= nodes.len() {
        -1
    } else if is_child(nodes, i, j) {
        if k == 0 {
            j
        } else {
            nth_child_from(nodes, i, k - 1, j + 1)
        }
    } else {
        nth_child_from(nodes, i, k, j + 1)
    }
}

/// The text of the child of `i` under field `f`.
pub open spec fn field_text(nodes: Seq<NodeModel>, src: Seq<u8>, i: int, f: Seq<char>) -> Option<
    Seq<char>,
> {
    let c = field_child(nodes, i, f);
    if 0 <= c < nodes.len() {
        Some(text_of(src, nodes[c]))
    } else {
        None
    }
}

pub open spec fn named(kind: Seq<char>, nodes: Seq<NodeModel>, src: Seq<u8>, i: int) -> Option<
    (Seq<char>, Option<Seq<char>>),
> {
    Some((kind, field_text(nodes, src, i, "name"@)))
}

pub open spec fn classify_rust(nodes: Seq<NodeModel>, src: Seq<u8>, i: int) -> Option<
    (Seq<char>, Option<Seq<char>>),
> {
    let k = nodes[i].kind;
    if k == "function_item"@ {
        named("function"@, nodes, src, i)
    } else if k == "struct_item"@ {
        named("struct"@, nodes, src, i)
    } else if k == "enum_item"@ {
        named("enum"@, nodes, src, i)
    } else if k == "impl_item"@ {
        Some(("impl"@, field_text(nodes, src, i, "type"@)))
    } else if k == "trait_item"@ {
        named("trait"@, nodes, src, i)
    } else if k == "mod_item"@ {
        named("module"@, nodes, src, i)
    } else if k == "type_item"@ {
        named("type_alias"@, nodes, src, i)
    } else if k == "const_item"@ || k == "static_item"@ {
        named("constant"@, nodes, src, i)
    } else if k == "macro_definition"@ {
        named("macro"@, nodes, src, i)
    } else if k == "use_declaration"@ {
        Some(("import"@, Some(trim(trim_end_char(text_of(src, nodes[i]), ';')))))
    } else {
        None
    }
}

pub open spec fn classify_python(nodes: Seq<NodeModel>, src: Seq<u8>, i: int) -> Option<
    (Seq<char>, Option<Seq<char>>),
> {
    let k = nodes[i].kind;
    if k == "function_definition"@ {
        named("function"@, nodes, src, i)
    } else if k == "class_definition"@ {
        named("class"@, nodes, src, i)
    } else if k == "import_statement"@ || k == "import_from_statement"@ {
        Some(("import"@, Some(trim(text_of(src, nodes[i])))))
    } else {
        None
    }
}

/// The name of a declaration's second child (its declarator).
pub open spec fn declarator_name(nodes: Seq<NodeModel>, src: Seq<u8>, i: int) -> Option<Seq<char>> {
    let d = nth_child_from(nodes, i, 1, i + 1);
    if 0 <= d < nodes.len() {
        field_text(nodes, src, d, "name"@)
    } else {
        None
    }
}

pub open spec fn classify_script(nodes: Seq<NodeModel>, src: Seq<u8>, i: int) -> Option<
    (Seq<char>, Option<Seq<char>>),
> {
    let k = nodes[i].kind;
    let t = text_of(src, nodes[i]);
    if k == "function_declaration"@ {
        named("function"@, nodes, src, i)
    } else if k == "class_declaration"@ {
        named("class"@, nodes, src, i)
    } else if k == "method_definition"@ {
        named("method"@, nodes, src, i)
    } else if k == "lexical_declaration"@ || k == "variable_declaration"@ {
        if has_infix(t, "require("@) {
            Some(("import"@, Some(trim(t))))
        } else if has_infix(t, "=>"@) || has_infix(t, "function"@) {
            Some(("function"@, declarator_name(nodes, src, i)))
        } else {
            None
        }
    } else if k == "interface_declaration"@ {
        named("interface"@, nodes, src, i)
    } else if k == "type_alias_declaration"@ {
        named("type_alias"@, nodes, src, i)
    } else if k == "enum_declaration"@ {
        named("enum"@, nodes, src, i)
    } else if k == "import_statement"@ {
        Some(("import"@, Some(trim(t))))
    } else {
        None
    }
}

pub open spec fn classify_go(nodes: Seq<NodeModel>, src: Seq<u8>, i: int) -> Option<
    (Seq<char>, Option<Seq<char>>),
> {
    let k = nodes[i].kind;
    if k == "function_declaration"@ {
        named("function"@, nodes, src, i)
    } else if k == "method_declaration"@ {
        named("method"@, nodes, src, i)
    } else if k == "type_declaration"@ {
        let c = nth_child_from(nodes, i, 1, i + 1);
        Some(
            (
                "type"@,
                if 0 <= c < nodes.len() {
                    Some(text_of(src, nodes[c]))
                } else {
                    None
                },
            ),
        )
    } else if k == "import_declaration"@ {
        Some(("import"@, Some(trim(text_of(src, nodes[i])))))
    } else {
        None
    }
}

pub open spec fn classify_c(nodes: Seq<NodeModel>, src: Seq<u8>, i: int) -> Option<
    (Seq<char>, Option<Seq<char>>),
> {
    let k = nodes[i].kind;
    if k == "function_definition"@ {
        let d = field_child(nodes, i, "declarator"@);
        Some(
            (
                "function"@,
                if 0 <= d < nodes.len() {
                    field_text(nodes, src, d, "declarator"@)
                } else {
                    None
                },
            ),
        )
    } else if k == "struct_specifier"@ {
        named("struct"@, nodes, src, i)
    } else if k == "enum_specifier"@ {
        named("enum"@, nodes, src, i)
    } else if k == "type_definition"@ {
        Some(("type_alias"@, None))
    } else if k == "preproc_include"@ {
        Some(("import"@, Some(trim(text_of(src, nodes[i])))))
    } else {
        None
    }
}

/// The table entry of node `i` itself, for the kinds that do not defer to a child.
pub open spec fn classify_direct(nodes: Seq<NodeModel>, src: Seq<u8>, fam: u8, i: int) -> Option<
    (Seq<char>, Option<Seq<char>>),
> {
    if fam == RUST {
        classify_rust(nodes, src, i)
    } else if fam == PYTHON {
        classify_python(nodes, src, i)
    } else if fam == SCRIPT {
        classify_script(nodes, src, i)
    } else if fam == GO {
        classify_go(nodes, src, i)
    } else if fam == C {
        classify_c(nodes, src, i)
    } else {
        None
    }
}

/// Kinds classified by their first child that is classified: a decorated
/// Python definition, a script `export` statement.
pub open spec fn defers_to_child(fam: u8, kind: Seq<char>) -> bool {
    (fam == PYTHON && kind == "decorated_definition"@) || (fam == SCRIPT && kind
        == "export_statement"@)
}

pub open spec fn classify_at(nodes: Seq<NodeModel>, src: Seq<u8>, fam: u8, i: int) -> Option<
    (Seq<char>, Option<Seq<char>>),
>
    decreases nodes.len() - i, nodes.len() + 1,
{
    if i < 0 || i >= nodes.len() {
        None
    } else if defers_to_child(fam, nodes[i].kind) {
        classify_children(nodes, src, fam, i, i + 1)
    } else {
        classify_direct(nodes, src, fam, i)
    }
}

pub open spec fn classify_children(
    nodes: Seq<NodeModel>,
    src: Seq<u8>,
    fam: u8,
    i: int,
    j: int,
) -> Option<(Seq<char>, Option<Seq<char>>)>
    decreases nodes.len() - i, nodes.len() - j,
{
    if i < 0 || j <= i || j >= subtree_end(nodes, i) || j >= nodes.len() {
        None
    } else if is_child(nodes, i, j) && classify_at(nodes, src, fam, j) is Some {
        classify_at(nodes, src, fam, j)
    } else {
        classify_children(nodes, src, fam, i, j + 1)
    }
}

/// The trimmed text from the start of node `n` to byte `end`, if not empty.
pub open spec fn sig_before(src: Seq<u8>, n: NodeModel, end: int) -> Option<Seq<char>> {
    if end > n.start_byte {
        let s = trim_end(slice_chars(src, n.start_byte as int, end));
        if s.len() > 0 {
            Some(s)
        } else {
            None
        }
    } else {
        None
    }
}

pub open spec fn body_child(nodes: Seq<NodeModel>, i: int) -> int {
    if field_child(nodes, i, "body"@) >= 0 {
        field_child(nodes, i, "body"@)
    } else {
        field_child(nodes, i, "block"@)
    }
}

pub open spec fn is_body_like(k: Seq<char>) -> bool {
    has_infix(k, "body"@) || has_infix(k, "field_declaration_list"@) || has_infix(
        k,
        "variant_list"@,
    ) || k == "declaration_list"@ || k == "class_body"@ || k == "object_type"@ || k
        == "enum_body"@
}

pub open spec fn sig_from_children(nodes: Seq<NodeModel>, src: Seq<u8>, i: int, j: int) -> Option<
    Seq<char>,
>
    decreases nodes.len() - j,
{
    if i < 0 || j <= i || j >= subtree_end(nodes, i) || j >= nodes.len() {
        None
    } else if is_child(nodes, i, j) && is_body_like(nodes[j].kind) && sig_before(
        src,
        nodes[i],
        nodes[j].start_byte as int,
    ) is Some {
        sig_before(src, nodes[i], nodes[j].start_byte as int)
    } else {
        sig_from_children(nodes, src, i, j + 1)
    }
}

/// A node's signature: the text before its body, else before its first
/// body-like child, else its first line; trailing whitespace trimmed.
pub open spec fn signature_of(nodes: Seq<NodeModel>, src: Seq<u8>, i: int) -> Option<Seq<char>> {
    let b = body_child(nodes, i);
    if 0 <= b < nodes.len() && sig_before(src, nodes[i], nodes[b].start_byte as int) is Some {
        sig_before(src, nodes[i], nodes[b].start_byte as int)
    } else if sig_from_children(nodes, src, i, i + 1) is Some {
        sig_from_children(nodes, src, i, i + 1)
    } else {
        match first_line(text_of(src, nodes[i])) {
            Some(l) => Some(trim_end(l)),
            None => None,
        }
    }
}

pub open spec fn is_container(kind: Seq<char>) -> bool {
    has_prefix(kind, "impl"@) || has_prefix(kind, "class"@) || has_prefix(kind, "trait"@)
        || has_prefix(kind, "module"@) || has_prefix(kind, "interface"@)
}

pub open spec fn head_count(t: Seq<char>) -> int {
    if lines_of(t).len() < 3 {
        lines_of(t).len() as int
    } else {
        3
    }
}

/// A container's chunk: its first three lines, and a byte span of at most
/// 80 bytes per line kept.
pub open spec fn container_chunk(
    nodes: Seq<NodeModel>,
    src: Seq<u8>,
    i: int,
    kind: Seq<char>,
    name: Option<Seq<char>>,
) -> ChunkModel {
    let n = nodes[i];
    let t = text_of(src, n);
    let content = join_lines(lines_of(t).take(head_count(t)));
    let kept = lines_of(content).len();
    ChunkModel {
        kind,
        name,
        content,
        signature: signature_of(nodes, src, i),
        start_line: ((n.start_row as u32) as u64 + 1) as u32,
        end_line: ((n.start_row as u32) as u64 + (kept as u32) as u64) as u32,
        start_byte: n.start_byte as u32,
        end_byte: (if n.end_byte - n.start_byte <= kept * 80 {
            n.end_byte as int
        } else {
            n.start_byte + kept * 80
        }) as u32,
    }
}

pub open spec fn leaf_chunk(
    nodes: Seq<NodeModel>,
    src: Seq<u8>,
    i: int,
    kind: Seq<char>,
    name: Option<Seq<char>>,
) -> ChunkModel {
    let n = nodes[i];
    ChunkModel {
        kind,
        name,
        content: text_of(src, n),
        signature: signature_of(nodes, src, i),
        start_line: ((n.start_row as u32) as u64 + 1) as u32,
        end_line: ((n.end_row as u32) as u64 + 1) as u32,
        start_byte: n.start_byte as u32,
        end_byte: n.end_byte as u32,
    }
}

/// The chunks of the pre-order walk from node `j` on.
pub open spec fn collect_from(nodes: Seq<NodeModel>, src: Seq<u8>, fam: u8, j: int) -> Seq<
    ChunkModel,
>
    decreases nodes.len() - j,
{
    if j < 0 || j >= nodes.len() {
        Seq::empty()
    } else {
        match classify_at(nodes, src, fam, j) {
            Some((kind, name)) => {
                if is_container(kind) {
                    seq![container_chunk(nodes, src, j, kind, name)] + collect_from(
                        nodes,
                        src,
                        fam,
                        j + 1,
                    )
                } else {
                    let e = subtree_end(nodes, j);
                    if j < e <= nodes.len() {
                        seq![leaf_chunk(nodes, src, j, kind, name)] + collect_from(
                            nodes,
                            src,
                            fam,
                            e,
                        )
                    } else {
                        Seq::empty()
                    }
                }
            },
            None => collect_from(nodes, src, fam, j + 1),
        }
    }
}

/// The single chunk that covers a whole file.
pub open spec fn raw_model(content: Seq<char>) -> ChunkModel {
    let n = lines_of(content).len() as u32;
    ChunkModel {
        kind: "raw"@,
        name: None,
        content,
        signature: None,
        start_line: 1,
        end_line: if n < 1 { 1 } else { n },
        start_byte: 0,
        end_byte: encode_utf8_len(content) as u32,
    }
}

pub open spec fn encode_utf8_len(content: Seq<char>) -> nat {
    vstd::utf8::encode_utf8(content).len()
}


pub open spec fn class_view(r: Option<(String, Option<String>)>) -> Option<(Seq<char>, Option<Seq<char>>)> {
    match r {
        Some((k, n)) => Some((k@, opt_view(n))),
        None => None,
    }
}

pub open spec fn chars_view(r: Option<Vec<char>>) -> Option<Seq<char>> {
    match r {
        Some(v) => Some(v@),
        None => None,
    }
}

proof fn lemma_scan_end(nodes: Seq<NodeModel>, d: int, j: int)
    requires
        0 <= j <= nodes.len(),
    ensures
        j <= scan_end(nodes, d, j) <= nodes.len(),
    decreases nodes.len() - j,
{
    if j < nodes.len() && nodes[j].depth > d {
        lemma_scan_end(nodes, d, j + 1);
    }
}

fn kind_is(n: &SyntaxNode, k: &str) -> (r: bool)
    ensures
        r == (n.kind@ == k@),
{
    str_eq(n.kind.as_str(), k)
}

fn subtree_end_exec(nodes: &Vec<SyntaxNode>, i: usize) -> (e: usize)
    requires
        i < nodes.len(),
    ensures
        e == subtree_end(node_models(nodes@), i as int),
        i < e <= nodes.len(),
{
    let d = nodes[i].depth;
    let mut j = i + 1;
    proof { lemma_scan_end(node_models(nodes@), d as int, j as int); }
    while j < nodes.len() && nodes[j].depth > d
        invariant
            i < j <= nodes.len(),
            d == node_models(nodes@)[i as int].depth,
            scan_end(node_models(nodes@), d as int, j as int) == scan_end(node_models(nodes@), d as int, i + 1),
        decreases nodes.len() - j,
    {
        j = j + 1;
    }
    j
}

fn is_child_exec(nodes: &Vec<SyntaxNode>, i: usize, e: usize, j: usize) -> (r: bool)
    requires
        i < j < e,
        e == subtree_end(node_models(nodes@), i as int),
        e <= nodes.len(),
    ensures
        r == is_child(node_models(nodes@), i as int, j as int),
{
    nodes[j].depth > nodes[i].depth && nodes[j].depth - 1 == nodes[i].depth
}

fn field_child_exec(nodes: &Vec<SyntaxNode>, i: usize, f: &str) -> (r: Option<usize>)
    requires
        i < nodes.len(),
    ensures
        match r {
            Some(c) => c as int == field_child(node_models(nodes@), i as int, f@) && i < c < nodes.len(),
            None => field_child(node_models(nodes@), i as int, f@) == -1,
        },
{
    let e = subtree_end_exec(nodes, i);
    let mut j = i + 1;
    while j < e
        invariant
            i < j <= e <= nodes.len(),
            e == subtree_end(node_models(nodes@), i as int),
            field_child_from(node_models(nodes@), i as int, f@, j as int) == field_child(node_models(nodes@), i as int, f@),
        decreases e - j,
    {
        if is_child_exec(nodes, i, e, j) {
            let hit = match &nodes[j].field {
                Some(name) => str_eq(name.as_str(), f),
                None => false,
            };
            if hit {
                return Some(j);
            }
        }
        j = j + 1;
    }
    None
}

fn nth_child_exec(nodes: &Vec<SyntaxNode>, i: usize, k: usize) -> (r: Option<usize>)
    requires
        i < nodes.len(),
    ensures
        match r {
            Some(c) => c as int == nth_child_from(node_models(nodes@), i as int, k as int, i + 1) && i < c < nodes.len(),
            None => nth_child_from(node_models(nodes@), i as int, k as int, i + 1) == -1,
        },
{
    let e = subtree_end_exec(nodes, i);
    let mut j = i + 1;
    let mut left = k;
    while j < e
        invariant
            i < j <= e <= nodes.len(),
            e == subtree_end(node_models(nodes@), i as int),
            nth_child_from(node_models(nodes@), i as int, left as int, j as int) == nth_child_from(node_models(nodes@), i as int, k as int, i + 1),
        decreases e - j,
    {
        if is_child_exec(nodes, i, e, j) {
            if left == 0 {
                return Some(j);
            }
            left = left - 1;
        }
        j = j + 1;
    }
    None
}

fn text_exec(nodes: &Vec<SyntaxNode>, src: &str, c: usize) -> (r: Vec<char>)
    requires
        c < nodes.len(),
    ensures
        r@ == text_of(src.spec_bytes(), node_models(nodes@)[c as int]),
{
    slice_text(src, nodes[c].start_byte, nodes[c].end_byte)
}

fn field_text_exec(nodes: &Vec<SyntaxNode>, src: &str, i: usize, f: &str) -> (r: Option<String>)
    requires
        i < nodes.len(),
    ensures
        opt_view(r) == field_text(node_models(nodes@), src.spec_bytes(), i as int, f@),
{
    match field_child_exec(nodes, i, f) {
        Some(c) => Some(string_of(&text_exec(nodes, src, c))),
        None => None,
    }
}

fn named_exec(kind: &str, nodes: &Vec<SyntaxNode>, src: &str, i: usize) -> (r: Option<(String, Option<String>)>)
    requires
        i < nodes.len(),
    ensures
        class_view(r) == named(kind@, node_models(nodes@), src.spec_bytes(), i as int),
{
    Some((kind.to_owned(), field_text_exec(nodes, src, i, "name")))
}

fn import_exec(t: &Vec<char>) -> (r: Option<(String, Option<String>)>)
    ensures
        class_view(r) == Some(("import"@, Some(trim(t@)))),
{
    Some(("import".to_owned(), Some(string_of(&trim_vec(t)))))
}

fn classify_rust_exec(nodes: &Vec<SyntaxNode>, src: &str, i: usize) -> (r: Option<(String, Option<String>)>)
    requires
        i < nodes.len(),
    ensures
        class_view(r) == classify_rust(node_models(nodes@), src.spec_bytes(), i as int),
{
    let n = &nodes[i];
    if kind_is(n, "function_item") {
        named_exec("function", nodes, src, i)
    } else if kind_is(n, "struct_item") {
        named_exec("struct", nodes, src, i)
    } else if kind_is(n, "enum_item") {
        named_exec("enum", nodes, src, i)
    } else if kind_is(n, "impl_item") {
        Some(("impl".to_owned(), field_text_exec(nodes, src, i, "type")))
    } else if kind_is(n, "trait_item") {
        named_exec("trait", nodes, src, i)
    } else if kind_is(n, "mod_item") {
        named_exec("module", nodes, src, i)
    } else if kind_is(n, "type_item") {
        named_exec("type_alias", nodes, src, i)
    } else if kind_is(n, "const_item") || kind_is(n, "static_item") {
        named_exec("constant", nodes, src, i)
    } else if kind_is(n, "macro_definition") {
        named_exec("macro", nodes, src, i)
    } else if kind_is(n, "use_declaration") {
        let t = text_exec(nodes, src, i);
        import_exec(&trim_end_char_vec(&t, ';'))
    } else {
        None
    }
}

fn classify_python_exec(nodes: &Vec<SyntaxNode>, src: &str, i: usize) -> (r: Option<(String, Option<String>)>)
    requires
        i < nodes.len(),
    ensures
        class_view(r) == classify_python(node_models(nodes@), src.spec_bytes(), i as int),
{
    let n = &nodes[i];
    if kind_is(n, "function_definition") {
        named_exec("function", nodes, src, i)
    } else if kind_is(n, "class_definition") {
        named_exec("class", nodes, src, i)
    } else if kind_is(n, "import_statement") || kind_is(n, "import_from_statement") {
        import_exec(&text_exec(nodes, src, i))
    } else {
        None
    }
}

fn declarator_name_exec(nodes: &Vec<SyntaxNode>, src: &str, i: usize) -> (r: Option<String>)
    requires
        i < nodes.len(),
    ensures
        opt_view(r) == declarator_name(node_models(nodes@), src.spec_bytes(), i as int),
{
    match nth_child_exec(nodes, i, 1) {
        Some(d) => field_text_exec(nodes, src, d, "name"),
        None => None,
    }
}

fn classify_script_exec(nodes: &Vec<SyntaxNode>, src: &str, i: usize) -> (r: Option<(String, Option<String>)>)
    requires
        i < nodes.len(),
    ensures
        class_view(r) == classify_script(node_models(nodes@), src.spec_bytes(), i as int),
{
    let n = &nodes[i];
    if kind_is(n, "function_declaration") {
        named_exec("function", nodes, src, i)
    } else if kind_is(n, "class_declaration") {
        named_exec("class", nodes, src, i)
    } else if kind_is(n, "method_definition") {
        named_exec("method", nodes, src, i)
    } else if kind_is(n, "lexical_declaration") || kind_is(n, "variable_declaration") {
        let t = text_exec(nodes, src, i);
        if chars_contain(&t, &chars_of("require(")) {
            import_exec(&t)
        } else if chars_contain(&t, &chars_of("=>")) || chars_contain(&t, &chars_of("function")) {
            Some(("function".to_owned(), declarator_name_exec(nodes, src, i)))
        } else {
            None
        }
    } else if kind_is(n, "interface_declaration") {
        named_exec("interface", nodes, src, i)
    } else if kind_is(n, "type_alias_declaration") {
        named_exec("type_alias", nodes, src, i)
    } else if kind_is(n, "enum_declaration") {
        named_exec("enum", nodes, src, i)
    } else if kind_is(n, "import_statement") {
        import_exec(&text_exec(nodes, src, i))
    } else {
        None
    }
}

fn classify_go_exec(nodes: &Vec<SyntaxNode>, src: &str, i: usize) -> (r: Option<(String, Option<String>)>)
    requires
        i < nodes.len(),
    ensures
        class_view(r) == classify_go(node_models(nodes@), src.spec_bytes(), i as int),
{
    let n = &nodes[i];
    if kind_is(n, "function_declaration") {
        named_exec("function", nodes, src, i)
    } else if kind_is(n, "method_declaration") {
        named_exec("method", nodes, src, i)
    } else if kind_is(n, "type_declaration") {
        let name = match nth_child_exec(nodes, i, 1) {
            Some(c) => Some(string_of(&text_exec(nodes, src, c))),
            None => None,
        };
        Some(("type".to_owned(), name))
    } else if kind_is(n, "import_declaration") {
        import_exec(&text_exec(nodes, src, i))
    } else {
        None
    }
}

fn classify_c_exec(nodes: &Vec<SyntaxNode>, src: &str, i: usize) -> (r: Option<(String, Option<String>)>)
    requires
        i < nodes.len(),
    ensures
        class_view(r) == classify_c(node_models(nodes@), src.spec_bytes(), i as int),
{
    let n = &nodes[i];
    if kind_is(n, "function_definition") {
        let name = match field_child_exec(nodes, i, "declarator") {
            Some(d) => field_text_exec(nodes, src, d, "declarator"),
            None => None,
        };
        Some(("function".to_owned(), name))
    } else if kind_is(n, "struct_specifier") {
        named_exec("struct", nodes, src, i)
    } else if kind_is(n, "enum_specifier") {
        named_exec("enum", nodes, src, i)
    } else if kind_is(n, "type_definition") {
        Some(("type_alias".to_owned(), None))
    } else if kind_is(n, "preproc_include") {
        import_exec(&text_exec(nodes, src, i))
    } else {
        None
    }
}

fn classify_at_exec(nodes: &Vec<SyntaxNode>, src: &str, fam: u8, i: usize) -> (r: Option<(String, Option<String>)>)
    requires
        i < nodes.len(),
    ensures
        class_view(r) == classify_at(node_models(nodes@), src.spec_bytes(), fam, i as int),
    decreases nodes.len() - i, nodes.len() + 1,
{
    let n = &nodes[i];
    if (fam == PYTHON && kind_is(n, "decorated_definition")) || (fam == SCRIPT && kind_is(n, "export_statement")) {
        classify_children_exec(nodes, src, fam, i)
    } else if fam == RUST {
        classify_rust_exec(nodes, src, i)
    } else if fam == PYTHON {
        classify_python_exec(nodes, src, i)
    } else if fam == SCRIPT {
        classify_script_exec(nodes, src, i)
    } else if fam == GO {
        classify_go_exec(nodes, src, i)
    } else if fam == C {
        classify_c_exec(nodes, src, i)
    } else {
        None
    }
}

fn classify_children_exec(nodes: &Vec<SyntaxNode>, src: &str, fam: u8, i: usize) -> (r: Option<(String, Option<String>)>)
    requires
        i < nodes.len(),
    ensures
        class_view(r) == classify_children(node_models(nodes@), src.spec_bytes(), fam, i as int, i + 1),
    decreases nodes.len() - i, 0int,
{
    let e = subtree_end_exec(nodes, i);
    let mut j = i + 1;
    while j < e
        invariant
            i < j <= e <= nodes.len(),
            e == subtree_end(node_models(nodes@), i as int),
            classify_children(node_models(nodes@), src.spec_bytes(), fam, i as int, j as int)
                == classify_children(node_models(nodes@), src.spec_bytes(), fam, i as int, i + 1),
        decreases e - j,
    {
        if is_child_exec(nodes, i, e, j) {
            let c = classify_at_exec(nodes, src, fam, j);
            if c.is_some() {
                return c;
            }
        }
        j = j + 1;
    }
    None
}

fn sig_before_exec(src: &str, n: &SyntaxNode, end: usize) -> (r: Option<Vec<char>>)
    ensures
        chars_view(r) == sig_before(src.spec_bytes(), node_model(*n), end as int),
{
    if end > n.start_byte {
        let s = trim_end_vec(&slice_text(src, n.start_byte, end));
        if s.len() > 0 {
            Some(s)
        } else {
            None
        }
    } else {
        None
    }
}

fn is_body_like_exec(k: &str) -> (r: bool)
    ensures
        r == is_body_like(k@),
{
    contains(k, "body") || contains(k, "field_declaration_list") || contains(k, "variant_list")
        || str_eq(k, "declaration_list") || str_eq(k, "class_body") || str_eq(k, "object_type")
        || str_eq(k, "enum_body")
}

fn sig_from_children_exec(nodes: &Vec<SyntaxNode>, src: &str, i: usize) -> (r: Option<Vec<char>>)
    requires
        i < nodes.len(),
    ensures
        chars_view(r) == sig_from_children(node_models(nodes@), src.spec_bytes(), i as int, i + 1),
{
    let e = subtree_end_exec(nodes, i);
    let mut j = i + 1;
    while j < e
        invariant
            i < j <= e <= nodes.len(),
            e == subtree_end(node_models(nodes@), i as int),
            sig_from_children(node_models(nodes@), src.spec_bytes(), i as int, j as int)
                == sig_from_children(node_models(nodes@), src.spec_bytes(), i as int, i + 1),
        decreases e - j,
    {
        if is_child_exec(nodes, i, e, j) && is_body_like_exec(nodes[j].kind.as_str()) {
            let s = sig_before_exec(src, &nodes[i], nodes[j].start_byte);
            if s.is_some() {
                return s;
            }
        }
        j = j + 1;
    }
    None
}

fn first_line_exec(t: &Vec<char>) -> (r: Option<Vec<char>>)
    ensures
        chars_view(r) == first_line(t@),
{
    let (l, c) = head_lines(t, 1);
    if c == 0 {
        None
    } else {
        proof {
            let ls = lines_of(t@);
            assert(ls.take(1).len() == 1);
            assert(join_lines(ls.take(1)) == ls.take(1)[0]);
        }
        Some(l)
    }
}

fn signature_exec(nodes: &Vec<SyntaxNode>, src: &str, i: usize) -> (r: Option<String>)
    requires
        i < nodes.len(),
    ensures
        opt_view(r) == signature_of(node_models(nodes@), src.spec_bytes(), i as int),
{
    let b = match field_child_exec(nodes, i, "body") {
        Some(c) => Some(c),
        None => field_child_exec(nodes, i, "block"),
    };
    if let Some(c) = b {
        if let Some(s) = sig_before_exec(src, &nodes[i], nodes[c].start_byte) {
            return Some(string_of(&s));
        }
    }
    if let Some(s) = sig_from_children_exec(nodes, src, i) {
        return Some(string_of(&s));
    }
    match first_line_exec(&text_exec(nodes, src, i)) {
        Some(l) => Some(string_of(&trim_end_vec(&l))),
        None => None,
    }
}

fn is_container_exec(kind: &str) -> (r: bool)
    ensures
        r == is_container(kind@),
{
    starts_with(kind, "impl") || starts_with(kind, "class") || starts_with(kind, "trait")
        || starts_with(kind, "module") || starts_with(kind, "interface")
}

proof fn lemma_lines_len(t: Seq<char>)
    ensures
        lines_of(t).len() <= t.len(),
    decreases t.len(),
{
    if t.len() > 0 {
        let e = line_end(t, 0);
        lemma_line_end_bounds(t, 0);
        if 0 <= e < t.len() {
            lemma_lines_len(t.skip(e + 1));
        }
    }
}

/// How many lines `t` has.
pub fn count_lines(t: &Vec<char>) -> (r: usize)
    ensures
        r == lines_of(t@).len(),
{
    let n = t.len();
    proof { lemma_lines_len(t@); }
    assert(lines_of(t@).len() <= n);
    let (_, c) = head_lines(t, usize::MAX);
    c
}

fn container_chunk_exec(
    nodes: &Vec<SyntaxNode>,
    src: &str,
    i: usize,
    kind: String,
    name: Option<String>,
) -> (r: ChunkInsert)
    requires
        i < nodes.len(),
    ensures
        r@ == container_chunk(node_models(nodes@), src.spec_bytes(), i as int, kind@, opt_view(name)),
{
    let n = &nodes[i];
    let t = text_exec(nodes, src, i);
    let (head, _) = head_lines(&t, 3);
    let kept = count_lines(&head);
    let signature = signature_exec(nodes, src, i);
    let wide: u128 = (kept as u128) * 80;
    let end_byte: usize = if n.end_byte <= n.start_byte || ((n.end_byte - n.start_byte) as u128) <= wide {
        n.end_byte
    } else {
        n.start_byte + kept * 80
    };
    ChunkInsert {
        kind,
        name,
        content: string_of(&head),
        signature,
        start_line: ((n.start_row as u32) as u64 + 1) as u32,
        end_line: ((n.start_row as u32) as u64 + (kept as u32) as u64) as u32,
        start_byte: n.start_byte as u32,
        end_byte: end_byte as u32,
    }
}

fn leaf_chunk_exec(
    nodes: &Vec<SyntaxNode>,
    src: &str,
    i: usize,
    kind: String,
    name: Option<String>,
) -> (r: ChunkInsert)
    requires
        i < nodes.len(),
    ensures
        r@ == leaf_chunk(node_models(nodes@), src.spec_bytes(), i as int, kind@, opt_view(name)),
{
    let n = &nodes[i];
    let content = string_of(&text_exec(nodes, src, i));
    let signature = signature_exec(nodes, src, i);
    ChunkInsert {
        kind,
        name,
        content,
        signature,
        start_line: ((n.start_row as u32) as u64 + 1) as u32,
        end_line: ((n.end_row as u32) as u64 + 1) as u32,
        start_byte: n.start_byte as u32,
        end_byte: n.end_byte as u32,
    }
}

/// The chunks of a file whose syntax tree is `nodes` (in pre-order), for
/// the language tagged `language`.
pub fn chunk_nodes(nodes: &Vec<SyntaxNode>, content: &str, language: &str) -> (r: Vec<ChunkInsert>)
    ensures
        models(r@) == collect_from(node_models(nodes@), content.spec_bytes(), family_of(language@), 0),
{
    let fam = family_exec(language);
    let ghost src = content.spec_bytes();
    let mut out: Vec<ChunkInsert> = Vec::new();
    let mut j: usize = 0;
    while j < nodes.len()
        invariant
            j <= nodes.len(),
            fam == family_of(language@),
            src == content.spec_bytes(),
            models(out@) + collect_from(node_models(nodes@), src, fam, j as int) == collect_from(node_models(nodes@), src, fam, 0),
        decreases nodes.len() - j,
    {
        let ghost before = out@;
        let class = classify_at_exec(nodes, content, fam, j);
        match class {
            Some((kind, name)) => {
                let ghost kv = kind@;
                let ghost nv = opt_view(name);
                assert(classify_at(node_models(nodes@), src, fam, j as int) == Some((kv, nv)));
                if is_container_exec(kind.as_str()) {
                    let c = container_chunk_exec(nodes, content, j, kind, name);
                    assert(collect_from(node_models(nodes@), src, fam, j as int) == seq![c@] + collect_from(node_models(nodes@), src, fam, j + 1));
                    out.push(c);
                    proof {
                        assert(models(out@) =~= models(before).push(c@));
                        assert(models(out@) + collect_from(node_models(nodes@), src, fam, j + 1) =~= models(before) + collect_from(node_models(nodes@), src, fam, j as int));
                    }
                    j = j + 1;
                } else {
                    let e = subtree_end_exec(nodes, j);
                    let c = leaf_chunk_exec(nodes, content, j, kind, name);
                    assert(collect_from(node_models(nodes@), src, fam, j as int) == seq![c@] + collect_from(node_models(nodes@), src, fam, e as int));
                    out.push(c);
                    proof {
                        assert(models(out@) =~= models(before).push(c@));
                        assert(models(out@) + collect_from(node_models(nodes@), src, fam, e as int) =~= models(before) + collect_from(node_models(nodes@), src, fam, j as int));
                    }
                    j = e;
                }
            },
            None => {
                j = j + 1;
            },
        }
    }
    out
}

fn family_exec(language: &str) -> (r: u8)
    ensures
        r == family_of(language@),
{
    if str_eq(language, "rust") {
        RUST
    } else if str_eq(language, "python") {
        PYTHON
    } else if str_eq(language, "javascript") || str_eq(language, "jsx") || str_eq(language, "typescript")
        || str_eq(language, "tsx") {
        SCRIPT
    } else if str_eq(language, "go") {
        GO
    } else if str_eq(language, "c") {
        C
    } else {
        0
    }
}

/// The grammar of a language tag, for the tags that have one.
pub open spec fn grammar_of(lang: Seq<char>) -> Option<Grammar> {
    if lang == "rust"@ {
        Some(Grammar::Rust)
    } else if lang == "python"@ {
        Some(Grammar::Python)
    } else if lang == "javascript"@ || lang == "jsx"@ {
        Some(Grammar::JavaScript)
    } else if lang == "typescript"@ {
        Some(Grammar::TypeScript)
    } else if lang == "tsx"@ {
        Some(Grammar::Tsx)
    } else if lang == "go"@ {
        Some(Grammar::Go)
    } else if lang == "c"@ {
        Some(Grammar::C)
    } else {
        None
    }
}

fn grammar_for(language: &str) -> (r: Option<GrammarHandle>)
    ensures
        match r {
            Some(h) => grammar_of(language@) == Some(h.grammar()),
            None => grammar_of(language@) is None,
        },
{
    if str_eq(language, "rust") {
        Some(rust_grammar())
    } else if str_eq(language, "python") {
        Some(python_grammar())
    } else if str_eq(language, "javascript") || str_eq(language, "jsx") {
        Some(javascript_grammar())
    } else if str_eq(language, "typescript") {
        Some(typescript_grammar())
    } else if str_eq(language, "tsx") {
        Some(tsx_grammar())
    } else if str_eq(language, "go") {
        Some(go_grammar())
    } else if str_eq(language, "c") {
        Some(c_grammar())
    } else {
        None
    }
}

/// The chunks of a file: none for empty content; for a language with a
/// grammar whose parse succeeds and walks to at least one chunk, those
/// chunks; otherwise one `raw` chunk for the whole file.
pub open spec fn file_chunks(content: Seq<char>, language: Option<Seq<char>>) -> Seq<ChunkModel> {
    let bytes = vstd::utf8::encode_utf8(content);
    if content.len() == 0 {
        Seq::empty()
    } else {
        match language {
            Some(l) => match grammar_of(l) {
                Some(g) => if parses(content, g) && collect_from(parsed_nodes(content, g), bytes, family_of(l), 0).len() > 0 {
                    collect_from(parsed_nodes(content, g), bytes, family_of(l), 0)
                } else {
                    seq![raw_model(content)]
                },
                None => seq![raw_model(content)],
            },
            None => seq![raw_model(content)],
        }
    }
}

/// The single `raw` chunk that covers all of `content`.
pub fn raw_chunk(content: &str) -> (r: Vec<ChunkInsert>)
    ensures
        models(r@) == seq![raw_model(content@)],
{
    let n = count_lines(&chars_of(content)) as u32;
    let len = content.as_bytes().len();
    let c = ChunkInsert {
        kind: "raw".to_owned(),
        name: None,
        content: content.to_owned(),
        signature: None,
        start_line: 1,
        end_line: if n < 1 { 1 } else { n },
        start_byte: 0,
        end_byte: len as u32,
    };
    let mut v: Vec<ChunkInsert> = Vec::new();
    v.push(c);
    assert(models(v@) =~= seq![c@]);
    v
}

/// Chunk a file. Empty content gives no chunk. Content in a language with a
/// grammar is parsed and walked (see `chunk_nodes`); when that yields no
/// chunk, or the language has no grammar, the whole file is one `raw` chunk.
pub fn chunk_file(content: &str, language: Option<&str>) -> (r: Vec<ChunkInsert>)
    ensures
        models(r@) == file_chunks(content@, crate::context::opt_text(language)),
{
    if content.is_empty() {
        let v: Vec<ChunkInsert> = Vec::new();
        assert(models(v@) =~= Seq::<ChunkModel>::empty());
        return v;
    }
    if let Some(lang) = language {
        if let Some(grammar) = grammar_for(lang) {
            if let Some(parsed) = parse_source(content, &grammar) {
                let nodes = flatten(&parsed);
                let chunks = chunk_nodes(&nodes, content, lang);
                if chunks.len() > 0 {
                    return chunks;
                }
            }
        }
    }
    raw_chunk(content)
}

/// Chunking a file depends on its content and language alone: the same
/// content and tag give the same chunks, through the same named parse.
pub proof fn lemma_chunk_file_deterministic(c1: Seq<char>, c2: Seq<char>, l1: Option<Seq<char>>, l2: Option<Seq<char>>)
    requires
        c1 == c2,
        l1 == l2,
    ensures
        file_chunks(c1, l1) == file_chunks(c2, l2),
{
}

/// Every container chunk of a file holds at most three lines of its head.
pub proof fn lemma_file_container_head(content: Seq<char>, language: Option<Seq<char>>)
    ensures
        forall|c: int| 0 <= c < file_chunks(content, language).len() && is_container(
            (#[trigger] file_chunks(content, language)[c]).kind,
        ) ==> lines_of(file_chunks(content, language)[c].content).len() <= 3,
{
    if content.len() > 0 {
        if let Some(l) = language {
            if let Some(g) = grammar_of(l) {
                lemma_collect_heads(parsed_nodes(content, g), vstd::utf8::encode_utf8(content), family_of(l), 0);
            }
        }
        let r = raw_model(content);
        assert(!is_container(r.kind)) by {
            reveal_strlit("raw");
            reveal_strlit("impl");
            reveal_strlit("class");
            reveal_strlit("trait");
            reveal_strlit("module");
            reveal_strlit("interface");
            assert(r.kind[0] == 'r');
            assert("impl"@[0] == 'i');
            assert("class"@[0] == 'c');
            assert("trait"@[0] == 't');
            assert("module"@[0] == 'm');
            assert("interface"@[0] == 'i');
            if has_prefix(r.kind, "impl"@) { assert(r.kind.subrange(0, 4)[0] == r.kind[0]); }
            if has_prefix(r.kind, "class"@) { assert(r.kind.subrange(0, 5)[0] == r.kind[0]); }
            if has_prefix(r.kind, "trait"@) { assert(r.kind.subrange(0, 5)[0] == r.kind[0]); }
            if has_prefix(r.kind, "module"@) { assert(r.kind.subrange(0, 6)[0] == r.kind[0]); }
            if has_prefix(r.kind, "interface"@) { assert(r.kind.subrange(0, 9)[0] == r.kind[0]); }
        }
    }
}

/// The closed set of chunk kinds.
pub open spec fn known_kind(k: Seq<char>) -> bool {
    k == "function"@ || k == "struct"@ || k == "enum"@ || k == "impl"@ || k == "trait"@ || k
        == "module"@ || k == "class"@ || k == "method"@ || k == "interface"@ || k == "type_alias"@
        || k == "constant"@ || k == "macro"@ || k == "import"@ || k == "type"@ || k == "raw"@
}

proof fn lemma_classify_known(nodes: Seq<NodeModel>, src: Seq<u8>, fam: u8, i: int)
    ensures
        classify_at(nodes, src, fam, i) matches Some((k, _)) ==> known_kind(k),
    decreases nodes.len() - i, nodes.len() + 1,
{
    if 0 <= i < nodes.len() && defers_to_child(fam, nodes[i].kind) {
        lemma_classify_children_known(nodes, src, fam, i, i + 1);
    }
}

proof fn lemma_classify_children_known(nodes: Seq<NodeModel>, src: Seq<u8>, fam: u8, i: int, j: int)
    ensures
        classify_children(nodes, src, fam, i, j) matches Some((k, _)) ==> known_kind(k),
    decreases nodes.len() - i, nodes.len() - j,
{
    if !(i < 0 || j <= i || j >= subtree_end(nodes, i) || j >= nodes.len()) {
        if is_child(nodes, i, j) && classify_at(nodes, src, fam, j) is Some {
            lemma_classify_known(nodes, src, fam, j);
        } else {
            lemma_classify_children_known(nodes, src, fam, i, j + 1);
        }
    }
}

proof fn lemma_collect_known(nodes: Seq<NodeModel>, src: Seq<u8>, fam: u8, j: int)
    ensures
        forall|c: int| 0 <= c < collect_from(nodes, src, fam, j).len() ==> known_kind(
            #[trigger] collect_from(nodes, src, fam, j)[c].kind,
        ),
    decreases nodes.len() - j,
{
    if 0 <= j < nodes.len() {
        lemma_classify_known(nodes, src, fam, j);
        match classify_at(nodes, src, fam, j) {
            Some((kind, name)) => {
                if is_container(kind) {
                    lemma_collect_known(nodes, src, fam, j + 1);
                    let rest = collect_from(nodes, src, fam, j + 1);
                    assert forall|c: int| 0 <= c < collect_from(nodes, src, fam, j).len() implies known_kind(
                        #[trigger] collect_from(nodes, src, fam, j)[c].kind,
                    ) by {
                        if c > 0 {
                            assert(collect_from(nodes, src, fam, j)[c] == rest[c - 1]);
                        }
                    }
                } else {
                    let e = subtree_end(nodes, j);
                    if j < e <= nodes.len() {
                        lemma_collect_known(nodes, src, fam, e);
                        let rest = collect_from(nodes, src, fam, e);
                        assert forall|c: int| 0 <= c < collect_from(nodes, src, fam, j).len() implies known_kind(
                            #[trigger] collect_from(nodes, src, fam, j)[c].kind,
                        ) by {
                            if c > 0 {
                                assert(collect_from(nodes, src, fam, j)[c] == rest[c - 1]);
                            }
                        }
                    }
                }
            },
            None => {
                lemma_collect_known(nodes, src, fam, j + 1);
            },
        }
    }
}

/// Every chunk's kind is one of the closed set, `raw` included.
pub proof fn lemma_chunk_kinds_closed(nodes: Seq<NodeModel>, src: Seq<u8>, lang: Seq<char>, content: Seq<char>)
    ensures
        forall|c: int| 0 <= c < collect_from(nodes, src, family_of(lang), 0).len() ==> known_kind(
            #[trigger] collect_from(nodes, src, family_of(lang), 0)[c].kind,
        ),
        known_kind(raw_model(content).kind),
{
    lemma_collect_known(nodes, src, family_of(lang), 0);
}

/// A container's chunk holds at most three lines of its head.
pub proof fn lemma_container_head(nodes: Seq<NodeModel>, src: Seq<u8>, lang: Seq<char>)
    ensures
        forall|c: int| 0 <= c < collect_from(nodes, src, family_of(lang), 0).len() && is_container(
            (#[trigger] collect_from(nodes, src, family_of(lang), 0)[c]).kind,
        ) ==> lines_of(collect_from(nodes, src, family_of(lang), 0)[c].content).len() <= 3,
{
    lemma_collect_heads(nodes, src, family_of(lang), 0);
}

proof fn lemma_head_lines_bound(t: Seq<char>)
    ensures
        lines_of(join_lines(lines_of(t).take(head_count(t)))).len() <= 3,
{
    let ls = lines_of(t).take(head_count(t));
    lemma_lines_bound(t);
    assert forall|i: int| 0 <= i < ls.len() implies newlines(#[trigger] ls[i]) == 0 by {
        assert(ls[i] == lines_of(t)[i]);
    }
    lemma_join_newlines(ls);
    lemma_lines_bound(join_lines(ls));
}

proof fn lemma_collect_heads(nodes: Seq<NodeModel>, src: Seq<u8>, fam: u8, j: int)
    ensures
        forall|c: int| 0 <= c < collect_from(nodes, src, fam, j).len() && is_container(
            (#[trigger] collect_from(nodes, src, fam, j)[c]).kind,
        ) ==> lines_of(collect_from(nodes, src, fam, j)[c].content).len() <= 3,
    decreases nodes.len() - j,
{
    if 0 <= j < nodes.len() {
        match classify_at(nodes, src, fam, j) {
            Some((kind, name)) => {
                let all = collect_from(nodes, src, fam, j);
                if is_container(kind) {
                    lemma_collect_heads(nodes, src, fam, j + 1);
                    lemma_head_lines_bound(text_of(src, nodes[j]));
                    let rest = collect_from(nodes, src, fam, j + 1);
                    assert forall|c: int| 0 <= c < all.len() && is_container((#[trigger] all[c]).kind)
                        implies lines_of(all[c].content).len() <= 3 by {
                        if c > 0 {
                            assert(all[c] == rest[c - 1]);
                        }
                    }
                } else {
                    let e = subtree_end(nodes, j);
                    if j < e <= nodes.len() {
                        lemma_collect_heads(nodes, src, fam, e);
                        let rest = collect_from(nodes, src, fam, e);
                        assert forall|c: int| 0 <= c < all.len() && is_container((#[trigger] all[c]).kind)
                            implies lines_of(all[c].content).len() <= 3 by {
                            if c > 0 {
                                assert(all[c] == rest[c - 1]);
                            }
                        }
                    }
                }
            },
            None => {
                lemma_collect_heads(nodes, src, fam, j + 1);
            },
        }
    }
}

} // verus!
