//! Syntax trees from the tree-sitter grammars, flattened into a pre-order
//! list of plain node records, and the text helpers that read them.

use vstd::prelude::*;
use vstd::utf8::*;
use vstd::string::StringSliceAdditionalSpecFns;
use crate::text::{chars_of, is_ws};

verus! {

broadcast use vstd::utf8::group_utf8_lib;

#[verifier::external_type_specification]
#[verifier::external_body]
pub struct ExLanguage(tree_sitter::Language);

#[verifier::external_type_specification]
#[verifier::external_body]
pub struct ExTree(tree_sitter::Tree);

/// One node of a syntax tree. Nodes are listed in pre-order; `depth` is the
/// distance from the root, and `field` the name under which the parent
/// holds the node, if any. Byte offsets and rows are those of the source.
pub struct SyntaxNode {
    pub kind: String,
    pub field: Option<String>,
    pub depth: usize,
    pub start_byte: usize,
    pub end_byte: usize,
    pub start_row: usize,
    pub end_row: usize,
}

/// A node record over plain values.
pub struct NodeModel {
    pub kind: Seq<char>,
    pub field: Option<Seq<char>>,
    pub depth: usize,
    pub start_byte: usize,
    pub end_byte: usize,
    pub start_row: usize,
    pub end_row: usize,
}

pub open spec fn node_model(n: SyntaxNode) -> NodeModel {
    NodeModel {
        kind: n.kind@,
        field: match n.field {
            Some(f) => Some(f@),
            None => None,
        },
        depth: n.depth,
        start_byte: n.start_byte,
        end_byte: n.end_byte,
        start_row: n.start_row,
        end_row: n.end_row,
    }
}

pub open spec fn node_models(v: Seq<SyntaxNode>) -> Seq<NodeModel> {
    v.map_values(|n: SyntaxNode| node_model(n))
}

/// The grammars a source can be parsed with.
#[derive(Clone, Copy, Debug, PartialEq, Eq, Structural)]
pub enum Grammar {
    Rust,
    Python,
    JavaScript,
    TypeScript,
    Tsx,
    Go,
    C,
}

/// A tree-sitter language together with the grammar it is.
pub struct GrammarHandle {
    language: tree_sitter::Language,
    grammar: Grammar,
}

impl GrammarHandle {
    pub closed spec fn grammar(&self) -> Grammar {
        self.grammar
    }
}

/// A source text with its syntax tree and the grammar that built it.
pub struct ParsedSource {
    tree: tree_sitter::Tree,
    source: String,
    grammar: Grammar,
}

impl ParsedSource {
    pub closed spec fn source(&self) -> Seq<char> {
        self.source@
    }

    pub closed spec fn grammar(&self) -> Grammar {
        self.grammar
    }
}

/// Whether a fresh parser for `grammar` yields a tree for `source`.
pub uninterp spec fn parses(source: Seq<char>, grammar: Grammar) -> bool;

/// How many nodes the tree of `source` under `grammar` has, the root included.
pub uninterp spec fn parsed_count(source: Seq<char>, grammar: Grammar) -> nat;

/// The node with pre-order index `k` in the tree of `source` under `grammar`.
pub uninterp spec fn parsed_node(source: Seq<char>, grammar: Grammar, k: int) -> NodeModel;

/// The tree of `source` under `grammar`, in pre-order.
pub open spec fn parsed_nodes(source: Seq<char>, grammar: Grammar) -> Seq<NodeModel> {
    Seq::new(parsed_count(source, grammar), |k: int| parsed_node(source, grammar, k))
}

/// Relies on `tree_sitter_rust::LANGUAGE`: the Rust grammar.
#[verifier::external_body]
pub(crate) fn rust_grammar() -> (r: GrammarHandle)
    ensures
        r.grammar() == Grammar::Rust,
{
    GrammarHandle { language: tree_sitter_rust::LANGUAGE.into(), grammar: Grammar::Rust }
}

/// Relies on `tree_sitter_python::LANGUAGE`: the Python grammar.
#[verifier::external_body]
pub(crate) fn python_grammar() -> (r: GrammarHandle)
    ensures
        r.grammar() == Grammar::Python,
{
    GrammarHandle { language: tree_sitter_python::LANGUAGE.into(), grammar: Grammar::Python }
}

/// Relies on `tree_sitter_javascript::LANGUAGE`: the JavaScript grammar.
#[verifier::external_body]
pub(crate) fn javascript_grammar() -> (r: GrammarHandle)
    ensures
        r.grammar() == Grammar::JavaScript,
{
    GrammarHandle { language: tree_sitter_javascript::LANGUAGE.into(), grammar: Grammar::JavaScript }
}

/// Relies on `tree_sitter_typescript::LANGUAGE_TYPESCRIPT`: the TypeScript grammar.
#[verifier::external_body]
pub(crate) fn typescript_grammar() -> (r: GrammarHandle)
    ensures
        r.grammar() == Grammar::TypeScript,
{
    GrammarHandle { language: tree_sitter_typescript::LANGUAGE_TYPESCRIPT.into(), grammar: Grammar::TypeScript }
}

/// Relies on `tree_sitter_typescript::LANGUAGE_TSX`: the TSX grammar.
#[verifier::external_body]
pub(crate) fn tsx_grammar() -> (r: GrammarHandle)
    ensures
        r.grammar() == Grammar::Tsx,
{
    GrammarHandle { language: tree_sitter_typescript::LANGUAGE_TSX.into(), grammar: Grammar::Tsx }
}

/// Relies on `tree_sitter_go::LANGUAGE`: the Go grammar.
#[verifier::external_body]
pub(crate) fn go_grammar() -> (r: GrammarHandle)
    ensures
        r.grammar() == Grammar::Go,
{
    GrammarHandle { language: tree_sitter_go::LANGUAGE.into(), grammar: Grammar::Go }
}

/// Relies on `tree_sitter_c::LANGUAGE`: the C grammar.
#[verifier::external_body]
pub(crate) fn c_grammar() -> (r: GrammarHandle)
    ensures
        r.grammar() == Grammar::C,
{
    GrammarHandle { language: tree_sitter_c::LANGUAGE.into(), grammar: Grammar::C }
}

/// Relies on `tree_sitter::Parser::new`, `Parser::set_language` and
/// `Parser::parse`: a fresh parser for the grammar parses `source`, or
/// yields nothing when the grammar is refused or parsing is abandoned; with
/// no old tree, timeout or cancellation flag, that depends on the source
/// and the grammar alone.
#[verifier::external_body]
pub(crate) fn parse_source(source: &str, grammar: &GrammarHandle) -> (r: Option<ParsedSource>)
    ensures
        r is Some <==> parses(source@, grammar.grammar()),
        r matches Some(p) ==> p.source() == source@ && p.grammar() == grammar.grammar(),
{
    let mut parser = tree_sitter::Parser::new();
    parser.set_language(&grammar.language).ok()?;
    let tree = parser.parse(source, None)?;
    Some(ParsedSource { tree, source: source.to_string(), grammar: grammar.grammar })
}

/// Relies on `tree_sitter::Tree::root_node` and `Node::descendant_count`:
/// the number of nodes in the tree, the root included.
#[verifier::external_body]
pub(crate) fn node_count(parsed: &ParsedSource) -> (r: usize)
    ensures
        r as nat == parsed_count(parsed.source(), parsed.grammar()),
{
    parsed.tree.root_node().descendant_count()
}

/// Relies on `tree_sitter::Tree::walk` and `TreeCursor::goto_descendant`:
/// the record of the node with that pre-order index (the root is 0; an index
/// past the end leaves the cursor on the root), read through the cursor's
/// `node`, `depth` and `field_name` and the node's `kind`, `start_byte`,
/// `end_byte`, `start_position` and `end_position`.
#[verifier::external_body]
pub(crate) fn node_at(parsed: &ParsedSource, index: usize) -> (r: SyntaxNode)
    ensures
        node_model(r) == parsed_node(parsed.source(), parsed.grammar(), index as int),
{
    let mut cursor = parsed.tree.walk();
    cursor.goto_descendant(index);
    let node = cursor.node();
    SyntaxNode {
        kind: node.kind().to_string(),
        field: cursor.field_name().map(|f| f.to_string()),
        depth: cursor.depth() as usize,
        start_byte: node.start_byte(),
        end_byte: node.end_byte(),
        start_row: node.start_position().row,
        end_row: node.end_position().row,
    }
}

/// The pre-order node list of a parsed source.
pub(crate) fn flatten(parsed: &ParsedSource) -> (r: Vec<SyntaxNode>)
    ensures
        node_models(r@) == parsed_nodes(parsed.source(), parsed.grammar()),
{
    let n = node_count(parsed);
    let ghost want = parsed_nodes(parsed.source(), parsed.grammar());
    let mut nodes: Vec<SyntaxNode> = Vec::new();
    let mut k: usize = 0;
    while k < n
        invariant
            k <= n,
            n as nat == want.len(),
            want == parsed_nodes(parsed.source(), parsed.grammar()),
            node_models(nodes@) == want.take(k as int),
        decreases n - k,
    {
        let ghost before = node_models(nodes@);
        let x = node_at(parsed, k);
        nodes.push(x);
        assert(node_models(nodes@) =~= before.push(node_model(x)));
        assert(want.take(k + 1) =~= want.take(k as int).push(want[k as int]));
        k = k + 1;
    }
    assert(want.take(n as int) =~= want);
    nodes
}

/// The characters of bytes `a..b` of `src`, when both ends fall on
/// character boundaries; otherwise nothing.
pub open spec fn slice_chars(src: Seq<u8>, a: int, b: int) -> Seq<char> {
    if a <= b && b <= src.len() && is_char_boundary(src, b) && is_char_boundary(
        src.subrange(0, b),
        a,
    ) {
        decode_utf8(src.subrange(a, b))
    } else {
        Seq::empty()
    }
}

pub fn slice_text(src: &str, a: usize, b: usize) -> (r: Vec<char>)
    ensures
        r@ == slice_chars(src.spec_bytes(), a as int, b as int),
{
    let len = src.as_bytes().len();
    if a > b || b > len {
        return Vec::new();
    }
    if !src.is_char_boundary(b) {
        return Vec::new();
    }
    let (head, _) = src.split_at(b);
    assert(head.spec_bytes() =~= src.spec_bytes().subrange(0, b as int));
    if !head.is_char_boundary(a) {
        return Vec::new();
    }
    let (_, piece) = head.split_at(a);
    proof {
        assert(piece.spec_bytes() =~= src.spec_bytes().subrange(a as int, b as int));
        assert(decode_utf8(encode_utf8(piece@)) == piece@);
    }
    chars_of(piece)
}

/// The prefix of `t` up to its first `'\n'`, or all of `t`.
pub open spec fn line_end(t: Seq<char>, i: int) -> int
    decreases t.len() - i,
{
    if i < 0 || i >= t.len() {
        t.len() as int
    } else if t[i] == '\n' {
        i
    } else {
        line_end(t, i + 1)
    }
}

pub open spec fn strip_cr(l: Seq<char>) -> Seq<char> {
    if l.len() > 0 && l.last() == '\r' {
        l.drop_last()
    } else {
        l
    }
}

/// The lines of `t` as `str::lines` gives them: split at `'\n'`, a `'\r'`
/// before the `'\n'` removed, no empty line after a final `'\n'`.
pub open spec fn lines_of(t: Seq<char>) -> Seq<Seq<char>>
    decreases t.len(),
{
    if t.len() == 0 {
        Seq::empty()
    } else {
        let e = line_end(t, 0);
        if 0 <= e < t.len() {
            seq![strip_cr(t.take(e))] + lines_of(t.skip(e + 1))
        } else {
            seq![t]
        }
    }
}

/// Lines joined by `'\n'`.
pub open spec fn join_lines(ls: Seq<Seq<char>>) -> Seq<char>
    decreases ls.len(),
{
    if ls.len() == 0 {
        Seq::empty()
    } else if ls.len() == 1 {
        ls[0]
    } else {
        join_lines(ls.drop_last()) + seq!['\n'] + ls.last()
    }
}

pub open spec fn first_line(t: Seq<char>) -> Option<Seq<char>> {
    if lines_of(t).len() == 0 {
        None
    } else {
        Some(lines_of(t)[0])
    }
}

pub open spec fn trim_end(t: Seq<char>) -> Seq<char>
    decreases t.len(),
{
    if t.len() > 0 && is_ws(t.last()) {
        trim_end(t.drop_last())
    } else {
        t
    }
}

pub open spec fn trim_start(t: Seq<char>) -> Seq<char>
    decreases t.len(),
{
    if t.len() > 0 && is_ws(t[0]) {
        trim_start(t.skip(1))
    } else {
        t
    }
}

pub open spec fn trim(t: Seq<char>) -> Seq<char> {
    trim_start(trim_end(t))
}

pub proof fn lemma_line_end_bounds(t: Seq<char>, i: int)
    requires
        0 <= i <= t.len(),
    ensures
        i <= line_end(t, i) <= t.len(),
{
    lemma_line_end(t, i);
}

proof fn lemma_line_end(t: Seq<char>, i: int)
    requires
        0 <= i <= t.len(),
    ensures
        i <= line_end(t, i) <= t.len(),
        line_end(t, i) < t.len() ==> t[line_end(t, i)] == '\n',
    decreases t.len() - i,
{
    if i < t.len() && t[i] != '\n' {
        lemma_line_end(t, i + 1);
    }
}

fn line_end_exec(t: &Vec<char>, from: usize) -> (e: usize)
    requires
        from <= t.len(),
    ensures
        e == line_end(t@, from as int),
        from <= e <= t.len(),
{
    proof { lemma_line_end(t@, from as int); }
    let mut i = from;
    while i < t.len() && t[i] != '\n'
        invariant
            from <= i <= t.len(),
            line_end(t@, i as int) == line_end(t@, from as int),
        decreases t.len() - i,
    {
        i = i + 1;
    }
    i
}

fn push_range(out: &mut Vec<char>, src: &Vec<char>, from: usize, to: usize)
    requires
        from <= to <= src.len(),
    ensures
        final(out)@ == old(out)@ + src@.subrange(from as int, to as int),
{
    let mut i = from;
    while i < to
        invariant
            from <= i <= to <= src.len(),
            out@ == old(out)@ + src@.subrange(from as int, i as int),
        decreases to - i,
    {
        out.push(src[i]);
        assert(src@.subrange(from as int, i + 1) =~= src@.subrange(from as int, i as int).push(
            src@[i as int],
        ));
        i = i + 1;
    }
}

/// The first line end of `t.skip(p)` is that of `t` from `p`, shifted.
proof fn lemma_lines_step(t: Seq<char>, p: int)
    requires
        0 <= p < t.len(),
    ensures
        line_end(t.skip(p), 0) == line_end(t, p) - p,
{
    lemma_line_end_shift(t, p, p);
}

proof fn lemma_line_end_shift(t: Seq<char>, p: int, i: int)
    requires
        0 <= p <= i <= t.len(),
    ensures
        line_end(t.skip(p), i - p) == line_end(t, i) - p,
    decreases t.len() - i,
{
    if i < t.len() && t[i] != '\n' {
        lemma_line_end_shift(t, p, i + 1);
    }
}

pub open spec fn trim_end_char(t: Seq<char>, c: char) -> Seq<char>
    decreases t.len(),
{
    if t.len() > 0 && t.last() == c {
        trim_end_char(t.drop_last(), c)
    } else {
        t
    }
}

pub fn trim_end_vec(t: &Vec<char>) -> (r: Vec<char>)
    ensures
        r@ == trim_end(t@),
{
    let mut e = t.len();
    assert(t@.take(e as int) =~= t@);
    while e > 0 && crate::text::is_whitespace(t[e - 1])
        invariant
            e <= t.len(),
            trim_end(t@.take(e as int)) == trim_end(t@),
        decreases e,
    {
        assert(t@.take(e as int).drop_last() =~= t@.take(e - 1));
        e = e - 1;
    }
    let mut out: Vec<char> = Vec::new();
    push_range(&mut out, t, 0, e);
    assert(out@ =~= t@.take(e as int));
    out
}

pub fn trim_end_char_vec(t: &Vec<char>, c: char) -> (r: Vec<char>)
    ensures
        r@ == trim_end_char(t@, c),
{
    let mut e = t.len();
    assert(t@.take(e as int) =~= t@);
    while e > 0 && t[e - 1] == c
        invariant
            e <= t.len(),
            trim_end_char(t@.take(e as int), c) == trim_end_char(t@, c),
        decreases e,
    {
        assert(t@.take(e as int).drop_last() =~= t@.take(e - 1));
        e = e - 1;
    }
    let mut out: Vec<char> = Vec::new();
    push_range(&mut out, t, 0, e);
    assert(out@ =~= t@.take(e as int));
    out
}

pub fn trim_vec(t: &Vec<char>) -> (r: Vec<char>)
    ensures
        r@ == trim(t@),
{
    let u = trim_end_vec(t);
    let mut b: usize = 0;
    assert(u@.skip(0) =~= u@);
    while b < u.len() && crate::text::is_whitespace(u[b as usize])
        invariant
            b <= u.len(),
            trim_start(u@.skip(b as int)) == trim_start(u@),
        decreases u.len() - b,
    {
        assert(u@.skip(b as int).skip(1) =~= u@.skip(b + 1));
        b = b + 1;
    }
    let mut out: Vec<char> = Vec::new();
    push_range(&mut out, &u, b, u.len());
    assert(out@ =~= u@.skip(b as int));
    out
}

pub open spec fn line_views(v: Seq<Vec<char>>) -> Seq<Seq<char>> {
    v.map_values(|x: Vec<char>| x@)
}

/// All lines of `t`, as `str::lines` gives them.
pub fn lines_exec(t: &Vec<char>) -> (r: Vec<Vec<char>>)
    ensures
        line_views(r@) == lines_of(t@),
{
    let mut out: Vec<Vec<char>> = Vec::new();
    let mut p: usize = 0;
    let n = t.len();
    assert(t@.skip(0) =~= t@);
    while p < n
        invariant
            p <= n == t@.len(),
            line_views(out@) + lines_of(t@.skip(p as int)) == lines_of(t@),
        decreases n - p,
    {
        let e = line_end_exec(t, p);
        proof {
            lemma_lines_step(t@, p as int);
            lemma_line_end(t@, p as int);
        }
        let ghost rest = t@.skip(p as int);
        let ghost line = if e < n { strip_cr(t@.subrange(p as int, e as int)) } else { t@.subrange(p as int, e as int) };
        let ghost before = line_views(out@);
        proof {
            assert(rest.take(e - p) =~= t@.subrange(p as int, e as int));
            if e < n {
                assert(rest.skip(e - p + 1) =~= t@.skip(e + 1));
                assert(lines_of(rest) =~= seq![line] + lines_of(t@.skip(e + 1)));
            } else {
                assert(rest =~= t@.subrange(p as int, e as int));
                assert(lines_of(rest) =~= seq![line]);
            }
        }
        let stop = if e < n && e > p && t[e - 1] == '\r' { e - 1 } else { e };
        let mut piece: Vec<char> = Vec::new();
        push_range(&mut piece, t, p, stop);
        assert(piece@ =~= line);
        out.push(piece);
        assert(line_views(out@) =~= before.push(line));
        p = if e < n { e + 1 } else { n };
        proof {
            if e >= n {
                assert(t@.skip(p as int) =~= Seq::<char>::empty());
            }
        }
    }
    proof {
        assert(t@.skip(p as int) =~= Seq::<char>::empty());
        assert(line_views(out@) + lines_of(t@.skip(p as int)) =~= line_views(out@));
    }
    out
}

/// How many `'\n'` characters `t` holds.
pub open spec fn newlines(t: Seq<char>) -> nat
    decreases t.len(),
{
    if t.len() == 0 {
        0
    } else {
        newlines(t.drop_last()) + (if t.last() == '\n' { 1nat } else { 0nat })
    }
}

pub proof fn lemma_newlines_concat(a: Seq<char>, b: Seq<char>)
    ensures
        newlines(a + b) == newlines(a) + newlines(b),
    decreases b.len(),
{
    if b.len() > 0 {
        lemma_newlines_concat(a, b.drop_last());
        assert((a + b).drop_last() =~= a + b.drop_last());
    } else {
        assert(a + b =~= a);
    }
}

proof fn lemma_no_newline_before(t: Seq<char>, e: int)
    requires
        0 <= e <= t.len(),
        forall|k: int| 0 <= k < e ==> t[k] != '\n',
    ensures
        newlines(t.take(e)) == 0,
    decreases e,
{
    if e > 0 {
        assert(t.take(e).drop_last() =~= t.take(e - 1));
        lemma_no_newline_before(t, e - 1);
    }
}

proof fn lemma_line_end_clear(t: Seq<char>, i: int)
    requires
        0 <= i <= t.len(),
    ensures
        forall|k: int| i <= k < line_end(t, i) ==> t[k] != '\n',
    decreases t.len() - i,
{
    if i < t.len() && t[i] != '\n' {
        lemma_line_end_clear(t, i + 1);
    }
}

/// A text of `n` newlines has at most `n + 1` lines, and none of its lines
/// holds a newline.
pub proof fn lemma_lines_bound(t: Seq<char>)
    ensures
        lines_of(t).len() <= newlines(t) + 1,
        forall|i: int| 0 <= i < lines_of(t).len() ==> newlines(#[trigger] lines_of(t)[i]) == 0,
    decreases t.len(),
{
    if t.len() > 0 {
        let e = line_end(t, 0);
        lemma_line_end(t, 0);
        lemma_line_end_clear(t, 0);
        lemma_no_newline_before(t, e);
        let head = t.take(e);
        assert(newlines(strip_cr(head)) == 0) by {
            if head.len() > 0 && head.last() == '\r' {
                lemma_no_newline_before(t, e - 1);
                assert(head.drop_last() =~= t.take(e - 1));
            }
        }
        if 0 <= e < t.len() {
            let rest = t.skip(e + 1);
            lemma_lines_bound(rest);
            assert(t =~= head + seq!['\n'] + rest);
            lemma_newlines_concat(head + seq!['\n'], rest);
            lemma_newlines_concat(head, seq!['\n']);
            assert(newlines(seq!['\n']) == 1) by {
                assert(seq!['\n'].drop_last() =~= Seq::<char>::empty());
                assert(seq!['\n'].last() == '\n');
                assert(newlines(Seq::<char>::empty()) == 0);
            }
            let ls = lines_of(t);
            assert forall|i: int| 0 <= i < ls.len() implies newlines(#[trigger] ls[i]) == 0 by {
                if i > 0 {
                    assert(ls[i] == lines_of(rest)[i - 1]);
                }
            }
        } else {
            assert(head =~= t);
        }
    }
}

/// Joining lines that hold no newline adds one newline between each two.
pub proof fn lemma_join_newlines(ls: Seq<Seq<char>>)
    requires
        forall|i: int| 0 <= i < ls.len() ==> newlines(#[trigger] ls[i]) == 0,
    ensures
        ls.len() > 0 ==> newlines(join_lines(ls)) == ls.len() - 1,
        ls.len() == 0 ==> newlines(join_lines(ls)) == 0,
    decreases ls.len(),
{
    if ls.len() > 1 {
        let t = ls.drop_last();
        assert forall|i: int| 0 <= i < t.len() implies newlines(#[trigger] t[i]) == 0 by {
            assert(t[i] == ls[i]);
        }
        lemma_join_newlines(t);
        lemma_newlines_concat(join_lines(t) + seq!['\n'], ls.last());
        lemma_newlines_concat(join_lines(t), seq!['\n']);
        assert(newlines(seq!['\n']) == 1) by {
            assert(seq!['\n'].drop_last() =~= Seq::<char>::empty());
            assert(seq!['\n'].last() == '\n');
            assert(newlines(Seq::<char>::empty()) == 0);
        }
    } else if ls.len() == 0 {
        assert(newlines(Seq::<char>::empty()) == 0);
    }
}

/// The first `max` lines of `t`, joined by `'\n'`, with how many they are.
pub fn head_lines(t: &Vec<char>, max: usize) -> (r: (Vec<char>, usize))
    ensures
        r.1 as int == (if lines_of(t@).len() < max { lines_of(t@).len() as int } else { max as int }),
        r.0@ == join_lines(lines_of(t@).take(r.1 as int)),
{
    let mut out: Vec<char> = Vec::new();
    let mut count: usize = 0;
    let mut p: usize = 0;
    let n = t.len();
    assert(t@.skip(0) =~= t@);
    assert(lines_of(t@).take(0) + lines_of(t@) =~= lines_of(t@));
    while p < n && count < max
        invariant
            p <= n == t.len(),
            count <= max,
            count <= lines_of(t@).len(),
            lines_of(t@).take(count as int) + lines_of(t@.skip(p as int)) == lines_of(t@),
            out@ == join_lines(lines_of(t@).take(count as int)),
        decreases n - p,
    {
        let e = line_end_exec(t, p);
        proof {
            lemma_lines_step(t@, p as int);
            lemma_line_end(t@, p as int);
        }
        let ghost rest = t@.skip(p as int);
        let ghost line = if e < n { strip_cr(t@.subrange(p as int, e as int)) } else { t@.subrange(p as int, e as int) };
        let ghost before = out@;
        proof {
            assert(rest.take(e - p) =~= t@.subrange(p as int, e as int));
            if e < n {
                assert(rest.skip(e - p + 1) =~= t@.skip(e + 1));
            } else {
                assert(rest =~= t@.subrange(p as int, e as int));
            }
            assert(lines_of(rest)[0] == line);
        }
        if count > 0 {
            out.push('\n');
        }
        let stop = if e < n && e > p && t[e - 1] == '\r' { e - 1 } else { e };
        push_range(&mut out, t, p, stop);
        proof {
            let ls = lines_of(t@);
            assert(lines_of(rest).len() > 0);
            assert(ls.len() == count + lines_of(rest).len());
            assert(ls.take(count + 1).drop_last() =~= ls.take(count as int));
            if count > 0 {
                assert(out@ =~= before + seq!['\n'] + line);
            } else {
                assert(out@ =~= line);
            }
            assert(ls.take(count + 1).last() == line) by {
                assert(ls[count as int] == (ls.take(count as int) + lines_of(rest))[count as int]);
            }
        }
        let ghost old_count = count;
        count = count + 1;
        p = if e < n { e + 1 } else { n };
        proof {
            let ls = lines_of(t@);
            if e < n {
                assert(lines_of(rest) =~= seq![line] + lines_of(t@.skip(p as int)));
            } else {
                assert(lines_of(rest) =~= seq![line]);
                assert(t@.skip(p as int) =~= Seq::<char>::empty());
            }
            assert(ls.take(count as int) + lines_of(t@.skip(p as int)) =~= ls);
        }
    }
    proof {
        let ls = lines_of(t@);
        assert(ls.len() == count + lines_of(t@.skip(p as int)).len());
        if count < max {
            assert(t@.skip(p as int) =~= Seq::<char>::empty());
        }
    }
    (out, count)
}

} // verus!
