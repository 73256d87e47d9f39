//! Views over stored chunks: regular-expression search and the finding of
//! a symbol's definitions and uses.

use vstd::prelude::*;
use crate::records::{Annotation, SearchResult};
use crate::syntax::{first_line, head_lines, join_lines, line_views, lines_exec, lines_of, trim, trim_vec};
use crate::text::{lemma_text_lt_transitive, text_less, text_lt, chars_contain, chars_of, concat, ends_with, has_infix, has_suffix, str_eq, string_of};

verus! {

#[verifier::external_type_specification]
#[verifier::external_body]
pub struct ExRegex(regex::Regex);

/// Whether `pattern` is a valid regular expression.
pub uninterp spec fn pattern_compiles(pattern: Seq<char>) -> bool;

/// Whether the regular expression `pattern` matches somewhere in `text`.
pub uninterp spec fn pattern_matches(pattern: Seq<char>, text: Seq<char>) -> bool;

/// The characters that have a meaning in a regular expression.
pub open spec fn is_regex_meta(c: char) -> bool {
    c == '\\' || c == '.' || c == '+' || c == '*' || c == '?' || c == '(' || c == ')' || c == '|'
        || c == '[' || c == ']' || c == '{' || c == '}' || c == '^' || c == '$' || c == '#'
        || c == '&' || c == '-' || c == '~'
}

/// `text` with a backslash before each metacharacter.
pub open spec fn regex_escape(text: Seq<char>) -> Seq<char>
    decreases text.len(),
{
    if text.len() == 0 {
        Seq::empty()
    } else {
        regex_escape(text.drop_last()) + (if is_regex_meta(text.last()) {
            seq!['\\', text.last()]
        } else {
            seq![text.last()]
        })
    }
}

/// A compiled regular expression with the text it was compiled from.
pub struct Pattern {
    source: String,
    re: regex::Regex,
}

/// Relies on `regex::Regex::new`: compiles `pattern`, or gives the error's
/// message; whether it compiles depends on the pattern alone.
#[verifier::external_body]
fn compile_regex(pattern: &str) -> (r: Result<Pattern, String>)
    ensures
        r is Ok <==> pattern_compiles(pattern@),
        r matches Ok(p) ==> p.source() == pattern@,
{
    match regex::Regex::new(pattern) {
        Ok(re) => Ok(Pattern { source: pattern.to_string(), re }),
        Err(e) => Err(e.to_string()),
    }
}

/// Relies on `regex::Regex::is_match`: whether the pattern matches
/// anywhere in `text`.
#[verifier::external_body]
fn regex_is_match(p: &Pattern, text: &str) -> (r: bool)
    ensures
        r == pattern_matches(p.source(), text@),
{
    p.re.is_match(text)
}

/// Relies on `regex::escape` (regex-syntax's `escape_into`): a backslash
/// before each character that `is_meta_character` lists.
#[verifier::external_body]
fn escape_regex(text: &str) -> (r: String)
    ensures
        r@ == regex_escape(text@),
{
    regex::escape(text)
}

impl Pattern {
    /// The text the pattern was compiled from.
    pub closed spec fn source(&self) -> Seq<char> {
        self.source@
    }

    /// Compile a regular expression; `Err` holds the reason it is invalid.
    pub fn new(pattern: &str) -> (r: Result<Pattern, String>)
        ensures
            r is Ok <==> pattern_compiles(pattern@),
            r matches Ok(p) ==> p.source() == pattern@,
    {
        compile_regex(pattern)
    }

    pub fn is_match(&self, text: &str) -> (r: bool)
        ensures
            r == pattern_matches(self.source(), text@),
    {
        regex_is_match(self, text)
    }
}

/// The pattern that finds `symbol` as a whole word.
pub open spec fn word_pattern(symbol: Seq<char>) -> Seq<char> {
    "\\b"@ + regex_escape(symbol) + "\\b"@
}

/// How a line uses a symbol: in an import chunk an import; `sym(` or
/// `sym!(` a call; `<sym>`, `: sym` or `-> sym` a type; else a reference.
pub open spec fn ref_kind_of(chunk_kind: Seq<char>, line: Seq<char>, sym: Seq<char>) -> Seq<char> {
    if chunk_kind == "import"@ {
        "import"@
    } else if has_infix(line, sym + "("@) || has_infix(line, sym + "!("@) {
        "call"@
    } else if has_infix(line, "<"@ + sym + ">"@) || has_infix(line, ": "@ + sym) || has_infix(
        line,
        "-> "@ + sym,
    ) {
        "type"@
    } else {
        "reference"@
    }
}

pub fn classify_reference(chunk_kind: &str, line: &str, symbol: &str) -> (r: &'static str)
    ensures
        r@ == ref_kind_of(chunk_kind@, line@, symbol@),
{
    let l = chars_of(line);
    if str_eq(chunk_kind, "import") {
        "import"
    } else if chars_contain(&l, &chars_of(concat(symbol, "(").as_str())) || chars_contain(
        &l,
        &chars_of(concat(symbol, "!(").as_str()),
    ) {
        "call"
    } else if chars_contain(&l, &chars_of(concat(concat("<", symbol).as_str(), ">").as_str()))
        || chars_contain(&l, &chars_of(concat(": ", symbol).as_str())) || chars_contain(
        &l,
        &chars_of(concat("-> ", symbol).as_str()),
    ) {
        "type"
    } else {
        "reference"
    }
}

/// A definition or use of a symbol.
pub struct Reference {
    pub file_path: String,
    pub line_no: usize,
    pub line: String,
    pub chunk_kind: String,
    pub chunk_name: Option<String>,
    pub ref_kind: String,
}

pub struct RefModel {
    pub file_path: Seq<char>,
    pub line_no: usize,
    pub line: Seq<char>,
    pub ref_kind: Seq<char>,
}

pub open spec fn ref_model(r: Reference) -> RefModel {
    RefModel { file_path: r.file_path@, line_no: r.line_no, line: r.line@, ref_kind: r.ref_kind@ }
}

pub open spec fn ref_models(v: Seq<Reference>) -> Seq<RefModel> {
    v.map_values(|r: Reference| ref_model(r))
}

/// Line `i` of a chunk starting at line `start`, saturating.
pub open spec fn line_at(start: i64, i: int) -> usize {
    if start + i <= usize::MAX { (start + i) as usize } else { usize::MAX }
}

pub open spec fn defines(c: SearchResult, sym: Seq<char>) -> bool {
    c.chunk_name is Some && c.chunk_name->0@ == sym
}

pub open spec fn definition_line(c: SearchResult) -> Seq<char> {
    match c.signature {
        Some(s) => s@,
        None => match first_line(c.content@) {
            Some(l) => l,
            None => Seq::empty(),
        },
    }
}

pub open spec fn definitions_of(chunks: Seq<SearchResult>, sym: Seq<char>) -> Seq<RefModel>
    decreases chunks.len(),
{
    if chunks.len() == 0 {
        Seq::empty()
    } else {
        let c = chunks.last();
        definitions_of(chunks.drop_last(), sym) + (if defines(c, sym) {
            seq![RefModel { file_path: c.file_path@, line_no: line_at(c.start_line, 0), line: definition_line(c), ref_kind: "definition"@ }]
        } else {
            Seq::empty()
        })
    }
}

/// The uses among the first `k` lines of chunk `c`.
pub open spec fn uses_in(c: SearchResult, sym: Seq<char>, pattern: Seq<char>, k: int) -> Seq<RefModel>
    decreases k,
{
    let ls = lines_of(c.content@);
    if k <= 0 || k > ls.len() {
        Seq::empty()
    } else {
        let l = ls[k - 1];
        uses_in(c, sym, pattern, k - 1) + (if pattern_matches(pattern, l) {
            seq![RefModel { file_path: c.file_path@, line_no: line_at(c.start_line, k - 1), line: trim(l), ref_kind: ref_kind_of(c.chunk_kind@, trim(l), sym) }]
        } else {
            Seq::empty()
        })
    }
}

pub open spec fn uses_of(chunks: Seq<SearchResult>, sym: Seq<char>, pattern: Seq<char>) -> Seq<RefModel>
    decreases chunks.len(),
{
    if chunks.len() == 0 {
        Seq::empty()
    } else {
        let c = chunks.last();
        uses_of(chunks.drop_last(), sym, pattern) + (if defines(c, sym) {
            Seq::empty()
        } else {
            uses_in(c, sym, pattern, lines_of(c.content@).len() as int)
        })
    }
}

fn line_no(start: i64, i: usize) -> (r: usize)
    requires
        start >= 0,
    ensures
        r == line_at(start, i as int),
{
    let total: u128 = start as u128 + i as u128;
    if total <= usize::MAX as u128 { total as usize } else { usize::MAX }
}

/// The definitions of `symbol` (chunks named so) and the lines of other
/// chunks that `word` matches, each with how it uses the symbol; both in
/// chunk and line order.
pub fn find_references(chunks: &Vec<SearchResult>, symbol: &str, word: &Pattern) -> (r: (Vec<Reference>, Vec<Reference>))
    requires
        forall|i: int| 0 <= i < chunks@.len() ==> (#[trigger] chunks@[i]).start_line >= 0,
    ensures
        ref_models(r.0@) == definitions_of(chunks@, symbol@),
        ref_models(r.1@) == uses_of(chunks@, symbol@, word.source()),
{
    let mut defs: Vec<Reference> = Vec::new();
    let mut uses: Vec<Reference> = Vec::new();
    let mut i: usize = 0;
    while i < chunks.len()
        invariant
            i <= chunks@.len(),
            forall|k: int| 0 <= k < chunks@.len() ==> (#[trigger] chunks@[k]).start_line >= 0,
            ref_models(defs@) == definitions_of(chunks@.take(i as int), symbol@),
            ref_models(uses@) == uses_of(chunks@.take(i as int), symbol@, word.source()),
        decreases chunks@.len() - i,
    {
        let c = &chunks[i];
        let ghost d0 = ref_models(defs@);
        let ghost u0 = ref_models(uses@);
        let is_def = match &c.chunk_name {
            Some(n) => str_eq(n.as_str(), symbol),
            None => false,
        };
        let content = chars_of(c.content.as_str());
        if is_def {
            let line = match &c.signature {
                Some(s) => s.clone(),
                None => {
                    let (l, cnt) = head_lines(&content, 1);
                    proof {
                        if cnt > 0 {
                            let ls = lines_of(content@);
                            assert(ls.take(1).len() == 1);
                            assert(join_lines(ls.take(1)) == ls.take(1)[0]);
                        }
                    }
                    if cnt > 0 { string_of(&l) } else { String::new() }
                },
            };
            defs.push(Reference {
                file_path: c.file_path.clone(),
                line_no: line_no(c.start_line, 0),
                line,
                chunk_kind: c.chunk_kind.clone(),
                chunk_name: c.chunk_name.clone(),
                ref_kind: "definition".to_owned(),
            });
            assert(ref_models(defs@) =~= d0 + seq![ref_model(defs@.last())]);
            assert(ref_models(uses@) =~= u0 + Seq::<RefModel>::empty());
        } else {
            let lines = lines_exec(&content);
            let mut k: usize = 0;
            while k < lines.len()
                invariant
                    k <= lines@.len(),
                    line_views(lines@) == lines_of(c.content@),
                    c.start_line >= 0,
                    ref_models(uses@) == u0 + uses_in(*c, symbol@, word.source(), k as int),
                decreases lines@.len() - k,
            {
                let ghost before = ref_models(uses@);
                let text = string_of(&lines[k]);
                assert(text@ == lines_of(c.content@)[k as int]);
                if word.is_match(text.as_str()) {
                    let t = string_of(&trim_vec(&lines[k]));
                    let kind = classify_reference(c.chunk_kind.as_str(), t.as_str(), symbol);
                    uses.push(Reference {
                        file_path: c.file_path.clone(),
                        line_no: line_no(c.start_line, k),
                        line: t,
                        chunk_kind: c.chunk_kind.clone(),
                        chunk_name: c.chunk_name.clone(),
                        ref_kind: kind.to_owned(),
                    });
                    assert(ref_models(uses@) =~= before + seq![ref_model(uses@.last())]);
                } else {
                    assert(ref_models(uses@) =~= before + Seq::<RefModel>::empty());
                }
                k = k + 1;
            }
            assert(ref_models(defs@) =~= d0 + Seq::<RefModel>::empty());
        }
        proof {
            let t = chunks@.take(i + 1);
            assert(t.drop_last() =~= chunks@.take(i as int));
            assert(t.last() == chunks@[i as int]);
        }
        i = i + 1;
    }
    assert(chunks@.take(chunks@.len() as int) =~= chunks@);
    (defs, uses)
}

/// Definitions and uses of `symbol` across `chunks`, found with the
/// whole-word pattern of the escaped symbol; `Err` when that pattern does
/// not compile. `sort_references` merges the two lists by file and line.
pub fn references(chunks: &Vec<SearchResult>, symbol: &str) -> (r: Result<(Vec<Reference>, Vec<Reference>), String>)
    requires
        forall|i: int| 0 <= i < chunks@.len() ==> (#[trigger] chunks@[i]).start_line >= 0,
    ensures
        r is Ok <==> pattern_compiles(word_pattern(symbol@)),
        r matches Ok(p) ==> ref_models(p.0@) == definitions_of(chunks@, symbol@) && ref_models(p.1@)
            == uses_of(chunks@, symbol@, word_pattern(symbol@)),
{
    let escaped = escape_regex(symbol);
    let source = concat(concat("\\b", escaped.as_str()).as_str(), "\\b");
    match Pattern::new(source.as_str()) {
        Ok(word) => Ok(find_references(chunks, symbol, &word)),
        Err(e) => Err(e),
    }
}

/// One line shown around a match.
pub struct GrepLine {
    pub line_no: usize,
    pub text: String,
    pub is_match: bool,
}

/// A matching line of a file with the lines around it.
pub struct GrepMatch {
    pub file: String,
    pub context: Vec<GrepLine>,
}

pub struct GrepLineModel {
    pub line_no: usize,
    pub text: Seq<char>,
    pub is_match: bool,
}

pub struct GrepModel {
    pub file: Seq<char>,
    pub context: Seq<GrepLineModel>,
}

pub open spec fn grep_line_model(l: GrepLine) -> GrepLineModel {
    GrepLineModel { line_no: l.line_no, text: l.text@, is_match: l.is_match }
}

pub open spec fn grep_model(m: GrepMatch) -> GrepModel {
    GrepModel { file: m.file@, context: m.context@.map_values(|l: GrepLine| grep_line_model(l)) }
}

pub open spec fn grep_models(v: Seq<GrepMatch>) -> Seq<GrepModel> {
    v.map_values(|m: GrepMatch| grep_model(m))
}

/// Lines `j` from `lo` up to `hi` of a chunk, marking line `i`.
pub open spec fn context_lines_of(c: SearchResult, lo: int, hi: int, i: int) -> Seq<GrepLineModel>
    decreases hi - lo,
{
    if hi <= lo {
        Seq::empty()
    } else {
        context_lines_of(c, lo, hi - 1, i) + seq![GrepLineModel { line_no: line_at(c.start_line, hi - 1), text: lines_of(c.content@)[hi - 1], is_match: hi - 1 == i }]
    }
}

/// The match at line `i` of chunk `c`, with `ctx` lines each side.
pub open spec fn grep_entry(c: SearchResult, i: int, ctx: int) -> GrepModel {
    let n = lines_of(c.content@).len() as int;
    let lo = if i - ctx < 0 { 0 } else { i - ctx };
    let hi = if i + ctx + 1 > n { n } else { i + ctx + 1 };
    GrepModel { file: c.file_path@, context: context_lines_of(c, lo, hi, i) }
}

/// The matches among the first `k` lines of chunk `c`.
pub open spec fn grep_in(c: SearchResult, pattern: Seq<char>, ctx: int, k: int) -> Seq<GrepModel>
    decreases k,
{
    let ls = lines_of(c.content@);
    if k <= 0 || k > ls.len() {
        Seq::empty()
    } else {
        grep_in(c, pattern, ctx, k - 1) + (if pattern_matches(pattern, ls[k - 1]) {
            seq![grep_entry(c, k - 1, ctx)]
        } else {
            Seq::empty()
        })
    }
}

/// Every match over `chunks`, in chunk and line order.
pub open spec fn grep_all(chunks: Seq<SearchResult>, pattern: Seq<char>, ctx: int) -> Seq<GrepModel>
    decreases chunks.len(),
{
    if chunks.len() == 0 {
        Seq::empty()
    } else {
        grep_all(chunks.drop_last(), pattern, ctx) + grep_in(chunks.last(), pattern, ctx, lines_of(chunks.last().content@).len() as int)
    }
}

pub open spec fn keep_first<T>(s: Seq<T>, m: int) -> Seq<T> {
    if s.len() <= m { s } else { s.take(m) }
}

/// At least one match is kept, even when `max_results` is 0.
pub open spec fn grep_limit(max_results: usize) -> int {
    if max_results == 0 { 1 } else { max_results as int }
}

proof fn lemma_keep_push<T>(s: Seq<T>, x: T, m: int)
    requires
        m >= 1,
    ensures
        keep_first(s + seq![x], m) == if s.len() < m { keep_first(s, m).push(x) } else { keep_first(s, m) },
{
    if s.len() < m {
        assert(keep_first(s + seq![x], m) =~= s.push(x));
    } else {
        assert(keep_first(s + seq![x], m) =~= s.take(m));
    }
}

/// Scan the lines of `chunks` for `pattern`, keeping the first
/// `max_results` matches (at least one) with `context_lines` lines on each
/// side.
pub fn grep_chunks(chunks: &Vec<SearchResult>, pattern: &Pattern, max_results: usize, context_lines: usize) -> (r: Vec<GrepMatch>)
    requires
        forall|i: int| 0 <= i < chunks@.len() ==> (#[trigger] chunks@[i]).start_line >= 0,
    ensures
        grep_models(r@) == keep_first(grep_all(chunks@, pattern.source(), context_lines as int), grep_limit(max_results)),
{
    let limit: usize = if max_results == 0 { 1 } else { max_results };
    let ghost ctx = context_lines as int;
    let mut out: Vec<GrepMatch> = Vec::new();
    let mut i: usize = 0;
    while i < chunks.len()
        invariant
            i <= chunks@.len(),
            limit as int == grep_limit(max_results),
            ctx == context_lines as int,
            forall|k: int| 0 <= k < chunks@.len() ==> (#[trigger] chunks@[k]).start_line >= 0,
            grep_models(out@) == keep_first(grep_all(chunks@.take(i as int), pattern.source(), ctx), limit as int),
        decreases chunks@.len() - i,
    {
        let c = &chunks[i];
        let ghost all0 = grep_all(chunks@.take(i as int), pattern.source(), ctx);
        let lines = lines_exec(&chars_of(c.content.as_str()));
        let n = lines.len();
        let mut k: usize = 0;
        while k < n
            invariant
                k <= n == lines@.len(),
                line_views(lines@) == lines_of(c.content@),
                c.start_line >= 0,
                limit >= 1,
                limit as int == grep_limit(max_results),
                ctx == context_lines as int,
                grep_models(out@) == keep_first(all0 + grep_in(*c, pattern.source(), ctx, k as int), limit as int),
            decreases n - k,
        {
            let ghost prev = all0 + grep_in(*c, pattern.source(), ctx, k as int);
            let text = string_of(&lines[k]);
            assert(text@ == lines_of(c.content@)[k as int]);
            if pattern.is_match(text.as_str()) {
                let lo: usize = if k < context_lines { 0 } else { k - context_lines };
                let hi: usize = if context_lines >= n - k { n } else { k + context_lines + 1 };
                let mut ctx_lines: Vec<GrepLine> = Vec::new();
                let mut j = lo;
                while j < hi
                    invariant
                        lo <= j <= hi <= n == lines@.len(),
                        line_views(lines@) == lines_of(c.content@),
                        c.start_line >= 0,
                        ctx_lines@.map_values(|l: GrepLine| grep_line_model(l)) == context_lines_of(*c, lo as int, j as int, k as int),
                    decreases hi - j,
                {
                    let ghost before = ctx_lines@.map_values(|l: GrepLine| grep_line_model(l));
                    let t = string_of(&lines[j]);
                    assert(t@ == lines_of(c.content@)[j as int]);
                    ctx_lines.push(GrepLine { line_no: line_no(c.start_line, j), text: t, is_match: j == k });
                    assert(ctx_lines@.map_values(|l: GrepLine| grep_line_model(l)) =~= before.push(grep_line_model(ctx_lines@.last())));
                    j = j + 1;
                }
                assert(lines_of(c.content@).len() == n);
                assert(lo as int == (if k - ctx < 0 { 0 } else { k - ctx }));
                assert(hi as int == (if k + ctx + 1 > n { n as int } else { k + ctx + 1 }));
                let ghost cm = ctx_lines@.map_values(|l: GrepLine| grep_line_model(l));
                let m = GrepMatch { file: c.file_path.clone(), context: ctx_lines };
                assert(grep_model(m).context == cm);
                assert(grep_model(m) == grep_entry(*c, k as int, ctx));
                proof { lemma_keep_push(prev, grep_model(m), limit as int); }
                if out.len() < limit {
                    let ghost before = grep_models(out@);
                    out.push(m);
                    assert(grep_models(out@) =~= before.push(grep_model(m)));
                }
                assert(prev + seq![grep_entry(*c, k as int, ctx)] =~= all0 + grep_in(*c, pattern.source(), ctx, k + 1));
            } else {
                assert(prev =~= all0 + grep_in(*c, pattern.source(), ctx, k + 1));
            }
            k = k + 1;
        }
        proof {
            let t = chunks@.take(i + 1);
            assert(t.drop_last() =~= chunks@.take(i as int));
            assert(t.last() == chunks@[i as int]);
        }
        i = i + 1;
    }
    assert(chunks@.take(chunks@.len() as int) =~= chunks@);
    out
}

pub open spec fn is_digit(c: char) -> bool {
    '0' <= c && c <= '9'
}

/// The value of a string of decimal digits.
pub open spec fn digits_value(d: Seq<char>) -> int
    decreases d.len(),
{
    if d.len() == 0 {
        0
    } else {
        digits_value(d.drop_last()) * 10 + (d.last() as int - '0' as int)
    }
}

pub open spec fn all_digits(d: Seq<char>) -> bool {
    d.len() > 0 && forall|i: int| 0 <= i < d.len() ==> is_digit(#[trigger] d[i])
}

pub open spec fn sign_len(s: Seq<char>) -> int {
    if s.len() > 0 && (s[0] == '-' || s[0] == '+') { 1 } else { 0 }
}

/// The `i64` that `str::parse` reads from `s`: an optional sign and at
/// least one digit, within range.
pub open spec fn parse_i64(s: Seq<char>) -> Option<int> {
    let d = s.skip(sign_len(s));
    if !all_digits(d) {
        None
    } else if s[0] == '-' {
        if -digits_value(d) >= i64::MIN { Some(-digits_value(d)) } else { None }
    } else {
        if digits_value(d) <= i64::MAX { Some(digits_value(d)) } else { None }
    }
}

proof fn lemma_digits_value_nonneg(d: Seq<char>)
    requires
        forall|i: int| 0 <= i < d.len() ==> is_digit(#[trigger] d[i]),
    ensures
        digits_value(d) >= 0,
    decreases d.len(),
{
    if d.len() > 0 {
        lemma_digits_value_nonneg(d.drop_last());
    }
}

/// Reads `s` as `str::parse::<i64>` does.
pub fn parse_line_number(s: &Vec<char>) -> (r: Option<i64>)
    ensures
        match r {
            Some(v) => parse_i64(s@) == Some(v as int),
            None => parse_i64(s@) is None,
        },
{
    let start: usize = if s.len() > 0 && (s[0] == '-' || s[0] == '+') { 1 } else { 0 };
    let ghost d = s@.skip(start as int);
    assert(start == sign_len(s@));
    if start >= s.len() {
        assert(d.len() == 0);
        assert(!all_digits(d));
        assert(parse_i64(s@) is None);
        return None;
    }
    let neg = s[0] == '-';
    let limit: u128 = 9223372036854775808;
    let mut acc: u128 = 0;
    let mut big = false;
    let mut i = start;
    assert(s@.subrange(start as int, start as int) =~= Seq::<char>::empty());
    while i < s.len()
        invariant
            start <= i <= s@.len(),
            start == sign_len(s@),
            d == s@.skip(start as int),
            limit == 9223372036854775808u128,
            forall|k: int| start <= k < i ==> is_digit(#[trigger] s@[k]),
            !big ==> acc as int == digits_value(s@.subrange(start as int, i as int)) && acc <= limit,
            big ==> digits_value(s@.subrange(start as int, i as int)) > limit,
        decreases s@.len() - i,
    {
        let c = s[i];
        if !('0' <= c && c <= '9') {
            assert(!all_digits(d)) by {
                assert(d[i - start] == c);
            }
            return None;
        }
        let ghost pre = s@.subrange(start as int, i as int);
        let ghost v = digits_value(pre);
        let ghost dv = c as int - '0' as int;
        proof {
            assert(s@.subrange(start as int, i + 1).drop_last() =~= pre);
            assert(s@.subrange(start as int, i + 1).last() == c);
            assert forall|k: int| 0 <= k < pre.len() implies is_digit(#[trigger] pre[k]) by {
                assert(pre[k] == s@[start + k]);
            }
            lemma_digits_value_nonneg(pre);
            assert(0 <= dv <= 9);
            assert(digits_value(s@.subrange(start as int, i + 1)) == v * 10 + dv);
            assert(v * 10 + dv >= v) by (nonlinear_arith) requires v >= 0, dv >= 0;
        }
        if !big {
            assert(acc * 10 <= 92233720368547758080u128) by (nonlinear_arith) requires acc <= 9223372036854775808u128;
            let next: u128 = acc * 10 + (c as u32 - '0' as u32) as u128;
            if next > limit {
                big = true;
            } else {
                acc = next;
            }
        }
        i = i + 1;
    }
    assert(s@.subrange(start as int, s@.len() as int) =~= d);
    assert(all_digits(d)) by {
        assert forall|k: int| 0 <= k < d.len() implies is_digit(#[trigger] d[k]) by {
            assert(d[k] == s@[start + k]);
        }
    }
    if big {
        assert(digits_value(d) > 9223372036854775808int);
        assert(parse_i64(s@) is None);
        return None;
    }
    assert(acc as int == digits_value(d));
    if neg {
        Some((0i128 - acc as i128) as i64)
    } else if acc <= 9223372036854775807 {
        Some(acc as i64)
    } else {
        None
    }
}

/// Index of the first `:` in `t`, if any.
pub open spec fn first_colon(t: Seq<char>, i: int) -> int
    decreases t.len() - i,
{
    if i < 0 || i >= t.len() {
        -1
    } else if t[i] == ':' {
        i
    } else {
        first_colon(t, i + 1)
    }
}

pub open spec fn names_file(path: Seq<char>, file: Seq<char>) -> bool {
    has_suffix(path, file) || path == file
}

/// Whether an annotation's target points at a result: the file (by suffix
/// or exactly), the chunk's name, or a `file:line` within the chunk.
pub open spec fn note_applies(r: SearchResult, t: Seq<char>) -> bool {
    if names_file(r.file_path@, t) || (r.chunk_name is Some && r.chunk_name->0@ == t) {
        true
    } else {
        let c = first_colon(t, 0);
        c >= 0 && match parse_i64(t.skip(c + 1)) {
            Some(line) => names_file(r.file_path@, t.take(c)) && r.start_line <= line
                <= r.end_line,
            None => false,
        }
    }
}

pub open spec fn notes_for(r: SearchResult, anns: Seq<Annotation>) -> Seq<Seq<char>>
    decreases anns.len(),
{
    if anns.len() == 0 {
        Seq::empty()
    } else {
        notes_for(r, anns.drop_last()) + (if note_applies(r, anns.last().target@) {
            seq![anns.last().note@]
        } else {
            Seq::empty()
        })
    }
}

proof fn lemma_first_colon(t: Seq<char>, i: int)
    requires
        0 <= i <= t.len(),
    ensures
        first_colon(t, i) == -1 || (i <= first_colon(t, i) < t.len() && t[first_colon(t, i)] == ':'),
    decreases t.len() - i,
{
    if i < t.len() && t[i] != ':' {
        lemma_first_colon(t, i + 1);
    }
}

fn note_applies_exec(r: &SearchResult, target: &str) -> (b: bool)
    ensures
        b == note_applies(*r, target@),
{
    let path = r.file_path.as_str();
    if ends_with(path, target) || str_eq(path, target) {
        return true;
    }
    if let Some(n) = &r.chunk_name {
        if str_eq(n.as_str(), target) {
            return true;
        }
    }
    let t = chars_of(target);
    let mut c: usize = 0;
    proof { lemma_first_colon(t@, 0); }
    while c < t.len() && t[c] != ':'
        invariant
            c <= t@.len(),
            first_colon(t@, c as int) == first_colon(t@, 0),
        decreases t@.len() - c,
    {
        c = c + 1;
    }
    if c >= t.len() {
        return false;
    }
    let mut file: Vec<char> = Vec::new();
    let mut k: usize = 0;
    while k < c
        invariant
            k <= c < t@.len(),
            file@ == t@.take(k as int),
        decreases c - k,
    {
        file.push(t[k]);
        assert(t@.take(k + 1) =~= t@.take(k as int).push(t@[k as int]));
        k = k + 1;
    }
    let mut rest: Vec<char> = Vec::new();
    let mut j = c + 1;
    while j < t.len()
        invariant
            c < j <= t@.len(),
            rest@ == t@.subrange(c + 1, j as int),
        decreases t@.len() - j,
    {
        rest.push(t[j]);
        assert(t@.subrange(c + 1, j + 1) =~= t@.subrange(c + 1, j as int).push(t@[j as int]));
        j = j + 1;
    }
    assert(rest@ =~= t@.skip(c + 1));
    match parse_line_number(&rest) {
        Some(line) => {
            let fs = string_of(&file);
            (ends_with(path, fs.as_str()) || str_eq(path, fs.as_str())) && r.start_line <= line
                && line <= r.end_line
        },
        None => false,
    }
}

/// The notes of the annotations that point at a result, in order.
pub fn matching_notes(r: &SearchResult, annotations: &Vec<Annotation>) -> (notes: Vec<String>)
    ensures
        notes@.map_values(|n: String| n@) == notes_for(*r, annotations@),
{
    let mut out: Vec<String> = Vec::new();
    let mut i: usize = 0;
    while i < annotations.len()
        invariant
            i <= annotations@.len(),
            out@.map_values(|n: String| n@) == notes_for(*r, annotations@.take(i as int)),
        decreases annotations@.len() - i,
    {
        let ghost before = out@.map_values(|n: String| n@);
        let a = &annotations[i];
        if note_applies_exec(r, a.target.as_str()) {
            out.push(a.note.clone());
            assert(out@.map_values(|n: String| n@) =~= before.push(a.note@));
        } else {
            assert(out@.map_values(|n: String| n@) =~= before + Seq::<Seq<char>>::empty());
        }
        proof {
            let t = annotations@.take(i + 1);
            assert(t.drop_last() =~= annotations@.take(i as int));
            assert(t.last() == annotations@[i as int]);
        }
        i = i + 1;
    }
    assert(annotations@.take(annotations@.len() as int) =~= annotations@);
    out
}

/// `a` goes before `b`: by file path, then by line.
pub open spec fn ref_before(a: RefModel, b: RefModel) -> bool {
    text_lt(a.file_path, b.file_path) || (a.file_path == b.file_path && a.line_no < b.line_no)
}

pub open spec fn sorted_refs(s: Seq<RefModel>) -> bool {
    forall|i: int, j: int| 0 <= i < j < s.len() ==> !ref_before(#[trigger] s[j], #[trigger] s[i])
}

/// Index of the first entry from `i` on that goes after `x`.
pub open spec fn first_after(s: Seq<RefModel>, x: RefModel, i: int) -> int
    decreases s.len() - i,
{
    if i < 0 || i >= s.len() {
        s.len() as int
    } else if ref_before(x, s[i]) {
        i
    } else {
        first_after(s, x, i + 1)
    }
}

/// The stable sort by file path, then line.
pub open spec fn sort_refs(s: Seq<RefModel>) -> Seq<RefModel>
    decreases s.len(),
{
    if s.len() == 0 {
        s
    } else {
        let t = sort_refs(s.drop_last());
        t.insert(first_after(t, s.last(), 0), s.last())
    }
}

proof fn lemma_ref_before_transitive(a: RefModel, b: RefModel, c: RefModel)
    requires
        ref_before(a, b),
        ref_before(b, c),
    ensures
        ref_before(a, c),
{
    if text_lt(a.file_path, b.file_path) && text_lt(b.file_path, c.file_path) {
        lemma_text_lt_transitive(a.file_path, b.file_path, c.file_path);
    }
}

proof fn lemma_first_after(s: Seq<RefModel>, x: RefModel, i: int)
    requires
        0 <= i <= s.len(),
    ensures
        i <= first_after(s, x, i) <= s.len(),
        forall|k: int| i <= k < first_after(s, x, i) ==> !ref_before(x, #[trigger] s[k]),
        first_after(s, x, i) < s.len() ==> ref_before(x, s[first_after(s, x, i)]),
    decreases s.len() - i,
{
    if i < s.len() && !ref_before(x, s[i]) {
        lemma_first_after(s, x, i + 1);
    }
}

proof fn lemma_sort_refs(s: Seq<RefModel>)
    ensures
        sorted_refs(sort_refs(s)),
        sort_refs(s).to_multiset() == s.to_multiset(),
    decreases s.len(),
{
    broadcast use vstd::seq_lib::to_multiset_insert, vstd::seq_lib::to_multiset_build;

    if s.len() > 0 {
        let t = sort_refs(s.drop_last());
        let x = s.last();
        lemma_sort_refs(s.drop_last());
        lemma_first_after(t, x, 0);
        let p = first_after(t, x, 0);
        let r = t.insert(p, x);
        assert forall|i: int, j: int| 0 <= i < j < r.len() implies !ref_before(#[trigger] r[j], #[trigger] r[i]) by {
            if j < p {
                assert(r[i] == t[i] && r[j] == t[j]);
            } else if j == p {
                assert(r[i] == t[i]);
            } else if i < p {
                assert(r[i] == t[i] && r[j] == t[j - 1]);
            } else if i == p {
                assert(r[j] == t[j - 1]);
                if ref_before(t[j - 1], x) {
                    if j - 1 > p {
                        assert(!ref_before(t[j - 1], t[p]));
                    }
                    lemma_ref_before_transitive(t[j - 1], x, t[p]);
                    lemma_text_lt_irreflexive_pair(t[p], t[j - 1]);
                }
            } else {
                assert(r[i] == t[i - 1] && r[j] == t[j - 1]);
            }
        }
        assert(s =~= s.drop_last().push(x));
    }
}

proof fn lemma_text_lt_irreflexive_pair(a: RefModel, b: RefModel)
    requires
        a == b,
    ensures
        !ref_before(a, b),
{
    crate::text::lemma_text_lt_irreflexive(a.file_path);
}

/// Definitions and uses as one list: all of them, ordered by file path and
/// then line, ties kept in the order definitions-then-uses.
pub fn sort_references(defs: Vec<Reference>, uses: Vec<Reference>) -> (r: Vec<Reference>)
    ensures
        ref_models(r@) == sort_refs(ref_models(defs@) + ref_models(uses@)),
        sorted_refs(ref_models(r@)),
        ref_models(r@).to_multiset() == (ref_models(defs@) + ref_models(uses@)).to_multiset(),
{
    let ghost orig = ref_models(defs@) + ref_models(uses@);
    let mut all = defs;
    let mut more = uses;
    let ghost d = all@;
    let ghost u = more@;
    all.append(&mut more);
    assert(ref_models(all@) =~= orig);
    let n = all.len();
    let mut input = all;
    let mut out: Vec<Reference> = Vec::new();
    let mut k: usize = 0;
    while input.len() > 0
        invariant
            n == orig.len(),
            k <= n,
            ref_models(input@) == orig.skip(k as int),
            ref_models(out@) == sort_refs(orig.take(k as int)),
        decreases input.len(),
    {
        let ghost ib = input@;
        assert(ref_models(ib).len() == ib.len());
        let x = input.remove(0);
        assert(ref_model(x) == orig[k as int]) by {
            assert(ib[0] == x);
            assert(ref_models(ib)[0] == ref_model(ib[0]));
            assert(ref_models(ib)[0] == orig.skip(k as int)[0]);
            assert(orig.skip(k as int)[0] == orig[k as int]);
        }
        let mut p: usize = 0;
        proof { lemma_first_after(ref_models(out@), ref_model(x), 0); }
        while p < out.len() && !(text_less(x.file_path.as_str(), out[p].file_path.as_str())
            || (str_eq(x.file_path.as_str(), out[p].file_path.as_str()) && x.line_no < out[p].line_no))
            invariant
                p <= out@.len(),
                first_after(ref_models(out@), ref_model(x), p as int) == first_after(ref_models(out@), ref_model(x), 0),
            decreases out@.len() - p,
        {
            p = p + 1;
        }
        let ghost before = ref_models(out@);
        out.insert(p, x);
        proof {
            assert(orig.take(k + 1).drop_last() =~= orig.take(k as int));
            assert(orig.take(k + 1).last() == orig[k as int]);
            assert(ref_models(out@) =~= before.insert(p as int, ref_model(x)));
            assert(input@ =~= ib.skip(1));
            assert(ref_models(input@) =~= ref_models(ib).skip(1));
            assert(orig.skip(k as int).skip(1) =~= orig.skip(k + 1));
        }
        k = k + 1;
    }
    assert(orig.take(k as int) =~= orig);
    proof { lemma_sort_refs(orig); }
    out
}

pub open spec fn listed(out: Seq<String>, f: Seq<char>) -> bool {
    exists|i: int| 0 <= i < out.len() && (#[trigger] out[i])@ == f
}

pub open spec fn referenced(refs: Seq<Reference>, f: Seq<char>) -> bool {
    exists|k: int| 0 <= k < refs.len() && (#[trigger] refs[k]).file_path@ == f
}

/// The files of a list of references, each once, in order of first
/// appearance.
pub fn distinct_files(refs: &Vec<Reference>) -> (r: Vec<String>)
    ensures
        forall|i: int, j: int| 0 <= i < j < r@.len() ==> (#[trigger] r@[i])@ != (#[trigger] r@[j])@,
        forall|k: int| 0 <= k < refs@.len() ==> listed(r@, (#[trigger] refs@[k]).file_path@),
        forall|i: int| 0 <= i < r@.len() ==> referenced(refs@, (#[trigger] r@[i])@),
{
    let mut out: Vec<String> = Vec::new();
    let mut k: usize = 0;
    while k < refs.len()
        invariant
            k <= refs@.len(),
            forall|i: int, j: int| 0 <= i < j < out@.len() ==> (#[trigger] out@[i])@ != (#[trigger] out@[j])@,
            forall|m: int| 0 <= m < k ==> listed(out@, (#[trigger] refs@[m]).file_path@),
            forall|i: int| 0 <= i < out@.len() ==> referenced(refs@, (#[trigger] out@[i])@),
        decreases refs@.len() - k,
    {
        let f = &refs[k].file_path;
        let mut i: usize = 0;
        let mut seen = false;
        while i < out.len()
            invariant
                i <= out@.len(),
                seen ==> listed(out@, f@),
                !seen ==> forall|q: int| 0 <= q < i ==> (#[trigger] out@[q])@ != f@,
            decreases out@.len() - i,
        {
            if str_eq(out[i].as_str(), f.as_str()) {
                seen = true;
                assert(out@[i as int]@ == f@);
            }
            i = i + 1;
        }
        let ghost before = out@;
        if !seen {
            out.push(f.clone());
            proof {
                let n = out@.len() - 1;
                assert(out@[n]@ == f@);
                assert forall|m: int| 0 <= m < k implies listed(out@, (#[trigger] refs@[m]).file_path@) by {
                    assert(listed(before, refs@[m].file_path@));
                    let q = choose|q: int| 0 <= q < before.len() && (#[trigger] before[q])@ == refs@[m].file_path@;
                    assert(out@[q] == before[q]);
                }
                assert forall|q: int| 0 <= q < out@.len() implies referenced(refs@, (#[trigger] out@[q])@) by {
                    if q < before.len() {
                        assert(out@[q] == before[q]);
                        assert(referenced(refs@, before[q]@));
                    } else {
                        assert(refs@[k as int].file_path@ == out@[q]@);
                    }
                }
            }
        }
        proof {
            assert(listed(out@, refs@[k as int].file_path@)) by {
                if !seen {
                    assert(out@[out@.len() - 1]@ == f@);
                }
            }
        }
        k = k + 1;
    }
    out
}

/// The slice shown of `total` items: from `offset`, at most `head_limit`.
pub fn page_bounds(total: usize, offset: usize, head_limit: Option<usize>) -> (r: (usize, usize))
    ensures
        offset >= total ==> r.0 == total && r.1 == total,
        offset < total ==> r.0 == offset && r.1 as int == match head_limit {
            None => total as int,
            Some(l) => if offset + l < total { offset + l } else { total as int },
        },
        r.0 <= r.1 <= total,
{
    if offset >= total {
        (total, total)
    } else {
        match head_limit {
            None => (offset, total),
            Some(l) => if (offset as u128) + (l as u128) < (total as u128) { (offset, offset + l) } else { (offset, total) },
        }
    }
}

} // verus!
