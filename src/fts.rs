//! Preparing user text for the full-text index.
//!
//! Bare tokens that hold a character the index would read as an operator
//! (`- . / : * ^`) are quoted; quoted phrases and whitespace pass through.

use vstd::prelude::*;
use crate::text::{chars_of, string_of, is_whitespace, is_ws, join_exec, join_with, views};

verus! {

pub open spec fn is_operator_char(c: char) -> bool {
    c == '-' || c == '.' || c == '/' || c == ':' || c == '*' || c == '^'
}

/// A bare token must be quoted when it holds an operator character.
pub open spec fn needs_quoting(tok: Seq<char>) -> bool {
    exists|k: int| 0 <= k < tok.len() && is_operator_char(#[trigger] tok[k])
}

pub open spec fn quoted(tok: Seq<char>) -> Seq<char> {
    seq!['"'] + tok + seq!['"']
}

/// Index just past the first `"` at or after `i`, or the end of `s`.
pub open spec fn quote_end(s: Seq<char>, i: int) -> int
    decreases s.len() - i,
{
    if i >= s.len() {
        s.len() as int
    } else if s[i] == '"' {
        i + 1
    } else {
        quote_end(s, i + 1)
    }
}

/// Index of the first whitespace or `"` at or after `i`, or the end of `s`.
pub open spec fn token_end(s: Seq<char>, i: int) -> int
    decreases s.len() - i,
{
    if i >= s.len() {
        s.len() as int
    } else if is_ws(s[i]) || s[i] == '"' {
        i
    } else {
        token_end(s, i + 1)
    }
}

/// The sanitized form of `s` from position `p` on.
pub open spec fn sanitize_from(s: Seq<char>, p: int) -> Seq<char>
    decreases s.len() - p,
{
    if p < 0 || p >= s.len() {
        Seq::empty()
    } else if s[p] == '"' {
        let e = quote_end(s, p + 1);
        if p < e <= s.len() {
            s.subrange(p, e) + sanitize_from(s, e)
        } else {
            Seq::empty()
        }
    } else if is_ws(s[p]) {
        seq![s[p]] + sanitize_from(s, p + 1)
    } else {
        let e = token_end(s, p);
        if p < e <= s.len() {
            let tok = s.subrange(p, e);
            (if needs_quoting(tok) { quoted(tok) } else { tok }) + sanitize_from(s, e)
        } else {
            Seq::empty()
        }
    }
}

pub open spec fn sanitize(s: Seq<char>) -> Seq<char> {
    sanitize_from(s, 0)
}

proof fn lemma_quote_end_bounds(s: Seq<char>, i: int)
    requires
        0 <= i,
    ensures
        i <= s.len() ==> i <= quote_end(s, i) <= s.len(),
        i < s.len() ==> i < quote_end(s, i),
    decreases s.len() - i,
{
    if i < s.len() && s[i] != '"' {
        lemma_quote_end_bounds(s, i + 1);
    }
}

proof fn lemma_token_end_bounds(s: Seq<char>, i: int)
    requires
        0 <= i <= s.len(),
    ensures
        i <= token_end(s, i) <= s.len(),
    decreases s.len() - i,
{
    if i < s.len() && !(is_ws(s[i]) || s[i] == '"') {
        lemma_token_end_bounds(s, i + 1);
    }
}

fn push_all(out: &mut Vec<char>, src: &Vec<char>, from: usize, to: usize)
    requires
        from <= to <= src.len(),
    ensures
        final(out)@ == old(out)@ + src@.subrange(from as int, to as int),
{
    let mut i = from;
    while i < to
        invariant
            from <= i <= to <= src.len(),
            out@ == old(out)@ + src@.subrange(from as int, i as int),
        decreases to - i,
    {
        out.push(src[i]);
        proof {
            assert(src@.subrange(from as int, i + 1) =~= src@.subrange(from as int, i as int).push(src@[i as int]));
        }
        i = i + 1;
    }
}

/// Make user text safe to hand to the full-text index: whitespace and quoted
/// phrases pass through unchanged, and each bare token that holds one of
/// `- . / : * ^` is wrapped in double quotes.
pub fn sanitize_fts_query(input: &str) -> (r: String)
    ensures
        r@ == sanitize(input@),
{
    let s = chars_of(input);
    let n = s.len();
    let mut out: Vec<char> = Vec::new();
    let mut p: usize = 0;
    while p < n
        invariant
            n == s@.len(),
            s@ == input@,
            p <= n,
            sanitize(s@) == out@ + sanitize_from(s@, p as int),
        decreases n - p,
    {
        let c = s[p];
        if c == '"' {
            let mut j: usize = p + 1;
            proof { lemma_quote_end_bounds(s@, p + 1); }
            while j < n && s[j] != '"'
                invariant
                    p + 1 <= j <= n,
                    n == s@.len(),
                    quote_end(s@, j as int) == quote_end(s@, p + 1),
                decreases n - j,
            {
                j = j + 1;
            }
            let e: usize = if j < n { j + 1 } else { n };
            assert(e == quote_end(s@, p + 1));
            let ghost before = out@;
            push_all(&mut out, &s, p, e);
            proof {
                assert(before + sanitize_from(s@, p as int) =~= out@ + sanitize_from(s@, e as int));
            }
            p = e;
        } else if is_whitespace(c) {
            out.push(c);
            proof {
                assert(seq![c] + sanitize_from(s@, p + 1) == sanitize_from(s@, p as int));
            }
            p = p + 1;
        } else {
            let mut j: usize = p;
            let mut special = false;
            while j < n && !is_whitespace(s[j]) && s[j] != '"'
                invariant
                    p <= j <= n,
                    n == s@.len(),
                    token_end(s@, j as int) == token_end(s@, p as int),
                    special == exists|k: int| p <= k < j && is_operator_char(#[trigger] s@[k]),
                decreases n - j,
            {
                let d = s[j];
                if d == '-' || d == '.' || d == '/' || d == ':' || d == '*' || d == '^' {
                    special = true;
                }
                j = j + 1;
            }
            assert(j == token_end(s@, p as int));
            let ghost tok = s@.subrange(p as int, j as int);
            assert(special == needs_quoting(tok)) by {
                if special {
                    let k = choose|k: int| p <= k < j && is_operator_char(#[trigger] s@[k]);
                    assert(tok[k - p] == s@[k]);
                }
                if needs_quoting(tok) {
                    let k = choose|k: int| 0 <= k < tok.len() && is_operator_char(#[trigger] tok[k]);
                    assert(s@[k + p] == tok[k]);
                }
            }
            proof { lemma_token_end_bounds(s@, p as int); }
            let ghost before = out@;
            if special {
                out.push('"');
                push_all(&mut out, &s, p, j);
                out.push('"');
                proof {
                    assert(out@ =~= before + quoted(tok));
                }
            } else {
                push_all(&mut out, &s, p, j);
            }
            proof {
                assert(j > p);
                assert(before + sanitize_from(s@, p as int) =~= out@ + sanitize_from(s@, j as int));
            }
            p = j;
        }
    }
    string_of(&out)
}

/// Index of the first whitespace at or after `i`, or the end.
pub open spec fn word_end(s: Seq<char>, i: int) -> int
    decreases s.len() - i,
{
    if i < 0 || i >= s.len() {
        s.len() as int
    } else if is_ws(s[i]) {
        i
    } else {
        word_end(s, i + 1)
    }
}

/// The whitespace-separated words of `s` from position `p`, as
/// `str::split_whitespace` gives them.
pub open spec fn words_from(s: Seq<char>, p: int) -> Seq<Seq<char>>
    decreases s.len() - p,
{
    if p < 0 || p >= s.len() {
        Seq::empty()
    } else if is_ws(s[p]) {
        words_from(s, p + 1)
    } else {
        let e = word_end(s, p);
        if p < e <= s.len() {
            seq![s.subrange(p, e)] + words_from(s, e)
        } else {
            Seq::empty()
        }
    }
}

proof fn lemma_word_end(s: Seq<char>, i: int)
    requires
        0 <= i <= s.len(),
    ensures
        i <= word_end(s, i) <= s.len(),
    decreases s.len() - i,
{
    if i < s.len() && !is_ws(s[i]) {
        lemma_word_end(s, i + 1);
    }
}

/// The query retried when the first finds nothing: the words of `text`
/// joined by ` OR `, when there are at least two of them.
pub fn or_fallback_query(text: &str) -> (r: Option<String>)
    ensures
        words_from(text@, 0).len() > 1 ==> r is Some && r->0@ == join_with(words_from(text@, 0), " OR "@),
        words_from(text@, 0).len() <= 1 ==> r is None,
{
    let s = chars_of(text);
    let n = s.len();
    let mut words: Vec<Vec<char>> = Vec::new();
    let mut p: usize = 0;
    while p < n
        invariant
            p <= n == s@.len(),
            s@ == text@,
            views(words@) + words_from(s@, p as int) == words_from(s@, 0),
        decreases n - p,
    {
        if is_whitespace(s[p]) {
            p = p + 1;
        } else {
            let mut e = p;
            proof { lemma_word_end(s@, p as int); }
            while e < n && !is_whitespace(s[e])
                invariant
                    p <= e <= n == s@.len(),
                    word_end(s@, e as int) == word_end(s@, p as int),
                decreases n - e,
            {
                e = e + 1;
            }
            let mut w: Vec<char> = Vec::new();
            let mut k = p;
            while k < e
                invariant
                    p <= k <= e <= n == s@.len(),
                    w@ == s@.subrange(p as int, k as int),
                decreases e - k,
            {
                w.push(s[k]);
                assert(s@.subrange(p as int, k + 1) =~= s@.subrange(p as int, k as int).push(s@[k as int]));
                k = k + 1;
            }
            let ghost before = views(words@);
            words.push(w);
            assert(views(words@) =~= before.push(s@.subrange(p as int, e as int)));
            assert(e > p);
            p = e;
        }
    }
    assert(views(words@) =~= words_from(s@, 0));
    if words.len() > 1 {
        Some(string_of(&join_exec(&words, " OR ")))
    } else {
        None
    }
}

} // verus!
