//! Presentation of search results in the four output modes: `count`,
//! `files_with_matches`, `signatures` and full `content`.

use vstd::prelude::*;
use crate::records::{Annotation, SearchResult};
use crate::syntax::{first_line, head_lines, join_lines, line_views, lines_exec, lines_of};
use crate::text::{chars_of, decimal_of, push_chars, push_str, str_eq, string_of};
use crate::views::{matching_notes, notes_for};

verus! {

/// How a page of results is chosen and shown.
pub struct FormatOpts {
    pub output_mode: String,
    pub offset: usize,
    pub head_limit: Option<usize>,
    pub max_lines: Option<usize>,
    pub annotations: Vec<Annotation>,
}

/// Right-aligned in a field of six characters.
pub open spec fn pad6(s: Seq<char>) -> Seq<char> {
    if s.len() < 6 {
        Seq::new((6 - s.len()) as nat, |i: int| ' ') + s
    } else {
        s
    }
}

/// The shown slice of `total` results: from `offset`, at most `head_limit`.
pub open spec fn page_end(total: int, offset: int, head_limit: Option<usize>) -> int {
    match head_limit {
        None => total,
        Some(l) => if offset + l < total { offset + l } else { total },
    }
}

pub open spec fn header(total: int, offset: int, head_limit: Option<usize>, shown: int) -> Seq<char> {
    decimal_of(total as nat) + " result(s)"@ + (if offset > 0 || head_limit is Some {
        " (showing "@ + decimal_of((offset + 1) as nat) + "-"@ + decimal_of((offset + shown) as nat) + ")"@
    } else {
        Seq::empty()
    }) + "\n"@
}

pub open spec fn name_of(r: SearchResult) -> Seq<char> {
    match r.chunk_name {
        Some(n) => n@,
        None => Seq::empty(),
    }
}

pub open spec fn flatten(parts: Seq<Seq<char>>) -> Seq<char>
    decreases parts.len(),
{
    if parts.len() == 0 {
        Seq::empty()
    } else {
        flatten(parts.drop_last()) + parts.last()
    }
}

pub open spec fn note_lines(notes: Seq<Seq<char>>) -> Seq<char>
    decreases notes.len(),
{
    if notes.len() == 0 {
        Seq::empty()
    } else {
        note_lines(notes.drop_last()) + "  [note] "@ + notes.last() + "\n"@
    }
}

pub open spec fn file_entry(r: SearchResult) -> Seq<char> {
    r.file_path@ + ":"@ + decimal_of(r.start_line as nat) + ":"@ + decimal_of(r.end_line as nat)
        + " ["@ + r.chunk_kind@ + "] "@ + name_of(r) + "\n"@
}

pub open spec fn signature_line(r: SearchResult) -> Seq<char> {
    match r.signature {
        Some(s) => s@,
        None => match first_line(r.content@) {
            Some(l) => l,
            None => Seq::empty(),
        },
    }
}

pub open spec fn signature_entry(r: SearchResult, anns: Seq<Annotation>) -> Seq<char> {
    r.file_path@ + ":"@ + decimal_of(r.start_line as nat) + " ["@ + r.chunk_kind@ + "] "@
        + signature_line(r) + "\n"@ + note_lines(notes_for(r, anns))
}

/// Lines `0..k` of a chunk's content, numbered from its start line.
pub open spec fn numbered(r: SearchResult, k: int) -> Seq<char>
    decreases k,
{
    if k <= 0 {
        Seq::empty()
    } else {
        numbered(r, k - 1) + pad6(decimal_of((r.start_line + k - 1) as nat)) + "|"@ + lines_of(
            r.content@,
        )[k - 1] + "\n"@
    }
}

pub open spec fn entry_heading(r: SearchResult, index: int) -> Seq<char> {
    let name = name_of(r);
    "\n\u{2500}\u{2500} ["@ + decimal_of(index as nat) + "] "@ + r.file_path@ + ":"@ + decimal_of(r.start_line as nat) + "-"@
        + decimal_of(r.end_line as nat) + " ["@ + r.chunk_kind@ + (if name.len() == 0 {
        Seq::empty()
    } else {
        " ("@ + name + ")"@
    }) + "] \u{2500}\u{2500}\n"@
}

/// The numbered content lines, at most `max_lines`, and how many were left out.
pub open spec fn body_lines(r: SearchResult, max_lines: Option<usize>) -> Seq<char> {
    let n = lines_of(r.content@).len() as int;
    let limit = match max_lines {
        Some(m) => m as int,
        None => n,
    };
    let shown = if limit < n { limit } else { n };
    numbered(r, shown) + (if shown < n {
        "  ... ("@ + decimal_of((n - shown) as nat) + " more lines)\n"@
    } else {
        Seq::empty()
    })
}

pub open spec fn content_entry(r: SearchResult, index: int, max_lines: Option<usize>, anns: Seq<Annotation>) -> Seq<char> {
    entry_heading(r, index) + note_lines(notes_for(r, anns)) + body_lines(r, max_lines)
}

/// The entries of results `lo..hi` in a mode (1 files, 2 signatures, 3 content).
pub open spec fn entries(rs: Seq<SearchResult>, lo: int, hi: int, mode: int, opts_max: Option<usize>, anns: Seq<Annotation>) -> Seq<char>
    decreases hi - lo,
{
    if hi <= lo {
        Seq::empty()
    } else {
        entries(rs, lo, hi - 1, mode, opts_max, anns) + (if mode == 1 {
            file_entry(rs[hi - 1])
        } else if mode == 2 {
            signature_entry(rs[hi - 1], anns)
        } else {
            content_entry(rs[hi - 1], hi - 1, opts_max, anns)
        })
    }
}

pub open spec fn mode_of(m: Seq<char>) -> int {
    if m == "files_with_matches"@ {
        1
    } else if m == "signatures"@ {
        2
    } else if m == "count"@ {
        0
    } else {
        3
    }
}

/// The text shown for a list of results.
pub open spec fn formatted(rs: Seq<SearchResult>, opts: FormatOpts) -> Seq<char> {
    let total = rs.len() as int;
    let offset = opts.offset as int;
    let lo = if offset >= total { total } else { offset };
    let hi = if offset >= total { total } else { page_end(total, offset, opts.head_limit) };
    let mode = mode_of(opts.output_mode@);
    if mode == 0 {
        decimal_of(total as nat) + " result(s)"@
    } else {
        header(total, offset, opts.head_limit, hi - lo) + entries(rs, lo, hi, mode, opts.max_lines, opts.annotations@)
    }
}

/// Append `n` in decimal.
fn push_number(out: &mut Vec<char>, n: u128)
    ensures
        final(out)@ == old(out)@ + decimal_of(n as nat),
    decreases n,
{
    if n < 10 {
        let c = if n == 0 { '0' } else if n == 1 { '1' } else if n == 2 { '2' } else if n == 3 { '3' }
            else if n == 4 { '4' } else if n == 5 { '5' } else if n == 6 { '6' } else if n == 7 { '7' }
            else if n == 8 { '8' } else { '9' };
        out.push(c);
    } else {
        push_number(out, n / 10);
        let d = n % 10;
        let c = if d == 0 { '0' } else if d == 1 { '1' } else if d == 2 { '2' } else if d == 3 { '3' }
            else if d == 4 { '4' } else if d == 5 { '5' } else if d == 6 { '6' } else if d == 7 { '7' }
            else if d == 8 { '8' } else { '9' };
        out.push(c);
        assert(final(out)@ =~= old(out)@ + decimal_of(n as nat));
    }
}

fn push_padded(out: &mut Vec<char>, n: u128)
    ensures
        final(out)@ == old(out)@ + pad6(decimal_of(n as nat)),
{
    let mut digits: Vec<char> = Vec::new();
    push_number(&mut digits, n);
    assert(digits@ =~= decimal_of(n as nat));
    let ghost start = out@;
    if digits.len() < 6 {
        let pad = 6 - digits.len();
        let mut i: usize = 0;
        while i < pad
            invariant
                i <= pad,
                out@ == start + Seq::new(i as nat, |k: int| ' '),
            decreases pad - i,
        {
            out.push(' ');
            assert(start + Seq::new((i + 1) as nat, |k: int| ' ') =~= (start + Seq::new(i as nat, |k: int| ' ')).push(' '));
            i = i + 1;
        }
    }
    push_chars(out, &digits);
}

fn push_notes(out: &mut Vec<char>, notes: &Vec<String>)
    ensures
        final(out)@ == old(out)@ + note_lines(notes@.map_values(|n: String| n@)),
{
    let mut i: usize = 0;
    let ghost start = out@;
    while i < notes.len()
        invariant
            i <= notes@.len(),
            out@ == start + note_lines(notes@.map_values(|n: String| n@).take(i as int)),
        decreases notes@.len() - i,
    {
        push_str(out, "  [note] ");
        push_str(out, notes[i].as_str());
        push_str(out, "\n");
        proof {
            let t = notes@.map_values(|n: String| n@).take(i + 1);
            assert(t.drop_last() =~= notes@.map_values(|n: String| n@).take(i as int));
            assert(t.last() == notes@[i as int]@);
        }
        i = i + 1;
    }
    assert(notes@.map_values(|n: String| n@).take(notes@.len() as int) =~= notes@.map_values(|n: String| n@));
}

fn push_file_entry(out: &mut Vec<char>, r: &SearchResult)
    requires
        r.start_line >= 0,
        r.end_line >= 0,
    ensures
        final(out)@ == old(out)@ + file_entry(*r),
{
    let ghost start = out@;
    push_str(out, r.file_path.as_str());
    push_str(out, ":");
    push_number(out, r.start_line as u128);
    push_str(out, ":");
    push_number(out, r.end_line as u128);
    push_str(out, " [");
    push_str(out, r.chunk_kind.as_str());
    push_str(out, "] ");
    match &r.chunk_name {
        Some(n) => push_str(out, n.as_str()),
        None => {},
    }
    push_str(out, "\n");
    assert(out@ =~= start + file_entry(*r));
}

fn push_signature_entry(out: &mut Vec<char>, r: &SearchResult, anns: &Vec<Annotation>)
    requires
        r.start_line >= 0,
    ensures
        final(out)@ == old(out)@ + signature_entry(*r, anns@),
{
    let ghost start = out@;
    push_str(out, r.file_path.as_str());
    push_str(out, ":");
    push_number(out, r.start_line as u128);
    push_str(out, " [");
    push_str(out, r.chunk_kind.as_str());
    push_str(out, "] ");
    let ghost before_sig = out@;
    match &r.signature {
        Some(s) => push_str(out, s.as_str()),
        None => {
            let (l, cnt) = head_lines(&chars_of(r.content.as_str()), 1);
            proof {
                if cnt > 0 {
                    let ls = lines_of(r.content@);
                    assert(ls.take(1).len() == 1);
                    assert(join_lines(ls.take(1)) == ls.take(1)[0]);
                }
            }
            if cnt > 0 {
                push_chars(out, &l);
            } else {
                assert(out@ =~= before_sig + signature_line(*r));
            }
        },
    }
    assert(out@ =~= before_sig + signature_line(*r));
    push_str(out, "\n");
    let notes = matching_notes(r, anns);
    push_notes(out, &notes);
    assert(out@ =~= start + signature_entry(*r, anns@));
}

fn push_heading(out: &mut Vec<char>, r: &SearchResult, index: usize)
    requires
        r.start_line >= 0,
        r.end_line >= 0,
    ensures
        final(out)@ == old(out)@ + entry_heading(*r, index as int),
{
    let ghost start = out@;
    push_str(out, "\n\u{2500}\u{2500} [");
    push_number(out, index as u128);
    push_str(out, "] ");
    push_str(out, r.file_path.as_str());
    push_str(out, ":");
    push_number(out, r.start_line as u128);
    push_str(out, "-");
    push_number(out, r.end_line as u128);
    push_str(out, " [");
    push_str(out, r.chunk_kind.as_str());
    match &r.chunk_name {
        Some(n) => {
            if !n.as_str().is_empty() {
                push_str(out, " (");
                push_str(out, n.as_str());
                push_str(out, ")");
            }
        },
        None => {},
    }
    push_str(out, "] \u{2500}\u{2500}\n");
    assert(out@ =~= start + entry_heading(*r, index as int));
}

fn push_body(out: &mut Vec<char>, r: &SearchResult, max_lines: Option<usize>)
    requires
        r.start_line >= 0,
    ensures
        final(out)@ == old(out)@ + body_lines(*r, max_lines),
{
    let ghost start = out@;
    let lines = lines_exec(&chars_of(r.content.as_str()));
    let n = lines.len();
    let limit = match max_lines {
        Some(m) => m,
        None => n,
    };
    let shown = if limit < n { limit } else { n };
    let mut j: usize = 0;
    while j < shown
        invariant
            j <= shown <= n == lines@.len(),
            line_views(lines@) == lines_of(r.content@),
            r.start_line >= 0,
            out@ == start + numbered(*r, j as int),
        decreases shown - j,
    {
        push_padded(out, r.start_line as u128 + j as u128);
        push_str(out, "|");
        push_chars(out, &lines[j]);
        push_str(out, "\n");
        assert(lines@[j as int]@ == lines_of(r.content@)[j as int]);
        j = j + 1;
    }
    let ghost mid = out@;
    if shown < n {
        push_str(out, "  ... (");
        push_number(out, (n - shown) as u128);
        push_str(out, " more lines)\n");
    }
    assert(lines_of(r.content@).len() == n);
    assert(out@ =~= start + body_lines(*r, max_lines));
}

fn push_content_entry(out: &mut Vec<char>, r: &SearchResult, index: usize, max_lines: Option<usize>, anns: &Vec<Annotation>)
    requires
        r.start_line >= 0,
        r.end_line >= 0,
    ensures
        final(out)@ == old(out)@ + content_entry(*r, index as int, max_lines, anns@),
{
    let ghost start = out@;
    push_heading(out, r, index);
    let notes = matching_notes(r, anns);
    push_notes(out, &notes);
    push_body(out, r, max_lines);
    assert(out@ =~= start + content_entry(*r, index as int, max_lines, anns@));
}

/// The text shown for `results`: a count alone in `count` mode; otherwise a
/// header with the total (and the range shown, when paging) and one entry per
/// result of the page `offset..offset + head_limit`.
#[verifier::rlimit(50)]
pub fn format_results(results: &Vec<SearchResult>, opts: &FormatOpts) -> (r: String)
    requires
        forall|i: int| 0 <= i < results@.len() ==> (#[trigger] results@[i]).start_line >= 0
            && results@[i].end_line >= 0,
    ensures
        r@ == formatted(results@, *opts),
{
    let total = results.len();
    let offset = opts.offset;
    let lo: usize = if offset >= total { total } else { offset };
    let hi: usize = if offset >= total {
        total
    } else {
        match opts.head_limit {
            None => total,
            Some(l) => if (offset as u128) + (l as u128) < (total as u128) { offset + l } else { total },
        }
    };
    let mode: u8 = if str_eq(opts.output_mode.as_str(), "files_with_matches") {
        1
    } else if str_eq(opts.output_mode.as_str(), "signatures") {
        2
    } else if str_eq(opts.output_mode.as_str(), "count") {
        0
    } else {
        3
    };
    let mut out: Vec<char> = Vec::new();
    push_number(&mut out, total as u128);
    push_str(&mut out, " result(s)");
    if mode == 0 {
        return string_of(&out);
    }
    if offset > 0 || opts.head_limit.is_some() {
        push_str(&mut out, " (showing ");
        push_number(&mut out, offset as u128 + 1);
        push_str(&mut out, "-");
        push_number(&mut out, offset as u128 + (hi - lo) as u128);
        push_str(&mut out, ")");
    }
    push_str(&mut out, "\n");
    let ghost head = out@;
    assert(head =~= header(total as int, offset as int, opts.head_limit, hi - lo));
    let mut i = lo;
    while i < hi
        invariant
            lo <= i <= hi <= results@.len(),
            1 <= mode <= 3,
            forall|k: int| 0 <= k < results@.len() ==> (#[trigger] results@[k]).start_line >= 0
                && results@[k].end_line >= 0,
            out@ == head + entries(results@, lo as int, i as int, mode as int, opts.max_lines, opts.annotations@),
        decreases hi - i,
    {
        let ghost before = out@;
        if mode == 1 {
            push_file_entry(&mut out, &results[i]);
        } else if mode == 2 {
            push_signature_entry(&mut out, &results[i], &opts.annotations);
        } else {
            push_content_entry(&mut out, &results[i], i, opts.max_lines, &opts.annotations);
        }
        assert(out@ =~= head + entries(results@, lo as int, i + 1, mode as int, opts.max_lines, opts.annotations@));
        i = i + 1;
    }
    string_of(&out)
}

} // verus!
