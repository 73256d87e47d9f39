//! Commit messages and changelogs drawn from a structural diff.

use vstd::prelude::*;
use crate::diff::{BranchDiff, DiffSummary, FileDiff, FileStatus, SymbolChange};
use crate::text::{
    chars_of, decimal_of, join_exec, join_with, push_chars, push_decimal, push_str, str_eq,
    string_of, views,
};

verus! {

/// A symbol worth naming in a summary: named, and not an import.
pub open spec fn notable_symbol(c: SymbolChange) -> bool {
    c.kind@ != "import"@ && c.name@.len() > 0
}

pub open spec fn notable_in(cs: Seq<SymbolChange>) -> Seq<Seq<char>>
    decreases cs.len(),
{
    if cs.len() == 0 {
        Seq::empty()
    } else {
        notable_in(cs.drop_last()) + (if notable_symbol(cs.last()) {
            seq![cs.last().name@]
        } else {
            Seq::empty()
        })
    }
}

/// Notable names among the added (`added`) or else the modified symbols.
pub open spec fn notable_of(files: Seq<FileDiff>, added: bool) -> Seq<Seq<char>>
    decreases files.len(),
{
    if files.len() == 0 {
        Seq::empty()
    } else {
        notable_of(files.drop_last(), added) + notable_in(
            if added {
                files.last().added@
            } else {
                files.last().modified@
            },
        )
    }
}

/// Up to three notable names: of added symbols, else of modified ones.
pub open spec fn notable_names(files: Seq<FileDiff>) -> Seq<Seq<char>> {
    let a = notable_of(files, true);
    let n = if a.len() > 0 { a } else { notable_of(files, false) };
    if n.len() > 3 { n.take(3) } else { n }
}

pub open spec fn primary_verb(s: DiffSummary) -> Seq<char> {
    if s.symbols_added > 0 || s.files_added > 0 {
        "Add"@
    } else if s.symbols_modified > 0 {
        "Update"@
    } else if s.symbols_removed > 0 || s.files_deleted > 0 {
        "Remove"@
    } else {
        "Update"@
    }
}

/// `p` split at each `/`.
pub open spec fn segments(p: Seq<char>) -> Seq<Seq<char>>
    decreases p.len(),
{
    let e = slash_end(p, 0);
    if 0 <= e < p.len() {
        seq![p.take(e)] + segments(p.skip(e + 1))
    } else {
        seq![p]
    }
}

pub open spec fn slash_end(t: Seq<char>, i: int) -> int
    decreases t.len() - i,
{
    if i < 0 || i >= t.len() {
        t.len() as int
    } else if t[i] == '/' {
        i
    } else {
        slash_end(t, i + 1)
    }
}

/// Whether every file's path has `seg` as its segment `i`.
pub open spec fn all_share(files: Seq<FileDiff>, i: int, seg: Seq<char>) -> bool {
    forall|f: int|
        0 <= f < files.len() ==> i < segments(#[trigger] files[f].path@).len() && segments(
            files[f].path@,
        )[i] == seg
}

/// How many leading segments of the first path all paths share, from `i` on.
pub open spec fn shared_from(files: Seq<FileDiff>, first: Seq<Seq<char>>, i: int) -> int
    decreases first.len() - i,
{
    if i < 0 || i >= first.len() || !all_share(files, i, first[i]) {
        i
    } else {
        shared_from(files, first, i + 1)
    }
}

/// The directory that all changed paths share: the path itself for one
/// file, the common leading segments for several, none when they share
/// nothing.
pub open spec fn top_level_scope(files: Seq<FileDiff>) -> Option<Seq<char>> {
    if files.len() == 0 {
        None
    } else if files.len() == 1 {
        Some(files[0].path@)
    } else {
        let first = segments(files[0].path@);
        let k = shared_from(files, first, 0);
        if k <= 0 {
            None
        } else {
            Some(join_with(first.take(k), "/"@))
        }
    }
}

pub open spec fn with_scope(s: Seq<char>, scope: Option<Seq<char>>) -> Seq<char> {
    match scope {
        Some(sc) => s + " in "@ + sc,
        None => s,
    }
}

/// The first line of a commit message.
pub open spec fn summary_line(d: BranchDiff) -> Seq<char> {
    let verb = primary_verb(d.summary);
    let names = notable_names(d.files@);
    let scope = top_level_scope(d.files@);
    if names.len() > 0 {
        with_scope(verb + " "@ + join_with(names, ", "@), scope)
    } else {
        with_scope(verb + " "@ + decimal_of(d.files@.len()) + " file(s)"@, scope)
    }
}

pub open spec fn status_mark(s: FileStatus) -> Seq<char> {
    match s {
        FileStatus::Added => "+"@,
        FileStatus::Modified => "~"@,
        FileStatus::Deleted => "-"@,
    }
}

pub open spec fn symbol_lines(cs: Seq<SymbolChange>, mark: Seq<char>) -> Seq<Seq<char>>
    decreases cs.len(),
{
    if cs.len() == 0 {
        Seq::empty()
    } else {
        symbol_lines(cs.drop_last(), mark) + seq![
            "  "@ + mark + " "@ + cs.last().kind@ + " "@ + cs.last().name@,
        ]
    }
}

pub open spec fn has_symbols(f: FileDiff) -> bool {
    f.added@.len() > 0 || f.modified@.len() > 0 || f.removed@.len() > 0
}

pub open spec fn file_lines(f: FileDiff) -> Seq<Seq<char>> {
    if has_symbols(f) {
        seq!["["@ + status_mark(f.status) + "] "@ + f.path@] + symbol_lines(f.added@, "+"@)
            + symbol_lines(f.modified@, "~"@) + symbol_lines(f.removed@, "-"@)
    } else {
        Seq::empty()
    }
}

pub open spec fn detail_lines(files: Seq<FileDiff>) -> Seq<Seq<char>>
    decreases files.len(),
{
    if files.len() == 0 {
        Seq::empty()
    } else {
        detail_lines(files.drop_last()) + file_lines(files.last())
    }
}

/// A commit message: the summary line, then the per-file symbol changes
/// after a blank line when there are any.
pub open spec fn commit_message(d: BranchDiff) -> Seq<char> {
    if d.files@.len() == 0 {
        "No changes to commit"@
    } else {
        let details = join_with(detail_lines(d.files@), "\n"@);
        if details.len() > 0 {
            summary_line(d) + "\n\n"@ + details
        } else {
            summary_line(d)
        }
    }
}

fn notable_symbol_exec(c: &SymbolChange) -> (r: bool)
    ensures
        r == notable_symbol(*c),
{
    !str_eq(c.kind.as_str(), "import") && !c.name.as_str().is_empty()
}

fn push_notable(out: &mut Vec<Vec<char>>, cs: &Vec<SymbolChange>)
    ensures
        views(final(out)@) == views(old(out)@) + notable_in(cs@),
{
    let mut i: usize = 0;
    while i < cs.len()
        invariant
            i <= cs@.len(),
            views(out@) == views(old(out)@) + notable_in(cs@.take(i as int)),
        decreases cs@.len() - i,
    {
        let ghost before = out@;
        if notable_symbol_exec(&cs[i]) {
            out.push(chars_of(cs[i].name.as_str()));
        }
        proof {
            let t = cs@.take(i + 1);
            assert(t.drop_last() =~= cs@.take(i as int));
            assert(t.last() == cs@[i as int]);
            if notable_symbol(cs@[i as int]) {
                assert(views(out@) =~= views(before).push(cs@[i as int].name@));
            } else {
                assert(views(out@) =~= views(before));
            }
        }
        i = i + 1;
    }
    assert(cs@.take(cs@.len() as int) =~= cs@);
}

fn notable_exec(files: &Vec<FileDiff>, added: bool) -> (r: Vec<Vec<char>>)
    ensures
        views(r@) == notable_of(files@, added),
{
    let mut out: Vec<Vec<char>> = Vec::new();
    let mut i: usize = 0;
    while i < files.len()
        invariant
            i <= files@.len(),
            views(out@) == notable_of(files@.take(i as int), added),
        decreases files@.len() - i,
    {
        if added {
            push_notable(&mut out, &files[i].added);
        } else {
            push_notable(&mut out, &files[i].modified);
        }
        proof {
            let t = files@.take(i + 1);
            assert(t.drop_last() =~= files@.take(i as int));
            assert(t.last() == files@[i as int]);
        }
        i = i + 1;
    }
    assert(files@.take(files@.len() as int) =~= files@);
    out
}

proof fn lemma_slash_end(t: Seq<char>, i: int)
    requires
        0 <= i <= t.len(),
    ensures
        i <= slash_end(t, i) <= t.len(),
    decreases t.len() - i,
{
    if i < t.len() && t[i] != '/' {
        lemma_slash_end(t, i + 1);
    }
}

proof fn lemma_slash_end_shift(t: Seq<char>, p: int, i: int)
    requires
        0 <= p <= i <= t.len(),
    ensures
        slash_end(t.skip(p), i - p) == slash_end(t, i) - p,
    decreases t.len() - i,
{
    if i < t.len() && t[i] != '/' {
        lemma_slash_end_shift(t, p, i + 1);
    }
}

fn segments_exec(path: &str) -> (r: Vec<Vec<char>>)
    ensures
        views(r@) == segments(path@),
{
    let t = chars_of(path);
    let mut out: Vec<Vec<char>> = Vec::new();
    let mut p: usize = 0;
    let n = t.len();
    assert(t@.skip(0) =~= t@);
    loop
        invariant
            p <= n == t@.len(),
            t@ == path@,
            segments(path@) =~= views(out@) + segments(t@.skip(p as int)),
        decreases n - p,
    {
        let mut e = p;
        proof {
            lemma_slash_end(t@, p as int);
            lemma_slash_end_shift(t@, p as int, p as int);
        }
        while e < n && t[e] != '/'
            invariant
                p <= e <= n == t@.len(),
                slash_end(t@, e as int) == slash_end(t@, p as int),
            decreases n - e,
        {
            e = e + 1;
        }
        let mut piece: Vec<char> = Vec::new();
        let mut k = p;
        while k < e
            invariant
                p <= k <= e <= n == t@.len(),
                piece@ == t@.subrange(p as int, k as int),
            decreases e - k,
        {
            piece.push(t[k]);
            assert(t@.subrange(p as int, k + 1) =~= t@.subrange(p as int, k as int).push(t@[k as int]));
            k = k + 1;
        }
        let ghost rest = t@.skip(p as int);
        let ghost before = out@;
        proof {
            assert(rest.take(e - p) =~= piece@);
        }
        out.push(piece);
        if e < n {
            proof {
                assert(rest.skip(e - p + 1) =~= t@.skip(e + 1));
                assert(segments(rest) =~= seq![rest.take(e - p)] + segments(t@.skip(e + 1)));
                assert(views(out@) =~= views(before).push(rest.take(e - p)));
            }
            p = e + 1;
        } else {
            proof {
                assert(rest =~= piece@);
                assert(segments(rest) =~= seq![rest]);
                assert(views(out@) =~= views(before).push(rest));
            }
            return out;
        }
    }
}

fn scope_exec(files: &Vec<FileDiff>) -> (r: Option<Vec<char>>)
    ensures
        match r {
            Some(v) => top_level_scope(files@) == Some(v@),
            None => top_level_scope(files@) is None,
        },
{
    if files.len() == 0 {
        return None;
    }
    if files.len() == 1 {
        return Some(chars_of(files[0].path.as_str()));
    }
    let first = segments_exec(files[0].path.as_str());
    let ghost fv = views(first@);
    let mut k: usize = 0;
    loop
        invariant
            k <= first@.len(),
            fv == views(first@),
            fv == segments(files@[0].path@),
            shared_from(files@, fv, k as int) == shared_from(files@, fv, 0),
        ensures
            k <= first@.len(),
            fv == views(first@),
            shared_from(files@, fv, 0) == k,
        decreases first@.len() - k,
    {
        if k >= first.len() {
            break;
        }
        let mut f: usize = 0;
        let mut all = true;
        while f < files.len()
            invariant
                f <= files@.len(),
                k < first@.len(),
                fv == views(first@),
                all == (forall|g: int|
                    0 <= g < f ==> k < segments(#[trigger] files@[g].path@).len() && segments(
                        files@[g].path@,
                    )[k as int] == fv[k as int]),
            decreases files@.len() - f,
        {
            let segs = segments_exec(files[f].path.as_str());
            let ok = k < segs.len() && crate::text::chars_eq(&segs[k], &first[k]);
            proof {
                if k < segs@.len() {
                    assert(views(segs@)[k as int] == segs@[k as int]@);
                }
                assert(fv[k as int] == first@[k as int]@);
            }
            all = all && ok;
            f = f + 1;
        }
        assert(all == all_share(files@, k as int, fv[k as int]));
        if !all {
            break;
        }
        k = k + 1;
    }
    if k == 0 {
        None
    } else {
        let mut parts: Vec<Vec<char>> = Vec::new();
        let mut i: usize = 0;
        while i < k
            invariant
                i <= k <= first@.len(),
                fv == views(first@),
                views(parts@) == fv.take(i as int),
            decreases k - i,
        {
            let mut copy: Vec<char> = Vec::new();
            push_chars(&mut copy, &first[i]);
            assert(copy@ == fv[i as int]);
            let ghost pv = views(parts@);
            parts.push(copy);
            assert(views(parts@) =~= pv.push(fv[i as int]));
            assert(views(parts@) =~= fv.take(i + 1));
            i = i + 1;
        }
        Some(join_exec(&parts, "/"))
    }
}

fn push_symbol_lines(out: &mut Vec<Vec<char>>, cs: &Vec<SymbolChange>, mark: &str)
    ensures
        views(final(out)@) == views(old(out)@) + symbol_lines(cs@, mark@),
{
    let mut i: usize = 0;
    while i < cs.len()
        invariant
            i <= cs@.len(),
            views(out@) == views(old(out)@) + symbol_lines(cs@.take(i as int), mark@),
        decreases cs@.len() - i,
    {
        let ghost before = out@;
        let mut line: Vec<char> = Vec::new();
        push_str(&mut line, "  ");
        push_str(&mut line, mark);
        push_str(&mut line, " ");
        push_str(&mut line, cs[i].kind.as_str());
        push_str(&mut line, " ");
        push_str(&mut line, cs[i].name.as_str());
        out.push(line);
        proof {
            let t = cs@.take(i + 1);
            assert(t.drop_last() =~= cs@.take(i as int));
            assert(t.last() == cs@[i as int]);
            assert(views(out@) =~= views(before).push(line@));
        }
        i = i + 1;
    }
    assert(cs@.take(cs@.len() as int) =~= cs@);
}

fn status_mark_exec(s: FileStatus) -> (r: &'static str)
    ensures
        r@ == status_mark(s),
{
    match s {
        FileStatus::Added => "+",
        FileStatus::Modified => "~",
        FileStatus::Deleted => "-",
    }
}

fn detail_exec(files: &Vec<FileDiff>) -> (r: Vec<Vec<char>>)
    ensures
        views(r@) == detail_lines(files@),
{
    let mut out: Vec<Vec<char>> = Vec::new();
    let mut i: usize = 0;
    while i < files.len()
        invariant
            i <= files@.len(),
            views(out@) == detail_lines(files@.take(i as int)),
        decreases files@.len() - i,
    {
        let f = &files[i];
        let ghost before = views(out@);
        if f.added.len() > 0 || f.modified.len() > 0 || f.removed.len() > 0 {
            let mut head: Vec<char> = Vec::new();
            push_str(&mut head, "[");
            push_str(&mut head, status_mark_exec(f.status));
            push_str(&mut head, "] ");
            push_str(&mut head, f.path.as_str());
            out.push(head);
            let ghost h = views(out@);
            assert(h =~= before + seq![head@]);
            push_symbol_lines(&mut out, &f.added, "+");
            push_symbol_lines(&mut out, &f.modified, "~");
            push_symbol_lines(&mut out, &f.removed, "-");
            assert(views(out@) =~= before + file_lines(*f));
        } else {
            assert(views(out@) =~= before + file_lines(*f));
        }
        proof {
            let t = files@.take(i + 1);
            assert(t.drop_last() =~= files@.take(i as int));
            assert(t.last() == files@[i as int]);
        }
        i = i + 1;
    }
    assert(files@.take(files@.len() as int) =~= files@);
    out
}

fn summary_exec(d: &BranchDiff) -> (r: Vec<char>)
    ensures
        r@ == summary_line(*d),
{
    let s = &d.summary;
    let verb = if s.symbols_added > 0 || s.files_added > 0 {
        "Add"
    } else if s.symbols_modified > 0 {
        "Update"
    } else if s.symbols_removed > 0 || s.files_deleted > 0 {
        "Remove"
    } else {
        "Update"
    };
    let a = notable_exec(&d.files, true);
    let mut names = if a.len() > 0 { a } else { notable_exec(&d.files, false) };
    let ghost all_names = views(names@);
    if names.len() > 3 {
        names.truncate(3);
        assert(views(names@) =~= all_names.take(3));
    }
    assert(views(names@) == notable_names(d.files@));
    let scope = scope_exec(&d.files);
    let mut out: Vec<char> = Vec::new();
    push_str(&mut out, verb);
    push_str(&mut out, " ");
    if names.len() > 0 {
        let joined = join_exec(&names, ", ");
        push_chars(&mut out, &joined);
    } else {
        push_decimal(&mut out, d.files.len());
        push_str(&mut out, " file(s)");
    }
    match scope {
        Some(sc) => {
            push_str(&mut out, " in ");
            push_chars(&mut out, &sc);
        },
        None => {},
    }
    out
}

/// A commit message for a diff: "No changes to commit" when no file
/// changed; otherwise a summary line naming the main verb, up to three
/// notable symbols (or the file count) and the shared directory, followed
/// by the per-file symbol changes.
pub fn draft_commit_message(diff: &BranchDiff) -> (r: String)
    ensures
        r@ == commit_message(*diff),
{
    if diff.files.len() == 0 {
        return "No changes to commit".to_owned();
    }
    let mut out = summary_exec(diff);
    let lines = detail_exec(&diff.files);
    let details = join_exec(&lines, "\n");
    if details.len() > 0 {
        push_str(&mut out, "\n\n");
        push_chars(&mut out, &details);
    }
    string_of(&out)
}

/// The characters of all parts, in order.
pub open spec fn flatten(parts: Seq<Seq<char>>) -> Seq<char>
    decreases parts.len(),
{
    if parts.len() == 0 {
        Seq::empty()
    } else {
        flatten(parts.drop_last()) + parts.last()
    }
}

pub open spec fn is_import(c: SymbolChange) -> bool {
    c.kind@ == "import"@
}

/// One changelog entry per symbol of `cs` that is (`imports`) or is not an import.
pub open spec fn symbol_entries(cs: Seq<SymbolChange>, path: Seq<char>, imports: bool) -> Seq<Seq<char>>
    decreases cs.len(),
{
    if cs.len() == 0 {
        Seq::empty()
    } else {
        let c = cs.last();
        symbol_entries(cs.drop_last(), path, imports) + (if is_import(c) == imports {
            if imports {
                seq!["- `"@ + c.name@ + "` in `"@ + path + "`\n"@]
            } else {
                seq!["- `"@ + c.name@ + "` "@ + c.kind@ + " in `"@ + path + "`\n"@]
            }
        } else {
            Seq::empty()
        })
    }
}

/// Which list of a file: 0 added, 1 modified, 2 removed.
pub open spec fn pick(f: FileDiff, which: int) -> Seq<SymbolChange> {
    if which == 0 {
        f.added@
    } else if which == 1 {
        f.modified@
    } else {
        f.removed@
    }
}

pub open spec fn section_entries(files: Seq<FileDiff>, which: int) -> Seq<Seq<char>>
    decreases files.len(),
{
    if files.len() == 0 {
        Seq::empty()
    } else {
        section_entries(files.drop_last(), which) + symbol_entries(
            pick(files.last(), which),
            files.last().path@,
            false,
        )
    }
}

pub open spec fn import_entries(files: Seq<FileDiff>) -> Seq<Seq<char>>
    decreases files.len(),
{
    if files.len() == 0 {
        Seq::empty()
    } else {
        let f = files.last();
        import_entries(files.drop_last()) + symbol_entries(f.added@, f.path@, true)
            + symbol_entries(f.modified@, f.path@, true) + symbol_entries(f.removed@, f.path@, true)
    }
}

pub open spec fn path_entries(files: Seq<FileDiff>, st: FileStatus) -> Seq<Seq<char>>
    decreases files.len(),
{
    if files.len() == 0 {
        Seq::empty()
    } else {
        path_entries(files.drop_last(), st) + (if files.last().status == st {
            seq!["- `"@ + files.last().path@ + "`\n"@]
        } else {
            Seq::empty()
        })
    }
}

/// A heading, the entries and a blank line; nothing without entries.
pub open spec fn section(heading: Seq<char>, entries: Seq<Seq<char>>) -> Seq<char> {
    if entries.len() == 0 {
        Seq::empty()
    } else {
        heading + flatten(entries) + "\n"@
    }
}

/// A markdown changelog of a diff.
pub open spec fn changelog_text(d: BranchDiff) -> Seq<char> {
    let files = d.files@;
    if files.len() == 0 {
        "No structural changes vs `"@ + d.base_ref@ + "`.\n"@
    } else {
        "## Changes vs `"@ + d.base_ref@ + "`\n\n"@ + "**"@ + decimal_of(files.len()) + "** file(s) changed \u{2014} **+"@
            + decimal_of(d.summary.symbols_added as nat) + "** symbols added, **~"@
            + decimal_of(d.summary.symbols_modified as nat) + "** modified, **-"@
            + decimal_of(d.summary.symbols_removed as nat) + "** removed\n\n"@
            + section("### Added\n\n"@, section_entries(files, 0))
            + section("### Modified\n\n"@, section_entries(files, 1))
            + section("### Removed\n\n"@, section_entries(files, 2))
            + section("### Dependency changes\n\n"@, import_entries(files))
            + section("### New files\n\n"@, path_entries(files, FileStatus::Added))
            + section("### Deleted files\n\n"@, path_entries(files, FileStatus::Deleted))
    }
}

fn push_symbol_entries(out: &mut Vec<Vec<char>>, cs: &Vec<SymbolChange>, path: &str, imports: bool)
    ensures
        views(final(out)@) == views(old(out)@) + symbol_entries(cs@, path@, imports),
{
    let mut i: usize = 0;
    while i < cs.len()
        invariant
            i <= cs@.len(),
            views(out@) == views(old(out)@) + symbol_entries(cs@.take(i as int), path@, imports),
        decreases cs@.len() - i,
    {
        let ghost before = views(out@);
        let c = &cs[i];
        let imp = str_eq(c.kind.as_str(), "import");
        if imp == imports {
            let mut e: Vec<char> = Vec::new();
            push_str(&mut e, "- `");
            push_str(&mut e, c.name.as_str());
            if imports {
                push_str(&mut e, "` in `");
            } else {
                push_str(&mut e, "` ");
                push_str(&mut e, c.kind.as_str());
                push_str(&mut e, " in `");
            }
            push_str(&mut e, path);
            push_str(&mut e, "`\n");
            out.push(e);
            assert(views(out@) =~= before.push(e@));
        }
        proof {
            let t = cs@.take(i + 1);
            assert(t.drop_last() =~= cs@.take(i as int));
            assert(t.last() == cs@[i as int]);
            if imp != imports {
                assert(views(out@) =~= before + Seq::<Seq<char>>::empty());
            }
        }
        i = i + 1;
    }
    assert(cs@.take(cs@.len() as int) =~= cs@);
}

fn section_entries_exec(files: &Vec<FileDiff>, which: usize) -> (r: Vec<Vec<char>>)
    requires
        which <= 2,
    ensures
        views(r@) == section_entries(files@, which as int),
{
    let mut out: Vec<Vec<char>> = Vec::new();
    let mut i: usize = 0;
    while i < files.len()
        invariant
            i <= files@.len(),
            which <= 2,
            views(out@) == section_entries(files@.take(i as int), which as int),
        decreases files@.len() - i,
    {
        let f = &files[i];
        if which == 0 {
            push_symbol_entries(&mut out, &f.added, f.path.as_str(), false);
        } else if which == 1 {
            push_symbol_entries(&mut out, &f.modified, f.path.as_str(), false);
        } else {
            push_symbol_entries(&mut out, &f.removed, f.path.as_str(), false);
        }
        proof {
            let t = files@.take(i + 1);
            assert(t.drop_last() =~= files@.take(i as int));
            assert(t.last() == files@[i as int]);
        }
        i = i + 1;
    }
    assert(files@.take(files@.len() as int) =~= files@);
    out
}

fn import_entries_exec(files: &Vec<FileDiff>) -> (r: Vec<Vec<char>>)
    ensures
        views(r@) == import_entries(files@),
{
    let mut out: Vec<Vec<char>> = Vec::new();
    let mut i: usize = 0;
    while i < files.len()
        invariant
            i <= files@.len(),
            views(out@) == import_entries(files@.take(i as int)),
        decreases files@.len() - i,
    {
        let f = &files[i];
        push_symbol_entries(&mut out, &f.added, f.path.as_str(), true);
        push_symbol_entries(&mut out, &f.modified, f.path.as_str(), true);
        push_symbol_entries(&mut out, &f.removed, f.path.as_str(), true);
        proof {
            let t = files@.take(i + 1);
            assert(t.drop_last() =~= files@.take(i as int));
            assert(t.last() == files@[i as int]);
        }
        i = i + 1;
    }
    assert(files@.take(files@.len() as int) =~= files@);
    out
}

fn path_entries_exec(files: &Vec<FileDiff>, st: FileStatus) -> (r: Vec<Vec<char>>)
    ensures
        views(r@) == path_entries(files@, st),
{
    let mut out: Vec<Vec<char>> = Vec::new();
    let mut i: usize = 0;
    while i < files.len()
        invariant
            i <= files@.len(),
            views(out@) == path_entries(files@.take(i as int), st),
        decreases files@.len() - i,
    {
        let ghost before = views(out@);
        if files[i].status == st {
            let mut e: Vec<char> = Vec::new();
            push_str(&mut e, "- `");
            push_str(&mut e, files[i].path.as_str());
            push_str(&mut e, "`\n");
            out.push(e);
            assert(views(out@) =~= before.push(e@));
        } else {
            assert(views(out@) =~= before + Seq::<Seq<char>>::empty());
        }
        proof {
            let t = files@.take(i + 1);
            assert(t.drop_last() =~= files@.take(i as int));
            assert(t.last() == files@[i as int]);
        }
        i = i + 1;
    }
    assert(files@.take(files@.len() as int) =~= files@);
    out
}

fn push_section(out: &mut Vec<char>, heading: &str, entries: &Vec<Vec<char>>)
    ensures
        final(out)@ == old(out)@ + section(heading@, views(entries@)),
{
    if entries.len() == 0 {
        assert(old(out)@ + section(heading@, views(entries@)) =~= old(out)@);
        return;
    }
    let ghost start = out@;
    push_str(out, heading);
    let mut i: usize = 0;
    while i < entries.len()
        invariant
            i <= entries@.len(),
            out@ == start + heading@ + flatten(views(entries@).take(i as int)),
        decreases entries@.len() - i,
    {
        push_chars(out, &entries[i]);
        proof {
            let t = views(entries@).take(i + 1);
            assert(t.drop_last() =~= views(entries@).take(i as int));
            assert(t.last() == entries@[i as int]@);
        }
        i = i + 1;
    }
    assert(views(entries@).take(entries@.len() as int) =~= views(entries@));
    push_str(out, "\n");
}

/// A markdown changelog of a diff: a heading and totals line, then the
/// added, modified and removed symbols, the import changes, and the new and
/// deleted files, each section only when it has entries.
pub fn changelog(diff: &BranchDiff) -> (r: String)
    ensures
        r@ == changelog_text(*diff),
{
    let mut out: Vec<char> = Vec::new();
    if diff.files.len() == 0 {
        push_str(&mut out, "No structural changes vs `");
        push_str(&mut out, diff.base_ref.as_str());
        push_str(&mut out, "`.\n");
        assert(out@ =~= changelog_text(*diff));
        return string_of(&out);
    }
    push_str(&mut out, "## Changes vs `");
    push_str(&mut out, diff.base_ref.as_str());
    push_str(&mut out, "`\n\n");
    push_str(&mut out, "**");
    push_decimal(&mut out, diff.files.len());
    push_str(&mut out, "** file(s) changed \u{2014} **+");
    push_decimal(&mut out, diff.summary.symbols_added);
    push_str(&mut out, "** symbols added, **~");
    push_decimal(&mut out, diff.summary.symbols_modified);
    push_str(&mut out, "** modified, **-");
    push_decimal(&mut out, diff.summary.symbols_removed);
    push_str(&mut out, "** removed\n\n");
    push_section(&mut out, "### Added\n\n", &section_entries_exec(&diff.files, 0));
    push_section(&mut out, "### Modified\n\n", &section_entries_exec(&diff.files, 1));
    push_section(&mut out, "### Removed\n\n", &section_entries_exec(&diff.files, 2));
    push_section(&mut out, "### Dependency changes\n\n", &import_entries_exec(&diff.files));
    push_section(&mut out, "### New files\n\n", &path_entries_exec(&diff.files, FileStatus::Added));
    push_section(&mut out, "### Deleted files\n\n", &path_entries_exec(&diff.files, FileStatus::Deleted));
    assert(out@ =~= changelog_text(*diff));
    string_of(&out)
}

} // verus!
