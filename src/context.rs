//! The volatile context: which annotations and working-set entries a read
//! sees. Expired annotations are hidden; an entry without a session is
//! seen from every session.

use vstd::prelude::*;
use crate::records::{Annotation, WorksetEntry};
use crate::text::{chars_of, str_eq};

verus! {

/// `a` sorts at or before `b`, character by character.
pub open spec fn text_le(a: Seq<char>, b: Seq<char>) -> bool
    decreases a.len(),
{
    if a.len() == 0 {
        true
    } else if b.len() == 0 {
        false
    } else if a[0] != b[0] {
        a[0] < b[0]
    } else {
        text_le(a.skip(1), b.skip(1))
    }
}

fn text_le_exec(a: &str, b: &str) -> (r: bool)
    ensures
        r == text_le(a@, b@),
{
    let av = chars_of(a);
    let bv = chars_of(b);
    let mut i: usize = 0;
    assert(av@.skip(0) =~= av@);
    assert(bv@.skip(0) =~= bv@);
    while i < av.len() && i < bv.len() && av[i] == bv[i]
        invariant
            i <= av@.len(),
            i <= bv@.len(),
            text_le(av@.skip(i as int), bv@.skip(i as int)) == text_le(a@, b@),
            av@ == a@,
            bv@ == b@,
        decreases av@.len() - i,
    {
        assert(av@.skip(i as int).skip(1) =~= av@.skip(i + 1));
        assert(bv@.skip(i as int).skip(1) =~= bv@.skip(i + 1));
        i = i + 1;
    }
    if i >= av.len() {
        true
    } else if i >= bv.len() {
        false
    } else {
        av[i] < bv[i]
    }
}

/// Live at `now`: no expiry, or one that sorts after `now` (timestamps in
/// one fixed-width format sort as they compare).
pub open spec fn live(a: Annotation, now: Seq<char>) -> bool {
    a.expires_at is None || !text_le(a.expires_at->0@, now)
}

/// A row of `session` is seen from `requested`: always without a request,
/// else when global or of that session.
pub open spec fn seen_from(session: Option<String>, requested: Option<Seq<char>>) -> bool {
    requested is None || session is None || session->0@ == requested->0
}

pub open spec fn opt_text(o: Option<&str>) -> Option<Seq<char>> {
    match o {
        Some(s) => Some(s@),
        None => None,
    }
}

pub open spec fn annotation_visible(a: Annotation, target: Option<Seq<char>>, session: Option<Seq<char>>, now: Seq<char>) -> bool {
    live(a, now) && (target is None || a.target@ == target->0) && seen_from(a.session_id, session)
}

pub open spec fn visible_upto(all: Seq<Annotation>, target: Option<Seq<char>>, session: Option<Seq<char>>, now: Seq<char>) -> Seq<Annotation>
    decreases all.len(),
{
    if all.len() == 0 {
        Seq::empty()
    } else {
        visible_upto(all.drop_last(), target, session, now) + (if annotation_visible(all.last(), target, session, now) {
            seq![all.last()]
        } else {
            Seq::empty()
        })
    }
}

fn seen_from_exec(session: &Option<String>, requested: Option<&str>) -> (r: bool)
    ensures
        r == seen_from(*session, opt_text(requested)),
{
    match requested {
        None => true,
        Some(req) => match session {
            None => true,
            Some(s) => str_eq(s.as_str(), req),
        },
    }
}

/// The annotations a read sees, in the given order: live at `now`, on
/// `target` when one is asked for, and global or of `session`.
pub fn visible_annotations(all: Vec<Annotation>, target: Option<&str>, session: Option<&str>, now: &str) -> (r: Vec<Annotation>)
    ensures
        r@ == visible_upto(all@, opt_text(target), opt_text(session), now@),
{
    let ghost orig = all@;
    let mut input = all;
    let n = input.len();
    let mut out: Vec<Annotation> = Vec::new();
    let mut k: usize = 0;
    while input.len() > 0
        invariant
            n == orig.len(),
            k <= n,
            input@ == orig.skip(k as int),
            out@ == visible_upto(orig.take(k as int), opt_text(target), opt_text(session), now@),
        decreases input.len(),
    {
        let a = input.remove(0);
        assert(a == orig[k as int]);
        let is_live = match &a.expires_at {
            None => true,
            Some(e) => !text_le_exec(e.as_str(), now),
        };
        let on_target = match target {
            None => true,
            Some(t) => str_eq(a.target.as_str(), t),
        };
        let keep = is_live && on_target && seen_from_exec(&a.session_id, session);
        let ghost before = out@;
        if keep {
            out.push(a);
        }
        proof {
            assert(orig.take(k + 1).drop_last() =~= orig.take(k as int));
            assert(orig.take(k + 1).last() == orig[k as int]);
            if keep {
                assert(out@ =~= before + seq![orig[k as int]]);
            } else {
                assert(out@ =~= before + Seq::<Annotation>::empty());
            }
            assert(orig.skip(k as int).skip(1) =~= orig.skip(k + 1));
        }
        k = k + 1;
    }
    assert(orig.take(k as int) =~= orig);
    out
}

pub open spec fn entry_visible(e: WorksetEntry, kind: Option<Seq<char>>, session: Option<Seq<char>>) -> bool {
    (kind is None || e.kind@ == kind->0) && seen_from(e.session_id, session)
}

pub open spec fn workset_upto(all: Seq<WorksetEntry>, kind: Option<Seq<char>>, session: Option<Seq<char>>) -> Seq<WorksetEntry>
    decreases all.len(),
{
    if all.len() == 0 {
        Seq::empty()
    } else {
        workset_upto(all.drop_last(), kind, session) + (if entry_visible(all.last(), kind, session) {
            seq![all.last()]
        } else {
            Seq::empty()
        })
    }
}

/// The working-set entries a read sees, in the given order: of `kind`
/// when one is asked for, and global or of `session`.
pub fn visible_workset(all: Vec<WorksetEntry>, kind: Option<&str>, session: Option<&str>) -> (r: Vec<WorksetEntry>)
    ensures
        r@ == workset_upto(all@, opt_text(kind), opt_text(session)),
{
    let ghost orig = all@;
    let mut input = all;
    let n = input.len();
    let mut out: Vec<WorksetEntry> = Vec::new();
    let mut k: usize = 0;
    while input.len() > 0
        invariant
            n == orig.len(),
            k <= n,
            input@ == orig.skip(k as int),
            out@ == workset_upto(orig.take(k as int), opt_text(kind), opt_text(session)),
        decreases input.len(),
    {
        let e = input.remove(0);
        assert(e == orig[k as int]);
        let of_kind = match kind {
            None => true,
            Some(kd) => str_eq(e.kind.as_str(), kd),
        };
        let keep = of_kind && seen_from_exec(&e.session_id, session);
        let ghost before = out@;
        if keep {
            out.push(e);
        }
        proof {
            assert(orig.take(k + 1).drop_last() =~= orig.take(k as int));
            assert(orig.take(k + 1).last() == orig[k as int]);
            if keep {
                assert(out@ =~= before + seq![orig[k as int]]);
            } else {
                assert(out@ =~= before + Seq::<WorksetEntry>::empty());
            }
            assert(orig.skip(k as int).skip(1) =~= orig.skip(k + 1));
        }
        k = k + 1;
    }
    assert(orig.take(k as int) =~= orig);
    out
}

/// The paths of entries, in order.
pub fn paths_of(entries: Vec<WorksetEntry>) -> (r: Vec<String>)
    ensures
        r@.len() == entries@.len(),
        forall|i: int| 0 <= i < r@.len() ==> #[trigger] r@[i] == entries@[i].path,
{
    let ghost orig = entries@;
    let mut input = entries;
    let mut out: Vec<String> = Vec::new();
    let mut k: usize = 0;
    let n = input.len();
    while input.len() > 0
        invariant
            n == orig.len(),
            k <= n,
            input@ == orig.skip(k as int),
            out@.len() == k,
            forall|i: int| 0 <= i < k ==> #[trigger] out@[i] == orig[i].path,
        decreases input.len(),
    {
        let e = input.remove(0);
        assert(e == orig[k as int]);
        out.push(e.path);
        assert(orig.skip(k as int).skip(1) =~= orig.skip(k + 1));
        k = k + 1;
    }
    out
}

} // verus!
