//! Path-string helpers: extracting the basename a trash move is keyed
//! by. Paths are byte strings; a separator is the byte `/`.

use vstd::prelude::*;
use crate::bytes::copy_range;

verus! {

/// The path without its trailing separators.
pub open spec fn trim_trailing_slashes(p: Seq<u8>) -> Seq<u8>
    decreases p.len(),
{
    if p.len() > 0 && p.last() == 47 {
        trim_trailing_slashes(p.drop_last())
    } else {
        p
    }
}

/// The bytes after the last separator: the longest separator-free suffix.
pub open spec fn after_last_slash(p: Seq<u8>) -> Seq<u8>
    decreases p.len(),
{
    if p.len() == 0 {
        p
    } else if p.last() == 47 {
        Seq::empty()
    } else {
        after_last_slash(p.drop_last()).push(p.last())
    }
}

/// The basename of a path: its last component, ignoring trailing
/// separators; nothing when the path has no component at all.
pub open spec fn basename_spec(p: Seq<u8>) -> Option<Seq<u8>> {
    let t = trim_trailing_slashes(p);
    if t.len() == 0 {
        None
    } else {
        Some(after_last_slash(t))
    }
}

/// Trimming stops exactly at the last non-separator byte.
proof fn lemma_trim_at(p: Seq<u8>, e: int)
    requires
        0 <= e <= p.len(),
        forall|j: int| e <= j < p.len() ==> p[j] == 47,
        e == 0 || p[e - 1] != 47,
    ensures
        trim_trailing_slashes(p) == p.subrange(0, e),
    decreases p.len(),
{
    if p.len() == 0 {
        assert(p.subrange(0, 0) =~= p);
    } else if p.last() == 47 {
        assert(e < p.len());
        let q = p.drop_last();
        assert(forall|j: int| e <= j < q.len() ==> q[j] == p[j] && q[j] == 47);
        assert(e == 0 || q[e - 1] == p[e - 1]);
        lemma_trim_at(q, e);
        assert(q.subrange(0, e) =~= p.subrange(0, e));
    } else {
        assert(e == p.len());
        assert(p.subrange(0, e) =~= p);
    }
}

/// The separator-free suffix starts right after the last separator.
proof fn lemma_after_at(p: Seq<u8>, s: int)
    requires
        0 <= s <= p.len(),
        forall|j: int| s <= j < p.len() ==> p[j] != 47,
        s == 0 || p[s - 1] == 47,
    ensures
        after_last_slash(p) == p.subrange(s, p.len() as int),
    decreases p.len(),
{
    if p.len() == 0 {
        assert(p.subrange(0, 0) =~= p);
    } else if s == p.len() {
        assert(p.last() == p[s - 1]);
        assert(p.subrange(s, p.len() as int) =~= Seq::<u8>::empty());
    } else {
        assert(p.last() != 47);
        let q = p.drop_last();
        assert(forall|j: int| s <= j < q.len() ==> q[j] == p[j] && q[j] != 47);
        assert(s == 0 || q[s - 1] == p[s - 1]);
        lemma_after_at(q, s);
        assert(q.subrange(s, q.len() as int).push(p.last()) =~= p.subrange(s, p.len() as int));
    }
}

/// A trimmed path never ends in a separator.
proof fn lemma_trim_no_trailing(p: Seq<u8>)
    ensures
        trim_trailing_slashes(p).len() == 0 || trim_trailing_slashes(p).last() != 47,
    decreases p.len(),
{
    if p.len() > 0 && p.last() == 47 {
        lemma_trim_no_trailing(p.drop_last());
    }
}

/// The basename never holds a separator and is never empty.
pub proof fn lemma_basename_no_slash(p: Seq<u8>)
    ensures
        basename_spec(p) matches Some(b) ==> b.len() > 0 && forall|i: int|
            0 <= i < b.len() ==> b[i] != 47,
    decreases p.len(),
{
    if basename_spec(p) is Some {
        let t = trim_trailing_slashes(p);
        lemma_trim_no_trailing(p);
        lemma_after_no_slash(t);
    }
}

/// The separator-free suffix of a non-empty trimmed path is non-empty
/// and free of separators.
proof fn lemma_after_no_slash(t: Seq<u8>)
    requires
        t.len() == 0 || t.last() != 47,
    ensures
        t.len() > 0 ==> after_last_slash(t).len() > 0,
        forall|i: int|
            0 <= i < after_last_slash(t).len() ==> #[trigger] after_last_slash(t)[i] != 47,
    decreases t.len(),
{
    if t.len() > 0 {
        let q = t.drop_last();
        let b = after_last_slash(q);
        if q.len() == 0 || q.last() != 47 {
            lemma_after_no_slash(q);
        } else {
            assert(after_last_slash(q) =~= Seq::<u8>::empty());
        }
        assert(after_last_slash(t) == b.push(t.last()));
        assert forall|i: int| 0 <= i < after_last_slash(t).len() implies #[trigger] after_last_slash(
            t,
        )[i] != 47 by {
            if i < b.len() {
                assert(after_last_slash(t)[i] == b[i]);
            }
        }
    }
}

/// The basename of a path: its last component, with trailing separators
/// ignored; nothing for a path that has no component (empty, or only
/// separators).
pub fn basename_of(path: &Vec<u8>) -> (r: Option<Vec<u8>>)
    ensures
        match r {
            Some(b) => basename_spec(path@) == Some(b@),
            None => basename_spec(path@) is None,
        },
{
    let mut end: usize = path.len();
    while end > 0 && path[end - 1] == 47
        invariant
            0 <= end <= path@.len(),
            forall|j: int| end <= j < path@.len() ==> path@[j] == 47,
        decreases end,
    {
        end -= 1;
    }
    proof {
        lemma_trim_at(path@, end as int);
    }
    if end == 0 {
        proof {
            assert(trim_trailing_slashes(path@) =~= Seq::<u8>::empty());
        }
        return None;
    }
    let mut start: usize = end;
    while start > 0 && path[start - 1] != 47
        invariant
            0 <= start <= end <= path@.len(),
            forall|j: int| start <= j < end ==> path@[j] != 47,
        decreases start,
    {
        start -= 1;
    }
    let ghost t = trim_trailing_slashes(path@);
    proof {
        assert(t == path@.subrange(0, end as int));
        assert(forall|j: int| start <= j < t.len() ==> t[j] == path@[j] && t[j] != 47);
        assert(start == 0 || t[start - 1] == path@[start - 1]);
        lemma_after_at(t, start as int);
        assert(t.subrange(start as int, t.len() as int) =~= path@.subrange(
            start as int,
            end as int,
        ));
    }
    Some(copy_range(path, start, end))
}

} // verus!
