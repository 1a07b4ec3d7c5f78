//! The mathematical model of path canonicalization: what the extension flag,
//! the cleaned form and the canonical form of a path are, as functions over
//! the path's characters.
use vstd::prelude::*;

verus! {

/// The character at `i` is the last `.` of `p`, at least one character
/// follows it, and no `/` stands between it and the end of `p`.
pub open spec fn ext_dot_at(p: Seq<char>, i: int) -> bool {
    &&& 0 <= i < p.len()
    &&& p[i] == '.'
    &&& i + 1 < p.len()
    &&& forall|j: int| i < j < p.len() ==> p[j] != '.' && p[j] != '/'
}

/// The extension flag: `p` looks like a file name iff its last `.` exists,
/// is not the final character, and no `/` occurs after it.
pub open spec fn has_extension(p: Seq<char>) -> bool {
    exists|i: int| ext_dot_at(p, i)
}

/// A plain segment: what survives cleaning — nonempty, free of `/`, and
/// neither `.` nor `..`.
pub open spec fn plain_seg(s: Seq<char>) -> bool {
    &&& s.len() > 0
    &&& forall|j: int| 0 <= j < s.len() ==> s[j] != '/'
    &&& s != seq!['.']
    &&& s != seq!['.', '.']
}

pub open spec fn all_plain(ss: Seq<Seq<char>>) -> bool {
    forall|k: int| 0 <= k < ss.len() ==> plain_seg(#[trigger] ss[k])
}

/// One step of the segment stack: empty and `.` segments are skipped, `..`
/// pops the preceding segment when one exists (and is dropped at the root),
/// and any other segment is kept.
pub open spec fn push_seg(st: Seq<Seq<char>>, seg: Seq<char>) -> Seq<Seq<char>> {
    if seg.len() == 0 || seg == seq!['.'] {
        st
    } else if seg == seq!['.', '.'] {
        if st.len() > 0 {
            st.drop_last()
        } else {
            st
        }
    } else {
        st.push(seg)
    }
}

/// Resolves a path suffix `s` (everything after some `/`) character by
/// character: `cur` is the partial segment read so far, `st` the stack of
/// segments already resolved.
pub open spec fn resolve(s: Seq<char>, cur: Seq<char>, st: Seq<Seq<char>>) -> Seq<Seq<char>>
    decreases s.len(),
{
    if s.len() == 0 {
        push_seg(st, cur)
    } else if s[0] == '/' {
        resolve(s.drop_first(), Seq::empty(), push_seg(st, cur))
    } else {
        resolve(s.drop_first(), cur.push(s[0]), st)
    }
}

/// The stack of segments of `p` after cleaning, for `p` beginning with `/`.
pub open spec fn clean_stack(p: Seq<char>) -> Seq<Seq<char>>
    recommends
        p.len() >= 1,
        p[0] == '/',
{
    resolve(p.subrange(1, p.len() as int), Seq::empty(), Seq::empty())
}

/// `/s0/s1/...`: every segment with one `/` in front of it.
pub open spec fn join_rest(ss: Seq<Seq<char>>) -> Seq<char>
    decreases ss.len(),
{
    if ss.len() == 0 {
        Seq::empty()
    } else {
        seq!['/'] + ss.first() + join_rest(ss.drop_first())
    }
}

/// `s0/s1/...`: the segments separated by single `/`, none in front or behind.
pub open spec fn join_tail(ss: Seq<Seq<char>>) -> Seq<char> {
    if ss.len() == 0 {
        Seq::empty()
    } else {
        ss.first() + join_rest(ss.drop_first())
    }
}

/// The cleaned form of `p`: runs of `/` merged, `.` and `..` resolved, and no
/// trailing `/` unless nothing remains but the root itself.
pub open spec fn cleaned(p: Seq<char>) -> Seq<char>
    recommends
        p.len() >= 1,
        p[0] == '/',
{
    seq!['/'] + join_tail(clean_stack(p))
}

/// The canonical form of `p`: the cleaned form, with a trailing `/` appended
/// when it is not the root and either the input ended with `/` or the cleaned
/// form carries no extension.
pub open spec fn canonical(p: Seq<char>) -> Seq<char>
    recommends
        p.len() >= 1,
        p[0] == '/',
{
    let st = clean_stack(p);
    let c = seq!['/'] + join_tail(st);
    if st.len() == 0 {
        c
    } else if p.last() == '/' || !has_extension(c) {
        c.push('/')
    } else {
        c
    }
}

/// No two adjacent `/` anywhere in `p`.
pub open spec fn no_double_slash(p: Seq<char>) -> bool {
    forall|k: int| 0 <= k && k + 1 < p.len() ==> !((#[trigger] p[k]) == '/' && p[k + 1] == '/')
}

/// No `.` directly after a `/`: rules out `.` and `..` segments, and also
/// hidden-file-like segments.
pub open spec fn no_dot_after_slash(p: Seq<char>) -> bool {
    forall|k: int| 0 <= k && k + 1 < p.len() ==> !((#[trigger] p[k]) == '/' && p[k + 1] == '.')
}

/// The fast-path conditions: nothing to merge, no dot segments, and the
/// trailing slash already agrees with the extension flag.
pub open spec fn fast_path_ok(p: Seq<char>) -> bool {
    &&& no_double_slash(p)
    &&& no_dot_after_slash(p)
    &&& has_extension(p) != (p.last() == '/')
}

/// A complete `.` or `..` segment begins at `k` of `q`: a `/` stands there,
/// one or two `.` behind it, and a `/` or the end of `q` directly after.
pub open spec fn dot_seg_at(q: Seq<char>, k: int) -> bool {
    &&& 0 <= k < q.len()
    &&& q[k] == '/'
    &&& {
        ||| (k + 1 < q.len() && q[k + 1] == '.' && (k + 2 == q.len() || q[k + 2] == '/'))
        ||| (k + 2 < q.len() && q[k + 1] == '.' && q[k + 2] == '.' && (k + 3 == q.len() || q[k
            + 3] == '/'))
    }
}

/// `s` with one trailing `/` removed, if it ends with one.
pub open spec fn strip_slash(s: Seq<char>) -> Seq<char> {
    if s.len() > 0 && s.last() == '/' {
        s.drop_last()
    } else {
        s
    }
}

} // verus!
