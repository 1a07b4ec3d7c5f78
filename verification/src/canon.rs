//! The executable canonicalizer: the fast-path eligibility check, the
//! segment rewrite, the trailing-slash policy and the redirect decision.
use vstd::prelude::*;
use vstd::string::*;

use crate::laws::lemma_fast_path_canonical;
use crate::lemmas::lemma_join_rest_is_slash_tail;
use crate::lemmas::lemma_join_rest_push;
use crate::lemmas::lemma_join_tail_shape;
use crate::lemmas::lemma_resolve_all_plain;
use crate::model::canonical;
use crate::model::clean_stack;
use crate::model::cleaned;
use crate::model::ext_dot_at;
use crate::model::fast_path_ok;
use crate::model::has_extension;
use crate::model::join_rest;
use crate::model::join_tail;
use crate::model::no_dot_after_slash;
use crate::model::no_double_slash;
use crate::model::push_seg;
use crate::model::resolve;

verus! {

/// The segments that a stack of index pairs cuts out of `p`.
pub open spec fn segs_of(p: Seq<char>, st: Seq<(usize, usize)>) -> Seq<Seq<char>> {
    st.map_values(|pr: (usize, usize)| p.subrange(pr.0 as int, pr.1 as int))
}

/// Every index pair cuts a real range out of `p`, behind its leading `/`.
pub open spec fn stack_wf(st: Seq<(usize, usize)>, p: Seq<char>) -> bool {
    forall|k: int| 0 <= k < st.len() ==> 1 <= (#[trigger] st[k]).0 <= st[k].1 <= p.len()
}

/// What canonicalizing one request path decided.
pub enum Outcome {
    /// The path is already canonical; the request may proceed as it stands.
    Unchanged,
    /// The path was rewritten; the caller should answer with a permanent
    /// redirect to the carried path.
    Redirect(String),
}

/// The path canonicalizer. A request pipeline hands every inbound path to
/// [`CleanPath::canonicalize`] and either lets the request pass or issues a
/// permanent redirect to the returned path.
pub struct CleanPath;

/// The extension flag of `path`: true iff its last `.` is followed by at
/// least one character and no `/` stands after it.
pub fn has_ext(path: &str) -> (r: bool)
    ensures
        r == has_extension(path@),
{
    let n = path.unicode_len();
    let mut i = n;
    while i > 0
        invariant
            i <= n,
            n == path@.len(),
            forall|j: int| i <= j < n ==> path@[j] != '.' && path@[j] != '/',
        decreases i,
    {
        i = i - 1;
        let c = path.get_char(i);
        if c == '/' {
            proof {
                assert forall|k: int| !ext_dot_at(path@, k) by {
                    if 0 <= k < i {
                        assert(path@[i as int] == '/');
                    }
                }
            }
            return false;
        }
        if c == '.' {
            if i + 1 < n {
                assert(ext_dot_at(path@, i as int));
                return true;
            } else {
                proof {
                    assert forall|k: int| !ext_dot_at(path@, k) by {
                        if 0 <= k < i {
                            assert(path@[i as int] == '.');
                        }
                    }
                }
                return false;
            }
        }
    }
    proof {
        assert forall|k: int| !ext_dot_at(path@, k) by {}
    }
    false
}

/// True iff `path` holds neither `//` nor `/.` anywhere.
fn fast_scan(path: &str) -> (r: bool)
    ensures
        r == (no_double_slash(path@) && no_dot_after_slash(path@)),
{
    let n = path.unicode_len();
    let mut k: usize = 1;
    while k < n
        invariant
            1 <= k,
            k <= n || n == 0,
            n == path@.len(),
            forall|j: int|
                0 <= j && j + 1 < k ==> !((#[trigger] path@[j]) == '/' && (path@[j + 1] == '/'
                    || path@[j + 1] == '.')),
        decreases n - k,
    {
        let c = path.get_char(k - 1);
        if c == '/' {
            let d = path.get_char(k);
            if d == '/' {
                assert(!no_double_slash(path@));
                return false;
            }
            if d == '.' {
                assert(!no_dot_after_slash(path@));
                return false;
            }
        }
        k += 1;
    }
    true
}

/// True iff the two strings hold the same characters.
fn str_eq(a: &str, b: &str) -> (r: bool)
    ensures
        r == (a@ == b@),
{
    let na = a.unicode_len();
    let nb = b.unicode_len();
    if na != nb {
        return false;
    }
    let mut i: usize = 0;
    while i < na
        invariant
            i <= na,
            na == a@.len(),
            nb == b@.len(),
            na == nb,
            forall|j: int| 0 <= j < i ==> a@[j] == b@[j],
        decreases na - i,
    {
        if a.get_char(i) != b.get_char(i) {
            return false;
        }
        i += 1;
    }
    proof {
        assert(a@ =~= b@);
    }
    true
}

/// One stack step on the segment `path[a..b]`: skips an empty or `.`
/// segment, pops on `..`, keeps anything else.
fn push_segment(st: &mut Vec<(usize, usize)>, a: usize, b: usize, path: &str)
    requires
        1 <= a <= b <= path@.len(),
        stack_wf(old(st)@, path@),
    ensures
        stack_wf(final(st)@, path@),
        segs_of(path@, final(st)@) == push_seg(
            segs_of(path@, old(st)@),
            path@.subrange(a as int, b as int),
        ),
{
    let ghost seg = path@.subrange(a as int, b as int);
    let len = b - a;
    if len == 0 {
        assert(seg.len() == 0);
        return ;
    }
    if len == 1 && path.get_char(a) == '.' {
        assert(seg =~= seq!['.']);
        return ;
    }
    if len == 2 && path.get_char(a) == '.' && path.get_char(a + 1) == '.' {
        assert(seg =~= seq!['.', '.']);
        if st.len() > 0 {
            st.pop();
            proof {
                assert(segs_of(path@, st@) =~= segs_of(path@, old(st)@).drop_last());
            }
        }
        return ;
    }
    proof {
        assert(seg.len() > 0);
        if seg == seq!['.'] {
            assert(seg.len() == 1 && seg[0] == '.');
            assert(path@[a as int] == '.');
        }
        if seg == seq!['.', '.'] {
            assert(seg.len() == 2 && seg[0] == '.' && seg[1] == '.');
            assert(path@[a as int] == '.' && path@[a as int + 1] == '.');
        }
    }
    st.push((a, b));
    proof {
        assert(segs_of(path@, st@) =~= segs_of(path@, old(st)@).push(seg));
    }
}

/// Scans `path` once and resolves its segments left to right: merges
/// duplicate `/`, skips `.`, and lets `..` pop the preceding segment.
fn clean_segments(path: &str) -> (st: Vec<(usize, usize)>)
    requires
        path@.len() >= 1,
        path@[0] == '/',
    ensures
        stack_wf(st@, path@),
        segs_of(path@, st@) == clean_stack(path@),
{
    let n = path.unicode_len();
    let mut st: Vec<(usize, usize)> = Vec::new();
    let mut a: usize = 1;
    let mut i: usize = 1;
    proof {
        assert(segs_of(path@, st@) =~= Seq::<Seq<char>>::empty());
        assert(path@.subrange(1, 1) =~= Seq::<char>::empty());
    }
    while i < n
        invariant
            1 <= a <= i <= n,
            n == path@.len(),
            path@[0] == '/',
            stack_wf(st@, path@),
            resolve(
                path@.subrange(i as int, n as int),
                path@.subrange(a as int, i as int),
                segs_of(path@, st@),
            ) == clean_stack(path@),
        decreases n - i,
    {
        let ghost s = path@.subrange(i as int, n as int);
        let ghost cur = path@.subrange(a as int, i as int);
        let c = path.get_char(i);
        proof {
            assert(s[0] == path@[i as int]);
            assert(s.drop_first() =~= path@.subrange(i as int + 1, n as int));
        }
        if c == '/' {
            proof {
                assert(resolve(s, cur, segs_of(path@, st@)) == resolve(
                    s.drop_first(),
                    Seq::empty(),
                    push_seg(segs_of(path@, st@), cur),
                ));
            }
            push_segment(&mut st, a, i, path);
            a = i + 1;
            proof {
                assert(path@.subrange(a as int, a as int) =~= Seq::<char>::empty());
            }
        } else {
            proof {
                assert(resolve(s, cur, segs_of(path@, st@)) == resolve(
                    s.drop_first(),
                    cur.push(s[0]),
                    segs_of(path@, st@),
                ));
                assert(cur.push(s[0]) =~= path@.subrange(a as int, i as int + 1));
            }
        }
        i += 1;
    }
    proof {
        let cur = path@.subrange(a as int, n as int);
        assert(path@.subrange(n as int, n as int) =~= Seq::<char>::empty());
        assert(resolve(Seq::empty(), cur, segs_of(path@, st@)) == push_seg(
            segs_of(path@, st@),
            cur,
        ));
    }
    push_segment(&mut st, a, n, path);
    st
}

/// Writes the stack back out as an absolute path: `/` alone for an empty
/// stack, otherwise each segment behind one `/`.
fn join_segments(path: &str, st: &Vec<(usize, usize)>) -> (out: String)
    requires
        stack_wf(st@, path@),
    ensures
        out@ == seq!['/'] + join_tail(segs_of(path@, st@)),
{
    let ghost segs = segs_of(path@, st@);
    let mut out = String::new();
    let n = st.len();
    if n == 0 {
        out.append("/");
        proof {
            reveal_strlit("/");
            assert(out@ =~= seq!['/'] + join_tail(segs));
        }
        return out;
    }
    let mut k: usize = 0;
    while k < n
        invariant
            k <= n,
            n == st@.len(),
            stack_wf(st@, path@),
            segs == segs_of(path@, st@),
            out@ == join_rest(segs.take(k as int)),
        decreases n - k,
    {
        let pr = st[k];
        out.append("/");
        let seg = path.substring_char(pr.0, pr.1);
        out.append(seg);
        proof {
            reveal_strlit("/");
            lemma_join_rest_push(
                segs.take(k as int),
                path@.subrange(pr.0 as int, pr.1 as int),
            );
            assert(segs.take(k as int + 1) =~= segs.take(k as int).push(
                path@.subrange(pr.0 as int, pr.1 as int),
            ));
            assert(out@ =~= join_rest(segs.take(k as int + 1)));
        }
        k += 1;
    }
    proof {
        assert(segs.take(n as int) =~= segs);
        lemma_join_rest_is_slash_tail(segs);
        assert(out@ =~= seq!['/'] + join_tail(segs));
    }
    out
}

/// The cleaned form of `path`: runs of `/` merged, `.` skipped, `..`
/// resolved against its preceding segment and dropped at the root, and no
/// trailing `/` unless the whole path cleans down to `/`.
pub fn clean(path: &str) -> (out: String)
    requires
        path@.len() >= 1,
        path@[0] == '/',
    ensures
        out@ == cleaned(path@),
{
    let st = clean_segments(path);
    join_segments(path, &st)
}

impl CleanPath {
    /// Decides whether `path` is already canonical: returns `Unchanged`
    /// exactly when the canonical form of `path` is `path` itself, and
    /// otherwise carries the canonical form to redirect to.
    pub fn canonicalize(&self, path: &str) -> (r: Outcome)
        requires
            path@.len() >= 1,
            path@[0] == '/',
        ensures
            match r {
                Outcome::Unchanged => path@ == canonical(path@),
                Outcome::Redirect(q) => q@ == canonical(path@) && path@ != canonical(path@),
            },
    {
        let n = path.unicode_len();
        let trailing = path.get_char(n - 1) == '/';
        let ext = has_ext(path);
        proof {
            assert(path@.last() == path@[n - 1]);
        }
        if fast_scan(path) && (ext != trailing) {
            proof {
                assert(fast_path_ok(path@));
                lemma_fast_path_canonical(path@);
            }
            return Outcome::Unchanged;
        }
        let st = clean_segments(path);
        let mut out = join_segments(path, &st);
        proof {
            lemma_resolve_all_plain(
                path@.subrange(1, path@.len() as int),
                Seq::empty(),
                Seq::empty(),
            );
        }
        let ghost stk = clean_stack(path@);
        let ghost c = seq!['/'] + join_tail(stk);
        if st.len() > 0 {
            proof {
                lemma_join_tail_shape(stk);
            }
            if trailing || !has_ext(out.as_str()) {
                out.append("/");
                proof {
                    reveal_strlit("/");
                    assert(out@ =~= c.push('/'));
                    assert(out@ == canonical(path@));
                }
            } else {
                proof {
                    assert(out@ == canonical(path@));
                }
            }
        } else {
            proof {
                assert(out@ == canonical(path@));
            }
        }
        if str_eq(out.as_str(), path) {
            proof {
                assert(path@ == canonical(path@));
            }
            Outcome::Unchanged
        } else {
            Outcome::Redirect(out)
        }
    }
}

} // verus!
