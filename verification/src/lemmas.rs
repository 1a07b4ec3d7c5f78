//! Structural facts about segment stacks, joins and the resolve function,
//! used by the laws and by the executable code.
use vstd::prelude::*;

use crate::model::all_plain;
use crate::model::dot_seg_at;
use crate::model::join_rest;
use crate::model::join_tail;
use crate::model::no_double_slash;
use crate::model::plain_seg;
use crate::model::push_seg;
use crate::model::resolve;
use crate::model::strip_slash;

verus! {

/// For a nonempty stack, the full join is the tail join with one `/` in
/// front.
pub(crate) proof fn lemma_join_rest_is_slash_tail(ss: Seq<Seq<char>>)
    requires
        ss.len() > 0,
    ensures
        join_rest(ss) == seq!['/'] + join_tail(ss),
{
    assert(join_rest(ss) =~= seq!['/'] + join_tail(ss));
}

/// Appending a segment to a stack appends `/` and the segment to its join.
pub(crate) proof fn lemma_join_rest_push(ss: Seq<Seq<char>>, x: Seq<char>)
    ensures
        join_rest(ss.push(x)) == join_rest(ss) + seq!['/'] + x,
    decreases ss.len(),
{
    if ss.len() == 0 {
        assert(ss.push(x).drop_first() =~= ss);
        assert(join_rest(ss) =~= Seq::<char>::empty());
        assert(join_rest(ss.push(x)) =~= join_rest(ss) + seq!['/'] + x);
    } else {
        assert(ss.push(x).drop_first() =~= ss.drop_first().push(x));
        lemma_join_rest_push(ss.drop_first(), x);
        assert(join_rest(ss.push(x)) =~= join_rest(ss) + seq!['/'] + x);
    }
}

/// The same for the tail join: the first segment stands bare, every later
/// one comes behind a `/`.
pub(crate) proof fn lemma_join_tail_push(ss: Seq<Seq<char>>, x: Seq<char>)
    ensures
        ss.len() == 0 ==> join_tail(ss.push(x)) == x,
        ss.len() > 0 ==> join_tail(ss.push(x)) == join_tail(ss) + seq!['/'] + x,
{
    if ss.len() == 0 {
        assert(ss.push(x).drop_first() =~= ss);
        assert(join_rest(ss) =~= Seq::<char>::empty());
        assert(join_tail(ss.push(x)) =~= x);
    } else {
        assert(ss.push(x).drop_first() =~= ss.drop_first().push(x));
        lemma_join_rest_push(ss.drop_first(), x);
        assert(join_tail(ss.push(x)) =~= join_tail(ss) + seq!['/'] + x);
    }
}

/// The tail join of a nonempty stack of plain segments is nonempty, has no
/// `/` at either end, no `//` inside, and ends with the last character of
/// the last segment.
pub(crate) proof fn lemma_join_tail_shape(ss: Seq<Seq<char>>)
    requires
        all_plain(ss),
        ss.len() > 0,
    ensures
        join_tail(ss).len() > 0,
        join_tail(ss)[0] != '/',
        join_tail(ss).last() == ss.last().last(),
        join_tail(ss).last() != '/',
        no_double_slash(join_tail(ss)),
    decreases ss.len(),
{
    let t = join_tail(ss);
    if ss.len() == 1 {
        assert(ss.drop_first() =~= Seq::<Seq<char>>::empty());
        assert(t =~= ss[0]);
        assert(plain_seg(ss[0]));
        assert(ss.last() == ss[0]);
    } else {
        let rest = ss.drop_first();
        assert(all_plain(rest)) by {
            assert(forall|k: int|
                0 <= k < rest.len() ==> rest[k] == ss[k + 1] && plain_seg(#[trigger] rest[k]));
        }
        lemma_join_tail_shape(rest);
        let tr = join_tail(rest);
        lemma_join_rest_is_slash_tail(rest);
        assert(t =~= ss[0] + seq!['/'] + tr);
        assert(plain_seg(ss[0]));
        let n0 = ss[0].len() as int;
        assert(t[0] == ss[0][0]);
        assert(t.last() == tr.last());
        assert(ss.last() == rest.last());
        assert forall|k: int|
            0 <= k && k + 1 < t.len() implies !((#[trigger] t[k]) == '/' && t[k + 1] == '/') by {
            if k + 1 < n0 {
                assert(t[k] == ss[0][k]);
            } else if k + 1 == n0 {
                assert(t[k] == ss[0][k]);
            } else if k == n0 {
                assert(t[k + 1] == tr[k + 1 - n0 - 1]);
                assert(tr[0] != '/');
            } else {
                assert(t[k] == tr[k - n0 - 1]);
                assert(t[k + 1] == tr[k + 1 - n0 - 1]);
            }
        }
    }
}

/// Resolving any suffix on top of a stack of plain segments yields a stack
/// of plain segments, provided the partial segment carries no `/`.
pub(crate) proof fn lemma_resolve_all_plain(s: Seq<char>, cur: Seq<char>, st: Seq<Seq<char>>)
    requires
        forall|j: int| 0 <= j < cur.len() ==> cur[j] != '/',
        all_plain(st),
    ensures
        all_plain(resolve(s, cur, st)),
    decreases s.len(),
{
    if s.len() == 0 {
        lemma_push_seg_plain(st, cur);
    } else if s[0] == '/' {
        lemma_push_seg_plain(st, cur);
        lemma_resolve_all_plain(s.drop_first(), Seq::empty(), push_seg(st, cur));
    } else {
        lemma_resolve_all_plain(s.drop_first(), cur.push(s[0]), st);
    }
}

/// One stack step keeps every segment plain, provided the incoming segment
/// carries no `/`.
pub(crate) proof fn lemma_push_seg_plain(st: Seq<Seq<char>>, seg: Seq<char>)
    requires
        all_plain(st),
        forall|j: int| 0 <= j < seg.len() ==> seg[j] != '/',
    ensures
        all_plain(push_seg(st, seg)),
{
    let r = push_seg(st, seg);
    if seg.len() == 0 || seg == seq!['.'] {
    } else if seg == seq!['.', '.'] {
        if st.len() > 0 {
            assert(forall|k: int|
                0 <= k < st.drop_last().len() ==> st.drop_last()[k] == st[k]
                    && plain_seg(#[trigger] st.drop_last()[k]));
        }
    } else {
        assert(plain_seg(seg));
        assert(forall|k: int| 0 <= k < st.len() ==> r[k] == st[k] && plain_seg(#[trigger] r[k]));
    }
}

/// Reading a run of non-`/` characters only extends the partial segment.
pub(crate) proof fn lemma_skip_plain(seg: Seq<char>, rest: Seq<char>, cur: Seq<char>, st: Seq<Seq<char>>)
    requires
        forall|j: int| 0 <= j < seg.len() ==> seg[j] != '/',
    ensures
        resolve(seg + rest, cur, st) == resolve(rest, cur + seg, st),
    decreases seg.len(),
{
    if seg.len() == 0 {
        assert(seg + rest =~= rest);
        assert(cur + seg =~= cur);
    } else {
        let s = seg + rest;
        assert(s[0] == seg[0]);
        assert(s.drop_first() =~= seg.drop_first() + rest);
        assert(cur.push(s[0]) + seg.drop_first() =~= cur + seg);
        lemma_skip_plain(seg.drop_first(), rest, cur.push(s[0]), st);
    }
}

/// The full join of a stack of plain segments holds no complete `.` or `..`
/// segment anywhere.
pub(crate) proof fn lemma_join_rest_no_dot_seg(ss: Seq<Seq<char>>)
    requires
        all_plain(ss),
    ensures
        forall|k: int| !dot_seg_at(join_rest(ss), k),
    decreases ss.len(),
{
    let u = join_rest(ss);
    if ss.len() == 0 {
        assert forall|k: int| !dot_seg_at(u, k) by {}
    } else {
        let s0 = ss.first();
        let rest = ss.drop_first();
        assert(plain_seg(s0));
        assert(all_plain(rest)) by {
            assert(forall|k: int|
                0 <= k < rest.len() ==> rest[k] == ss[k + 1] && plain_seg(#[trigger] rest[k]));
        }
        lemma_join_rest_no_dot_seg(rest);
        let ur = join_rest(rest);
        assert(u =~= seq!['/'] + s0 + ur);
        let n0 = s0.len() as int;
        assert(u.len() == n0 + 1 + ur.len());
        assert forall|k: int| !dot_seg_at(u, k) by {
            if dot_seg_at(u, k) {
                if k == 0 {
                    assert(u[1] == s0[0]);
                    assert(s0[0] == '.');
                    if n0 == 1 {
                        assert(s0 =~= seq!['.']);
                    } else {
                        assert(u[2] == s0[1]);
                        assert(s0[1] == '.');
                        if n0 == 2 {
                            assert(s0 =~= seq!['.', '.']);
                        } else {
                            assert(u[3] == s0[2]);
                        }
                    }
                    assert(false);
                } else if k <= n0 {
                    assert(u[k] == s0[k - 1]);
                    assert(false);
                } else {
                    let kr = k - n0 - 1;
                    assert(0 <= kr < ur.len());
                    assert(ur[kr] == u[k]);
                    if k + 1 < u.len() {
                        assert(ur[kr + 1] == u[k + 1]);
                    }
                    if k + 2 < u.len() {
                        assert(ur[kr + 2] == u[k + 2]);
                    }
                    if k + 3 < u.len() {
                        assert(ur[kr + 3] == u[k + 3]);
                    }
                    assert(dot_seg_at(ur, kr));
                    assert(false);
                }
            }
        }
    }
}

/// Resolving a plain segment pushes it; a `/` behind it starts the rest.
pub(crate) proof fn lemma_resolve_seg(s0: Seq<char>, tail: Seq<char>, st: Seq<Seq<char>>)
    requires
        plain_seg(s0),
    ensures
        resolve(s0, Seq::empty(), st) == st.push(s0),
        resolve(s0 + seq!['/'] + tail, Seq::empty(), st) == resolve(tail, Seq::empty(), st.push(s0)),
{
    lemma_skip_plain(s0, Seq::empty(), Seq::empty(), st);
    assert(s0 + Seq::<char>::empty() =~= s0);
    assert(Seq::<char>::empty() + s0 =~= s0);
    assert(resolve(Seq::empty(), s0, st) == push_seg(st, s0));
    assert(push_seg(st, s0) == st.push(s0));
    let u = seq!['/'] + tail;
    lemma_skip_plain(s0, u, Seq::empty(), st);
    assert(s0 + u =~= s0 + seq!['/'] + tail);
    assert(u[0] == '/');
    assert(u.drop_first() =~= tail);
    assert(push_seg(st, Seq::<char>::empty() + s0) == st.push(s0));
    assert(resolve(u, Seq::empty() + s0, st) == resolve(tail, Seq::empty(), st.push(s0)));
}

/// Resolving the joined form of a stack of plain segments, with or without
/// one trailing `/`, gives back exactly that stack.
pub(crate) proof fn lemma_resolve_of_join(ss: Seq<Seq<char>>, st: Seq<Seq<char>>, trail: bool)
    requires
        all_plain(ss),
    ensures
        resolve(
            if trail {
                join_tail(ss).push('/')
            } else {
                join_tail(ss)
            },
            Seq::empty(),
            st,
        ) == st + ss,
    decreases ss.len(),
{
    if ss.len() == 0 {
        assert(join_tail(ss) =~= Seq::<char>::empty());
        if trail {
            let s = join_tail(ss).push('/');
            assert(s.len() == 1 && s[0] == '/');
            assert(s.drop_first() =~= Seq::<char>::empty());
            assert(push_seg(st, Seq::empty()) == st);
            assert(resolve(Seq::empty(), Seq::empty(), st) == st);
            assert(resolve(s, Seq::empty(), st) == st);
        } else {
            assert(resolve(join_tail(ss), Seq::empty(), st) == st);
        }
        assert(st + ss =~= st);
    } else {
        let s0 = ss.first();
        let rest = ss.drop_first();
        assert(plain_seg(s0));
        assert(all_plain(rest)) by {
            assert(forall|k: int|
                0 <= k < rest.len() ==> rest[k] == ss[k + 1] && plain_seg(#[trigger] rest[k]));
        }
        if rest.len() == 0 {
            assert(join_rest(rest) =~= Seq::<char>::empty());
            lemma_resolve_seg(s0, Seq::empty(), st);
            if trail {
                assert(join_tail(ss).push('/') =~= s0 + seq!['/'] + Seq::<char>::empty());
                assert(resolve(Seq::empty(), Seq::empty(), st.push(s0)) == push_seg(
                    st.push(s0),
                    Seq::empty(),
                ));
            } else {
                assert(join_tail(ss) =~= s0);
            }
            assert(st + ss =~= st.push(s0));
        } else {
            lemma_join_rest_is_slash_tail(rest);
            let jt = join_tail(rest);
            if trail {
                assert(join_tail(ss).push('/') =~= s0 + seq!['/'] + jt.push('/'));
                lemma_resolve_seg(s0, jt.push('/'), st);
            } else {
                assert(join_tail(ss) =~= s0 + seq!['/'] + jt);
                lemma_resolve_seg(s0, jt, st);
            }
            lemma_resolve_of_join(rest, st.push(s0), trail);
            assert(st.push(s0) + rest =~= st + ss);
        }
    }
}

/// The length of the leading run of non-`/` characters of `s`.
pub(crate) open spec fn seg_len(s: Seq<char>) -> int
    decreases s.len(),
{
    if s.len() == 0 || s[0] == '/' {
        0
    } else {
        1 + seg_len(s.drop_first())
    }
}

pub(crate) proof fn lemma_seg_len(s: Seq<char>)
    ensures
        0 <= seg_len(s) <= s.len(),
        forall|j: int| 0 <= j < seg_len(s) ==> s[j] != '/',
        seg_len(s) < s.len() ==> s[seg_len(s)] == '/',
    decreases s.len(),
{
    if s.len() == 0 || s[0] == '/' {
    } else {
        let d = s.drop_first();
        lemma_seg_len(d);
        assert forall|j: int| 0 <= j < seg_len(s) implies s[j] != '/' by {
            if j > 0 {
                assert(d[j - 1] != '/');
            }
        }
        if seg_len(s) < s.len() {
            assert(s[seg_len(s)] == d[seg_len(s) - 1]);
        }
    }
}

/// Resolving a suffix in which no `/` is doubled, no `.` follows a `/`, and
/// which begins with neither, pushes plain segments only; the join of what
/// it pushes is the suffix itself, less one trailing `/`.
pub(crate) proof fn lemma_resolve_nice(s: Seq<char>, st: Seq<Seq<char>>)
    requires
        s.len() > 0,
        s[0] != '/',
        s[0] != '.',
        forall|k: int|
            0 <= k && k + 1 < s.len() ==> !((#[trigger] s[k]) == '/' && (s[k + 1] == '/' || s[k
                + 1] == '.')),
        all_plain(st),
    ensures
        all_plain(resolve(s, Seq::empty(), st)),
        resolve(s, Seq::empty(), st).len() > st.len(),
        join_tail(resolve(s, Seq::empty(), st)) == if st.len() == 0 {
            strip_slash(s)
        } else {
            join_tail(st) + seq!['/'] + strip_slash(s)
        },
    decreases s.len(),
{
    let j = seg_len(s);
    lemma_seg_len(s);
    assert(j >= 1);
    let s0 = s.subrange(0, j);
    assert(plain_seg(s0)) by {
        assert(s0[0] == s[0]);
        assert(s0[0] != '.');
    }
    assert(all_plain(st.push(s0))) by {
        assert(forall|k: int|
            0 <= k < st.len() ==> st.push(s0)[k] == st[k] && plain_seg(#[trigger] st.push(s0)[k]));
        assert(st.push(s0)[st.len() as int] == s0);
    }
    lemma_join_tail_push(st, s0);
    if j == s.len() as int {
        assert(s0 =~= s);
        lemma_resolve_seg(s0, Seq::empty(), st);
        assert(resolve(s, Seq::empty(), st) == st.push(s0));
        assert(s.last() != '/');
        assert(strip_slash(s) == s);
    } else {
        let tail = s.subrange(j + 1, s.len() as int);
        assert(s =~= s0 + seq!['/'] + tail);
        lemma_resolve_seg(s0, tail, st);
        assert(resolve(s, Seq::empty(), st) == resolve(tail, Seq::empty(), st.push(s0)));
        if tail.len() == 0 {
            assert(resolve(tail, Seq::empty(), st.push(s0)) == push_seg(st.push(s0), Seq::empty()));
            assert(resolve(s, Seq::empty(), st) == st.push(s0));
            assert(s.last() == '/');
            assert(strip_slash(s) =~= s0);
        } else {
            assert(tail[0] == s[j + 1]);
            assert(s[j] == '/');
            assert(tail[0] != '/' && tail[0] != '.');
            assert forall|k: int|
                0 <= k && k + 1 < tail.len() implies !((#[trigger] tail[k]) == '/' && (tail[k + 1]
                == '/' || tail[k + 1] == '.')) by {
                assert(tail[k] == s[k + j + 1]);
                assert(tail[k + 1] == s[k + j + 2]);
                assert(!(s[k + j + 1] == '/' && (s[k + j + 2] == '/' || s[k + j + 2] == '.')));
            }
            lemma_resolve_nice(tail, st.push(s0));
            assert(join_tail(resolve(s, Seq::empty(), st)) == join_tail(st.push(s0)) + seq!['/']
                + strip_slash(tail));
            if tail.last() == '/' {
                assert(s.last() == '/');
                assert(strip_slash(s) =~= s0 + seq!['/'] + tail.drop_last());
                assert(strip_slash(tail) == tail.drop_last());
            } else {
                assert(s.last() == tail.last());
                assert(strip_slash(s) == s);
                assert(strip_slash(tail) == tail);
            }
            if st.len() == 0 {
                assert(join_tail(st.push(s0)) == s0);
                assert(s0 + seq!['/'] + strip_slash(tail) =~= strip_slash(s));
            } else {
                assert(join_tail(st.push(s0)) == join_tail(st) + seq!['/'] + s0);
                assert((join_tail(st) + seq!['/'] + s0) + seq!['/'] + strip_slash(tail) =~= join_tail(
                    st,
                ) + seq!['/'] + strip_slash(s));
            }
        }
    }
}

} // verus!
