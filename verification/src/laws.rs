//! The laws of the canonicalizer: idempotence, confinement to the root,
//! slash collapse, the trailing-slash policy, and the fast path's agreement
//! with the rewrite.
use vstd::prelude::*;

use crate::lemmas::lemma_join_rest_is_slash_tail;
use crate::lemmas::lemma_join_rest_no_dot_seg;
use crate::lemmas::lemma_join_tail_shape;
use crate::lemmas::lemma_resolve_all_plain;
use crate::lemmas::lemma_resolve_nice;
use crate::lemmas::lemma_resolve_of_join;
use crate::model::all_plain;
use crate::model::canonical;
use crate::model::clean_stack;
use crate::model::cleaned;
use crate::model::dot_seg_at;
use crate::model::fast_path_ok;
use crate::model::has_extension;
use crate::model::join_rest;
use crate::model::join_tail;
use crate::model::no_double_slash;
use crate::model::push_seg;
use crate::model::resolve;
use crate::model::strip_slash;

verus! {

/// Law: canonicalization is idempotent. The canonical form of any path is
/// itself canonical, so canonicalizing it a second time changes nothing.
pub proof fn lemma_canonical_idempotent(p: Seq<char>)
    requires
        p.len() >= 1,
        p[0] == '/',
    ensures
        canonical(p).len() >= 1,
        canonical(p)[0] == '/',
        canonical(canonical(p)) == canonical(p),
{
    let st = clean_stack(p);
    lemma_resolve_all_plain(p.subrange(1, p.len() as int), Seq::empty(), Seq::empty());
    let q = canonical(p);
    if st.len() == 0 {
        assert(q =~= seq!['/']);
        assert(q.subrange(1, q.len() as int) =~= Seq::<char>::empty());
        assert(resolve(Seq::empty(), Seq::empty(), Seq::empty()) == push_seg(
            Seq::<Seq<char>>::empty(),
            Seq::empty(),
        ));
        assert(clean_stack(q).len() == 0);
        assert(canonical(q) =~= q);
    } else {
        lemma_join_tail_shape(st);
        let jt = join_tail(st);
        let c = seq!['/'] + jt;
        assert(c.last() == jt.last());
        if p.last() == '/' || !has_extension(c) {
            assert(q == c.push('/'));
            assert(q.subrange(1, q.len() as int) =~= jt.push('/'));
            lemma_resolve_of_join(st, Seq::empty(), true);
            assert(Seq::<Seq<char>>::empty() + st =~= st);
            assert(clean_stack(q) == st);
            assert(q.last() == '/');
            assert(canonical(q) == c.push('/'));
        } else {
            assert(q == c);
            assert(q.subrange(1, q.len() as int) =~= jt);
            lemma_resolve_of_join(st, Seq::empty(), false);
            assert(Seq::<Seq<char>>::empty() + st =~= st);
            assert(clean_stack(q) == st);
            assert(q.last() != '/');
            assert(has_extension(c));
            assert(canonical(q) == c);
        }
    }
}

/// Law: the canonical form never escapes above the root. It always begins
/// with `/`, every segment that survives cleaning is plain (nonempty, free
/// of `/`, and neither `.` nor `..`), and no complete `.` or `..` segment
/// stands anywhere in it — no unresolved `..` remains that could address a
/// parent of the root.
pub proof fn lemma_no_escape(p: Seq<char>)
    requires
        p.len() >= 1,
        p[0] == '/',
    ensures
        canonical(p).len() >= 1,
        canonical(p)[0] == '/',
        all_plain(clean_stack(p)),
        forall|k: int| !dot_seg_at(canonical(p), k),
{
    lemma_resolve_all_plain(p.subrange(1, p.len() as int), Seq::empty(), Seq::empty());
    let st = clean_stack(p);
    let q = canonical(p);
    if st.len() == 0 {
        assert(q =~= seq!['/']);
        assert forall|k: int| !dot_seg_at(q, k) by {}
    } else {
        lemma_join_rest_no_dot_seg(st);
        lemma_join_rest_is_slash_tail(st);
        lemma_join_tail_shape(st);
        let c = seq!['/'] + join_tail(st);
        assert(c == join_rest(st));
        if p.last() == '/' || !has_extension(c) {
            assert(q == c.push('/'));
            assert forall|k: int| !dot_seg_at(q, k) by {
                if dot_seg_at(q, k) {
                    if k < c.len() {
                        assert(q[k] == c[k]);
                        if k + 1 < c.len() {
                            assert(q[k + 1] == c[k + 1]);
                        } else {
                            assert(q[k + 1] == '/');
                        }
                        if 0 <= k + 2 < c.len() {
                            assert(q[k + 2] == c[k + 2]);
                        } else if k + 2 == c.len() {
                            assert(q[k + 2] == '/');
                        }
                        if 0 <= k + 3 < c.len() {
                            assert(q[k + 3] == c[k + 3]);
                        } else if k + 3 == c.len() {
                            assert(q[k + 3] == '/');
                        }
                        assert(dot_seg_at(c, k));
                        assert(false);
                    } else {
                        assert(k == c.len());
                        assert(false);
                    }
                }
            }
        } else {
            assert(q == c);
        }
    }
}

/// Law: every run of `/` collapses. The canonical form never holds two
/// adjacent `/`.
pub proof fn lemma_slash_collapse(p: Seq<char>)
    requires
        p.len() >= 1,
        p[0] == '/',
    ensures
        no_double_slash(canonical(p)),
{
    let st = clean_stack(p);
    lemma_resolve_all_plain(p.subrange(1, p.len() as int), Seq::empty(), Seq::empty());
    let q = canonical(p);
    if st.len() == 0 {
        assert(q =~= seq!['/']);
    } else {
        lemma_join_tail_shape(st);
        let jt = join_tail(st);
        let c = seq!['/'] + jt;
        assert(no_double_slash(c)) by {
            assert forall|k: int|
                0 <= k && k + 1 < c.len() implies !((#[trigger] c[k]) == '/' && c[k + 1]
                == '/') by {
                if k == 0 {
                    assert(c[1] == jt[0]);
                } else {
                    assert(c[k] == jt[k - 1]);
                    assert(c[k + 1] == jt[k]);
                }
            }
        }
        if p.last() == '/' || !has_extension(c) {
            assert(q == c.push('/'));
            assert forall|k: int|
                0 <= k && k + 1 < q.len() implies !((#[trigger] q[k]) == '/' && q[k + 1]
                == '/') by {
                if k + 1 < c.len() {
                    assert(q[k] == c[k] && q[k + 1] == c[k + 1]);
                } else {
                    assert(q[k] == c[k]);
                    assert(c[k] == jt[k - 1]);
                    assert(jt[jt.len() - 1] == jt.last());
                }
            }
        }
    }
}

/// Law: the trailing-slash policy. For a path whose cleaned form is not the
/// root, the canonical form ends with `/` iff the input ended with `/` or
/// the cleaned form carries no extension.
pub proof fn lemma_trailing_slash_policy(p: Seq<char>)
    requires
        p.len() >= 1,
        p[0] == '/',
        clean_stack(p).len() > 0,
    ensures
        canonical(p).last() == '/' <==> (p.last() == '/' || !has_extension(cleaned(p))),
{
    let st = clean_stack(p);
    lemma_resolve_all_plain(p.subrange(1, p.len() as int), Seq::empty(), Seq::empty());
    lemma_join_tail_shape(st);
    let jt = join_tail(st);
    let c = seq!['/'] + jt;
    assert(c.last() == jt.last());
    assert(cleaned(p) == c);
}

/// Law: the fast path agrees with the rewrite. Whenever the fast-path
/// conditions hold of a path, the full rewrite would return it unchanged.
pub proof fn lemma_fast_path_canonical(p: Seq<char>)
    requires
        p.len() >= 1,
        p[0] == '/',
        fast_path_ok(p),
    ensures
        canonical(p) == p,
{
    let s = p.subrange(1, p.len() as int);
    if p.len() == 1 {
        assert(s =~= Seq::<char>::empty());
        assert(resolve(Seq::empty(), Seq::empty(), Seq::empty()) == push_seg(
            Seq::<Seq<char>>::empty(),
            Seq::empty(),
        ));
        assert(clean_stack(p).len() == 0);
        assert(canonical(p) =~= p);
    } else {
        assert(s[0] == p[1]);
        assert(!(p[0] == '/' && p[1] == '/'));
        assert(!(p[0] == '/' && p[1] == '.'));
        assert forall|k: int|
            0 <= k && k + 1 < s.len() implies !((#[trigger] s[k]) == '/' && (s[k + 1] == '/' || s[k
            + 1] == '.')) by {
            assert(s[k] == p[k + 1]);
            assert(s[k + 1] == p[k + 2]);
            assert(!(p[k + 1] == '/' && p[k + 2] == '/'));
            assert(!(p[k + 1] == '/' && p[k + 2] == '.'));
        }
        lemma_resolve_nice(s, Seq::empty());
        let st = clean_stack(p);
        assert(st.len() > 0);
        assert(join_tail(st) == strip_slash(s));
        let c = seq!['/'] + join_tail(st);
        assert(s.last() == p.last());
        if p.last() == '/' {
            assert(strip_slash(s) == s.drop_last());
            assert(c.push('/') =~= p);
            assert(!has_extension(p));
            assert(canonical(p) == c.push('/'));
        } else {
            assert(strip_slash(s) == s);
            assert(c =~= p);
            assert(has_extension(p));
            assert(canonical(p) == c);
        }
    }
}

} // verus!
