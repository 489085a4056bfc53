//! Laws relating the trie's operations, stated over the same model that
//! the operations' contracts use and proved once and for all.

use vstd::prelude::*;
use crate::trie::Trie;

verus! {

/// After inserting `s` once, `s` is a stored entry: exact-existence
/// lookup reports true on it.
pub proof fn lemma_insert_then_contains(pre: Trie, post: Trie, s: Seq<char>)
    requires
        Trie::inserted(pre, post, s),
    ensures
        post.contains_entry(s),
{
    assert(post.count_of(s) == pre.count_of(s) + 1);
}

/// Inserting `s` touches no other string's count: any string other
/// than `s` — a proper prefix of `s` included — is a stored entry
/// afterwards only if it already was one. A string never inserted
/// therefore never becomes a stored entry, since a new trie stores
/// nothing at all.
pub proof fn lemma_insert_preserves_others(pre: Trie, post: Trie, s: Seq<char>, t: Seq<char>)
    requires
        Trie::inserted(pre, post, s),
        t != s,
    ensures
        post.count_of(t) == pre.count_of(t),
{
    assert(post.count_of(t) == pre.count_of(t) + 0);
}

/// Inserting the same string twice raises its count by exactly two and
/// changes no other count; that no duplicate nodes appear is stated by
/// `Trie::insert` itself, whose contract keeps the node count unchanged
/// whenever the string's path already exists.
pub proof fn lemma_reinsert_counts(t0: Trie, t1: Trie, t2: Trie, s: Seq<char>)
    requires
        Trie::inserted(t0, t1, s),
        Trie::inserted(t1, t2, s),
    ensures
        t2.count_of(s) == t0.count_of(s) + 2,
        forall|t: Seq<char>| t != s ==> #[trigger] t2.count_of(t) == t0.count_of(t),
{
    assert(t1.count_of(s) == t0.count_of(s) + 1);
    assert forall|t: Seq<char>| t != s implies #[trigger] t2.count_of(t) == t0.count_of(t) by {
        assert(t1.count_of(t) == t0.count_of(t) + 0);
        assert(t2.count_of(t) == t1.count_of(t) + 0);
    }
}

/// The empty prefix matches everything: a search for it returns exactly
/// the stored entries, under the same ranking as any other search.
pub proof fn lemma_search_empty_prefix(t: Trie, r: Seq<Seq<char>>)
    requires
        Trie::search_ok(t, Seq::empty(), r),
    ensures
        forall|v: Seq<char>| #[trigger] r.contains(v) <==> t.count_of(v) > 0,
{
    assert forall|v: Seq<char>| #[trigger] r.contains(v) <==> t.count_of(v) > 0 by {
        assert(Seq::<char>::empty().is_prefix_of(v)) by {
            assert(Seq::<char>::empty() =~= v.subrange(0, 0));
        }
        if t.count_of(v) > 0 {
            assert(r.contains(v));
        }
    }
}

/// A prefix under which nothing is stored yields an empty result.
pub proof fn lemma_search_no_match(t: Trie, p: Seq<char>, r: Seq<Seq<char>>)
    requires
        Trie::search_ok(t, p, r),
        forall|v: Seq<char>| p.is_prefix_of(v) ==> #[trigger] t.count_of(v) == 0,
    ensures
        r.len() == 0,
{
    if r.len() > 0 {
        assert(r.contains(r[0]));
        assert(p.is_prefix_of(r[0]) && t.count_of(r[0]) > 0);
        assert(false);
    }
}

} // verus!
