//! Ranking of autocomplete results: entries carry the stored string and
//! its insertion count, and are ordered by descending count with ties
//! broken by ascending lexicographic value.

use vstd::prelude::*;
use crate::order::{lex_lt, lemma_lex_lt_total, lemma_lex_lt_trans};

verus! {

/// A collected result: a stored string together with how many times it
/// was inserted.
pub struct Entry {
    pub count: usize,
    pub value: String,
}

/// The ranking order on results: a higher count ranks first; equal
/// counts are ordered by ascending lexicographic value.
pub open spec fn rank_before(c1: nat, v1: Seq<char>, c2: nat, v2: Seq<char>) -> bool {
    c1 > c2 || (c1 == c2 && lex_lt(v1, v2))
}

pub(crate) open spec fn entry_before(a: Entry, b: Entry) -> bool {
    rank_before(a.count as nat, a.value@, b.count as nat, b.value@)
}

pub(crate) open spec fn sorted_entries(es: Seq<Entry>) -> bool {
    forall|i: int, j: int| 0 <= i < j < es.len() ==> entry_before(es[i], es[j])
}

pub(crate) open spec fn distinct_values(es: Seq<Entry>) -> bool {
    forall|i: int, j: int|
        0 <= i < j < es.len() ==> (#[trigger] es[i]).value@ != (#[trigger] es[j]).value@
}

pub(crate) open spec fn has_pair(es: Seq<Entry>, c: nat, v: Seq<char>) -> bool {
    exists|k: int| 0 <= k < es.len() && (#[trigger] es[k]).count as nat == c && es[k].value@ == v
}

pub(crate) open spec fn has_value(es: Seq<Entry>, v: Seq<char>) -> bool {
    exists|k: int| 0 <= k < es.len() && (#[trigger] es[k]).value@ == v
}

/// The ranking order is total over entries with distinct values.
proof fn lemma_entry_total(a: Entry, b: Entry)
    requires
        a.value@ != b.value@,
    ensures
        entry_before(a, b) || entry_before(b, a),
{
    lemma_lex_lt_total(a.value@, b.value@);
}

/// The ranking order is transitive.
proof fn lemma_entry_trans(a: Entry, b: Entry, c: Entry)
    requires
        entry_before(a, b),
        entry_before(b, c),
    ensures
        entry_before(a, c),
{
    if a.count == b.count && b.count == c.count {
        lemma_lex_lt_trans(a.value@, b.value@, c.value@);
    }
}

fn entry_before_exec(a: &Entry, b: &Entry) -> (r: bool)
    ensures
        r == entry_before(*a, *b),
{
    if a.count > b.count {
        true
    } else if a.count == b.count {
        crate::order::str_lex_lt(a.value.as_str(), b.value.as_str())
    } else {
        false
    }
}

/// Insert a new entry at its ranked position, keeping the collection
/// sorted; the entry's value must not be present yet.
pub(crate) fn insert_sorted(out: &mut Vec<Entry>, e: Entry)
    requires
        sorted_entries(old(out)@),
        distinct_values(old(out)@),
        !has_value(old(out)@, e.value@),
    ensures
        sorted_entries(final(out)@),
        distinct_values(final(out)@),
        final(out)@.len() == old(out)@.len() + 1,
        forall|c: nat, v: Seq<char>| #![trigger has_pair(final(out)@, c, v)]
            has_pair(final(out)@, c, v) <==> (has_pair(old(out)@, c, v) || (c == e.count as nat
                && v == e.value@)),
        forall|v: Seq<char>| #![trigger has_value(final(out)@, v)]
            has_value(final(out)@, v) <==> (has_value(old(out)@, v) || v == e.value@),
{
    let ghost pre = out@;
    let mut pos: usize = 0;
    while pos < out.len() && entry_before_exec(&out[pos], &e)
        invariant
            pos <= out.len(),
            out@ == pre,
            forall|j: int| 0 <= j < pos ==> entry_before(pre[j], e),
        decreases out.len() - pos,
    {
        assert(entry_before(pre[pos as int], e));
        pos = pos + 1;
    }
    proof {
        if (pos as int) < pre.len() {
            assert(pre[pos as int].value@ != e.value@);
            lemma_entry_total(pre[pos as int], e);
            assert(entry_before(e, pre[pos as int]));
        }
        assert forall|k: int| pos <= k < pre.len() implies entry_before(e, pre[k]) by {
            if k > pos as int {
                assert(entry_before(pre[pos as int], pre[k]));
                lemma_entry_trans(e, pre[pos as int], pre[k]);
            }
        }
    }
    out.insert(pos, e);
    proof {
        let post = out@;
        assert(post == pre.insert(pos as int, e));
        assert forall|i: int, j: int| 0 <= i < j < post.len() implies entry_before(
            post[i],
            post[j],
        ) by {
            let i0 = if i < pos as int { i } else { i - 1 };
            let j0 = if j < pos as int { j } else { j - 1 };
            if i == pos as int {
                assert(post[j] == pre[j0]);
                assert(entry_before(e, pre[j0]));
            } else if j == pos as int {
                assert(post[i] == pre[i0]);
                assert(entry_before(pre[i0], e));
            } else {
                assert(post[i] == pre[i0]);
                assert(post[j] == pre[j0]);
                assert(entry_before(pre[i0], pre[j0]));
            }
        }
        assert forall|i: int, j: int| 0 <= i < j < post.len() implies (#[trigger] post[i]).value@
            != (#[trigger] post[j]).value@ by {
            let i0 = if i < pos as int { i } else { i - 1 };
            let j0 = if j < pos as int { j } else { j - 1 };
            if i == pos as int {
                assert(post[j] == pre[j0]);
                if post[i].value@ == post[j].value@ {
                    assert(has_value(pre, e.value@));
                }
            } else if j == pos as int {
                assert(post[i] == pre[i0]);
                if post[i].value@ == post[j].value@ {
                    assert(has_value(pre, e.value@));
                }
            } else {
                assert(post[i] == pre[i0]);
                assert(post[j] == pre[j0]);
            }
        }
        assert forall|c: nat, v: Seq<char>|
            has_pair(post, c, v) <==> (has_pair(pre, c, v) || (c == e.count as nat && v
                == e.value@)) by {
            if has_pair(post, c, v) {
                let k = choose|k: int|
                    0 <= k < post.len() && (#[trigger] post[k]).count as nat == c && post[k].value@
                        == v;
                if k == pos as int {
                } else {
                    let k0 = if k < pos as int { k } else { k - 1 };
                    assert(post[k] == pre[k0]);
                    assert(has_pair(pre, c, v));
                }
            }
            if has_pair(pre, c, v) {
                let k = choose|k: int|
                    0 <= k < pre.len() && (#[trigger] pre[k]).count as nat == c && pre[k].value@
                        == v;
                let k2 = if k < pos as int { k } else { k + 1 };
                assert(post[k2] == pre[k]);
                assert(has_pair(post, c, v));
            }
            if c == e.count as nat && v == e.value@ {
                assert(post[pos as int] == e);
                assert(has_pair(post, c, v));
            }
        }
        assert forall|v: Seq<char>|
            has_value(post, v) <==> (has_value(pre, v) || v == e.value@) by {
            if has_value(post, v) {
                let k = choose|k: int| 0 <= k < post.len() && (#[trigger] post[k]).value@ == v;
                if k == pos as int {
                } else {
                    let k0 = if k < pos as int { k } else { k - 1 };
                    assert(post[k] == pre[k0]);
                    assert(has_value(pre, v));
                }
            }
            if has_value(pre, v) {
                let k = choose|k: int| 0 <= k < pre.len() && (#[trigger] pre[k]).value@ == v;
                let k2 = if k < pos as int { k } else { k + 1 };
                assert(post[k2] == pre[k]);
                assert(has_value(post, v));
            }
            if v == e.value@ {
                assert(post[pos as int] == e);
                assert(has_value(post, v));
            }
        }
    }
}

} // verus!
