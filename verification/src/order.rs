//! Orderings used by the trie: codepoint order on characters and
//! lexicographic order on character sequences.

use vstd::prelude::*;

verus! {

/// Natural (codepoint) order on characters.
pub open spec fn char_lt(a: char, b: char) -> bool {
    (a as int) < (b as int)
}

/// Lexicographic order on character sequences, using codepoint order
/// character by character; a proper prefix comes before its extensions.
pub open spec fn lex_lt(a: Seq<char>, b: Seq<char>) -> bool
    decreases a.len(),
{
    if b.len() == 0 {
        false
    } else if a.len() == 0 {
        true
    } else if char_lt(a[0], b[0]) {
        true
    } else if char_lt(b[0], a[0]) {
        false
    } else {
        lex_lt(a.skip(1), b.skip(1))
    }
}

proof fn chars_equal(a: char, b: char)
    requires
        !char_lt(a, b),
        !char_lt(b, a),
    ensures
        a == b,
{
}

} // verus!

verus! {

/// Two distinct sequences are lexicographically comparable one way or
/// the other: the order is total.
pub proof fn lemma_lex_lt_total(a: Seq<char>, b: Seq<char>)
    requires
        a != b,
    ensures
        lex_lt(a, b) || lex_lt(b, a),
    decreases a.len(),
{
    if b.len() == 0 {
        if a.len() == 0 {
            assert(a =~= b);
        } else {
            assert(lex_lt(b, a));
        }
    } else if a.len() == 0 {
        assert(lex_lt(a, b));
    } else if char_lt(a[0], b[0]) || char_lt(b[0], a[0]) {
    } else {
        assert(a[0] == b[0]);
        if a.skip(1) == b.skip(1) {
            lemma_heads_tails(a, b);
            assert(false);
        } else {
            lemma_lex_lt_total(a.skip(1), b.skip(1));
        }
    }
}

/// Lexicographic order is transitive.
pub proof fn lemma_lex_lt_trans(a: Seq<char>, b: Seq<char>, c: Seq<char>)
    requires
        lex_lt(a, b),
        lex_lt(b, c),
    ensures
        lex_lt(a, c),
    decreases a.len(),
{
    if c.len() == 0 || b.len() == 0 {
    } else if a.len() == 0 {
    } else {
        if !char_lt(a[0], c[0]) && !char_lt(c[0], a[0]) {
            assert(a[0] == c[0]);
            if a[0] == b[0] && b[0] == c[0] {
                lemma_lex_lt_trans(a.skip(1), b.skip(1), c.skip(1));
            }
        }
    }
}

/// Two nonempty sequences with equal heads and equal tails are equal.
pub proof fn lemma_heads_tails(t: Seq<char>, u: Seq<char>)
    requires
        t.len() > 0,
        u.len() > 0,
        t[0] == u[0],
        t.skip(1) == u.skip(1),
    ensures
        t == u,
{
    assert(t.skip(1).len() == t.len() - 1);
    assert(u.skip(1).len() == u.len() - 1);
    assert forall|j: int| 0 <= j < t.len() implies t[j] == u[j] by {
        if j > 0 {
            assert(t.skip(1)[j - 1] == t[j]);
            assert(u.skip(1)[j - 1] == u[j]);
        }
    }
    assert(t =~= u);
}

/// Lexicographic comparison of two strings, character by character.
pub fn str_lex_lt(a: &str, b: &str) -> (r: bool)
    ensures
        r == lex_lt(a@, b@),
{
    let na = a.unicode_len();
    let nb = b.unicode_len();
    let mut i: usize = 0;
    proof {
        assert(a@.skip(0) =~= a@);
        assert(b@.skip(0) =~= b@);
    }
    while i < na && i < nb
        invariant
            i <= na,
            i <= nb,
            na == a@.len(),
            nb == b@.len(),
            lex_lt(a@, b@) == lex_lt(a@.skip(i as int), b@.skip(i as int)),
        decreases na - i,
    {
        let ca = a.get_char(i);
        let cb = b.get_char(i);
        if ca < cb {
            assert(lex_lt(a@.skip(i as int), b@.skip(i as int)));
            return true;
        } else if cb < ca {
            assert(!lex_lt(a@.skip(i as int), b@.skip(i as int)));
            return false;
        }
        proof {
            assert(a@.skip(i as int).skip(1) =~= a@.skip(i as int + 1));
            assert(b@.skip(i as int).skip(1) =~= b@.skip(i as int + 1));
        }
        i = i + 1;
    }
    if i < nb {
        assert(a@.skip(i as int).len() == 0);
        assert(lex_lt(a@.skip(i as int), b@.skip(i as int)));
        true
    } else {
        assert(b@.skip(i as int).len() == 0);
        false
    }
}

} // verus!
