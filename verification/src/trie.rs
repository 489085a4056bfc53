//! The trie itself: nodes with key-sorted children, and the public
//! insertion, exact-lookup and ranked-search operations.

use vstd::prelude::*;
use vstd::string::*;
use crate::order::char_lt;
use crate::rank::{Entry, rank_before, entry_before, sorted_entries, distinct_values, has_pair, has_value, insert_sorted};

verus! {

/// One node of the trie. Its children are kept sorted and unique by
/// key at all times; `count` says how many times the string spelled by
/// the path from the root to this node has been inserted, and `value`
/// holds that very string whenever `count > 0`.
pub struct Node {
    pub(crate) key: Option<char>,
    pub(crate) value: Option<String>,
    pub(crate) count: usize,
    pub(crate) children: Vec<Node>,
}

impl Node {
    pub closed spec fn spec_key(self) -> Option<char> {
        self.key
    }

    pub(crate) open spec fn child_key(self, i: int) -> char {
        self.children[i].key.unwrap()
    }

    /// Well-formedness of the subtree rooted here, given the string of
    /// characters `path` spelled on the way down from the root.
    pub closed spec fn wf(self, path: Seq<char>) -> bool
        decreases self,
    {
        &&& (self.count > 0 <==> self.value is Some)
        &&& (self.value matches Some(v) ==> v@ == path)
        &&& (forall|i: int|
            0 <= i < self.children.len() ==> (#[trigger] self.children[i]).key is Some)
        &&& (forall|i: int, j: int|
            0 <= i < j < self.children.len() ==> char_lt(self.child_key(i), self.child_key(j)))
        &&& (forall|i: int|
            0 <= i < self.children.len() ==> (#[trigger] self.children[i]).wf(
                path.push(self.child_key(i)),
            ))
    }

    pub(crate) open spec fn has_child(self, c: char) -> bool {
        exists|i: int| 0 <= i < self.children.len() && (#[trigger] self.children[i]).key == Some(c)
    }

    pub(crate) open spec fn child_idx(self, c: char) -> int {
        choose|i: int| 0 <= i < self.children.len() && (#[trigger] self.children[i]).key == Some(c)
    }

    /// The node reached from here by following the characters of `s`.
    pub(crate) open spec fn subtrie(self, s: Seq<char>) -> Option<Node>
        decreases s.len(),
    {
        if s.len() == 0 {
            Some(self)
        } else if self.has_child(s[0]) {
            self.children[self.child_idx(s[0])].subtrie(s.skip(1))
        } else {
            None
        }
    }

    /// How many times the string `s` (relative to this node) has been inserted.
    pub closed spec fn count_of(self, s: Seq<char>) -> nat {
        match self.subtrie(s) {
            Some(n) => n.count as nat,
            None => 0,
        }
    }

    /// Total number of nodes in the subtree rooted here, this node included.
    pub closed spec fn size(self) -> nat
        decreases self,
    {
        1 + Node::seq_size(self.children@)
    }

    pub(crate) open spec fn seq_size(s: Seq<Node>) -> nat
        decreases s,
    {
        if s.len() == 0 {
            0
        } else {
            s[0].size() + Node::seq_size(s.skip(1))
        }
    }

    pub fn new() -> (n: Node)
        ensures
            n.spec_key() is None,
            forall|p: Seq<char>| n.wf(p),
            forall|s: Seq<char>| n.count_of(s) == 0,
            n.size() == 1,
    {
        Node { key: None, value: None, count: 0, children: Vec::new() }
    }

    pub fn with_key(c: char) -> (n: Node)
        ensures
            n.spec_key() == Some(c),
            forall|p: Seq<char>| n.wf(p),
            forall|s: Seq<char>| n.count_of(s) == 0,
            n.size() == 1,
    {
        Node { key: Some(c), value: None, count: 0, children: Vec::new() }
    }
}


/// Structural part of well-formedness that the renderer needs: every
/// child, everywhere below, carries a key.
pub(crate) open spec fn keys_ok(n: Node) -> bool
    decreases n,
{
    forall|i: int|
        0 <= i < n.children.len() ==> ((#[trigger] n.children[i]).key is Some && keys_ok(
            n.children[i],
        ))
}

/// Well-formedness implies that every child below carries a key.
pub(crate) proof fn lemma_wf_keys_ok(n: Node, path: Seq<char>)
    requires
        n.wf(path),
    ensures
        keys_ok(n),
    decreases n,
{
    assert forall|i: int|
        0 <= i < n.children.len() implies ((#[trigger] n.children[i]).key is Some && keys_ok(
        n.children[i],
    )) by {
        lemma_wf_keys_ok(n.children[i], path.push(n.child_key(i)));
    }
}

/// A node's size is itself plus the total size of its children.
pub(crate) proof fn lemma_size_unfold(n: Node)
    ensures
        n.size() == 1 + Node::seq_size(n.children@),
{
}

/// A well-formed trie has a well-formed root, reached by the empty path.
pub(crate) proof fn lemma_trie_wf_root(t: Trie)
    requires
        t.wf(),
    ensures
        t.root.wf(Seq::empty()),
{
}

/// Under sortedness, a child index is the unique witness for its key:
/// `child_idx` of the key at position `i` is `i` itself.
pub(crate) proof fn lemma_child_at(n: Node, path: Seq<char>, i: int)
    requires
        n.wf(path),
        0 <= i < n.children.len(),
    ensures
        n.has_child(n.child_key(i)),
        n.child_idx(n.child_key(i)) == i,
{
    let c = n.child_key(i);
    assert(n.children[i].key == Some(c));
    assert(n.has_child(c));
    let j = n.child_idx(c);
    if j < i {
        assert(char_lt(n.child_key(j), n.child_key(i)));
        assert(false);
    }
    if j > i {
        assert(char_lt(n.child_key(i), n.child_key(j)));
        assert(false);
    }
}

/// Ordered (binary) search among a sorted children collection.
/// `Ok(i)` is the position of the child keyed `c`; `Err(i)` is the
/// position where such a child would have to be inserted.
fn find_child(children: &Vec<Node>, c: char) -> (r: Result<usize, usize>)
    requires
        forall|i: int| 0 <= i < children.len() ==> (#[trigger] children[i]).key is Some,
        forall|i: int, j: int|
            0 <= i < j < children.len() ==> char_lt(
                children[i].key.unwrap(),
                children[j].key.unwrap(),
            ),
    ensures
        match r {
            Ok(i) => i < children.len() && children[i as int].key == Some(c),
            Err(i) => {
                &&& i <= children.len()
                &&& forall|j: int| 0 <= j < i ==> char_lt((#[trigger] children[j]).key.unwrap(), c)
                &&& forall|j: int|
                    i <= j < children.len() ==> char_lt(c, (#[trigger] children[j]).key.unwrap())
            },
        },
{
    let mut lo: usize = 0;
    let mut hi: usize = children.len();
    while lo < hi
        invariant
            lo <= hi <= children.len(),
            forall|i: int| 0 <= i < children.len() ==> (#[trigger] children[i]).key is Some,
            forall|i: int, j: int|
                0 <= i < j < children.len() ==> char_lt(
                    children[i].key.unwrap(),
                    children[j].key.unwrap(),
                ),
            forall|j: int| 0 <= j < lo ==> char_lt((#[trigger] children[j]).key.unwrap(), c),
            forall|j: int|
                hi <= j < children.len() ==> char_lt(c, (#[trigger] children[j]).key.unwrap()),
        decreases hi - lo,
    {
        let mid = lo + (hi - lo) / 2;
        let kopt = children[mid].key;
        if let Some(k) = kopt {
            if k < c {
                proof {
                    assert forall|j: int| 0 <= j <= mid implies char_lt(
                        (#[trigger] children[j]).key.unwrap(),
                        c,
                    ) by {
                        if j < mid {
                            assert(char_lt(children[j].key.unwrap(), children[mid as int].key.unwrap()));
                        }
                    }
                }
                lo = mid + 1;
            } else if c < k {
                proof {
                    assert forall|j: int| mid <= j < children.len() implies char_lt(
                        c,
                        (#[trigger] children[j]).key.unwrap(),
                    ) by {
                        if j > mid {
                            assert(char_lt(children[mid as int].key.unwrap(), children[j].key.unwrap()));
                        }
                    }
                }
                hi = mid;
            } else {
                assert(k == c);
                return Ok(mid);
            }
        } else {
            assert(false);
            return Err(0);
        }
    }
    Err(lo)
}

/// Walk down from `node` along the characters of `s` from position `i` on,
/// never creating nodes; the result is the subtree the suffix leads to.
fn descend<'a>(node: &'a Node, s: &str, i: usize, Ghost(path): Ghost<Seq<char>>) -> (r: Option<
    &'a Node,
>)
    requires
        node.wf(path),
        i <= s@.len(),
    ensures
        match r {
            Some(n) => node.subtrie(s@.skip(i as int)) == Some(*n) && n.wf(path + s@.skip(i as int)),
            None => node.subtrie(s@.skip(i as int)) is None,
        },
    decreases s@.len() - i,
{
    let ghost suffix = s@.skip(i as int);
    if i == s.unicode_len() {
        proof {
            assert(suffix =~= Seq::<char>::empty());
            assert(path + suffix =~= path);
        }
        Some(node)
    } else {
        let c = s.get_char(i);
        assert(suffix[0] == c);
        match find_child(&node.children, c) {
            Ok(idx) => {
                proof {
                    lemma_child_at(*node, path, idx as int);
                    assert(node.child_idx(c) == idx);
                    assert(suffix.skip(1) =~= s@.skip(i as int + 1));
                    assert(path.push(c) + s@.skip(i as int + 1) =~= path + suffix);
                }
                descend(&node.children[idx], s, i + 1, Ghost(path.push(c)))
            },
            Err(_) => {
                proof {
                    if node.has_child(c) {
                        let j = node.child_idx(c);
                        assert(char_lt(c, c));
                    }
                }
                None
            },
        }
    }
}

/// Updating one element of a children sequence changes the total size by
/// the difference between the new and the old element's size.
proof fn lemma_seq_size_update(s: Seq<Node>, i: int, x: Node)
    requires
        0 <= i < s.len(),
    ensures
        Node::seq_size(s.update(i, x)) + s[i].size() == Node::seq_size(s) + x.size(),
    decreases s.len(),
{
    if i == 0 {
        assert(s.update(0, x)[0] == x);
        assert(s.update(0, x).skip(1) =~= s.skip(1));
    } else {
        assert(s.update(i, x)[0] == s[0]);
        assert(s.update(i, x).skip(1) =~= s.skip(1).update(i - 1, x));
        lemma_seq_size_update(s.skip(1), i - 1, x);
    }
}

/// Recursive insertion: walk the characters of `s` from position `i` on,
/// creating missing children in sorted position, then mark the terminal.
fn insert_rec(node: &mut Node, s: &str, i: usize, Ghost(path): Ghost<Seq<char>>)
    requires
        old(node).wf(path),
        path == s@.subrange(0, i as int),
        i <= s@.len(),
        old(node).count_of(s@.skip(i as int)) < usize::MAX,
    ensures
        final(node).wf(path),
        final(node).key == old(node).key,
        forall|t: Seq<char>|
            final(node).count_of(t) == old(node).count_of(t) + (if t == s@.skip(i as int) {
                1nat
            } else {
                0nat
            }),
        final(node).subtrie(s@.skip(i as int)) is Some,
        old(node).subtrie(s@.skip(i as int)) is Some ==> final(node).size() == old(node).size(),
    decreases s@.len() - i,
{
    let ghost od = *node;
    let ghost suffix = s@.skip(i as int);
    if i == s.unicode_len() {
        proof {
            assert(suffix =~= Seq::<char>::empty());
            assert(path =~= s@);
        }
        node.count = node.count + 1;
        node.value = Some(String::from_str(s));
        proof {
            let nw = *node;
            assert(nw.wf(path));
            assert forall|t: Seq<char>|
                nw.count_of(t) == od.count_of(t) + (if t == suffix {
                    1nat
                } else {
                    0nat
                }) by {
                if t.len() == 0 {
                    assert(t =~= suffix);
                } else {
                    assert(t != suffix);
                    assert(nw.subtrie(t) == od.subtrie(t));
                }
            }
        }
    } else {
        let c = s.get_char(i);
        proof {
            assert(suffix[0] == c);
            assert(suffix.skip(1) =~= s@.skip(i as int + 1));
            assert(path.push(c) =~= s@.subrange(0, i as int + 1));
        }
        match find_child(&node.children, c) {
            Ok(idx) => {
                proof {
                    lemma_child_at(od, path, idx as int);
                    assert(od.child_idx(c) == idx);
                    assert(od.count_of(suffix) == od.children[idx as int].count_of(suffix.skip(1)));
                }
                let mut child = node.children.remove(idx);
                insert_rec(&mut child, s, i + 1, Ghost(path.push(c)));
                let ghost childg = child;
                node.children.insert(idx, child);
                proof {
                    let nw = *node;
                    let oc = od.children@[idx as int];
                    assert(nw.children@ =~= od.children@.update(idx as int, childg));
                    assert(childg.key == Some(c));
                    // well-formedness
                    assert forall|a: int, b: int|
                        0 <= a < b < nw.children.len() implies char_lt(
                        nw.child_key(a),
                        nw.child_key(b),
                    ) by {
                        assert(char_lt(od.child_key(a), od.child_key(b)));
                    }
                    assert forall|a: int| 0 <= a < nw.children.len() implies (
                    #[trigger] nw.children[a]).wf(path.push(nw.child_key(a))) by {
                        if a != idx as int {
                            assert(od.children[a].wf(path.push(od.child_key(a))));
                        }
                    }
                    assert(nw.wf(path));
                    // the count model
                    lemma_child_at(nw, path, idx as int);
                    assert forall|t: Seq<char>|
                        nw.count_of(t) == od.count_of(t) + (if t == suffix {
                            1nat
                        } else {
                            0nat
                        }) by {
                        if t.len() == 0 {
                            assert(t != suffix);
                            assert(nw.subtrie(t) == Some(nw));
                            assert(od.subtrie(t) == Some(od));
                        } else if t[0] == c {
                            assert(nw.child_idx(c) == idx);
                            assert(nw.count_of(t) == childg.count_of(t.skip(1)));
                            assert(od.count_of(t) == oc.count_of(t.skip(1)));
                            if t.skip(1) == suffix.skip(1) {
                                crate::order::lemma_heads_tails(t, suffix);
                                assert(t == suffix);
                            } else {
                                assert(t != suffix);
                            }
                        } else {
                            // a child keyed differently is untouched
                            if od.has_child(t[0]) {
                                let j = od.child_idx(t[0]);
                                assert(od.children[j].key == Some(t[0]));
                                assert(nw.children[j] == od.children[j]);
                                lemma_child_at(nw, path, j);
                                assert(nw.child_idx(t[0]) == j);
                                assert(nw.subtrie(t) == od.subtrie(t));
                            } else {
                                if nw.has_child(t[0]) {
                                    let j = nw.child_idx(t[0]);
                                    assert(nw.children[j].key == Some(t[0]));
                                    assert(od.children[j].key == Some(t[0]));
                                    assert(false);
                                }
                            }
                        }
                    }
                    // structure: the path existed, so no node was added
                    if od.subtrie(suffix) is Some {
                        assert(oc.subtrie(suffix.skip(1)) is Some);
                        assert(childg.size() == oc.size());
                        lemma_seq_size_update(od.children@, idx as int, childg);
                    }
                    assert(nw.subtrie(suffix) is Some);
                }
            },
            Err(idx) => {
                proof {
                    if od.has_child(c) {
                        let j = od.child_idx(c);
                        assert(od.children[j].key == Some(c));
                        assert(char_lt(c, c));
                    }
                    assert(od.subtrie(suffix) is None);
                    assert(od.count_of(suffix) == 0);
                }
                let mut child = Node::with_key(c);
                insert_rec(&mut child, s, i + 1, Ghost(path.push(c)));
                let ghost childg = child;
                node.children.insert(idx, child);
                proof {
                    let nw = *node;
                    assert(nw.children@ == od.children@.insert(idx as int, childg));
                    assert(childg.key == Some(c));
                    assert forall|a: int| 0 <= a < nw.children.len() implies (
                    #[trigger] nw.children[a]).key is Some by {
                        if a < idx as int {
                            assert(nw.children[a] == od.children[a]);
                        } else if a > idx as int {
                            assert(nw.children[a] == od.children[a - 1]);
                        }
                    }
                    assert forall|a: int, b: int|
                        0 <= a < b < nw.children.len() implies char_lt(
                        nw.child_key(a),
                        nw.child_key(b),
                    ) by {
                        if a < idx as int {
                            assert(char_lt(od.child_key(a), c));
                        }
                        if b > idx as int {
                            assert(char_lt(c, od.child_key(b - 1)));
                        }
                        if a != idx as int && b != idx as int {
                            let a0 = if a < idx as int { a } else { a - 1 };
                            let b0 = if b < idx as int { b } else { b - 1 };
                            assert(char_lt(od.child_key(a0), od.child_key(b0)));
                        }
                    }
                    assert forall|a: int| 0 <= a < nw.children.len() implies (
                    #[trigger] nw.children[a]).wf(path.push(nw.child_key(a))) by {
                        if a < idx as int {
                            assert(od.children[a].wf(path.push(od.child_key(a))));
                        } else if a > idx as int {
                            assert(od.children[a - 1].wf(path.push(od.child_key(a - 1))));
                        }
                    }
                    assert(nw.wf(path));
                    lemma_child_at(nw, path, idx as int);
                    assert forall|t: Seq<char>|
                        nw.count_of(t) == od.count_of(t) + (if t == suffix {
                            1nat
                        } else {
                            0nat
                        }) by {
                        if t.len() == 0 {
                            assert(t != suffix);
                            assert(nw.subtrie(t) == Some(nw));
                            assert(od.subtrie(t) == Some(od));
                        } else if t[0] == c {
                            assert(nw.child_idx(c) == idx);
                            assert(nw.count_of(t) == childg.count_of(t.skip(1)));
                            assert(od.subtrie(t) is None);
                            if t.skip(1) == suffix.skip(1) {
                                crate::order::lemma_heads_tails(t, suffix);
                            } else {
                                assert(t != suffix);
                            }
                        } else {
                            if od.has_child(t[0]) {
                                let j = od.child_idx(t[0]);
                                assert(od.children[j].key == Some(t[0]));
                                let j2 = if j < idx as int { j } else { j + 1 };
                                assert(nw.children[j2] == od.children[j]);
                                lemma_child_at(nw, path, j2);
                                assert(nw.child_idx(t[0]) == j2);
                                assert(nw.subtrie(t) == od.subtrie(t));
                            } else {
                                if nw.has_child(t[0]) {
                                    let j = nw.child_idx(t[0]);
                                    assert(nw.children[j].key == Some(t[0]));
                                    let j0 = if j < idx as int { j } else { j - 1 };
                                    assert(od.children[j0].key == Some(t[0]));
                                    assert(false);
                                }
                            }
                        }
                    }
                    assert(nw.subtrie(suffix) is Some);
                }
            },
        }
    }
}

/// A pair `(c, v)` that belongs to the subtree at `node`, reached by
/// `path`: `v` extends `path` and has been inserted `c > 0` times.
pub(crate) open spec fn sub_pair(node: Node, path: Seq<char>, c: nat, v: Seq<char>) -> bool {
    &&& path.is_prefix_of(v)
    &&& c == node.count_of(v.skip(path.len() as int))
    &&& c > 0
}

/// A stored entry `v` in the subtree at `node`, reached by `path`.
pub(crate) open spec fn sub_value(node: Node, path: Seq<char>, v: Seq<char>) -> bool {
    &&& path.is_prefix_of(v)
    &&& node.count_of(v.skip(path.len() as int)) > 0
}

/// The part of the subtree at `node` already walked when the first
/// `upto` children have been visited: the node itself, and the subtrees
/// of those children.
spec fn collected_upto(node: Node, path: Seq<char>, v: Seq<char>, upto: int) -> bool {
    v == path || (v.len() > path.len() && node.has_child(v[path.len() as int]) && node.child_idx(
        v[path.len() as int],
    ) < upto)
}

/// Extending a prefix by one character: `path + [ck]` is a prefix of `v`
/// exactly when `path` is and the next character of `v` is `ck`.
proof fn lemma_prefix_step(path: Seq<char>, ck: char, v: Seq<char>)
    ensures
        path.push(ck).is_prefix_of(v) <==> (path.is_prefix_of(v) && v.len() > path.len() && v[
            path.len() as int
        ] == ck),
{
    let p2 = path.push(ck);
    if p2.is_prefix_of(v) {
        assert forall|x: int| 0 <= x < path.len() implies path[x] == v.subrange(
            0,
            path.len() as int,
        )[x] by {
            assert(p2[x] == v.subrange(0, p2.len() as int)[x]);
        }
        assert(path =~= v.subrange(0, path.len() as int));
        assert(v[path.len() as int] == v.subrange(0, p2.len() as int)[path.len() as int]);
    }
    if path.is_prefix_of(v) && v.len() > path.len() && v[path.len() as int] == ck {
        assert forall|x: int| 0 <= x < p2.len() implies p2[x] == v.subrange(
            0,
            p2.len() as int,
        )[x] by {
            if x < path.len() {
                assert(path[x] == v.subrange(0, path.len() as int)[x]);
            }
        }
        assert(p2 =~= v.subrange(0, p2.len() as int));
    }
}

/// One step of the count model: a string through child `j` is counted
/// by that child's subtree.
proof fn lemma_count_step(node: Node, path: Seq<char>, j: int, v: Seq<char>)
    requires
        node.wf(path),
        0 <= j < node.children.len(),
        v.len() > path.len(),
        v[path.len() as int] == node.child_key(j),
    ensures
        node.count_of(v.skip(path.len() as int)) == node.children[j].count_of(
            v.skip(path.len() as int + 1),
        ),
{
    lemma_child_at(node, path, j);
    let suf = v.skip(path.len() as int);
    assert(suf.len() > 0);
    assert(suf[0] == v[path.len() as int]);
    assert(suf.skip(1) =~= v.skip(path.len() as int + 1));
}

/// Following a concatenation of two paths is following them in turn.
proof fn lemma_subtrie_compose(root: Node, p: Seq<char>, t: Seq<char>)
    ensures
        root.subtrie(p + t) == (match root.subtrie(p) {
            Some(m) => m.subtrie(t),
            None => None::<Node>,
        }),
    decreases p.len(),
{
    if p.len() == 0 {
        assert(p + t =~= t);
    } else {
        assert((p + t).len() > 0);
        assert((p + t)[0] == p[0]);
        if root.has_child(p[0]) {
            assert((p + t).skip(1) =~= p.skip(1) + t);
            lemma_subtrie_compose(root.children[root.child_idx(p[0])], p.skip(1), t);
        }
    }
}

/// Walk the whole subtree rooted at `node` and merge every stored entry
/// below it, the node itself included, into the ranked collection.
fn collect_rec(node: &Node, Ghost(path): Ghost<Seq<char>>, out: &mut Vec<Entry>)
    requires
        node.wf(path),
        sorted_entries(old(out)@),
        distinct_values(old(out)@),
        forall|k: int|
            0 <= k < old(out)@.len() ==> !path.is_prefix_of((#[trigger] old(out)@[k]).value@),
    ensures
        sorted_entries(final(out)@),
        distinct_values(final(out)@),
        forall|c: nat, v: Seq<char>| #![trigger has_pair(final(out)@, c, v)]
            has_pair(final(out)@, c, v) <==> (has_pair(old(out)@, c, v) || sub_pair(
                *node,
                path,
                c,
                v,
            )),
        forall|v: Seq<char>| #![trigger has_value(final(out)@, v)]
            has_value(final(out)@, v) <==> (has_value(old(out)@, v) || sub_value(*node, path, v)),
    decreases *node,
{
    let ghost pre = out@;
    proof {
        assert(path.is_prefix_of(path));
        assert(path.skip(path.len() as int) =~= Seq::<char>::empty());
    }
    if node.count > 0 {
        let val = if let Some(v) = &node.value {
            v.clone()
        } else {
            proof {
                assert(false);
            }
            String::new()
        };
        let e = Entry { count: node.count, value: val };
        proof {
            if has_value(pre, path) {
                let k = choose|k: int| 0 <= k < pre.len() && (#[trigger] pre[k]).value@ == path;
                assert(!path.is_prefix_of(pre[k].value@));
            }
        }
        insert_sorted(out, e);
    }
    let ghost base = out@;
    proof {
        assert forall|c: nat, v: Seq<char>|
            has_pair(base, c, v) <==> (has_pair(pre, c, v) || (sub_pair(*node, path, c, v)
                && collected_upto(*node, path, v, 0))) by {
            if sub_pair(*node, path, c, v) && v == path {
                assert(c == node.count_of(Seq::<char>::empty()));
            }
            if node.count > 0 && c == node.count as nat && v == path {
                assert(sub_pair(*node, path, c, v));
            }
        }
        assert forall|v: Seq<char>|
            has_value(base, v) <==> (has_value(pre, v) || (sub_value(*node, path, v)
                && collected_upto(*node, path, v, 0))) by {
            if sub_value(*node, path, v) && v == path {
                assert(node.count_of(Seq::<char>::empty()) == node.count);
            }
        }
    }
    let mut idx: usize = 0;
    while idx < node.children.len()
        invariant
            node.wf(path),
            idx <= node.children.len(),
            sorted_entries(out@),
            distinct_values(out@),
            forall|k: int| 0 <= k < pre.len() ==> !path.is_prefix_of((#[trigger] pre[k]).value@),
            forall|c: nat, v: Seq<char>| #![trigger has_pair(out@, c, v)]
                has_pair(out@, c, v) <==> (has_pair(pre, c, v) || (sub_pair(*node, path, c, v)
                    && collected_upto(*node, path, v, idx as int))),
            forall|v: Seq<char>| #![trigger has_value(out@, v)]
                has_value(out@, v) <==> (has_value(pre, v) || (sub_value(*node, path, v)
                    && collected_upto(*node, path, v, idx as int))),
        decreases node.children.len() - idx,
    {
        let ghost ck = node.children@[idx as int].key.unwrap();
        let ghost p2 = path.push(ck);
        let ghost mid = out@;
        proof {
            lemma_child_at(*node, path, idx as int);
            assert forall|k: int| 0 <= k < mid.len() implies !p2.is_prefix_of(
                (#[trigger] mid[k]).value@,
            ) by {
                let v0 = mid[k].value@;
                assert(has_value(mid, v0));
                if p2.is_prefix_of(v0) {
                    lemma_prefix_step(path, ck, v0);
                    assert(path.is_prefix_of(v0));
                    if has_value(pre, v0) {
                        let k2 = choose|k2: int|
                            0 <= k2 < pre.len() && (#[trigger] pre[k2]).value@ == v0;
                        assert(!path.is_prefix_of(pre[k2].value@));
                    } else {
                        assert(sub_value(*node, path, v0) && collected_upto(
                            *node,
                            path,
                            v0,
                            idx as int,
                        ));
                        assert(v0 != path);
                        assert(node.child_idx(v0[path.len() as int]) < idx as int);
                        assert(node.child_idx(ck) == idx as int);
                    }
                }
            }
        }
        collect_rec(&node.children[idx], Ghost(p2), out);
        proof {
            let child = node.children@[idx as int];
            assert(node.child_key(idx as int) == ck);
            assert forall|c: nat, v: Seq<char>|
                has_pair(out@, c, v) <==> (has_pair(pre, c, v) || (sub_pair(*node, path, c, v)
                    && collected_upto(*node, path, v, idx as int + 1))) by {
                assert(has_pair(out@, c, v) == (has_pair(mid, c, v) || sub_pair(child, p2, c, v)));
                assert(has_pair(mid, c, v) == (has_pair(pre, c, v) || (sub_pair(*node, path, c, v)
                    && collected_upto(*node, path, v, idx as int))));
                lemma_prefix_step(path, ck, v);
                if v.len() > path.len() && path.is_prefix_of(v) && v[path.len() as int] == ck {
                    lemma_count_step(*node, path, idx as int, v);
                }
                if sub_pair(*node, path, c, v) && collected_upto(*node, path, v, idx as int + 1) {
                    if !collected_upto(*node, path, v, idx as int) {
                        assert(v != path);
                        assert(node.child_idx(v[path.len() as int]) == idx as int);
                        let j = node.child_idx(v[path.len() as int]);
                        assert(node.children[j].key == Some(v[path.len() as int]));
                        assert(v[path.len() as int] == ck);
                        assert(sub_pair(child, p2, c, v));
                    }
                }
                if sub_pair(child, p2, c, v) {
                    assert(p2.is_prefix_of(v));
                    assert(v.len() > path.len() && path.is_prefix_of(v) && v[path.len() as int]
                        == ck);
                    assert(sub_pair(*node, path, c, v));
                    assert(collected_upto(*node, path, v, idx as int + 1));
                }
            }
            assert forall|v: Seq<char>|
                has_value(out@, v) <==> (has_value(pre, v) || (sub_value(*node, path, v)
                    && collected_upto(*node, path, v, idx as int + 1))) by {
                assert(has_value(out@, v) == (has_value(mid, v) || sub_value(child, p2, v)));
                assert(has_value(mid, v) == (has_value(pre, v) || (sub_value(*node, path, v)
                    && collected_upto(*node, path, v, idx as int))));
                lemma_prefix_step(path, ck, v);
                if v.len() > path.len() && path.is_prefix_of(v) && v[path.len() as int] == ck {
                    lemma_count_step(*node, path, idx as int, v);
                }
                if sub_value(*node, path, v) && collected_upto(*node, path, v, idx as int + 1) {
                    if !collected_upto(*node, path, v, idx as int) {
                        assert(v != path);
                        assert(node.child_idx(v[path.len() as int]) == idx as int);
                        let j = node.child_idx(v[path.len() as int]);
                        assert(node.children[j].key == Some(v[path.len() as int]));
                        assert(sub_value(child, p2, v));
                    }
                }
                if sub_value(child, p2, v) {
                    assert(sub_value(*node, path, v));
                    assert(collected_upto(*node, path, v, idx as int + 1));
                }
            }
        }
        idx = idx + 1;
    }
    proof {
        assert forall|c: nat, v: Seq<char>|
            has_pair(final(out)@, c, v) <==> (has_pair(pre, c, v) || sub_pair(
                *node,
                path,
                c,
                v,
            )) by {
            assert(has_pair(out@, c, v) == (has_pair(pre, c, v) || (sub_pair(*node, path, c, v)
                && collected_upto(*node, path, v, node.children.len() as int))));
            if sub_pair(*node, path, c, v) && v != path {
                if v.len() == path.len() {
                    assert(v =~= path);
                }
                assert(v.len() > path.len());
                let suf = v.skip(path.len() as int);
                assert(suf.len() > 0);
                assert(node.count_of(suf) > 0);
                assert(node.has_child(suf[0]));
                assert(suf[0] == v[path.len() as int]);
                let j = node.child_idx(suf[0]);
                assert(0 <= j < node.children.len());
                assert(collected_upto(*node, path, v, node.children.len() as int));
            }
        }
        assert forall|v: Seq<char>|
            has_value(final(out)@, v) <==> (has_value(pre, v) || sub_value(*node, path, v)) by {
            assert(has_value(out@, v) == (has_value(pre, v) || (sub_value(*node, path, v)
                && collected_upto(*node, path, v, node.children.len() as int))));
            if sub_value(*node, path, v) && v != path {
                if v.len() == path.len() {
                    assert(v =~= path);
                }
                let suf = v.skip(path.len() as int);
                assert(suf.len() > 0);
                assert(node.has_child(suf[0]));
                assert(suf[0] == v[path.len() as int]);
                let j = node.child_idx(suf[0]);
                assert(0 <= j < node.children.len());
            }
        }
    }
}

/// Keep only the stored strings of a ranked collection, in order.
fn entries_to_values(entries: &Vec<Entry>) -> (r: Vec<String>)
    ensures
        r@.len() == entries@.len(),
        forall|k: int| 0 <= k < entries@.len() ==> (#[trigger] r@[k])@ == entries@[k].value@,
{
    let mut r: Vec<String> = Vec::new();
    let mut i: usize = 0;
    while i < entries.len()
        invariant
            i <= entries@.len(),
            r@.len() == i,
            forall|k: int| 0 <= k < i ==> (#[trigger] r@[k])@ == entries@[k].value@,
        decreases entries@.len() - i,
    {
        r.push(entries[i].value.clone());
        i = i + 1;
    }
    r
}

/// The prefix-search index: a tree of characters owned from a single
/// keyless root, grown monotonically by insertion.
pub struct Trie {
    pub(crate) root: Node,
}

impl Trie {
    /// The trie is well formed: the root is keyless and every node's
    /// children are unique and sorted by key, with stored values equal
    /// to the path that reaches them.
    pub closed spec fn wf(self) -> bool {
        &&& self.root.key is None
        &&& self.root.wf(Seq::empty())
    }

    /// How many times the string `s` has been inserted.
    pub closed spec fn count_of(self, s: Seq<char>) -> nat {
        self.root.count_of(s)
    }

    /// Whether `s` is a stored entry (inserted at least once).
    pub open spec fn contains_entry(self, s: Seq<char>) -> bool {
        self.count_of(s) > 0
    }

    /// Whether the nodes spelling `s` all exist already.
    pub closed spec fn has_path(self, s: Seq<char>) -> bool {
        self.root.subtrie(s) is Some
    }

    /// Total number of nodes, the root included.
    pub closed spec fn size(self) -> nat {
        self.root.size()
    }

    /// The relation between a trie and the trie after inserting `s` once:
    /// the insertion count of `s` grows by one and no other count changes.
    pub open spec fn inserted(pre: Trie, post: Trie, s: Seq<char>) -> bool {
        forall|t: Seq<char>|
            post.count_of(t) == pre.count_of(t) + (if t == s {
                1nat
            } else {
                0nat
            })
    }

    pub fn new() -> (t: Trie)
        ensures
            t.wf(),
            forall|s: Seq<char>| t.count_of(s) == 0,
            t.size() == 1,
    {
        Trie { root: Node::new() }
    }

    /// Insert `s`: create the missing nodes along its path, keeping each
    /// children collection sorted, then increment the terminal node's count
    /// and record `s` as its value.
    pub fn insert(&mut self, s: &str)
        requires
            old(self).wf(),
            old(self).count_of(s@) < usize::MAX,
        ensures
            final(self).wf(),
            Trie::inserted(*old(self), *final(self), s@),
            final(self).has_path(s@),
            old(self).has_path(s@) ==> final(self).size() == old(self).size(),
    {
        proof {
            assert(s@.subrange(0, 0) =~= Seq::<char>::empty());
            assert(s@.skip(0) =~= s@);
        }
        insert_rec(&mut self.root, s, 0, Ghost(Seq::empty()));
    }

    /// What `search` promises of its result `r` for a prefix `p`:
    /// `r` holds exactly the stored entries that `p` is a prefix of,
    /// each exactly once, ordered by descending insertion count with
    /// ties broken by ascending lexicographic value.
    pub open spec fn search_ok(t: Trie, p: Seq<char>, r: Seq<Seq<char>>) -> bool {
        &&& (forall|v: Seq<char>| #[trigger] r.contains(v) ==> p.is_prefix_of(v) && t.count_of(v) > 0)
        &&& (forall|v: Seq<char>|
            p.is_prefix_of(v) && #[trigger] t.count_of(v) > 0 ==> r.contains(v))
        &&& (forall|i: int, j: int| 0 <= i < j < r.len() ==> r[i] != r[j])
        &&& (forall|i: int, j: int|
            0 <= i < j < r.len() ==> rank_before(t.count_of(r[i]), r[i], t.count_of(r[j]), r[j]))
    }

    /// Frequency-ranked autocomplete: every stored entry having `prefix`
    /// as a prefix, most frequently inserted first, ties in ascending
    /// lexicographic order.
    pub fn search(&self, prefix: &str) -> (r: Vec<String>)
        requires
            self.wf(),
        ensures
            Trie::search_ok(*self, prefix@, r.deep_view()),
    {
        proof {
            assert(prefix@.skip(0) =~= prefix@);
        }
        match descend(&self.root, prefix, 0, Ghost(Seq::empty())) {
            None => {
                let r: Vec<String> = Vec::new();
                proof {
                    let p = prefix@;
                    assert forall|v: Seq<char>|
                        p.is_prefix_of(v) && #[trigger] self.count_of(v) > 0 implies false by {
                        lemma_subtrie_compose(self.root, p, v.skip(p.len() as int));
                        assert(p + v.skip(p.len() as int) =~= v);
                    }
                    assert(r.deep_view().len() == 0);
                }
                r
            },
            Some(n) => {
                proof {
                    assert(Seq::empty() + prefix@.skip(0) =~= prefix@);
                }
                let mut entries: Vec<Entry> = Vec::new();
                collect_rec(n, Ghost(prefix@), &mut entries);
                let r = entries_to_values(&entries);
                proof {
                    let p = prefix@;
                    let nn = *n;
                    let es = entries@;
                    let rv = r.deep_view();
                    assert(rv.len() == es.len());
                    assert forall|k: int| 0 <= k < es.len() implies rv[k] == es[k].value@ by {
                        assert(r@[k]@ == es[k].value@);
                    }
                    assert(self.root.subtrie(p) == Some(nn));
                    assert forall|k: int| 0 <= k < es.len() implies self.count_of(es[k].value@)
                        == es[k].count as nat && p.is_prefix_of(es[k].value@) by {
                        let v = es[k].value@;
                        assert(has_pair(es, es[k].count as nat, v));
                        assert(sub_pair(nn, p, es[k].count as nat, v));
                        lemma_subtrie_compose(self.root, p, v.skip(p.len() as int));
                        assert(p + v.skip(p.len() as int) =~= v);
                    }
                    assert forall|v: Seq<char>| #[trigger] rv.contains(v) implies p.is_prefix_of(v)
                        && self.count_of(v) > 0 by {
                        let k = choose|k: int| 0 <= k < rv.len() && rv[k] == v;
                        assert(rv[k] == es[k].value@);
                        assert(es[k].value@ == v);
                        assert(has_pair(es, es[k].count as nat, v));
                        assert(sub_pair(nn, p, es[k].count as nat, v));
                        assert(self.count_of(es[k].value@) == es[k].count as nat
                            && p.is_prefix_of(es[k].value@));
                    }
                    assert forall|v: Seq<char>|
                        p.is_prefix_of(v) && #[trigger] self.count_of(v) > 0 implies rv.contains(
                        v,
                    ) by {
                        lemma_subtrie_compose(self.root, p, v.skip(p.len() as int));
                        assert(p + v.skip(p.len() as int) =~= v);
                        assert(sub_value(nn, p, v));
                        assert(has_value(es, v));
                        let k = choose|k: int|
                            0 <= k < es.len() && (#[trigger] es[k]).value@ == v;
                        assert(rv[k] == v);
                    }
                    assert forall|i: int, j: int| 0 <= i < j < rv.len() implies rv[i] != rv[j] by {
                        assert(es[i].value@ != es[j].value@);
                    }
                    assert forall|i: int, j: int| 0 <= i < j < rv.len() implies rank_before(
                        self.count_of(rv[i]),
                        rv[i],
                        self.count_of(rv[j]),
                        rv[j],
                    ) by {
                        assert(entry_before(es[i], es[j]));
                    }
                }
                r
            },
        }
    }

    /// Exact-existence lookup: whether `s` is a stored entry, as opposed
    /// to merely a prefix of one.
    pub fn contains(&self, s: &str) -> (r: bool)
        requires
            self.wf(),
        ensures
            r == (self.count_of(s@) > 0),
    {
        proof {
            assert(s@.skip(0) =~= s@);
        }
        match descend(&self.root, s, 0, Ghost(Seq::empty())) {
            Some(node) => node.count > 0,
            None => false,
        }
    }

}

} // verus!
