//! The structural dump of the trie: a breadth-first, level-by-level
//! rendering of the stored characters, the keyless root excluded.

use vstd::prelude::*;
use crate::trie::{Node, Trie, keys_ok, lemma_size_unfold, lemma_trie_wf_root, lemma_wf_keys_ok};

verus! {

/// The keys of a children collection, each followed by a space.
spec fn keys_line(children: Seq<Node>) -> Seq<char>
    decreases children.len(),
{
    if children.len() == 0 {
        Seq::empty()
    } else {
        seq![children[0].key.unwrap(), ' '] + keys_line(children.skip(1))
    }
}

/// One breadth-first line: the keys of every listed node's children.
spec fn line_of(nodes: Seq<Node>) -> Seq<char>
    decreases nodes.len(),
{
    if nodes.len() == 0 {
        Seq::empty()
    } else {
        keys_line(nodes[0].children@) + line_of(nodes.skip(1))
    }
}

/// The children that are carried to the next level: only those with at
/// least one child of their own.
spec fn kids_with_kids(children: Seq<Node>) -> Seq<Node>
    decreases children.len(),
{
    if children.len() == 0 {
        Seq::empty()
    } else {
        let rest = kids_with_kids(children.skip(1));
        if children[0].children.len() > 0 {
            seq![children[0]] + rest
        } else {
            rest
        }
    }
}

/// The queue for the next level, over a whole level.
spec fn next_level(nodes: Seq<Node>) -> Seq<Node>
    decreases nodes.len(),
{
    if nodes.len() == 0 {
        Seq::empty()
    } else {
        kids_with_kids(nodes[0].children@) + next_level(nodes.skip(1))
    }
}

/// The rendering from a level queue on: that level's line, then, if any
/// node is carried over, a line break and the lower levels.
spec fn render_levels(nodes: Seq<Node>) -> Seq<char>
    decreases Node::seq_size(nodes),
        via render_levels_dec
{
    if nodes.len() == 0 {
        Seq::empty()
    } else {
        let rest = next_level(nodes);
        line_of(nodes) + (if rest.len() > 0 {
            seq!['\n'] + render_levels(rest)
        } else {
            Seq::<char>::empty()
        })
    }
}

#[via_fn]
proof fn render_levels_dec(nodes: Seq<Node>) {
    if nodes.len() > 0 {
        lemma_next_level_size(nodes);
    }
}

/// Concatenation distributes over the total size of a node sequence.
proof fn lemma_seq_size_concat(a: Seq<Node>, b: Seq<Node>)
    ensures
        Node::seq_size(a + b) == Node::seq_size(a) + Node::seq_size(b),
    decreases a.len(),
{
    if a.len() == 0 {
        assert(a + b =~= b);
    } else {
        assert((a + b)[0] == a[0]);
        assert((a + b).skip(1) =~= a.skip(1) + b);
        lemma_seq_size_concat(a.skip(1), b);
    }
}

/// Keeping only the children that have children never grows the size.
proof fn lemma_kids_size(children: Seq<Node>)
    ensures
        Node::seq_size(kids_with_kids(children)) <= Node::seq_size(children),
    decreases children.len(),
{
    if children.len() > 0 {
        lemma_kids_size(children.skip(1));
        lemma_size_unfold(children[0]);
        if children[0].children.len() > 0 {
            lemma_seq_size_concat(seq![children[0]], kids_with_kids(children.skip(1)));
            assert(seq![children[0]].skip(1) =~= Seq::<Node>::empty());
            assert(Node::seq_size(Seq::<Node>::empty()) == 0);
            assert(seq![children[0]][0] == children[0]);
            assert(Node::seq_size(seq![children[0]]) == children[0].size());
        }
    }
}

/// Each level is strictly smaller than the one before: every node of
/// the next level sits below a node of this one.
proof fn lemma_next_level_size(nodes: Seq<Node>)
    ensures
        Node::seq_size(next_level(nodes)) + nodes.len() <= Node::seq_size(nodes),
    decreases nodes.len(),
{
    if nodes.len() > 0 {
        lemma_next_level_size(nodes.skip(1));
        lemma_seq_size_concat(kids_with_kids(nodes[0].children@), next_level(nodes.skip(1)));
        lemma_kids_size(nodes[0].children@);
        lemma_size_unfold(nodes[0]);
    }
}

/// The nodes a queue of references points at.
spec fn nodes_of(v: Seq<&Node>) -> Seq<Node> {
    Seq::new(v.len(), |i: int| *v[i])
}

/// Relies on String::push: appends one character at the end.
#[verifier::external_body]
fn push_char(out: &mut String, c: char)
    ensures
        final(out)@ == old(out)@.push(c),
{
    out.push(c);
}

/// Render one level and, below it, all later levels.
fn render_rec(level: Vec<&Node>, out: &mut String)
    requires
        forall|i: int| 0 <= i < level@.len() ==> keys_ok(*(#[trigger] level@[i])),
    ensures
        final(out)@ == old(out)@ + render_levels(nodes_of(level@)),
    decreases Node::seq_size(nodes_of(level@)),
{
    let ghost all = nodes_of(level@);
    let ghost out0 = out@;
    if level.len() == 0 {
        proof {
            assert(out0 + render_levels(all) =~= out0);
        }
        return;
    }
    let mut next: Vec<&Node> = Vec::new();
    let mut i: usize = 0;
    proof {
        assert(all.skip(0) =~= all);
        assert(nodes_of(next@) =~= Seq::<Node>::empty());
        assert(out0 + line_of(all.skip(0)) =~= out0 + line_of(all));
    }
    while i < level.len()
        invariant
            i <= level@.len(),
            all == nodes_of(level@),
            forall|k: int| 0 <= k < level@.len() ==> keys_ok(*(#[trigger] level@[k])),
            out@ + line_of(all.skip(i as int)) == out0 + line_of(all),
            nodes_of(next@) + next_level(all.skip(i as int)) == next_level(all),
            forall|k: int| 0 <= k < next@.len() ==> keys_ok(*(#[trigger] next@[k])),
            forall|k: int| 0 <= k < next@.len() ==> (*(#[trigger] next@[k])).children.len() > 0,
        decreases level@.len() - i,
    {
        let node = level[i];
        proof {
            assert(all.skip(i as int)[0] == *node);
            assert(all.skip(i as int).skip(1) =~= all.skip(i as int + 1));
            assert(node.children@.skip(0) =~= node.children@);
        }
        let ghost line_rest = line_of(all.skip(i as int + 1));
        let ghost next_rest = next_level(all.skip(i as int + 1));
        let mut j: usize = 0;
        while j < node.children.len()
            invariant
                j <= node.children@.len(),
                keys_ok(*node),
                out@ + keys_line(node.children@.skip(j as int)) + line_rest == out0 + line_of(all),
                nodes_of(next@) + kids_with_kids(node.children@.skip(j as int)) + next_rest
                    == next_level(all),
                forall|k: int| 0 <= k < next@.len() ==> keys_ok(*(#[trigger] next@[k])),
                forall|k: int| 0 <= k < next@.len() ==> (*(#[trigger] next@[k])).children.len()
                    > 0,
            decreases node.children@.len() - j,
        {
            let ghost pre_out = out@;
            let ghost pre_next = next@;
            let ch = &node.children[j];
            proof {
                assert(node.children@.skip(j as int)[0] == *ch);
                assert(node.children@.skip(j as int).skip(1) =~= node.children@.skip(j as int + 1));
            }
            let k = if let Some(k) = ch.key {
                k
            } else {
                proof {
                    assert(false);
                }
                ' '
            };
            push_char(out, k);
            push_char(out, ' ');
            if ch.children.len() > 0 {
                next.push(ch);
                proof {
                    assert(nodes_of(next@) =~= nodes_of(pre_next) + seq![*ch]);
                }
            }
            proof {
                let tail = node.children@.skip(j as int + 1);
                assert(out@ =~= pre_out + seq![k, ' ']);
                assert(out@ + keys_line(tail) =~= pre_out + (seq![k, ' '] + keys_line(tail)));
                assert(keys_line(node.children@.skip(j as int)) == seq![k, ' '] + keys_line(tail));
                if ch.children.len() > 0 {
                    assert(nodes_of(next@) + kids_with_kids(tail) =~= nodes_of(pre_next) + (
                    seq![*ch] + kids_with_kids(tail)));
                }
            }
            j = j + 1;
        }
        proof {
            let nlen = node.children@.len() as int;
            assert(node.children@.skip(nlen) =~= Seq::<Node>::empty());
            assert(out@ + keys_line(node.children@.skip(nlen)) + line_rest == out0 + line_of(all));
            assert(out@ + keys_line(Seq::<Node>::empty()) + line_rest =~= out@ + line_rest);
            assert(out@ + line_of(all.skip(i as int + 1)) == out0 + line_of(all));
            assert(nodes_of(next@) + kids_with_kids(node.children@.skip(nlen)) + next_rest
                == next_level(all));
            assert(nodes_of(next@) + kids_with_kids(Seq::<Node>::empty()) + next_rest =~= nodes_of(
                next@,
            ) + next_rest);
            assert(nodes_of(next@) + next_level(all.skip(i as int + 1)) == next_level(all));
        }
        i = i + 1;
    }
    proof {
        assert(all.skip(level@.len() as int) =~= Seq::<Node>::empty());
        assert(out@ + line_of(Seq::<Node>::empty()) =~= out@);
        assert(nodes_of(next@) + next_level(Seq::<Node>::empty()) =~= nodes_of(next@));
        assert(out@ == out0 + line_of(all));
        assert(nodes_of(next@) == next_level(all));
    }
    if next.len() > 0 {
        let ghost before = out@;
        push_char(out, '\n');
        proof {
            lemma_next_level_size(all);
            assert(nodes_of(next@).len() > 0);
        }
        render_rec(next, out);
        proof {
            assert(out@ =~= out0 + line_of(all) + seq!['\n'] + render_levels(next_level(all)));
            assert(render_levels(all) == line_of(all) + (seq!['\n'] + render_levels(next_level(
                all,
            ))));
            assert(out@ =~= out0 + render_levels(all));
        }
    } else {
        proof {
            assert(next_level(all).len() == 0) by {
                assert(nodes_of(next@).len() == 0);
            }
            assert(render_levels(all) == line_of(all) + Seq::<char>::empty());
            assert(out@ =~= out0 + render_levels(all));
        }
    }
}

impl Trie {
    /// The structural dump, as a character sequence: one line per
    /// breadth-first level of keys, each key followed by a space,
    /// levels separated by line breaks.
    pub closed spec fn render(self) -> Seq<char> {
        render_levels(seq![self.root])
    }

    /// Render the level-by-level dump of the stored characters,
    /// excluding the keyless root.
    pub fn display(&self) -> (r: String)
        requires
            self.wf(),
        ensures
            r@ == self.render(),
    {
        let mut out = String::new();
        let mut level: Vec<&Node> = Vec::new();
        level.push(&self.root);
        proof {
            lemma_trie_wf_root(*self);
            lemma_wf_keys_ok(self.root, Seq::empty());
            assert(nodes_of(level@) =~= seq![self.root]);
            assert(Seq::<char>::empty() + render_levels(seq![self.root]) =~= render_levels(
                seq![self.root],
            ));
        }
        render_rec(level, &mut out);
        out
    }
}

} // verus!
