//! The node arena: storage for chain nodes, addressed by handle.
//!
//! Nodes live in a growable arena and refer to their successors by handle
//! (index into the arena), so several holders may refer to the same node
//! and a relink made through one handle is seen through all of them. The
//! arena keeps the well-formedness invariant [`wf`]: every node's chain is
//! complete and duplicate-free.

use vstd::prelude::*;

use crate::model::chain;
use crate::model::chain_vals;
use crate::model::fresh;
use crate::model::is_chain;
use crate::model::lemma_chain_is;
use crate::model::lemma_next_valid;
use crate::model::next_of;
use crate::model::valid;
use crate::model::wf;
use crate::model::Node;

verus! {

/// Storage for the nodes of one or more chains.
pub struct Arena {
    nodes: Vec<Node>,
}

impl View for Arena {
    type V = Seq<Node>;

    closed spec fn view(&self) -> Seq<Node> {
        self.nodes@
    }
}

impl Arena {
    /// An empty arena, trivially well-formed.
    pub fn new() -> (a: Arena)
        ensures
            a@ == Seq::<Node>::empty(),
            wf(a@),
    {
        let a = Arena { nodes: Vec::new() };
        proof {
            assert(a@ =~= Seq::<Node>::empty());
        }
        a
    }

    /// The number of nodes the arena holds.
    pub fn len(&self) -> (n: usize)
        ensures
            n == self@.len(),
    {
        self.nodes.len()
    }

    /// The value stored in node `i`.
    pub fn val_of(&self, i: usize) -> (v: i64)
        requires
            valid(self@, i as int),
        ensures
            v == self@[i as int].val,
    {
        self.nodes[i].val
    }

    /// The handle of the node after node `i`, if any.
    pub fn next_of(&self, i: usize) -> (nx: Option<usize>)
        requires
            valid(self@, i as int),
        ensures
            nx == self@[i as int].next,
    {
        self.nodes[i].next
    }

    /// Redirect the `next` link of node `i`; the caller proves that the
    /// arena invariant is restored.
    pub(crate) fn set_next(&mut self, i: usize, nx: Option<usize>)
        requires
            valid(old(self)@, i as int),
        ensures
            final(self)@ == old(self)@.update(
                i as int,
                (Node { val: old(self)@[i as int].val, next: nx }),
            ),
    {
        let v = self.nodes[i].val;
        self.nodes.set(i, Node { val: v, next: nx });
    }

    /// Create a fresh, unlinked node holding `val` and return its handle.
    /// The new node has no successor, no node points at it, and every
    /// existing chain is untouched.
    pub fn add_node(&mut self, val: i64) -> (h: usize)
        requires
            wf(old(self)@),
            old(self)@.len() < usize::MAX,
        ensures
            wf(final(self)@),
            h == old(self)@.len(),
            final(self)@ == old(self)@.push((Node { val: val, next: Option::None })),
            fresh(final(self)@, h as int),
            forall|i: int|
                valid(old(self)@, i) ==> chain(final(self)@, i) == chain(old(self)@, i),
            chain(final(self)@, h as int) == seq![h as int],
    {
        let h = self.nodes.len();
        self.nodes.push(Node { val, next: None });
        proof {
            lemma_push_preserves(old(self)@, self@, val);
        }
        h
    }

    /// The values along the chain starting at `head`, in traversal order.
    pub fn values(&self, head: usize) -> (vs: Vec<i64>)
        requires
            wf(self@),
            valid(self@, head as int),
        ensures
            vs@ == chain_vals(self@, head as int),
    {
        let ghost c = chain(self@, head as int);
        let mut vs: Vec<i64> = Vec::new();
        let mut cur: usize = head;
        let ghost mut t: int = 0;
        loop
            invariant
                wf(self@),
                valid(self@, head as int),
                c == chain(self@, head as int),
                0 <= t < c.len(),
                c[t] == cur as int,
                vs@ == chain_vals(self@, head as int).take(t),
            decreases c.len() - t,
        {
            assert(valid(self@, cur as int));
            vs.push(self.nodes[cur].val);
            proof {
                assert(chain_vals(self@, head as int)[t] == self@[cur as int].val);
                assert(vs@ =~= chain_vals(self@, head as int).take(t + 1));
            }
            match self.nodes[cur].next {
                None => {
                    proof {
                        assert(next_of(self@, c[t]) is None);
                        assert(t == c.len() - 1) by {
                            if t < c.len() - 1 {
                                assert(next_of(self@, c[t]) == Option::Some(c[t + 1]));
                            }
                        }
                        assert(vs@ =~= chain_vals(self@, head as int));
                    }
                    return vs;
                },
                Some(nx) => {
                    proof {
                        assert(t < c.len() - 1) by {
                            if t == c.len() - 1 {
                                assert(next_of(self@, c[t]) is None);
                            }
                        }
                        assert(next_of(self@, c[t]) == Option::Some(c[t + 1]));
                        t = t + 1;
                    }
                    cur = nx;
                },
            }
        }
    }
}

/// Pushing a fresh node extends the arena without disturbing any chain:
/// the new node is unlinked and unreferenced, every old chain is unchanged,
/// and the new node's chain is just itself.
proof fn lemma_push_preserves(pre: Seq<Node>, post: Seq<Node>, val: i64)
    requires
        wf(pre),
        post == pre.push((Node { val: val, next: Option::None })),
    ensures
        wf(post),
        forall|k: int| valid(post, k) ==> next_of(post, k) != Option::Some(pre.len() as int),
        forall|i: int| valid(pre, i) ==> chain(post, i) == chain(pre, i),
        chain(post, pre.len() as int) == seq![pre.len() as int],
{
    let h = pre.len() as int;
    assert forall|k: int| valid(post, k) implies next_of(post, k) != Option::Some(h) by {
        if k < h {
            assert(post[k] == pre[k]);
            if pre[k].next is Some {
                lemma_next_valid(pre, k);
            }
        }
    }
    assert forall|i: int| valid(pre, i) implies chain(post, i) == chain(pre, i) by {
        let s = chain(pre, i);
        assert(is_chain(pre, s, i) && s.no_duplicates());
        assert forall|k: int| 0 <= k < s.len() implies valid(post, #[trigger] s[k]) && post[s[k]]
            == pre[s[k]] by {
            assert(valid(pre, s[k]));
        }
        assert(is_chain(post, s, i));
        lemma_chain_is(post, s, i);
    }
    assert(is_chain(post, seq![h], h));
    assert(seq![h].no_duplicates());
    lemma_chain_is(post, seq![h], h);
    assert forall|i: int| valid(post, i) implies is_chain(post, #[trigger] chain(post, i), i)
        && chain(post, i).no_duplicates() by {
        if i < h {
            assert(chain(post, i) == chain(pre, i));
            assert(is_chain(pre, chain(pre, i), i));
            let s = chain(pre, i);
            assert forall|k: int| 0 <= k < s.len() implies valid(post, #[trigger] s[k]) && post[s[k]]
                == pre[s[k]] by {
                assert(valid(pre, s[k]));
            }
            assert(is_chain(post, s, i));
        } else {
            assert(i == h);
            assert(chain(post, h) == seq![h]);
        }
    }
}

} // verus!
