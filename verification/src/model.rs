//! Mathematical model of a node arena and the chains running through it.
//!
//! A node holds a value and an optional handle (arena index) of its
//! successor. The chain from a node is the sequence of handles reached by
//! following `next` links until one is absent. `chain` computes that
//! sequence with a fuel bound of one more than the arena size, which is
//! always enough for an acyclic chain; `wf` says every node's chain is
//! complete (its last node has no successor) and free of duplicates, which
//! rules out cycles and makes traversals terminate.

use vstd::prelude::*;
use vstd::set_lib::lemma_int_range;
use vstd::set_lib::lemma_len_subset;
use vstd::set_lib::set_int_range;

verus! {

/// One element of a chain: a value and the handle of the next node, if any.
#[derive(Clone, Copy)]
pub struct Node {
    pub val: i64,
    pub next: Option<usize>,
}

/// `i` is a handle into an arena of `nodes.len()` nodes.
pub open spec fn valid(nodes: Seq<Node>, i: int) -> bool {
    0 <= i < nodes.len()
}

/// The successor handle of node `i`, as a mathematical integer.
pub open spec fn next_of(nodes: Seq<Node>, i: int) -> Option<int> {
    match nodes[i].next {
        Option::None => Option::None,
        Option::Some(j) => Option::Some(j as int),
    }
}

/// The handles reached from `i` by following `next` links, cut off after
/// `fuel` nodes. Empty when `i` is not a valid handle.
pub open spec fn chain_u(nodes: Seq<Node>, i: int, fuel: nat) -> Seq<int>
    decreases fuel,
{
    if fuel == 0 || !valid(nodes, i) {
        Seq::empty()
    } else {
        match nodes[i].next {
            Option::None => seq![i],
            Option::Some(j) => seq![i] + chain_u(nodes, j as int, (fuel - 1) as nat),
        }
    }
}

/// The chain of handles starting at `i`. The fuel `nodes.len() + 1`
/// exceeds the length of any duplicate-free chain, so on a well-formed
/// arena this is the whole chain.
pub open spec fn chain(nodes: Seq<Node>, i: int) -> Seq<int> {
    chain_u(nodes, i, (nodes.len() + 1) as nat)
}

/// Consecutive handles of `s` are linked in `nodes`, and all are valid.
pub open spec fn linked(nodes: Seq<Node>, s: Seq<int>) -> bool {
    &&& forall|k: int| 0 <= k < s.len() ==> valid(nodes, #[trigger] s[k])
    &&& forall|k: int|
        0 <= k < s.len() - 1 ==> next_of(nodes, #[trigger] s[k]) == Option::Some(s[k + 1])
}

/// `s` is the complete chain starting at `i`: nonempty, headed by `i`,
/// linked throughout, and ending at a node with no successor.
pub open spec fn is_chain(nodes: Seq<Node>, s: Seq<int>, i: int) -> bool {
    &&& s.len() > 0
    &&& s[0] == i
    &&& linked(nodes, s)
    &&& next_of(nodes, s.last()) is None
}

/// The arena is well-formed: from every node, following `next` links
/// reaches a node with no successor, without visiting any node twice.
pub open spec fn wf(nodes: Seq<Node>) -> bool {
    forall|i: int|
        valid(nodes, i) ==> is_chain(nodes, #[trigger] chain(nodes, i), i) && chain(
            nodes,
            i,
        ).no_duplicates()
}

/// The values along the chain starting at `i`, in traversal order.
pub open spec fn chain_vals(nodes: Seq<Node>, i: int) -> Seq<i64> {
    chain(nodes, i).map_values(|k: int| nodes[k].val)
}

/// Node `p` is fresh: it has no successor and no node links to it, so it
/// forms a one-node chain of its own and appears in no other chain.
pub open spec fn fresh(nodes: Seq<Node>, p: int) -> bool {
    &&& valid(nodes, p)
    &&& nodes[p].next is None
    &&& forall|k: int| valid(nodes, k) ==> next_of(nodes, k) != Option::Some(p)
}

/// The position of the first occurrence of `target` in `vals`, if any.
pub open spec fn first_match(vals: Seq<i64>, target: i64) -> Option<int>
    decreases vals.len(),
{
    if vals.len() == 0 {
        Option::None
    } else if vals[0] == target {
        Option::Some(0int)
    } else {
        match first_match(vals.drop_first(), target) {
            Option::None => Option::None,
            Option::Some(j) => Option::Some(j + 1),
        }
    }
}

/// `first_match` returns the smallest position holding `target`, and
/// returns nothing exactly when no position holds it.
pub proof fn lemma_first_match_spec(vals: Seq<i64>, target: i64)
    ensures
        match first_match(vals, target) {
            Option::Some(j) => 0 <= j < vals.len() && vals[j] == target && forall|k: int|
                0 <= k < j ==> vals[k] != target,
            Option::None => forall|k: int| 0 <= k < vals.len() ==> vals[k] != target,
        },
    decreases vals.len(),
{
    if vals.len() == 0 {
    } else if vals[0] == target {
    } else {
        lemma_first_match_spec(vals.drop_first(), target);
        assert(forall|k: int| 1 <= k < vals.len() ==> vals[k] == vals.drop_first()[k - 1]);
    }
}

/// A duplicate-free sequence of handles into an arena of `n` nodes is no
/// longer than `n`.
pub proof fn lemma_no_dup_len(s: Seq<int>, n: int)
    requires
        0 <= n,
        s.no_duplicates(),
        forall|k: int| 0 <= k < s.len() ==> 0 <= #[trigger] s[k] < n,
    ensures
        s.len() <= n,
{
    if s.len() > 0 {
        assert(0 <= s[0] < n);
        s.unique_seq_to_set();
        lemma_int_range(0, n);
        assert(s.to_set().subset_of(set_int_range(0, n))) by {
            assert forall|x: int| s.to_set().contains(x) implies set_int_range(0, n).contains(
                x,
            ) by {
                let k = choose|k: int| 0 <= k < s.len() && s[k] == x;
                assert(0 <= s[k] < n);
            }
        }
        lemma_len_subset(s.to_set(), set_int_range(0, n));
    }
}

/// A linked, complete sequence of handles is exactly what `chain_u`
/// computes from its head, given enough fuel.
pub proof fn lemma_chain_u_agrees(nodes: Seq<Node>, s: Seq<int>, fuel: nat)
    requires
        s.len() > 0,
        s.len() < fuel,
        linked(nodes, s),
        next_of(nodes, s.last()) is None,
    ensures
        chain_u(nodes, s[0], fuel) == s,
    decreases s.len(),
{
    if s.len() == 1 {
        assert(nodes[s[0]].next is None);
        assert(chain_u(nodes, s[0], fuel) =~= s);
    } else {
        let s2 = s.drop_first();
        assert(next_of(nodes, s[0]) == Option::Some(s[1]));
        assert(linked(nodes, s2)) by {
            assert(forall|k: int| 0 <= k < s2.len() ==> s2[k] == s[k + 1]);
        }
        assert(s2.last() == s.last());
        lemma_chain_u_agrees(nodes, s2, (fuel - 1) as nat);
        let j = nodes[s[0]].next.unwrap();
        assert(j as int == s[1]);
        assert(chain_u(nodes, s[0], fuel) == seq![s[0]] + chain_u(nodes, s[1], (fuel - 1) as nat));
        assert(seq![s[0]] + s2 =~= s);
    }
}

/// A linked, complete, duplicate-free sequence of handles is exactly the
/// chain computed from its head.
pub proof fn lemma_chain_is(nodes: Seq<Node>, s: Seq<int>, i: int)
    requires
        is_chain(nodes, s, i),
        s.no_duplicates(),
    ensures
        chain(nodes, i) == s,
{
    lemma_no_dup_len(s, nodes.len() as int);
    lemma_chain_u_agrees(nodes, s, (nodes.len() + 1) as nat);
}

/// On a well-formed arena, the chain of a node with a successor is that
/// node followed by the successor's chain.
pub proof fn lemma_chain_step(nodes: Seq<Node>, i: int)
    requires
        wf(nodes),
        valid(nodes, i),
        nodes[i].next is Some,
    ensures
        valid(nodes, nodes[i].next.unwrap() as int),
        chain(nodes, i) == seq![i] + chain(nodes, nodes[i].next.unwrap() as int),
{
    let s = chain(nodes, i);
    let j = nodes[i].next.unwrap() as int;
    assert(is_chain(nodes, s, i) && s.no_duplicates());
    assert(s.len() >= 2) by {
        if s.len() == 1 {
            assert(next_of(nodes, s[0]) is None);
        }
    }
    assert(next_of(nodes, s[0]) == Option::Some(s[1]));
    assert(s[1] == j);
    let s2 = s.drop_first();
    assert(linked(nodes, s2)) by {
        assert(forall|k: int| 0 <= k < s2.len() ==> s2[k] == s[k + 1]);
    }
    assert(s2.last() == s.last());
    assert(s2.no_duplicates());
    assert(is_chain(nodes, s2, j));
    lemma_chain_is(nodes, s2, j);
    assert(seq![i] + s2 =~= s);
}

/// On a well-formed arena, every successor handle is itself valid.
pub proof fn lemma_next_valid(nodes: Seq<Node>, i: int)
    requires
        wf(nodes),
        valid(nodes, i),
        nodes[i].next is Some,
    ensures
        valid(nodes, nodes[i].next.unwrap() as int),
{
    lemma_chain_step(nodes, i);
}

} // verus!
