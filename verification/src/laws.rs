//! Value-level consequences of the relink operations.
//!
//! The contracts of `insert` and `remove` speak of chains of handles.
//! These proof functions restate their effect on the values seen along a
//! chain: an insert adds exactly the new value right after the splice
//! point, keeping all other values in order; a remove takes exactly the
//! removed node's value out, keeping the rest in order, and a value held
//! only by the removed node is gone from the chain altogether.

use vstd::prelude::*;

use crate::model::chain;
use crate::model::chain_vals;
use crate::model::fresh;
use crate::model::is_chain;
use crate::model::next_of;
use crate::model::valid;
use crate::model::wf;
use crate::model::Node;
use crate::ops::lemma_insert_preserves;
use crate::ops::lemma_remove_preserves;
use crate::ops::spliced;
use crate::ops::unlinked_after;

verus! {

/// After splicing the fresh node `p` after `n0`, the values along the
/// chain of any head that reached `n0` at position `t` are the old values
/// with `p`'s value inserted at position `t + 1`: one value more, all
/// previously reachable values still present in the same relative order.
pub proof fn lemma_insert_keeps_values(
    pre: Seq<Node>,
    post: Seq<Node>,
    n0: usize,
    p: usize,
    h: int,
    t: int,
)
    requires
        wf(pre),
        valid(pre, n0 as int),
        fresh(pre, p as int),
        n0 != p,
        spliced(pre, post, n0, p),
        valid(pre, h),
        h != p as int,
        0 <= t < chain(pre, h).len(),
        chain(pre, h)[t] == n0 as int,
    ensures
        chain_vals(post, h).len() == chain_vals(pre, h).len() + 1,
        chain_vals(post, h) == chain_vals(pre, h).insert(t + 1, pre[p as int].val),
{
    lemma_insert_preserves(pre, post, n0, p);
    let s = chain(pre, h);
    let sv = chain_vals(pre, h);
    let v = pre[p as int].val;
    assert(chain(post, h) == s.insert(t + 1, p as int));
    assert(chain_vals(post, h) == chain(post, h).map_values(|k: int| pre[k].val));
    s.insert_ensures(t + 1, p as int);
    sv.insert_ensures(t + 1, v);
    let s2 = s.insert(t + 1, p as int);
    assert forall|k: int| 0 <= k < s2.len() implies pre[#[trigger] s2[k]].val == sv.insert(
        t + 1,
        v,
    )[k] by {
        if k <= t {
            assert(s2[k] == s[k]);
            assert(sv.insert(t + 1, v)[k] == sv[k]);
        } else if k == t + 1 {
            assert(s2[k] == p as int);
            assert(sv.insert(t + 1, v)[k] == v);
        } else {
            assert(s2[k] == s[k - 1]);
            assert(sv.insert(t + 1, v)[k] == sv[k - 1]);
        }
    }
    assert(chain_vals(post, h) =~= sv.insert(t + 1, v));
}

/// After unlinking the node `p` that followed `n0`, the values along the
/// chain of any head that reached `n0` at position `t` are the old values
/// with the one at position `t + 1` (the removed node's value) taken out:
/// one value fewer, the rest in the same relative order.
pub proof fn lemma_remove_keeps_values(
    pre: Seq<Node>,
    post: Seq<Node>,
    n0: usize,
    p: usize,
    h: int,
    t: int,
)
    requires
        wf(pre),
        valid(pre, n0 as int),
        pre[n0 as int].next == Option::Some(p),
        unlinked_after(pre, post, n0, p),
        valid(pre, h),
        0 <= t < chain(pre, h).len(),
        chain(pre, h)[t] == n0 as int,
    ensures
        chain_vals(pre, h).len() >= 2,
        chain_vals(pre, h)[t + 1] == pre[p as int].val,
        chain_vals(post, h).len() == chain_vals(pre, h).len() - 1,
        chain_vals(post, h) == chain_vals(pre, h).remove(t + 1),
{
    lemma_remove_preserves(pre, post, n0, p);
    let s = chain(pre, h);
    let sv = chain_vals(pre, h);
    assert(is_chain(pre, s, h));
    assert(t < s.len() - 1) by {
        if t == s.len() - 1 {
            assert(next_of(pre, s[t]) is None);
        }
    }
    assert(next_of(pre, s[t]) == Option::Some(s[t + 1]));
    assert(s[t + 1] == p as int);
    assert(chain(post, h) == s.remove(t + 1));
    assert(chain_vals(post, h) == chain(post, h).map_values(|k: int| pre[k].val));
    s.remove_ensures(t + 1);
    sv.remove_ensures(t + 1);
    let s2 = s.remove(t + 1);
    assert forall|k: int| 0 <= k < s2.len() implies pre[#[trigger] s2[k]].val == sv.remove(t + 1)[
        k
    ] by {
        if k <= t {
            assert(s2[k] == s[k]);
            assert(sv.remove(t + 1)[k] == sv[k]);
        } else {
            assert(s2[k] == s[k + 1]);
            assert(sv.remove(t + 1)[k] == sv[k + 1]);
        }
    }
    assert(chain_vals(post, h) =~= sv.remove(t + 1));
}

/// If the removed node's value occurred nowhere else along the chain, it is
/// absent from the chain after the removal.
pub proof fn lemma_removed_value_absent(
    pre: Seq<Node>,
    post: Seq<Node>,
    n0: usize,
    p: usize,
    h: int,
    t: int,
)
    requires
        wf(pre),
        valid(pre, n0 as int),
        pre[n0 as int].next == Option::Some(p),
        unlinked_after(pre, post, n0, p),
        valid(pre, h),
        0 <= t < chain(pre, h).len(),
        chain(pre, h)[t] == n0 as int,
        forall|k: int|
            0 <= k < chain_vals(pre, h).len() && k != t + 1 ==> chain_vals(pre, h)[k] != pre[
                p as int
            ].val,
    ensures
        !chain_vals(post, h).contains(pre[p as int].val),
{
    lemma_remove_keeps_values(pre, post, n0, p, h, t);
    let sv = chain_vals(pre, h);
    let v = pre[p as int].val;
    sv.remove_ensures(t + 1);
    if chain_vals(post, h).contains(v) {
        let k = choose|k: int| 0 <= k < chain_vals(post, h).len() && chain_vals(post, h)[k] == v;
        if k <= t {
            assert(sv[k] == v);
        } else {
            assert(sv[k + 1] == v);
        }
    }
}

} // verus!
