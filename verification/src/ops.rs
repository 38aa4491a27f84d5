//! The four chain operations: insert-after, remove-after, indexed access,
//! and linear search.
//!
//! `insert` and `remove` relink the chain in place; their contracts state
//! the exact new arena and what happens to the chain of every head. The
//! read-only `access` and `find` walk a chain iteratively; their contracts
//! pin the returned handle or index against the chain model.

use vstd::prelude::*;

use crate::arena::Arena;
use crate::model::chain;
use crate::model::chain_vals;
use crate::model::first_match;
use crate::model::fresh;
use crate::model::is_chain;
use crate::model::lemma_chain_is;
use crate::model::lemma_first_match_spec;
use crate::model::lemma_chain_step;
use crate::model::next_of;
use crate::model::valid;
use crate::model::wf;
use crate::model::Node;

verus! {

/// The arena after `insert(n0, p)`: node `p` takes over `n0`'s successor,
/// and `n0`'s successor becomes `p`; values and all other links are kept.
pub open spec fn spliced(pre: Seq<Node>, post: Seq<Node>, n0: usize, p: usize) -> bool {
    post == pre.update(p as int, (Node { val: pre[p as int].val, next: pre[n0 as int].next
    })).update(n0 as int, (Node { val: pre[n0 as int].val, next: Option::Some(p) }))
}

/// No node links to `p`, so `p` appears in no chain headed elsewhere.
proof fn lemma_unreferenced_not_in_chain(nodes: Seq<Node>, h: int, p: int)
    requires
        wf(nodes),
        valid(nodes, h),
        h != p,
        forall|k: int| valid(nodes, k) ==> next_of(nodes, k) != Option::Some(p),
    ensures
        !chain(nodes, h).contains(p),
{
    let s = chain(nodes, h);
    if s.contains(p) {
        let k = choose|k: int| 0 <= k < s.len() && s[k] == p;
        if k == 0 {
            assert(s[0] == h);
        } else {
            assert(next_of(nodes, s[k - 1]) == Option::Some(s[k]));
            assert(valid(nodes, s[k - 1]));
        }
    }
}

/// A chain none of whose nodes changed is the same chain afterwards.
proof fn lemma_chain_untouched(pre: Seq<Node>, post: Seq<Node>, h: int)
    requires
        wf(pre),
        valid(pre, h),
        post.len() == pre.len(),
        forall|x: int| chain(pre, h).contains(x) ==> post[x] == pre[x],
    ensures
        chain(post, h) == chain(pre, h),
        is_chain(post, chain(post, h), h),
        chain(post, h).no_duplicates(),
{
    let s = chain(pre, h);
    assert(is_chain(pre, s, h) && s.no_duplicates());
    assert(is_chain(post, s, h)) by {
        assert forall|k: int| 0 <= k < s.len() implies valid(post, #[trigger] s[k]) && post[s[k]]
            == pre[s[k]] by {
            assert(s.contains(s[k]));
        }
    }
    lemma_chain_is(post, s, h);
}

/// Relinking leaves every value in place, so the values along any chain of
/// the new arena are the old values of its handles.
proof fn lemma_vals_unchanged(pre: Seq<Node>, post: Seq<Node>, h: int)
    requires
        wf(post),
        valid(post, h),
        post.len() == pre.len(),
        forall|x: int| valid(pre, x) ==> post[x].val == pre[x].val,
    ensures
        chain_vals(post, h) == chain(post, h).map_values(|k: int| pre[k].val),
{
    let c = chain(post, h);
    assert(is_chain(post, c, h));
    assert forall|k: int| 0 <= k < c.len() implies post[#[trigger] c[k]].val == pre[c[k]].val by {
        assert(valid(post, c[k]));
        assert(valid(pre, c[k]));
    }
    assert(chain_vals(post, h) =~= c.map_values(|k: int| pre[k].val));
}

/// After the splice, the chain of a head that reaches `n0` at position `t`
/// is the old chain with `p` inserted right after `n0`.
proof fn lemma_insert_chain_at(pre: Seq<Node>, post: Seq<Node>, n0: usize, p: usize, h: int, t: int)
    requires
        wf(pre),
        valid(pre, n0 as int),
        fresh(pre, p as int),
        n0 != p,
        spliced(pre, post, n0, p),
        valid(pre, h),
        h != p as int,
        0 <= t < chain(pre, h).len(),
        chain(pre, h)[t] == n0 as int,
    ensures
        chain(post, h) == chain(pre, h).insert(t + 1, p as int),
        is_chain(post, chain(post, h), h),
        chain(post, h).no_duplicates(),
{
    let n0i = n0 as int;
    let pi = p as int;
    let s = chain(pre, h);
    assert(is_chain(pre, s, h) && s.no_duplicates());
    lemma_unreferenced_not_in_chain(pre, h, pi);
    let s2 = s.insert(t + 1, pi);
    s.insert_ensures(t + 1, pi);
    assert(forall|k: int| 0 <= k <= t ==> #[trigger] s2[k] == s[k]);
    assert(s2[t + 1] == pi);
    assert(forall|k: int| t + 2 <= k < s2.len() ==> #[trigger] s2[k] == s[k - 1]);
    assert(forall|k: int| 0 <= k < s.len() && k != t ==> #[trigger] s[k] != n0i);
    assert(forall|k: int| 0 <= k < s.len() ==> #[trigger] s[k] != pi);
    assert(s2.no_duplicates()) by {
        assert forall|a: int, b: int| 0 <= a < b < s2.len() implies s2[a] != s2[b] by {
            if b <= t {
            } else if b == t + 1 {
                assert(s2[a] == s[a]);
            } else if a == t + 1 {
                assert(s2[b] == s[b - 1]);
            } else if a <= t {
                assert(s2[a] == s[a] && s2[b] == s[b - 1]);
            } else {
                assert(s2[a] == s[a - 1] && s2[b] == s[b - 1]);
            }
        }
    }
    assert(is_chain(post, s2, h)) by {
        assert forall|k: int| 0 <= k < s2.len() implies valid(post, #[trigger] s2[k]) by {
            if k <= t {
                assert(s2[k] == s[k]);
            } else if k == t + 1 {
            } else {
                assert(s2[k] == s[k - 1]);
            }
        }
        assert forall|k: int| 0 <= k < s2.len() - 1 implies next_of(post, #[trigger] s2[k])
            == Option::Some(s2[k + 1]) by {
            if k < t {
                assert(s2[k] == s[k] && s[k] != n0i && s[k] != pi);
                assert(post[s[k]] == pre[s[k]]);
                assert(next_of(pre, s[k]) == Option::Some(s[k + 1]));
                assert(s2[k + 1] == s[k + 1]);
            } else if k == t {
                assert(s2[t] == n0i && s2[t + 1] == pi);
                assert(post[n0i].next == Option::Some(p));
            } else if k == t + 1 {
                // t + 1 < s2.len() - 1, so n0 was not the old tail
                assert(s2[k + 1] == s[t + 1]);
                assert(next_of(pre, n0i) == Option::Some(s[t + 1]));
                assert(next_of(post, pi) == next_of(pre, n0i));
            } else {
                assert(s2[k] == s[k - 1] && s[k - 1] != n0i && s[k - 1] != pi);
                assert(post[s[k - 1]] == pre[s[k - 1]]);
                assert(next_of(pre, s[k - 1]) == Option::Some(s[k]));
                assert(s2[k + 1] == s[k]);
            }
        }
        assert(next_of(post, s2[s2.len() - 1]) is None) by {
            if t == s.len() - 1 {
                assert(s2[s2.len() - 1] == pi);
                assert(next_of(pre, n0i) is None);
            } else {
                assert(s2[s2.len() - 1] == s[s.len() - 1]);
                assert(s[s.len() - 1] != n0i && s[s.len() - 1] != pi);
            }
        }
    }
    lemma_chain_is(post, s2, h);
}

/// After the splice, the chain of a head that does not reach `n0` is
/// untouched.
proof fn lemma_insert_chain_off(pre: Seq<Node>, post: Seq<Node>, n0: usize, p: usize, h: int)
    requires
        wf(pre),
        valid(pre, n0 as int),
        fresh(pre, p as int),
        n0 != p,
        spliced(pre, post, n0, p),
        valid(pre, h),
        h != p as int,
        !chain(pre, h).contains(n0 as int),
    ensures
        chain(post, h) == chain(pre, h),
        is_chain(post, chain(post, h), h),
        chain(post, h).no_duplicates(),
{
    lemma_unreferenced_not_in_chain(pre, h, p as int);
    lemma_chain_untouched(pre, post, h);
}

/// After the splice, the fresh node's chain is itself followed by the
/// nodes that previously followed `n0`.
proof fn lemma_insert_chain_fresh(pre: Seq<Node>, post: Seq<Node>, n0: usize, p: usize)
    requires
        wf(pre),
        valid(pre, n0 as int),
        fresh(pre, p as int),
        n0 != p,
        spliced(pre, post, n0, p),
    ensures
        chain(post, p as int) == seq![p as int] + chain(pre, n0 as int).drop_first(),
        is_chain(post, chain(post, p as int), p as int),
        chain(post, p as int).no_duplicates(),
{
    let n0i = n0 as int;
    let pi = p as int;
    match pre[n0i].next {
        Option::None => {
            assert(chain(pre, n0i) == seq![n0i]) by {
                assert(is_chain(pre, chain(pre, n0i), n0i));
                lemma_chain_is(pre, seq![n0i], n0i);
            }
            assert(is_chain(post, seq![pi], pi));
            assert(seq![pi].no_duplicates());
            lemma_chain_is(post, seq![pi], pi);
            assert(seq![pi] + chain(pre, n0i).drop_first() =~= seq![pi]);
        },
        Option::Some(q0) => {
            let q = q0 as int;
            lemma_chain_step(pre, n0i);
            let s2 = chain(pre, q);
            assert(chain(pre, n0i) == seq![n0i] + s2);
            assert(is_chain(pre, s2, q) && s2.no_duplicates());
            assert(q != pi);
            lemma_unreferenced_not_in_chain(pre, q, pi);
            assert(!s2.contains(n0i)) by {
                if s2.contains(n0i) {
                    let k = choose|k: int| 0 <= k < s2.len() && s2[k] == n0i;
                    assert(chain(pre, n0i)[k + 1] == n0i);
                    assert(chain(pre, n0i)[0] == n0i);
                    assert(!chain(pre, n0i).no_duplicates());
                }
            }
            let s3 = seq![pi] + s2;
            assert(s3.no_duplicates()) by {
                assert(forall|k: int| 0 <= k < s2.len() ==> #[trigger] s2[k] != pi);
            }
            assert(is_chain(post, s3, pi)) by {
                assert(forall|k: int| 0 <= k < s2.len() ==> #[trigger] s2[k] != n0i && s2[k] != pi);
                assert forall|k: int| 0 <= k < s3.len() implies valid(post, #[trigger] s3[k]) by {
                    if k > 0 {
                        assert(s3[k] == s2[k - 1]);
                    }
                }
                assert forall|k: int| 0 <= k < s3.len() - 1 implies next_of(post, #[trigger] s3[k])
                    == Option::Some(s3[k + 1]) by {
                    if k == 0 {
                        assert(next_of(post, pi) == Option::Some(q));
                        assert(s3[1] == s2[0] == q);
                    } else {
                        assert(s3[k] == s2[k - 1] && s3[k + 1] == s2[k]);
                        assert(post[s2[k - 1]] == pre[s2[k - 1]]);
                    }
                }
                assert(s3[s3.len() - 1] == s2[s2.len() - 1]);
                assert(post[s2[s2.len() - 1]] == pre[s2[s2.len() - 1]]);
            }
            lemma_chain_is(post, s3, pi);
            assert(seq![pi] + chain(pre, n0i).drop_first() =~= s3);
        },
    }
}

/// What splicing a fresh node `p` after `n0` does to every chain of the
/// arena, and that it keeps the arena well-formed: the chain of any head
/// that reaches `n0` gains exactly `p`, right after `n0`, keeping every
/// other node in order; any other chain is untouched; and values are kept.
pub proof fn lemma_insert_preserves(pre: Seq<Node>, post: Seq<Node>, n0: usize, p: usize)
    requires
        wf(pre),
        valid(pre, n0 as int),
        fresh(pre, p as int),
        n0 != p,
        spliced(pre, post, n0, p),
    ensures
        wf(post),
        forall|h: int, t: int|
            valid(pre, h) && h != p as int && 0 <= t < chain(pre, h).len() && chain(pre, h)[t]
                == n0 as int ==> chain(post, h) == chain(pre, h).insert(t + 1, p as int),
        forall|h: int|
            valid(pre, h) && h != p as int && !chain(pre, h).contains(n0 as int) ==> chain(post, h)
                == chain(pre, h),
        chain(post, p as int) == seq![p as int] + chain(pre, n0 as int).drop_first(),
        forall|h: int|
            valid(post, h) ==> chain_vals(post, h) == chain(post, h).map_values(
                |k: int| pre[k].val,
            ),
{
    assert forall|h: int, t: int|
        valid(pre, h) && h != p as int && 0 <= t < chain(pre, h).len() && chain(pre, h)[t]
            == n0 as int implies chain(post, h) == chain(pre, h).insert(t + 1, p as int) by {
        lemma_insert_chain_at(pre, post, n0, p, h, t);
    }
    assert forall|h: int|
        valid(pre, h) && h != p as int && !chain(pre, h).contains(n0 as int) implies chain(post, h)
        == chain(pre, h) by {
        lemma_insert_chain_off(pre, post, n0, p, h);
    }
    lemma_insert_chain_fresh(pre, post, n0, p);
    assert forall|h: int| valid(post, h) implies is_chain(post, #[trigger] chain(post, h), h)
        && chain(post, h).no_duplicates() by {
        if h == p as int {
        } else if chain(pre, h).contains(n0 as int) {
            let t = choose|t: int| 0 <= t < chain(pre, h).len() && chain(pre, h)[t] == n0 as int;
            lemma_insert_chain_at(pre, post, n0, p, h, t);
        } else {
            lemma_insert_chain_off(pre, post, n0, p, h);
        }
    }
    assert forall|h: int| valid(post, h) implies chain_vals(post, h) == chain(post, h).map_values(
        |k: int| pre[k].val,
    ) by {
        lemma_vals_unchanged(pre, post, h);
    }
}

/// Splice the fresh node `p` into the chain immediately after node `n0`:
/// `p` takes over `n0`'s successor, and `n0`'s successor becomes `p`.
/// Every chain through `n0` keeps its nodes in order and gains exactly `p`,
/// right after `n0`; every chain not through `n0` is untouched.
pub fn insert(arena: &mut Arena, n0: usize, p: usize)
    requires
        wf(old(arena)@),
        valid(old(arena)@, n0 as int),
        fresh(old(arena)@, p as int),
        n0 != p,
    ensures
        wf(final(arena)@),
        spliced(old(arena)@, final(arena)@, n0, p),
        final(arena)@[n0 as int].next == Option::Some(p),
        final(arena)@[p as int].next == old(arena)@[n0 as int].next,
        forall|h: int, t: int|
            valid(old(arena)@, h) && h != p as int && 0 <= t < chain(old(arena)@, h).len() && chain(
                old(arena)@,
                h,
            )[t] == n0 as int ==> chain(final(arena)@, h) == chain(old(arena)@, h).insert(
                t + 1,
                p as int,
            ),
        forall|h: int|
            valid(old(arena)@, h) && h != p as int && !chain(old(arena)@, h).contains(n0 as int)
                ==> chain(final(arena)@, h) == chain(old(arena)@, h),
        chain(final(arena)@, p as int) == seq![p as int] + chain(
            old(arena)@,
            n0 as int,
        ).drop_first(),
        chain(final(arena)@, n0 as int) == chain(old(arena)@, n0 as int).insert(1, p as int),
        forall|h: int|
            valid(final(arena)@, h) ==> chain_vals(final(arena)@, h) == chain(
                final(arena)@,
                h,
            ).map_values(|k: int| old(arena)@[k].val),
{
    let n1 = arena.next_of(n0);
    arena.set_next(p, n1);
    arena.set_next(n0, Some(p));
    proof {
        lemma_insert_preserves(old(arena)@, arena@, n0, p);
        assert(chain(old(arena)@, n0 as int)[0] == n0 as int);
    }
}

/// The arena after `remove(n0)` when `p` was `n0`'s successor: `n0` takes
/// over `p`'s successor and `p` is detached (left with no outgoing link);
/// values and all other links are kept.
pub open spec fn unlinked_after(pre: Seq<Node>, post: Seq<Node>, n0: usize, p: usize) -> bool {
    post == pre.update(p as int, (Node { val: pre[p as int].val, next: Option::None })).update(
        n0 as int,
        (Node { val: pre[n0 as int].val, next: pre[p as int].next }),
    )
}

/// On a well-formed arena a node is never its own successor.
proof fn lemma_no_self_loop(pre: Seq<Node>, n0: int)
    requires
        wf(pre),
        valid(pre, n0),
        pre[n0].next is Some,
    ensures
        pre[n0].next.unwrap() as int != n0,
{
    if pre[n0].next.unwrap() as int == n0 {
        lemma_chain_step(pre, n0);
        assert(chain(pre, n0)[1] == chain(pre, n0)[0]);
        assert(!chain(pre, n0).no_duplicates());
    }
}

/// After the unlink, the chain of a head that reaches `n0` at position `t`
/// is the old chain with the node after `n0` taken out.
proof fn lemma_remove_chain_at(pre: Seq<Node>, post: Seq<Node>, n0: usize, p: usize, h: int, t: int)
    requires
        wf(pre),
        valid(pre, n0 as int),
        pre[n0 as int].next == Option::Some(p),
        unlinked_after(pre, post, n0, p),
        valid(pre, h),
        0 <= t < chain(pre, h).len(),
        chain(pre, h)[t] == n0 as int,
    ensures
        chain(post, h) == chain(pre, h).remove(t + 1),
        is_chain(post, chain(post, h), h),
        chain(post, h).no_duplicates(),
{
    let n0i = n0 as int;
    let pi = p as int;
    lemma_no_self_loop(pre, n0i);
    lemma_chain_step(pre, n0i);
    assert(valid(pre, pi));
    let s = chain(pre, h);
    assert(is_chain(pre, s, h) && s.no_duplicates());
    assert(t < s.len() - 1) by {
        if t == s.len() - 1 {
            assert(next_of(pre, s[t]) is None);
        }
    }
    assert(next_of(pre, s[t]) == Option::Some(s[t + 1]));
    assert(s[t + 1] == pi);
    assert(forall|k: int| 0 <= k < s.len() && k != t ==> #[trigger] s[k] != n0i);
    assert(forall|k: int| 0 <= k < s.len() && k != t + 1 ==> #[trigger] s[k] != pi);
    let s2 = s.remove(t + 1);
    s.remove_ensures(t + 1);
    assert(forall|k: int| 0 <= k < t + 1 ==> #[trigger] s2[k] == s[k]);
    assert(forall|k: int| t + 1 <= k < s2.len() ==> #[trigger] s2[k] == s[k + 1]);
    assert(s2.no_duplicates()) by {
        assert forall|a: int, b: int| 0 <= a < b < s2.len() implies s2[a] != s2[b] by {
            if b <= t {
            } else if a <= t {
                assert(s2[a] == s[a] && s2[b] == s[b + 1]);
            } else {
                assert(s2[a] == s[a + 1] && s2[b] == s[b + 1]);
            }
        }
    }
    assert(is_chain(post, s2, h)) by {
        assert(s2.len() > 0 && s2[0] == h);
        assert forall|k: int| 0 <= k < s2.len() implies valid(post, #[trigger] s2[k]) by {
            if k <= t {
                assert(s2[k] == s[k]);
            } else {
                assert(s2[k] == s[k + 1]);
            }
        }
        assert forall|k: int| 0 <= k < s2.len() - 1 implies next_of(post, #[trigger] s2[k])
            == Option::Some(s2[k + 1]) by {
            if k < t {
                assert(s2[k] == s[k] && s[k] != n0i && s[k] != pi);
                assert(post[s[k]] == pre[s[k]]);
                assert(next_of(pre, s[k]) == Option::Some(s[k + 1]));
                assert(s2[k + 1] == s[k + 1]);
            } else if k == t {
                // k + 1 <= s2.len() - 1, so t + 2 <= s.len() - 1 + 1
                assert(s2[t] == n0i);
                assert(next_of(post, n0i) == next_of(pre, pi));
                assert(next_of(pre, s[t + 1]) == Option::Some(s[t + 2]));
                assert(s2[t + 1] == s[t + 2]);
            } else {
                assert(s2[k] == s[k + 1] && s[k + 1] != n0i && s[k + 1] != pi);
                assert(post[s[k + 1]] == pre[s[k + 1]]);
                assert(next_of(pre, s[k + 1]) == Option::Some(s[k + 2]));
                assert(s2[k + 1] == s[k + 2]);
            }
        }
        assert(next_of(post, s2[s2.len() - 1]) is None) by {
            if t + 1 == s.len() - 1 {
                assert(s2[s2.len() - 1] == s[t] == n0i);
                assert(next_of(post, n0i) == next_of(pre, pi));
                assert(next_of(pre, s[s.len() - 1]) is None);
            } else {
                assert(s2[s2.len() - 1] == s[s.len() - 1]);
                assert(s[s.len() - 1] != n0i && s[s.len() - 1] != pi);
                assert(post[s[s.len() - 1]] == pre[s[s.len() - 1]]);
            }
        }
    }
    lemma_chain_is(post, s2, h);
}

/// After the unlink, the chain of a head that reaches the detached node `p`
/// but not `n0` is cut off right after `p`.
proof fn lemma_remove_chain_cut(pre: Seq<Node>, post: Seq<Node>, n0: usize, p: usize, h: int, u: int)
    requires
        wf(pre),
        valid(pre, n0 as int),
        pre[n0 as int].next == Option::Some(p),
        unlinked_after(pre, post, n0, p),
        valid(pre, h),
        !chain(pre, h).contains(n0 as int),
        0 <= u < chain(pre, h).len(),
        chain(pre, h)[u] == p as int,
    ensures
        chain(post, h) == chain(pre, h).take(u + 1),
        is_chain(post, chain(post, h), h),
        chain(post, h).no_duplicates(),
{
    let n0i = n0 as int;
    let pi = p as int;
    let s = chain(pre, h);
    assert(is_chain(pre, s, h) && s.no_duplicates());
    assert(forall|k: int| 0 <= k < s.len() ==> #[trigger] s[k] != n0i);
    assert(forall|k: int| 0 <= k < s.len() && k != u ==> #[trigger] s[k] != pi);
    let s2 = s.take(u + 1);
    assert(forall|k: int| 0 <= k < s2.len() ==> #[trigger] s2[k] == s[k]);
    assert(s2.no_duplicates()) by {
        assert forall|a: int, b: int| 0 <= a < b < s2.len() implies s2[a] != s2[b] by {
            assert(s2[a] == s[a] && s2[b] == s[b]);
        }
    }
    assert(is_chain(post, s2, h)) by {
        assert(s2.len() == u + 1 > 0 && s2[0] == s[0] == h);
        assert(forall|k: int| 0 <= k < s2.len() ==> valid(post, #[trigger] s2[k]));
        assert forall|k: int| 0 <= k < s2.len() - 1 implies next_of(post, #[trigger] s2[k])
            == Option::Some(s2[k + 1]) by {
            assert(s2[k] == s[k] && s[k] != n0i && s[k] != pi);
            assert(post[s[k]] == pre[s[k]]);
            assert(next_of(pre, s[k]) == Option::Some(s[k + 1]));
        }
        assert(s2[s2.len() - 1] == pi);
        assert(next_of(post, pi) is None);
    }
    lemma_chain_is(post, s2, h);
}

/// What unlinking the node after `n0` does to every chain of the arena,
/// and that it keeps the arena well-formed: the chain of any head that
/// reaches `n0` loses exactly the node after `n0`, keeping every other
/// node in order; a chain holding the detached node but not `n0` is cut
/// off right after it; any other chain is untouched; and values are kept.
pub proof fn lemma_remove_preserves(pre: Seq<Node>, post: Seq<Node>, n0: usize, p: usize)
    requires
        wf(pre),
        valid(pre, n0 as int),
        pre[n0 as int].next == Option::Some(p),
        unlinked_after(pre, post, n0, p),
    ensures
        wf(post),
        forall|h: int, t: int|
            valid(pre, h) && 0 <= t < chain(pre, h).len() && chain(pre, h)[t] == n0 as int ==> chain(
                post,
                h,
            ) == chain(pre, h).remove(t + 1),
        forall|h: int, u: int|
            valid(pre, h) && !chain(pre, h).contains(n0 as int) && 0 <= u < chain(pre, h).len()
                && chain(pre, h)[u] == p as int ==> chain(post, h) == chain(pre, h).take(u + 1),
        forall|h: int|
            valid(pre, h) && !chain(pre, h).contains(n0 as int) && !chain(pre, h).contains(p as int)
                ==> chain(post, h) == chain(pre, h),
        forall|h: int|
            valid(post, h) ==> chain_vals(post, h) == chain(post, h).map_values(
                |k: int| pre[k].val,
            ),
{
    lemma_no_self_loop(pre, n0 as int);
    lemma_chain_step(pre, n0 as int);
    assert(valid(pre, p as int));
    assert forall|h: int, t: int|
        valid(pre, h) && 0 <= t < chain(pre, h).len() && chain(pre, h)[t]
            == n0 as int implies chain(post, h) == chain(pre, h).remove(t + 1) by {
        lemma_remove_chain_at(pre, post, n0, p, h, t);
    }
    assert forall|h: int, u: int|
        valid(pre, h) && !chain(pre, h).contains(n0 as int) && 0 <= u < chain(pre, h).len()
            && chain(pre, h)[u] == p as int implies chain(post, h) == chain(pre, h).take(u + 1) by {
        lemma_remove_chain_cut(pre, post, n0, p, h, u);
    }
    assert forall|h: int|
        valid(pre, h) && !chain(pre, h).contains(n0 as int) && !chain(pre, h).contains(
            p as int,
        ) implies chain(post, h) == chain(pre, h) by {
        lemma_chain_untouched(pre, post, h);
    }
    assert forall|h: int| valid(post, h) implies is_chain(post, #[trigger] chain(post, h), h)
        && chain(post, h).no_duplicates() by {
        if chain(pre, h).contains(n0 as int) {
            let t = choose|t: int| 0 <= t < chain(pre, h).len() && chain(pre, h)[t] == n0 as int;
            lemma_remove_chain_at(pre, post, n0, p, h, t);
        } else if chain(pre, h).contains(p as int) {
            let u = choose|u: int| 0 <= u < chain(pre, h).len() && chain(pre, h)[u] == p as int;
            lemma_remove_chain_cut(pre, post, n0, p, h, u);
        } else {
            lemma_chain_untouched(pre, post, h);
        }
    }
    assert forall|h: int| valid(post, h) implies chain_vals(post, h) == chain(post, h).map_values(
        |k: int| pre[k].val,
    ) by {
        lemma_vals_unchanged(pre, post, h);
    }
}

/// Remove the node immediately after `n0` from its chain, if there is one;
/// when `n0` has no successor this is a no-op and the arena is unchanged.
/// Otherwise `n0` takes over the removed node's successor, the removed node
/// is detached with no outgoing link, and every chain through `n0` keeps
/// its other nodes in order, exactly one shorter.
pub fn remove(arena: &mut Arena, n0: usize)
    requires
        wf(old(arena)@),
        valid(old(arena)@, n0 as int),
    ensures
        wf(final(arena)@),
        old(arena)@[n0 as int].next is None ==> final(arena)@ == old(arena)@,
        old(arena)@[n0 as int].next matches Option::Some(p) ==> {
            &&& unlinked_after(old(arena)@, final(arena)@, n0, p)
            &&& final(arena)@[n0 as int].next == old(arena)@[p as int].next
            &&& final(arena)@[p as int].next is None
            &&& chain(final(arena)@, n0 as int) == chain(old(arena)@, n0 as int).remove(1)
        },
        forall|h: int, t: int|
            old(arena)@[n0 as int].next is Some && valid(old(arena)@, h) && 0 <= t < chain(
                old(arena)@,
                h,
            ).len() && chain(old(arena)@, h)[t] == n0 as int ==> chain(final(arena)@, h) == chain(
                old(arena)@,
                h,
            ).remove(t + 1),
        forall|h: int, u: int|
            old(arena)@[n0 as int].next is Some && valid(old(arena)@, h) && !chain(
                old(arena)@,
                h,
            ).contains(n0 as int) && 0 <= u < chain(old(arena)@, h).len() && chain(old(arena)@, h)[u]
                == old(arena)@[n0 as int].next.unwrap() as int ==> chain(final(arena)@, h) == chain(
                old(arena)@,
                h,
            ).take(u + 1),
        forall|h: int|
            old(arena)@[n0 as int].next is Some && valid(old(arena)@, h) && !chain(
                old(arena)@,
                h,
            ).contains(n0 as int) && !chain(old(arena)@, h).contains(
                old(arena)@[n0 as int].next.unwrap() as int,
            ) ==> chain(final(arena)@, h) == chain(old(arena)@, h),
        forall|h: int|
            valid(final(arena)@, h) ==> chain_vals(final(arena)@, h) == chain(
                final(arena)@,
                h,
            ).map_values(|k: int| old(arena)@[k].val),
{
    match arena.next_of(n0) {
        None => {
            proof {
                assert forall|h: int| valid(arena@, h) implies chain_vals(arena@, h) == chain(
                    arena@,
                    h,
                ).map_values(|k: int| old(arena)@[k].val) by {
                    lemma_vals_unchanged(old(arena)@, arena@, h);
                }
            }
        },
        Some(p) => {
            proof {
                lemma_no_self_loop(old(arena)@, n0 as int);
                lemma_chain_step(old(arena)@, n0 as int);
            }
            let n1 = arena.next_of(p);
            arena.set_next(p, None);
            arena.set_next(n0, n1);
            proof {
                lemma_remove_preserves(old(arena)@, arena@, n0, p);
                assert(chain(old(arena)@, n0 as int)[0] == n0 as int);
            }
        },
    }
}

/// The node at zero-based position `index` of the chain starting at `head`,
/// clamped: the head for `index <= 0`, the tail once the chain runs out.
pub fn access(arena: &Arena, head: usize, index: i32) -> (r: usize)
    requires
        wf(arena@),
        valid(arena@, head as int),
    ensures
        valid(arena@, r as int),
        index <= 0 ==> r == head,
        0 <= index < chain(arena@, head as int).len() ==> r as int == chain(arena@, head as int)[
            index as int
        ],
        index >= chain(arena@, head as int).len() ==> r as int == chain(arena@, head as int).last(),
{
    let ghost c = chain(arena@, head as int);
    proof {
        assert(is_chain(arena@, c, head as int));
    }
    if index <= 0 {
        return head;
    }
    let mut cur: usize = head;
    let mut k: i32 = index;
    let ghost mut t: int = 0;
    while k > 0
        invariant
            wf(arena@),
            valid(arena@, head as int),
            c == chain(arena@, head as int),
            0 < index,
            0 <= k <= index,
            t == index - k,
            0 <= t < c.len(),
            c[t] == cur as int,
        decreases k,
    {
        assert(valid(arena@, cur as int));
        match arena.next_of(cur) {
            Some(nx) => {
                proof {
                    assert(t < c.len() - 1) by {
                        if t == c.len() - 1 {
                            assert(next_of(arena@, c[t]) is None);
                        }
                    }
                    assert(next_of(arena@, c[t]) == Option::Some(c[t + 1]));
                    t = t + 1;
                }
                cur = nx;
                k = k - 1;
            },
            None => {
                proof {
                    assert(next_of(arena@, c[t]) is None);
                    assert(t == c.len() - 1) by {
                        if t < c.len() - 1 {
                            assert(next_of(arena@, c[t]) == Option::Some(c[t + 1]));
                        }
                    }
                }
                return cur;
            },
        }
    }
    cur
}

/// The zero-based position (counted from `index` at `head`) of the first
/// node of the chain whose value equals `target`, or `-1` if none does.
pub fn find(arena: &Arena, head: usize, target: i64, index: i32) -> (r: i32)
    requires
        wf(arena@),
        valid(arena@, head as int),
        index + chain(arena@, head as int).len() <= i32::MAX,
    ensures
        match first_match(chain_vals(arena@, head as int), target) {
            Option::Some(j) => r == index + j,
            Option::None => r == -1,
        },
{
    let ghost c = chain(arena@, head as int);
    let ghost vals = chain_vals(arena@, head as int);
    proof {
        assert(is_chain(arena@, c, head as int));
    }
    let mut cur: usize = head;
    let mut k: i32 = index;
    let ghost mut t: int = 0;
    loop
        invariant
            wf(arena@),
            valid(arena@, head as int),
            c == chain(arena@, head as int),
            vals == chain_vals(arena@, head as int),
            index + c.len() <= i32::MAX,
            index <= k,
            t == k - index,
            0 <= t < c.len(),
            c[t] == cur as int,
            forall|u: int| 0 <= u < t ==> vals[u] != target,
        decreases c.len() - t,
    {
        assert(valid(arena@, cur as int));
        assert(vals[t] == arena@[cur as int].val);
        if arena.val_of(cur) == target {
            proof {
                lemma_first_match_spec(vals, target);
                assert(vals[t] == target);
                match first_match(vals, target) {
                    Option::Some(j) => {
                        assert(j == t) by {
                            if j < t {
                                assert(vals[j] != target);
                            }
                            if j > t {
                                assert(vals[t] != target);
                            }
                        }
                    },
                    Option::None => {
                        assert(vals[t] != target);
                    },
                }
            }
            return k;
        }
        match arena.next_of(cur) {
            Some(nx) => {
                proof {
                    assert(t < c.len() - 1) by {
                        if t == c.len() - 1 {
                            assert(next_of(arena@, c[t]) is None);
                        }
                    }
                    assert(next_of(arena@, c[t]) == Option::Some(c[t + 1]));
                    t = t + 1;
                }
                cur = nx;
                k = k + 1;
            },
            None => {
                proof {
                    assert(next_of(arena@, c[t]) is None);
                    assert(t == c.len() - 1) by {
                        if t < c.len() - 1 {
                            assert(next_of(arena@, c[t]) == Option::Some(c[t + 1]));
                        }
                    }
                    assert(forall|u: int| 0 <= u < vals.len() ==> vals[u] != target);
                    lemma_first_match_spec(vals, target);
                }
                return -1;
            },
        }
    }
}

} // verus!
