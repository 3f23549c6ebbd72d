//! Memos never exceed true aggregates: the invariant that lets a size
//! query be bounded by the true total of the tree.
use vstd::prelude::*;
use crate::node::{
    empty_dir, lemma_refreshed_all, refreshed, refreshed_all, sum_totals,
    sum_vals, total, val, DirV, NodeV,
};
use crate::trie::{find_child, insert_dir, lemma_find_from};

verus! {

/// Every valid memo under a node is at most its directory's true aggregate.
pub open spec fn bounded(n: NodeV) -> bool
    decreases n,
{
    match n {
        NodeV::File { .. } => true,
        NodeV::Dir(d) => (d.cached ==> d.cache as int <= sum_totals(d.children, d.children.len() as int))
            && all_bounded(d.children, d.children.len() as int),
    }
}

/// The first `k` nodes of `cs` are `bounded`.
pub open spec fn all_bounded(cs: Seq<NodeV>, k: int) -> bool
    decreases cs, k,
{
    if k <= 0 || k > cs.len() {
        true
    } else {
        all_bounded(cs, k - 1) && bounded(cs[k - 1])
    }
}

pub proof fn lemma_all_bounded(cs: Seq<NodeV>, k: int)
    requires
        0 <= k <= cs.len(),
    ensures
        all_bounded(cs, k) <==> forall|i: int| 0 <= i < k ==> bounded(#[trigger] cs[i]),
    decreases k,
{
    if k > 0 {
        lemma_all_bounded(cs, k - 1);
    }
}

pub proof fn lemma_total_nonneg(n: NodeV)
    ensures
        total(n) >= 0,
    decreases n, 1int,
{
    if let NodeV::Dir(d) = n {
        lemma_sum_totals_nonneg(d.children, d.children.len() as int);
    }
}

pub proof fn lemma_sum_totals_nonneg(cs: Seq<NodeV>, k: int)
    ensures
        sum_totals(cs, k) >= 0,
    decreases cs, k,
{
    if 0 < k <= cs.len() {
        lemma_sum_totals_nonneg(cs, k - 1);
        lemma_total_nonneg(cs[k - 1]);
    }
}

/// Each child's aggregate is at most its parent's.
pub proof fn lemma_child_total(cs: Seq<NodeV>, i: int, k: int)
    requires
        0 <= i < k <= cs.len(),
    ensures
        0 <= total(cs[i]) <= sum_totals(cs, k),
    decreases k,
{
    lemma_total_nonneg(cs[k - 1]);
    lemma_sum_totals_nonneg(cs, k - 1);
    if i < k - 1 {
        lemma_child_total(cs, i, k - 1);
    }
}

/// Sums of totals compare as the totals do, index by index.
pub proof fn lemma_sum_totals_le(a: Seq<NodeV>, b: Seq<NodeV>, k: int)
    requires
        0 <= k <= a.len(),
        k <= b.len(),
        forall|i: int| 0 <= i < k ==> total(#[trigger] a[i]) <= total(b[i]),
    ensures
        sum_totals(a, k) <= sum_totals(b, k),
    decreases k,
{
    if k > 0 {
        lemma_sum_totals_le(a, b, k - 1);
    }
}

/// Replacing one node changes the sum of totals by the change in its total.
pub proof fn lemma_sum_totals_update(cs: Seq<NodeV>, j: int, x: NodeV, k: int)
    requires
        0 <= j < k <= cs.len(),
    ensures
        sum_totals(cs.update(j, x), k) == sum_totals(cs, k) - total(cs[j]) + total(x),
    decreases k,
{
    let cs2 = cs.update(j, x);
    if j < k - 1 {
        lemma_sum_totals_update(cs, j, x, k - 1);
    } else {
        assert forall|i: int| 0 <= i < k - 1 implies total(#[trigger] cs2[i]) <= total(cs[i])
            && total(cs[i]) <= total(cs2[i]) by {
            assert(cs2[i] == cs[i]);
        }
        lemma_sum_totals_le(cs2, cs, k - 1);
        lemma_sum_totals_le(cs, cs2, k - 1);
    }
}

/// A size query returns at most the true aggregate.
pub proof fn lemma_bounded_val(n: NodeV)
    requires
        bounded(n),
    ensures
        0 <= val(n) <= total(n),
    decreases n, 1int,
{
    if let NodeV::Dir(d) = n {
        if !d.cached {
            lemma_sum_vals_bounded(d.children, d.children.len() as int);
        }
    }
}

pub proof fn lemma_sum_vals_bounded(cs: Seq<NodeV>, k: int)
    requires
        0 <= k <= cs.len(),
        all_bounded(cs, k),
    ensures
        0 <= sum_vals(cs, k) <= sum_totals(cs, k),
    decreases cs, k,
{
    if k > 0 {
        lemma_sum_vals_bounded(cs, k - 1);
        lemma_bounded_val(cs[k - 1]);
    }
}

/// A size query keeps the memos bounded and changes no true aggregate.
pub proof fn lemma_refresh_bounded(n: NodeV)
    requires
        bounded(n),
        total(n) <= u64::MAX,
    ensures
        bounded(refreshed(n)),
        total(refreshed(n)) == total(n),
    decreases n,
{
    if let NodeV::Dir(d) = n {
        if !d.cached {
            let cs = d.children;
            let k = cs.len() as int;
            let rs = refreshed_all(cs, k);
            lemma_refreshed_all(cs, k);
            lemma_all_bounded(cs, k);
            lemma_all_bounded(rs, k);
            lemma_sum_vals_bounded(cs, k);
            assert forall|i: int| 0 <= i < k implies bounded(#[trigger] rs[i]) && total(rs[i])
                == total(cs[i]) by {
                lemma_child_total(cs, i, k);
                lemma_refresh_bounded(cs[i]);
            }
            lemma_sum_totals_le(rs, cs, k);
            lemma_sum_totals_le(cs, rs, k);
        }
    }
}

/// Insertion keeps the memos bounded and never shrinks the true aggregate.
pub proof fn lemma_insert_bounded(d: DirV, segs: Seq<Seq<char>>, size: u64)
    requires
        bounded(NodeV::Dir(d)),
    ensures
        bounded(NodeV::Dir(insert_dir(d, segs, size))),
        total(NodeV::Dir(insert_dir(d, segs, size))) >= total(NodeV::Dir(d)),
        total(NodeV::Dir(insert_dir(d, segs, size))) <= total(NodeV::Dir(d)) + size,
    decreases segs.len(),
{
    let cs = d.children;
    let n = cs.len() as int;
    lemma_all_bounded(cs, n);
    if segs.len() > 0 {
        let j = find_child(cs, segs[0]);
        lemma_find_from(cs, segs[0], 0);
        if j < 0 {
            let child = if segs.len() == 1 {
                NodeV::File { name: segs[0], size }
            } else {
                NodeV::Dir(insert_dir(empty_dir(segs[0]), segs.drop_first(), size))
            };
            if segs.len() > 1 {
                assert(all_bounded(Seq::<NodeV>::empty(), 0));
                lemma_insert_bounded(empty_dir(segs[0]), segs.drop_first(), size);
            }
            let cs2 = cs.push(child);
            lemma_all_bounded(cs2, n + 1);
            assert forall|i: int| 0 <= i < n + 1 implies bounded(#[trigger] cs2[i]) by {
                if i < n {
                    assert(cs2[i] == cs[i]);
                }
            }
            assert forall|i: int| 0 <= i < n implies total(#[trigger] cs[i]) <= total(cs2[i]) by {
                assert(cs2[i] == cs[i]);
            }
            lemma_sum_totals_le(cs, cs2, n);
            lemma_sum_totals_le(cs2, cs, n);
            lemma_total_nonneg(child);
            assert(sum_totals(Seq::<NodeV>::empty(), 0) == 0);
        } else if segs.len() > 1 && cs[j] is Dir {
            let sub = cs[j]->Dir_0;
            lemma_insert_bounded(sub, segs.drop_first(), size);
            let cs2 = cs.update(j, NodeV::Dir(insert_dir(sub, segs.drop_first(), size)));
            lemma_all_bounded(cs2, n);
            assert forall|i: int| 0 <= i < n implies bounded(#[trigger] cs2[i]) && total(cs[i])
                <= total(cs2[i]) by {
                if i != j {
                    assert(cs2[i] == cs[i]);
                }
            }
            lemma_sum_totals_le(cs, cs2, n);
            lemma_sum_totals_update(cs, j, NodeV::Dir(insert_dir(sub, segs.drop_first(), size)), n);
        }
    }
}

} // verus!
