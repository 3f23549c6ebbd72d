//! What holds of the tree across calls: when `size()` gives the true
//! aggregate, where it does not, its idempotence, and the index's round trip.
use vstd::prelude::*;
use crate::node::{
    all_consistent, consistent, empty_dir, lemma_refreshed_all, refreshed, refreshed_all,
    sum_totals, sum_vals, total, val, DirV, NodeV,
};
use crate::path::segments;
use crate::trie::{find_child, insert_dir, lemma_find_from, lookup};

verus! {

/// Sums of totals over two sequences agree on a prefix where the totals agree.
pub proof fn lemma_sum_totals_agree(a: Seq<NodeV>, b: Seq<NodeV>, k: int)
    requires
        0 <= k <= a.len(),
        k <= b.len(),
        forall|i: int| 0 <= i < k ==> total(#[trigger] a[i]) == total(b[i]),
    ensures
        sum_totals(a, k) == sum_totals(b, k),
    decreases k,
{
    if k > 0 {
        lemma_sum_totals_agree(a, b, k - 1);
    }
}

/// `all_consistent` is `consistent` at every index of the prefix.
pub proof fn lemma_all_consistent(cs: Seq<NodeV>, k: int)
    requires
        0 <= k <= cs.len(),
    ensures
        all_consistent(cs, k) <==> forall|i: int| 0 <= i < k ==> consistent(#[trigger] cs[i]),
    decreases k,
{
    if k > 0 {
        lemma_all_consistent(cs, k - 1);
    }
}

/// Under valid-and-true memos, values are true aggregates, one child at a time.
pub proof fn lemma_sum_vals_consistent(cs: Seq<NodeV>, k: int)
    requires
        0 <= k <= cs.len(),
        all_consistent(cs, k),
    ensures
        sum_vals(cs, k) == sum_totals(cs, k),
    decreases cs, k,
{
    if k > 0 {
        lemma_sum_vals_consistent(cs, k - 1);
        lemma_consistent_size(cs[k - 1]);
    }
}

/// Where every valid memo under a node equals its directory's true aggregate
/// (no insertion went below a directory after its size was memoized), the
/// node's `size()` is the sum of the sizes of all files under it.
pub proof fn lemma_consistent_size(n: NodeV)
    requires
        consistent(n),
    ensures
        val(n) == total(n),
    decreases n, 0int,
{
    match n {
        NodeV::File { .. } => {},
        NodeV::Dir(d) => {
            if !d.cached {
                lemma_sum_vals_consistent(d.children, d.children.len() as int);
            }
        },
    }
}

/// Insertion goes below no directory whose memo is valid, except the one it
/// appends to: each directory that it passes through keeps its children and
/// is not memoized.
pub open spec fn open_path(d: DirV, segs: Seq<Seq<char>>) -> bool
    decreases segs.len(),
{
    if segs.len() <= 1 {
        true
    } else {
        let j = find_child(d.children, segs[0]);
        if j >= 0 && d.children[j] is Dir {
            !d.cached && open_path(d.children[j]->Dir_0, segs.drop_first())
        } else {
            true
        }
    }
}

/// Insertion keeps every valid memo true, as long as it does not go below a
/// directory whose size was memoized.
pub proof fn lemma_insert_consistent(d: DirV, segs: Seq<Seq<char>>, size: u64)
    requires
        consistent(NodeV::Dir(d)),
        open_path(d, segs),
    ensures
        consistent(NodeV::Dir(insert_dir(d, segs, size))),
    decreases segs.len(),
{
    let cs = d.children;
    let n = cs.len() as int;
    lemma_all_consistent(cs, n);
    if segs.len() > 0 {
        let j = find_child(cs, segs[0]);
        lemma_find_from(cs, segs[0], 0);
        if j < 0 {
            let child = if segs.len() == 1 {
                NodeV::File { name: segs[0], size }
            } else {
                NodeV::Dir(insert_dir(empty_dir(segs[0]), segs.drop_first(), size))
            };
            if segs.len() > 1 {
                assert(all_consistent(Seq::<NodeV>::empty(), 0));
                lemma_insert_consistent(empty_dir(segs[0]), segs.drop_first(), size);
            }
            let cs2 = cs.push(child);
            lemma_all_consistent(cs2, n + 1);
            assert forall|i: int| 0 <= i < n + 1 implies consistent(#[trigger] cs2[i]) by {
                if i < n {
                    assert(cs2[i] == cs[i]);
                }
            }
        } else if segs.len() > 1 && cs[j] is Dir {
            let sub = cs[j]->Dir_0;
            lemma_insert_consistent(sub, segs.drop_first(), size);
            let cs2 = cs.update(j, NodeV::Dir(insert_dir(sub, segs.drop_first(), size)));
            lemma_all_consistent(cs2, n);
            assert forall|i: int| 0 <= i < n implies consistent(#[trigger] cs2[i]) by {
                if i != j {
                    assert(cs2[i] == cs[i]);
                }
            }
        }
    }
}

/// No directory with children has a valid memo, and each valid memo is
/// zero: the state of a tree that no size query has touched.
pub open spec fn fresh(n: NodeV) -> bool
    decreases n,
{
    match n {
        NodeV::File { .. } => true,
        NodeV::Dir(d) => (d.cached ==> d.children.len() == 0 && d.cache == 0) && all_fresh(
            d.children,
            d.children.len() as int,
        ),
    }
}

/// The first `k` nodes of `cs` are `fresh`.
pub open spec fn all_fresh(cs: Seq<NodeV>, k: int) -> bool
    decreases cs, k,
{
    if k <= 0 || k > cs.len() {
        true
    } else {
        all_fresh(cs, k - 1) && fresh(cs[k - 1])
    }
}

pub proof fn lemma_all_fresh(cs: Seq<NodeV>, k: int)
    requires
        0 <= k <= cs.len(),
    ensures
        all_fresh(cs, k) <==> forall|i: int| 0 <= i < k ==> fresh(#[trigger] cs[i]),
    decreases k,
{
    if k > 0 {
        lemma_all_fresh(cs, k - 1);
    }
}

/// An untouched tree has only true memos.
pub proof fn lemma_fresh_consistent(n: NodeV)
    requires
        fresh(n),
    ensures
        consistent(n),
    decreases n,
{
    if let NodeV::Dir(d) = n {
        let k = d.children.len() as int;
        lemma_all_fresh(d.children, k);
        lemma_all_consistent(d.children, k);
        assert forall|i: int| 0 <= i < k implies consistent(#[trigger] d.children[i]) by {
            lemma_fresh_consistent(d.children[i]);
        }
    }
}

/// Insertion into an untouched tree passes through no memoized directory,
/// and leaves the tree untouched.
pub proof fn lemma_insert_fresh(d: DirV, segs: Seq<Seq<char>>, size: u64)
    requires
        fresh(NodeV::Dir(d)),
    ensures
        open_path(d, segs),
        fresh(NodeV::Dir(insert_dir(d, segs, size))),
    decreases segs.len(),
{
    let cs = d.children;
    let n = cs.len() as int;
    lemma_all_fresh(cs, n);
    if segs.len() > 0 {
        let j = find_child(cs, segs[0]);
        lemma_find_from(cs, segs[0], 0);
        if j < 0 {
            let child = if segs.len() == 1 {
                NodeV::File { name: segs[0], size }
            } else {
                NodeV::Dir(insert_dir(empty_dir(segs[0]), segs.drop_first(), size))
            };
            if segs.len() > 1 {
                assert(all_fresh(Seq::<NodeV>::empty(), 0));
                lemma_insert_fresh(empty_dir(segs[0]), segs.drop_first(), size);
            }
            let cs2 = cs.push(child);
            lemma_all_fresh(cs2, n + 1);
            assert forall|i: int| 0 <= i < n + 1 implies fresh(#[trigger] cs2[i]) by {
                if i < n {
                    assert(cs2[i] == cs[i]);
                }
            }
        } else if segs.len() > 1 && cs[j] is Dir {
            let sub = cs[j]->Dir_0;
            lemma_insert_fresh(sub, segs.drop_first(), size);
            let cs2 = cs.update(j, NodeV::Dir(insert_dir(sub, segs.drop_first(), size)));
            lemma_all_fresh(cs2, n);
            assert forall|i: int| 0 <= i < n implies fresh(#[trigger] cs2[i]) by {
                if i != j {
                    assert(cs2[i] == cs[i]);
                }
            }
        }
    }
}

/// The root built by inserting each (path, size) of `items` in order into
/// an empty tree.
pub open spec fn built(items: Seq<(Seq<char>, u64)>) -> DirV
    decreases items.len(),
{
    if items.len() == 0 {
        empty_dir(Seq::empty())
    } else {
        insert_dir(built(items.drop_last()), segments(items.last().0), items.last().1)
    }
}

/// Whatever paths and sizes were inserted, with no size query in between,
/// the root's `size()` is the sum of the sizes of all files in the tree.
pub proof fn lemma_built_tree_size(items: Seq<(Seq<char>, u64)>)
    ensures
        fresh(NodeV::Dir(built(items))),
        val(NodeV::Dir(built(items))) == total(NodeV::Dir(built(items))),
    decreases items.len(),
{
    if items.len() == 0 {
        assert(all_fresh(Seq::<NodeV>::empty(), 0));
    } else {
        lemma_built_tree_size(items.drop_last());
        lemma_insert_fresh(built(items.drop_last()), segments(items.last().0), items.last().1);
    }
    lemma_fresh_consistent(NodeV::Dir(built(items)));
    lemma_consistent_size(NodeV::Dir(built(items)));
}

/// A size query keeps every valid memo true and changes no true aggregate.
pub proof fn lemma_refresh_consistent(n: NodeV)
    requires
        consistent(n),
        val(n) <= u64::MAX,
    ensures
        consistent(refreshed(n)),
        total(refreshed(n)) == total(n),
    decreases n, 1int,
{
    match n {
        NodeV::File { .. } => {},
        NodeV::Dir(d) => {
            if !d.cached {
                let cs = d.children;
                let k = cs.len() as int;
                let rs = refreshed_all(cs, k);
                lemma_refreshed_all(cs, k);
                lemma_all_consistent(cs, k);
                lemma_all_consistent(rs, k);
                lemma_sum_vals_consistent(cs, k);
                assert forall|i: int| 0 <= i < k implies consistent(#[trigger] rs[i]) && total(
                    rs[i],
                ) == total(cs[i]) by {
                    lemma_consistent_size(cs[i]);
                    crate::node::lemma_sum_vals_mono(cs, i, i + 1);
                    crate::node::lemma_sum_vals_mono(cs, i + 1, k);
                    lemma_refresh_consistent(cs[i]);
                }
                lemma_sum_totals_agree(rs, cs, k);
                crate::node::lemma_sum_vals_nonneg(cs, k);
            }
        },
    }
}

/// After an ancestor's size was memoized, an insertion below one of its
/// existing subdirectories leaves what the ancestor's `size()` returns as it
/// was, though the true aggregate may have grown: only the directory
/// appended to is invalidated.
pub proof fn lemma_stale_ancestor(a: DirV, segs: Seq<Seq<char>>, size: u64)
    requires
        a.cached,
        segs.len() > 1,
        find_child(a.children, segs[0]) >= 0,
        a.children[find_child(a.children, segs[0])] is Dir,
    ensures
        val(NodeV::Dir(insert_dir(a, segs, size))) == val(NodeV::Dir(a)),
        insert_dir(a, segs, size).cached,
{
}

/// A second size query returns what the first did and recomputes nothing:
/// the state after one query is left as it is by the next.
pub proof fn lemma_size_idempotent(n: NodeV)
    requires
        val(n) <= u64::MAX,
    ensures
        val(refreshed(n)) == val(n),
        refreshed(refreshed(n)) == refreshed(n),
{
    match n {
        NodeV::File { .. } => {},
        NodeV::Dir(d) => {
            if !d.cached {
                crate::node::lemma_sum_vals_nonneg(d.children, d.children.len() as int);
            }
        },
    }
}

/// Every path inserted is found in the index under exactly the string it
/// was inserted with, with the value of its last insertion.
pub proof fn lemma_index_round_trip(records: Seq<(Seq<char>, u64)>, key: Seq<char>, value: u64)
    ensures
        lookup(records.push((key, value)), key) == Some(value),
        forall|other: Seq<char>|
            other != key ==> #[trigger] lookup(records.push((key, value)), other) == lookup(
                records,
                other,
            ),
{
    assert(records.push((key, value)).drop_last() =~= records);
}

/// No path that was inserted is missing from the index.
pub proof fn lemma_inserted_paths_found(records: Seq<(Seq<char>, u64)>)
    ensures
        forall|i: int| 0 <= i < records.len() ==> (#[trigger] lookup(records, records[i].0)) is Some,
    decreases records.len(),
{
    if records.len() > 0 {
        lemma_inserted_paths_found(records.drop_last());
        assert forall|i: int| 0 <= i < records.len() implies (#[trigger] lookup(
            records,
            records[i].0,
        )) is Some by {
            if records.last().0 != records[i].0 {
                assert(records.drop_last()[i] == records[i]);
                assert(lookup(records.drop_last(), records.drop_last()[i].0) is Some);
            }
        }
    }
}

} // verus!
