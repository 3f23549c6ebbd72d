//! Depth-bounded, order-preserving walk of the tree: one line per visited
//! node, with the node's `size()`.
use vstd::prelude::*;
use crate::bounds::{
    bounded, lemma_all_bounded, lemma_bounded_val, lemma_child_total,
    lemma_refresh_bounded, lemma_sum_totals_le,
};
use crate::node::{
    lemma_children_view, name_of, refreshed, total, val, view_node, DirV, Directory,
    Node, NodeV,
};

verus! {

/// Model of a line: depth, name, size.
pub type LineV = (int, Seq<char>, u64);

/// The lines a walk from `n` at `depth` emits, down to `max`, and the state
/// it leaves `n` in: the node's own line, with what its `size()` returns;
/// then, for a directory above `max`, the lines of each child, one level
/// deeper, in order.
pub open spec fn render(n: NodeV, depth: int, max: int) -> (Seq<LineV>, NodeV)
    decreases max - depth, 0int,
{
    let line = (depth, name_of(n), val(n) as u64);
    let m = refreshed(n);
    if m is Dir && 0 <= depth < max {
        let d = m->Dir_0;
        let sub = render_all(d.children, d.children.len() as int, depth + 1, max);
        (seq![line] + sub.0, NodeV::Dir(DirV { children: sub.1, ..d }))
    } else {
        (seq![line], m)
    }
}

/// The walk over the first `k` nodes of `cs`, each at `depth`: the lines in
/// order, and `cs` with those nodes in their new state.
pub open spec fn render_all(cs: Seq<NodeV>, k: int, depth: int, max: int) -> (Seq<LineV>, Seq<NodeV>)
    decreases max - depth, 1int, k,
{
    if k <= 0 || k > cs.len() || depth > max {
        (Seq::empty(), cs)
    } else {
        let prev = render_all(cs, k - 1, depth, max);
        let cur = render(cs[k - 1], depth, max);
        (prev.0 + cur.0, prev.1.update(k - 1, cur.1))
    }
}

pub proof fn lemma_render_all_shape(cs: Seq<NodeV>, k: int, depth: int, max: int)
    requires
        0 <= k <= cs.len(),
        depth <= max,
    ensures
        render_all(cs, k, depth, max).1.len() == cs.len(),
        forall|i: int|
            0 <= i < k ==> #[trigger] render_all(cs, k, depth, max).1[i] == render(
                cs[i],
                depth,
                max,
            ).1,
        forall|i: int| k <= i < cs.len() ==> #[trigger] render_all(cs, k, depth, max).1[i] == cs[i],
    decreases k,
{
    if k > 0 {
        lemma_render_all_shape(cs, k - 1, depth, max);
    }
}

/// The walk keeps the memos bounded and changes no true aggregate.
pub proof fn lemma_render_bounded(n: NodeV, depth: int, max: int)
    requires
        bounded(n),
        total(n) <= u64::MAX,
        depth <= max,
    ensures
        bounded(render(n, depth, max).1),
        total(render(n, depth, max).1) == total(n),
    decreases max - depth, 0int,
{
    lemma_refresh_bounded(n);
    let m = refreshed(n);
    if m is Dir && 0 <= depth < max {
        lemma_render_all_bounded(m->Dir_0, depth + 1, max);
    }
}

/// The walk over a directory's children keeps it bounded and changes no
/// true aggregate.
pub proof fn lemma_render_all_bounded(d: DirV, depth: int, max: int)
    requires
        bounded(NodeV::Dir(d)),
        total(NodeV::Dir(d)) <= u64::MAX,
        depth <= max,
    ensures
        bounded(
            NodeV::Dir(
                DirV {
                    children: render_all(d.children, d.children.len() as int, depth, max).1,
                    ..d
                },
            ),
        ),
        total(
            NodeV::Dir(
                DirV {
                    children: render_all(d.children, d.children.len() as int, depth, max).1,
                    ..d
                },
            ),
        ) == total(NodeV::Dir(d)),
    decreases max - depth, 1int,
{
    let cs = d.children;
    let k = cs.len() as int;
    let rs = render_all(cs, k, depth, max).1;
    lemma_render_all_shape(cs, k, depth, max);
    lemma_all_bounded(cs, k);
    lemma_all_bounded(rs, k);
    assert forall|i: int| 0 <= i < k implies bounded(#[trigger] rs[i]) && total(rs[i]) == total(
        cs[i],
    ) by {
        lemma_child_total(cs, i, k);
        lemma_render_bounded(cs[i], depth, max);
    }
    lemma_sum_totals_le(rs, cs, k);
    lemma_sum_totals_le(cs, rs, k);
}

/// One line of a rendered tree.
#[derive(Debug)]
pub struct TreeLine {
    pub depth: usize,
    pub name: String,
    pub size: u64,
}

impl View for TreeLine {
    type V = LineV;

    open spec fn view(&self) -> LineV {
        (self.depth as int, self.name@, self.size)
    }
}

pub open spec fn lines_view(v: Seq<TreeLine>) -> Seq<LineV> {
    v.map_values(|l: TreeLine| l@)
}

/// Emits the lines of the walk from `n` at `depth` into `out`.
pub fn render_node(n: &mut Node, depth: usize, max_depth: usize, out: &mut Vec<TreeLine>)
    requires
        bounded(old(n)@),
        total(old(n)@) <= u64::MAX,
        depth <= max_depth,
    ensures
        lines_view(final(out)@) == lines_view(old(out)@) + render(
            old(n)@,
            depth as int,
            max_depth as int,
        ).0,
        final(n)@ == render(old(n)@, depth as int, max_depth as int).1,
    decreases max_depth - depth, 0int,
{
    proof {
        lemma_bounded_val(n@);
        lemma_refresh_bounded(n@);
    }
    let name = n.name().to_owned();
    let size = n.size();
    let ghost before = out@;
    out.push(TreeLine { depth, name, size });
    proof {
        assert(lines_view(out@) =~= lines_view(before).push(
            (depth as int, name_of(old(n)@), val(old(n)@) as u64),
        ));
    }
    if depth < max_depth {
        match n {
            Node::Directory(d) => {
                render_children(d, depth + 1, max_depth, out);
                proof {
                    assert(lines_view(out@) =~= lines_view(old(out)@) + render(
                        old(n)@,
                        depth as int,
                        max_depth as int,
                    ).0);
                }
            },
            Node::File(_) => {
                proof {
                    assert(lines_view(out@) =~= lines_view(old(out)@) + render(
                        old(n)@,
                        depth as int,
                        max_depth as int,
                    ).0);
                }
            },
        }
    } else {
        proof {
            assert(lines_view(out@) =~= lines_view(old(out)@) + render(
                old(n)@,
                depth as int,
                max_depth as int,
            ).0);
        }
    }
}

/// Emits the lines of the walk over each child of `d`, in order, at `depth`.
pub fn render_children(d: &mut Directory, depth: usize, max_depth: usize, out: &mut Vec<TreeLine>)
    requires
        bounded(NodeV::Dir(old(d)@)),
        total(NodeV::Dir(old(d)@)) <= u64::MAX,
        depth <= max_depth,
    ensures
        lines_view(final(out)@) == lines_view(old(out)@) + render_all(
            old(d)@.children,
            old(d)@.children.len() as int,
            depth as int,
            max_depth as int,
        ).0,
        final(d)@ == (DirV {
            children: render_all(
                old(d)@.children,
                old(d)@.children.len() as int,
                depth as int,
                max_depth as int,
            ).1,
            ..old(d)@
        }),
    decreases max_depth - depth, 1int,
{
    let ghost cs0 = d@.children;
    let ghost n0 = d.children@;
    proof {
        lemma_children_view(n0);
        lemma_all_bounded(cs0, cs0.len() as int);
        assert(render_all(cs0, 0, depth as int, max_depth as int).0 =~= Seq::<LineV>::empty());
        assert(lines_view(out@) =~= lines_view(old(out)@) + Seq::<LineV>::empty());
    }
    let n = d.children.len();
    let mut i: usize = 0;
    while i < n
        invariant
            n == d.children.len(),
            n == cs0.len(),
            n0.len() == n,
            0 <= i <= n,
            depth <= max_depth,
            d.name@ == old(d)@.name,
            d.cached_size == old(d)@.cache,
            d.size_is_cached == old(d)@.cached,
            cs0 == old(d)@.children,
            n0 == old(d).children@,
            forall|j: int| 0 <= j < n ==> #[trigger] cs0[j] == view_node(n0[j]),
            forall|j: int| 0 <= j < n ==> bounded(#[trigger] cs0[j]),
            total(NodeV::Dir(old(d)@)) <= u64::MAX,
            d@.children == render_all(cs0, i as int, depth as int, max_depth as int).1,
            lines_view(out@) == lines_view(old(out)@) + render_all(
                cs0,
                i as int,
                depth as int,
                max_depth as int,
            ).0,
            forall|j: int| i <= j < n ==> #[trigger] d.children@[j] == n0[j],
        decreases n - i,
    {
        proof {
            lemma_child_total(cs0, i as int, n as int);
            lemma_render_all_shape(cs0, i as int, depth as int, max_depth as int);
            lemma_render_all_shape(cs0, i + 1, depth as int, max_depth as int);
            assert(d.children@[i as int] == n0[i as int]);
        }
        let ghost vec_before = d.children@;
        proof {
            lemma_children_view(vec_before);
        }
        let c = &mut d.children[i];
        render_node(c, depth, max_depth, out);
        proof {
            lemma_children_view(d.children@);
            assert forall|j: int| 0 <= j < n && j != i implies d@.children[j] == render_all(
                cs0,
                i as int,
                depth as int,
                max_depth as int,
            ).1[j] by {
                assert(d.children@[j] == vec_before[j]);
            }
            assert(d@.children =~= render_all(cs0, i + 1, depth as int, max_depth as int).1);
            assert(lines_view(out@) =~= lines_view(old(out)@) + render_all(
                cs0,
                i + 1,
                depth as int,
                max_depth as int,
            ).0);
        }
        i = i + 1;
    }
}

} // verus!
