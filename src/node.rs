//! File and directory nodes, their mathematical model, and the memoized
//! size computation.
use vstd::prelude::*;

verus! {

broadcast use vstd::seq::group_seq_axioms;

/// Model of a directory: its name, its children in insertion order, and the
/// memo of its aggregate size (`cached` says whether `cache` is in use).
pub struct DirV {
    pub name: Seq<char>,
    pub children: Seq<NodeV>,
    pub cached: bool,
    pub cache: u64,
}

/// Model of a node.
pub enum NodeV {
    File { name: Seq<char>, size: u64 },
    Dir(DirV),
}

/// The name of a node.
pub open spec fn name_of(n: NodeV) -> Seq<char> {
    match n {
        NodeV::File { name, .. } => name,
        NodeV::Dir(d) => d.name,
    }
}

/// An empty directory, its (empty) sum memoized as zero.
pub open spec fn empty_dir(name: Seq<char>) -> DirV {
    DirV { name, children: Seq::empty(), cached: true, cache: 0 }
}

/// What `size()` returns on a node in this state: a file's size, a valid
/// memo, or else the sum of what the children return.
pub open spec fn val(n: NodeV) -> int
    decreases n,
{
    match n {
        NodeV::File { size, .. } => size as int,
        NodeV::Dir(d) => if d.cached {
            d.cache as int
        } else {
            sum_vals(d.children, d.children.len() as int)
        },
    }
}

/// Sum of `val` over the first `k` nodes of `cs`.
pub open spec fn sum_vals(cs: Seq<NodeV>, k: int) -> int
    decreases cs, k,
{
    if k <= 0 || k > cs.len() {
        0
    } else {
        sum_vals(cs, k - 1) + val(cs[k - 1])
    }
}


/// Sum of the sizes of all files under a node: its true aggregate size,
/// whatever the memos hold.
pub open spec fn total(n: NodeV) -> int
    decreases n,
{
    match n {
        NodeV::File { size, .. } => size as int,
        NodeV::Dir(d) => sum_totals(d.children, d.children.len() as int),
    }
}

/// Sum of `total` over the first `k` nodes of `cs`.
pub open spec fn sum_totals(cs: Seq<NodeV>, k: int) -> int
    decreases cs, k,
{
    if k <= 0 || k > cs.len() {
        0
    } else {
        sum_totals(cs, k - 1) + total(cs[k - 1])
    }
}

/// Every valid memo under a node equals the true aggregate of its directory.
pub open spec fn consistent(n: NodeV) -> bool
    decreases n,
{
    match n {
        NodeV::File { .. } => true,
        NodeV::Dir(d) => (d.cached ==> d.cache as int == sum_totals(d.children, d.children.len() as int))
            && all_consistent(d.children, d.children.len() as int),
    }
}

/// The first `k` nodes of `cs` are `consistent`.
pub open spec fn all_consistent(cs: Seq<NodeV>, k: int) -> bool
    decreases cs, k,
{
    if k <= 0 || k > cs.len() {
        true
    } else {
        all_consistent(cs, k - 1) && consistent(cs[k - 1])
    }
}

/// The state of a node after `size()`: a directory without a valid memo
/// refreshes its children, then memoizes the sum of their values.
pub open spec fn refreshed(n: NodeV) -> NodeV
    decreases n,
{
    match n {
        NodeV::File { .. } => n,
        NodeV::Dir(d) => if d.cached {
            n
        } else {
            NodeV::Dir(
                DirV {
                    name: d.name,
                    children: refreshed_all(d.children, d.children.len() as int),
                    cached: true,
                    cache: sum_vals(d.children, d.children.len() as int) as u64,
                },
            )
        },
    }
}

/// `cs` with its first `k` nodes refreshed.
pub open spec fn refreshed_all(cs: Seq<NodeV>, k: int) -> Seq<NodeV>
    decreases cs, k,
{
    if k <= 0 || k > cs.len() {
        cs
    } else {
        refreshed_all(cs, k - 1).update(k - 1, refreshed(cs[k - 1]))
    }
}

/// A file: a name and a fixed size.
#[derive(Debug)]
pub struct File {
    pub name: String,
    pub size: u64,
}

/// A directory: a name, owned children in insertion order, and a memo of
/// its aggregate size.
#[derive(Debug)]
pub struct Directory {
    pub name: String,
    pub children: Vec<Node>,
    pub size_is_cached: bool,
    pub cached_size: u64,
}

/// A node of the tree: a file or a directory.
#[derive(Debug)]
pub enum Node {
    File(File),
    Directory(Directory),
}

pub open spec fn view_dir(d: Directory) -> DirV
    decreases d,
{
    DirV {
        name: d.name@,
        children: view_nodes(d.children@, d.children@.len() as int),
        cached: d.size_is_cached,
        cache: d.cached_size,
    }
}

pub open spec fn view_node(n: Node) -> NodeV
    decreases n,
{
    match n {
        Node::File(f) => NodeV::File { name: f.name@, size: f.size },
        Node::Directory(d) => NodeV::Dir(view_dir(d)),
    }
}

/// Models of the first `k` nodes of `cs`.
pub open spec fn view_nodes(cs: Seq<Node>, k: int) -> Seq<NodeV>
    decreases cs, k,
{
    if k <= 0 || k > cs.len() {
        Seq::empty()
    } else {
        view_nodes(cs, k - 1).push(view_node(cs[k - 1]))
    }
}

impl View for Directory {
    type V = DirV;

    open spec fn view(&self) -> DirV {
        view_dir(*self)
    }
}

impl View for Node {
    type V = NodeV;

    open spec fn view(&self) -> NodeV {
        view_node(*self)
    }
}


/// `view_nodes` is the pointwise model of a sequence of nodes.
pub proof fn lemma_view_nodes(cs: Seq<Node>, k: int)
    requires
        0 <= k <= cs.len(),
    ensures
        view_nodes(cs, k).len() == k,
        forall|i: int| 0 <= i < k ==> #[trigger] view_nodes(cs, k)[i] == view_node(cs[i]),
    decreases k,
{
    if k > 0 {
        lemma_view_nodes(cs, k - 1);
    }
}

/// The model of a vector of nodes, element by element.
pub proof fn lemma_children_view(cs: Seq<Node>)
    ensures
        view_nodes(cs, cs.len() as int).len() == cs.len(),
        forall|i: int|
            0 <= i < cs.len() ==> #[trigger] view_nodes(cs, cs.len() as int)[i] == view_node(cs[i]),
{
    lemma_view_nodes(cs, cs.len() as int);
}

/// `refreshed_all` refreshes the first `k` nodes and keeps the rest.
pub proof fn lemma_refreshed_all(cs: Seq<NodeV>, k: int)
    requires
        0 <= k <= cs.len(),
    ensures
        refreshed_all(cs, k).len() == cs.len(),
        forall|i: int| 0 <= i < k ==> #[trigger] refreshed_all(cs, k)[i] == refreshed(cs[i]),
        forall|i: int| k <= i < cs.len() ==> #[trigger] refreshed_all(cs, k)[i] == cs[i],
    decreases k,
{
    if k > 0 {
        lemma_refreshed_all(cs, k - 1);
    }
}

pub proof fn lemma_val_nonneg(n: NodeV)
    ensures
        val(n) >= 0,
    decreases n,
{
    match n {
        NodeV::File { .. } => {},
        NodeV::Dir(d) => {
            if !d.cached {
                lemma_sum_vals_nonneg(d.children, d.children.len() as int);
            }
        },
    }
}

pub proof fn lemma_sum_vals_nonneg(cs: Seq<NodeV>, k: int)
    ensures
        sum_vals(cs, k) >= 0,
    decreases cs, k,
{
    if 0 < k <= cs.len() {
        lemma_sum_vals_nonneg(cs, k - 1);
        lemma_val_nonneg(cs[k - 1]);
    }
}

/// Partial sums of values grow with the prefix.
pub proof fn lemma_sum_vals_mono(cs: Seq<NodeV>, k: int, m: int)
    requires
        0 <= k <= m <= cs.len(),
    ensures
        0 <= sum_vals(cs, k) <= sum_vals(cs, m),
    decreases m,
{
    lemma_sum_vals_nonneg(cs, k);
    if k < m {
        lemma_sum_vals_mono(cs, k, m - 1);
        lemma_val_nonneg(cs[m - 1]);
    }
}

impl File {
    pub fn new(name: String, size: u64) -> (r: File)
        ensures
            r.name@ == name@,
            r.size == size,
    {
        File { name, size }
    }
}

impl Directory {
    /// An empty directory; its (empty) sum is memoized as zero.
    pub fn new(name: String) -> (r: Directory)
        ensures
            r@ == empty_dir(name@),
    {
        let r = Directory { name, children: Vec::new(), size_is_cached: true, cached_size: 0 };
        proof {
            assert(r@.children =~= Seq::<NodeV>::empty());
        }
        r
    }

    /// Appends a child and marks this directory's memo (only this one) invalid.
    pub fn add_child(&mut self, child: Node)
        ensures
            final(self)@ == (DirV {
                name: old(self)@.name,
                children: old(self)@.children.push(child@),
                cached: false,
                cache: old(self)@.cache,
            }),
    {
        proof {
            lemma_children_view(self.children@);
        }
        self.children.push(child);
        self.size_is_cached = false;
        proof {
            lemma_children_view(self.children@);
            assert(self@.children =~= old(self)@.children.push(child@));
        }
    }

    /// A directory is always a directory.
    pub fn try_as_directory(&self) -> (r: Option<&Directory>)
        ensures
            r == Some(self),
    {
        Some(self)
    }

    /// The aggregate size: the valid memo, else the sum of the children's
    /// `size()`, which is then memoized.
    pub fn size(&mut self) -> (r: u64)
        requires
            val(NodeV::Dir(old(self)@)) <= u64::MAX,
        ensures
            r == val(NodeV::Dir(old(self)@)),
            NodeV::Dir(final(self)@) == refreshed(NodeV::Dir(old(self)@)),
        decreases *old(self), 1int,
    {
        if self.size_is_cached {
            self.cached_size
        } else {
            proof {
                lemma_sum_vals_nonneg(self@.children, self@.children.len() as int);
            }
            self._compute_size();
            self.cached_size
        }
    }

    /// Recomputes the memo as the sum of what the children's `size()`
    /// return, refreshing each child on the way.
    pub fn _compute_size(&mut self)
        requires
            sum_vals(old(self)@.children, old(self)@.children.len() as int) <= u64::MAX,
        ensures
            final(self)@ == (DirV {
                name: old(self)@.name,
                children: refreshed_all(old(self)@.children, old(self)@.children.len() as int),
                cached: true,
                cache: sum_vals(old(self)@.children, old(self)@.children.len() as int) as u64,
            }),
        decreases *old(self), 0int,
    {
        let ghost cs0 = self@.children;
        let ghost n0 = self.children@;
        proof {
            lemma_children_view(self.children@);
        }
        let n = self.children.len();
        let mut sum: u64 = 0;
        let mut i: usize = 0;
        while i < n
            invariant
                n == self.children.len(),
                n == cs0.len(),
                0 <= i <= n,
                self.name@ == old(self)@.name,
                self.cached_size == old(self)@.cache,
                self.size_is_cached == old(self)@.cached,
                sum == sum_vals(cs0, i as int),
                sum_vals(cs0, n as int) <= u64::MAX,
                self@.children == refreshed_all(cs0, i as int),
                forall|j: int| i <= j < n ==> #[trigger] self.children@[j] == n0[j],
                n0 == old(self).children@,
                n0.len() == n,
                cs0 == old(self)@.children,
            decreases n - i,
        {
            proof {
                lemma_children_view(self.children@);
                lemma_refreshed_all(cs0, i as int);
                lemma_refreshed_all(cs0, i as int + 1);
                lemma_sum_vals_mono(cs0, i as int + 1, n as int);
                lemma_val_nonneg(cs0[i as int]);
                lemma_children_view(n0);
                assert(self.children@[i as int] == n0[i as int]);
                assert(cs0[i as int] == view_node(self.children@[i as int]));
                assert(sum_vals(cs0, i as int + 1) == sum_vals(cs0, i as int) + val(cs0[i as int]));
            }
            let c = &mut self.children[i];
            let s = c.size();
            proof {
                lemma_children_view(self.children@);
                assert(self@.children =~= refreshed_all(cs0, i as int + 1));
            }
            sum = sum + s;
            i = i + 1;
        }
        self.cached_size = sum;
        self.size_is_cached = true;
    }
}

impl Node {
    /// The node's name.
    pub fn name(&self) -> (r: &str)
        ensures
            r@ == name_of(self@),
    {
        match self {
            Node::File(f) => f.name.as_str(),
            Node::Directory(d) => d.name.as_str(),
        }
    }

    /// Whether the node is a directory.
    pub fn is_directory(&self) -> (r: bool)
        ensures
            r == self@ is Dir,
    {
        match self {
            Node::File(_) => false,
            Node::Directory(_) => true,
        }
    }

    /// The directory inside the node, to be changed in place; `None` for a file.
    pub fn try_as_directory(&mut self) -> (r: Option<&mut Directory>)
        ensures
            old(self)@ is File ==> r.is_none(),
            old(self)@ is Dir ==> r.is_some() && old(self)@ == NodeV::Dir(r.unwrap()@),
            old(self)@ is File ==> final(self)@ == old(self)@,
            r is Some ==> final(self)@ == NodeV::Dir(final(r->Some_0)@),
    {
        match self {
            Node::File(_) => None,
            Node::Directory(d) => Some(d),
        }
    }

    /// The aggregate size: a file's size, else a directory's valid memo, else
    /// the sum of its children's `size()`, which is then memoized.
    pub fn size(&mut self) -> (r: u64)
        requires
            val(old(self)@) <= u64::MAX,
        ensures
            r == val(old(self)@),
            final(self)@ == refreshed(old(self)@),
        decreases *old(self), 2int,
    {
        match self {
            Node::File(f) => f.size,
            Node::Directory(d) => d.size(),
        }
    }
}

} // verus!
