//! The aggregation tree: a root directory built up path by path, beside an
//! index from full path to the value inserted under it.
use vstd::prelude::*;
use crate::node::{
    empty_dir, lemma_children_view, name_of, refreshed, sum_totals, total, val, view_node, view_nodes, DirV, Directory, File, Node, NodeV,
};
use crate::bounds::{bounded, lemma_bounded_val, lemma_insert_bounded, lemma_refresh_bounded};
use crate::render::{lemma_render_all_bounded, lines_view, render_all, render_children, LineV, TreeLine};
use crate::path::{segments, split_segments, strings_view};

verus! {

/// Index of the first node among `cs[k..]` named `name`, or -1.
pub open spec fn find_from(cs: Seq<NodeV>, name: Seq<char>, k: int) -> int
    decreases cs.len() - k,
{
    if k < 0 || k >= cs.len() {
        -1
    } else if name_of(cs[k]) == name {
        k
    } else {
        find_from(cs, name, k + 1)
    }
}

pub proof fn lemma_find_from(cs: Seq<NodeV>, name: Seq<char>, k: int)
    requires
        0 <= k,
    ensures
        find_from(cs, name, k) == -1 || (k <= find_from(cs, name, k) < cs.len() && name_of(
            cs[find_from(cs, name, k)],
        ) == name),
    decreases cs.len() - k,
{
    if k < cs.len() && name_of(cs[k]) != name {
        lemma_find_from(cs, name, k + 1);
    }
}

/// Index of the first child named `name`, or -1.
pub open spec fn find_child(cs: Seq<NodeV>, name: Seq<char>) -> int {
    find_from(cs, name, 0)
}

/// The directory `d` after inserting the path made of `segs`, with a file of
/// `size` at its end. Each segment reuses the child of that name; a missing
/// one is appended (a directory, or the file for the last segment), which
/// invalidates the memo of the directory appended to and of no other. Where
/// the last segment already exists, or an inner segment names a file, the
/// tree is left as it is.
pub open spec fn insert_dir(d: DirV, segs: Seq<Seq<char>>, size: u64) -> DirV
    decreases segs.len(),
{
    if segs.len() == 0 {
        d
    } else {
        let j = find_child(d.children, segs[0]);
        if j < 0 {
            let child = if segs.len() == 1 {
                NodeV::File { name: segs[0], size }
            } else {
                NodeV::Dir(insert_dir(empty_dir(segs[0]), segs.drop_first(), size))
            };
            DirV { children: d.children.push(child), cached: false, ..d }
        } else if segs.len() > 1 && d.children[j] is Dir {
            DirV {
                children: d.children.update(
                    j,
                    NodeV::Dir(insert_dir(d.children[j]->Dir_0, segs.drop_first(), size)),
                ),
                ..d
            }
        } else {
            d
        }
    }
}

/// What the index holds for `key`: the value of the last record with that
/// key, if any.
pub open spec fn lookup(records: Seq<(Seq<char>, u64)>, key: Seq<char>) -> Option<u64>
    decreases records.len(),
{
    if records.len() == 0 {
        None
    } else if records.last().0 == key {
        Some(records.last().1)
    } else {
        lookup(records.drop_last(), key)
    }
}

/// Sum of the values of the records whose key starts with `prefix`.
pub open spec fn sum_under(records: Seq<(Seq<char>, u64)>, prefix: Seq<char>) -> int
    decreases records.len(),
{
    if records.len() == 0 {
        0
    } else {
        sum_under(records.drop_last(), prefix) + if prefix.is_prefix_of(records.last().0) {
            records.last().1 as int
        } else {
            0
        }
    }
}

/// The directory that `segs` leads to from `d`, walking as insertion does
/// but creating nothing; `None` where a segment is missing or names a file.
pub open spec fn resolve(d: DirV, segs: Seq<Seq<char>>) -> Option<DirV>
    decreases segs.len(),
{
    if segs.len() == 0 {
        Some(d)
    } else {
        let j = find_child(d.children, segs[0]);
        if j >= 0 && d.children[j] is Dir {
            resolve(d.children[j]->Dir_0, segs.drop_first())
        } else {
            None
        }
    }
}

pub proof fn lemma_sum_under_prefix(s: Seq<(Seq<char>, u64)>, p: Seq<char>, i: int)
    requires
        0 <= i <= s.len(),
    ensures
        0 <= sum_under(s.subrange(0, i), p) <= sum_under(s, p),
    decreases s.len(),
{
    if i == s.len() {
        assert(s.subrange(0, i) =~= s);
        lemma_sum_under_nonneg(s, p);
    } else {
        lemma_sum_under_prefix(s.drop_last(), p, i);
        assert(s.drop_last().subrange(0, i) =~= s.subrange(0, i));
    }
}

pub proof fn lemma_sum_under_nonneg(s: Seq<(Seq<char>, u64)>, p: Seq<char>)
    ensures
        sum_under(s, p) >= 0,
    decreases s.len(),
{
    if s.len() > 0 {
        lemma_sum_under_nonneg(s.drop_last(), p);
    }
}

/// Whether `p` is a prefix of `s`, character by character.
fn starts_with(s: &str, p: &str) -> (r: bool)
    ensures
        r == p@.is_prefix_of(s@),
{
    let n = p.unicode_len();
    let m = s.unicode_len();
    if n > m {
        return false;
    }
    let mut i: usize = 0;
    while i < n
        invariant
            n == p@.len(),
            m == s@.len(),
            n <= m,
            0 <= i <= n,
            forall|k: int| 0 <= k < i ==> p@[k] == s@[k],
        decreases n - i,
    {
        if p.get_char(i) != s.get_char(i) {
            return false;
        }
        i = i + 1;
    }
    true
}

/// Model of the tree: its root directory, and every (path, value) inserted,
/// in order.
pub struct TrieV {
    pub root: DirV,
    pub records: Seq<(Seq<char>, u64)>,
}

/// The tree and its full-path index.
#[derive(Debug)]
pub struct FSTrieMap {
    root: Directory,
    records: Vec<(String, u64)>,
}

/// No directory is found at a path.
#[derive(Debug, PartialEq, Eq, Structural)]
pub struct NotFound;

/// Whether `n` is named `name`.
fn has_name(n: &Node, name: &String) -> (r: bool)
    ensures
        r == (name_of(n@) == name@),
{
    match n {
        Node::File(f) => f.name == *name,
        Node::Directory(d) => d.name == *name,
    }
}

/// Index of the first child named `name`.
fn find_child_index(cs: &Vec<Node>, name: &String) -> (r: Option<usize>)
    ensures
        match r {
            Some(j) => find_child(view_nodes(cs@, cs@.len() as int), name@) == j as int,
            None => find_child(view_nodes(cs@, cs@.len() as int), name@) == -1,
        },
{
    let ghost vs = view_nodes(cs@, cs@.len() as int);
    proof {
        lemma_children_view(cs@);
    }
    let mut k: usize = 0;
    while k < cs.len()
        invariant
            0 <= k <= cs.len(),
            vs.len() == cs.len(),
            vs == view_nodes(cs@, cs@.len() as int),
            forall|i: int| 0 <= i < cs.len() ==> #[trigger] vs[i] == view_node(cs@[i]),
            find_from(vs, name@, 0) == find_from(vs, name@, k as int),
        decreases cs.len() - k,
    {
        if has_name(&cs[k], name) {
            return Some(k);
        }
        k = k + 1;
    }
    None
}

/// Inserts the path made of `segs[i..]` under `dir`, with a file of `size`
/// at its end.
fn insert_segments(dir: &mut Directory, segs: &Vec<String>, i: usize, size: u64)
    requires
        i <= segs.len(),
    ensures
        final(dir)@ == insert_dir(
            old(dir)@,
            strings_view(segs@).subrange(i as int, segs.len() as int),
            size,
        ),
    decreases segs.len() - i,
{
    let ghost rest = strings_view(segs@).subrange(i as int, segs.len() as int);
    if i == segs.len() {
        return;
    }
    proof {
        assert(rest.drop_first() =~= strings_view(segs@).subrange(i + 1, segs.len() as int));
        assert(rest[0] == segs@[i as int]@);
    }
    let found = find_child_index(&dir.children, &segs[i]);
    match found {
        None => {
            if i + 1 == segs.len() {
                let f = File::new(segs[i].clone(), size);
                proof {
                    assert(rest.len() == 1);
                    assert(view_node(Node::File(f)) == (NodeV::File { name: rest[0], size }));
                }
                dir.add_child(Node::File(f));
            } else {
                let mut nd = Directory::new(segs[i].clone());
                insert_segments(&mut nd, segs, i + 1, size);
                proof {
                    assert(rest.len() > 1);
                    assert(view_node(Node::Directory(nd)) == NodeV::Dir(
                        insert_dir(empty_dir(rest[0]), rest.drop_first(), size),
                    ));
                }
                dir.add_child(Node::Directory(nd));
            }
        },
        Some(j) => {
            if i + 1 < segs.len() {
                proof {
                    lemma_children_view(dir.children@);
                    lemma_find_from(dir@.children, segs@[i as int]@, 0);
                }
                let c = &mut dir.children[j];
                let ghost was_dir = old(dir)@.children[j as int] is Dir;
                match c {
                    Node::Directory(sub) => {
                        insert_segments(sub, segs, i + 1, size);
                    },
                    Node::File(_) => {},
                }
                proof {
                    lemma_children_view(dir.children@);
                    assert(dir@.children =~= old(dir)@.children.update(
                        j as int,
                        view_node(dir.children@[j as int]),
                    ));
                    if !was_dir {
                        assert(dir@.children =~= old(dir)@.children);
                    }
                    assert(dir@ == insert_dir(old(dir)@, rest, size));
                }
            }
            proof {
                assert(dir@ == insert_dir(old(dir)@, rest, size));
            }
        },
    }
}

impl FSTrieMap {
    pub closed spec fn view(&self) -> TrieV {
        TrieV { root: self.root@, records: self.records@.map_values(|r: (String, u64)| (r.0@, r.1)) }
    }

    /// No memo in the tree exceeds its directory's true aggregate.
    pub open spec fn wf(&self) -> bool {
        bounded(NodeV::Dir(self.view().root))
    }

    /// The sum of the sizes of all files in the tree.
    pub open spec fn total_size(&self) -> int {
        total(NodeV::Dir(self.view().root))
    }

    /// An empty tree (its root an empty directory named `""`) and an empty index.
    pub fn new() -> (r: FSTrieMap)
        ensures
            r.view() == (TrieV { root: empty_dir(Seq::empty()), records: Seq::empty() }),
            r.wf(),
            r.total_size() == 0,
    {
        let r = FSTrieMap { root: Directory::new(String::new()), records: Vec::new() };
        proof {
            assert(sum_totals(Seq::<NodeV>::empty(), 0) == 0);
            assert(r.view().records =~= Seq::<(Seq<char>, u64)>::empty());
        }
        r
    }

    /// Records `(key, value)` in the index, and inserts the path `key`
    /// into the tree with a file of size `value` at its end (see
    /// `insert_dir`: existing nodes are reused, never replaced; where an
    /// inner segment names a file, the tree is left as it is). Never fails.
    pub fn insert(&mut self, key: &str, value: u64)
        requires
            old(self).wf(),
        ensures
            final(self).wf(),
            old(self).total_size() <= final(self).total_size() <= old(self).total_size() + value,
            final(self).view().records == old(self).view().records.push((key@, value)),
            final(self).view().root == insert_dir(old(self).view().root, segments(key@), value),
    {
        self.records.push((key.to_owned(), value));
        proof {
            assert(self.view().records =~= old(self).view().records.push((key@, value)));
        }
        let segs = split_segments(key);
        proof {
            assert(strings_view(segs@).subrange(0, segs.len() as int) =~= strings_view(segs@));
        }
        insert_segments(&mut self.root, &segs, 0, value);
        proof {
            lemma_insert_bounded(old(self).view().root, segments(key@), value);
        }
    }

    /// The value last inserted under exactly `key` (no normalization).
    pub fn get(&self, key: &str) -> (r: Option<u64>)
        ensures
            r == lookup(self.view().records, key@),
    {
        let ghost rs = self.view().records;
        let k = key.to_owned();
        let mut i: usize = self.records.len();
        proof {
            assert(rs.subrange(0, i as int) =~= rs);
        }
        while i > 0
            invariant
                0 <= i <= self.records.len(),
                rs == self.view().records,
                rs.len() == self.records.len(),
                k@ == key@,
                lookup(rs, key@) == lookup(rs.subrange(0, i as int), key@),
            decreases i,
        {
            proof {
                assert(rs.subrange(0, i as int).drop_last() =~= rs.subrange(0, i - 1));
                assert(rs[i - 1] == (self.records@[i - 1].0@, self.records@[i - 1].1));
            }
            if self.records[i - 1].0 == k {
                return Some(self.records[i - 1].1);
            }
            i = i - 1;
        }
        None
    }

    /// Sum of the values of every record whose path starts with `prefix`,
    /// as plain strings (`"/ab"` starts with `"/a"`).
    pub fn size_under(&self, prefix: &str) -> (r: u64)
        requires
            sum_under(self.view().records, prefix@) <= u64::MAX,
        ensures
            r == sum_under(self.view().records, prefix@),
    {
        let ghost rs = self.view().records;
        let mut acc: u64 = 0;
        let mut i: usize = 0;
        proof {
            assert(rs.subrange(0, 0) =~= Seq::<(Seq<char>, u64)>::empty());
        }
        while i < self.records.len()
            invariant
                0 <= i <= self.records.len(),
                rs == self.view().records,
                rs.len() == self.records.len(),
                sum_under(rs, prefix@) <= u64::MAX,
                acc == sum_under(rs.subrange(0, i as int), prefix@),
            decreases self.records.len() - i,
        {
            proof {
                assert(rs.subrange(0, i + 1).drop_last() =~= rs.subrange(0, i as int));
                assert(rs[i as int] == (self.records@[i as int].0@, self.records@[i as int].1));
                lemma_sum_under_prefix(rs, prefix@, i + 1);
            }
            if starts_with(self.records[i].0.as_str(), prefix) {
                acc = acc + self.records[i].1;
            }
            i = i + 1;
        }
        proof {
            assert(rs.subrange(0, i as int) =~= rs);
        }
        acc
    }

    /// The aggregate size of the whole tree, as the root's `size()`.
    pub fn size(&mut self) -> (r: u64)
        requires
            old(self).wf(),
            old(self).total_size() <= u64::MAX,
        ensures
            r == val(NodeV::Dir(old(self).view().root)),
            r <= old(self).total_size(),
            final(self).wf(),
            final(self).total_size() == old(self).total_size(),
            NodeV::Dir(final(self).view().root) == refreshed(NodeV::Dir(old(self).view().root)),
            final(self).view().records == old(self).view().records,
    {
        proof {
            lemma_bounded_val(NodeV::Dir(self.root@));
            lemma_refresh_bounded(NodeV::Dir(self.root@));
        }
        self.root.size()
    }

    /// The depth-bounded walk of the tree: for each top-level node in
    /// order, its line at depth 0, then those of its children one level
    /// deeper, down to `max_depth`.
    pub fn render(&mut self, max_depth: usize) -> (r: Vec<TreeLine>)
        requires
            old(self).wf(),
            old(self).total_size() <= u64::MAX,
        ensures
            lines_view(r@) == render_all(
                old(self).view().root.children,
                old(self).view().root.children.len() as int,
                0,
                max_depth as int,
            ).0,
            final(self).view() == (TrieV {
                root: DirV {
                    children: render_all(
                        old(self).view().root.children,
                        old(self).view().root.children.len() as int,
                        0,
                        max_depth as int,
                    ).1,
                    ..old(self).view().root
                },
                ..old(self).view()
            }),
            final(self).wf(),
            final(self).total_size() == old(self).total_size(),
    {
        let mut out: Vec<TreeLine> = Vec::new();
        proof {
            assert(lines_view(out@) =~= Seq::<LineV>::empty());
            lemma_render_all_bounded(self.root@, 0, max_depth as int);
        }
        render_children(&mut self.root, 0, max_depth, &mut out);
        proof {
            assert(lines_view(out@) =~= render_all(
                old(self).view().root.children,
                old(self).view().root.children.len() as int,
                0,
                max_depth as int,
            ).0);
        }
        out
    }

    /// The children, in insertion order, of the directory at `path` (of the
    /// root when `path` is `None`); `NotFound` where no directory is there.
    pub fn children(&self, path: Option<&str>) -> (r: Result<&Vec<Node>, NotFound>)
        ensures
            ({
                let target = match path {
                    Some(p) => resolve(self.view().root, segments(p@)),
                    None => Some(self.view().root),
                };
                match r {
                    Ok(cs) => target is Some && view_nodes(cs@, cs@.len() as int)
                        == target->Some_0.children,
                    Err(_) => target is None,
                }
            }),
    {
        match path {
            None => Ok(&self.root.children),
            Some(p) => {
                let segs = split_segments(p);
                let ghost all = strings_view(segs@);
                let mut cur: &Directory = &self.root;
                let mut i: usize = 0;
                proof {
                    assert(all.subrange(0, segs.len() as int) =~= all);
                }
                while i < segs.len()
                    invariant
                        0 <= i <= segs.len(),
                        all == strings_view(segs@),
                        all == segments(p@),
                        path == Some(p),
                        resolve(self.view().root, all) == resolve(
                            cur@,
                            all.subrange(i as int, segs.len() as int),
                        ),
                    decreases segs.len() - i,
                {
                    let ghost rest = all.subrange(i as int, segs.len() as int);
                    proof {
                        assert(rest.drop_first() =~= all.subrange(i + 1, segs.len() as int));
                        assert(rest[0] == segs@[i as int]@);
                        lemma_children_view(cur.children@);
                        lemma_find_from(cur@.children, rest[0], 0);
                    }
                    match find_child_index(&cur.children, &segs[i]) {
                        None => {
                            proof {
                                assert(rest.len() > 0);
                                assert(resolve(cur@, rest) is None);
                            }
                            return Err(NotFound);
                        },
                        Some(j) => {
                            match &cur.children[j] {
                                Node::Directory(d) => {
                                    cur = d;
                                },
                                Node::File(_) => {
                                    proof {
                                        assert(rest.len() > 0);
                                        assert(cur@.children[j as int] is File);
                                        assert(resolve(cur@, rest) is None);
                                    }
                                    return Err(NotFound);
                                },
                            }
                        },
                    }
                    i = i + 1;
                }
                proof {
                    assert(all.subrange(i as int, segs.len() as int) =~= Seq::<Seq<char>>::empty());
                }
                Ok(&cur.children)
            },
        }
    }
}

} // verus!
