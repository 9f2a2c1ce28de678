//! A one-shot directory tree builder.
//!
//! Entries discovered by a filesystem walk are grouped by depth and
//! assembled into an owned tree of `DirNode`s, level by level: a path
//! at depth `d` becomes a child of the depth `d - 1` node whose path
//! is its parent path. The walk itself happens outside this crate;
//! the builder works on the list of discovered directory paths.

use vstd::prelude::*;

use crate::paths::name_of;
use crate::paths::spec_name_of;
use crate::paths::spec_parent_of;
use crate::paths::parent_of;
use crate::paths::bytes_eq;

verus! {

broadcast use vstd::std_specs::vec::axiom_vec_index_decreases;

/// One node of the owned tree: a directory, its display name, its
/// children in discovery order, and its depth below the root.
pub struct DirNode {
    pub path: Vec<u8>,
    pub name: Vec<u8>,
    pub children: Vec<DirNode>,
    pub depth: usize,
}

/// Number of nodes in the tree rooted at `nd`, the root included.
pub open spec fn spec_count(nd: DirNode) -> nat
    decreases nd,
{
    1 + spec_count_seq(nd.children@)
}

/// Number of nodes in all the trees of `s` together.
pub open spec fn spec_count_seq(s: Seq<DirNode>) -> nat
    decreases s,
{
    if s.len() == 0 {
        0
    } else {
        spec_count(s.last()) + spec_count_seq(s.drop_last())
    }
}

/// Counting one more child adds that child's whole subtree.
proof fn lemma_count_seq_step(s: Seq<DirNode>, k: int)
    requires
        0 <= k < s.len(),
    ensures
        spec_count_seq(s.take(k + 1)) == spec_count_seq(s.take(k)) + spec_count(s[k]),
{
    assert(s.take(k + 1).drop_last() =~= s.take(k));
    assert(s.take(k + 1).last() == s[k]);
}

/// A prefix never counts more nodes than the whole sequence.
proof fn lemma_count_seq_prefix_le(s: Seq<DirNode>, k: int)
    requires
        0 <= k <= s.len(),
    ensures
        spec_count_seq(s.take(k)) <= spec_count_seq(s),
    decreases s.len() - k,
{
    if k == s.len() {
        assert(s.take(k) =~= s);
    } else {
        lemma_count_seq_step(s, k);
        lemma_count_seq_prefix_le(s, k + 1);
    }
}

impl DirNode {
    /// A fresh leaf node for `path` at the given depth; its name is
    /// the path's last component.
    pub fn new(path: Vec<u8>, depth: usize) -> (r: DirNode)
        ensures
            r.path@ == path@,
            r.name@ == spec_name_of(path@),
            r.children@.len() == 0,
            r.depth == depth,
    {
        let name = name_of(&path);
        DirNode { path, name, children: Vec::new(), depth }
    }
}

/// Number of nodes in the tree rooted at `node`, the root included.
pub fn count_dirs(node: &DirNode) -> (r: usize)
    requires
        spec_count(*node) <= usize::MAX,
    ensures
        r == spec_count(*node),
    decreases *node,
{
    let mut total: usize = 1;
    let n = node.children.len();
    let mut k: usize = 0;
    while k < n
        invariant
            0 <= k <= n,
            n == node.children@.len(),
            spec_count(*node) <= usize::MAX,
            total == 1 + spec_count_seq(node.children@.take(k as int)),
        decreases n - k,
    {
        proof {
            lemma_count_seq_step(node.children@, k as int);
            lemma_count_seq_prefix_le(node.children@, k as int + 1);
            assert(spec_count(node.children@[k as int]) <= usize::MAX);
        }
        let c = count_dirs(&node.children[k]);
        total = total + c;
        k = k + 1;
    }
    proof {
        assert(node.children@.take(n as int) =~= node.children@);
    }
    total
}

/// The paths of `s`, in order, whose parent path is `pp`.
pub open spec fn parent_filter(s: Seq<Seq<u8>>, pp: Seq<u8>) -> Seq<Seq<u8>>
    decreases s.len(),
{
    if s.len() == 0 {
        Seq::empty()
    } else {
        let rest = parent_filter(s.drop_last(), pp);
        if spec_parent_of(s.last()) == Some(pp) {
            rest.push(s.last())
        } else {
            rest
        }
    }
}

proof fn lemma_parent_filter_step(s: Seq<Seq<u8>>, pp: Seq<u8>, k: int)
    requires
        0 <= k < s.len(),
    ensures
        parent_filter(s.take(k + 1), pp) == if spec_parent_of(s[k]) == Some(pp) {
            parent_filter(s.take(k), pp).push(s[k])
        } else {
            parent_filter(s.take(k), pp)
        },
{
    assert(s.take(k + 1).drop_last() =~= s.take(k));
    assert(s.take(k + 1).last() == s[k]);
}

/// The paths of the nodes in `s`, in order.
pub open spec fn paths_of(s: Seq<DirNode>) -> Seq<Seq<u8>> {
    s.map_values(|c: DirNode| c.path@)
}

/// The grouped levels as plain sequences of paths.
pub open spec fn groups_view(g: Vec<Vec<Vec<u8>>>) -> Seq<Seq<Seq<u8>>> {
    g@.map_values(|lv: Vec<Vec<u8>>| lv@.map_values(|p: Vec<u8>| p@))
}

/// The whole tree below `nd` is assembled from the grouped levels: at
/// level `d`, `nd`'s children are exactly the level's paths whose
/// parent path is `nd`'s, in level order, each carrying its depth and
/// display name, and each child's own subtree is built from the deeper
/// levels the same way. A level at or past the end contributes no
/// children. This pins the result: two trees built over the same
/// levels from the same root agree in every node.
pub open spec fn levels_built(nd: DirNode, groups: Seq<Seq<Seq<u8>>>, d: int) -> bool
    decreases groups.len() - d,
{
    if d >= groups.len() {
        nd.children@.len() == 0
    } else {
        &&& paths_of(nd.children@) == parent_filter(groups[d], nd.path@)
        &&& forall|k: int|
            0 <= k < nd.children@.len() ==> {
                let c = #[trigger] nd.children@[k];
                &&& c.depth as int == d
                &&& c.name@ == spec_name_of(c.path@)
                &&& levels_built(c, groups, d + 1)
            }
    }
}

/// Attaches to `parent`, in order of appearance, one child for each
/// path in `dirs_by_depth[current_depth]` whose parent path is
/// `parent`'s path, and builds each child's own subtree from the
/// deeper levels the same way.
pub fn build_tree_recursive(
    parent: &mut DirNode,
    dirs_by_depth: &Vec<Vec<Vec<u8>>>,
    current_depth: usize,
)
    ensures
        final(parent).path@ == old(parent).path@,
        final(parent).name@ == old(parent).name@,
        final(parent).depth == old(parent).depth,
        current_depth >= dirs_by_depth@.len() ==> *final(parent) == *old(parent),
        current_depth < dirs_by_depth@.len() ==> {
            &&& final(parent).children@.len() >= old(parent).children@.len()
            &&& final(parent).children@.take(old(parent).children@.len() as int) == old(parent).children@
            &&& paths_of(
                final(parent).children@.skip(old(parent).children@.len() as int),
            ) == parent_filter(dirs_by_depth@[current_depth as int]@.map_values(|p: Vec<u8>| p@), old(parent).path@)
            &&& forall|k: int|
                old(parent).children@.len() <= k < final(parent).children@.len() ==> (
                #[trigger] final(parent).children@[k]).depth == current_depth && final(parent).children@[k].name@ == spec_name_of(final(parent).children@[k].path@)
                    && levels_built(
                    final(parent).children@[k],
                    groups_view(*dirs_by_depth),
                    current_depth as int + 1,
                )
        },
    decreases dirs_by_depth@.len() - current_depth,
{
    if current_depth >= dirs_by_depth.len() {
        return ;
    }
    let nlevels = dirs_by_depth.len();
    let ghost base = parent.children@.len() as int;
    let ghost group = dirs_by_depth@[current_depth as int]@.map_values(|p: Vec<u8>| p@);
    let m = dirs_by_depth[current_depth].len();
    let mut k: usize = 0;
    while k < m
        invariant
            0 <= k <= m,
            current_depth < nlevels,
            nlevels == dirs_by_depth@.len(),
            m == dirs_by_depth@[current_depth as int]@.len(),
            group == dirs_by_depth@[current_depth as int]@.map_values(|p: Vec<u8>| p@),
            parent.path@ == old(parent).path@,
            parent.name@ == old(parent).name@,
            parent.depth == old(parent).depth,
            base == old(parent).children@.len(),
            parent.children@.len() >= base,
            parent.children@.take(base) == old(parent).children@,
            paths_of(parent.children@.skip(base)) == parent_filter(
                group.take(k as int),
                old(parent).path@,
            ),
            forall|t: int|
                base <= t < parent.children@.len() ==> (#[trigger] parent.children@[t]).depth
                    == current_depth && parent.children@[t].name@ == spec_name_of(
                    parent.children@[t].path@,
                ) && levels_built(
                    parent.children@[t],
                    groups_view(*dirs_by_depth),
                    current_depth as int + 1,
                ),
        decreases m - k,
    {
        let dir_path = &dirs_by_depth[current_depth][k];
        let ghost children0 = parent.children@;
        match parent_of(dir_path) {
            Some(pp) => {
                if bytes_eq(&pp, &parent.path) {
                    let child_path = crate::store::clone_bytes(dir_path);
                    let mut child = DirNode::new(child_path, current_depth);
                    build_tree_recursive(&mut child, dirs_by_depth, current_depth + 1);
                    proof {
                        let gv = groups_view(*dirs_by_depth);
                        let cd1 = current_depth as int + 1;
                        assert(gv.len() == dirs_by_depth@.len());
                        if cd1 >= gv.len() {
                            assert(child.children@.len() == 0);
                        } else {
                            assert(gv[cd1] == dirs_by_depth@[cd1]@.map_values(|p: Vec<u8>| p@));
                            assert(child.children@.skip(0) =~= child.children@);
                            assert(paths_of(child.children@) == parent_filter(
                                gv[cd1],
                                child.path@,
                            ));
                        }
                        assert(levels_built(child, gv, cd1));
                    }
                    parent.children.push(child);
                    proof {
                        assert(group[k as int] == dir_path@);
                        assert(spec_parent_of(group[k as int]) == Some(old(parent).path@));
                        lemma_parent_filter_step(group, old(parent).path@, k as int);
                        assert(parent.children@.take(base) =~= children0.take(base));
                        assert(paths_of(parent.children@.skip(base)) =~= paths_of(
                            children0.skip(base),
                        ).push(dir_path@));
                    }
                } else {
                    proof {
                        assert(group[k as int] == dir_path@);
                        assert(spec_parent_of(group[k as int]) != Some(old(parent).path@));
                        lemma_parent_filter_step(group, old(parent).path@, k as int);
                    }
                }
            },
            None => {
                proof {
                    assert(group[k as int] == dir_path@);
                    assert(spec_parent_of(group[k as int]) is None);
                    lemma_parent_filter_step(group, old(parent).path@, k as int);
                }
            },
        }
        k = k + 1;
    }
    proof {
        assert(group.take(m as int) =~= group);
    }
}

/// Builds the whole tree for `root_path` from the directory paths a
/// walk discovered, already grouped by depth below the root: level 1
/// holds the root's direct children, and so on.
pub fn build_tree(root_path: Vec<u8>, dirs_by_depth: &Vec<Vec<Vec<u8>>>) -> (r: DirNode)
    ensures
        r.path@ == root_path@,
        r.name@ == spec_name_of(root_path@),
        r.depth == 0,
        levels_built(r, groups_view(*dirs_by_depth), 1),
{
    let mut root_node = DirNode::new(root_path, 0);
    build_tree_recursive(&mut root_node, dirs_by_depth, 1);
    proof {
        let gv = groups_view(*dirs_by_depth);
        assert(gv.len() == dirs_by_depth@.len());
        if 1 < gv.len() {
            assert(gv[1] == dirs_by_depth@[1]@.map_values(|p: Vec<u8>| p@));
            assert(root_node.children@.skip(0) =~= root_node.children@);
            assert(paths_of(root_node.children@) == parent_filter(gv[1], root_node.path@));
        } else {
            assert(root_node.children@.len() == 0);
        }
        assert(levels_built(root_node, gv, 1));
    }
    root_node
}

} // verus!
