//! The tree store: an arena of nodes keyed by canonical path.
//!
//! Nodes live in a `Vec`; a child's arena index is always larger than
//! its parent's, so the parent/child graph is a tree by construction.
//! Removal leaves a dead slot behind and records a tombstone carrying
//! the deletion's stamp; an insert whose stamp is not newer than the
//! path's tombstone is rejected, so a deletion always wins over a
//! stale insert that replays later.

use vstd::prelude::*;

use crate::node::Node;
use crate::node::NodeKind;
use crate::node::ScanState;
use crate::node::SizeState;
use crate::paths::bytes_eq;
use crate::paths::name_of;
use crate::paths::spec_name_of;

verus! {

/// A record that `path` was deleted by the event stamped `stamp`.
pub struct Tomb {
    pub path: Vec<u8>,
    pub stamp: u64,
}

/// One change visible to subscribers, in the order it happened.
pub enum Delta {
    NodeAdded(Vec<u8>),
    NodeRemoved(Vec<u8>),
    SizeUpdated(Vec<u8>),
}

/// What `get_or_insert` did.
#[derive(Clone, Copy, PartialEq, Eq, Structural, Debug)]
pub enum InsertOutcome {
    /// The path was already present; nothing changed.
    Existing(usize),
    /// A fresh node was created at this arena index.
    Inserted(usize),
    /// A tombstone at least as new as the insert blocked it.
    Blocked,
}

pub struct TreeStore {
    pub nodes: Vec<Node>,
    pub tombs: Vec<Tomb>,
    pub deltas: Vec<Delta>,
    pub clock: u64,
}

impl TreeStore {
    /// Number of arena slots, live or dead.
    pub open spec fn n(self) -> int {
        self.nodes@.len() as int
    }

    pub open spec fn node(self, i: int) -> Node {
        self.nodes@[i]
    }

    /// Slot `i` holds a node that has not been removed.
    pub open spec fn live(self, i: int) -> bool {
        0 <= i < self.n() && self.node(i).live
    }

    /// Some live node has path `p`.
    pub open spec fn has_path(self, p: Seq<u8>) -> bool {
        exists|i: int| self.live(i) && self.node(i).path@ == p
    }

    /// The arena index of the live node with path `p`.
    pub open spec fn idx_of(self, p: Seq<u8>) -> int {
        choose|i: int| self.live(i) && self.node(i).path@ == p
    }

    /// A tombstone for `p` stamped `stamp` or newer exists: an insert
    /// for `p` carrying `stamp` must be rejected.
    pub open spec fn tomb_blocks(self, p: Seq<u8>, stamp: u64) -> bool {
        exists|t: int|
            0 <= t < self.tombs@.len() && self.tombs@[t].path@ == p && self.tombs@[t].stamp
                >= stamp
    }

    /// `i` is `r` or lies below `r` in the tree, following parent links.
    pub open spec fn is_desc(self, i: int, r: int) -> bool
        decreases i
            when i >= 0

    {
        i == r || (0 <= i < self.n() && match self.node(i).parent {
            Some(p) => if (p as int) < i && p as int >= 0 {
                self.is_desc(p as int, r)
            } else {
                false
            },
            None => false,
        })
    }

    /// The parent link of live slot `i` points at a live directory with
    /// a smaller index that lists `i` among its children.
    pub open spec fn parent_ok(self, i: int) -> bool {
        match self.node(i).parent {
            Some(p) => {
                &&& (p as int) < i
                &&& self.live(p as int)
                &&& self.node(p as int).kind is Directory
                &&& self.node(p as int).children@.contains(i as usize)
            },
            None => true,
        }
    }

    /// The child slot `c` is a live slot with an index larger than `i`
    /// whose parent link points back at `i`.
    pub open spec fn child_link_ok(self, i: int, c: usize) -> bool {
        &&& i < c as int
        &&& (c as int) < self.n()
        &&& self.node(c as int).live
        &&& self.node(c as int).parent == Some((i as usize))
    }

    /// The children of live slot `i` are distinct live slots with larger
    /// indices whose parent link points back at `i`; only directories
    /// have children.
    pub open spec fn children_ok(self, i: int) -> bool {
        let cs = self.node(i).children@;
        &&& cs.len() > 0 ==> self.node(i).kind is Directory
        &&& forall|k: int| 0 <= k < cs.len() ==> self.child_link_ok(i, #[trigger] cs[k])
        &&& forall|k: int, l: int| 0 <= k < l < cs.len() ==> cs[k] != cs[l]
    }

    /// Live paths are pairwise distinct: the path is the node's key.
    pub open spec fn paths_unique(self) -> bool {
        forall|i: int, j: int|
            #![trigger self.node(i).path@, self.node(j).path@]
            self.live(i) && self.live(j) && i != j ==> self.node(i).path@ != self.node(j).path@
    }

    /// Structural well-formedness of the whole store.
    pub open spec fn wf(self) -> bool {
        &&& forall|i: int| #[trigger] self.live(i) ==> self.parent_ok(i)
        &&& forall|i: int| #[trigger] self.live(i) ==> self.children_ok(i)
        &&& self.paths_unique()
    }

    /// A store with no nodes, no tombstones and no pending deltas.
    pub fn new() -> (r: TreeStore)
        ensures
            r.wf(),
            r.n() == 0,
            r.tombs@.len() == 0,
            r.deltas@.len() == 0,
            r.clock == 0,
    {
        TreeStore { nodes: Vec::new(), tombs: Vec::new(), deltas: Vec::new(), clock: 0 }
    }

    /// The arena index of the live node with path `p`, if any.
    pub fn lookup(&self, p: &Vec<u8>) -> (r: Option<usize>)
        requires
            self.wf(),
        ensures
            match r {
                Some(i) => self.live(i as int) && self.node(i as int).path@ == p@ && i as int
                    == self.idx_of(p@),
                None => !self.has_path(p@),
            },
    {
        let n = self.nodes.len();
        let mut i: usize = 0;
        while i < n
            invariant
                self.wf(),
                0 <= i <= n,
                n == self.n(),
                forall|j: int| 0 <= j < i ==> !(self.live(j) && self.node(j).path@ == p@),
            decreases n - i,
        {
            if self.nodes[i].live && bytes_eq(&self.nodes[i].path, p) {
                proof {
                    assert(self.live(i as int) && self.node(i as int).path@ == p@);
                    let j = self.idx_of(p@);
                    assert(self.live(j) && self.node(j).path@ == p@);
                    if j != i as int {
                        assert(self.node(j).path@ != self.node(i as int).path@);
                    }
                }
                return Some(i);
            }
            i = i + 1;
        }
        None
    }

    /// Whether a tombstone blocks an insert for `p` stamped `stamp`.
    pub fn tomb_check(&self, p: &Vec<u8>, stamp: u64) -> (r: bool)
        ensures
            r == self.tomb_blocks(p@, stamp),
    {
        let n = self.tombs.len();
        let mut i: usize = 0;
        while i < n
            invariant
                0 <= i <= n,
                n == self.tombs@.len(),
                forall|j: int|
                    0 <= j < i ==> !(self.tombs@[j].path@ == p@ && self.tombs@[j].stamp >= stamp),
            decreases n - i,
        {
            if self.tombs[i].stamp >= stamp && bytes_eq(&self.tombs[i].path, p) {
                return true;
            }
            i = i + 1;
        }
        false
    }

    /// Inserts a detached node for `path` unless the path is present or
    /// a tombstone as new as `stamp` blocks it. Idempotent: when the
    /// path exists the store is returned untouched, its generations
    /// unaffected, and the existing index handed back.
    pub fn get_or_insert(&mut self, path: Vec<u8>, kind: NodeKind, stamp: u64) -> (r: InsertOutcome)
        requires
            old(self).wf(),
        ensures
            final(self).wf(),
            old(self).tomb_blocks(path@, stamp) ==> r == InsertOutcome::Blocked && *final(self)
                == *old(self),
            !old(self).tomb_blocks(path@, stamp) && old(self).has_path(path@) ==> r
                == InsertOutcome::Existing(old(self).idx_of(path@) as usize) && *final(self)
                == *old(self),
            !old(self).tomb_blocks(path@, stamp) && !old(self).has_path(path@) ==> {
                &&& r == InsertOutcome::Inserted((old(self).n() as usize))
                &&& final(self).n() == old(self).n() + 1
                &&& forall|j: int|
                    0 <= j < old(self).n() ==> final(self).node(j) == old(self).node(j)
                &&& final(self).live(old(self).n())
                &&& final(self).node(old(self).n()).path@ == path@
                &&& final(self).node(old(self).n()).name@ == spec_name_of(path@)
                &&& final(self).node(old(self).n()).kind == kind
                &&& final(self).node(old(self).n()).size_state is Pending
                &&& final(self).node(old(self).n()).scan_state is NotScanned
                &&& final(self).node(old(self).n()).children@.len() == 0
                &&& final(self).node(old(self).n()).parent is None
                &&& final(self).node(old(self).n()).generation == old(self).clock
                &&& final(self).clock == crate::spec_sat_add(old(self).clock, 1)
                &&& final(self).tombs@ == old(self).tombs@
                &&& final(self).deltas@ == old(self).deltas@.push(Delta::NodeAdded(path))
                &&& final(self).has_path(path@)
            },
    {
        if self.tomb_check(&path, stamp) {
            return InsertOutcome::Blocked;
        }
        match self.lookup(&path) {
            Some(i) => InsertOutcome::Existing(i),
            None => {
                let i = self.nodes.len();
                let name = name_of(&path);
                let node_path = clone_bytes(&path);
                let nd = Node {
                    live: true,
                    path: node_path,
                    name,
                    kind,
                    size_state: SizeState::Pending,
                    scan_state: ScanState::NotScanned,
                    children: Vec::new(),
                    parent: None,
                    generation: self.clock,
                };
                self.clock = crate::sat_add_u64(self.clock, 1);
                self.nodes.push(nd);
                self.deltas.push(Delta::NodeAdded(path));
                proof {
                    let m = old(self).n();
                    assert forall|j: int| #[trigger] self.live(j) implies self.parent_ok(j)
                        && self.children_ok(j) by {
                        if j < m {
                            assert(old(self).live(j));
                            assert(old(self).parent_ok(j));
                            assert(old(self).children_ok(j));
                            let cs = self.node(j).children@;
                            assert forall|k: int| 0 <= k < cs.len() implies self.child_link_ok(
                                j,
                                #[trigger] cs[k],
                            ) by {
                                assert(old(self).child_link_ok(j, cs[k]));
                            }
                        } else {
                            assert(self.node(j).parent is None);
                            assert(self.node(j).children@.len() == 0);
                        }
                    }
                    assert forall|a: int, b: int|
                        #![trigger self.node(a).path@, self.node(b).path@]
                        self.live(a) && self.live(b) && a != b implies self.node(a).path@
                        != self.node(b).path@ by {
                        if a < m && b < m {
                            assert(old(self).live(a) && old(self).live(b));
                        } else if a == m {
                            assert(old(self).live(b) && !old(self).has_path(self.node(a).path@));
                        } else if b == m {
                            assert(old(self).live(a) && !old(self).has_path(self.node(b).path@));
                        }
                    }
                    assert(self.live(m) && self.node(m).path@ == self.node(m).path@);
                }
                InsertOutcome::Inserted(i)
            },
        }
    }

    /// Links the node at `child` under the directory at `parent`:
    /// appends it to the parent's children in discovery order and sets
    /// its parent link. No-ops, returning `false`, when the link cannot
    /// be made (either index dead, the parent not a directory, the
    /// child already attached somewhere, or the child's index not
    /// larger than the parent's).
    pub fn attach_child(&mut self, parent: usize, child: usize) -> (r: bool)
        requires
            old(self).wf(),
        ensures
            final(self).wf(),
            !r ==> *final(self) == *old(self),
            r ==> {
                &&& old(self).live(parent as int) && old(self).live(child as int)
                &&& old(self).node(child as int).parent is None
                &&& final(self).n() == old(self).n()
                &&& final(self).node(parent as int).children@ == old(self).node(
                    parent as int,
                ).children@.push(child)
                &&& final(self).node(child as int).parent == Some(parent)
                &&& forall|j: int|
                    0 <= j < final(self).n() && j != parent && j != child ==> final(self).node(j)
                        == old(self).node(j)
                &&& final(self).node(parent as int).path@ == old(self).node(parent as int).path@
                &&& final(self).node(parent as int).size_state == old(self).node(
                    parent as int,
                ).size_state
                &&& final(self).node(parent as int).scan_state == old(self).node(
                    parent as int,
                ).scan_state
                &&& final(self).node(parent as int).kind == old(self).node(parent as int).kind
                &&& final(self).node(parent as int).parent == old(self).node(parent as int).parent
                &&& final(self).node(parent as int).name@ == old(self).node(parent as int).name@
                &&& final(self).node(parent as int).generation == old(self).clock
                &&& final(self).node(child as int).generation == old(self).clock
                &&& final(self).clock == crate::spec_sat_add(old(self).clock, 1)
                &&& final(self).node(parent as int).live
                &&& final(self).node(child as int).path@ == old(self).node(child as int).path@
                &&& final(self).node(child as int).name@ == old(self).node(child as int).name@
                &&& final(self).node(child as int).size_state == old(self).node(
                    child as int,
                ).size_state
                &&& final(self).node(child as int).scan_state == old(self).node(
                    child as int,
                ).scan_state
                &&& final(self).node(child as int).kind == old(self).node(child as int).kind
                &&& final(self).node(child as int).children@ == old(self).node(
                    child as int,
                ).children@
                &&& final(self).node(child as int).live
                &&& final(self).tombs@ == old(self).tombs@
                &&& final(self).deltas@ == old(self).deltas@
            },
            r == (old(self).live(parent as int) && old(self).live(child as int) && old(self).node(
                parent as int,
            ).kind is Directory && old(self).node(child as int).parent is None && parent < child),
    {
        if !(parent < self.nodes.len() && child < self.nodes.len()) {
            return false;
        }
        if !(self.nodes[parent].live && self.nodes[child].live) {
            return false;
        }
        if !(matches!(self.nodes[parent].kind, NodeKind::Directory)) {
            return false;
        }
        if !(matches!(self.nodes[child].parent, Option::None)) {
            return false;
        }
        if !(parent < child) {
            return false;
        }
        proof {
            assert(old(self).live(parent as int));
            assert(old(self).live(child as int));
            assert(old(self).children_ok(parent as int));
        }
        let g = self.clock;
        self.clock = crate::sat_add_u64(self.clock, 1);
        let mut pn = self.nodes[parent].children.len();
        self.nodes[parent].children.push(child);
        self.nodes[parent].generation = g;
        self.nodes[child].parent = Some(parent);
        self.nodes[child].generation = g;
        proof {
            let s = *self;
            let o = *old(self);
            let pi = parent as int;
            let ci = child as int;
            let ocs = o.node(pi).children@;
            assert(s.node(pi).children@ == ocs.push(child));
            assert forall|j: int| #[trigger] s.live(j) implies s.parent_ok(j) by {
                assert(o.live(j));
                assert(o.parent_ok(j));
                if j == ci {
                    assert(s.node(pi).children@[ocs.len() as int] == child);
                    assert(s.node(pi).children@.contains(child));
                } else {
                    match o.node(j).parent {
                        Some(p) => {
                            if p as int == pi {
                                let k = choose|k: int|
                                    0 <= k < ocs.len() && ocs[k] == (j as usize);
                                assert(ocs.contains(j as usize));
                                assert(0 <= k < ocs.len() && ocs[k] == (j as usize));
                                assert(s.node(pi).children@[k] == (j as usize));
                                assert(s.node(pi).children@.contains(j as usize));
                            }
                        },
                        None => {},
                    }
                }
            }
            assert forall|j: int| #[trigger] s.live(j) implies s.children_ok(j) by {
                assert(o.live(j));
                assert(o.children_ok(j));
                if j == parent as int {
                    let cs = s.node(j).children@;
                    let ocs = o.node(j).children@;
                    assert forall|k: int| 0 <= k < cs.len() implies s.child_link_ok(
                        j,
                        #[trigger] cs[k],
                    ) by {
                        if k < ocs.len() {
                            assert(ocs[k] == cs[k]);
                            assert(o.child_link_ok(j, ocs[k]));
                            if cs[k] as int == child as int {
                                assert(o.node(child as int).parent is None);
                                assert(false);
                            }
                        } else {
                            assert(cs[k] == child);
                        }
                    }
                    assert forall|k: int, l: int| 0 <= k < l < cs.len() implies cs[k] != cs[l] by {
                        if l == cs.len() - 1 {
                            if k < ocs.len() && ocs[k] == child {
                                assert(o.child_link_ok(j, ocs[k]));
                                assert(o.node(child as int).parent is None);
                                assert(false);
                            }
                        }
                    }
                } else {
                    let cs = s.node(j).children@;
                    assert(cs == o.node(j).children@);
                    assert forall|k: int| 0 <= k < cs.len() implies s.child_link_ok(
                        j,
                        #[trigger] cs[k],
                    ) by {
                        assert(o.child_link_ok(j, cs[k]));
                        if cs[k] as int == child as int {
                            assert(o.node(child as int).parent is None);
                            assert(false);
                        }
                    }
                }
            }
            assert forall|a: int, b: int|
                #![trigger s.node(a).path@, s.node(b).path@]
                s.live(a) && s.live(b) && a != b implies s.node(a).path@ != s.node(b).path@ by {
                assert(o.live(a) && o.live(b));
                assert(o.node(a).path@ != o.node(b).path@);
            }
        }
        true
    }
}

/// A fresh copy of a byte string.
pub fn clone_bytes(p: &Vec<u8>) -> (r: Vec<u8>)
    ensures
        r@ == p@,
{
    let n = p.len();
    let mut r: Vec<u8> = Vec::new();
    let mut i: usize = 0;
    while i < n
        invariant
            0 <= i <= n,
            n == p@.len(),
            r@ == p@.subrange(0, i as int),
        decreases n - i,
    {
        r.push(p[i]);
        proof {
            assert(r@ =~= p@.subrange(0, i + 1));
        }
        i = i + 1;
    }
    proof {
        assert(p@.subrange(0, n as int) =~= p@);
    }
    r
}

} // verus!
