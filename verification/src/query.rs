//! The read surface for renderers.
//!
//! A snapshot returns whatever state currently exists — pending sizes
//! included — without waiting for completion: the hierarchy is visible
//! at once, and no child is missing just because its size is inexact.
//! Subscribers replay the change log from any cursor.

use vstd::prelude::*;

use crate::node::NodeKind;
use crate::node::ScanState;
use crate::node::SizeState;
use crate::store::clone_bytes;
use crate::store::Delta;
use crate::store::TreeStore;

verus! {

/// One node as a reader sees it: identity, kind, size and scan
/// progress; `size_bytes` carries a number exactly when the size is
/// exact or a partial sum.
pub struct NodeView {
    pub path: Vec<u8>,
    pub name: Vec<u8>,
    pub kind: NodeKind,
    pub size_state: SizeState,
    pub size_bytes: Option<u64>,
    pub scan_state: ScanState,
    pub generation: u64,
}

/// The number a view reports for a size state.
pub open spec fn spec_size_bytes(s: SizeState) -> Option<u64> {
    match s {
        SizeState::Known(n) => Some(n),
        SizeState::Partial(n) => Some(n),
        _ => None,
    }
}

/// `v` reproduces slot `i` of the store faithfully.
pub open spec fn view_matches(s: TreeStore, i: int, v: NodeView) -> bool {
    &&& v.path@ == s.node(i).path@
    &&& v.name@ == s.node(i).name@
    &&& v.kind == s.node(i).kind
    &&& v.size_state == s.node(i).size_state
    &&& v.size_bytes == spec_size_bytes(s.node(i).size_state)
    &&& v.scan_state == s.node(i).scan_state
    &&& v.generation == s.node(i).generation
}

impl TreeStore {
    /// A faithful copy of slot `i` for a reader.
    fn view_of(&self, i: usize) -> (v: NodeView)
        requires
            self.live(i as int),
        ensures
            view_matches(*self, i as int, v),
    {
        let size_bytes = match self.nodes[i].size_state {
            SizeState::Known(n) => Some(n),
            SizeState::Partial(n) => Some(n),
            _ => None,
        };
        NodeView {
            path: clone_bytes(&self.nodes[i].path),
            name: clone_bytes(&self.nodes[i].name),
            kind: self.nodes[i].kind,
            size_state: self.nodes[i].size_state,
            size_bytes,
            scan_state: self.nodes[i].scan_state,
            generation: self.nodes[i].generation,
        }
    }

    /// A point-in-time read of the node at `path` and of each of its
    /// children, in discovery order, whatever their state: a child
    /// whose size is still pending is reported, never left out.
    pub fn get_snapshot(&self, path: &Vec<u8>) -> (r: Option<(NodeView, Vec<NodeView>)>)
        requires
            self.wf(),
        ensures
            match r {
                None => !self.has_path(path@),
                Some(pair) => {
                    let i = self.idx_of(path@);
                    &&& self.has_path(path@)
                    &&& view_matches(*self, i, pair.0)
                    &&& pair.1@.len() == self.node(i).children@.len()
                    &&& forall|k: int|
                        0 <= k < pair.1@.len() ==> view_matches(
                            *self,
                            self.node(i).children@[k] as int,
                            #[trigger] pair.1@[k],
                        )
                },
            },
    {
        let i = match self.lookup(path) {
            None => {
                return None;
            },
            Some(i) => i,
        };
        proof {
            assert(self.children_ok(i as int));
        }
        let root_view = self.view_of(i);
        let cn = self.nodes[i].children.len();
        let mut kids: Vec<NodeView> = Vec::new();
        let mut k: usize = 0;
        while k < cn
            invariant
                self.wf(),
                self.live(i as int),
                0 <= k <= cn,
                cn == self.node(i as int).children@.len(),
                kids@.len() == k,
                forall|l: int|
                    0 <= l < k ==> view_matches(
                        *self,
                        self.node(i as int).children@[l] as int,
                        #[trigger] kids@[l],
                    ),
            decreases cn - k,
        {
            proof {
                assert(self.children_ok(i as int));
                assert(self.child_link_ok(i as int, self.node(i as int).children@[k as int]));
            }
            let c = self.nodes[i].children[k];
            let v = self.view_of(c);
            kids.push(v);
            k = k + 1;
        }
        Some((root_view, kids))
    }

    /// How many changes the store has logged so far; a subscriber's
    /// cursor into the log.
    pub fn delta_count(&self) -> (r: usize)
        ensures
            r == self.deltas@.len(),
    {
        self.deltas.len()
    }

    /// The logged change at position `i`, for subscribers replaying
    /// the log from their cursor.
    pub fn delta_at(&self, i: usize) -> (r: &Delta)
        requires
            i < self.deltas@.len(),
        ensures
            *r == self.deltas@[i as int],
    {
        &self.deltas[i]
    }
}

} // verus!
