//! Removal of whole subtrees from the tree store.
//!
//! `remove_subtree` kills the node at a path together with every
//! descendant, detaches it from its parent, records a tombstone per
//! removed path (so later stale inserts are rejected), and returns
//! exactly what was removed with each node's `Known` contribution at
//! removal time, so the caller can re-aggregate the former parent.

use vstd::pervasive::VecAdditionalExecFns;
use vstd::prelude::*;

use crate::node::known_part;
use crate::node::known_part_of;
use crate::store::clone_bytes;
use crate::store::Delta;
use crate::store::Tomb;
use crate::store::TreeStore;

verus! {

/// The removal record for one node: its path and what it contributed
/// to its parent's sum when it was removed.
pub struct Removed {
    pub path: Vec<u8>,
    pub known: u64,
}

/// The arena index an optional parent link holds, `-1` for none.
pub open spec fn opt_idx(x: Option<usize>) -> int {
    match x {
        Some(v) => v as int,
        None => -1,
    }
}

/// A node below `r` can only sit at an index at or above `r`.
pub proof fn lemma_desc_ge(s: TreeStore, i: int, r: int)
    requires
        0 <= i,
        s.is_desc(i, r),
    ensures
        i >= r,
    decreases i,
{
    if i != r {
        match s.node(i).parent {
            Some(p) => {
                if (p as int) < i && p as int >= 0 {
                    lemma_desc_ge(s, p as int, r);
                }
            },
            None => {},
        }
    }
}


/// Deletion wins over a stale insert: once a subtree at `p` has been
/// removed by an event stamped `stamp`, the recorded tombstone blocks
/// every replayed insert for `p` that carries an equal or older stamp,
/// and the path stays absent from the store.
pub proof fn lemma_deletion_wins(
    o: TreeStore,
    s: TreeStore,
    p: Seq<u8>,
    stamp: u64,
    rem: Seq<Removed>,
    replay: u64,
)
    requires
        o.wf(),
        o.has_path(p),
        TreeStore::removal_ok(o, s, p, stamp, rem),
        replay <= stamp,
    ensures
        s.tomb_blocks(p, replay),
        !s.has_path(p),
{
    let r = o.idx_of(p);
    assert(o.live(r) && o.node(r).path@ == p);
    assert(o.is_desc(r, r));
    let j = choose|j: int|
        0 <= j < rem.len() && rem[j].path@ == o.node(r).path@ && rem[j].known == known_part(
            o.node(r).size_state,
        );
    assert(s.tombs@[o.tombs@.len() + j].path@ == p && s.tombs@[o.tombs@.len() + j].stamp == stamp);
    assert(0 <= o.tombs@.len() + j < s.tombs@.len());
}

impl TreeStore {
    /// Everything a removal that found its path promises: `o` is the
    /// store before, `s` after; `r` abbreviates the removed root's
    /// index. Every node below the root (and nothing else) is gone,
    /// survivors are untouched but for the former parent's child list,
    /// and `rem` lists each removed path once with its `Known` part.
    pub open spec fn removal_ok(
        o: TreeStore,
        s: TreeStore,
        p: Seq<u8>,
        stamp: u64,
        rem: Seq<Removed>,
    ) -> bool {
        let r = o.idx_of(p);
        &&& s.n() == o.n()
        &&& forall|i: int|
            0 <= i < o.n() ==> ((#[trigger] s.live(i)) <==> o.live(i) && !o.is_desc(i, r))
        &&& forall|i: int| 0 <= i < o.n() ==> (#[trigger] s.node(i).path@) == o.node(i).path@
        &&& forall|i: int|
            #[trigger] s.live(i) && i != opt_idx(o.node(r).parent) ==> s.node(i) == o.node(i)
        &&& match o.node(r).parent {
            Some(pp) => exists|k: int|
                0 <= k < o.node(pp as int).children@.len() && o.node(pp as int).children@[k] == (
                r as usize) && s.node(pp as int).children@ == o.node(pp as int).children@.remove(k)
                    && s.node(pp as int).kind == o.node(pp as int).kind && s.node(
                    pp as int,
                ).size_state == o.node(pp as int).size_state && s.node(pp as int).scan_state
                    == o.node(pp as int).scan_state && s.node(pp as int).parent == o.node(
                    pp as int,
                ).parent && s.node(pp as int).name@ == o.node(pp as int).name@ && s.live(pp as int),
            None => true,
        }
        &&& forall|j: int|
            #![trigger rem[j]]
            0 <= j < rem.len() ==> exists|t: int|
                #![trigger o.node(t).path@]
                o.live(t) && o.is_desc(t, r) && o.node(t).path@ == rem[j].path@ && rem[j].known
                    == known_part(o.node(t).size_state)
        &&& forall|t: int|
            #![trigger o.is_desc(t, r)]
            o.live(t) && o.is_desc(t, r) ==> exists|j: int|
                #![trigger rem[j]]
                0 <= j < rem.len() && rem[j].path@ == o.node(t).path@ && rem[j].known
                    == known_part(o.node(t).size_state)
        &&& forall|j: int, k: int| 0 <= j < k < rem.len() ==> rem[j].path@ != rem[k].path@
        &&& s.tombs@.len() == o.tombs@.len() + rem.len()
        &&& s.tombs@.subrange(0, o.tombs@.len() as int) == o.tombs@
        &&& forall|j: int|
            0 <= j < rem.len() ==> (#[trigger] s.tombs@[o.tombs@.len() + j]).path@ == rem[j].path@
                && s.tombs@[o.tombs@.len() + j].stamp == stamp
        &&& s.deltas@.len() == o.deltas@.len() + rem.len()
        &&& s.deltas@.subrange(0, o.deltas@.len() as int) == o.deltas@
        &&& forall|j: int|
            0 <= j < rem.len() ==> ((#[trigger] s.deltas@[o.deltas@.len() + j]) matches Delta::NodeRemoved(q)
                && q@ == rem[j].path@)
        &&& !s.has_path(p)
    }

    /// Flags every live node at or below `root`, following parent
    /// links; nothing else is flagged.
    #[verifier::loop_isolation(false)]
    fn mark_subtree(&self, root: usize) -> (mark: Vec<bool>)
        requires
            self.wf(),
            self.live(root as int),
        ensures
            mark@.len() == self.n(),
            forall|i: int|
                0 <= i < self.n() ==> (#[trigger] mark@[i]) == (self.live(i) && self.is_desc(
                    i,
                    root as int,
                )),
    {
        let n = self.nodes.len();
        let mut mark: Vec<bool> = Vec::new();
        let mut t: usize = 0;
        while t < n
            invariant
                0 <= t <= n,
                mark@.len() == t,
                forall|j: int| 0 <= j < t ==> mark@[j] == false,
            decreases n - t,
        {
            mark.push(false);
            t = t + 1;
        }
        mark.set(root, true);
        proof {
            assert forall|j: int| 0 <= j < root as int + 1 implies mark@[j] == (self.live(j)
                && self.is_desc(j, root as int)) by {
                if j < root as int {
                    if self.is_desc(j, root as int) {
                        lemma_desc_ge(*self, j, root as int);
                    }
                }
            }
        }
        let mut i: usize = root + 1;
        while i < n
            invariant
                self.wf(),
                self.live(root as int),
                root < i <= n,
                n == self.n(),
                mark@.len() == n,
                forall|j: int|
                    0 <= j < i ==> (#[trigger] mark@[j]) == (self.live(j) && self.is_desc(
                        j,
                        root as int,
                    )),
                forall|j: int| i <= j < n ==> (#[trigger] mark@[j]) == false,
            decreases n - i,
        {
            proof {
                if self.live(i as int) {
                    assert(self.parent_ok(i as int));
                    match self.node(i as int).parent {
                        Some(p) => {
                            assert((p as int) < i as int && self.live(p as int));
                        },
                        None => {},
                    }
                }
            }
            let flag: bool = if self.nodes[i].live {
                match self.nodes[i].parent {
                    Some(p) => mark[p],
                    None => false,
                }
            } else {
                false
            };
            proof {
                let ii = i as int;
                let ri = root as int;
                if self.live(ii) {
                    match self.node(ii).parent {
                        Some(p) => {
                            assert(self.is_desc(ii, ri) == self.is_desc(p as int, ri));
                            assert(flag == (self.live(ii) && self.is_desc(ii, ri)));
                        },
                        None => {
                            assert(!self.is_desc(ii, ri));
                        },
                    }
                }
            }
            let ghost mark0 = mark@;
            if flag {
                mark.set(i, true);
            }
            proof {
                let ii = i as int;
                let ri = root as int;
                assert(mark@[ii] == flag);
                assert forall|j: int| 0 <= j < ii + 1 implies mark@[j] == (self.live(j)
                    && self.is_desc(j, ri)) by {
                    if j < ii {
                        assert(mark@[j] == mark0[j]);
                        assert(mark0[j] == (self.live(j) && self.is_desc(j, ri)));
                    } else {
                        assert(flag == (self.live(ii) && self.is_desc(ii, ri)));
                    }
                }
            }
            i = i + 1;
        }
        mark
    }

    /// Unlinks the live node at `root` from its parent: the parent's
    /// child list loses exactly that entry and the node's parent link
    /// is cleared. Everything else is untouched.
    fn detach_root(&mut self, root: usize)
        requires
            old(self).wf(),
            old(self).live(root as int),
            old(self).node(root as int).parent is Some,
        ensures
            final(self).wf(),
            final(self).n() == old(self).n(),
            final(self).clock >= old(self).clock,
            final(self).tombs@ == old(self).tombs@,
            final(self).deltas@ == old(self).deltas@,
            forall|i: int|
                0 <= i < old(self).n() && i != root as int && i != opt_idx(
                    old(self).node(root as int).parent,
                ) ==> final(self).node(i) == old(self).node(i),
            forall|i: int| 0 <= i < old(self).n() ==> final(self).live(i) == old(self).live(i),
            forall|i: int|
                0 <= i < old(self).n() ==> (#[trigger] final(self).node(i)).path@ == old(self).node(
                    i,
                ).path@ && final(self).node(i).name@ == old(self).node(i).name@ && final(self).node(
                    i,
                ).kind == old(self).node(i).kind && final(self).node(i).size_state == old(
                    self,
                ).node(i).size_state && final(self).node(i).scan_state == old(self).node(
                    i,
                ).scan_state,
            final(self).node(root as int).parent is None,
            final(self).node(root as int).children@ == old(self).node(root as int).children@,
            ({
                let pp = opt_idx(old(self).node(root as int).parent);
                exists|k: int|
                    0 <= k < old(self).node(pp).children@.len() && old(self).node(pp).children@[k]
                        == root && final(self).node(pp).children@ == old(self).node(
                        pp,
                    ).children@.remove(k) && final(self).node(pp).parent == old(self).node(
                        pp,
                    ).parent
            }),
    {
        let total = self.nodes.len();
        proof {
            assert(old(self).n() == total as int);
        }
        let pp: usize = match self.nodes[root].parent {
            Some(p) => p,
            None => 0,
        };
        proof {
            assert(old(self).parent_ok(root as int));
            assert(old(self).live(pp as int));
            assert(old(self).children_ok(pp as int));
            assert(old(self).node(pp as int).children@.contains(root));
        }
        let cs_len = self.nodes[pp].children.len();
        proof {
            let w = choose|w: int|
                0 <= w < self.node(pp as int).children@.len() && self.node(pp as int).children@[w]
                    == root;
            assert(0 <= w < cs_len as int && self.node(pp as int).children@[w] == root);
        }
        let mut k: usize = 0;
        while self.nodes[pp].children[k] != root
            invariant
                *self == *old(self),
                cs_len == self.node(pp as int).children@.len(),
                pp < self.n(),
                0 <= k < cs_len,
                forall|l: int| 0 <= l < k ==> self.node(pp as int).children@[l] != root,
                self.node(pp as int).children@.contains(root),
            decreases cs_len - k,
        {
            k = k + 1;
            proof {
                if k as int >= cs_len as int {
                    let w = choose|w: int|
                        0 <= w < self.node(pp as int).children@.len() && self.node(
                            pp as int,
                        ).children@[w] == root;
                    assert(self.node(pp as int).children@[w] == root);
                    assert(false);
                }
            }
        }
        proof {
            assert(self.node(pp as int).children@[k as int] == root);
        }
        let g = self.clock;
        self.clock = crate::sat_add_u64(self.clock, 1);
        self.nodes[pp].children.remove(k);
        self.nodes[pp].generation = g;
        self.nodes[root].parent = None;
        self.nodes[root].generation = g;
        proof {
            let s = *self;
            let o = *old(self);
            let pi = pp as int;
            let ri = root as int;
            let ocs = o.node(pi).children@;
            let ki = k as int;
            assert(ocs[ki] == root);
            assert(s.node(pi).children@ == ocs.remove(ki));
            assert(o.children_ok(pi));
            assert forall|j: int| #[trigger] s.live(j) implies s.parent_ok(j) by {
                assert(o.live(j));
                assert(o.parent_ok(j));
                if j != ri {
                    match o.node(j).parent {
                        Some(p) => {
                            if p as int == pi {
                                let ju = j as usize;
                                assert(o.n() <= usize::MAX);
                                assert(ju as int == j);
                                assert(ocs.contains(ju));
                                let w = choose|w: int| 0 <= w < ocs.len() && ocs[w] == ju;
                                assert(0 <= w < ocs.len() && ocs[w] == ju);
                                if w == ki {
                                    assert(ocs[w] == root && ocs[w] == ju);
                                    assert(j == ri);
                                    assert(false);
                                }
                                if w < ki {
                                    assert(s.node(pi).children@[w] == ocs[w]);
                                } else {
                                    assert(s.node(pi).children@[w - 1] == ocs[w]);
                                }
                                assert(s.node(pi).children@.contains(j as usize));
                            }
                        },
                        None => {},
                    }
                }
            }
            assert forall|j: int| #[trigger] s.live(j) implies s.children_ok(j) by {
                assert(o.live(j));
                assert(o.children_ok(j));
                if j == pi {
                    let cs = s.node(pi).children@;
                    assert forall|l: int| 0 <= l < cs.len() implies s.child_link_ok(
                        j,
                        #[trigger] cs[l],
                    ) by {
                        let src = if l < ki {
                            l
                        } else {
                            l + 1
                        };
                        assert(cs[l] == ocs[src]);
                        assert(o.child_link_ok(j, ocs[src]));
                        if cs[l] as int == ri {
                            assert(forall|x: int, y: int|
                                0 <= x < y < ocs.len() ==> ocs[x] != ocs[y]);
                            assert(ocs[src] == root && ocs[ki] == root);
                            assert(false);
                        }
                    }
                    assert forall|x: int, y: int| 0 <= x < y < cs.len() implies cs[x] != cs[y] by {
                        let sx = if x < ki {
                            x
                        } else {
                            x + 1
                        };
                        let sy = if y < ki {
                            y
                        } else {
                            y + 1
                        };
                        assert(cs[x] == ocs[sx] && cs[y] == ocs[sy]);
                    }
                } else {
                    let cs = s.node(j).children@;
                    assert(cs == o.node(j).children@);
                    assert forall|l: int| 0 <= l < cs.len() implies s.child_link_ok(
                        j,
                        #[trigger] cs[l],
                    ) by {
                        assert(o.child_link_ok(j, cs[l]));
                        if cs[l] as int == ri {
                            assert(o.node(ri).parent == Some((j as usize)));
                            assert(o.node(ri).parent == Some(pp));
                            assert(j == pi);
                            assert(false);
                        }
                    }
                }
            }
            assert forall|a: int, b: int|
                #![trigger s.node(a).path@, s.node(b).path@]
                s.live(a) && s.live(b) && a != b implies s.node(a).path@ != s.node(b).path@ by {
                assert(o.live(a) && o.live(b));
                assert(o.node(a).path@ != o.node(b).path@);
            }
        }
    }

    /// After the sweep the store is well-formed again and the removal
    /// contract holds: `o` is the store before removal, `mid` the one
    /// after the root was detached, `s` the one after the sweep, `r`
    /// the removed root's index and `mark` the flags of the removed set.
    #[verifier::rlimit(100)]
    proof fn lemma_removal_final(
        o: TreeStore,
        mid: TreeStore,
        s: TreeStore,
        mark: Seq<bool>,
        rem: Seq<Removed>,
        p: Seq<u8>,
        stamp: u64,
        r: int,
        wits: Seq<int>,
        rev: Map<int, int>,
    )
        requires
            o.wf(),
            mid.wf(),
            s.n() == o.n(),
            mid.n() == o.n(),
            0 <= r < o.n(),
            o.live(r),
            o.node(r).path@ == p,
            o.idx_of(p) == r,
            mark.len() == o.n(),
            forall|j: int|
                0 <= j < o.n() ==> (#[trigger] mark[j]) == (o.live(j) && o.is_desc(j, r)),
            forall|j: int| 0 <= j < o.n() && !mark[j] ==> s.node(j) == (#[trigger] mid.node(j)),
            forall|j: int|
                0 <= j < o.n() && mark[j] ==> !s.node(j).live && s.node(j).path@ == (
                #[trigger] mid.node(j)).path@,
            forall|j: int|
                0 <= j < o.n() ==> mid.live(j) == o.live(j) && (#[trigger] mid.node(j)).path@
                    == o.node(j).path@ && mid.node(j).name@ == o.node(j).name@ && mid.node(j).kind
                    == o.node(j).kind && mid.node(j).size_state == o.node(j).size_state
                    && mid.node(j).scan_state == o.node(j).scan_state,
            forall|j: int|
                0 <= j < o.n() && j != r && j != opt_idx(o.node(r).parent) ==> (
                #[trigger] mid.node(j)) == o.node(j),
            mid.node(r).children@ == o.node(r).children@,
            o.node(r).parent is Some ==> mid.node(r).parent is None && !mark[opt_idx(
                o.node(r).parent,
            )] && (exists|k: int|
                0 <= k < o.node(opt_idx(o.node(r).parent)).children@.len() && o.node(
                    opt_idx(o.node(r).parent),
                ).children@[k] == (r as usize) && mid.node(opt_idx(o.node(r).parent)).children@
                    == o.node(opt_idx(o.node(r).parent)).children@.remove(k) && mid.node(
                    opt_idx(o.node(r).parent),
                ).parent == o.node(opt_idx(o.node(r).parent)).parent),
            o.node(r).parent is None ==> mid == o,
            s.tombs@.len() == o.tombs@.len() + rem.len(),
            s.tombs@.subrange(0, o.tombs@.len() as int) == o.tombs@,
            forall|j: int|
                0 <= j < rem.len() ==> (#[trigger] s.tombs@[o.tombs@.len() + j]).path@
                    == rem[j].path@ && s.tombs@[o.tombs@.len() + j].stamp == stamp,
            s.deltas@.len() == o.deltas@.len() + rem.len(),
            s.deltas@.subrange(0, o.deltas@.len() as int) == o.deltas@,
            forall|j: int|
                0 <= j < rem.len() ==> ((#[trigger] s.deltas@[o.deltas@.len() + j])
                    matches Delta::NodeRemoved(q) && q@ == rem[j].path@),
            wits.len() == rem.len(),
            forall|j: int|
                0 <= j < rem.len() ==> 0 <= (#[trigger] wits[j]) && wits[j] < o.n()
                    && mark[wits[j]] && o.node(wits[j]).path@ == rem[j].path@ && rem[j].known
                    == known_part(o.node(wits[j]).size_state),
            forall|j: int, k2: int| 0 <= j < k2 < wits.len() ==> wits[j] < wits[k2],
            forall|t: int|
                0 <= t < o.n() && (#[trigger] mark[t]) ==> rev.dom().contains(t) && 0 <= rev[t]
                    < rem.len() && rem[rev[t]].path@ == o.node(t).path@ && rem[rev[t]].known
                    == known_part(o.node(t).size_state),
        ensures
            s.wf(),
            TreeStore::removal_ok(o, s, p, stamp, rem),
    {
            // the final store is well-formed
            assert forall|j: int| #[trigger] s.live(j) implies s.parent_ok(j) && s.children_ok(
                j,
            ) by {
                assert(!mark[j] && s.node(j) == mid.node(j));
                assert(mid.live(j));
                assert(mid.parent_ok(j));
                assert(mid.children_ok(j));
                assert(o.live(j) && !o.is_desc(j, r));
                match mid.node(j).parent {
                    Some(p) => {
                        let pi = p as int;
                        assert(pi < j && mid.live(pi));
                        if j != r {
                            assert(o.node(j).parent == mid.node(j).parent) by {
                                if j != opt_idx(o.node(r).parent) {
                                    assert(mid.node(j) == o.node(j));
                                }
                            }
                            assert(o.parent_ok(j));
                            if o.is_desc(pi, r) {
                                assert(o.is_desc(j, r));
                            }
                            assert(!mark[pi]);
                            assert(s.node(pi) == mid.node(pi));
                            assert(s.node(pi).children@.contains(j as usize));
                        } else {
                            assert(mark[r]);
                            assert(false);
                        }
                    },
                    None => {},
                }
                let cs = s.node(j).children@;
                assert(cs == mid.node(j).children@);
                assert forall|l: int| 0 <= l < cs.len() implies s.child_link_ok(
                    j,
                    #[trigger] cs[l],
                ) by {
                    assert(mid.child_link_ok(j, cs[l]));
                    let ci = cs[l] as int;
                    assert(mid.node(ci).parent == Some((j as usize)));
                    if ci == r {
                        if o.node(r).parent is None {
                            assert(mid == o);
                            assert(o.node(r).parent == Some((j as usize)));
                            assert(false);
                        } else {
                            assert(mid.node(r).parent is None);
                            assert(false);
                        }
                    }
                    assert(o.node(ci).parent == mid.node(ci).parent) by {
                        if ci != opt_idx(o.node(r).parent) {
                            assert(mid.node(ci) == o.node(ci));
                        }
                    }
                    if o.is_desc(ci, r) {
                        assert(ci == r || o.is_desc(j, r));
                    }
                    assert(!mark[ci]);
                    assert(s.node(ci) == mid.node(ci));
                }
            }
            assert forall|a: int, b: int|
                #![trigger s.node(a).path@, s.node(b).path@]
                s.live(a) && s.live(b) && a != b implies s.node(a).path@ != s.node(b).path@ by {
                assert(!mark[a] && !mark[b]);
                assert(s.node(a) == mid.node(a) && s.node(b) == mid.node(b));
                assert(o.live(a) && o.live(b));
                assert(o.node(a).path@ != o.node(b).path@);
            }
            // the removal contract
            assert forall|t: int| 0 <= t < o.n() implies ((#[trigger] s.live(t)) <==> o.live(t)
                && !o.is_desc(t, r)) by {
                if mark[t] {
                    assert(!s.node(t).live);
                } else {
                    assert(s.node(t) == mid.node(t));
                }
            }
            assert forall|t: int| 0 <= t < o.n() implies (#[trigger] s.node(t).path@) == o.node(
                t,
            ).path@ by {
                if mark[t] {
                } else {
                    assert(s.node(t) == mid.node(t));
                }
            }
            assert forall|t: int|
                #[trigger] s.live(t) && t != opt_idx(o.node(r).parent) implies s.node(t) == o.node(
                t,
            ) by {
                assert(!mark[t]);
                assert(s.node(t) == mid.node(t));
                assert(t != r);
                assert(mid.node(t) == o.node(t));
            }
            if o.node(r).parent is Some {
                let ppi = opt_idx(o.node(r).parent);
                assert(!mark[ppi]);
                assert(s.node(ppi) == mid.node(ppi));
                assert(o.live(ppi)) by {
                    assert(o.parent_ok(r));
                }
                assert(s.live(ppi));
            }
            assert forall|t: int|
                #![trigger o.is_desc(t, r)]
                o.live(t) && o.is_desc(t, r) implies exists|j: int|
                    #![trigger rem[j]]
                    0 <= j < rem.len() && rem[j].path@ == o.node(t).path@ && rem[j].known
                        == known_part(o.node(t).size_state) by {
                lemma_desc_ge(o, t, r);
                assert(mark[t]);
                let j = rev[t];
                assert(0 <= j < rem.len() && rem[j].path@ == o.node(t).path@ && rem[j].known
                    == known_part(o.node(t).size_state));
            }
            assert forall|j: int, k2: int|
                0 <= j < k2 < rem.len() implies (#[trigger] rem[j]).path@ != (
            #[trigger] rem[k2]).path@ by {
                let t1 = wits[j];
                let t2 = wits[k2];
                assert(t1 < t2);
                assert(o.live(t1) && o.live(t2));
                assert(o.node(t1).path@ != o.node(t2).path@);
            }
            assert forall|t: int| 0 <= t < o.n() implies !(s.live(t) && s.node(t).path@
                == p) by {
                if s.live(t) {
                    assert(o.live(t) && !o.is_desc(t, r));
                    assert(t != r);
                    if s.node(t).path@ == p {
                        assert(o.node(t).path@ == o.node(r).path@);
                        assert(false);
                    }
                }
            }
            assert(!s.has_path(p));
        assert forall|j: int|
            #![trigger rem[j]]
            0 <= j < rem.len() implies exists|t: int|
                #![trigger o.node(t).path@]
                o.live(t) && o.is_desc(t, r) && o.node(t).path@ == rem[j].path@ && rem[j].known
                    == known_part(o.node(t).size_state) by {
            let t = wits[j];
            assert(mark[t]);
            assert(o.live(t) && o.is_desc(t, r));
            assert(o.node(t).path@ == rem[j].path@ && rem[j].known == known_part(
                o.node(t).size_state,
            ));
        }
    }

    /// Kills every flagged slot: clears its `live` bit, records a
    /// tombstone and a removal delta, and returns the flagged paths
    /// with their `Known` contributions, in arena order.
    #[verifier::loop_isolation(false)]
    #[verifier::rlimit(100)]
    fn sweep_marked(
        &mut self,
        mark: &Vec<bool>,
        stamp: u64,
        Ghost(o): Ghost<TreeStore>,
        Ghost(r): Ghost<int>,
    ) -> (res: (Vec<Removed>, Ghost<Seq<int>>, Ghost<Map<int, int>>))
        requires
            o.wf(),
            old(self).n() == o.n(),
            mark@.len() == o.n(),
            0 <= r < o.n(),
            o.live(r),
            forall|j: int|
                0 <= j < o.n() ==> (#[trigger] mark@[j]) == (o.live(j) && o.is_desc(j, r)),
            forall|j: int|
                0 <= j < o.n() ==> (#[trigger] old(self).node(j)).path@ == o.node(j).path@ && old(
                    self,
                ).node(j).size_state == o.node(j).size_state,
            old(self).tombs@ == o.tombs@,
            old(self).deltas@ == o.deltas@,
        ensures
            ({
                let removed = res.0;
                let wits = res.1@;
                let rev = res.2@;
                &&& final(self).n() == o.n()
                &&& final(self).clock >= old(self).clock
                &&& final(self).tombs@.len() == o.tombs@.len() + removed@.len()
                &&& final(self).tombs@.subrange(0, o.tombs@.len() as int) == o.tombs@
                &&& forall|j: int|
                    0 <= j < removed@.len() ==> (#[trigger] final(self).tombs@[o.tombs@.len()
                        + j]).path@ == removed@[j].path@ && final(self).tombs@[o.tombs@.len()
                        + j].stamp == stamp
                &&& final(self).deltas@.len() == o.deltas@.len() + removed@.len()
                &&& final(self).deltas@.subrange(0, o.deltas@.len() as int) == o.deltas@
                &&& forall|j: int|
                    0 <= j < removed@.len() ==> ((#[trigger] final(self).deltas@[o.deltas@.len()
                        + j]) matches Delta::NodeRemoved(q) && q@ == removed@[j].path@)
                &&& forall|j: int|
                    0 <= j < o.n() && !mark@[j] ==> final(self).node(j) == (#[trigger] old(
                        self,
                    ).node(j))
                &&& forall|j: int|
                    0 <= j < o.n() && mark@[j] ==> !final(self).node(j).live && final(self).node(
                        j,
                    ).path@ == (#[trigger] old(self).node(j)).path@
                &&& wits.len() == removed@.len()
                &&& forall|j: int|
                    0 <= j < removed@.len() ==> 0 <= (#[trigger] wits[j]) && wits[j] < o.n()
                        && mark@[wits[j]] && o.node(wits[j]).path@ == removed@[j].path@
                        && removed@[j].known == known_part(o.node(wits[j]).size_state)
                &&& forall|j: int, k2: int| 0 <= j < k2 < wits.len() ==> wits[j] < wits[k2]
                &&& forall|t: int|
                    0 <= t < o.n() && (#[trigger] mark@[t]) ==> rev.dom().contains(t) && 0
                        <= rev[t] < removed@.len() && removed@[rev[t]].path@ == o.node(t).path@
                        && removed@[rev[t]].known == known_part(o.node(t).size_state)
            }),
    {
        let n = self.nodes.len();
        let g = self.clock;
        self.clock = crate::sat_add_u64(self.clock, 1);
        let mut removed: Vec<Removed> = Vec::new();
        let ghost mut wits: Seq<int> = Seq::empty();
        let ghost mut rev: Map<int, int> = Map::empty();
        let mut i: usize = 0;
        while i < n
            invariant
                0 <= i <= n,
                n == o.n(),
                self.n() == n,
                self.clock >= old(self).clock,
                forall|j: int| i <= j < n ==> self.node(j) == (#[trigger] old(self).node(j)),
                forall|j: int|
                    0 <= j < i && !mark@[j] ==> self.node(j) == (#[trigger] old(self).node(j)),
                forall|j: int|
                    0 <= j < i && mark@[j] ==> !self.node(j).live && self.node(j).path@ == (
                    #[trigger] old(self).node(j)).path@,
                self.tombs@.len() == o.tombs@.len() + removed@.len(),
                self.tombs@.subrange(0, o.tombs@.len() as int) == o.tombs@,
                forall|j: int|
                    0 <= j < removed@.len() ==> (#[trigger] self.tombs@[o.tombs@.len() + j]).path@
                        == removed@[j].path@ && self.tombs@[o.tombs@.len() + j].stamp == stamp,
                self.deltas@.len() == o.deltas@.len() + removed@.len(),
                self.deltas@.subrange(0, o.deltas@.len() as int) == o.deltas@,
                forall|j: int|
                    0 <= j < removed@.len() ==> ((#[trigger] self.deltas@[o.deltas@.len() + j])
                        matches Delta::NodeRemoved(q) && q@ == removed@[j].path@),
                wits.len() == removed@.len(),
                forall|j: int|
                    0 <= j < removed@.len() ==> 0 <= (#[trigger] wits[j]) && wits[j] < i
                        && mark@[wits[j]] && o.node(wits[j]).path@ == removed@[j].path@
                        && removed@[j].known == known_part(o.node(wits[j]).size_state),
                forall|j: int, k2: int| 0 <= j < k2 < wits.len() ==> wits[j] < wits[k2],
                forall|t: int|
                    0 <= t < i && (#[trigger] mark@[t]) ==> rev.dom().contains(t) && 0 <= rev[t]
                        < removed@.len() && removed@[rev[t]].path@ == o.node(t).path@
                        && removed@[rev[t]].known == known_part(o.node(t).size_state),
            decreases n - i,
        {
            if mark[i] {
                proof {
                    assert(self.node(i as int) == old(self).node(i as int));
                }
                let ghost removed0 = removed@;
                let p1 = clone_bytes(&self.nodes[i].path);
                let p2 = clone_bytes(&self.nodes[i].path);
                let p3 = clone_bytes(&self.nodes[i].path);
                let kp = known_part_of(self.nodes[i].size_state);
                removed.push(Removed { path: p1, known: kp });
                self.tombs.push(Tomb { path: p2, stamp });
                self.deltas.push(Delta::NodeRemoved(p3));
                self.nodes[i].live = false;
                self.nodes[i].generation = g;
                proof {
                    let ii = i as int;
                    assert(p1@ == o.node(ii).path@ && kp == known_part(o.node(ii).size_state));
                    wits = wits.push(ii);
                    rev = rev.insert(ii, removed@.len() - 1);
                    assert(self.tombs@.subrange(0, o.tombs@.len() as int) =~= o.tombs@);
                    assert(self.deltas@.subrange(0, o.deltas@.len() as int) =~= o.deltas@);
                    assert forall|j: int| ii + 1 <= j < n implies self.node(j) == (
                    #[trigger] old(self).node(j)) by {
                        assert(self.nodes@[j] == old(self).nodes@[j]);
                    }
                    assert forall|j: int| 0 <= j < ii && !mark@[j] implies self.node(j) == (
                    #[trigger] old(self).node(j)) by {
                        assert(self.nodes@[j] == old(self).nodes@[j]);
                    }
                    assert(wits[wits.len() - 1] == ii);
                    assert(removed@[removed@.len() - 1].path@ == o.node(ii).path@);
                    assert(rev[ii] == removed@.len() - 1);
                }
            }
            i = i + 1;
        }
        (removed, Ghost(wits), Ghost(rev))
    }

    /// Removes the node at `path` and every descendant, tombstoning
    /// each removed path with `stamp` and returning exactly what was
    /// removed. A path that is not present leaves the store untouched.
    #[verifier::loop_isolation(false)]
    #[verifier::rlimit(100)]
    pub fn remove_subtree(&mut self, path: &Vec<u8>, stamp: u64) -> (removed: Vec<Removed>)
        requires
            old(self).wf(),
        ensures
            final(self).wf(),
            final(self).clock >= old(self).clock,
            !old(self).has_path(path@) ==> *final(self) == *old(self) && removed@.len() == 0,
            old(self).has_path(path@) ==> TreeStore::removal_ok(
                *old(self),
                *final(self),
                path@,
                stamp,
                removed@,
            ),
    {
        let root = match self.lookup(path) {
            None => {
                return Vec::new();
            },
            Some(i) => i,
        };
        let ghost o = *old(self);
        let ghost r = root as int;
        proof {
            assert(o.idx_of(path@) == r);
        }
        let mark = self.mark_subtree(root);
        let has_parent = match self.nodes[root].parent {
            Some(_) => true,
            None => false,
        };
        if has_parent {
            self.detach_root(root);
        }
        let ghost mid = *self;
        proof {
            assert(o.parent_ok(r));
            if o.node(r).parent is Some {
                let ppi = opt_idx(o.node(r).parent);
                if o.is_desc(ppi, r) {
                    lemma_desc_ge(o, ppi, r);
                }
                assert(!mark@[ppi]);
            }
            assert(mid.tombs@ == o.tombs@ && mid.deltas@ == o.deltas@);
            assert forall|j: int| 0 <= j < o.n() implies mid.live(j) == o.live(j) && (
            #[trigger] mid.node(j)).path@ == o.node(j).path@ && mid.node(j).name@ == o.node(
                j,
            ).name@ && mid.node(j).kind == o.node(j).kind && mid.node(j).size_state == o.node(
                j,
            ).size_state && mid.node(j).scan_state == o.node(j).scan_state by {
                if j != r && j != opt_idx(o.node(r).parent) {
                    assert(mid.node(j) == o.node(j));
                }
            }
        }
        proof {
            assert forall|j: int| 0 <= j < o.n() implies (#[trigger] mark@[j]) == (o.live(j)
                && o.is_desc(j, r)) by {
                assert(mark@[j] == (old(self).live(j) && old(self).is_desc(j, root as int)));
            }
            assert forall|j: int| 0 <= j < o.n() implies (#[trigger] self.node(j)).path@ == o.node(
                j,
            ).path@ && self.node(j).size_state == o.node(j).size_state by {
                if j != r && j != opt_idx(o.node(r).parent) {
                    assert(mid.node(j) == o.node(j));
                }
                assert(self.node(j) == mid.node(j));
            }
        }
        let (removed, sweep_wits, sweep_rev) = self.sweep_marked(&mark, stamp, Ghost(o), Ghost(r));
        proof {
            Self::lemma_removal_final(
                o,
                mid,
                *self,
                mark@,
                removed@,
                path@,
                stamp,
                r,
                sweep_wits@,
                sweep_rev@,
            );
        }
        removed
    }
}

} // verus!
