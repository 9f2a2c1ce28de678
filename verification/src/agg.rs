//! Incremental size aggregation.
//!
//! File sizes are set the moment they are known; a directory's size
//! state is recomputed from its children's current states and the
//! change climbs the parent chain until a recomputation leaves a
//! node's state unchanged.

use vstd::prelude::*;

use crate::node::dir_target;
use crate::node::known_part;
use crate::node::known_part_of;
use crate::node::lemma_sum_known_exact;
use crate::node::sum_known;
use crate::node::sum_known_int;
use crate::node::NodeKind;
use crate::node::ScanState;
use crate::node::SizeState;
use crate::store::clone_bytes;
use crate::store::Delta;
use crate::store::TreeStore;

verus! {

/// The size states of slot `i`'s children, in child-list order.
pub open spec fn child_states(s: TreeStore, i: int) -> Seq<SizeState> {
    s.node(i).children@.map_values(|c: usize| s.node(c as int).size_state)
}

/// Summing one more state adds that state's contribution.
proof fn lemma_sum_known_step(cs: Seq<SizeState>, k: int)
    requires
        0 <= k < cs.len(),
    ensures
        sum_known(cs.take(k + 1)) == crate::spec_sat_add(sum_known(cs.take(k)), known_part(cs[k])),
{
    assert(cs.take(k + 1).drop_last() =~= cs.take(k));
    assert(cs.take(k + 1).last() == cs[k]);
}


/// Climbing one parent link preserves ancestry: the parent of a node
/// on `i`'s ancestor chain is on the chain as well.
proof fn lemma_desc_parent(s: TreeStore, i: int, c: int, p: usize)
    requires
        s.wf(),
        0 <= i,
        s.is_desc(i, c),
        s.live(c),
        s.node(c).parent == Some(p),
    ensures
        s.is_desc(i, p as int),
    decreases i,
{
    if i == c {
        assert(s.parent_ok(c));
        assert(s.is_desc(p as int, p as int));
    } else {
        match s.node(i).parent {
            Some(q) => {
                if (q as int) < i && q as int >= 0 {
                    lemma_desc_parent(s, q as int, c, p);
                }
            },
            None => {},
        }
    }
}

/// A directory's children all sit at larger arena indices, so a
/// change confined to a slot at or before the directory leaves the
/// children's size states untouched.
proof fn lemma_same_child_states(a: TreeStore, b: TreeStore, d: int, ch: int)
    requires
        a.wf(),
        a.live(d),
        b.n() == a.n(),
        ch <= d,
        b.node(d).children@ == a.node(d).children@,
        forall|j: int| 0 <= j < a.n() && j != ch ==> (#[trigger] b.node(j)) == a.node(j),
    ensures
        child_states(b, d) == child_states(a, d),
{
    assert(a.children_ok(d));
    let ca = a.node(d).children@;
    assert forall|k: int|
        0 <= k < ca.len() implies b.node(ca[k] as int).size_state == a.node(
        ca[k] as int,
    ).size_state by {
        assert(a.child_link_ok(d, ca[k]));
        assert((ca[k] as int) != ch);
    }
    assert(child_states(b, d) =~= child_states(a, d));
}

impl TreeStore {
    /// All fields of every node except slot `i`'s size state and
    /// generation are the same in `s` as in `o`, and slot `i` keeps
    /// its identity, links and scan progress.
    pub open spec fn only_size_changed(o: TreeStore, s: TreeStore, i: int) -> bool {
        &&& s.n() == o.n()
        &&& forall|j: int| 0 <= j < o.n() && j != i ==> (#[trigger] s.node(j)) == o.node(j)
        &&& s.node(i).path@ == o.node(i).path@
        &&& s.node(i).name@ == o.node(i).name@
        &&& s.node(i).kind == o.node(i).kind
        &&& s.node(i).scan_state == o.node(i).scan_state
        &&& s.node(i).children@ == o.node(i).children@
        &&& s.node(i).parent == o.node(i).parent
        &&& s.node(i).live == o.node(i).live
        &&& s.tombs@ == o.tombs@
    }

    /// Recomputes the directory at `i` from its children's current
    /// size states: exact once the directory is scanned and every
    /// child is exact, else the partial sum of the exact children.
    /// Returns whether the state changed; a change is logged for
    /// subscribers.
    pub fn recompute_size(&mut self, i: usize) -> (changed: bool)
        requires
            old(self).wf(),
            old(self).live(i as int),
            old(self).node(i as int).kind is Directory,
        ensures
            final(self).wf(),
            TreeStore::only_size_changed(*old(self), *final(self), i as int),
            final(self).node(i as int).size_state == dir_target(
                old(self).node(i as int).scan_state,
                child_states(*old(self), i as int),
            ),
            changed == (final(self).node(i as int).size_state != old(self).node(
                i as int,
            ).size_state),
            changed ==> final(self).deltas@.len() == old(self).deltas@.len() + 1 && final(self).deltas@.subrange(0, old(self).deltas@.len() as int) == old(self).deltas@ && (final(self).deltas@.last() matches Delta::SizeUpdated(q) && q@ == final(self).node(
                i as int,
            ).path@),
            changed ==> final(self).node(i as int).generation == old(self).clock && final(self).clock == crate::spec_sat_add(old(self).clock, 1),
            !changed ==> final(self).deltas@ == old(self).deltas@ && final(self).clock == old(self).clock && final(self).node(i as int).generation == old(self).node(
                i as int,
            ).generation,
    {
        proof {
            assert(old(self).children_ok(i as int));
        }
        let cn = self.nodes[i].children.len();
        let mut sum: u64 = 0;
        let mut all_known = true;
        let mut k: usize = 0;
        while k < cn
            invariant
                old(self).wf(),
                old(self).live(i as int),
                *self == *old(self),
                0 <= k <= cn,
                cn == self.node(i as int).children@.len(),
                sum == sum_known(child_states(*old(self), i as int).take(k as int)),
                all_known == (forall|l: int|
                    0 <= l < k ==> child_states(*old(self), i as int)[l] is Known),
            decreases cn - k,
        {
            proof {
                assert(old(self).children_ok(i as int));
                assert(old(self).child_link_ok(
                    i as int,
                    old(self).node(i as int).children@[k as int],
                ));
                lemma_sum_known_step(child_states(*old(self), i as int), k as int);
            }
            let c = self.nodes[i].children[k];
            let st = self.nodes[c].size_state;
            proof {
                assert(st == child_states(*old(self), i as int)[k as int]);
            }
            sum = crate::sat_add_u64(sum, known_part_of(st));
            let is_known = match st {
                SizeState::Known(_) => true,
                _ => false,
            };
            if !is_known {
                all_known = false;
            }
            k = k + 1;
        }
        proof {
            assert(child_states(*old(self), i as int).take(cn as int) =~= child_states(
                *old(self),
                i as int,
            ));
        }
        let scanned = match self.nodes[i].scan_state {
            ScanState::Scanned => true,
            _ => false,
        };
        let new_state = if scanned && all_known {
            SizeState::Known(sum)
        } else {
            SizeState::Partial(sum)
        };
        let changed = !(new_state == self.nodes[i].size_state);
        if changed {
            let g = self.clock;
            self.clock = crate::sat_add_u64(self.clock, 1);
            let delta_path = clone_bytes(&self.nodes[i].path);
            self.nodes[i].size_state = new_state;
            self.nodes[i].generation = g;
            self.deltas.push(Delta::SizeUpdated(delta_path));
        }
        proof {
            let s = *self;
            let o = *old(self);
            assert forall|j: int| #[trigger] s.live(j) implies s.parent_ok(j) && s.children_ok(
                j,
            ) by {
                assert(o.live(j));
                assert(o.parent_ok(j));
                assert(o.children_ok(j));
                let cs = s.node(j).children@;
                assert(cs == o.node(j).children@);
                assert forall|l: int| 0 <= l < cs.len() implies s.child_link_ok(
                    j,
                    #[trigger] cs[l],
                ) by {
                    assert(o.child_link_ok(j, cs[l]));
                }
            }
            assert forall|a: int, b: int|
                #![trigger s.node(a).path@, s.node(b).path@]
                s.live(a) && s.live(b) && a != b implies s.node(a).path@ != s.node(b).path@ by {
                assert(o.live(a) && o.live(b));
                assert(o.node(a).path@ != o.node(b).path@);
            }
            if changed {
                assert(s.deltas@.subrange(0, o.deltas@.len() as int) =~= o.deltas@);
            }
        }
        changed
    }

    /// Sets the size of the non-directory leaf at `i` to the exact
    /// value just read, and logs the change.
    pub fn set_leaf_size(&mut self, i: usize, size: u64)
        requires
            old(self).wf(),
            old(self).live(i as int),
            !(old(self).node(i as int).kind is Directory),
        ensures
            final(self).wf(),
            TreeStore::only_size_changed(*old(self), *final(self), i as int),
            final(self).node(i as int).size_state == SizeState::Known(size),
            final(self).node(i as int).generation == old(self).clock,
            final(self).clock == crate::spec_sat_add(old(self).clock, 1),
            final(self).deltas@.len() == old(self).deltas@.len() + 1,
            final(self).deltas@.subrange(0, old(self).deltas@.len() as int) == old(self).deltas@,
            (final(self).deltas@.last() matches Delta::SizeUpdated(q) && q@ == final(self).node(
                i as int,
            ).path@),
    {
        let g = self.clock;
        self.clock = crate::sat_add_u64(self.clock, 1);
        let delta_path = clone_bytes(&self.nodes[i].path);
        self.nodes[i].size_state = SizeState::Known(size);
        self.nodes[i].generation = g;
        self.deltas.push(Delta::SizeUpdated(delta_path));
        proof {
            let s = *self;
            let o = *old(self);
            assert(s.deltas@.subrange(0, o.deltas@.len() as int) =~= o.deltas@);
            assert forall|j: int| #[trigger] s.live(j) implies s.parent_ok(j) && s.children_ok(
                j,
            ) by {
                assert(o.live(j));
                assert(o.parent_ok(j));
                assert(o.children_ok(j));
                let cs = s.node(j).children@;
                assert(cs == o.node(j).children@);
                assert forall|l: int| 0 <= l < cs.len() implies s.child_link_ok(
                    j,
                    #[trigger] cs[l],
                ) by {
                    assert(o.child_link_ok(j, cs[l]));
                }
            }
            assert forall|a: int, b: int|
                #![trigger s.node(a).path@, s.node(b).path@]
                s.live(a) && s.live(b) && a != b implies s.node(a).path@ != s.node(b).path@ by {
                assert(o.live(a) && o.live(b));
                assert(o.node(a).path@ != o.node(b).path@);
            }
        }
    }

    /// Marks the node at `i` with the reason its size is unknown; an
    /// errored node contributes zero to every ancestor's sum.
    pub fn set_errored(&mut self, i: usize, reason: crate::node::ErrReason)
        requires
            old(self).wf(),
            old(self).live(i as int),
        ensures
            final(self).wf(),
            TreeStore::only_size_changed(*old(self), *final(self), i as int),
            final(self).node(i as int).size_state == SizeState::Errored(reason),
            final(self).node(i as int).generation == old(self).clock,
            final(self).clock == crate::spec_sat_add(old(self).clock, 1),
            final(self).deltas@.len() == old(self).deltas@.len() + 1,
            final(self).deltas@.subrange(0, old(self).deltas@.len() as int) == old(self).deltas@,
            (final(self).deltas@.last() matches Delta::SizeUpdated(q) && q@ == final(self).node(
                i as int,
            ).path@),
    {
        let g = self.clock;
        self.clock = crate::sat_add_u64(self.clock, 1);
        let delta_path = clone_bytes(&self.nodes[i].path);
        self.nodes[i].size_state = SizeState::Errored(reason);
        self.nodes[i].generation = g;
        self.deltas.push(Delta::SizeUpdated(delta_path));
        proof {
            let s = *self;
            let o = *old(self);
            assert(s.deltas@.subrange(0, o.deltas@.len() as int) =~= o.deltas@);
            assert forall|j: int| #[trigger] s.live(j) implies s.parent_ok(j) && s.children_ok(
                j,
            ) by {
                assert(o.live(j));
                assert(o.parent_ok(j));
                assert(o.children_ok(j));
                let cs = s.node(j).children@;
                assert(cs == o.node(j).children@);
                assert forall|l: int| 0 <= l < cs.len() implies s.child_link_ok(
                    j,
                    #[trigger] cs[l],
                ) by {
                    assert(o.child_link_ok(j, cs[l]));
                }
            }
            assert forall|a: int, b: int|
                #![trigger s.node(a).path@, s.node(b).path@]
                s.live(a) && s.live(b) && a != b implies s.node(a).path@ != s.node(b).path@ by {
                assert(o.live(a) && o.live(b));
                assert(o.node(a).path@ != o.node(b).path@);
            }
        }
    }

    /// Sets how far scanning of the node at `i` has progressed.
    pub fn set_scan_state(&mut self, i: usize, st: ScanState)
        requires
            old(self).wf(),
            old(self).live(i as int),
        ensures
            final(self).wf(),
            final(self).n() == old(self).n(),
            forall|j: int|
                0 <= j < old(self).n() && j != i ==> (#[trigger] final(self).node(j)) == old(self).node(j),
            final(self).node(i as int).scan_state == st,
            final(self).node(i as int).generation == old(self).clock,
            final(self).clock == crate::spec_sat_add(old(self).clock, 1),
            final(self).node(i as int).path@ == old(self).node(i as int).path@,
            final(self).node(i as int).name@ == old(self).node(i as int).name@,
            final(self).node(i as int).kind == old(self).node(i as int).kind,
            final(self).node(i as int).size_state == old(self).node(i as int).size_state,
            final(self).node(i as int).children@ == old(self).node(i as int).children@,
            final(self).node(i as int).parent == old(self).node(i as int).parent,
            final(self).node(i as int).live == old(self).node(i as int).live,
            final(self).tombs@ == old(self).tombs@,
            final(self).deltas@ == old(self).deltas@,
    {
        let g = self.clock;
        self.clock = crate::sat_add_u64(self.clock, 1);
        self.nodes[i].scan_state = st;
        self.nodes[i].generation = g;
        proof {
            let s = *self;
            let o = *old(self);
            assert forall|j: int| #[trigger] s.live(j) implies s.parent_ok(j) && s.children_ok(
                j,
            ) by {
                assert(o.live(j));
                assert(o.parent_ok(j));
                assert(o.children_ok(j));
                let cs = s.node(j).children@;
                assert(cs == o.node(j).children@);
                assert forall|l: int| 0 <= l < cs.len() implies s.child_link_ok(
                    j,
                    #[trigger] cs[l],
                ) by {
                    assert(o.child_link_ok(j, cs[l]));
                }
            }
            assert forall|a: int, b: int|
                #![trigger s.node(a).path@, s.node(b).path@]
                s.live(a) && s.live(b) && a != b implies s.node(a).path@ != s.node(b).path@ by {
                assert(o.live(a) && o.live(b));
                assert(o.node(a).path@ != o.node(b).path@);
            }
        }
    }

    /// Climbs from `i` towards the root, recomputing each directory
    /// from its children's current states, and stops as soon as a
    /// recomputation leaves a node's state unchanged. Only size
    /// states and generations move; structure, scan progress and
    /// tombstones stay put.
    pub fn propagate_up(&mut self, i: usize)
        requires
            old(self).wf(),
            old(self).live(i as int),
        ensures
            final(self).wf(),
            final(self).n() == old(self).n(),
            forall|j: int|
                0 <= j < old(self).n() ==> (#[trigger] final(self).node(j)).path@ == old(self).node(j).path@ && final(self).node(j).name@ == old(self).node(j).name@ && final(self).node(j).kind == old(self).node(j).kind && final(self).node(j).scan_state == old(self).node(j).scan_state && final(self).node(j).children@ == old(self).node(
                    j,
                ).children@ && final(self).node(j).parent == old(self).node(j).parent && final(self).node(j).live == old(self).node(j).live,
            forall|j: int|
                0 <= j < old(self).n() && !old(self).is_desc(i as int, j) ==> (#[trigger] final(self).node(j)) == old(self).node(j),
            final(self).tombs@ == old(self).tombs@,
            final(self).clock >= old(self).clock,
            old(self).node(i as int).kind is Directory ==> final(self).node(i as int).size_state
                == dir_target(
                old(self).node(i as int).scan_state,
                child_states(*final(self), i as int),
            ),
            (!(old(self).node(i as int).kind is Directory) && old(self).node(
                i as int,
            ).parent is Some) ==> ({
                let p = crate::remove::opt_idx(old(self).node(i as int).parent);
                final(self).node(p).size_state == dir_target(
                    old(self).node(p).scan_state,
                    child_states(*final(self), p),
                )
            }),
    {
        let ghost o = *old(self);
        let is_dir_i = match self.nodes[i].kind {
            NodeKind::Directory => true,
            _ => false,
        };
        let d: usize;
        if is_dir_i {
            d = i;
        } else {
            match self.nodes[i].parent {
                Some(p) => {
                    proof {
                        assert(o.parent_ok(i as int));
                    }
                    d = p;
                },
                None => {
                    return ;
                },
            }
        }
        proof {
            assert(o.is_desc(i as int, i as int));
            if !is_dir_i {
                lemma_desc_parent(o, i as int, i as int, d);
            }
            assert(o.is_desc(i as int, d as int));
            assert(o.live(d as int) && o.node(d as int).kind is Directory);
        }
        let mut changed = self.recompute_size(d);
        proof {
            lemma_same_child_states(*old(self), *self, d as int, d as int);
        }
        let mut cur = d;
        while changed
            invariant
                self.wf(),
                self.n() == o.n(),
                0 <= (d as int) < o.n(),
                o.wf(),
                o.live(d as int),
                forall|j: int|
                    0 <= j < o.n() ==> (#[trigger] self.node(j)).path@ == o.node(j).path@
                        && self.node(j).name@ == o.node(j).name@ && self.node(j).kind == o.node(
                        j,
                    ).kind && self.node(j).scan_state == o.node(j).scan_state && self.node(
                        j,
                    ).children@ == o.node(j).children@ && self.node(j).parent == o.node(j).parent
                        && self.node(j).live == o.node(j).live,
                forall|j: int|
                    0 <= j < o.n() && !o.is_desc(i as int, j) ==> (#[trigger] self.node(j))
                        == o.node(j),
                self.tombs@ == o.tombs@,
                self.clock >= o.clock,
                self.live(cur as int),
                o.is_desc(i as int, cur as int),
                cur <= d,
                self.node(d as int).size_state == dir_target(
                    o.node(d as int).scan_state,
                    child_states(*self, d as int),
                ),
            decreases cur, if changed {
                1int
            } else {
                0int
            },
        {
            match self.nodes[cur].parent {
                None => {
                    changed = false;
                },
                Some(p) => {
                    proof {
                        assert(self.parent_ok(cur as int));
                        assert(o.node(cur as int).parent == Some(p));
                        lemma_desc_parent(o, i as int, cur as int, p);
                    }
                    let ghost pre = *self;
                    let prev = cur;
                    cur = p;
                    changed = self.recompute_size(cur);
                    proof {
                        assert((p as int) < prev as int && prev as int <= d as int);
                        lemma_same_child_states(pre, *self, d as int, p as int);
                    }
                },
            }
        }
    }

    /// A directory whose recomputed state is exact carries, with no
    /// rounding, the sum of its children's exact sizes: every child is
    /// `Known` and the totals add up, as long as the true sum fits the
    /// word size.
    pub proof fn lemma_known_dir_sum(s: TreeStore, i: int)
        requires
            s.node(i).size_state == dir_target(s.node(i).scan_state, child_states(s, i)),
            s.node(i).size_state is Known,
            sum_known_int(child_states(s, i)) <= u64::MAX,
        ensures
            forall|k: int| 0 <= k < child_states(s, i).len() ==> child_states(s, i)[k] is Known,
            s.node(i).size_state == SizeState::Known(
                (sum_known_int(child_states(s, i)) as u64),
            ),
    {
        lemma_sum_known_exact(child_states(s, i));
    }
}

} // verus!
