//! The priority scheduler for pending directory scans.
//!
//! Tasks carry a tier — `0` interest-pinned, `1` recently viewed,
//! `2` background — and a submission number; the next task taken is
//! always of the best (lowest) tier present, first-come-first-served
//! within a tier. `set_interest` pins a path's node together with its
//! ancestors and its queued descendants, and background tasks age one
//! tier after a bounded wait so that no subtree starves.

use vstd::prelude::*;

use crate::store::TreeStore;

verus! {

/// The background tier, the lowest priority.
pub const TIER_BACKGROUND: u8 = 2;

/// The interest-pinned tier, the highest priority.
pub const TIER_PINNED: u8 = 0;

/// One pending "scan this directory" unit of work.
#[derive(Clone, Copy, PartialEq, Eq, Structural, Debug)]
pub struct Task {
    pub node: usize,
    pub tier: u8,
    pub seq: u64,
    pub wait: u64,
}

/// `a` is served no later than `b`: a better tier, or the same tier
/// and an earlier submission.
pub open spec fn lex_le(a: Task, b: Task) -> bool {
    a.tier < b.tier || (a.tier == b.tier && a.seq <= b.seq)
}

pub struct Scheduler {
    pub tasks: Vec<Task>,
    pub next_seq: u64,
    pub age_limit: u64,
}

impl Scheduler {
    /// A node already has a pending task.
    pub open spec fn queued(self, node: usize) -> bool {
        exists|k: int| 0 <= k < self.tasks@.len() && (#[trigger] self.tasks@[k]).node == node
    }

    /// Task `k` is served no later than every queued task.
    pub open spec fn is_best(ts: Seq<Task>, k: int) -> bool {
        0 <= k < ts.len() && forall|l: int| 0 <= l < ts.len() ==> lex_le(ts[k], #[trigger] ts[l])
    }

    /// An empty queue; background tasks age one tier after waiting
    /// `age_limit` rounds.
    pub fn new(age_limit: u64) -> (r: Scheduler)
        ensures
            r.tasks@.len() == 0,
            r.next_seq == 0,
            r.age_limit == age_limit,
    {
        Scheduler { tasks: Vec::new(), next_seq: 0, age_limit }
    }

    /// Submits a scan task for `node` at `tier` unless one is already
    /// queued, so no directory is ever scanned twice.
    pub fn enqueue(&mut self, node: usize, tier: u8) -> (added: bool)
        ensures
            added == !old(self).queued(node),
            !added ==> *final(self) == *old(self),
            added ==> final(self).tasks@ == old(self).tasks@.push(
                Task { node, tier, seq: old(self).next_seq, wait: 0 },
            ),
            final(self).queued(node),
            final(self).age_limit == old(self).age_limit,
    {
        let n = self.tasks.len();
        let mut k: usize = 0;
        while k < n
            invariant
                0 <= k <= n,
                n == self.tasks@.len(),
                forall|l: int| 0 <= l < k ==> (#[trigger] self.tasks@[l]).node != node,
            decreases n - k,
        {
            if self.tasks[k].node == node {
                return false;
            }
            k = k + 1;
        }
        let t = Task { node, tier, seq: self.next_seq, wait: 0 };
        self.next_seq = crate::sat_add_u64(self.next_seq, 1);
        self.tasks.push(t);
        proof {
            assert(self.tasks@[self.tasks@.len() - 1].node == node);
        }
        true
    }

    /// Takes the next task: one of the best tier present, earliest
    /// submission first. Returns nothing only when the queue is empty.
    pub fn pop_next(&mut self) -> (r: Option<Task>)
        ensures
            old(self).tasks@.len() == 0 ==> r is None && *final(self) == *old(self),
            old(self).tasks@.len() > 0 ==> match r {
                Some(t) => exists|k: int|
                    0 <= k < old(self).tasks@.len() && old(self).tasks@[k] == t
                        && Scheduler::is_best(old(self).tasks@, k) && final(self).tasks@ == old(
                        self,
                    ).tasks@.remove(k),
                None => false,
            },
            final(self).age_limit == old(self).age_limit,
    {
        let n = self.tasks.len();
        if n == 0 {
            return None;
        }
        let mut best: usize = 0;
        let mut k: usize = 1;
        while k < n
            invariant
                0 <= best < k <= n,
                n == self.tasks@.len(),
                *self == *old(self),
                forall|l: int|
                    0 <= l < k ==> lex_le(self.tasks@[best as int], #[trigger] self.tasks@[l]),
            decreases n - k,
        {
            let a = self.tasks[k];
            let b = self.tasks[best];
            if a.tier < b.tier || (a.tier == b.tier && a.seq < b.seq) {
                best = k;
            }
            k = k + 1;
        }
        let t = self.tasks[best];
        self.tasks.remove(best);
        proof {
            assert(old(self).tasks@[best as int] == t);
            assert(Scheduler::is_best(old(self).tasks@, best as int));
        }
        Some(t)
    }

    /// Promotes to the pinned tier the task of `target`, of each of
    /// its ancestors and of each queued node below it; every other
    /// task is untouched, and no task is lost.
    pub fn set_interest(&mut self, store: &TreeStore, target: usize)
        requires
            store.wf(),
        ensures
            final(self).tasks@.len() == old(self).tasks@.len(),
            forall|k: int|
                0 <= k < old(self).tasks@.len() ==> {
                    let ot = old(self).tasks@[k];
                    let nt = #[trigger] final(self).tasks@[k];
                    if store.is_desc(ot.node as int, target as int) || store.is_desc(
                        target as int,
                        ot.node as int,
                    ) {
                        nt == Task { tier: TIER_PINNED, ..ot }
                    } else {
                        nt == ot
                    }
                },
            final(self).next_seq == old(self).next_seq,
            final(self).age_limit == old(self).age_limit,
    {
        let n = self.tasks.len();
        let mut k: usize = 0;
        while k < n
            invariant
                0 <= k <= n,
                store.wf(),
                n == self.tasks@.len(),
                self.next_seq == old(self).next_seq,
                self.age_limit == old(self).age_limit,
                forall|l: int| k <= l < n ==> (#[trigger] self.tasks@[l]) == old(self).tasks@[l],
                forall|l: int|
                    0 <= l < k ==> {
                        let ot = old(self).tasks@[l];
                        let nt = #[trigger] self.tasks@[l];
                        if store.is_desc(ot.node as int, target as int) || store.is_desc(
                            target as int,
                            ot.node as int,
                        ) {
                            nt == Task { tier: TIER_PINNED, ..ot }
                        } else {
                            nt == ot
                        }
                    },
            decreases n - k,
        {
            let node = self.tasks[k].node;
            let related = is_descendant(store, node, target) || is_descendant(
                store,
                target,
                node,
            );
            if related {
                self.tasks[k].tier = TIER_PINNED;
            }
            k = k + 1;
        }
    }

    /// One aging round: every task waits one tick more, and a task
    /// that has waited `age_limit` ticks or longer climbs one tier and
    /// starts waiting afresh, so background work cannot starve.
    pub fn tick_age(&mut self)
        ensures
            final(self).tasks@.len() == old(self).tasks@.len(),
            forall|k: int|
                0 <= k < old(self).tasks@.len() ==> {
                    let ot = old(self).tasks@[k];
                    let w = crate::spec_sat_add(ot.wait, 1);
                    (#[trigger] final(self).tasks@[k]) == if ot.tier > 0 && w
                        >= old(self).age_limit {
                        Task { tier: (ot.tier - 1) as u8, wait: 0, ..ot }
                    } else {
                        Task { wait: w, ..ot }
                    }
                },
            final(self).next_seq == old(self).next_seq,
            final(self).age_limit == old(self).age_limit,
    {
        let n = self.tasks.len();
        let limit = self.age_limit;
        let mut k: usize = 0;
        while k < n
            invariant
                0 <= k <= n,
                n == self.tasks@.len(),
                limit == self.age_limit == old(self).age_limit,
                self.next_seq == old(self).next_seq,
                forall|l: int| k <= l < n ==> (#[trigger] self.tasks@[l]) == old(self).tasks@[l],
                forall|l: int|
                    0 <= l < k ==> {
                        let ot = old(self).tasks@[l];
                        let w = crate::spec_sat_add(ot.wait, 1);
                        (#[trigger] self.tasks@[l]) == if ot.tier > 0 && w >= old(
                            self,
                        ).age_limit {
                            Task { tier: (ot.tier - 1) as u8, wait: 0, ..ot }
                        } else {
                            Task { wait: w, ..ot }
                        }
                    },
            decreases n - k,
        {
            let w = crate::sat_add_u64(self.tasks[k].wait, 1);
            if self.tasks[k].tier > 0 && w >= limit {
                self.tasks[k].tier = self.tasks[k].tier - 1;
                self.tasks[k].wait = 0;
            } else {
                self.tasks[k].wait = w;
            }
            k = k + 1;
        }
    }

    /// While an interest-pinned task waits, no background task is ever
    /// the one served next: a path promoted by `set_interest` is
    /// scanned before an unpinned sibling submitted at any time.
    pub proof fn lemma_pinned_first(ts: Seq<Task>, i: int, j: int)
        requires
            0 <= i < ts.len(),
            0 <= j < ts.len(),
            ts[i].tier == TIER_PINNED,
            ts[j].tier > TIER_PINNED,
        ensures
            !Scheduler::is_best(ts, j),
    {
        assert(!lex_le(ts[j], ts[i]));
    }
}

/// Whether `x` is `anc` or lies below it, following parent links.
pub fn is_descendant(store: &TreeStore, x: usize, anc: usize) -> (r: bool)
    requires
        store.wf(),
    ensures
        r == store.is_desc(x as int, anc as int),
    decreases x,
{
    if x == anc {
        return true;
    }
    if !(x < store.nodes.len()) {
        proof {
            assert(!store.is_desc(x as int, anc as int));
        }
        return false;
    }
    match store.nodes[x].parent {
        Some(p) => {
            if p < x {
                is_descendant(store, p, anc)
            } else {
                false
            }
        },
        None => false,
    }
}

} // verus!
