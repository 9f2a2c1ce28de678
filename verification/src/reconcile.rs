//! Reconciliation: recovering from missed change events.
//!
//! Change notification can drop events, so a directory's live listing
//! is periodically diffed against the stored children and the missing
//! events are synthesized: a listed path that is not a stored child
//! becomes a creation, a stored child that is no longer listed becomes
//! a deletion. The diff is pure logic on plain values; the caller
//! applies each reported creation through `get_or_insert` and
//! `attach_child`, and each deletion through `remove_subtree`.

use vstd::prelude::*;

use crate::paths::bytes_eq;
use crate::store::clone_bytes;
use crate::store::TreeStore;

verus! {

/// The views of the byte strings in `v`, in order.
pub open spec fn views_of(v: Seq<Vec<u8>>) -> Seq<Seq<u8>> {
    v.map_values(|p: Vec<u8>| p@)
}

/// The entries of `xs`, in order, that occur nowhere in `from`.
pub open spec fn absent_filter(xs: Seq<Seq<u8>>, from: Seq<Seq<u8>>) -> Seq<Seq<u8>>
    decreases xs.len(),
{
    if xs.len() == 0 {
        Seq::empty()
    } else {
        let rest = absent_filter(xs.drop_last(), from);
        if from.contains(xs.last()) {
            rest
        } else {
            rest.push(xs.last())
        }
    }
}

proof fn lemma_absent_filter_step(xs: Seq<Seq<u8>>, from: Seq<Seq<u8>>, k: int)
    requires
        0 <= k < xs.len(),
    ensures
        absent_filter(xs.take(k + 1), from) == if from.contains(xs[k]) {
            absent_filter(xs.take(k), from)
        } else {
            absent_filter(xs.take(k), from).push(xs[k])
        },
{
    assert(xs.take(k + 1).drop_last() =~= xs.take(k));
    assert(xs.take(k + 1).last() == xs[k]);
}

/// Whether `x` occurs among the byte strings of `v`.
fn contains_bytes(v: &Vec<Vec<u8>>, x: &Vec<u8>) -> (r: bool)
    ensures
        r == views_of(v@).contains(x@),
{
    let n = v.len();
    let mut i: usize = 0;
    while i < n
        invariant
            0 <= i <= n,
            n == v@.len(),
            forall|j: int| 0 <= j < i ==> (#[trigger] views_of(v@)[j]) != x@,
        decreases n - i,
    {
        if bytes_eq(&v[i], x) {
            proof {
                assert(views_of(v@)[i as int] == x@);
            }
            return true;
        }
        proof {
            assert(views_of(v@)[i as int] == v@[i as int]@);
        }
        i = i + 1;
    }
    false
}

/// One side of the diff: the entries of `xs`, in order, that occur
/// nowhere in `from`, each returned as a fresh copy.
fn absent_from(xs: &Vec<Vec<u8>>, from: &Vec<Vec<u8>>) -> (r: Vec<Vec<u8>>)
    ensures
        views_of(r@) == absent_filter(views_of(xs@), views_of(from@)),
{
    let n = xs.len();
    let mut out: Vec<Vec<u8>> = Vec::new();
    let mut k: usize = 0;
    while k < n
        invariant
            0 <= k <= n,
            n == xs@.len(),
            views_of(out@) == absent_filter(views_of(xs@).take(k as int), views_of(from@)),
        decreases n - k,
    {
        proof {
            assert(views_of(xs@)[k as int] == xs@[k as int]@);
            lemma_absent_filter_step(views_of(xs@), views_of(from@), k as int);
        }
        let ghost out0 = out@;
        if !contains_bytes(from, &xs[k]) {
            out.push(clone_bytes(&xs[k]));
            proof {
                assert(views_of(out@) =~= views_of(out0).push(xs@[k as int]@));
            }
        }
        k = k + 1;
    }
    proof {
        assert(views_of(xs@).take(n as int) =~= views_of(xs@));
    }
    out
}

/// The reconciliation diff: given a directory's stored children and
/// its live listing, the paths to create (listed but not stored, in
/// listing order) and the paths to delete (stored but no longer
/// listed, in stored order).
pub fn diff_listing(children: &Vec<Vec<u8>>, listing: &Vec<Vec<u8>>) -> (r: (
    Vec<Vec<u8>>,
    Vec<Vec<u8>>,
))
    ensures
        views_of(r.0@) == absent_filter(views_of(listing@), views_of(children@)),
        views_of(r.1@) == absent_filter(views_of(children@), views_of(listing@)),
{
    let to_create = absent_from(listing, children);
    let to_delete = absent_from(children, listing);
    (to_create, to_delete)
}

impl TreeStore {
    /// The paths of the children of the live node at `path`, in
    /// discovery order, ready to be diffed against a live listing.
    pub fn child_paths(&self, path: &Vec<u8>) -> (r: Option<Vec<Vec<u8>>>)
        requires
            self.wf(),
        ensures
            match r {
                None => !self.has_path(path@),
                Some(ps) => {
                    let i = self.idx_of(path@);
                    &&& self.has_path(path@)
                    &&& ps@.len() == self.node(i).children@.len()
                    &&& forall|k: int|
                        0 <= k < ps@.len() ==> (#[trigger] ps@[k])@ == self.node(
                            self.node(i).children@[k] as int,
                        ).path@
                },
            },
    {
        let i = match self.lookup(path) {
            None => {
                return None;
            },
            Some(i) => i,
        };
        proof {
            assert(self.children_ok(i as int));
        }
        let cn = self.nodes[i].children.len();
        let mut out: Vec<Vec<u8>> = Vec::new();
        let mut k: usize = 0;
        while k < cn
            invariant
                self.wf(),
                self.live(i as int),
                0 <= k <= cn,
                cn == self.node(i as int).children@.len(),
                out@.len() == k,
                forall|l: int|
                    0 <= l < k ==> (#[trigger] out@[l])@ == self.node(
                        self.node(i as int).children@[l] as int,
                    ).path@,
            decreases cn - k,
        {
            proof {
                assert(self.children_ok(i as int));
                assert(self.child_link_ok(i as int, self.node(i as int).children@[k as int]));
            }
            let c = self.nodes[i].children[k];
            out.push(clone_bytes(&self.nodes[c].path));
            k = k + 1;
        }
        Some(out)
    }
}

} // verus!
