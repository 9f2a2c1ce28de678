//! Per-entry state: kind, size state, scan state, and one tree node.

use vstd::prelude::*;

verus! {

/// What kind of filesystem entry a node stands for.
#[derive(Clone, Copy, PartialEq, Eq, Structural, Debug)]
pub enum NodeKind {
    File,
    Directory,
    Symlink,
    Other,
}

/// Why a node's size could not be determined.
#[derive(Clone, Copy, PartialEq, Eq, Structural, Debug)]
pub enum ErrReason {
    PermissionDenied,
    BrokenLink,
    TransientIo,
}

/// How much of a node's size is known.
///
/// `Partial(s)` carries the sum of the currently `Known` children;
/// `Known(t)` is the exact total. An `Errored` node contributes zero
/// to its ancestors' sums and is flagged distinctly, so a caller can
/// show "unknown" rather than a misleading zero.
#[derive(Clone, Copy, PartialEq, Eq, Structural, Debug)]
pub enum SizeState {
    Pending,
    Partial(u64),
    Known(u64),
    Errored(ErrReason),
}

/// How far scanning of a directory has progressed.
#[derive(Clone, Copy, PartialEq, Eq, Structural, Debug)]
pub enum ScanState {
    NotScanned,
    Scanning,
    Scanned,
}

/// One filesystem entry in the tree store's arena.
///
/// `children` and `parent` hold arena indices; a child always has a
/// larger index than its parent, which rules out cycles. A removed
/// slot keeps its place in the arena with `live == false`.
pub struct Node {
    pub live: bool,
    pub path: Vec<u8>,
    pub name: Vec<u8>,
    pub kind: NodeKind,
    pub size_state: SizeState,
    pub scan_state: ScanState,
    pub children: Vec<usize>,
    pub parent: Option<usize>,
    pub generation: u64,
}

/// What a node adds to its parent's size sum: its total when `Known`,
/// nothing otherwise.
pub open spec fn known_part(s: SizeState) -> u64 {
    match s {
        SizeState::Known(t) => t,
        _ => 0,
    }
}

/// Exec twin of `known_part`.
pub fn known_part_of(s: SizeState) -> (r: u64)
    ensures
        r == known_part(s),
{
    match s {
        SizeState::Known(t) => t,
        _ => 0,
    }
}

/// The saturating sum of the contributions of the states in `cs`.
pub open spec fn sum_known(cs: Seq<SizeState>) -> u64
    decreases cs.len(),
{
    if cs.len() == 0 {
        0
    } else {
        crate::spec_sat_add(sum_known(cs.drop_last()), known_part(cs.last()))
    }
}

/// The exact (unbounded) sum of the contributions of the states in `cs`.
pub open spec fn sum_known_int(cs: Seq<SizeState>) -> int
    decreases cs.len(),
{
    if cs.len() == 0 {
        0
    } else {
        sum_known_int(cs.drop_last()) + known_part(cs.last())
    }
}

/// The saturating sum equals the exact sum whenever the exact sum fits
/// in a `u64`: aggregation rounds nothing while sizes stay in range.
pub proof fn lemma_sum_known_exact(cs: Seq<SizeState>)
    requires
        sum_known_int(cs) <= u64::MAX,
    ensures
        sum_known(cs) == sum_known_int(cs),
    decreases cs.len(),
{
    if cs.len() > 0 {
        lemma_sum_known_exact(cs.drop_last());
    }
}

/// The size state the aggregator assigns a directory from its own scan
/// progress and its children's size states: exact once the directory
/// is fully scanned and every child is exact, else the partial sum of
/// the children that are already exact.
pub open spec fn dir_target(scan: ScanState, cs: Seq<SizeState>) -> SizeState {
    if scan is Scanned && (forall|k: int| 0 <= k < cs.len() ==> cs[k] is Known) {
        SizeState::Known(sum_known(cs))
    } else {
        SizeState::Partial(sum_known(cs))
    }
}

} // verus!
