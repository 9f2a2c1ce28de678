use du_core::node::NodeKind;
use du_core::reconcile::diff_listing;
use du_core::node::ScanState;
use du_core::node::SizeState;
use du_core::sched::Scheduler;
use du_core::sched::TIER_BACKGROUND;
use du_core::store::InsertOutcome;
use du_core::store::TreeStore;

fn insert(store: &mut TreeStore, path: &str, kind: NodeKind, stamp: u64) -> usize {
    match store.get_or_insert(path.as_bytes().to_vec(), kind, stamp) {
        InsertOutcome::Inserted(i) => i,
        InsertOutcome::Existing(i) => i,
        InsertOutcome::Blocked => panic!("blocked insert for {path}"),
    }
}

fn insert_under(store: &mut TreeStore, parent: usize, path: &str, kind: NodeKind) -> usize {
    let i = insert(store, path, kind, 0);
    assert!(store.attach_child(parent, i));
    i
}

/// Root `/r` holds `dirA` (files of size 10, 20, 30) and `dirB`
/// (holding `dirC` with one file of size 5). After a full scan the
/// directory totals are exact: 60, 5, 5 and 65.
#[test]
fn full_scan_exact_totals() {
    let mut store = TreeStore::new();
    let r = insert(&mut store, "/r", NodeKind::Directory, 0);
    let dir_a = insert_under(&mut store, r, "/r/dirA", NodeKind::Directory);
    let f1 = insert_under(&mut store, dir_a, "/r/dirA/f1", NodeKind::File);
    let f2 = insert_under(&mut store, dir_a, "/r/dirA/f2", NodeKind::File);
    let f3 = insert_under(&mut store, dir_a, "/r/dirA/f3", NodeKind::File);
    let dir_b = insert_under(&mut store, r, "/r/dirB", NodeKind::Directory);
    let dir_c = insert_under(&mut store, dir_b, "/r/dirB/dirC", NodeKind::Directory);
    let f4 = insert_under(&mut store, dir_c, "/r/dirB/dirC/f4", NodeKind::File);

    for i in [r, dir_a, dir_b, dir_c] {
        store.set_scan_state(i, ScanState::Scanned);
    }
    store.set_leaf_size(f1, 10);
    store.propagate_up(f1);
    store.set_leaf_size(f2, 20);
    store.propagate_up(f2);
    store.set_leaf_size(f3, 30);
    store.propagate_up(f3);
    store.set_leaf_size(f4, 5);
    store.propagate_up(f4);

    assert_eq!(store.nodes[dir_a].size_state, SizeState::Known(60));
    assert_eq!(store.nodes[dir_c].size_state, SizeState::Known(5));
    assert_eq!(store.nodes[dir_b].size_state, SizeState::Known(5));
    assert_eq!(store.nodes[r].size_state, SizeState::Known(65));
}

/// Before the files of a directory resolve, the root reports a partial
/// sum of whatever children are exact so far, and every child is
/// already present in the store.
#[test]
fn partial_sum_mid_scan() {
    let mut store = TreeStore::new();
    let r = insert(&mut store, "/r", NodeKind::Directory, 0);
    let dir_a = insert_under(&mut store, r, "/r/dirA", NodeKind::Directory);
    let f1 = insert_under(&mut store, dir_a, "/r/dirA/f1", NodeKind::File);
    let f2 = insert_under(&mut store, dir_a, "/r/dirA/f2", NodeKind::File);
    store.set_scan_state(r, ScanState::Scanned);
    store.set_scan_state(dir_a, ScanState::Scanned);
    store.set_leaf_size(f1, 10);
    store.propagate_up(f1);

    // f2 is still pending: dirA and the root are partial, not exact
    assert_eq!(store.nodes[dir_a].size_state, SizeState::Partial(10));
    assert_eq!(store.nodes[r].size_state, SizeState::Partial(0));
    assert_eq!(store.nodes[f2].size_state, SizeState::Pending);
    // no child is missing from the tree even though sizes are inexact
    assert!(store.lookup(&b"/r/dirA/f2".to_vec()).is_some());
    assert_eq!(store.nodes[dir_a].children.len(), 2);
}

/// Inserting the same path twice hands back the same node and does not
/// duplicate it in the parent's child list.
#[test]
fn get_or_insert_idempotent() {
    let mut store = TreeStore::new();
    let r = insert(&mut store, "/r", NodeKind::Directory, 0);
    let a = insert_under(&mut store, r, "/r/a", NodeKind::Directory);
    let n_before = store.nodes.len();
    match store.get_or_insert(b"/r/a".to_vec(), NodeKind::Directory, 7) {
        InsertOutcome::Existing(i) => assert_eq!(i, a),
        _ => panic!("expected the existing node"),
    }
    assert_eq!(store.nodes.len(), n_before);
    // a second attach is refused: the child already has a parent
    assert!(!store.attach_child(r, a));
    assert_eq!(store.nodes[r].children, vec![a]);
}

/// Removing a subtree removes every descendant and reports each
/// removed node with the `Known` size it contributed at removal time.
#[test]
fn remove_subtree_reports_contributions() {
    let mut store = TreeStore::new();
    let r = insert(&mut store, "/r", NodeKind::Directory, 0);
    let dir_a = insert_under(&mut store, r, "/r/dirA", NodeKind::Directory);
    let f1 = insert_under(&mut store, dir_a, "/r/dirA/f1", NodeKind::File);
    let f2 = insert_under(&mut store, dir_a, "/r/dirA/f2", NodeKind::File);
    store.set_scan_state(r, ScanState::Scanned);
    store.set_scan_state(dir_a, ScanState::Scanned);
    store.set_leaf_size(f1, 10);
    store.propagate_up(f1);
    store.set_leaf_size(f2, 20);
    store.propagate_up(f2);
    assert_eq!(store.nodes[dir_a].size_state, SizeState::Known(30));

    let removed = store.remove_subtree(&b"/r/dirA".to_vec(), 1);
    let mut paths: Vec<Vec<u8>> = removed.iter().map(|e| e.path.clone()).collect();
    paths.sort();
    assert_eq!(
        paths,
        vec![b"/r/dirA".to_vec(), b"/r/dirA/f1".to_vec(), b"/r/dirA/f2".to_vec()]
    );
    // the root entry carried Known(30); the files carried 10 and 20
    let mut knowns: Vec<u64> = removed.iter().map(|e| e.known).collect();
    knowns.sort();
    assert_eq!(knowns, vec![10, 20, 30]);
    assert!(store.lookup(&b"/r/dirA".to_vec()).is_none());
    assert!(store.lookup(&b"/r/dirA/f1".to_vec()).is_none());
    // the former parent re-aggregates without the removed subtree
    store.propagate_up(r);
    assert_eq!(store.nodes[r].size_state, SizeState::Known(0));
}

/// A deletion always wins over a stale insert that replays for the
/// same path afterwards: the path stays absent.
#[test]
fn deletion_wins_over_stale_insert() {
    let mut store = TreeStore::new();
    let _r = insert(&mut store, "/x", NodeKind::Directory, 1);
    store.remove_subtree(&b"/x".to_vec(), 5);
    // a replayed insert stamped before the deletion is rejected
    match store.get_or_insert(b"/x".to_vec(), NodeKind::Directory, 3) {
        InsertOutcome::Blocked => {},
        _ => panic!("stale insert must be blocked"),
    }
    assert!(store.lookup(&b"/x".to_vec()).is_none());
    // a genuinely newer creation is accepted again
    match store.get_or_insert(b"/x".to_vec(), NodeKind::Directory, 6) {
        InsertOutcome::Inserted(_) => {},
        _ => panic!("newer insert must pass"),
    }
    assert!(store.lookup(&b"/x".to_vec()).is_some());
}

/// A path promoted by `set_interest` is served before a background
/// sibling discovered at the same time.
#[test]
fn pinned_path_scanned_first() {
    let mut store = TreeStore::new();
    let r = insert(&mut store, "/r", NodeKind::Directory, 0);
    let a = insert_under(&mut store, r, "/r/a", NodeKind::Directory);
    let b = insert_under(&mut store, r, "/r/b", NodeKind::Directory);

    let mut sched = Scheduler::new(8);
    assert!(sched.enqueue(a, TIER_BACKGROUND));
    assert!(sched.enqueue(b, TIER_BACKGROUND));
    // the same directory is never queued twice
    assert!(!sched.enqueue(a, TIER_BACKGROUND));

    sched.set_interest(&store, b);
    let first = sched.pop_next().expect("two tasks queued");
    assert_eq!(first.node, b);
    let second = sched.pop_next().expect("one task left");
    assert_eq!(second.node, a);
    assert!(sched.pop_next().is_none());
}

/// Promoting a path pins its ancestors and its queued descendants too.
#[test]
fn set_interest_promotes_chain() {
    let mut store = TreeStore::new();
    let r = insert(&mut store, "/r", NodeKind::Directory, 0);
    let a = insert_under(&mut store, r, "/r/a", NodeKind::Directory);
    let leaf = insert_under(&mut store, a, "/r/a/leaf", NodeKind::Directory);
    let other = insert_under(&mut store, r, "/r/other", NodeKind::Directory);

    let mut sched = Scheduler::new(8);
    sched.enqueue(r, TIER_BACKGROUND);
    sched.enqueue(leaf, TIER_BACKGROUND);
    sched.enqueue(other, TIER_BACKGROUND);
    sched.set_interest(&store, a);
    // ancestor and queued descendant are pinned, the sibling is not
    assert_eq!(sched.tasks[0].tier, 0);
    assert_eq!(sched.tasks[1].tier, 0);
    assert_eq!(sched.tasks[2].tier, TIER_BACKGROUND);
}

/// A background task ages one tier after the bounded wait, so no
/// subtree starves forever.
#[test]
fn background_task_ages() {
    let mut sched = Scheduler::new(3);
    sched.enqueue(0, TIER_BACKGROUND);
    sched.tick_age();
    sched.tick_age();
    assert_eq!(sched.tasks[0].tier, TIER_BACKGROUND);
    sched.tick_age();
    assert_eq!(sched.tasks[0].tier, TIER_BACKGROUND - 1);
    assert_eq!(sched.tasks[0].wait, 0);
}

/// An errored node contributes zero and stays flagged distinctly from
/// a legitimately empty entry.
#[test]
fn errored_counts_as_zero_but_flagged() {
    let mut store = TreeStore::new();
    let r = insert(&mut store, "/r", NodeKind::Directory, 0);
    let f = insert_under(&mut store, r, "/r/secret", NodeKind::File);
    let g = insert_under(&mut store, r, "/r/plain", NodeKind::File);
    store.set_scan_state(r, ScanState::Scanned);
    store.set_errored(f, du_core::node::ErrReason::PermissionDenied);
    store.propagate_up(f);
    store.set_leaf_size(g, 7);
    store.propagate_up(g);
    // the errored child keeps the sum partial and contributes nothing
    assert_eq!(store.nodes[r].size_state, SizeState::Partial(7));
    assert_eq!(
        store.nodes[f].size_state,
        SizeState::Errored(du_core::node::ErrReason::PermissionDenied)
    );
}

/// The child-state view used by the aggregator follows the child list.
#[test]
fn aggregator_recompute_is_exact() {
    let mut store = TreeStore::new();
    let r = insert(&mut store, "/r", NodeKind::Directory, 0);
    let f = insert_under(&mut store, r, "/r/f", NodeKind::File);
    store.set_leaf_size(f, 42);
    store.set_scan_state(r, ScanState::Scanned);
    let changed = store.recompute_size(r);
    assert!(changed);
    assert_eq!(store.nodes[r].size_state, SizeState::Known(42));
    let changed_again = store.recompute_size(r);
    assert!(!changed_again);
}

/// A snapshot returns the node and all its children at once, pending
/// sizes included, with the partial sum exposed as a byte count.
#[test]
fn snapshot_shows_every_child() {
    let mut store = TreeStore::new();
    let r = insert(&mut store, "/r", NodeKind::Directory, 0);
    let dir_a = insert_under(&mut store, r, "/r/dirA", NodeKind::Directory);
    let f1 = insert_under(&mut store, dir_a, "/r/dirA/f1", NodeKind::File);
    let _f2 = insert_under(&mut store, dir_a, "/r/dirA/f2", NodeKind::File);
    store.set_scan_state(dir_a, ScanState::Scanned);
    store.set_leaf_size(f1, 10);
    store.propagate_up(f1);

    let (view, kids) = store
        .get_snapshot(&b"/r/dirA".to_vec())
        .expect("the path is present");
    assert_eq!(view.size_state, SizeState::Partial(10));
    assert_eq!(view.size_bytes, Some(10));
    assert_eq!(kids.len(), 2);
    assert_eq!(kids[0].path, b"/r/dirA/f1".to_vec());
    assert_eq!(kids[1].path, b"/r/dirA/f2".to_vec());
    assert_eq!(kids[1].size_state, SizeState::Pending);
    assert_eq!(kids[1].size_bytes, None);
    assert!(store.get_snapshot(&b"/r/missing".to_vec()).is_none());
    // the change log has recorded every mutation for subscribers
    assert!(store.delta_count() > 0);
}

/// The reconciliation diff synthesizes exactly the missed events:
/// listed-but-absent paths become creations, stored-but-unlisted
/// children become deletions; applying them settles the store to the
/// live listing.
#[test]
fn reconcile_diff_finds_missing_events() {
    let mut store = TreeStore::new();
    let r = insert(&mut store, "/r", NodeKind::Directory, 0);
    let _a = insert_under(&mut store, r, "/r/a", NodeKind::File);
    let _b = insert_under(&mut store, r, "/r/b", NodeKind::File);
    let children = store.child_paths(&b"/r".to_vec()).expect("present");
    assert_eq!(children, vec![b"/r/a".to_vec(), b"/r/b".to_vec()]);
    // the live listing dropped /r/b and gained /r/c
    let listing = vec![b"/r/a".to_vec(), b"/r/c".to_vec()];
    let (to_create, to_delete) = diff_listing(&children, &listing);
    assert_eq!(to_create, vec![b"/r/c".to_vec()]);
    assert_eq!(to_delete, vec![b"/r/b".to_vec()]);
    for p in &to_delete {
        store.remove_subtree(p, 9);
    }
    for p in &to_create {
        if let InsertOutcome::Inserted(i) = store.get_or_insert(p.clone(), NodeKind::File, 10) {
            store.attach_child(r, i);
        }
    }
    let after = store.child_paths(&b"/r".to_vec()).expect("present");
    assert_eq!(after, vec![b"/r/a".to_vec(), b"/r/c".to_vec()]);
}
