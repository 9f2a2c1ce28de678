use du_core::builder::build_tree;
use du_core::builder::count_dirs;
use du_core::builder::DirNode;
use du_core::paths::name_of;
use du_core::paths::parent_of;

/// The display name is the last path component; the parent is the
/// prefix before it, down to the root `/`.
#[test]
fn path_components() {
    assert_eq!(name_of(&b"/r/dirA".to_vec()), b"dirA".to_vec());
    assert_eq!(name_of(&b"/".to_vec()), b"/".to_vec());
    assert_eq!(parent_of(&b"/r/dirA".to_vec()), Some(b"/r".to_vec()));
    assert_eq!(parent_of(&b"/r".to_vec()), Some(b"/".to_vec()));
    assert_eq!(parent_of(&b"/".to_vec()), None);
}

#[test]
fn new_node_takes_last_component() {
    let n = DirNode::new(b"/a/b/c".to_vec(), 3);
    assert_eq!(n.name, b"c".to_vec());
    assert_eq!(n.path, b"/a/b/c".to_vec());
    assert_eq!(n.depth, 3);
    assert!(n.children.is_empty());
}

/// Levels of discovered directories become a tree: each path hangs
/// under the node whose path is its parent, in discovery order.
#[test]
fn build_tree_from_levels() {
    let level1: Vec<Vec<u8>> = vec![b"/r/a".to_vec(), b"/r/b".to_vec()];
    let level2: Vec<Vec<u8>> = vec![b"/r/a/x".to_vec(), b"/r/b/y".to_vec()];
    let groups = vec![Vec::new(), level1, level2];
    let tree = build_tree(b"/r".to_vec(), &groups);
    assert_eq!(tree.path, b"/r".to_vec());
    assert_eq!(tree.children.len(), 2);
    assert_eq!(tree.children[0].path, b"/r/a".to_vec());
    assert_eq!(tree.children[1].path, b"/r/b".to_vec());
    assert_eq!(tree.children[0].children.len(), 1);
    assert_eq!(tree.children[0].children[0].path, b"/r/a/x".to_vec());
    assert_eq!(tree.children[1].children[0].path, b"/r/b/y".to_vec());
    assert_eq!(count_dirs(&tree), 5);
}

#[test]
fn count_single_node() {
    let n = DirNode::new(b"/only".to_vec(), 0);
    assert_eq!(count_dirs(&n), 1);
}
