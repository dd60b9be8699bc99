use directory_scanner::{DirectoryHandle, DirectoryTree};

fn node_with(tree: &mut DirectoryTree, path: &str, names: &[&str]) -> DirectoryHandle {
    let node = tree.add(path.to_string());
    for name in names {
        tree.push(node, name.to_string());
    }
    node
}

#[test]
fn new_tree_holds_no_node() {
    let mut other = DirectoryTree::new();
    let handle = other.add("r".to_string());
    let tree = DirectoryTree::new();
    assert!(!tree.holds(handle));
    assert!(other.holds(handle));
}

#[test]
fn add_makes_an_empty_node() {
    let mut tree = DirectoryTree::new();
    let root = tree.add("./r".to_string());
    assert_eq!(tree.path(root), "./r");
    let snapshot = tree.snapshot(root);
    assert_eq!(snapshot.path(), "./r");
    assert_eq!(snapshot.len(), 0);
    assert!(snapshot.each_sub_directory().next().is_none());
}

#[test]
fn push_through_a_handle_adds_a_file_once() {
    let mut tree = DirectoryTree::new();
    let root = tree.add("./r".to_string());
    tree.push(root, "a".to_string());
    tree.push(root, "b".to_string());
    tree.push(root, "a".to_string());
    assert_eq!(tree.snapshot(root).flatten(), vec!["r/a".to_string(), "r/b".to_string()]);
}

#[test]
fn what_one_copy_of_a_handle_adds_the_other_shows() {
    let mut tree = DirectoryTree::new();
    let root = tree.add("r".to_string());
    let copy = root;
    tree.push(copy, "a".to_string());
    assert_eq!(tree.snapshot(root).flatten(), vec!["r/a".to_string()]);
    assert_eq!(root, copy);
}

#[test]
fn what_is_added_below_shows_above() {
    let mut tree = DirectoryTree::new();
    let root = node_with(&mut tree, "r", &["top"]);
    let sub = node_with(&mut tree, "r/sub", &[]);
    let deep = node_with(&mut tree, "r/sub/deep", &[]);
    tree.extend(root, sub);
    tree.extend(sub, deep);
    assert_eq!(tree.snapshot(root).flatten(), vec!["r/top".to_string()]);
    tree.push(deep, "late".to_string());
    tree.push(sub, "later".to_string());
    assert_eq!(
        tree.snapshot(root).flatten(),
        vec!["r/top".to_string(), "r/sub/later".to_string(), "r/sub/deep/late".to_string()]
    );
    assert_eq!(tree.snapshot(sub).len(), 2);
    assert_eq!(tree.snapshot(deep).len(), 1);
}

#[test]
fn a_snapshot_does_not_follow_the_tree() {
    let mut tree = DirectoryTree::new();
    let root = node_with(&mut tree, "r", &["a"]);
    let before = tree.snapshot(root);
    tree.push(root, "b".to_string());
    assert_eq!(before.len(), 1);
    assert_eq!(tree.snapshot(root).len(), 2);
}

#[test]
fn extend_through_a_handle_attaches_once() {
    let mut tree = DirectoryTree::new();
    let root = node_with(&mut tree, "r", &[]);
    let sub = node_with(&mut tree, "r/sub", &["first"]);
    let same = node_with(&mut tree, "r/sub", &["second"]);
    tree.extend(root, sub);
    tree.extend(root, sub);
    tree.extend(root, same);
    assert_eq!(tree.snapshot(root).flatten(), vec!["r/sub/first".to_string()]);
}

#[test]
fn attached_nodes_keep_the_order_of_attaching() {
    let mut tree = DirectoryTree::new();
    let root = node_with(&mut tree, "r", &[]);
    let one = node_with(&mut tree, "r/one", &["1"]);
    let two = node_with(&mut tree, "r/two", &["2"]);
    tree.extend(root, two);
    tree.extend(root, one);
    assert_eq!(tree.snapshot(root).flatten(), vec!["r/two/2".to_string(), "r/one/1".to_string()]);
}

#[test]
fn a_node_can_be_attached_to_a_node_made_after_it() {
    let mut tree = DirectoryTree::new();
    let sub = node_with(&mut tree, "r/sub", &["s"]);
    let root = node_with(&mut tree, "r", &["top"]);
    assert!(tree.can_extend(root, sub));
    tree.extend(root, sub);
    assert_eq!(tree.snapshot(root).flatten(), vec!["r/top".to_string(), "r/sub/s".to_string()]);
    assert_eq!(tree.attached(root), vec![sub]);
}

#[test]
fn no_node_can_be_attached_below_itself() {
    let mut tree = DirectoryTree::new();
    let a = node_with(&mut tree, "a", &[]);
    let b = node_with(&mut tree, "a/b", &[]);
    let c = node_with(&mut tree, "a/b/c", &[]);
    let d = node_with(&mut tree, "d", &[]);
    assert!(!tree.can_extend(a, a));
    assert!(tree.can_extend(a, b));
    assert!(tree.can_extend(b, a));
    tree.extend(a, b);
    tree.extend(b, c);
    assert!(!tree.can_extend(b, a));
    assert!(!tree.can_extend(c, a));
    assert!(!tree.can_extend(c, b));
    assert!(tree.can_extend(a, c));
    assert!(tree.can_extend(d, a));
    assert!(tree.can_extend(c, d));
    tree.extend(c, d);
    assert!(!tree.can_extend(d, a));
    let mut other = DirectoryTree::new();
    other.add("x".to_string());
    assert!(!other.can_extend(a, b));
}

#[test]
fn reaches_follows_the_attached_nodes() {
    let mut tree = DirectoryTree::new();
    let a = node_with(&mut tree, "a", &[]);
    let b = node_with(&mut tree, "a/b", &[]);
    let c = node_with(&mut tree, "a/c", &[]);
    let d = node_with(&mut tree, "a/c/d", &[]);
    tree.extend(a, b);
    tree.extend(a, c);
    tree.extend(c, d);
    assert!(tree.reaches(a, a));
    assert!(tree.reaches(a, d));
    assert!(tree.reaches(c, d));
    assert!(!tree.reaches(b, d));
    assert!(!tree.reaches(d, a));
    assert!(!tree.reaches(b, c));
}

#[test]
fn a_node_attached_in_two_places_shows_in_both() {
    let mut tree = DirectoryTree::new();
    let a = node_with(&mut tree, "a", &[]);
    let b = node_with(&mut tree, "b", &[]);
    let shared = node_with(&mut tree, "s", &[]);
    tree.extend(a, shared);
    tree.extend(b, shared);
    tree.push(shared, "f".to_string());
    assert_eq!(tree.snapshot(a).flatten(), vec!["s/f".to_string()]);
    assert_eq!(tree.snapshot(b).flatten(), vec!["s/f".to_string()]);
}

#[test]
fn what_is_added_through_an_attached_handle_shows_at_both_ends() {
    let mut tree = DirectoryTree::new();
    let r = tree.add("r".to_string());
    let s = tree.add("r/s".to_string());
    tree.extend(r, s);
    let below = tree.attached(r);
    assert_eq!(below.len(), 1);
    let h = below[0];
    assert_eq!(h, s);
    tree.push(h, "f".to_string());
    assert_eq!(tree.snapshot(r).len(), 1);
    assert_eq!(tree.snapshot(s).len(), 1);
    assert_eq!(tree.attached(r).len(), 1);
    assert!(tree.attached(s).is_empty());
}

#[test]
fn attached_handles_come_in_the_order_of_attaching() {
    let mut tree = DirectoryTree::new();
    let root = node_with(&mut tree, "r", &[]);
    let one = node_with(&mut tree, "r/one", &[]);
    let two = node_with(&mut tree, "r/two", &[]);
    tree.extend(root, two);
    tree.extend(root, one);
    assert_eq!(tree.attached(root), vec![two, one]);
}
