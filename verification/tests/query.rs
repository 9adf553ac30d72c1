//! Query-tree tests: path syntax at registration, ids in insertion order,
//! and the trie the segments build.

use mison::query::QueryTree;

#[test]
fn invalid_query() {
    let cases: &[&[u8]] = &[b"", b"$", b"$.."];
    for c in cases {
        let mut tree = QueryTree::default();
        assert!(tree.add_path(c).is_err());
    }
}

#[test]
fn add_path() {
    // a single one-segment path
    let mut tree = QueryTree::default();
    assert!(tree.add_path(b"$.foo").is_ok());
    assert_eq!(tree.num_paths(), 1);
    assert_eq!(tree.max_level(), 1);
    let root = tree.as_node();
    assert_eq!(root.num_children(), 1);
    let foo = root.find_child(b"foo").unwrap();
    assert_eq!(foo.level(), 1);
    assert_eq!(foo.path_id(), Some(0));
    assert!(foo.is_leaf());

    // a single two-segment path
    let mut tree = QueryTree::default();
    assert!(tree.add_path(b"$.foo.bar").is_ok());
    assert_eq!(tree.num_paths(), 1);
    assert_eq!(tree.max_level(), 2);
    let root = tree.as_node();
    let foo = root.find_child(b"foo").unwrap();
    assert_eq!(foo.level(), 1);
    assert_eq!(foo.path_id(), None);
    let bar = foo.find_child(b"bar").unwrap();
    assert_eq!(bar.level(), 2);
    assert_eq!(bar.path_id(), Some(0));
    assert!(bar.is_leaf());

    // three overlapping paths share their prefixes
    let mut tree = QueryTree::default();
    assert!(tree.add_path(b"$.f1.e1").is_ok());
    assert!(tree.add_path(b"$.f1.e1.c3").is_ok());
    assert!(tree.add_path(b"$.f2.e1").is_ok());
    assert_eq!(tree.num_paths(), 3);
    assert_eq!(tree.max_level(), 3);
    let root = tree.as_node();
    assert_eq!(root.num_children(), 2);
    let f1 = root.find_child(b"f1").unwrap();
    assert_eq!(f1.path_id(), None);
    let e1 = f1.find_child(b"e1").unwrap();
    assert_eq!(e1.path_id(), Some(0));
    assert_eq!(e1.num_children(), 1);
    let c3 = e1.find_child(b"c3").unwrap();
    assert_eq!(c3.path_id(), Some(1));
    assert_eq!(c3.level(), 3);
    let f2 = root.find_child(b"f2").unwrap();
    let e1b = f2.find_child(b"e1").unwrap();
    assert_eq!(e1b.path_id(), Some(2));
    assert_eq!(e1b.level(), 2);
}

#[test]
fn rejected_paths_leave_the_tree_unchanged() {
    let mut tree = QueryTree::default();
    assert!(tree.add_path(b"$.good").is_ok());
    assert!(tree.add_path(b"$.bad.").is_err());
    assert!(tree.add_path(b"$..bad").is_err());
    assert_eq!(tree.num_paths(), 1);
    assert_eq!(tree.max_level(), 1);
    assert_eq!(tree.as_node().num_children(), 1);
}
