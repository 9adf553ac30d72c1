//! Pattern-cache tests: appended orderings share prefixes and carry weights.

use mison::pattern_tree::{PatternNode, PatternTree};

#[test]
fn test_pattern_tree() {
    let mut tree = PatternTree::default();
    tree.append(vec![
        (b"foo".to_vec(), 0),
        (b"bar".to_vec(), 1),
        (b"baz".to_vec(), 2),
    ]);
    tree.append(vec![
        (b"foo".to_vec(), 0),
        (b"baz".to_vec(), 1),
        (b"bar".to_vec(), 3),
    ]);
    tree.append(vec![
        (b"foo".to_vec(), 0),
        (b"bar".to_vec(), 2),
        (b"baz".to_vec(), 3),
    ]);

    let expected = PatternNode {
        field: b"$".to_vec(),
        pos: usize::MAX,
        weight: 3,
        children: vec![PatternNode {
            field: b"foo".to_vec(),
            pos: 0,
            weight: 3,
            children: vec![
                PatternNode {
                    field: b"bar".to_vec(),
                    pos: 1,
                    weight: 1,
                    children: vec![PatternNode {
                        field: b"baz".to_vec(),
                        pos: 2,
                        weight: 1,
                        children: vec![],
                    }],
                },
                PatternNode {
                    field: b"baz".to_vec(),
                    pos: 1,
                    weight: 1,
                    children: vec![PatternNode {
                        field: b"bar".to_vec(),
                        pos: 3,
                        weight: 1,
                        children: vec![],
                    }],
                },
                PatternNode {
                    field: b"bar".to_vec(),
                    pos: 2,
                    weight: 1,
                    children: vec![PatternNode {
                        field: b"baz".to_vec(),
                        pos: 3,
                        weight: 1,
                        children: vec![],
                    }],
                },
            ],
        }],
    };
    assert_eq!(*tree.root_node(), expected);
}

#[test]
fn the_empty_cache_is_a_bare_root() {
    let tree = PatternTree::default();
    assert!(tree.root_node().is_root());
    assert!(tree.root_node().is_leaf());
    assert_eq!(tree.root_node().position(), usize::MAX);
}
