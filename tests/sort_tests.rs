use std::cmp::Ordering;
use treelog::Tree;

#[test]
fn test_sort_children() {
    let mut tree = Tree::Node(
        "root".to_string(),
        vec![
            Tree::Leaf(vec!["z".to_string()]),
            Tree::Leaf(vec!["a".to_string()]),
        ],
    );
    let mut compare = |a: &Tree, b: &Tree| match (a, b) {
        (Tree::Leaf(lines_a), Tree::Leaf(lines_b)) => lines_a[0].cmp(&lines_b[0]),
        _ => Ordering::Equal,
    };
    tree.sort_children(&mut compare);
    if let Tree::Node(_, children) = &tree {
        if let Tree::Leaf(lines) = &children[0] {
            assert_eq!(lines[0], "a");
        }
    }
}

#[test]
fn test_sort_by_label() {
    let mut tree = Tree::Node(
        "root".to_string(),
        vec![
            Tree::Node("z".to_string(), vec![]),
            Tree::Node("a".to_string(), vec![]),
        ],
    );
    tree.sort_by_label();
    if let Tree::Node(_, children) = &tree {
        assert_eq!(children[0].label(), Some("a"));
        assert_eq!(children[1].label(), Some("z"));
    }
}

#[test]
fn test_sort_by_depth() {
    let mut tree = Tree::Node(
        "root".to_string(),
        vec![
            Tree::Leaf(vec!["shallow".to_string()]),
            Tree::Node(
                "deep".to_string(),
                vec![Tree::Leaf(vec!["deep_leaf".to_string()])],
            ),
        ],
    );
    tree.sort_by_depth(true); // deepest first
    if let Tree::Node(_, children) = &tree {
        assert!(children[0].is_node());
        assert!(children[1].is_leaf());
    }
}

#[test]
fn sort_is_stable_and_recursive() {
    let mut tree = Tree::Node(
        "root".to_string(),
        vec![
            Tree::Node("b".to_string(), vec![Tree::new_leaf("y"), Tree::new_leaf("x")]),
            Tree::new_leaf("a"),
            Tree::Node("b".to_string(), vec![]),
        ],
    );
    tree.sort_by_label();
    let expected = Tree::Node(
        "root".to_string(),
        vec![
            Tree::new_leaf("a"),
            Tree::Node("b".to_string(), vec![Tree::new_leaf("x"), Tree::new_leaf("y")]),
            Tree::Node("b".to_string(), vec![]),
        ],
    );
    assert!(tree == expected);
}

#[test]
fn sort_by_depth_shallow_first() {
    let mut tree = Tree::Node(
        "root".to_string(),
        vec![
            Tree::Node("deep".to_string(), vec![Tree::new_leaf("z")]),
            Tree::new_leaf("flat"),
        ],
    );
    tree.sort_by_depth(false);
    if let Tree::Node(_, children) = &tree {
        assert!(children[0].is_leaf());
        assert!(children[1].is_node());
    }
}
