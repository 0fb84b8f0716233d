use treelog::builder::TreeBuilder;
use treelog::merge::MergeStrategy;
use treelog::traversal::{LevelOrder, Leaves, Nodes, PostOrder, PreOrder};
use treelog::Tree;

#[test]
fn builder_test_simple_tree() {
    let mut builder = TreeBuilder::new();
    builder.node("root").leaf("item");
    let tree = builder.build();

    assert!(tree.is_node());
    assert_eq!(tree.label(), Some("root"));
}

#[test]
fn builder_test_nested_tree() {
    let mut builder = TreeBuilder::new();
    builder.node("root").node("child").leaf("item").end();
    let tree = builder.build();

    assert!(tree.is_node());
    if let Tree::Node(_, children) = &tree {
        assert_eq!(children.len(), 1);
        assert!(children[0].is_node());
    }
}

#[test]
fn builder_test_multiple_children() {
    let mut builder = TreeBuilder::new();
    builder
        .node("root")
        .leaf("item1")
        .leaf("item2")
        .node("child")
        .leaf("subitem")
        .end();
    let tree = builder.build();

    if let Tree::Node(_, children) = &tree {
        assert_eq!(children.len(), 3);
    }
}

#[test]
fn test_eq_structure() {
    let tree1 = Tree::Node("root1".to_string(), vec![Tree::Leaf(vec!["a".to_string()])]);
    let tree2 = Tree::Node("root2".to_string(), vec![Tree::Leaf(vec!["b".to_string()])]);
    assert!(tree1.eq_structure(&tree2));

    let tree3 = Tree::Node(
        "root".to_string(),
        vec![
            Tree::Leaf(vec!["a".to_string()]),
            Tree::Leaf(vec!["b".to_string()]),
        ],
    );
    assert!(!tree1.eq_structure(&tree3));
}

#[test]
fn test_diff() {
    let tree1 = Tree::Node("root".to_string(), vec![Tree::Leaf(vec!["a".to_string()])]);
    let tree2 = Tree::Node("root".to_string(), vec![Tree::Leaf(vec!["b".to_string()])]);
    let diffs = tree1.diff(&tree2);
    assert!(!diffs.is_empty());
}

#[test]
fn test_is_subtree_of() {
    let subtree = Tree::Node(
        "child".to_string(),
        vec![Tree::Leaf(vec!["item".to_string()])],
    );
    let tree = Tree::Node(
        "root".to_string(),
        vec![subtree.clone(), Tree::Leaf(vec!["other".to_string()])],
    );
    assert!(subtree.is_subtree_of(&tree));

    let not_subtree = Tree::Node(
        "nonexistent".to_string(),
        vec![Tree::Leaf(vec!["item".to_string()])],
    );
    assert!(!not_subtree.is_subtree_of(&tree));
}

#[test]
fn test_merge_replace() {
    let tree1 = Tree::Node("root".to_string(), vec![Tree::Leaf(vec!["a".to_string()])]);
    let tree2 = Tree::Node("root".to_string(), vec![Tree::Leaf(vec!["b".to_string()])]);
    let merged = tree1.merge(tree2, MergeStrategy::Replace);
    if let Tree::Node(_, children) = &merged {
        if let Tree::Leaf(lines) = &children[0] {
            assert_eq!(lines[0], "b");
        }
    }
}

#[test]
fn test_merge_append() {
    let tree1 = Tree::Node("root".to_string(), vec![Tree::Leaf(vec!["a".to_string()])]);
    let tree2 = Tree::Node("root".to_string(), vec![Tree::Leaf(vec!["b".to_string()])]);
    let merged = tree1.merge(tree2, MergeStrategy::Append);
    if let Tree::Node(_, children) = &merged {
        assert_eq!(children.len(), 2);
    }
}

#[test]
fn test_merge_by_label() {
    let tree1 = Tree::Node(
        "root".to_string(),
        vec![Tree::Node(
            "child".to_string(),
            vec![Tree::Leaf(vec!["a".to_string()])],
        )],
    );
    let tree2 = Tree::Node(
        "root".to_string(),
        vec![Tree::Node(
            "child".to_string(),
            vec![Tree::Leaf(vec!["b".to_string()])],
        )],
    );
    let merged = tree1.merge(tree2, MergeStrategy::MergeByLabel);
    if let Tree::Node(_, children) = &merged {
        assert_eq!(children.len(), 1);
    }
}

#[test]
fn test_get_path() {
    let tree = Tree::Node(
        "root".to_string(),
        vec![Tree::Node(
            "child".to_string(),
            vec![Tree::Leaf(vec!["item".to_string()])],
        )],
    );
    let child = &tree.children().unwrap()[0];
    let path = tree.get_path(child);
    assert_eq!(path, Some(vec![0]));

    let root_path = tree.get_path(&tree);
    assert_eq!(root_path, Some(vec![]));
}

#[test]
fn test_get_by_path() {
    let tree = Tree::Node(
        "root".to_string(),
        vec![Tree::Node(
            "child".to_string(),
            vec![Tree::Leaf(vec!["item".to_string()])],
        )],
    );
    let node = tree.get_by_path(&[0]);
    assert!(node.is_some());
    assert_eq!(node.unwrap().label(), Some("child"));

    let leaf = tree.get_by_path(&[0, 0]);
    assert!(leaf.is_some());
    assert!(leaf.unwrap().is_leaf());

    let invalid = tree.get_by_path(&[99]);
    assert!(invalid.is_none());
}

#[test]
fn test_get_by_path_mut() {
    let mut tree = Tree::Node(
        "root".to_string(),
        vec![Tree::Node("child".to_string(), vec![])],
    );
    if let Some(Tree::Node(label, _)) = tree.get_by_path_mut(&[0]) {
        *label = "new_label".to_string();
    }
    assert_eq!(tree.get_by_path(&[0]).unwrap().label(), Some("new_label"));
}

#[test]
fn test_flatten() {
    let tree = Tree::Node(
        "root".to_string(),
        vec![
            Tree::Node(
                "child".to_string(),
                vec![Tree::Leaf(vec!["item".to_string()])],
            ),
            Tree::Leaf(vec!["leaf2".to_string()]),
        ],
    );
    let flattened = tree.flatten();
    assert_eq!(flattened.len(), 4);
    assert_eq!(flattened[0].content, "root");
    assert!(flattened[0].is_node);
    assert_eq!(flattened[1].content, "child");
    assert_eq!(flattened[2].content, "item");
    assert!(!flattened[2].is_node);
}

#[test]
fn test_find_node() {
    let tree = Tree::Node(
        "root".to_string(),
        vec![Tree::Node(
            "child".to_string(),
            vec![Tree::Leaf(vec!["item".to_string()])],
        )],
    );
    let found = tree.find_node("child");
    assert!(found.is_some());
    assert_eq!(found.unwrap().label(), Some("child"));

    let not_found = tree.find_node("nonexistent");
    assert!(not_found.is_none());
}

#[test]
fn test_find_all_nodes() {
    let tree = Tree::Node(
        "root".to_string(),
        vec![
            Tree::Node("child".to_string(), vec![]),
            Tree::Node("child".to_string(), vec![]),
            Tree::Node("other".to_string(), vec![]),
        ],
    );
    let found = tree.find_all_nodes("child");
    assert_eq!(found.len(), 2);

    let found_root = tree.find_all_nodes("root");
    assert_eq!(found_root.len(), 1);
}

#[test]
fn test_find_leaf() {
    let tree = Tree::Node(
        "root".to_string(),
        vec![Tree::Leaf(vec!["item".to_string()])],
    );
    let found = tree.find_leaf("item");
    assert!(found.is_some());
    assert!(found.unwrap().is_leaf());

    let not_found = tree.find_leaf("nonexistent");
    assert!(not_found.is_none());
}

#[test]
fn test_contains() {
    let tree = Tree::Node(
        "root".to_string(),
        vec![Tree::Leaf(vec!["item".to_string()])],
    );
    assert!(tree.contains("root"));
    assert!(tree.contains("item"));
    assert!(!tree.contains("nonexistent"));
}

#[test]
fn test_path_to() {
    let tree = Tree::Node(
        "root".to_string(),
        vec![Tree::Node(
            "child".to_string(),
            vec![Tree::Leaf(vec!["item".to_string()])],
        )],
    );
    let path = tree.path_to("child");
    assert_eq!(path, Some(vec![0]));

    let path_to_item = tree.path_to("item");
    assert_eq!(path_to_item, Some(vec![0, 0]));

    let path_not_found = tree.path_to("nonexistent");
    assert_eq!(path_not_found, None);
}

#[test]
fn test_depth() {
    let tree = Tree::Node(
        "root".to_string(),
        vec![Tree::Leaf(vec!["item".to_string()])],
    );
    assert_eq!(tree.depth(), 1);

    let deep_tree = Tree::Node(
        "root".to_string(),
        vec![Tree::Node(
            "child".to_string(),
            vec![Tree::Node(
                "grandchild".to_string(),
                vec![Tree::Leaf(vec!["leaf".to_string()])],
            )],
        )],
    );
    assert_eq!(deep_tree.depth(), 3);

    let single_node = Tree::new_node("root");
    assert_eq!(single_node.depth(), 0);

    let single_leaf = Tree::new_leaf("leaf");
    assert_eq!(single_leaf.depth(), 0);
}

#[test]
fn test_width() {
    let tree = Tree::Node(
        "root".to_string(),
        vec![
            Tree::Leaf(vec!["a".to_string()]),
            Tree::Leaf(vec!["b".to_string()]),
            Tree::Leaf(vec!["c".to_string()]),
        ],
    );
    assert_eq!(tree.width(), 3);

    let tree2 = Tree::Node(
        "root".to_string(),
        vec![
            Tree::Node(
                "child1".to_string(),
                vec![
                    Tree::Leaf(vec!["gc1".to_string()]),
                    Tree::Leaf(vec!["gc2".to_string()]),
                ],
            ),
            Tree::Node(
                "child2".to_string(),
                vec![Tree::Leaf(vec!["gc3".to_string()])],
            ),
        ],
    );
    assert_eq!(tree2.width(), 2);

    let single_leaf = Tree::new_leaf("leaf");
    assert_eq!(single_leaf.width(), 0);
}

#[test]
fn test_node_count() {
    let tree = Tree::Node(
        "root".to_string(),
        vec![Tree::Leaf(vec!["item".to_string()])],
    );
    assert_eq!(tree.node_count(), 1);

    let tree2 = Tree::Node(
        "root".to_string(),
        vec![Tree::Node(
            "child".to_string(),
            vec![Tree::Leaf(vec!["leaf".to_string()])],
        )],
    );
    assert_eq!(tree2.node_count(), 2);

    let leaf = Tree::new_leaf("leaf");
    assert_eq!(leaf.node_count(), 0);
}

#[test]
fn test_leaf_count() {
    let tree = Tree::Node(
        "root".to_string(),
        vec![
            Tree::Leaf(vec!["a".to_string()]),
            Tree::Leaf(vec!["b".to_string()]),
        ],
    );
    assert_eq!(tree.leaf_count(), 2);

    let tree2 = Tree::Node(
        "root".to_string(),
        vec![Tree::Node(
            "child".to_string(),
            vec![
                Tree::Leaf(vec!["a".to_string()]),
                Tree::Leaf(vec!["b".to_string()]),
            ],
        )],
    );
    assert_eq!(tree2.leaf_count(), 2);

    let leaf = Tree::new_leaf("leaf");
    assert_eq!(leaf.leaf_count(), 1);
}

#[test]
fn test_total_lines() {
    let tree = Tree::Node(
        "root".to_string(),
        vec![
            Tree::Leaf(vec!["line1".to_string(), "line2".to_string()]),
            Tree::Leaf(vec!["line3".to_string()]),
        ],
    );
    assert_eq!(tree.total_lines(), 3);

    let leaf = Tree::new_leaf("single");
    assert_eq!(leaf.total_lines(), 1);
}

#[test]
fn test_stats() {
    let tree = Tree::Node(
        "root".to_string(),
        vec![
            Tree::Node(
                "child".to_string(),
                vec![Tree::Leaf(vec!["leaf".to_string()])],
            ),
            Tree::Leaf(vec!["leaf2".to_string()]),
        ],
    );
    let stats = tree.stats();
    assert_eq!(stats.depth, 2);
    assert_eq!(stats.node_count, 2);
    assert_eq!(stats.leaf_count, 2);
    assert_eq!(stats.total_lines, 2);
    assert_eq!(stats.width, 2);
}

#[test]
fn test_pre_order() {
    let tree = Tree::Node(
        "root".to_string(),
        vec![
            Tree::Node("a".to_string(), vec![Tree::Leaf(vec!["a1".to_string()])]),
            Tree::Leaf(vec!["b".to_string()]),
        ],
    );
    let nodes: Vec<_> = PreOrder::new(&tree).collect();
    assert_eq!(nodes.len(), 4);
    assert_eq!(nodes[0].label(), Some("root"));
}

#[test]
fn test_post_order() {
    let tree = Tree::Node(
        "root".to_string(),
        vec![
            Tree::Node("a".to_string(), vec![Tree::Leaf(vec!["a1".to_string()])]),
            Tree::Leaf(vec!["b".to_string()]),
        ],
    );
    let nodes: Vec<_> = PostOrder::new(&tree).collect();
    assert_eq!(nodes.len(), 4);
    // Last should be root
    assert_eq!(nodes[3].label(), Some("root"));
}

#[test]
fn test_level_order() {
    let tree = Tree::Node(
        "root".to_string(),
        vec![
            Tree::Node("a".to_string(), vec![Tree::Leaf(vec!["a1".to_string()])]),
            Tree::Leaf(vec!["b".to_string()]),
        ],
    );
    let nodes: Vec<_> = LevelOrder::new(&tree).collect();
    assert_eq!(nodes.len(), 4);
    assert_eq!(nodes[0].label(), Some("root"));
}

#[test]
fn test_nodes() {
    let tree = Tree::Node(
        "root".to_string(),
        vec![
            Tree::Node("a".to_string(), vec![Tree::Leaf(vec!["a1".to_string()])]),
            Tree::Leaf(vec!["b".to_string()]),
        ],
    );
    let nodes: Vec<_> = Nodes::new(&tree).collect();
    assert_eq!(nodes.len(), 2);
    assert!(nodes.iter().all(|n| n.is_node()));
}

#[test]
fn test_leaves() {
    let tree = Tree::Node(
        "root".to_string(),
        vec![
            Tree::Node("a".to_string(), vec![Tree::Leaf(vec!["a1".to_string()])]),
            Tree::Leaf(vec!["b".to_string()]),
        ],
    );
    let leaves: Vec<_> = Leaves::new(&tree).collect();
    assert_eq!(leaves.len(), 2);
    assert!(leaves.iter().all(|l| l.is_leaf()));
}

#[test]
fn test_builder_api() {
    let mut builder = TreeBuilder::new();
    builder.node("root").leaf("item");
    let tree = builder.build();
    assert!(tree.is_node());
}
