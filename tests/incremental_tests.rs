use treelog::incremental::IncrementalTree;
use treelog::{Tree, TreeStyle};

#[test]
fn test_new_tree() {
    let tree = IncrementalTree::new();
    assert!(tree.is_empty());
}

#[test]
fn test_add_root_node() {
    let mut tree = IncrementalTree::new();
    let id = tree.add_node("root", None);
    assert_eq!(tree.len(), 1);
    assert!(tree.get_tree(id).is_some());
    assert!(tree.get_tree(id).unwrap().is_node());
}

#[test]
fn test_add_child_leaf() {
    let mut tree = IncrementalTree::new();
    let root_id = tree.add_node("root", None);
    let _child_id = tree.add_leaf("child", Some(root_id));
    assert_eq!(tree.len(), 2);
    assert!(tree.get_tree(_child_id).is_some());
    assert!(tree.get_tree(_child_id).unwrap().is_leaf());
}

#[test]
fn test_build_tree() {
    let mut tree = IncrementalTree::new();
    let root_id = tree.add_node("root", None);
    let _child_id = tree.add_leaf("child", Some(root_id));

    let tree_enum = tree.build_tree().unwrap();
    assert!(tree_enum.is_node());
    if let Tree::Node(_, children) = tree_enum {
        assert_eq!(children.len(), 1);
        assert!(children[0].is_leaf());
    }
}

#[test]
fn incremental_test_multiple_children() {
    let mut tree = IncrementalTree::new();
    let root_id = tree.add_node("root", None);
    let _child1_id = tree.add_leaf("child1", Some(root_id));
    let _child2_id = tree.add_leaf("child2", Some(root_id));
    assert_eq!(tree.len(), 3);

    let tree_enum = tree.build_tree().unwrap();
    if let Tree::Node(_, children) = tree_enum {
        assert_eq!(children.len(), 2);
    }
}

#[test]
fn test_multiple_roots() {
    let mut tree = IncrementalTree::new();
    let _root1_id = tree.add_node("root1", None);
    let _root2_id = tree.add_node("root2", None);
    assert_eq!(tree.len(), 2);

    let tree_enum = tree.build_tree().unwrap();
    if let Tree::Node(_, children) = tree_enum {
        assert_eq!(children.len(), 2);
    }
}

#[test]
fn test_empty_tree() {
    let tree = IncrementalTree::new();
    assert!(tree.build_tree().is_none());
}

#[test]
fn test_add_leaf_lines() {
    let mut tree = IncrementalTree::new();
    let root_id = tree.add_node("root", None);
    let leaf_id = tree.add_leaf_lines(vec!["line1", "line2"], Some(root_id)).unwrap();

    let leaf = tree.get_tree(leaf_id).unwrap();
    assert!(leaf.is_leaf());
    if let Tree::Leaf(lines) = leaf {
        assert_eq!(lines.len(), 2);
    }
}

#[test]
fn test_get_prefix_for_child() {
    let mut tree = IncrementalTree::new();
    let root_id = tree.add_node("root", None);
    let child_id = tree.add_leaf("child", Some(root_id));

    let prefix = tree.get_prefix(child_id);
    assert!(prefix.is_some());
    assert!(!prefix.unwrap().is_empty());
}

#[test]
fn test_node_as_parent_of_node() {
    let mut tree = IncrementalTree::new();
    let root_id = tree.add_node("root", None);
    let child_node_id = tree.add_node("child", Some(root_id));
    let grandchild_id = tree.add_leaf("grandchild", Some(child_node_id));

    let child_prefix = tree.get_prefix(child_node_id);
    let grandchild_prefix = tree.get_prefix(grandchild_id);

    assert!(child_prefix.is_some());
    assert!(grandchild_prefix.is_some());
    assert!(grandchild_prefix.unwrap().len() > child_prefix.unwrap().len());
}

#[test]
fn test_multiple_siblings_last_child() {
    let mut tree = IncrementalTree::new();
    let root_id = tree.add_node("root", None);
    let child1_id = tree.add_leaf("child1", Some(root_id));
    let child2_id = tree.add_leaf("child2", Some(root_id));
    let child3_id = tree.add_leaf("child3", Some(root_id));

    let prefix1 = tree.get_prefix(child1_id).unwrap();
    let prefix2 = tree.get_prefix(child2_id).unwrap();
    let prefix3 = tree.get_prefix(child3_id).unwrap();

    assert!(prefix1.contains("├"));
    assert!(prefix2.contains("├"));
    assert!(prefix3.contains("└"));
    assert!(!prefix3.contains("├"));
}

#[test]
fn prefix_is_stable_between_queries() {
    let mut tree = IncrementalTree::new();
    let r = tree.add_node("r", None);
    let a = tree.add_node("a", Some(r));
    let b = tree.add_leaf("b", Some(a));
    assert_eq!(tree.get_prefix(b), tree.get_prefix(b));
    assert_eq!(tree.get_prefix(a), tree.get_prefix(a));
}

#[test]
fn prefix_last_glyph_moves_to_new_sibling() {
    let mut tree = IncrementalTree::new();
    let root = tree.add_node("root", None);
    let a = tree.add_leaf("a", Some(root));
    assert_eq!(tree.get_prefix(a).unwrap(), " └─");
    let b = tree.add_leaf("b", Some(root));
    assert_eq!(tree.get_prefix(a).unwrap(), " ├─");
    assert_eq!(tree.get_prefix(b).unwrap(), " └─");
}

#[test]
fn prefix_of_deep_chain() {
    let mut tree = IncrementalTree::new();
    let root = tree.add_node("root", None);
    let n1 = tree.add_node("n1", Some(root));
    let n2 = tree.add_node("n2", Some(n1));
    let leaf = tree.add_leaf("leaf", Some(n2));
    assert_eq!(tree.get_prefix(leaf).unwrap(), "       └─");
    assert_eq!(tree.get_prefix(n2).unwrap(), "    └─");
}

#[test]
fn insert_position_after_whole_subtree() {
    let mut tree = IncrementalTree::new();
    let r = tree.add_node("r", None);
    let c1 = tree.add_node("c1", Some(r));
    let gc1 = tree.add_leaf("gc1", Some(c1));
    assert_eq!(tree.calculate_insert_position_for_existing(r), 0);
    assert_eq!(tree.calculate_insert_position_for_existing(c1), 1);
    assert_eq!(tree.calculate_insert_position_for_existing(gc1), 2);
    assert_eq!(tree.calculate_insert_position(Some(r)), 3);
    let c2 = tree.add_leaf("c2", Some(r));
    assert_eq!(tree.calculate_insert_position_for_existing(c2), 3);
}

#[test]
fn insert_position_between_subtrees() {
    let mut tree = IncrementalTree::new();
    let r = tree.add_node("r", None);
    let a = tree.add_node("a", Some(r));
    let b = tree.add_node("b", Some(r));
    let _b1 = tree.add_leaf("b1", Some(b));
    assert_eq!(tree.calculate_insert_position(Some(a)), 2);
    let a1 = tree.add_leaf("a1", Some(a));
    assert_eq!(tree.calculate_insert_position_for_existing(a1), 2);
    assert_eq!(tree.calculate_insert_position_for_existing(b), 3);
    assert_eq!(tree.calculate_insert_position(None), 5);
}

#[test]
fn root_has_no_prefix() {
    let mut tree = IncrementalTree::new();
    let r = tree.add_node("r", None);
    let s = tree.add_leaf("s", None);
    assert!(tree.get_prefix(r).is_none());
    assert!(tree.get_prefix(s).is_none());
    assert!(tree.get_prefix(99).is_none());
}

#[test]
fn leaf_parent_falls_back_to_root() {
    let mut tree = IncrementalTree::new();
    let leaf = tree.add_leaf("x", None);
    let n = tree.add_node("n", Some(leaf));
    let m = tree.add_node("m", Some(42));
    assert!(tree.get_prefix(n).is_none());
    assert!(tree.get_prefix(m).is_none());
    assert_eq!(tree.calculate_insert_position_for_existing(m), 2);
}

#[test]
fn materialize_round_trip() {
    let mut tree = IncrementalTree::new();
    let root = tree.add_node("root", None);
    let _a = tree.add_leaf("leafA", Some(root));
    let node = tree.add_node("node", Some(root));
    let _b = tree.add_leaf("leafB", Some(node));
    let built = tree.build_tree().unwrap();
    let direct = Tree::Node(
        "root".to_string(),
        vec![
            Tree::Leaf(vec!["leafA".to_string()]),
            Tree::Node("node".to_string(), vec![Tree::Leaf(vec!["leafB".to_string()])]),
        ],
    );
    assert!(built == direct);
}

#[test]
fn materialize_wraps_roots() {
    let mut tree = IncrementalTree::new();
    tree.add_node("first", None);
    tree.add_leaf("second", None);
    let built = tree.build_tree().unwrap();
    let expected = Tree::Node(
        String::new(),
        vec![Tree::Node("first".to_string(), vec![]), Tree::Leaf(vec!["second".to_string()])],
    );
    assert!(built == expected);
}

#[test]
fn materialize_is_a_snapshot() {
    let mut tree = IncrementalTree::new();
    let r = tree.add_node("r", None);
    let snap = tree.build_tree().unwrap();
    tree.add_leaf("x", Some(r));
    assert_eq!(snap.child_count(), Some(0));
    assert_eq!(tree.build_tree().unwrap().child_count(), Some(1));
}

#[test]
fn empty_leaf_lines_rejected() {
    let mut tree = IncrementalTree::new();
    let empty: Vec<&str> = Vec::new();
    assert!(tree.add_leaf_lines(empty, None).is_none());
    assert!(tree.is_empty());
}

#[test]
fn ascii_style_prefixes() {
    let mut tree = IncrementalTree::with_style(TreeStyle::ascii());
    let r = tree.add_node("r", None);
    let a = tree.add_node("a", Some(r));
    let b = tree.add_leaf("b", Some(a));
    let _c = tree.add_leaf("c", Some(r));
    assert_eq!(tree.get_prefix(a).unwrap(), " +-");
    assert_eq!(tree.get_prefix(b).unwrap(), " |  `-");
    assert_eq!(tree.style().branch, " +-");
}

#[test]
fn last_child_glyphs_exact() {
    let mut tree = IncrementalTree::new();
    let root = tree.add_node("root", None);
    let a = tree.add_leaf("a", Some(root));
    let b = tree.add_leaf("b", Some(root));
    let c = tree.add_leaf("c", Some(root));
    assert_eq!(tree.get_prefix(a).unwrap(), " ├─");
    assert_eq!(tree.get_prefix(b).unwrap(), " ├─");
    assert_eq!(tree.get_prefix(c).unwrap(), " └─");
}

#[test]
fn style_substitution_same_structure() {
    let mut uni = IncrementalTree::new();
    let mut asc = IncrementalTree::with_style(TreeStyle::ascii());
    for t in [&mut uni, &mut asc] {
        let r = t.add_node("r", None);
        let a = t.add_node("a", Some(r));
        t.add_leaf("x", Some(a));
        t.add_leaf("y", Some(r));
    }
    for id in 1..4 {
        let p = uni.get_prefix(id).unwrap();
        let q = asc.get_prefix(id).unwrap();
        assert_eq!(p.chars().count(), q.chars().count());
        let mapped: String = p
            .chars()
            .map(|ch| match ch {
                '├' => '+',
                '└' => '`',
                '│' => '|',
                '─' => '-',
                other => other,
            })
            .collect();
        assert_eq!(mapped, q);
    }
}

#[test]
fn strict_additions_refuse_bad_parents() {
    let mut tree = IncrementalTree::new();
    let leaf = tree.add_leaf("x", None);
    assert!(tree.try_add_node("n", Some(leaf)).is_err());
    assert!(tree.try_add_node("n", Some(7)).is_err());
    assert_eq!(tree.len(), 1);
    let root = tree.try_add_node("r", None).unwrap();
    let child = tree.try_add_leaf_lines(vec!["a", "b"], Some(root)).unwrap().unwrap();
    assert_eq!(tree.get_prefix(child).unwrap(), " └─");
    assert!(tree.try_add_leaf_lines(vec![], Some(root)).unwrap().is_none());
    assert!(tree.try_add_leaf_lines(vec!["z"], Some(child)).is_err());
}

#[test]
fn strict_one_line_leaf() {
    let mut tree = IncrementalTree::new();
    let root = tree.add_node("r", None);
    let leaf = tree.try_add_leaf("a", Some(root)).unwrap();
    assert!(tree.try_add_leaf("b", Some(leaf)).is_err());
    assert_eq!(tree.len(), 2);
    assert!(tree.try_add_leaf("c", None).is_ok());
}

#[test]
fn retroactive_update_reaches_descendants() {
    let mut tree = IncrementalTree::new();
    let root = tree.add_node("root", None);
    let a = tree.add_node("a", Some(root));
    let a1 = tree.add_leaf("a1", Some(a));
    assert_eq!(tree.get_prefix(a1).unwrap(), "    └─");
    let _b = tree.add_leaf("b", Some(root));
    assert_eq!(tree.get_prefix(a).unwrap(), " ├─");
    assert_eq!(tree.get_prefix(a1).unwrap(), " │  └─");
}
