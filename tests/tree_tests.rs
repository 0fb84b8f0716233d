use treelog::Tree;

#[test]
fn test_new_node() {
    let node = Tree::new_node("test");
    assert!(node.is_node());
    assert_eq!(node.label(), Some("test"));
    assert_eq!(node.child_count(), Some(0));
}

#[test]
fn test_new_leaf() {
    let leaf = Tree::new_leaf("line");
    assert!(leaf.is_leaf());
    assert_eq!(leaf.lines(), Some(&["line".to_string()][..]));
}

#[test]
fn test_add_child() {
    let mut node = Tree::new_node("root");
    node.add_child(Tree::new_leaf("child"));
    assert_eq!(node.child_count(), Some(1));
}

#[test]
fn test_add_child_to_leaf() {
    let mut leaf = Tree::new_leaf("leaf");
    assert!(leaf.add_child(Tree::new_leaf("child")).is_none());
}

#[test]
fn tree_equality_is_structural() {
    let a = Tree::Node("r".to_string(), vec![Tree::Leaf(vec!["x".to_string()])]);
    let b = Tree::Node("r".to_string(), vec![Tree::Leaf(vec!["x".to_string()])]);
    let c = Tree::Node("r".to_string(), vec![Tree::Leaf(vec!["y".to_string()])]);
    assert!(a == b);
    assert!(a != c);
    assert!(a.clone() == a);
    assert!(a.is_valid());
    assert!(a.validate().is_ok());
}

#[test]
fn tree_children_access() {
    let mut t = Tree::Node("r".to_string(), vec![Tree::new_leaf("x")]);
    assert_eq!(t.children().map(|c| c.len()), Some(1));
    if let Some(ch) = t.children_mut() {
        ch.push(Tree::new_leaf("y"));
    }
    assert_eq!(t.child_count(), Some(2));
    let l = Tree::new_leaf_lines(vec!["a", "b"]);
    assert_eq!(l.lines().map(|x| x.len()), Some(2));
    assert!(l.children().is_none());
    assert!(l.label().is_none());
}
