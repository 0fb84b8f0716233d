use treelog::iterator::TreeLines;
use treelog::renderer::estimate_capacity;
use treelog::{Tree, TreeIteratorExt};

#[test]
fn export_test_to_html() {
    let tree = Tree::Node(
        "root".to_string(),
        vec![Tree::Leaf(vec!["item".to_string()])],
    );
    let html = tree.to_html();
    assert!(html.contains("root"));
    assert!(html.contains("item"));
}

#[test]
fn export_test_to_dot() {
    let tree = Tree::Node(
        "root".to_string(),
        vec![Tree::Leaf(vec!["item".to_string()])],
    );
    let dot = tree.to_dot();
    assert!(dot.contains("root"));
    assert!(dot.contains("digraph"));
}

#[test]
fn dot_test_to_dot() {
    let tree = Tree::Node(
        "root".to_string(),
        vec![Tree::Leaf(vec!["item".to_string()])],
    );
    let dot = tree.to_dot();
    assert!(dot.contains("root"));
    assert!(dot.contains("digraph"));
}

#[test]
fn html_test_to_html() {
    let tree = Tree::Node(
        "root".to_string(),
        vec![Tree::Leaf(vec!["item".to_string()])],
    );
    let html = tree.to_html();
    assert!(html.contains("root"));
    assert!(html.contains("item"));
}

#[test]
fn mod_test_to_html() {
    let tree = Tree::Node(
        "root".to_string(),
        vec![Tree::Leaf(vec!["item".to_string()])],
    );
    let html = tree.to_html();
    assert!(html.contains("root"));
    assert!(html.contains("item"));
}

#[test]
fn mod_test_to_dot() {
    let tree = Tree::Node(
        "root".to_string(),
        vec![Tree::Leaf(vec!["item".to_string()])],
    );
    let dot = tree.to_dot();
    assert!(dot.contains("root"));
    assert!(dot.contains("digraph"));
}

#[test]
fn test_tree_lines_simple() {
    let tree = Tree::Node(
        "root".to_string(),
        vec![Tree::Leaf(vec!["item".to_string()])],
    );
    let lines: Vec<_> = TreeLines::new(&tree).collect();
    assert!(lines.len() >= 2);
}

#[test]
fn test_to_lines() {
    let tree = Tree::Node(
        "root".to_string(),
        vec![Tree::Leaf(vec!["item".to_string()])],
    );
    let lines = tree.to_lines();
    assert!(!lines.is_empty());
}

#[test]
fn test_map_nodes() {
    let tree = Tree::Node(
        "root".to_string(),
        vec![Tree::Node("child".to_string(), vec![])],
    );
    let transformed = tree.map_nodes(|label| format!("[{label}]"));
    assert_eq!(transformed.label(), Some("[root]"));
    if let Tree::Node(_, children) = &transformed {
        assert_eq!(children[0].label(), Some("[child]"));
    }
}

#[test]
fn test_map_leaves() {
    let tree = Tree::Node(
        "root".to_string(),
        vec![Tree::Leaf(vec!["item".to_string()])],
    );
    let transformed = tree.map_leaves(|line| format!("- {line}"));
    if let Tree::Node(_, children) = &transformed {
        if let Tree::Leaf(lines) = &children[0] {
            assert_eq!(lines[0], "- item");
        }
    }
}

#[test]
fn test_filter() {
    let tree = Tree::Node(
        "root".to_string(),
        vec![
            Tree::Leaf(vec!["keep".to_string()]),
            Tree::Leaf(vec!["remove".to_string()]),
        ],
    );
    let filtered = tree.filter(|t| match t {
        Tree::Leaf(lines) => lines.iter().any(|l| l.contains("keep")),
        Tree::Node(_, _) => true,
    });
    assert!(filtered.is_some());
    if let Tree::Node(_, children) = filtered.unwrap() {
        assert_eq!(children.len(), 1);
    }
}

#[test]
fn test_prune() {
    let tree = Tree::Node(
        "root".to_string(),
        vec![
            Tree::Leaf(vec!["keep".to_string()]),
            Tree::Leaf(vec!["remove".to_string()]),
        ],
    );
    let pruned = tree.prune(|t| match t {
        Tree::Leaf(lines) => lines.iter().any(|l| l.contains("remove")),
        Tree::Node(_, _) => false,
    });
    assert!(pruned.is_some());
    if let Tree::Node(_, children) = pruned.unwrap() {
        assert_eq!(children.len(), 1);
    }
}

#[test]
fn test_estimate_capacity() {
    let tree = Tree::Node(
        "root".to_string(),
        vec![
            Tree::Leaf(vec!["line1".to_string()]),
            Tree::Leaf(vec!["line2".to_string()]),
        ],
    );
    let capacity = estimate_capacity(&tree, 10);
    assert!(capacity > 0);
}

#[test]
fn test_iterator_api() {
    let tree = Tree::Node(
        "root".to_string(),
        vec![Tree::Leaf(vec!["item".to_string()])],
    );
    let lines: Vec<_> = TreeIteratorExt::lines(&tree).collect();
    assert!(!lines.is_empty());
}

#[test]
fn lines_exact_values() {
    let tree = Tree::Node(
        "root".to_string(),
        vec![
            Tree::Node("a".to_string(), vec![Tree::Leaf(vec!["x".to_string(), "y".to_string()])]),
            Tree::Leaf(vec!["b".to_string()]),
        ],
    );
    let lines = tree.to_lines();
    assert_eq!(lines, vec!["root", " ├─a", " │  └─x", " │    y", " └─b"]);
    let mut it = TreeLines::new(&tree);
    let first = it.next().unwrap();
    assert_eq!(first.depth, 0);
    assert!(first.is_last);
    let second = it.next().unwrap();
    assert_eq!(second.content, "a");
    assert_eq!(second.prefix, " ├─");
    assert_eq!(second.depth, 1);
    assert!(!second.is_last);
    let third = it.next().unwrap();
    assert_eq!(third.depth, 2);
}

#[test]
fn dot_exact_text() {
    let tree = Tree::Node(
        "r\"q".to_string(),
        vec![Tree::Leaf(vec!["a".to_string()]), Tree::Node("n".to_string(), vec![])],
    );
    assert_eq!(
        tree.to_dot(),
        "digraph Tree {\n  node0 [label=\"r\\\"q\"];\n  node1 [label=\"a\", shape=box];\n  node0 -> node1;\n  node2 [label=\"n\"];\n  node0 -> node2;\n}\n"
    );
}

#[test]
fn html_escapes_and_nests() {
    let tree = Tree::Node("a<b".to_string(), vec![Tree::Leaf(vec!["x&y".to_string()])]);
    let html = tree.to_html();
    assert!(html.contains("<summary>a&lt;b</summary>"));
    assert!(html.contains("    <li>x&amp;y</li>\n"));
    assert!(html.ends_with("</ul></div>"));
}

#[test]
fn capacity_exact_value() {
    let tree = Tree::Node(
        "root".to_string(),
        vec![Tree::Leaf(vec!["line1".to_string(), "line2".to_string()])],
    );
    assert_eq!(estimate_capacity(&tree, 10), 3 * 21);
}

#[test]
fn child_line_is_one_level_deeper() {
    let tree = Tree::Node("root".to_string(), vec![Tree::Leaf(vec!["item".to_string()])]);
    let lines = TreeLines::new(&tree).collect();
    assert_eq!(lines.len(), 2);
    assert_eq!(lines[1].prefix, " └─");
    assert_eq!(lines[1].depth, 1);
    assert!(lines[1].is_last);
}
