use treelog::config::build_render_config;
use treelog::{render_to_string, write_tree, write_tree_with_config, RenderConfig, Tree, TreeStyle};

#[test]
fn test_write_tree() {
    let tree = Tree::Node(
        "root".to_string(),
        vec![Tree::Leaf(vec!["item".to_string()])],
    );
    let mut output = String::new();
    write_tree(&mut output, &tree).unwrap();
    assert!(output.contains("root"));
    assert!(output.contains("item"));
}

#[test]
fn test_write_tree_with_config() {
    let tree = Tree::Node(
        "root".to_string(),
        vec![Tree::Leaf(vec!["item".to_string()])],
    );
    let config = RenderConfig::default().with_style(TreeStyle::Ascii);
    let mut output = String::new();
    write_tree_with_config(&mut output, &tree, &config).unwrap();
    assert!(output.contains("root"));
    assert!(output.contains("item"));
}

#[test]
fn test_render_to_string() {
    let tree = Tree::Node(
        "root".to_string(),
        vec![Tree::Leaf(vec!["item".to_string()])],
    );
    let output = render_to_string(&tree);
    assert!(output.contains("root"));
    assert!(output.contains("item"));
}

#[test]
fn test_complex_tree() {
    let l1 = Tree::Leaf(vec![
        "line1".to_string(),
        "line2".to_string(),
        "line3".to_string(),
    ]);
    let l2 = Tree::Leaf(vec!["only one line".to_string()]);
    let n1 = Tree::Node("node 1".to_string(), vec![l1.clone(), l2.clone()]);
    let n2 = Tree::Node("node 2".to_string(), vec![l2.clone(), l1.clone()]);
    let n3 = Tree::Node(
        "node 3".to_string(),
        vec![n1.clone(), l1.clone(), l2.clone()],
    );
    let n4 = Tree::Node("node 4".to_string(), vec![n1, n2, n3]);
    let output = render_to_string(&n4);
    assert!(output.contains("node 4"));
    assert!(output.contains("node 1"));
    assert!(output.contains("node 2"));
    assert!(output.contains("node 3"));
}

#[test]
fn test_basic_rendering() {
    let tree = Tree::Node(
        "root".to_string(),
        vec![Tree::Leaf(vec!["item".to_string()])],
    );
    let output = tree.render_to_string();
    assert!(output.contains("root"));
    assert!(output.contains("item"));
}

#[test]
fn render_exact_text() {
    let tree = Tree::Node(
        "root".to_string(),
        vec![
            Tree::Leaf(vec!["a".to_string(), "b".to_string()]),
            Tree::Node("n".to_string(), vec![Tree::Leaf(vec!["c".to_string()])]),
        ],
    );
    let out = tree.render_to_string();
    assert_eq!(out, "root\n ├─a\n │  b\n └─n\n    └─c\n");
    let ascii = RenderConfig::new().with_style(TreeStyle::Ascii);
    let out = tree.render_to_string_with_config(&ascii);
    assert_eq!(out, "root\n +-a\n |  b\n `-n\n    `-c\n");
}

#[test]
fn render_line_ending() {
    let tree = Tree::Node("r".to_string(), vec![Tree::Leaf(vec!["x".to_string()])]);
    let config = RenderConfig::new().with_line_ending("\r\n");
    let mut out = String::new();
    tree.render_to_writer_with_config(&mut out, &config).unwrap();
    assert_eq!(out, "r\r\n └─x\n");
    let mut out2 = String::new();
    tree.render_to_writer(&mut out2).unwrap();
    assert_eq!(out2, "r\n └─x\n");
}

#[test]
fn test_default_config() {
    let config = RenderConfig::default();
    assert!(!config.colors);
    assert_eq!(config.line_ending, "\n");
}

#[test]
fn test_with_style() {
    let config = RenderConfig::default().with_style(TreeStyle::Ascii);
    assert_eq!(config.style.branch, " +-");
}

#[test]
fn test_with_colors() {
    let config = RenderConfig::default().with_colors(true);
    assert!(config.colors);
}

#[test]
fn command_line_config() {
    let c = build_render_config(TreeStyle::Ascii, None, true, false).unwrap();
    assert_eq!(c.style.branch, " +-");
    assert!(c.colors);
    let c = build_render_config(TreeStyle::Unicode, Some(" > , < ,|, "), true, true).unwrap();
    assert_eq!(c.style.branch, ">");
    assert_eq!(c.style.last, "<");
    assert_eq!(c.style.vertical, "|");
    assert_eq!(c.style.empty, "");
    assert!(!c.colors);
    assert!(build_render_config(TreeStyle::Unicode, Some("a,b,c"), false, false).is_err());
    assert!(build_render_config(TreeStyle::Unicode, Some("a,b,c,d,"), false, false).is_err());
}
