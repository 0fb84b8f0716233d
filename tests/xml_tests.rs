use treelog::Tree;

#[test]
fn test_from_xml() {
    let xml = r#"<root><child>text</child></root>"#;
    let tree = Tree::from_xml(xml);
    assert!(tree.is_ok());
    let tree = tree.unwrap();
    assert!(tree.is_node());
}

#[test]
fn test_from_xml_with_attributes() {
    let xml = r#"<root id="1"><child class="test">text</child></root>"#;
    let tree = Tree::from_xml(xml);
    assert!(tree.is_ok());
    let tree = tree.unwrap();
    assert!(tree.is_node());
}

#[test]
fn xml_exact_tree() {
    let xml = r#"<root id="1" k="v"><!-- note --><child>  text  </child>  <empty/></root>"#;
    let tree = Tree::from_xml(xml).unwrap();
    let expected = Tree::Node(
        "root [id=1, k=v]".to_string(),
        vec![
            Tree::Node("child".to_string(), vec![Tree::Leaf(vec!["text: text".to_string()])]),
            Tree::Leaf(vec!["empty".to_string()]),
        ],
    );
    assert!(tree == expected);
    assert!(Tree::from_xml("<a>").is_err());
}
