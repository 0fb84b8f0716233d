use treelog::data::{DataEntry, DataFormat, DataValue};
use treelog::Tree;

#[test]
    fn test_from_arbitrary_json() {
        let json_str = r#"
{
  "package": {
    "name": "treelog",
    "version": "0.0.4"
  }
}
"#;
        let tree = Tree::from_arbitrary_json(json_str);
        assert!(tree.is_ok());
        let tree = tree.unwrap();
        assert!(tree.is_node());
    }

#[test]
fn test_from_arbitrary_json_array() {
    let json_str = r#"{"dependencies": ["serde", "toml"]}"#;
    let tree = Tree::from_arbitrary_json(json_str);
    assert!(tree.is_ok());
}

#[test]
    fn test_from_arbitrary_toml() {
        let toml_str = r#"
[package]
name = "treelog"
version = "0.0.4"
"#;
        let tree = Tree::from_arbitrary_toml(toml_str);
        assert!(tree.is_ok());
        let tree = tree.unwrap();
        assert!(tree.is_node());
    }

#[test]
    fn test_from_arbitrary_toml_array() {
        let toml_str = r#"
dependencies = ["serde", "toml"]
"#;
        let tree = Tree::from_arbitrary_toml(toml_str);
        assert!(tree.is_ok());
    }

#[test]
    fn test_from_arbitrary_yaml() {
        let yaml_str = r#"
package:
  name: treelog
  version: 0.0.4
"#;
        let tree = Tree::from_arbitrary_yaml(yaml_str);
        assert!(tree.is_ok());
        let tree = tree.unwrap();
        assert!(tree.is_node());
    }

#[test]
    fn test_from_arbitrary_yaml_array() {
        let yaml_str = r#"
dependencies:
  - serde
  - toml
"#;
        let tree = Tree::from_arbitrary_yaml(yaml_str);
        assert!(tree.is_ok());
    }

#[test]
fn json_document_exact_tree() {
    let tree = Tree::from_arbitrary_json(r#"{"b": [1, "x"], "a": {}}"#).unwrap();
    let expected = Tree::Node(
        "object".to_string(),
        vec![
            Tree::Leaf(vec!["\"a\": {}".to_string()]),
            Tree::Node(
                "b".to_string(),
                vec![Tree::Node(
                    "array".to_string(),
                    vec![
                        Tree::Node("[0]".to_string(), vec![Tree::Leaf(vec!["1".to_string()])]),
                        Tree::Node("[1]".to_string(), vec![Tree::Leaf(vec!["\"x\"".to_string()])]),
                    ],
                )],
            ),
        ],
    );
    assert!(tree == expected);
}

#[test]
fn yaml_and_toml_key_forms() {
    let y = Tree::from_arbitrary_yaml("name: tree\n").unwrap();
    assert!(y == Tree::Node("object".to_string(), vec![Tree::Leaf(vec!["name: \"tree\"".to_string()])]));
    let t = Tree::from_arbitrary_toml("n = 3\n").unwrap();
    assert!(t == Tree::Node("table".to_string(), vec![Tree::Leaf(vec!["n = 3".to_string()])]));
}

#[test]
fn malformed_documents_are_errors() {
    assert!(Tree::from_arbitrary_json("{").is_err());
    assert!(Tree::from_arbitrary_toml("= =").is_err());
}

#[test]
fn data_value_empty_containers() {
    let v = DataValue::Keyed(vec![DataEntry { key: "k".to_string(), value: DataValue::List(vec![]) }]);
    let t = Tree::from_data(&v, &DataFormat::Toml);
    assert!(t == Tree::Node("table".to_string(), vec![Tree::Leaf(vec!["k = []".to_string()])]));
}

#[test]
fn json_null_and_booleans() {
    let tree = Tree::from_arbitrary_json(r#"[null, true, false]"#).unwrap();
    let expected = Tree::Node(
        "array".to_string(),
        vec![
            Tree::Node("[0]".to_string(), vec![Tree::Leaf(vec!["null".to_string()])]),
            Tree::Node("[1]".to_string(), vec![Tree::Leaf(vec!["true".to_string()])]),
            Tree::Node("[2]".to_string(), vec![Tree::Leaf(vec!["false".to_string()])]),
        ],
    );
    assert!(tree == expected);
    let t = Tree::from_data(&DataValue::Null, &DataFormat::Yaml);
    assert!(t == Tree::Leaf(vec!["null".to_string()]));
}
