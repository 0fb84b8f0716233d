use clap::{Arg, Command};
use treelog::Tree;

#[test]
fn test_from_clap_command() {
    let cmd = Command::new("test").subcommand(Command::new("sub"));
    let tree = Tree::from_clap_command(&cmd);
    assert!(tree.is_node());
    assert_eq!(tree.label(), Some("test"));
}

#[test]
fn test_from_clap_command_with_args() {
    let cmd = Command::new("test").arg(Arg::new("input").short('i').long("input"));
    let tree = Tree::from_clap_command(&cmd);
    assert!(tree.is_node());
}

#[test]
fn clap_command_exact_tree() {
    let cmd = Command::new("app")
        .subcommand(Command::new("run"))
        .arg(Arg::new("input").short('i').long("input").help("file to read"))
        .arg(Arg::new("verbose").long("verbose"))
        .arg(Arg::new("name"));
    let tree = Tree::from_clap_command(&cmd);
    let expected = Tree::Node(
        "app".to_string(),
        vec![
            Tree::Leaf(vec!["run".to_string()]),
            Tree::Leaf(vec!["arg: -i, --input (file to read)".to_string()]),
            Tree::Leaf(vec!["arg: --verbose".to_string()]),
            Tree::Leaf(vec!["arg: name".to_string()]),
        ],
    );
    assert!(tree == expected);
}
