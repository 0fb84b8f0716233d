use treelog::{StyleConfig, TreeStyle};

#[test]
fn test_default_style() {
    let config = StyleConfig::default();
    assert_eq!(config.branch, " ├─");
    assert_eq!(config.last, " └─");
}

#[test]
fn test_unicode_style() {
    let config = TreeStyle::unicode();
    assert_eq!(config.branch, " ├─");
    assert_eq!(config.last, " └─");
}

#[test]
fn test_ascii_style() {
    let config = TreeStyle::ascii();
    assert_eq!(config.branch, " +-");
    assert_eq!(config.last, " `-");
}

#[test]
fn test_custom_style() {
    let config = StyleConfig::custom(">", "<", "|", " ");
    assert_eq!(config.branch, ">");
    assert_eq!(config.last, "<");
}

#[test]
fn test_get_branch() {
    let config = StyleConfig::default();
    assert_eq!(config.get_branch(false), " ├─");
    assert_eq!(config.get_branch(true), " └─");
}

#[test]
fn style_box_drawing_is_unicode() {
    let config = TreeStyle::box_drawing();
    assert_eq!(config.vertical, " │ ");
    assert_eq!(config.empty, "   ");
    assert_eq!(config.get_vertical(), " │ ");
    assert_eq!(config.get_empty(), "   ");
}

#[test]
fn style_custom_variant_converts() {
    let style = TreeStyle::Custom {
        branch: "a".to_string(),
        last: "b".to_string(),
        vertical: "c".to_string(),
        empty: "d".to_string(),
    };
    let config = style.to_config();
    assert_eq!(config.branch, "a");
    assert_eq!(config.last, "b");
    assert_eq!(config.vertical, "c");
    assert_eq!(config.empty, "d");
}
