use treelog::{compute_prefix, compute_second_line_prefix, LevelPath, StyleConfig, TreeStyle};

#[test]
fn test_from_parent_chain() {
    let path = LevelPath::from_parent_chain(
        2,
        |idx| match idx {
            1 => Some(0),
            2 => Some(0),
            _ => None,
        },
        |idx| idx == 2,
    );
    assert_eq!(path.as_slice(), &[true]);

    let path = LevelPath::from_parent_chain(
        3,
        |idx| match idx {
            1 => Some(0),
            2 => Some(0),
            3 => Some(1),
            _ => None,
        },
        |idx| idx == 3 || idx == 2,
    );
    assert_eq!(path.as_slice(), &[false, true]);
}

#[test]
fn test_compute_prefix() {
    let style = StyleConfig::default();

    let path = LevelPath::new();
    let prefix = compute_prefix(&path, &style);
    assert_eq!(prefix, "");

    let path = LevelPath::from_vec(vec![false]);
    let prefix = compute_prefix(&path, &style);
    assert!(prefix.contains("├─"));

    let path = LevelPath::from_vec(vec![true]);
    let prefix = compute_prefix(&path, &style);
    assert!(prefix.contains("└─"));

    let path = LevelPath::from_vec(vec![false, true]);
    let prefix = compute_prefix(&path, &style);
    assert!(prefix.contains("│"));
    assert!(prefix.contains("└─"));
}

#[test]
fn test_compute_second_line_prefix() {
    let style = StyleConfig::default();

    let path = LevelPath::new();
    let prefix = compute_second_line_prefix(&path, &style);
    assert_eq!(prefix, "");

    let path = LevelPath::from_vec(vec![false]);
    let prefix = compute_second_line_prefix(&path, &style);
    assert!(prefix.contains("│"));

    let path = LevelPath::from_vec(vec![true]);
    let prefix = compute_second_line_prefix(&path, &style);
    assert!(!prefix.contains("│"));
}

#[test]
fn level_path_value_semantics() {
    let base = LevelPath::from_vec(vec![false]);
    let child = base.with_child(true);
    assert_eq!(base.len(), 1);
    assert_eq!(child.len(), 2);
    assert_eq!(child.iter(), vec![false, true]);
    let mut p = LevelPath::new();
    assert!(p.is_empty());
    p.push(true);
    assert!(!p.is_empty());
    assert_eq!(p.as_slice(), &[true]);
}

#[test]
fn prefix_exact_glyphs() {
    let style = StyleConfig::default();
    let path = LevelPath::from_vec(vec![false, true, false]);
    assert_eq!(compute_prefix(&path, &style), " │     ├─");
    assert_eq!(compute_second_line_prefix(&path, &style), " │     │ ");
}

#[test]
fn prefix_style_substitution_keeps_length() {
    let uni = TreeStyle::unicode();
    let ascii = TreeStyle::ascii();
    let path = LevelPath::from_vec(vec![false, true, true, false]);
    let a = compute_prefix(&path, &uni);
    let b = compute_prefix(&path, &ascii);
    assert_eq!(a.chars().count(), b.chars().count());
    assert_eq!(b, " |        +-");
    assert_eq!(a, " │        ├─");
}
