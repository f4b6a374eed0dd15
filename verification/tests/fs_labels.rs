use tree::fs::FileSystemNode;
use tree::order::label_le;
use tree::HasChildren;

#[test]
fn directory_label_gets_separator() {
    let d = FileSystemNode::new("/repo/src".to_string(), true);
    assert_eq!("/repo/src", d.path());
    assert!(d.is_dir());
    assert!(!d.is_file());
    assert_eq!("src/", d.render_label());
    assert_eq!("/repo/src/", d.full_label());
    assert_eq!(HasChildren::Maybe, d.has_nodes());
}

#[test]
fn file_label_is_bare_name() {
    let f = FileSystemNode::new("/repo/Cargo.toml".to_string(), false);
    assert_eq!("/repo/Cargo.toml", f.path());
    assert!(!f.is_dir());
    assert!(f.is_file());
    assert_eq!("Cargo.toml", f.render_label());
    assert_eq!("/repo/Cargo.toml", f.full_label());
    assert_eq!(HasChildren::False, f.has_nodes());
}

#[test]
fn label_without_separator_is_whole_path() {
    let f = FileSystemNode::new("notes.txt".to_string(), false);
    assert_eq!("notes.txt", f.render_label());
    assert_eq!("notes.txt", f.full_label());
}

#[test]
fn root_directory_label() {
    let d = FileSystemNode::new("/".to_string(), true);
    assert_eq!("/", d.render_label());
    assert_eq!("//", d.full_label());
}

#[test]
fn label_order_is_lexicographic() {
    assert!(label_le("a", "b"));
    assert!(!label_le("b", "a"));
    assert!(label_le("a", "a"));
    assert!(label_le("a", "ab"));
    assert!(!label_le("ab", "a"));
    assert!(label_le("", "anything"));
    assert!(label_le("A", "a"));
    assert!(!label_le("a", "A"));
}
