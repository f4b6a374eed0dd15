use std::cell::RefCell;
use tree::mem::TreeNode;
use tree::{recurse, HasChildren, Node};

type Entry = (Option<String>, u64);

fn leaf(label: &str) -> TreeNode {
    TreeNode::new(label.to_string(), HasChildren::False, Vec::new())
}

fn dir(label: &str, children: Vec<TreeNode>) -> TreeNode {
    TreeNode::new(label.to_string(), HasChildren::Maybe, children)
}

fn walk_log(root: &TreeNode) -> Vec<Entry> {
    let log: RefCell<Vec<Entry>> = RefCell::new(Vec::new());
    let log_ref = &log;
    recurse(root, move |node: Option<&TreeNode>, depth: u64| {
        log_ref
            .borrow_mut()
            .push((node.map(|n| n.render_label()), depth));
        true
    });
    log.into_inner()
}

fn walk_log_stopping_at(root: &TreeNode, stop_label: &str) -> Vec<Entry> {
    let log: RefCell<Vec<Entry>> = RefCell::new(Vec::new());
    let log_ref = &log;
    let stop = stop_label.to_string();
    let stop_ref = &stop;
    recurse(root, move |node: Option<&TreeNode>, depth: u64| {
        let label = node.map(|n| n.render_label());
        log_ref.borrow_mut().push((label.clone(), depth));
        label.as_deref() != Some(stop_ref.as_str())
    });
    log.into_inner()
}

#[test]
fn ordering() {
    let root = dir("root", vec![leaf("b"), leaf("a"), leaf("c")]);
    let log = walk_log(&root);
    let expected: Vec<Entry> = vec![
        (Some("root".to_string()), 0),
        (Some("a".to_string()), 1),
        (Some("b".to_string()), 1),
        (Some("c".to_string()), 1),
        (None, 1),
    ];
    assert_eq!(expected, log);
}

#[test]
fn leaf_short_circuit() {
    // A node that rules children out is taken at its word: even if it holds
    // children, the walk neither enumerates nor visits them.
    let root = TreeNode::new(
        "root".to_string(),
        HasChildren::False,
        vec![leaf("stray")],
    );
    let log = walk_log(&root);
    let expected: Vec<Entry> = vec![(Some("root".to_string()), 0)];
    assert_eq!(expected, log);
}

#[test]
fn empty_container_equivalence() {
    let maybe_root = dir("root", Vec::new());
    let leaf_root = leaf("root");
    let maybe_log = walk_log(&maybe_root);
    let leaf_log = walk_log(&leaf_root);

    // Neither walk visits any descendant node.
    let maybe_nodes: Vec<&Entry> = maybe_log.iter().filter(|e| e.0.is_some()).collect();
    let leaf_nodes: Vec<&Entry> = leaf_log.iter().filter(|e| e.0.is_some()).collect();
    assert_eq!(maybe_nodes, leaf_nodes);

    // The empty container gets exactly one extra sentinel call; the leaf
    // none at all.
    assert_eq!(
        vec![(Some("root".to_string()), 0), (None, 1)],
        maybe_log
    );
    assert_eq!(vec![(Some("root".to_string()), 0)], leaf_log);
}

#[test]
fn early_termination_scope() {
    // root -> {a, b}, a -> {a1, a2}: stopping at a1 skips a2 but still
    // reaches b, a's sibling one level up.
    let root = dir("root", vec![dir("a", vec![leaf("a1"), leaf("a2")]), leaf("b")]);
    let log = walk_log_stopping_at(&root, "a1");
    let expected: Vec<Entry> = vec![
        (Some("root".to_string()), 0),
        (Some("a".to_string()), 1),
        (Some("a1".to_string()), 2),
        (Some("b".to_string()), 1),
        (None, 1),
    ];
    assert_eq!(expected, log);
    assert!(!log.contains(&(Some("a2".to_string()), 2)));
}

#[test]
fn depth_accounting() {
    // root -> x -> y: depths 0, 1, 2.
    let root = dir("root", vec![dir("x", vec![leaf("y")])]);
    let log = walk_log(&root);
    let expected: Vec<Entry> = vec![
        (Some("root".to_string()), 0),
        (Some("x".to_string()), 1),
        (Some("y".to_string()), 2),
        (None, 2),
        (None, 1),
    ];
    assert_eq!(expected, log);
}

#[test]
fn idempotent_labels() {
    let node = dir("steady", vec![leaf("child")]);
    assert_eq!(node.render_label(), node.render_label());
}

#[test]
fn stable_tie_order() {
    // Two children share a label; the one enumerated first is visited first.
    // The first is an expandable node, so its sentinel tells them apart.
    let root = dir("root", vec![dir("x", vec![leaf("inner")]), leaf("x")]);
    let log = walk_log(&root);
    let expected: Vec<Entry> = vec![
        (Some("root".to_string()), 0),
        (Some("x".to_string()), 1),
        (Some("inner".to_string()), 2),
        (None, 2),
        (Some("x".to_string()), 1),
        (None, 1),
    ];
    assert_eq!(expected, log);
}

#[test]
fn nested_ordering() {
    // Both levels are enumerated out of order; both are visited sorted.
    let root = dir("root", vec![dir("d", vec![leaf("c"), leaf("b")]), leaf("a")]);
    let log = walk_log(&root);
    let expected: Vec<Entry> = vec![
        (Some("root".to_string()), 0),
        (Some("a".to_string()), 1),
        (Some("d".to_string()), 1),
        (Some("b".to_string()), 2),
        (Some("c".to_string()), 2),
        (None, 2),
        (None, 1),
    ];
    assert_eq!(expected, log);
}

#[test]
fn stop_at_root_visits_nothing_else() {
    let root = dir("root", vec![leaf("a")]);
    let log = walk_log_stopping_at(&root, "root");
    let expected: Vec<Entry> = vec![(Some("root".to_string()), 0)];
    assert_eq!(expected, log);
}

#[test]
fn true_kind_is_descended() {
    let root = TreeNode::new(
        "root".to_string(),
        HasChildren::True,
        vec![leaf("only")],
    );
    let log = walk_log(&root);
    let expected: Vec<Entry> = vec![
        (Some("root".to_string()), 0),
        (Some("only".to_string()), 1),
        (None, 1),
    ];
    assert_eq!(expected, log);
}

#[test]
fn duplicate_preserves_tree() {
    let root = dir("root", vec![dir("x", vec![leaf("y")]), leaf("z")]);
    let copy = root.duplicate();
    assert_eq!(walk_log(&root), walk_log(&copy));
}
