//! Tests for tree construction and the name order.

use disk_treemap::scanner::FileSystemNode;
use disk_treemap::scanner::directory_node;
use disk_treemap::scanner::file_node;
use disk_treemap::scanner::name_le;
use disk_treemap::scanner::sort_by_name;
use disk_treemap::scanner::total_size;

#[test]
fn test_file_node_fields() {
    let node = file_node("a.txt".to_string(), 10);
    assert_eq!(node.name, "a.txt");
    assert_eq!(node.size, 10);
    assert!(node.children.is_empty());
}

#[test]
fn test_directory_assembly() {
    // A directory holding `a.txt` (10 bytes) and a subdirectory `sub` with
    // `b.txt` (20 bytes), with the children handed over in enumeration order
    // that is not sorted.
    let b = file_node("b.txt".to_string(), 20);
    let sub = directory_node("sub".to_string(), vec![b]);
    assert_eq!(sub.size, 20);
    assert_eq!(sub.children.len(), 1);
    assert_eq!(sub.children[0].name, "b.txt");
    assert_eq!(sub.children[0].size, 20);

    let a = file_node("a.txt".to_string(), 10);
    let root = directory_node("root".to_string(), vec![sub, a]);
    assert_eq!(root.size, 30);
    assert_eq!(root.children.len(), 2);
    assert_eq!(root.children[0].name, "a.txt");
    assert_eq!(root.children[0].size, 10);
    assert!(root.children[0].children.is_empty());
    assert_eq!(root.children[1].name, "sub");
    assert_eq!(root.children[1].size, 20);
    assert_eq!(root.children[1].children.len(), 1);
}

#[test]
fn test_empty_directory() {
    let node = directory_node("empty".to_string(), vec![]);
    assert_eq!(node.size, 0);
    assert!(node.children.is_empty());
}

#[test]
fn test_sort_by_name_orders_and_keeps() {
    let nodes = vec![
        file_node("c".to_string(), 3),
        file_node("a".to_string(), 1),
        file_node("b".to_string(), 2),
        file_node("a".to_string(), 4),
    ];
    let sorted = sort_by_name(nodes);
    let names: Vec<&str> = sorted.iter().map(|n| n.name.as_str()).collect();
    assert_eq!(names, vec!["a", "a", "b", "c"]);
    let sizes: Vec<u64> = sorted.iter().map(|n| n.size).collect();
    assert_eq!(sizes, vec![1, 4, 2, 3]);
}

#[test]
fn test_name_le_cases() {
    assert!(name_le("a", "b"));
    assert!(!name_le("b", "a"));
    assert!(name_le("abc", "abd"));
    assert!(name_le("ab", "abc"));
    assert!(!name_le("abc", "ab"));
    assert!(name_le("same", "same"));
    assert!(name_le("", "anything"));
    assert!(!name_le("anything", ""));
    // Case-sensitive: upper-case letters precede lower-case ones.
    assert!(name_le("B", "a"));
}

#[test]
fn test_nested_size_aggregation() {
    // Three levels: the root's size is the sum of all leaf sizes.
    let deep = directory_node(
        "deep".to_string(),
        vec![file_node("x".to_string(), 3), file_node("y".to_string(), 4)],
    );
    let mid = directory_node("mid".to_string(), vec![deep, file_node("z".to_string(), 5)]);
    let root = directory_node("root".to_string(), vec![mid, file_node("w".to_string(), 6)]);
    assert_eq!(root.size, 18);
    assert_eq!(root.children[0].name, "mid");
    assert_eq!(root.children[0].size, 12);
    assert_eq!(root.children[0].children[0].name, "deep");
    assert_eq!(root.children[0].children[0].size, 7);
}

#[test]
fn test_total_size_sums() {
    let nodes = vec![
        file_node("x".to_string(), 5),
        file_node("y".to_string(), 7),
        file_node("z".to_string(), 0),
    ];
    assert_eq!(total_size(&nodes), 12);
    let none: Vec<FileSystemNode> = vec![];
    assert_eq!(total_size(&none), 0);
}
