use disk_usage::node::{file_node, name_or_placeholder, try_dir_node, Node};
use disk_usage::probe::{on_disk_size, size_or_zero};

fn small_tree() -> Node {
    // a directory of three entries with distinct on-disk sizes, given unsorted
    let f_small = file_node("small".to_string(), 10, 1024);
    let f_big = file_node("big".to_string(), 3000, 4096);
    let f_mid = file_node("mid".to_string(), 100, 2048);
    try_dir_node("root".to_string(), vec![f_small, f_big, f_mid]).unwrap()
}

#[test]
fn file_node_accessors() {
    let f = file_node("a.txt".to_string(), 100, 4096);
    assert_eq!("a.txt", f.name());
    assert_eq!(100, f.size_real());
    assert_eq!(4096, f.size_on_disk());
    assert!(f.is_file());
}

#[test]
fn dir_children_sorted_by_disk_size_descending() {
    let root = small_tree();
    match &root {
        Node::Dir { nodes, .. } => {
            assert_eq!(3, nodes.len());
            assert_eq!("big", nodes[0].name());
            assert_eq!("mid", nodes[1].name());
            assert_eq!("small", nodes[2].name());
            for i in 0..nodes.len() - 1 {
                assert!(nodes[i].size_on_disk() >= nodes[i + 1].size_on_disk());
            }
        }
        Node::File { .. } => panic!("expected a directory"),
    }
}

#[test]
fn dir_aggregates_are_sums_of_children() {
    let root = small_tree();
    assert_eq!(10 + 3000 + 100, root.size_real());
    assert_eq!(1024 + 4096 + 2048, root.size_on_disk());
    assert!(!root.is_file());
    assert_eq!("root", root.name());
}

#[test]
fn dir_aggregates_hold_at_every_depth() {
    let leaf_a = file_node("a".to_string(), 7, 8);
    let leaf_b = file_node("b".to_string(), 5, 16);
    let inner = try_dir_node("inner".to_string(), vec![leaf_a, leaf_b]).unwrap();
    assert_eq!(12, inner.size_real());
    assert_eq!(24, inner.size_on_disk());
    let leaf_c = file_node("c".to_string(), 1, 32);
    let outer = try_dir_node("outer".to_string(), vec![inner, leaf_c]).unwrap();
    assert_eq!(13, outer.size_real());
    assert_eq!(56, outer.size_on_disk());
    match &outer {
        Node::Dir { nodes, .. } => {
            // the inner directory allocates less on disk than leaf c
            assert_eq!("c", nodes[0].name());
            assert_eq!("inner", nodes[1].name());
        }
        Node::File { .. } => panic!("expected a directory"),
    }
}

#[test]
fn equal_disk_sizes_keep_listing_order() {
    let x = file_node("x".to_string(), 1, 100);
    let y = file_node("y".to_string(), 2, 100);
    let z = file_node("z".to_string(), 3, 100);
    let dir = try_dir_node("ties".to_string(), vec![x, y, z]).unwrap();
    match &dir {
        Node::Dir { nodes, .. } => {
            assert_eq!("x", nodes[0].name());
            assert_eq!("y", nodes[1].name());
            assert_eq!("z", nodes[2].name());
        }
        Node::File { .. } => panic!("expected a directory"),
    }
}

#[test]
fn empty_dir_has_zero_sizes() {
    let dir = try_dir_node("empty".to_string(), Vec::new()).unwrap();
    assert_eq!(0, dir.size_real());
    assert_eq!(0, dir.size_on_disk());
    assert!(!dir.is_file());
}

#[test]
fn undecodable_names_fall_back_to_the_placeholder() {
    assert_eq!("a.txt", name_or_placeholder(Some("a.txt".to_string())));
    assert_eq!("<invalid name>", name_or_placeholder(None));
}

#[test]
fn unreadable_sizes_fall_back_to_zero() {
    assert_eq!(123, size_or_zero(Some(123)));
    assert_eq!(0, size_or_zero(None));
}

#[test]
fn on_disk_size_rounds_up_to_the_cluster() {
    assert_eq!(0, on_disk_size(0, 4096));
    assert_eq!(4096, on_disk_size(1, 4096));
    assert_eq!(4096, on_disk_size(4096, 4096));
    assert_eq!(8192, on_disk_size(4097, 4096));
    assert_eq!(512, on_disk_size(200, 512));
    assert_eq!(77, on_disk_size(77, 1));
}

#[test]
fn overflowing_logical_sum_is_refused() {
    let a = file_node("a".to_string(), u64::MAX, 1);
    let b = file_node("b".to_string(), 1, 1);
    assert!(try_dir_node("over".to_string(), vec![a, b]).is_none());
}

#[test]
fn overflowing_disk_sum_is_refused() {
    let a = file_node("a".to_string(), 1, u64::MAX);
    let b = file_node("b".to_string(), 1, 1);
    assert!(try_dir_node("over".to_string(), vec![a, b]).is_none());
}
