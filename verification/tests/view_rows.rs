use disk_usage::node::{file_node, try_dir_node};
use disk_usage::rows::node_ref_to_size_items;

#[test]
fn rows_keep_child_order_and_names() {
    let a = file_node("a".to_string(), 10, 1024);
    let b = file_node("b".to_string(), 30, 4096);
    let dir = try_dir_node("d".to_string(), vec![a, b]).unwrap();
    let rows = node_ref_to_size_items(&dir);
    assert_eq!(2, rows.len());
    assert_eq!("b", rows[0].name);
    assert_eq!("a", rows[1].name);
    assert!(rows[0].is_file);
    assert!(rows[1].is_file);
}

#[test]
fn row_size_string_combines_both_sizes() {
    let f = file_node("f".to_string(), 4096, 8192);
    let dir = try_dir_node("d".to_string(), vec![f]).unwrap();
    let rows = node_ref_to_size_items(&dir);
    assert_eq!("4.09 kB (8.19 kB on disk)", rows[0].size_string);
}

#[test]
fn relative_sizes_are_normalized_against_the_largest_sibling() {
    let a = file_node("a".to_string(), 10, 1024);
    let b = file_node("b".to_string(), 30, 4096);
    let c = file_node("c".to_string(), 40, 2048);
    let dir = try_dir_node("d".to_string(), vec![a, b, c]).unwrap();
    let rows = node_ref_to_size_items(&dir);
    // sorted by on-disk size: b, c, a
    assert_eq!(4096, rows[0].relative_disk_size.numerator);
    assert_eq!(4096, rows[0].relative_disk_size.denominator);
    assert_eq!(2048, rows[1].relative_disk_size.numerator);
    assert_eq!(4096, rows[1].relative_disk_size.denominator);
    assert_eq!(1024, rows[2].relative_disk_size.numerator);
    assert_eq!(4096, rows[2].relative_disk_size.denominator);
    assert_eq!(30, rows[0].relative_real_size.numerator);
    assert_eq!(40, rows[0].relative_real_size.denominator);
    assert_eq!(40, rows[1].relative_real_size.numerator);
    assert_eq!(40, rows[1].relative_real_size.denominator);
    // every ratio lies in [0, 1] and each dimension attains 1 somewhere
    for row in &rows {
        assert!(row.relative_real_size.numerator <= row.relative_real_size.denominator);
        assert!(row.relative_disk_size.numerator <= row.relative_disk_size.denominator);
    }
    assert!(rows.iter().any(|r| r.relative_real_size.numerator == r.relative_real_size.denominator));
    assert!(rows.iter().any(|r| r.relative_disk_size.numerator == r.relative_disk_size.denominator));
}

#[test]
fn lone_file_view_shows_only_the_logical_size() {
    let f = file_node("f".to_string(), 4096, 8192);
    let rows = node_ref_to_size_items(&f);
    assert_eq!(1, rows.len());
    assert_eq!("f", rows[0].name);
    assert_eq!("4.09 kB", rows[0].size_string);
    assert_eq!(1, rows[0].relative_real_size.numerator);
    assert_eq!(1, rows[0].relative_real_size.denominator);
    assert_eq!(1, rows[0].relative_disk_size.numerator);
    assert_eq!(1, rows[0].relative_disk_size.denominator);
    assert!(rows[0].is_file);
}

#[test]
fn empty_dir_projects_no_rows() {
    let dir = try_dir_node("d".to_string(), Vec::new()).unwrap();
    let rows = node_ref_to_size_items(&dir);
    assert!(rows.is_empty());
}

#[test]
fn all_zero_children_normalize_against_one() {
    // a sibling list whose largest size is zero normalizes against 1, so the
    // relative sizes stay within [0, 1] instead of dividing zero by zero
    let a = file_node("a".to_string(), 0, 0);
    let b = file_node("b".to_string(), 0, 0);
    let dir = try_dir_node("d".to_string(), vec![a, b]).unwrap();
    let rows = node_ref_to_size_items(&dir);
    for row in &rows {
        assert_eq!(0, row.relative_real_size.numerator);
        assert_eq!(1, row.relative_real_size.denominator);
        assert_eq!(0, row.relative_disk_size.numerator);
        assert_eq!(1, row.relative_disk_size.denominator);
    }
}

#[test]
fn subdirectory_row_uses_aggregate_sizes() {
    let leaf = file_node("leaf".to_string(), 600, 2048);
    let inner = try_dir_node("inner".to_string(), vec![leaf]).unwrap();
    let other = file_node("other".to_string(), 100, 1024);
    let outer = try_dir_node("outer".to_string(), vec![inner, other]).unwrap();
    let rows = node_ref_to_size_items(&outer);
    assert_eq!("inner", rows[0].name);
    assert!(!rows[0].is_file);
    assert_eq!("600 B (2.04 kB on disk)", rows[0].size_string);
    assert_eq!(2048, rows[0].relative_disk_size.numerator);
    assert_eq!(2048, rows[0].relative_disk_size.denominator);
}
