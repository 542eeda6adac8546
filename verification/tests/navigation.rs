use disk_usage::node::{file_node, try_dir_node, Node};
use disk_usage::state::AppState;

// root with three children sorted as: big (file), sub (dir), small (file)
fn scanned_state() -> AppState {
    let mut state = AppState::new();
    state.scan_root_from(sample_tree());
    state
}

fn sample_tree() -> Node {
    let inner = file_node("inner".to_string(), 100, 2048);
    let sub = try_dir_node("sub".to_string(), vec![inner]).unwrap();
    let f_big = file_node("big".to_string(), 3000, 4096);
    let f_small = file_node("small".to_string(), 10, 1024);
    try_dir_node("root".to_string(), vec![f_big, sub, f_small]).unwrap()
}

#[test]
fn scan_returns_the_root_view() {
    let mut state = AppState::new();
    let items = state.scan_root_from(sample_tree());
    assert_eq!(3, items.len());
    assert_eq!("big", items[0].name);
    assert_eq!("sub", items[1].name);
    assert_eq!("small", items[2].name);
}

#[test]
fn step_into_directory_returns_its_children() {
    let mut state = scanned_state();
    let items = state.step_into(1).expect("stepping into a directory");
    assert_eq!(1, items.len());
    assert_eq!("inner", items[0].name);
}

#[test]
fn step_into_then_out_restores_the_previous_view() {
    let mut state = scanned_state();
    let before = state.root_size_items();
    state.step_into(1).expect("stepping into a directory");
    let (restore_index, after) = state.step_out().expect("stepping back out");
    assert_eq!(1, restore_index);
    assert_eq!(before, after);
}

#[test]
fn step_out_at_root_is_a_no_op() {
    let mut state = scanned_state();
    assert!(state.step_out().is_none());
}

#[test]
fn step_into_out_of_range_resets_to_root() {
    let mut state = scanned_state();
    let items = state.step_into(3).expect("recovery returns the root view");
    assert_eq!(3, items.len());
    assert_eq!("big", items[0].name);
    // the cursor is back at the root: there is nothing to step out of
    assert!(state.step_out().is_none());
}

#[test]
fn step_into_negative_index_resets_to_root() {
    let mut state = scanned_state();
    state.step_into(1).expect("stepping into a directory");
    let items = state.step_into(-1).expect("recovery returns the root view");
    assert_eq!(3, items.len());
    assert_eq!("big", items[0].name);
    assert!(state.step_out().is_none());
}

#[test]
fn step_into_a_file_changes_nothing() {
    let mut state = scanned_state();
    state.step_into(1).expect("stepping into a directory");
    // child 0 of "sub" is the file "inner": refused as a no-op
    assert!(state.step_into(0).is_none());
    // still positioned inside "sub": stepping out lands on the root view
    let (restore_index, items) = state.step_out().expect("stepping back out");
    assert_eq!(1, restore_index);
    assert_eq!(3, items.len());
}

#[test]
fn step_out_restores_index_by_name_and_size() {
    // two sibling directories of equal on-disk size; the left one is found
    // again by its (name, logical size) pair
    let a1 = file_node("a1".to_string(), 5, 512);
    let d1 = try_dir_node("d1".to_string(), vec![a1]).unwrap();
    let a2 = file_node("a2".to_string(), 6, 512);
    let d2 = try_dir_node("d2".to_string(), vec![a2]).unwrap();
    let root = try_dir_node("root".to_string(), vec![d1, d2]).unwrap();
    let mut state = AppState::new();
    state.scan_root_from(root);
    state.step_into(1).expect("stepping into d2");
    let (restore_index, _items) = state.step_out().expect("stepping back out");
    assert_eq!(1, restore_index);
}

#[test]
fn nested_navigation_steps_back_out_level_by_level() {
    let leaf = file_node("leaf".to_string(), 1, 512);
    let deep = try_dir_node("deep".to_string(), vec![leaf]).unwrap();
    let filler = file_node("filler".to_string(), 9, 9000);
    let mid = try_dir_node("mid".to_string(), vec![deep, filler]).unwrap();
    let root = try_dir_node("root".to_string(), vec![mid]).unwrap();
    let mut state = AppState::new();
    state.scan_root_from(root);
    let mid_view = state.step_into(0).expect("stepping into mid");
    assert_eq!("filler", mid_view[0].name);
    assert_eq!("deep", mid_view[1].name);
    let deep_view = state.step_into(1).expect("stepping into deep");
    assert_eq!(1, deep_view.len());
    assert_eq!("leaf", deep_view[0].name);
    let (restore_deep, back_in_mid) = state.step_out().expect("leaving deep");
    assert_eq!(1, restore_deep);
    assert_eq!(mid_view, back_in_mid);
    let (restore_mid, back_at_root) = state.step_out().expect("leaving mid");
    assert_eq!(0, restore_mid);
    assert_eq!(1, back_at_root.len());
    assert!(state.step_out().is_none());
}

#[test]
fn equal_name_and_size_siblings_conflate_the_restore_index() {
    // the lookup by (name, logical size) cannot tell such twins apart and
    // reports the first of them
    let a1 = file_node("a".to_string(), 5, 512);
    let twin1 = try_dir_node("twin".to_string(), vec![a1]).unwrap();
    let a2 = file_node("a".to_string(), 5, 512);
    let twin2 = try_dir_node("twin".to_string(), vec![a2]).unwrap();
    let root = try_dir_node("root".to_string(), vec![twin1, twin2]).unwrap();
    let mut state = AppState::new();
    state.scan_root_from(root);
    state.step_into(1).expect("stepping into the second twin");
    let (restore_index, _items) = state.step_out().expect("stepping back out");
    assert_eq!(0, restore_index);
}

#[test]
fn rescan_of_an_unchanged_tree_projects_equal_views() {
    let mut state = AppState::new();
    let first = state.scan_root_from(sample_tree());
    let second = state.scan_root_from(sample_tree());
    assert_eq!(first, second);
}

#[test]
fn rescan_resets_the_cursor_to_the_root() {
    let mut state = scanned_state();
    state.step_into(1).expect("stepping into a directory");
    state.scan_root_from(sample_tree());
    // back at the root: there is nothing to step out of
    assert!(state.step_out().is_none());
}

#[test]
fn step_into_the_empty_placeholder_root_recovers() {
    let mut state = AppState::new();
    let items = state.step_into(0).expect("recovery returns the root view");
    assert!(items.is_empty());
}

#[test]
fn scan_of_a_lone_file_shows_the_degenerate_view() {
    let mut state = AppState::new();
    let items = state.scan_root_from(file_node("only".to_string(), 999, 1000));
    assert_eq!(1, items.len());
    assert_eq!("only", items[0].name);
    assert_eq!("999 B", items[0].size_string);
}

#[test]
fn new_state_views_an_empty_placeholder_root() {
    let state = AppState::new();
    assert!(state.root_size_items().is_empty());
}
