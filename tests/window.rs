use tui_tree_widget::compute_window;

#[test]
fn scrolls_to_selection_at_the_end() {
    assert_eq!(compute_window(&[1, 1, 1, 1, 1], 3, 0, Some(4)), (2, 5));
}

#[test]
fn keeps_window_when_selection_visible() {
    assert_eq!(compute_window(&[1, 1, 1, 1, 1], 3, 1, Some(2)), (1, 4));
    assert_eq!(compute_window(&[1, 1, 1, 1, 1], 3, 0, None), (0, 3));
}

#[test]
fn scrolls_back_to_selection_above() {
    assert_eq!(compute_window(&[1, 1, 1, 1, 1], 3, 3, Some(1)), (1, 4));
}

#[test]
fn tall_entries() {
    assert_eq!(compute_window(&[2, 2, 2, 2], 5, 0, Some(3)), (2, 4));
    assert_eq!(compute_window(&[1, 3, 1], 3, 0, Some(2)), (2, 3));
}

#[test]
fn entry_taller_than_budget_stands_alone() {
    assert_eq!(compute_window(&[1, 9, 1], 3, 0, Some(1)), (1, 2));
    assert_eq!(compute_window(&[9, 1], 3, 0, Some(0)), (0, 1));
    assert_eq!(compute_window(&[9, 1], 3, 0, None), (0, 0));
}

#[test]
fn offset_past_selection_starts_at_selection() {
    assert_eq!(compute_window(&[1, 1], 3, 7, Some(1)), (1, 2));
}

#[test]
fn everything_fits() {
    assert_eq!(compute_window(&[1, 2, 1], 10, 0, Some(2)), (0, 3));
}
