use tui_tree_widget::{flatten, get_identifier_without_leaf, TreeItem, TreeState};

fn sample() -> Vec<TreeItem<&'static str>> {
    vec![
        TreeItem::new_leaf("a"),
        TreeItem::new("b", vec![TreeItem::new_leaf("c")]),
    ]
}

fn ids(opened: &[Vec<usize>], items: &[TreeItem<&'static str>]) -> Vec<Vec<usize>> {
    flatten(opened, items)
        .iter()
        .map(|f| f.identifier.clone())
        .collect()
}

#[test]
fn flatten_collapsed_and_opened() {
    let items = sample();
    let visible = flatten(&[], &items);
    assert_eq!(visible.len(), 2);
    assert_eq!(visible[0].identifier, vec![0]);
    assert_eq!(visible[1].identifier, vec![1]);
    assert_eq!(visible[0].depth(), 0);
    assert_eq!(visible[1].depth(), 0);

    let mut state = TreeState::default();
    assert!(state.open(vec![1]));
    let visible = flatten(&state.get_all_opened(), &items);
    assert_eq!(visible.len(), 3);
    assert_eq!(visible[2].identifier, vec![1, 0]);
    assert_eq!(visible[2].depth(), 1);
}

#[test]
fn flatten_collapsed_ancestor_wins() {
    let items = vec![TreeItem::new(
        "r",
        vec![TreeItem::new("s", vec![TreeItem::new_leaf("t")])],
    )];
    assert_eq!(ids(&[vec![0, 0]], &items), vec![vec![0]]);
    assert_eq!(
        ids(&[vec![0, 0], vec![0]], &items),
        vec![vec![0], vec![0, 0], vec![0, 0, 0]]
    );
}

#[test]
fn flatten_twice_is_the_same() {
    let items = sample();
    let opened = vec![vec![1]];
    assert_eq!(ids(&opened, &items), ids(&opened, &items));
}

#[test]
fn flatten_empty_forest() {
    let items: Vec<TreeItem<&'static str>> = Vec::new();
    assert!(flatten(&[vec![0]], &items).is_empty());
}

#[test]
fn open_close_toggle() {
    let mut state = TreeState::default();
    assert!(!state.open(vec![]));
    assert!(state.get_all_opened().is_empty());
    assert!(state.open(vec![2, 1]));
    assert!(!state.open(vec![2, 1]));
    assert_eq!(state.get_all_opened(), vec![vec![2, 1]]);
    assert!(state.close(&[2, 1]));
    assert!(!state.close(&[2, 1]));
    assert!(state.get_all_opened().is_empty());

    state.toggle(vec![3]);
    assert_eq!(state.get_all_opened(), vec![vec![3]]);
    state.toggle(vec![3]);
    assert!(state.get_all_opened().is_empty());

    state.open(vec![1]);
    state.open(vec![0]);
    state.close_all();
    assert!(state.get_all_opened().is_empty());
}

#[test]
fn toggle_selected_opens_selection() {
    let mut state = TreeState::default();
    state.select(vec![1]);
    state.toggle_selected();
    assert_eq!(state.get_all_opened(), vec![vec![1]]);
    state.toggle_selected();
    assert!(state.get_all_opened().is_empty());
}

#[test]
fn select_empty_resets_offset() {
    let items: Vec<TreeItem<&'static str>> = (0..6).map(|_| TreeItem::new_leaf("x")).collect();
    let mut state = TreeState::default();
    state.select(vec![5]);
    let visible = flatten(&state.get_all_opened(), &items);
    let window = state.scroll_to_selection(&visible, &[1, 1, 1, 1, 1, 1], 2);
    assert_eq!(window, (4, 6));
    assert_eq!(state.get_offset(), 4);
    state.select(vec![2]);
    assert_eq!(state.get_offset(), 4);
    state.select(vec![]);
    assert_eq!(state.get_offset(), 0);
    assert!(state.selected().is_empty());
}

#[test]
fn select_first_and_last() {
    let items = sample();
    let mut state = TreeState::default();
    state.select_first();
    assert_eq!(state.selected(), vec![0]);
    state.select_last(&items);
    assert_eq!(state.selected(), vec![1]);
    state.open(vec![1]);
    state.select_last(&items);
    assert_eq!(state.selected(), vec![1, 0]);
}

#[test]
fn select_last_on_empty_tree() {
    let items: Vec<TreeItem<&'static str>> = Vec::new();
    let mut state = TreeState::default();
    state.select(vec![3]);
    state.select_last(&items);
    assert!(state.selected().is_empty());
    assert_eq!(state.get_offset(), 0);
}

#[test]
fn key_up_and_down() {
    let items = sample();
    let mut state = TreeState::default();
    state.open(vec![1]);
    state.key_down(&items);
    assert_eq!(state.selected(), vec![0]);
    state.key_down(&items);
    assert_eq!(state.selected(), vec![1]);
    state.key_down(&items);
    assert_eq!(state.selected(), vec![1, 0]);
    state.key_down(&items);
    assert_eq!(state.selected(), vec![1, 0]);
    state.key_up(&items);
    assert_eq!(state.selected(), vec![1]);
    state.key_up(&items);
    assert_eq!(state.selected(), vec![0]);
    state.key_up(&items);
    assert_eq!(state.selected(), vec![0]);
}

#[test]
fn key_up_from_hidden_selection_goes_to_first() {
    let items = sample();
    let mut state = TreeState::default();
    state.select(vec![1, 0]);
    state.key_up(&items);
    assert_eq!(state.selected(), vec![0]);
    state.select(vec![7]);
    state.key_down(&items);
    assert_eq!(state.selected(), vec![0]);
}

#[test]
fn key_left_moves_to_parent_when_closed() {
    let mut state = TreeState::default();
    state.select(vec![1]);
    state.key_left();
    assert!(state.selected().is_empty());
}

#[test]
fn key_left_closes_open_selection() {
    let mut state = TreeState::default();
    state.select(vec![1]);
    state.open(vec![1]);
    state.key_left();
    assert_eq!(state.selected(), vec![1]);
    assert!(state.get_all_opened().is_empty());
    state.select(vec![1, 0]);
    state.key_left();
    assert_eq!(state.selected(), vec![1]);
}

#[test]
fn key_right_opens_selection() {
    let mut state = TreeState::default();
    state.select(vec![0, 2]);
    state.key_right();
    assert_eq!(state.get_all_opened(), vec![vec![0, 2]]);
    state.select(vec![]);
    state.key_right();
    assert_eq!(state.get_all_opened(), vec![vec![0, 2]]);
}

#[test]
fn identifier_without_leaf() {
    assert_eq!(get_identifier_without_leaf(&[2, 4, 1]), (vec![2, 4], Some(1)));
    assert_eq!(get_identifier_without_leaf(&[3]), (vec![], Some(3)));
    assert_eq!(get_identifier_without_leaf(&[]), (vec![], None));
}

#[test]
fn cloned_state_is_independent() {
    let mut state = TreeState::default();
    state.select(vec![0, 1]);
    state.open(vec![0]);
    let copy = state.clone();
    state.close_all();
    assert_eq!(copy.get_all_opened(), vec![vec![0]]);
    assert_eq!(copy.selected(), vec![0, 1]);
}
