use tui_tree_widget::{Tree, TreeItem};

#[test]
fn item_children() {
    let mut item = TreeItem::new("root", vec![TreeItem::new_leaf("a")]);
    assert_eq!(item.children().len(), 1);
    item.add_child(TreeItem::new_leaf("b"));
    assert_eq!(item.children().len(), 2);
    assert_eq!(*item.child(1).unwrap().elem(), "b");
    assert!(item.child(2).is_none());
    item.child_mut(0).unwrap().add_child(TreeItem::new_leaf("c"));
    assert_eq!(item.children()[0].children().len(), 1);
    assert!(item.child_mut(5).is_none());
    item.children_mut()[1].add_child(TreeItem::new_leaf("d"));
    assert_eq!(item.children()[1].children().len(), 1);
}

#[test]
fn item_height_counts_lines() {
    assert_eq!(TreeItem::new_leaf("one line").height(), 1);
    assert_eq!(TreeItem::new_leaf("two\nlines").height(), 2);
}

#[test]
fn tree_builder() {
    let tree = Tree::new(vec![TreeItem::new_leaf("a")]).highlight_symbol(">> ");
    let (block, items, _, _, _, symbol) = tree.into_parts();
    assert!(block.is_none());
    assert_eq!(items.len(), 1);
    assert_eq!(symbol, Some(">> "));
}

#[test]
fn item_clone_copies_children() {
    let item = TreeItem::new("root", vec![TreeItem::new("a", vec![TreeItem::new_leaf("b")])]);
    let copy = item.clone();
    assert_eq!(copy.children().len(), 1);
    assert_eq!(copy.children()[0].children().len(), 1);
    assert_eq!(*copy.children()[0].children()[0].elem(), "b");
}
