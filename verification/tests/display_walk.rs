use file_tree::adapter::{DirEntry, FixedAdapter};
use file_tree::tree::{FileTree, FileTreeItemType};

fn entry(name: &str, is_directory: bool) -> DirEntry {
    DirEntry { name: name.to_owned(), is_directory }
}

fn visible_names(tree: &FileTree) -> Vec<String> {
    let mut it = tree.display_iter();
    let mut out = Vec::new();
    while let Some(item) = it.next() {
        out.push(item.name.clone());
    }
    out
}

#[test]
fn closed_directory_hides_its_cached_children() {
    // one directory whose children are cached but hidden
    let mut tree = FileTree::from_entries(vec![entry("a", true)]);
    let mut adapter = FixedAdapter::new(vec![entry("b", false), entry("c", false)], false);
    tree.toggle(&mut adapter, 0).unwrap();
    tree.toggle(&mut adapter, 0).unwrap();
    assert_eq!(tree.len(), 3);
    assert_eq!(visible_names(&tree), vec!["a"]);

    // opening it makes the cached subtree visible again, unchanged
    tree.toggle(&mut adapter, 0).unwrap();
    assert_eq!(visible_names(&tree), vec!["a", "b", "c"]);
}

#[test]
fn nested_closed_directory_hides_only_its_own_subtree() {
    // a(dir, open) > b(dir, closed) > c(file), then d(file) beside b
    let mut tree = FileTree::from_entries(vec![entry("a", true)]);
    let mut outer = FixedAdapter::new(vec![entry("b", true), entry("d", false)], false);
    tree.toggle(&mut outer, 0).unwrap();
    let mut inner = FixedAdapter::new(vec![entry("c", false)], false);
    tree.toggle(&mut inner, 1).unwrap();
    tree.toggle(&mut inner, 1).unwrap();
    assert_eq!(
        tree.item_at(1).item_type,
        FileTreeItemType::Directory { open: false, explored: true }
    );
    assert_eq!(tree.len(), 4);
    assert_eq!(visible_names(&tree), vec!["a", "b", "d"]);
}

#[test]
fn open_directories_show_everything() {
    let mut tree = FileTree::from_entries(vec![entry("a", true), entry("z", false)]);
    let mut adapter = FixedAdapter::new(vec![entry("m", false), entry("k", false)], false);
    tree.toggle(&mut adapter, 0).unwrap();
    assert_eq!(visible_names(&tree), vec!["a", "k", "m", "z"]);
}

#[test]
fn files_with_deeper_followers_do_not_hide_them() {
    // a file never hides anything; only a closed directory does
    let mut tree = FileTree::from_entries(vec![entry("dir", true), entry("file", false)]);
    let mut adapter = FixedAdapter::new(vec![entry("inner", false)], false);
    tree.toggle(&mut adapter, 0).unwrap();
    assert_eq!(visible_names(&tree), vec!["dir", "inner", "file"]);
}

#[test]
fn exhausted_iterator_stays_exhausted() {
    let tree = FileTree::from_entries(vec![entry("only", false)]);
    let mut it = tree.display_iter();
    assert!(it.next().is_some());
    assert!(it.next().is_none());
    assert!(it.next().is_none());
}

#[test]
fn empty_tree_yields_nothing() {
    let tree = FileTree::from_entries(Vec::new());
    let mut it = tree.display_iter();
    assert!(it.next().is_none());
}

#[test]
fn each_pass_gets_a_fresh_traversal() {
    let tree = FileTree::from_entries(vec![entry("one", false), entry("two", false)]);
    assert_eq!(visible_names(&tree), vec!["one", "two"]);
    // a second pass over the same model sees the same items from the top
    assert_eq!(visible_names(&tree), vec!["one", "two"]);
}

#[test]
fn iterator_yields_positions_in_order() {
    let tree = FileTree::from_entries(vec![
        entry("a", false),
        entry("b", false),
        entry("c", false),
    ]);
    let mut it = tree.display_iter();
    assert_eq!(it.next().unwrap().name, "a");
    assert_eq!(it.next().unwrap().name, "b");
    assert_eq!(it.next().unwrap().name, "c");
    assert!(it.next().is_none());
}
