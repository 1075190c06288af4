use file_tree::adapter::{DirEntry, FixedAdapter};
use file_tree::tree::{FileTree, FileTreeItemType};

fn entry(name: &str, is_directory: bool) -> DirEntry {
    DirEntry { name: name.to_owned(), is_directory }
}

fn names(tree: &FileTree) -> Vec<String> {
    let mut out = Vec::new();
    let mut i = 0;
    while i < tree.len() {
        out.push(tree.item_at(i).name.clone());
        i += 1;
    }
    out
}

fn depths(tree: &FileTree) -> Vec<u32> {
    let mut out = Vec::new();
    let mut i = 0;
    while i < tree.len() {
        out.push(tree.item_at(i).depth);
        i += 1;
    }
    out
}

#[test]
fn from_entries_sorts_by_code_point() {
    let tree = FileTree::from_entries(vec![
        entry("b", false),
        entry("a", false),
        entry("C", false),
    ]);
    assert_eq!(names(&tree), vec!["C", "a", "b"]);
    assert_eq!(depths(&tree), vec![0, 0, 0]);
}

#[test]
fn from_entries_marks_directories_closed_and_unexplored() {
    let tree = FileTree::from_entries(vec![entry("d", true), entry("f", false)]);
    assert_eq!(
        tree.item_at(0).item_type,
        FileTreeItemType::Directory { open: false, explored: false }
    );
    assert_eq!(tree.item_at(1).item_type, FileTreeItemType::File);
}

#[test]
fn expansion_splices_contiguous_run_one_level_deeper() {
    let tree = FileTree::from_entries(vec![entry("adir", true), entry("zfile", false)]);
    let mut tree = tree;
    let mut adapter = FixedAdapter::new(vec![entry("x", false), entry("m", true)], false);
    assert_eq!(tree.len(), 2);
    tree.toggle(&mut adapter, 0).unwrap();
    // the run of children is as long as the listing, directly after the
    // directory, sorted by name, exactly one level deeper
    assert_eq!(tree.len(), 4);
    assert_eq!(names(&tree), vec!["adir", "m", "x", "zfile"]);
    assert_eq!(depths(&tree), vec![0, 1, 1, 0]);
    assert_eq!(
        tree.item_at(0).item_type,
        FileTreeItemType::Directory { open: true, explored: true }
    );
    assert_eq!(
        tree.item_at(1).item_type,
        FileTreeItemType::Directory { open: false, explored: false }
    );
    assert_eq!(tree.item_at(2).item_type, FileTreeItemType::File);
}

#[test]
fn reopening_uses_the_cache_and_spares_the_adapter() {
    let mut tree = FileTree::from_entries(vec![entry("adir", true)]);
    let mut adapter = FixedAdapter::new(vec![entry("b", false), entry("c", false)], false);
    tree.toggle(&mut adapter, 0).unwrap();
    assert_eq!(adapter.calls(), 1);
    assert_eq!(tree.len(), 3);
    let names_after_expansion = names(&tree);

    // collapse, then re-open: same length, same contents, no adapter call
    tree.toggle(&mut adapter, 0).unwrap();
    assert_eq!(
        tree.item_at(0).item_type,
        FileTreeItemType::Directory { open: false, explored: true }
    );
    assert_eq!(tree.len(), 3);
    tree.toggle(&mut adapter, 0).unwrap();
    assert_eq!(
        tree.item_at(0).item_type,
        FileTreeItemType::Directory { open: true, explored: true }
    );
    assert_eq!(tree.len(), 3);
    assert_eq!(names(&tree), names_after_expansion);
    assert_eq!(adapter.calls(), 1);
}

#[test]
fn expansion_failure_rolls_back_and_can_be_retried() {
    let mut tree = FileTree::from_entries(vec![entry("adir", true)]);
    let mut adapter = FixedAdapter::new(vec![entry("child", false)], true);
    let r = tree.toggle(&mut adapter, 0);
    assert!(r.is_err());
    assert_eq!(adapter.calls(), 1);
    // the directory stays closed and unexplored, the sequence is unchanged
    assert_eq!(tree.len(), 1);
    assert_eq!(
        tree.item_at(0).item_type,
        FileTreeItemType::Directory { open: false, explored: false }
    );
    // a later toggle retries the read
    adapter.set_fail(false);
    tree.toggle(&mut adapter, 0).unwrap();
    assert_eq!(tree.len(), 2);
    assert_eq!(names(&tree), vec!["adir", "child"]);
}

#[test]
fn toggling_a_file_changes_nothing() {
    let mut tree = FileTree::from_entries(vec![entry("plain", false)]);
    let mut adapter = FixedAdapter::new(vec![entry("never", false)], false);
    tree.toggle(&mut adapter, 0).unwrap();
    assert_eq!(tree.len(), 1);
    assert_eq!(tree.item_at(0).item_type, FileTreeItemType::File);
    assert_eq!(adapter.calls(), 0);
}

#[test]
fn children_order_is_reproducible_across_expansions() {
    let listing = vec![entry("b", false), entry("a", false), entry("C", false)];
    let mut first = FileTree::from_entries(vec![entry("d", true)]);
    let mut second = FileTree::from_entries(vec![entry("d", true)]);
    let mut adapter = FixedAdapter::new(listing, false);
    first.toggle(&mut adapter, 0).unwrap();
    second.toggle(&mut adapter, 0).unwrap();
    assert_eq!(names(&first), vec!["d", "C", "a", "b"]);
    assert_eq!(names(&first), names(&second));
}

#[test]
fn seed_from_root_reads_once_and_sorts() {
    let mut adapter = FixedAdapter::new(vec![entry("beta", true), entry("alpha", false)], false);
    let tree = FileTree::seed_from_root(&mut adapter).unwrap();
    assert_eq!(adapter.calls(), 1);
    assert_eq!(names(&tree), vec!["alpha", "beta"]);
    assert_eq!(depths(&tree), vec![0, 0]);
}

#[test]
fn seed_from_root_failure_leaves_no_tree() {
    let mut adapter = FixedAdapter::new(Vec::new(), true);
    let r = FileTree::seed_from_root(&mut adapter);
    assert!(r.is_err());
    assert_eq!(adapter.calls(), 1);
}

#[test]
fn path_components_names_the_ancestor_chain() {
    let mut tree = FileTree::from_entries(vec![entry("top", true)]);
    let mut outer = FixedAdapter::new(vec![entry("mid", true)], false);
    tree.toggle(&mut outer, 0).unwrap();
    let mut inner = FixedAdapter::new(vec![entry("leaf", false)], false);
    tree.toggle(&mut inner, 1).unwrap();
    assert_eq!(tree.path_components(0), vec!["top"]);
    assert_eq!(tree.path_components(1), vec!["top", "mid"]);
    assert_eq!(tree.path_components(2), vec!["top", "mid", "leaf"]);
}

#[test]
fn nested_expansion_keeps_the_flattening() {
    let mut tree = FileTree::from_entries(vec![entry("a", true), entry("z", false)]);
    let mut outer = FixedAdapter::new(vec![entry("b", true), entry("d", false)], false);
    tree.toggle(&mut outer, 0).unwrap();
    let mut inner = FixedAdapter::new(vec![entry("c", false)], false);
    tree.toggle(&mut inner, 1).unwrap();
    assert_eq!(names(&tree), vec!["a", "b", "c", "d", "z"]);
    assert_eq!(depths(&tree), vec![0, 1, 2, 1, 0]);
}

#[test]
fn default_item_is_a_file_at_the_root() {
    let item = file_tree::tree::FileTreeItem::default();
    assert_eq!(item.name, "");
    assert_eq!(item.depth, 0);
    assert_eq!(item.item_type, FileTreeItemType::File);
    assert_eq!(FileTreeItemType::default(), FileTreeItemType::File);
}

#[test]
fn expanding_an_empty_directory_adds_nothing_but_marks_it_explored() {
    let mut tree = FileTree::from_entries(vec![entry("hollow", true), entry("after", false)]);
    let mut adapter = FixedAdapter::new(Vec::new(), false);
    // seeded order is sorted: "after" then "hollow"
    tree.toggle(&mut adapter, 1).unwrap();
    assert_eq!(adapter.calls(), 1);
    assert_eq!(tree.len(), 2);
    assert_eq!(
        tree.item_at(1).item_type,
        FileTreeItemType::Directory { open: true, explored: true }
    );
    // re-toggling the now-explored empty directory never re-reads
    tree.toggle(&mut adapter, 1).unwrap();
    tree.toggle(&mut adapter, 1).unwrap();
    assert_eq!(adapter.calls(), 1);
}

#[test]
fn equal_names_are_all_kept() {
    let tree = FileTree::from_entries(vec![
        entry("same", false),
        entry("same", true),
        entry("same", false),
    ]);
    assert_eq!(tree.len(), 3);
    assert_eq!(names(&tree), vec!["same", "same", "same"]);
}
