use filetree::dir::Dir;
use filetree::error::TreeError;
use filetree::files::Files;
use filetree::path::{last_of_path, TreePath};
use tui_tree_widget::TreeItem;

fn path(names: &[&str]) -> TreePath {
    TreePath::from_parts(names.iter().map(|n| n.to_string()).collect())
}

/// root: a, b, c/ (d, e/ (f)), g
fn sample() -> Files {
    let mut root = Dir::new(path(&["root"]));
    root.new_file("a").unwrap();
    root.new_file("b").unwrap();
    root.new_dir("c").unwrap();
    root.new_file("g").unwrap();
    root.add_path(path(&["root", "c", "d"])).unwrap();
    root.add_dir_path(path(&["root", "c", "e"])).unwrap();
    root.add_path(path(&["root", "c", "e", "f"])).unwrap();
    Files::new(root)
}

/// The shape of a row of display items, written with brackets: the number
/// of items, then each item's own shape.
fn shape(items: &[TreeItem]) -> String {
    let mut out = String::from("[");
    for item in items {
        let mut children: Vec<TreeItem> = Vec::new();
        let mut i = 0;
        while let Some(child) = item.child(i) {
            children.push(child.clone());
            i += 1;
        }
        out.push('.');
        if !children.is_empty() {
            out.push_str(&shape(&children));
        }
    }
    out.push(']');
    out
}

/// The texts of a row of display items in depth-first order.
fn texts(items: &[TreeItem]) -> Vec<String> {
    let shown = format!("{:?}", items);
    let mut out = Vec::new();
    let mut rest = shown.as_str();
    while let Some(at) = rest.find("content: \"") {
        rest = &rest[at + 10..];
        let end = rest.find('"').unwrap();
        out.push(rest[..end].to_string());
        rest = &rest[end..];
    }
    out
}

fn names(dir: &Dir) -> Vec<String> {
    dir.children().iter().map(|c| last_of_path(c.path())).collect()
}

#[test]
fn new_files_show_the_whole_tree() {
    let files = sample();
    assert!(!files.is_filtered());
    assert_eq!(texts(files.items()), ["a", "b", "c", "d", "e", "f", "g"]);
    assert_eq!(shape(files.items()), "[...[..[.]].]");
    assert_eq!(names(files.dir()), ["a", "b", "c", "g"]);
}

#[test]
fn labels_are_final_names_not_paths() {
    let files = sample();
    for text in texts(files.items()) {
        assert!(!text.contains("root"));
        assert!(!text.contains('/'));
    }
}

#[test]
fn remove_file_at_the_top_rebuilds_the_labels() {
    let mut files = sample();
    let removed = files.remove_file(&[0]).unwrap();
    assert_eq!(*removed.path(), path(&["root", "a"]));
    assert_eq!(texts(files.items()), ["b", "c", "d", "e", "f", "g"]);
    assert_eq!(shape(files.items()), "[..[..[.]].]");
}

#[test]
fn remove_file_nested_rebuilds_the_labels() {
    let mut files = sample();
    let removed = files.remove_file(&[2, 1]).unwrap();
    assert_eq!(*removed.path(), path(&["root", "c", "e"]));
    assert_eq!(texts(files.items()), ["a", "b", "c", "d", "g"]);
    assert_eq!(shape(files.items()), "[...[.].]");
}

#[test]
fn remove_file_rejects_bad_locations() {
    let mut files = sample();
    assert_eq!(files.remove_file(&[]).unwrap_err(), TreeError::InvalidLocation);
    assert_eq!(files.remove_file(&[7]).unwrap_err(), TreeError::InvalidLocation);
    assert_eq!(files.remove_file(&[0, 0]).unwrap_err(), TreeError::InvalidLocation);
    assert_eq!(files.remove_file(&[2, 0, 0]).unwrap_err(), TreeError::InvalidLocation);
    assert_eq!(texts(files.items()), ["a", "b", "c", "d", "e", "f", "g"]);
}

#[test]
fn add_file_appends_to_the_addressed_directory() {
    let mut files = sample();
    let added = files.add_file(&[2], "new").unwrap();
    assert_eq!(*added.path(), path(&["root", "c", "new"]));
    assert_eq!(texts(files.items()), ["a", "b", "c", "d", "e", "f", "new", "g"]);
    assert_eq!(shape(files.items()), "[...[..[.].].]");
    let deep = files.add_file(&[2, 1], "deep").unwrap().path().clone();
    assert_eq!(deep, path(&["root", "c", "e", "deep"]));
    assert_eq!(*files.dir().nested_child(&[2, 1, 1]).unwrap().path(), deep);
}

#[test]
fn add_file_hands_back_the_first_file_of_that_name() {
    let mut files = sample();
    let first = files.add_file(&[2], "d").unwrap();
    assert_eq!(*first.path(), path(&["root", "c", "d"]));
    let c = files.dir().child(2).unwrap().as_dir().unwrap();
    assert_eq!(names(c), ["d", "e", "d"]);
}

#[test]
fn add_file_passes_over_a_directory_of_that_name() {
    let mut files = sample();
    let added = files.add_file(&[2], "e").unwrap();
    assert_eq!(*added.path(), path(&["root", "c", "e"]));
    let c = files.dir().child(2).unwrap().as_dir().unwrap();
    assert_eq!(names(c), ["d", "e", "e"]);
    assert!(c.child(1).unwrap().is_dir());
    assert!(!c.child(2).unwrap().is_dir());
}

#[test]
fn add_file_wants_a_directory() {
    let mut files = sample();
    assert_eq!(files.add_file(&[], "x").unwrap_err(), TreeError::InvalidLocation);
    assert_eq!(files.add_file(&[0], "x").unwrap_err(), TreeError::InvalidLocation);
    assert_eq!(files.add_file(&[9], "x").unwrap_err(), TreeError::InvalidLocation);
    assert_eq!(files.add_file(&[2, 0], "x").unwrap_err(), TreeError::InvalidLocation);
    assert_eq!(texts(files.items()), ["a", "b", "c", "d", "e", "f", "g"]);
}

#[test]
fn reconcile_add_finds_the_directory_by_path() {
    let mut files = sample();
    files.reconcile_add(path(&["root", "c", "e", "h"])).unwrap();
    assert_eq!(texts(files.items()), ["a", "b", "c", "d", "e", "f", "h", "g"]);
    files.reconcile_add(path(&["root", "top"])).unwrap();
    assert_eq!(texts(files.items()), ["a", "b", "c", "d", "e", "f", "h", "g", "top"]);
    assert_eq!(files.reconcile_add(path(&["root", "no", "x"])).unwrap_err(), TreeError::NotFound);
}

#[test]
fn reconcile_delete_finds_the_entry_by_path() {
    let mut files = sample();
    let removed = files.reconcile_delete(&path(&["root", "c", "e"])).unwrap();
    assert!(removed.is_dir());
    assert_eq!(texts(files.items()), ["a", "b", "c", "d", "g"]);
    let again = files.reconcile_delete(&path(&["root", "c", "e"]));
    assert_eq!(again.unwrap_err(), TreeError::NotFound);
    assert_eq!(texts(files.items()), ["a", "b", "c", "d", "g"]);
}

#[test]
fn reconcile_rename_keeps_the_place() {
    let mut files = sample();
    files.reconcile_rename(&path(&["root", "b"]), &path(&["root", "bb"])).unwrap();
    assert_eq!(texts(files.items()), ["a", "bb", "c", "d", "e", "f", "g"]);
    files.reconcile_rename(&path(&["root", "c"]), &path(&["root", "cc"])).unwrap();
    assert_eq!(texts(files.items()), ["a", "bb", "cc", "d", "e", "f", "g"]);
    assert_eq!(*files.dir().nested_child(&[2, 1, 0]).unwrap().path(), path(&["root", "cc", "e", "f"]));
    let missing = files.reconcile_rename(&path(&["root", "zz"]), &path(&["root", "y"]));
    assert_eq!(missing.unwrap_err(), TreeError::NotFound);
}

#[test]
fn reconcile_move_deletes_and_adds() {
    let mut files = sample();
    files.reconcile_move(&path(&["root", "g"]), &path(&["root", "c", "e", "g"])).unwrap();
    assert_eq!(texts(files.items()), ["a", "b", "c", "d", "e", "f", "g"]);
    assert_eq!(shape(files.items()), "[...[..[..]]]");
    let lost = files.reconcile_move(&path(&["root", "a"]), &path(&["root", "q", "a"]));
    assert_eq!(lost.unwrap_err(), TreeError::NotFound);
    assert_eq!(shape(files.items()), "[...[..[..]]]");
}

#[test]
fn filter_include_shows_only_the_chains_above_the_targets() {
    let mut files = sample();
    files.filter_include(vec![path(&["root", "c", "e", "f"])]);
    assert!(files.is_filtered());
    assert_eq!(texts(files.items()), ["c", "e", "f"]);
    assert_eq!(shape(files.items()), "[.[.[.]]]");
    assert_eq!(names(files.dir()), ["a", "b", "c", "g"]);
}

#[test]
fn filter_include_joins_the_chains_of_several_targets() {
    let mut files = sample();
    files.filter_include(vec![path(&["root", "c", "d"]), path(&["root", "g"])]);
    assert_eq!(texts(files.items()), ["c", "d", "g"]);
    assert_eq!(shape(files.items()), "[.[.].]");
    files.filter_include(vec![path(&["root", "c"])]);
    assert_eq!(texts(files.items()), ["c"]);
    files.filter_include(vec![]);
    assert!(files.is_filtered());
    assert!(files.items().is_empty());
}

#[test]
fn clear_filter_restores_the_labels() {
    let mut files = sample();
    let before = (texts(files.items()), shape(files.items()));
    files.filter_include(vec![path(&["root", "c", "d"])]);
    assert_ne!(texts(files.items()), before.0);
    files.clear_filter();
    assert!(!files.is_filtered());
    assert_eq!((texts(files.items()), shape(files.items())), before);
}

#[test]
fn a_change_drops_the_filter() {
    let mut files = sample();
    files.filter_include(vec![path(&["root", "c", "d"])]);
    files.remove_file(&[0]).unwrap();
    assert!(!files.is_filtered());
    assert_eq!(texts(files.items()), ["b", "c", "d", "e", "f", "g"]);
}

#[test]
fn a_refused_change_keeps_the_filter() {
    let mut files = sample();
    files.filter_include(vec![path(&["root", "c", "d"])]);
    assert!(files.remove_file(&[9]).is_err());
    assert!(files.is_filtered());
    assert_eq!(texts(files.items()), ["c", "d"]);
}
