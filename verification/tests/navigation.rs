use filetree::command::{Command, Key};
use filetree::error::TreeError;
use filetree::filetree::{Entry, Filetree};
use filetree::path::TreePath;

fn path(names: &[&str]) -> TreePath {
    TreePath::from_parts(names.iter().map(|n| n.to_string()).collect())
}

fn file(names: &[&str]) -> Entry {
    Entry { path: path(names), is_dir: false }
}

fn dir(names: &[&str]) -> Entry {
    Entry { path: path(names), is_dir: true }
}

/// root: a, b, c/ (d, e/ (f)), g
fn sample() -> Filetree {
    let entries = vec![
        file(&["root", "a"]),
        file(&["root", "b"]),
        dir(&["root", "c"]),
        file(&["root", "g"]),
        file(&["root", "c", "d"]),
        dir(&["root", "c", "e"]),
        file(&["root", "c", "e", "f"]),
    ];
    Filetree::from_dir(path(&["root"]), &entries).unwrap_or_else(|e| panic!("{:?}", e))
}

fn empty() -> Filetree {
    Filetree::from_dir(path(&["root"]), &vec![]).unwrap_or_else(|e| panic!("{:?}", e))
}

fn opened(tree: &Filetree) -> Vec<Vec<usize>> {
    let mut all = tree.state.get_all_opened();
    all.sort();
    all
}

#[test]
fn from_dir_builds_the_listed_layout() {
    let tree = sample();
    assert_eq!(*tree.files.dir().path(), path(&["root"]));
    assert_eq!(tree.files.dir().len(), 4);
    assert_eq!(*tree.get_node(&[2, 1, 0]).unwrap().path(), path(&["root", "c", "e", "f"]));
    assert!(tree.get_node(&[2]).unwrap().is_dir());
    assert!(!tree.get_node(&[3]).unwrap().is_dir());
    assert_eq!(tree.state.selected(), vec![0]);
    assert!(opened(&tree).is_empty());
    assert!(tree.focused);
    assert!(!tree.files.is_filtered());
}

#[test]
fn from_dir_wants_directories_before_what_they_hold() {
    let entries = vec![file(&["root", "c", "d"]), dir(&["root", "c"])];
    let built = Filetree::from_dir(path(&["root"]), &entries);
    assert_eq!(built.err(), Some(TreeError::NotFound));
    let outside = vec![file(&["elsewhere", "x"])];
    assert_eq!(Filetree::from_dir(path(&["root"]), &outside).err(), Some(TreeError::NotFound));
}

#[test]
fn get_node_is_a_pure_lookup() {
    let tree = sample();
    assert_eq!(*tree.get_node(&[0]).unwrap().path(), path(&["root", "a"]));
    assert_eq!(*tree.get_node(&[2, 0]).unwrap().path(), path(&["root", "c", "d"]));
    assert!(tree.get_node(&[]).is_none());
    assert!(tree.get_node(&[4]).is_none());
    assert!(tree.get_node(&[0, 0]).is_none());
    assert!(tree.get_node(&[2, 0, 0]).is_none());
}

#[test]
fn get_selected_is_the_node_at_the_selection() {
    let mut tree = sample();
    assert_eq!(*tree.get_selected().path(), path(&["root", "a"]));
    tree.state.select(vec![2, 1]);
    assert_eq!(*tree.get_selected().path(), path(&["root", "c", "e"]));
    assert_eq!(*tree.selected_node().unwrap().path(), path(&["root", "c", "e"]));
}

#[test]
fn selected_node_is_none_where_the_selection_dangles() {
    let mut tree = sample();
    tree.state.select(vec![9]);
    assert!(tree.selected_node().is_none());
    tree.state.select(vec![]);
    assert!(tree.selected_node().is_none());
    assert!(empty().selected_node().is_none());
}

#[test]
fn first_selects_the_first_top_level_location() {
    let mut tree = sample();
    tree.state.select(vec![2, 0]);
    tree.first();
    assert_eq!(tree.state.selected(), vec![0]);
}

#[test]
fn up_after_first_never_moves() {
    let mut tree = sample();
    tree.first();
    for _ in 0..5 {
        tree.up();
        assert_eq!(tree.state.selected(), vec![0]);
    }
}

#[test]
fn last_selects_the_last_visible_location() {
    let mut tree = sample();
    tree.last();
    assert_eq!(tree.state.selected(), vec![3]);
    tree.state.open(vec![2]);
    tree.state.open(vec![2, 1]);
    tree.last();
    assert_eq!(tree.state.selected(), vec![3]);
    let mut short = sample();
    short.remove_file(&[3]).unwrap();
    short.state.open(vec![2]);
    short.last();
    assert_eq!(short.state.selected(), vec![2, 1]);
    short.state.open(vec![2, 1]);
    short.last();
    assert_eq!(short.state.selected(), vec![2, 1, 0]);
}

#[test]
fn down_after_last_never_moves() {
    let mut tree = sample();
    tree.state.open(vec![2]);
    tree.last();
    let at = tree.state.selected();
    for _ in 0..5 {
        tree.down();
        assert_eq!(tree.state.selected(), at);
    }
}

#[test]
fn down_and_up_walk_the_visible_order() {
    let mut tree = sample();
    tree.state.open(vec![2]);
    let order: Vec<Vec<usize>> = vec![vec![0], vec![1], vec![2], vec![2, 0], vec![2, 1], vec![3]];
    tree.first();
    for at in &order[1..] {
        tree.down();
        assert_eq!(&tree.state.selected(), at);
    }
    for at in order[..5].iter().rev() {
        tree.up();
        assert_eq!(&tree.state.selected(), at);
    }
}

#[test]
fn down_skips_what_is_collapsed() {
    let mut tree = sample();
    tree.state.open(vec![2, 1]);
    tree.state.select(vec![2]);
    tree.down();
    assert_eq!(tree.state.selected(), vec![3]);
}

#[test]
fn a_selection_that_is_not_visible_goes_to_the_first() {
    let mut tree = sample();
    tree.state.select(vec![2, 0]);
    tree.down();
    assert_eq!(tree.state.selected(), vec![0]);
    tree.state.select(vec![7]);
    tree.up();
    assert_eq!(tree.state.selected(), vec![0]);
}

#[test]
fn an_empty_tree_takes_every_key() {
    let mut tree = empty();
    assert_eq!(tree.state.selected(), vec![0]);
    tree.up();
    assert_eq!(tree.state.selected(), vec![0]);
    tree.down();
    assert_eq!(tree.state.selected(), vec![0]);
    tree.toggle();
    assert!(opened(&tree).is_empty());
    tree.last();
    assert_eq!(tree.state.selected(), Vec::<usize>::new());
    tree.down();
    assert_eq!(tree.state.selected(), Vec::<usize>::new());
    tree.first();
    assert_eq!(tree.state.selected(), vec![0]);
}

#[test]
fn toggle_flips_a_directory() {
    let mut tree = sample();
    tree.state.select(vec![2]);
    tree.toggle();
    assert_eq!(opened(&tree), vec![vec![2]]);
    assert_eq!(tree.state.selected(), vec![2]);
    tree.toggle();
    assert!(opened(&tree).is_empty());
}

#[test]
fn toggle_leaves_a_file_alone() {
    let mut tree = sample();
    tree.toggle();
    assert!(opened(&tree).is_empty());
    tree.state.select(vec![9]);
    tree.toggle();
    assert!(opened(&tree).is_empty());
    tree.state.select(vec![]);
    tree.toggle();
    assert!(opened(&tree).is_empty());
}

#[test]
fn remove_file_collapses_the_selected_location() {
    let mut tree = sample();
    tree.state.open(vec![2]);
    tree.state.open(vec![2, 1]);
    tree.state.select(vec![2]);
    let removed = tree.remove_file(&[0]).unwrap();
    assert_eq!(*removed.path(), path(&["root", "a"]));
    assert_eq!(opened(&tree), vec![vec![2, 1]]);
    assert_eq!(tree.state.selected(), vec![2]);
    assert_eq!(*tree.get_node(&[0]).unwrap().path(), path(&["root", "b"]));
}

#[test]
fn remove_file_that_fails_changes_nothing() {
    let mut tree = sample();
    tree.state.open(vec![0]);
    assert_eq!(tree.remove_file(&[8]).unwrap_err(), TreeError::InvalidLocation);
    assert_eq!(opened(&tree), vec![vec![0]]);
    assert_eq!(tree.files.dir().len(), 4);
}

#[test]
fn remove_selected_removes_and_collapses() {
    let mut tree = sample();
    tree.state.select(vec![2]);
    tree.toggle();
    let removed = tree.remove_selected().unwrap();
    assert_eq!(*removed.path(), path(&["root", "c"]));
    assert!(opened(&tree).is_empty());
    assert_eq!(tree.state.selected(), vec![2]);
    assert_eq!(*tree.get_selected().path(), path(&["root", "g"]));
}

#[test]
fn remove_selected_collapses_the_directory_above() {
    let mut tree = sample();
    tree.open_path(&path(&["root", "c", "e", "f"])).unwrap();
    tree.state.open(vec![2, 1, 0]);
    tree.state.open(vec![1]);
    let removed = tree.remove_selected().unwrap();
    assert_eq!(*removed.path(), path(&["root", "c", "e", "f"]));
    assert_eq!(opened(&tree), vec![vec![1], vec![2]]);
    assert_eq!(tree.state.selected(), vec![2, 1]);
    assert_eq!(*tree.get_selected().path(), path(&["root", "c", "e"]));
    assert_eq!(tree.files.dir().child(2).unwrap().as_dir().unwrap().len(), 2);
}

#[test]
fn remove_selected_of_the_last_entry_selects_the_one_before() {
    let entries = vec![file(&["root", "a"]), file(&["root", "b"])];
    let mut tree = Filetree::from_dir(path(&["root"]), &entries).unwrap();
    tree.last();
    assert_eq!(tree.state.selected(), vec![1]);
    let removed = tree.remove_selected().unwrap();
    assert_eq!(*removed.path(), path(&["root", "b"]));
    assert_eq!(tree.files.dir().len(), 1);
    assert_eq!(tree.state.selected(), vec![0]);
    assert_eq!(*tree.selected_node().unwrap().path(), path(&["root", "a"]));
    assert_eq!(*tree.get_selected().path(), path(&["root", "a"]));
}

#[test]
fn remove_selected_in_the_middle_selects_the_entry_that_moves_up() {
    let mut tree = sample();
    tree.state.select(vec![1]);
    tree.remove_selected().unwrap();
    assert_eq!(tree.state.selected(), vec![1]);
    assert_eq!(*tree.get_selected().path(), path(&["root", "c"]));
}

#[test]
fn remove_selected_of_the_only_entry_leaves_the_selection() {
    let entries = vec![file(&["root", "a"])];
    let mut tree = Filetree::from_dir(path(&["root"]), &entries).unwrap();
    tree.remove_selected().unwrap();
    assert_eq!(tree.files.dir().len(), 0);
    assert_eq!(tree.state.selected(), vec![0]);
    assert!(tree.selected_node().is_none());
}

#[test]
fn remove_selected_shows_the_directory_it_selects() {
    let mut tree = sample();
    tree.state.select(vec![2, 1, 0]);
    tree.state.open(vec![2, 1]);
    tree.remove_selected().unwrap();
    assert_eq!(tree.state.selected(), vec![2, 1]);
    assert_eq!(opened(&tree), vec![vec![2]]);
    tree.up();
    assert_eq!(tree.state.selected(), vec![2, 0]);
    tree.down();
    assert_eq!(tree.state.selected(), vec![2, 1]);
}

#[test]
fn remove_selected_of_an_only_child_selects_its_directory() {
    let mut tree = sample();
    tree.open_path(&path(&["root", "c", "e", "f"])).unwrap();
    tree.remove_selected().unwrap();
    assert_eq!(tree.state.selected(), vec![2, 1]);
    assert_eq!(tree.get_selected().as_dir().unwrap().len(), 0);
    assert_eq!(opened(&tree), vec![vec![2]]);
}

#[test]
fn remove_selected_without_a_selected_node_fails() {
    let mut tree = sample();
    tree.state.select(vec![4]);
    assert_eq!(tree.remove_selected().unwrap_err(), TreeError::InvalidLocation);
    assert_eq!(tree.files.dir().len(), 4);
    let mut none = empty();
    assert_eq!(none.remove_selected().unwrap_err(), TreeError::InvalidLocation);
}

#[test]
fn add_file_appends_and_keeps_the_state() {
    let mut tree = sample();
    tree.state.open(vec![2]);
    tree.state.select(vec![1]);
    tree.add_file(&[2], "new").unwrap();
    assert_eq!(*tree.get_node(&[2, 2]).unwrap().path(), path(&["root", "c", "new"]));
    assert_eq!(opened(&tree), vec![vec![2]]);
    assert_eq!(tree.state.selected(), vec![1]);
    assert_eq!(tree.add_file(&[1], "x").unwrap_err(), TreeError::InvalidLocation);
    assert_eq!(tree.add_file(&[], "x").unwrap_err(), TreeError::InvalidLocation);
}

#[test]
fn open_path_selects_the_entry_and_expands_what_is_above() {
    let mut tree = sample();
    tree.open_path(&path(&["root", "c", "e", "f"])).unwrap();
    assert_eq!(tree.state.selected(), vec![2, 1, 0]);
    assert_eq!(*tree.get_selected().path(), path(&["root", "c", "e", "f"]));
    assert_eq!(opened(&tree), vec![vec![2], vec![2, 1]]);
}

#[test]
fn open_path_does_not_expand_the_entry_itself() {
    let mut tree = sample();
    tree.open_path(&path(&["root", "c"])).unwrap();
    assert_eq!(tree.state.selected(), vec![2]);
    assert!(opened(&tree).is_empty());
    tree.open_path(&path(&["root", "c", "e"])).unwrap();
    assert_eq!(opened(&tree), vec![vec![2]]);
}

#[test]
fn open_path_of_a_missing_entry_fails() {
    let mut tree = sample();
    tree.state.select(vec![1]);
    assert_eq!(tree.open_path(&path(&["root", "c", "x"])).unwrap_err(), TreeError::NotFound);
    assert_eq!(tree.open_path(&path(&["root"])).unwrap_err(), TreeError::NotFound);
    assert_eq!(tree.state.selected(), vec![1]);
    assert!(opened(&tree).is_empty());
}

#[test]
fn keys_are_taken_only_with_the_focus() {
    let mut tree = sample();
    assert!(tree.handle_key(Key::Down));
    assert_eq!(tree.state.selected(), vec![1]);
    tree.focus(false);
    assert!(!tree.focused);
    assert!(!tree.handle_key(Key::Down));
    assert!(!tree.handle_key(Key::Last));
    assert!(!tree.handle_key(Key::Toggle));
    assert_eq!(tree.state.selected(), vec![1]);
    tree.focus(true);
    assert!(tree.handle_key(Key::Last));
    assert_eq!(tree.state.selected(), vec![3]);
    assert!(tree.handle_key(Key::Up));
    assert_eq!(tree.state.selected(), vec![2]);
    assert!(tree.handle_key(Key::Toggle));
    assert_eq!(opened(&tree), vec![vec![2]]);
    assert!(tree.handle_key(Key::First));
    assert_eq!(tree.state.selected(), vec![0]);
}

#[test]
fn commands_reach_the_tree() {
    let mut tree = sample();
    tree.apply(Command::Delete(path(&["root", "a"]))).unwrap();
    assert_eq!(*tree.get_node(&[0]).unwrap().path(), path(&["root", "b"]));
    tree.apply(Command::Add(path(&["root", "c", "n"]))).unwrap();
    assert_eq!(*tree.get_node(&[1, 2]).unwrap().path(), path(&["root", "c", "n"]));
    tree.apply(Command::Rename(path(&["root", "b"]), path(&["root", "b2"]))).unwrap();
    assert_eq!(*tree.get_node(&[0]).unwrap().path(), path(&["root", "b2"]));
    tree.apply(Command::Move(path(&["root", "g"]), path(&["root", "c", "g"]))).unwrap();
    assert_eq!(*tree.get_node(&[1, 3]).unwrap().path(), path(&["root", "c", "g"]));
    assert_eq!(tree.files.dir().len(), 2);
    tree.apply(Command::AddFile(vec![1, 1], "h".to_string())).unwrap();
    assert_eq!(*tree.get_node(&[1, 1, 1]).unwrap().path(), path(&["root", "c", "e", "h"]));
    tree.apply(Command::GotoFile(path(&["root", "c", "e", "h"]))).unwrap();
    assert_eq!(tree.state.selected(), vec![1, 1, 1]);
    assert_eq!(opened(&tree), vec![vec![1], vec![1, 1]]);
    tree.apply(Command::RemoveSelected).unwrap();
    assert!(tree.get_node(&[1, 1, 1]).is_none());
    assert_eq!(opened(&tree), vec![vec![1]]);
    tree.apply(Command::FilterFor(vec![path(&["root", "c", "d"])])).unwrap();
    assert!(tree.files.is_filtered());
    assert_eq!(tree.files.items().len(), 1);
}

#[test]
fn refused_commands_report_their_error() {
    let mut tree = sample();
    let gone = tree.apply(Command::Delete(path(&["root", "zz"])));
    assert_eq!(gone, Err(TreeError::NotFound));
    let orphan = tree.apply(Command::Add(path(&["root", "zz", "x"])));
    assert_eq!(orphan, Err(TreeError::NotFound));
    let unknown = tree.apply(Command::Rename(path(&["root", "zz"]), path(&["root", "y"])));
    assert_eq!(unknown, Err(TreeError::NotFound));
    let nowhere = tree.apply(Command::Move(path(&["root", "a"]), path(&["root", "zz", "a"])));
    assert_eq!(nowhere, Err(TreeError::NotFound));
    let hidden = tree.apply(Command::GotoFile(path(&["root", "zz"])));
    assert_eq!(hidden, Err(TreeError::NotFound));
    let on_file = tree.apply(Command::AddFile(vec![0], "x".to_string()));
    assert_eq!(on_file, Err(TreeError::InvalidLocation));
    tree.state.select(vec![8]);
    assert_eq!(tree.apply(Command::RemoveSelected), Err(TreeError::InvalidLocation));
    assert_eq!(tree.files.dir().len(), 4);
}

#[test]
fn under_a_filter_the_selected_entry_is_the_one_shown() {
    let entries = vec![file(&["root", "a"]), file(&["root", "b"])];
    let mut tree = Filetree::from_dir(path(&["root"]), &entries).unwrap();
    tree.apply(Command::FilterFor(vec![path(&["root", "b"])])).unwrap();
    assert_eq!(tree.files.items().len(), 1);
    assert_eq!(tree.state.selected(), vec![0]);
    assert_eq!(*tree.get_selected().path(), path(&["root", "b"]));
    assert_eq!(*tree.selected_node().unwrap().path(), path(&["root", "b"]));
    assert_eq!(*tree.get_node(&[0]).unwrap().path(), path(&["root", "a"]));
    tree.state.select(vec![1]);
    assert!(tree.selected_node().is_none());
}

#[test]
fn under_a_filter_nested_selections_are_mapped_level_by_level() {
    let mut tree = sample();
    tree.files.filter_include(vec![path(&["root", "c", "e", "f"]), path(&["root", "g"])]);
    assert_eq!(tree.files.dir_location(&[0]), Some(vec![2]));
    assert_eq!(tree.files.dir_location(&[0, 0]), Some(vec![2, 1]));
    assert_eq!(tree.files.dir_location(&[0, 0, 0]), Some(vec![2, 1, 0]));
    assert_eq!(tree.files.dir_location(&[1]), Some(vec![3]));
    assert_eq!(tree.files.dir_location(&[2]), None);
    assert_eq!(tree.files.dir_location(&[0, 1]), None);
    assert_eq!(tree.files.dir_location(&[1, 0]), None);
    assert_eq!(tree.files.dir_location(&[]), None);
    tree.state.select(vec![0, 0]);
    assert_eq!(*tree.get_selected().path(), path(&["root", "c", "e"]));
    tree.state.select(vec![1]);
    assert_eq!(*tree.get_selected().path(), path(&["root", "g"]));
}

#[test]
fn without_a_filter_a_location_is_its_own_origin() {
    let tree = sample();
    assert_eq!(tree.files.dir_location(&[2, 1, 0]), Some(vec![2, 1, 0]));
    assert_eq!(tree.files.dir_location(&[3]), Some(vec![3]));
    assert_eq!(tree.files.dir_location(&[4]), None);
    assert_eq!(tree.files.dir_location(&[0, 0]), None);
    assert_eq!(tree.files.dir_location(&[]), None);
}

#[test]
fn under_a_filter_toggle_looks_at_the_entry_shown() {
    let mut tree = sample();
    tree.files.filter_include(vec![path(&["root", "c", "d"]), path(&["root", "g"])]);
    tree.first();
    tree.toggle();
    assert_eq!(opened(&tree), vec![vec![0]]);
    tree.down();
    assert_eq!(tree.state.selected(), vec![0, 0]);
    assert_eq!(*tree.get_selected().path(), path(&["root", "c", "d"]));
    tree.toggle();
    assert_eq!(opened(&tree), vec![vec![0]]);
    tree.down();
    assert_eq!(tree.state.selected(), vec![1]);
    assert_eq!(*tree.get_selected().path(), path(&["root", "g"]));
    tree.toggle();
    assert_eq!(opened(&tree), vec![vec![0]]);
}

#[test]
fn under_a_filter_remove_selected_removes_the_entry_shown() {
    let mut tree = sample();
    tree.files.filter_include(vec![path(&["root", "c", "e", "f"])]);
    tree.state.select(vec![0, 0, 0]);
    let removed = tree.remove_selected().unwrap();
    assert_eq!(*removed.path(), path(&["root", "c", "e", "f"]));
    assert!(!tree.files.is_filtered());
    assert_eq!(tree.files.dir().len(), 4);
    assert_eq!(*tree.get_node(&[0]).unwrap().path(), path(&["root", "a"]));
    assert_eq!(tree.state.selected(), vec![2, 1]);
    assert_eq!(*tree.get_selected().path(), path(&["root", "c", "e"]));
    assert_eq!(opened(&tree), vec![vec![2]]);
}

#[test]
fn under_a_filter_remove_selected_at_the_top_removes_the_entry_shown() {
    let entries = vec![file(&["root", "a"]), file(&["root", "b"])];
    let mut tree = Filetree::from_dir(path(&["root"]), &entries).unwrap();
    tree.files.filter_include(vec![path(&["root", "b"])]);
    let removed = tree.remove_selected().unwrap();
    assert_eq!(*removed.path(), path(&["root", "b"]));
    assert_eq!(tree.files.dir().len(), 1);
    assert_eq!(tree.state.selected(), vec![0]);
    assert_eq!(*tree.get_selected().path(), path(&["root", "a"]));
}

#[test]
fn open_path_drops_a_filter_to_show_the_entry() {
    let mut tree = sample();
    tree.files.filter_include(vec![path(&["root", "g"])]);
    tree.open_path(&path(&["root", "c", "d"])).unwrap();
    assert!(!tree.files.is_filtered());
    assert_eq!(tree.state.selected(), vec![2, 0]);
    assert_eq!(*tree.get_selected().path(), path(&["root", "c", "d"]));
    assert_eq!(opened(&tree), vec![vec![2]]);
}

#[test]
fn open_path_that_fails_keeps_a_filter() {
    let mut tree = sample();
    tree.files.filter_include(vec![path(&["root", "g"])]);
    assert_eq!(tree.open_path(&path(&["root", "zz"])).unwrap_err(), TreeError::NotFound);
    assert!(tree.files.is_filtered());
    assert_eq!(tree.files.items().len(), 1);
}
