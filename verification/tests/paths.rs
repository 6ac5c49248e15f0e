use filetree::error::TreeError;
use filetree::path::{last_of_path, TreePath};

fn path(names: &[&str]) -> TreePath {
    TreePath::from_parts(names.iter().map(|n| n.to_string()).collect())
}

#[test]
fn new_path_has_no_names() {
    let p = TreePath::new();
    assert_eq!(p.len(), 0);
    assert!(p.parent().is_none());
    assert_eq!(last_of_path(&p), "");
}

#[test]
fn from_parts_keeps_the_names_in_order() {
    let p = path(&["home", "user", "notes.txt"]);
    assert_eq!(p.len(), 3);
    assert_eq!(p.name(0), Some("home"));
    assert_eq!(p.name(1), Some("user"));
    assert_eq!(p.name(2), Some("notes.txt"));
    assert_eq!(p.name(3), None);
}

#[test]
fn join_appends_one_name() {
    let p = path(&["home", "user"]).join("notes.txt");
    assert_eq!(p, path(&["home", "user", "notes.txt"]));
    assert_eq!(p.len(), 3);
}

#[test]
fn parent_drops_the_last_name() {
    let p = path(&["home", "user", "notes.txt"]);
    assert_eq!(p.parent(), Some(path(&["home", "user"])));
    assert_eq!(path(&["home"]).parent(), Some(TreePath::new()));
}

#[test]
fn last_of_path_is_the_final_name() {
    assert_eq!(last_of_path(&path(&["home", "user", "notes.txt"])), "notes.txt");
    assert_eq!(last_of_path(&path(&["home"])), "home");
}

#[test]
fn starts_with_compares_whole_names() {
    let p = path(&["home", "user", "notes.txt"]);
    assert!(p.starts_with(&path(&["home", "user"])));
    assert!(p.starts_with(&p));
    assert!(p.starts_with(&TreePath::new()));
    assert!(!p.starts_with(&path(&["home", "use"])));
    assert!(!p.starts_with(&path(&["home", "user", "notes.txt", "x"])));
    assert!(!path(&["home", "username"]).starts_with(&path(&["home", "user"])));
}

#[test]
fn is_parent_of_wants_exactly_one_more_name() {
    let dir = path(&["home", "user"]);
    assert!(dir.is_parent_of(&path(&["home", "user", "a"])));
    assert!(!dir.is_parent_of(&path(&["home", "user"])));
    assert!(!dir.is_parent_of(&path(&["home", "user", "a", "b"])));
    assert!(!dir.is_parent_of(&path(&["home", "other", "a"])));
    assert!(!dir.is_parent_of(&TreePath::new()));
}

#[test]
fn rebase_replaces_the_leading_names() {
    let p = path(&["root", "old", "sub", "f"]);
    assert_eq!(p.rebase(2, &path(&["root", "new"])), path(&["root", "new", "sub", "f"]));
    assert_eq!(p.rebase(4, &path(&["x"])), path(&["x"]));
    assert_eq!(p.rebase(0, &TreePath::new()), p);
    assert_eq!(p.rebase(5, &path(&["x", "y"])), path(&["x", "y"]));
}

#[test]
fn equality_is_name_by_name() {
    assert_eq!(path(&["a", "b"]), path(&["a", "b"]));
    assert_ne!(path(&["a", "b"]), path(&["a"]));
    assert_ne!(path(&["a", "b"]), path(&["a", "c"]));
    assert_ne!(path(&["a", "b"]), path(&["b", "a"]));
    let p = path(&["a", "b"]);
    assert_eq!(p.clone(), p);
}

#[test]
fn errors_say_what_went_wrong() {
    assert_eq!(TreeError::InvalidLocation.message(), "invalid location");
    assert_eq!(TreeError::NotFound.message(), "path is not in the tree");
    assert_ne!(TreeError::InvalidLocation, TreeError::NotFound);
}
