use filetree::filetree::{Entry, Filetree};
use filetree::path::TreePath;

fn path(names: &[&str]) -> TreePath {
    TreePath::from_parts(names.iter().map(|n| n.to_string()).collect())
}

fn file(names: &[&str]) -> Entry {
    Entry { path: path(names), is_dir: false }
}

fn dir(names: &[&str]) -> Entry {
    Entry { path: path(names), is_dir: true }
}

fn sample() -> Filetree {
    let entries = vec![
        file(&["root", "a"]),
        file(&["root", "b"]),
        dir(&["root", "c"]),
        file(&["root", "c", "d"]),
    ];
    match Filetree::from_dir(path(&["root"]), &entries) {
        Ok(tree) => tree,
        Err(e) => panic!("{:?}", e),
    }
}

#[test]
fn removing_a_leaves_b_and_c_with_d() {
    let mut tree = sample();
    let removed = tree.remove_file(&[0]).unwrap();
    assert_eq!(*removed.path(), path(&["root", "a"]));
    let items = tree.files.items();
    assert_eq!(items.len(), 2);
    let shown = format!("{:?}", items);
    let b = shown.find("\"b\"").unwrap();
    let c = shown.find("\"c\"").unwrap();
    let d = shown.find("\"d\"").unwrap();
    assert!(b < c && c < d);
    assert!(!shown.contains("\"a\""));
    assert!(items[0].child(0).is_none());
    assert!(items[1].child(0).is_some());
    assert!(items[1].child(1).is_none());
    tree.state.select(vec![1]);
    tree.toggle();
    assert_eq!(tree.state.get_all_opened(), vec![vec![1]]);
}
